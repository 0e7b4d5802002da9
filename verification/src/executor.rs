//! Execution of a parsed query.

use vstd::prelude::*;

use crate::ast::{
    clause_models, opt_model, path_models, Clause, ClauseModel, ExprModel, MatchClause, PathModel,
    ProjectionModel, Query, QueryModel, UnwindClause, WithClause,
};
use crate::error::{
    failure, lemma_prepend_concat, lemma_prepend_nothing, lemma_prepend_push, prepend, CypherError,
    ErrorModel,
};
use crate::eval::{binding_of, eval, filter_from};
use crate::finalize::{
    finalize, finalized, lemma_finalized_rows, projected_models, Projected, ProjectedModel,
};
use crate::hoist::{filter_hoisted, same_on};
use crate::matcher::{rows_result, Executor, NoFilter};
use crate::pattern::{
    add_name, add_paths, add_patterns_vars, add_var, all_grow_from, grows_from, keep_all,
    lemma_grow_from_self, lemma_match_keeps_bindings, match_paths,
};
use crate::project::{lemma_projection_wide, projection_columns, projection_rows};
use crate::provider::{lawful_nodes, GraphProvider};
use crate::pushdown::{keep_passing, pushed_from, Pushed};
use crate::row::{lemma_row_models_push, row_models, Binding, BindingModel, Row, RowModel};
use crate::seqs::{lemma_concat_contains, lemma_push_contains};
use crate::text::{has_name, lemma_texts_push, texts, Text};
use crate::value::{value_models, CypherValue, ValueModel};

verus! {

/// The tabular result of executing a query.
#[derive(Debug, Clone, PartialEq)]
pub struct ResultSet {
    pub columns: Vec<String>,
    pub rows: Vec<Vec<CypherValue>>,
}

/// The model of a [`ResultSet`].
#[verifier::ext_equal]
pub struct ResultModel {
    pub columns: Seq<Text>,
    pub rows: Seq<Seq<ValueModel>>,
}

/// The models of the rows of a result.
pub open spec fn result_rows(rows: Seq<Vec<CypherValue>>) -> Seq<Seq<ValueModel>> {
    Seq::new(rows.len(), |i: int| value_models(rows[i]@))
}

impl ResultSet {
    /// The model of the result.
    pub open spec fn view(&self) -> ResultModel {
        ResultModel { columns: texts(self.columns@), rows: result_rows(self.rows@) }
    }
}

// ---- MATCH -------------------------------------------------------------------

/// The rows that a `MATCH` makes of its input: those of its patterns, with candidates that a pushed
/// predicate rules out left away, in which its `WHERE` holds. If the input is a single row, every
/// variable that it binds is constant throughout.
pub open spec fn match_rows<G: GraphProvider>(
    g: &G,
    rows: Seq<RowModel<G::NodeId>>,
    clauses: Seq<ClauseModel>,
    i: int,
    patterns: Seq<PathModel>,
    where_clause: Option<ExprModel>,
) -> Result<Seq<RowModel<G::NodeId>>, ErrorModel> {
    match match_paths(g, rows, patterns, 0, keep_passing(g, pushed_from(clauses, i))) {
        Err(e) => Err(e),
        Ok(matched) => match where_clause {
            None => Ok(matched),
            Some(predicate) => if rows.len() == 1 && rows[0].dom() != Set::<Text>::empty() {
                filter_hoisted(g, matched, predicate, rows[0].dom())
            } else {
                filter_from(g, matched, predicate, 0)
            },
        },
    }
}

// ---- OPTIONAL MATCH ------------------------------------------------------------

/// The row with the variables bound to null.
pub open spec fn with_nulls<N>(row: RowModel<N>, names: Seq<Text>) -> RowModel<N>
    decreases names.len(),
{
    if names.len() == 0 {
        row
    } else {
        with_nulls(row, names.drop_last()).insert(
            names.last(),
            BindingModel::Value(ValueModel::Null),
        )
    }
}

/// Those of the names that are not in scope.
pub open spec fn names_outside(names: Seq<Text>, scope: Seq<Text>) -> Seq<Text>
    decreases names.len(),
{
    if names.len() == 0 {
        names
    } else if scope.contains(names.last()) {
        names_outside(names.drop_last(), scope)
    } else {
        names_outside(names.drop_last(), scope).push(names.last())
    }
}

/// What the patterns and the `WHERE` of an `OPTIONAL MATCH` make of one row.
pub open spec fn optional_matches<G: GraphProvider>(
    g: &G,
    row: RowModel<G::NodeId>,
    patterns: Seq<PathModel>,
    where_clause: Option<ExprModel>,
) -> Result<Seq<RowModel<G::NodeId>>, ErrorModel> {
    match match_paths(g, seq![row], patterns, 0, keep_all()) {
        Err(e) => Err(e),
        Ok(matched) => match where_clause {
            None => Ok(matched),
            Some(predicate) => filter_from(g, matched, predicate, 0),
        },
    }
}

/// The rows that an `OPTIONAL MATCH` makes of the rows from position `i` on: a left join. A row
/// without a match is kept, with the new variables bound to null.
pub open spec fn optional_rows<G: GraphProvider>(
    g: &G,
    rows: Seq<RowModel<G::NodeId>>,
    patterns: Seq<PathModel>,
    where_clause: Option<ExprModel>,
    new_vars: Seq<Text>,
    i: int,
) -> Result<Seq<RowModel<G::NodeId>>, ErrorModel>
    decreases rows.len() - i,
{
    if i < 0 || i >= rows.len() {
        Ok(Seq::empty())
    } else {
        match optional_matches(g, rows[i], patterns, where_clause) {
            Err(e) => Err(e),
            Ok(matched) => prepend(
                if matched.len() == 0 {
                    seq![with_nulls(rows[i], new_vars)]
                } else {
                    matched
                },
                optional_rows(g, rows, patterns, where_clause, new_vars, i + 1),
            ),
        }
    }
}

/// The variables that patterns introduce into a scope.
pub open spec fn new_names(patterns: Seq<PathModel>, scope: Seq<Text>) -> Seq<Text> {
    names_outside(add_paths(Seq::empty(), patterns, patterns.len()), scope)
}

// ---- UNWIND --------------------------------------------------------------------

/// The row with the variable bound to each of the values in turn.
pub open spec fn unwound<N>(row: RowModel<N>, var: Text, items: Seq<ValueModel>) -> Seq<
    RowModel<N>,
> {
    Seq::new(items.len(), |i: int| row.insert(var, BindingModel::Value(items[i])))
}

/// The rows that an `UNWIND` makes of the rows from position `i` on: one for each element of the
/// list, and none for null.
pub open spec fn unwind_rows<G: GraphProvider>(
    g: &G,
    rows: Seq<RowModel<G::NodeId>>,
    e: ExprModel,
    var: Text,
    i: int,
) -> Result<Seq<RowModel<G::NodeId>>, ErrorModel>
    decreases rows.len() - i,
{
    if i < 0 || i >= rows.len() {
        Ok(Seq::empty())
    } else {
        match eval(g, rows[i], e) {
            Err(e) => Err(e),
            Ok(ValueModel::List(items)) => prepend(
                unwound(rows[i], var, items),
                unwind_rows(g, rows, e, var, i + 1),
            ),
            Ok(ValueModel::Null) => unwind_rows(g, rows, e, var, i + 1),
            Ok(_) => Err(failure("UNWIND expects a list"@)),
        }
    }
}

// ---- WITH and RETURN -------------------------------------------------------------

/// The rows of a projection after DISTINCT, ORDER BY, SKIP and LIMIT.
pub open spec fn projection_output<G: GraphProvider>(
    g: &G,
    p: ProjectionModel,
    rows: Seq<RowModel<G::NodeId>>,
    scope: Seq<Text>,
) -> Result<Seq<ProjectedModel<G::NodeId>>, ErrorModel> {
    match projection_rows(g, p, rows, scope) {
        Err(e) => Err(e),
        Ok(out) => finalized(p, projection_columns(p, scope), out),
    }
}

/// The bindings of projected rows.
pub open spec fn output_bindings<N>(rows: Seq<ProjectedModel<N>>) -> Seq<RowModel<N>> {
    Seq::new(rows.len(), |i: int| rows[i].bindings)
}

/// The values of projected rows.
pub open spec fn output_values<N>(rows: Seq<ProjectedModel<N>>) -> Seq<Seq<ValueModel>> {
    Seq::new(rows.len(), |i: int| rows[i].values)
}

/// The rows that a `WITH` carries forward: the projected bindings in which its `WHERE` holds.
pub open spec fn with_rows<G: GraphProvider>(
    g: &G,
    p: ProjectionModel,
    where_clause: Option<ExprModel>,
    rows: Seq<RowModel<G::NodeId>>,
    scope: Seq<Text>,
) -> Result<Seq<RowModel<G::NodeId>>, ErrorModel> {
    match projection_output(g, p, rows, scope) {
        Err(e) => Err(e),
        Ok(out) => match where_clause {
            None => Ok(output_bindings(out)),
            Some(predicate) => filter_from(g, output_bindings(out), predicate, 0),
        },
    }
}

// ---- The query -------------------------------------------------------------------

/// The rows after the clause at position `i`.
pub open spec fn clause_rows<G: GraphProvider>(
    g: &G,
    clauses: Seq<ClauseModel>,
    i: int,
    rows: Seq<RowModel<G::NodeId>>,
    scope: Seq<Text>,
) -> Result<Seq<RowModel<G::NodeId>>, ErrorModel> {
    match clauses[i] {
        ClauseModel::Match { optional, patterns, where_clause } => if optional {
            optional_rows(g, rows, patterns, where_clause, new_names(patterns, scope), 0)
        } else {
            match_rows(g, rows, clauses, i, patterns, where_clause)
        },
        ClauseModel::Unwind { expr, var } => unwind_rows(g, rows, expr, var, 0),
        ClauseModel::With { projection, where_clause } => with_rows(
            g,
            projection,
            where_clause,
            rows,
            scope,
        ),
    }
}

/// The variables in scope after a clause.
pub open spec fn clause_scope(clause: ClauseModel, scope: Seq<Text>) -> Seq<Text> {
    match clause {
        ClauseModel::Match { optional, patterns, where_clause } => add_paths(
            scope,
            patterns,
            patterns.len(),
        ),
        ClauseModel::Unwind { expr, var } => add_name(scope, Some(var)),
        ClauseModel::With { projection, where_clause } => projection_columns(projection, scope),
    }
}

/// The rows and the scope after the clauses from position `i` on.
pub open spec fn run_clauses<G: GraphProvider>(
    g: &G,
    clauses: Seq<ClauseModel>,
    i: int,
    rows: Seq<RowModel<G::NodeId>>,
    scope: Seq<Text>,
) -> Result<(Seq<RowModel<G::NodeId>>, Seq<Text>), ErrorModel>
    decreases clauses.len() - i,
{
    if i < 0 || i >= clauses.len() {
        Ok((rows, scope))
    } else {
        match clause_rows(g, clauses, i, rows, scope) {
            Err(e) => Err(e),
            Ok(next) => run_clauses(g, clauses, i + 1, next, clause_scope(clauses[i], scope)),
        }
    }
}

/// The result of a query on a graph.
pub open spec fn query_result<G: GraphProvider>(g: &G, q: QueryModel) -> Result<
    ResultModel,
    ErrorModel,
> {
    match run_clauses(g, q.clauses, 0, seq![Map::empty()], Seq::empty()) {
        Err(e) => Err(e),
        Ok((rows, scope)) => match projection_output(g, q.result, rows, scope) {
            Err(e) => Err(e),
            Ok(out) => Ok(
                ResultModel {
                    columns: projection_columns(q.result, scope),
                    rows: output_values(out),
                },
            ),
        },
    }
}

// ---- Executable counterparts -----------------------------------------------------

/// Rows that grow from one row bind its variables alike.
proof fn lemma_constant_rows<N>(rows: Seq<RowModel<N>>, base: Seq<RowModel<N>>)
    requires
        base.len() == 1,
        all_grow_from(rows, base),
    ensures
        forall|k: int|
            0 <= k < rows.len() ==> same_on(#[trigger] rows[k], rows[0], base[0].dom()),
{
    assert forall|k: int| 0 <= k < rows.len() implies same_on(
        #[trigger] rows[k],
        rows[0],
        base[0].dom(),
    ) by {
        assert(grows_from(rows[k], base));
        assert(grows_from(rows[0], base));
        assert(base[0].submap_of(rows[k]));
        assert(base[0].submap_of(rows[0]));
        assert forall|name: Text| base[0].dom().contains(name) implies #[trigger] binding_of(
            rows[k],
            name,
        ) == binding_of(rows[0], name) by {
            assert(rows[k].dom().contains(name));
            assert(rows[0].dom().contains(name));
        }
    }
}

/// The names that are not in scope.
fn outside(names: &Vec<String>, scope: &Vec<String>) -> (r: Vec<String>)
    ensures
        texts(r@) == names_outside(texts(names@), texts(scope@)),
{
    let ghost all = texts(names@);
    let mut out: Vec<String> = Vec::new();
    let mut i: usize = 0;
    assert(texts(out@) =~= names_outside(all.take(0), texts(scope@)));
    while i < names.len()
        invariant
            i <= names@.len(),
            all == texts(names@),
            texts(out@) == names_outside(all.take(i as int), texts(scope@)),
        decreases names@.len() - i,
    {
        let ghost after = all.take(i as int + 1);
        assert(after.drop_last() =~= all.take(i as int));
        assert(after.last() == names@[i as int]@);
        if !has_name(scope, &names[i]) {
            let copy = names[i].clone();
            proof {
                lemma_texts_push(out@, copy);
            }
            out.push(copy);
        }
        i += 1;
    }
    assert(all.take(i as int) =~= all);
    out
}

/// The row with the variables bound to null.
fn null_row<N>(row: Row<N>, names: &Vec<String>) -> (r: Row<N>)
    ensures
        r@ == with_nulls(row@, texts(names@)),
{
    let ghost all = texts(names@);
    let ghost start = row@;
    let mut row = row;
    let mut i: usize = 0;
    assert(all.take(0) =~= Seq::empty());
    while i < names.len()
        invariant
            i <= names@.len(),
            all == texts(names@),
            row@ == with_nulls(start, all.take(i as int)),
        decreases names@.len() - i,
    {
        let ghost after = all.take(i as int + 1);
        assert(after.drop_last() =~= all.take(i as int));
        assert(after.last() == names@[i as int]@);
        row = row.with(&names[i], Binding::Value(CypherValue::Null));
        i += 1;
    }
    assert(all.take(i as int) =~= all);
    row
}

/// The models of concatenated rows.
proof fn lemma_row_models_concat<N>(a: Seq<Row<N>>, b: Seq<Row<N>>)
    ensures
        row_models(a + b) == row_models(a) + row_models(b),
{
    assert(row_models(a + b) =~= row_models(a) + row_models(b));
}

impl<'a, G: GraphProvider> Executor<'a, G> {
    /// Runs a `MATCH`.
    fn run_match(
        &mut self,
        rows: Vec<Row<G::NodeId>>,
        clauses: &Vec<Clause>,
        i: usize,
        clause: &MatchClause,
    ) -> (r: Result<Vec<Row<G::NodeId>>, CypherError>)
        requires
            old(self).ok(),
        ensures
            final(self).ok(),
            final(self).source() == old(self).source(),
            rows_result(
                r,
                match_rows(
                    old(self).source(),
                    row_models(rows@),
                    clause_models(clauses@),
                    i as int,
                    path_models(clause.patterns@),
                    opt_model(clause.where_clause),
                ),
            ),
    {
        let ghost g = self.source();
        let ghost base = row_models(rows@);
        // Variables that are constant across the whole pass: if the clause's input is a single row,
        // every variable it binds has the same value in every row produced below.
        let constant_vars: Vec<String> = if rows.len() == 1 {
            rows[0].names()
        } else {
            Vec::new()
        };
        proof {
            if base.len() == 1 {
                assert(base[0] == rows@[0]@);
                assert(texts(constant_vars@).to_set() =~= base[0].dom());
                if constant_vars@.len() > 0 {
                    assert(texts(constant_vars@).contains(texts(constant_vars@)[0]));
                    assert(base[0].dom().contains(texts(constant_vars@)[0]));
                } else {
                    assert(base[0].dom() =~= Set::empty());
                }
            }
        }
        // Predicates on one variable are applied during candidate generation so scans prune before
        // expansion. The full WHERE still runs afterwards.
        let pushed = Pushed::build(clauses, i);
        let matched = match self.eval_patterns(rows, &clause.patterns, &pushed) {
            Ok(matched) => matched,
            Err(e) => {
                return Err(e);
            },
        };
        match &clause.where_clause {
            Some(predicate) => {
                if constant_vars.len() > 0 {
                    proof {
                        lemma_grow_from_self(base);
                        lemma_match_keeps_bindings(
                            g,
                            base,
                            path_models(clause.patterns@),
                            0,
                            keep_passing(g, pushed@),
                            base,
                        );
                        let out = row_models(matched@);
                        lemma_constant_rows(out, base);
                        assert forall|k: int| 0 <= k < matched@.len() implies same_on(
                            (#[trigger] matched@[k])@,
                            matched@[0]@,
                            texts(constant_vars@).to_set(),
                        ) by {
                            assert(same_on(out[k], out[0], base[0].dom()));
                        }
                    }
                    self.filter_rows_hoisted(matched, predicate, &constant_vars)
                } else {
                    self.filter_rows(matched, predicate, None)
                }
            },
            None => Ok(matched),
        }
    }

    /// What the patterns and the `WHERE` of an `OPTIONAL MATCH` make of one row.
    fn optional_one(&mut self, row: &Row<G::NodeId>, clause: &MatchClause) -> (r: Result<
        Vec<Row<G::NodeId>>,
        CypherError,
    >)
        requires
            old(self).ok(),
        ensures
            final(self).ok(),
            final(self).source() == old(self).source(),
            rows_result(
                r,
                optional_matches(
                    old(self).source(),
                    row@,
                    path_models(clause.patterns@),
                    opt_model(clause.where_clause),
                ),
            ),
    {
        let mut base: Vec<Row<G::NodeId>> = Vec::new();
        base.push(row.copy());
        assert(row_models(base@) =~= seq![row@]);
        match self.eval_patterns(base, &clause.patterns, &NoFilter) {
            Ok(matched) => match &clause.where_clause {
                Some(predicate) => self.filter_rows(matched, predicate, None),
                None => Ok(matched),
            },
            Err(e) => Err(e),
        }
    }

    /// Runs `OPTIONAL MATCH`: a left join. For each input row, the patterns (and the clause's
    /// `WHERE`) are matched independently; if nothing matches, the input row is kept with the
    /// clause's newly introduced variables bound to null.
    fn run_optional_match(
        &mut self,
        rows: Vec<Row<G::NodeId>>,
        clause: &MatchClause,
        scope: &Vec<String>,
    ) -> (r: Result<Vec<Row<G::NodeId>>, CypherError>)
        requires
            old(self).ok(),
        ensures
            final(self).ok(),
            final(self).source() == old(self).source(),
            rows_result(
                r,
                optional_rows(
                    old(self).source(),
                    row_models(rows@),
                    path_models(clause.patterns@),
                    opt_model(clause.where_clause),
                    new_names(path_models(clause.patterns@), texts(scope@)),
                    0,
                ),
            ),
    {
        let ghost g = self.source();
        let ghost patterns = path_models(clause.patterns@);
        let ghost predicate = opt_model(clause.where_clause);
        let ghost items = rows@;
        let ghost all = row_models(rows@);
        let mut names: Vec<String> = Vec::new();
        assert(texts(names@) =~= Seq::empty());
        add_patterns_vars(&mut names, &clause.patterns);
        let new_vars = outside(&names, scope);
        let ghost nulls = texts(new_vars@);
        let mut output: Vec<Row<G::NodeId>> = Vec::new();
        proof {
            lemma_prepend_nothing(
                row_models(output@),
                optional_rows(g, all, patterns, predicate, nulls, 0),
            );
        }
        for row in it: rows
            invariant
                it.seq() == items,
                all == row_models(items),
                self.ok(),
                self.source() == g,
                old(self).source() == g,
                patterns == path_models(clause.patterns@),
                predicate == opt_model(clause.where_clause),
                nulls == texts(new_vars@),
                nulls == new_names(patterns, texts(scope@)),
                optional_rows(g, all, patterns, predicate, nulls, 0) == prepend(
                    row_models(output@),
                    optional_rows(g, all, patterns, predicate, nulls, it.index() as int),
                ),
        {
            let ghost k = it.index() as int;
            assert(row == items[k]);
            assert(all[k] == row@);
            let ghost rest = optional_rows(g, all, patterns, predicate, nulls, k + 1);
            match self.optional_one(&row, clause) {
                Ok(matched) => {
                    if matched.len() == 0 {
                        let kept = null_row(row, &new_vars);
                        proof {
                            lemma_row_models_push(output@, kept);
                            lemma_prepend_push(row_models(output@), kept@, rest);
                        }
                        output.push(kept);
                    } else {
                        let mut matched = matched;
                        proof {
                            lemma_row_models_concat(output@, matched@);
                            lemma_prepend_concat(row_models(output@), row_models(matched@), rest);
                        }
                        output.append(&mut matched);
                    }
                },
                Err(e) => {
                    return Err(e);
                },
            }
        }
        assert(row_models(output@) + Seq::<RowModel<G::NodeId>>::empty() =~= row_models(output@));
        Ok(output)
    }

    /// Runs `UNWIND <expr> AS var`: for each input row, evaluates the list and emits one output row
    /// per element with `var` bound to it. A null list yields no rows; a non-list is an error.
    fn run_unwind(&mut self, rows: &Vec<Row<G::NodeId>>, clause: &UnwindClause) -> (r: Result<
        Vec<Row<G::NodeId>>,
        CypherError,
    >)
        requires
            old(self).ok(),
        ensures
            final(self).ok(),
            final(self).source() == old(self).source(),
            rows_result(
                r,
                unwind_rows(
                    old(self).source(),
                    row_models(rows@),
                    clause.expr@,
                    clause.var@,
                    0,
                ),
            ),
    {
        let ghost g = self.source();
        let ghost all = row_models(rows@);
        let ghost e = clause.expr@;
        let ghost var = clause.var@;
        let mut output: Vec<Row<G::NodeId>> = Vec::new();
        let mut i: usize = 0;
        proof {
            lemma_prepend_nothing(row_models(output@), unwind_rows(g, all, e, var, 0));
        }
        while i < rows.len()
            invariant
                self.ok(),
                self.source() == g,
                old(self).source() == g,
                all == row_models(rows@),
                e == clause.expr@,
                var == clause.var@,
                i <= rows@.len(),
                unwind_rows(g, all, e, var, 0) == prepend(
                    row_models(output@),
                    unwind_rows(g, all, e, var, i as int),
                ),
            decreases rows@.len() - i,
        {
            let row = &rows[i];
            assert(all[i as int] == row@);
            match self.eval_expr(row, &clause.expr, None) {
                Ok(CypherValue::List(items)) => {
                    let ghost models = value_models(items@);
                    let ghost values = items@;
                    let ghost before = row_models(output@);
                    assert(before + unwound(row@, var, models).take(0) =~= before);
                    for item in it: items
                        invariant
                            it.seq() == values,
                            models == value_models(values),
                            var == clause.var@,
                            row_models(output@) == before + unwound(row@, var, models).take(
                                it.index() as int,
                            ),
                    {
                        let ghost k = it.index() as int;
                        assert(item == values[k]);
                        let new_row = row.copy().with(&clause.var, Binding::Value(item));
                        proof {
                            lemma_row_models_push(output@, new_row);
                        }
                        output.push(new_row);
                        assert(row_models(output@) =~= before + unwound(row@, var, models).take(
                            k + 1,
                        ));
                    }
                    proof {
                        let here = unwound(row@, var, models);
                        assert(here.take(here.len() as int) =~= here);
                        lemma_prepend_concat(
                            before,
                            here,
                            unwind_rows(g, all, e, var, i as int + 1),
                        );
                    }
                },
                Ok(CypherValue::Null) => {},
                Ok(_) => {
                    return Err(CypherError::execution("UNWIND expects a list"));
                },
                Err(e) => {
                    return Err(e);
                },
            }
            i += 1;
        }
        assert(row_models(output@) + Seq::<RowModel<G::NodeId>>::empty() =~= row_models(output@));
        Ok(output)
    }

    /// Runs a `WITH`: the columns, and the rows that are carried forward.
    fn run_with(
        &mut self,
        rows: &Vec<Row<G::NodeId>>,
        clause: &WithClause,
        scope: &Vec<String>,
    ) -> (r: Result<(Vec<String>, Vec<Row<G::NodeId>>), CypherError>)
        requires
            old(self).ok(),
        ensures
            final(self).ok(),
            final(self).source() == old(self).source(),
            match with_rows(
                old(self).source(),
                clause.projection@,
                opt_model(clause.where_clause),
                row_models(rows@),
                texts(scope@),
            ) {
                Ok(out) => r is Ok && row_models(r->Ok_0.1@) == out && texts(r->Ok_0.0@)
                    == projection_columns(clause.projection@, texts(scope@)),
                Err(e) => r is Err && r->Err_0@ == e,
            },
    {
        let (columns, output) = match self.project_output(&clause.projection, rows, scope) {
            Ok(output) => output,
            Err(e) => {
                return Err(e);
            },
        };
        let ghost items = output@;
        let mut bindings: Vec<Row<G::NodeId>> = Vec::new();
        for p in it: output
            invariant
                it.seq() == items,
                bindings@.len() == it.index(),
                forall|k: int|
                    0 <= k < bindings@.len() ==> (#[trigger] bindings@[k])@
                        == items[k]@.bindings,
        {
            bindings.push(p.bindings);
        }
        assert(row_models(bindings@) =~= output_bindings(projected_models(items)));
        // `WITH ... WHERE` filters the projected bindings.
        match &clause.where_clause {
            Some(predicate) => match self.filter_rows(bindings, predicate, None) {
                Ok(kept) => Ok((columns, kept)),
                Err(e) => Err(e),
            },
            None => Ok((columns, bindings)),
        }
    }

    /// The columns and the rows of a projection, with DISTINCT, ORDER BY, SKIP and LIMIT applied.
    fn project_output(
        &mut self,
        projection: &crate::ast::Projection,
        rows: &Vec<Row<G::NodeId>>,
        scope: &Vec<String>,
    ) -> (r: Result<(Vec<String>, Vec<Projected<G::NodeId>>), CypherError>)
        requires
            old(self).ok(),
        ensures
            final(self).ok(),
            final(self).source() == old(self).source(),
            match projection_output(
                old(self).source(),
                projection@,
                row_models(rows@),
                texts(scope@),
            ) {
                Ok(out) => r is Ok && projected_models(r->Ok_0.1@) == out && texts(r->Ok_0.0@)
                    == projection_columns(projection@, texts(scope@)),
                Err(e) => r is Err && r->Err_0@ == e,
            },
    {
        let (columns, projected) = match self.project_rows(projection, rows, scope) {
            Ok(output) => output,
            Err(e) => {
                return Err(e);
            },
        };
        match finalize(projection, &columns, projected) {
            Ok(output) => Ok((columns, output)),
            Err(e) => Err(e),
        }
    }

    /// Runs a query.
    fn run(&mut self, query: &Query) -> (r: Result<ResultSet, CypherError>)
        requires
            old(self).ok(),
        ensures
            match query_result(old(self).source(), query@) {
                Ok(result) => r is Ok && r->Ok_0@ == result,
                Err(e) => r is Err && r->Err_0@ == e,
            },
    {
        let ghost g = self.source();
        let ghost clauses = clause_models(query.clauses@);
        let mut rows: Vec<Row<G::NodeId>> = Vec::new();
        rows.push(Row::new());
        let mut scope: Vec<String> = Vec::new();
        let mut i: usize = 0;
        assert(row_models(rows@) =~= seq![Map::empty()]);
        assert(texts(scope@) =~= Seq::empty());
        while i < query.clauses.len()
            invariant
                self.ok(),
                self.source() == g,
                old(self).source() == g,
                clauses == clause_models(query.clauses@),
                i <= query.clauses@.len(),
                run_clauses(g, clauses, 0, seq![Map::empty()], Seq::empty()) == run_clauses(
                    g,
                    clauses,
                    i as int,
                    row_models(rows@),
                    texts(scope@),
                ),
            decreases query.clauses@.len() - i,
        {
            assert(clauses[i as int] == query.clauses@[i as int]@);
            match &query.clauses[i] {
                Clause::Match(m) => {
                    let next = if m.optional {
                        self.run_optional_match(rows, m, &scope)
                    } else {
                        self.run_match(rows, &query.clauses, i, m)
                    };
                    rows = match next {
                        Ok(next) => next,
                        Err(e) => {
                            return Err(e);
                        },
                    };
                    add_patterns_vars(&mut scope, &m.patterns);
                },
                Clause::Unwind(u) => {
                    rows = match self.run_unwind(&rows, u) {
                        Ok(next) => next,
                        Err(e) => {
                            return Err(e);
                        },
                    };
                    let name = Some(u.var.clone());
                    add_var(&mut scope, &name);
                },
                Clause::With(w) => {
                    let (columns, next) = match self.run_with(&rows, w, &scope) {
                        Ok(output) => output,
                        Err(e) => {
                            return Err(e);
                        },
                    };
                    rows = next;
                    scope = columns;
                },
            }
            i += 1;
        }
        // Terminal RETURN.
        let (columns, output) = match self.project_output(&query.result, &rows, &scope) {
            Ok(output) => output,
            Err(e) => {
                return Err(e);
            },
        };
        let ghost items = output@;
        let mut values: Vec<Vec<CypherValue>> = Vec::new();
        for p in it: output
            invariant
                it.seq() == items,
                values@.len() == it.index(),
                forall|k: int|
                    0 <= k < values@.len() ==> value_models((#[trigger] values@[k])@)
                        == items[k]@.values,
        {
            values.push(p.values);
        }
        assert(result_rows(values@) =~= output_values(projected_models(items)));
        Ok(ResultSet { columns, rows: values })
    }
}

/// Executes a parsed query against any [`GraphProvider`].
///
/// # Errors
///
/// Returns a [`CypherError::Execution`] for unknown relationship types, aggregates used in `WHERE`,
/// or `ORDER BY` expressions that cannot be resolved against the projection.
pub fn execute<G: GraphProvider>(graph: &G, query: &Query) -> (r: Result<ResultSet, CypherError>)
    requires
        lawful_nodes::<G>(),
    ensures
        match query_result(graph, query@) {
            Ok(result) => r is Ok && r->Ok_0@ == result,
            Err(e) => r is Err && r->Err_0@ == e,
        },
{
    let mut executor = Executor::new(graph);
    executor.run(query)
}

/// Every row of a result has one value for each column.
pub proof fn lemma_result_is_rectangular<G: GraphProvider>(g: &G, q: QueryModel)
    ensures
        query_result(g, q) matches Ok(result) ==> forall|i: int|
            0 <= i < result.rows.len() ==> (#[trigger] result.rows[i]).len()
                == result.columns.len(),
{
    if let Ok((rows, scope)) = run_clauses(g, q.clauses, 0, seq![Map::empty()], Seq::empty()) {
        lemma_projection_wide(g, q.result, rows, scope);
        if let Ok(out) = projection_rows(g, q.result, rows, scope) {
            lemma_finalized_rows(q.result, projection_columns(q.result, scope), out);
            if let Ok(kept) = finalized(q.result, projection_columns(q.result, scope), out) {
                assert forall|i: int| 0 <= i < kept.len() implies (#[trigger] kept[i]).values.len()
                    == projection_columns(q.result, scope).len() by {
                    let k = choose|k: int| 0 <= k < out.len() && out[k] == kept[i];
                    assert(out[k].values.len() == projection_columns(q.result, scope).len());
                }
            }
        }
    }
}

/// Whether a row binds none of the names.
pub open spec fn new_to<N>(row: RowModel<N>, names: Seq<Text>) -> bool {
    forall|i: int| 0 <= i < names.len() ==> !row.contains_key(#[trigger] names[i])
}

/// Whether rows are a left join of those that went in: each of these comes out at least once, with
/// all its bindings; where nothing matches it, it comes out with the new variables bound to null;
/// and nothing else comes out.
pub open spec fn left_join<G: GraphProvider>(
    g: &G,
    rows: Seq<RowModel<G::NodeId>>,
    patterns: Seq<PathModel>,
    where_clause: Option<ExprModel>,
    new_vars: Seq<Text>,
    out: Seq<RowModel<G::NodeId>>,
) -> bool {
    &&& forall|k: int| 0 <= k < rows.len() ==> grown_in(#[trigger] rows[k], out)
    &&& forall|k: int|
        0 <= k < rows.len() && optional_matches(
            g,
            #[trigger] rows[k],
            patterns,
            where_clause,
        )->Ok_0.len() == 0 ==> out.contains(with_nulls(rows[k], new_vars))
    &&& all_grow_from(out, rows)
}

/// Whether a row is among the rows, with more bindings or none.
pub open spec fn grown_in<N>(row: RowModel<N>, out: Seq<RowModel<N>>) -> bool {
    exists|j: int| 0 <= j < out.len() && row.submap_of(#[trigger] out[j])
}

/// `OPTIONAL MATCH` is a left join, if the variables that may become null are new to the rows.
pub proof fn lemma_optional_joins<G: GraphProvider>(
    g: &G,
    rows: Seq<RowModel<G::NodeId>>,
    patterns: Seq<PathModel>,
    where_clause: Option<ExprModel>,
    new_vars: Seq<Text>,
    i: int,
)
    requires
        0 <= i <= rows.len(),
        forall|k: int| 0 <= k < rows.len() ==> new_to(#[trigger] rows[k], new_vars),
    ensures
        optional_rows(g, rows, patterns, where_clause, new_vars, i) matches Ok(out) ==> left_join(
            g,
            rows.skip(i),
            patterns,
            where_clause,
            new_vars,
            out,
        ),
    decreases rows.len() - i,
{
    if i < rows.len() {
        lemma_optional_joins(g, rows, patterns, where_clause, new_vars, i + 1);
        if let Ok(out) = optional_rows(g, rows, patterns, where_clause, new_vars, i) {
            let rest = optional_rows(g, rows, patterns, where_clause, new_vars, i + 1)->Ok_0;
            let matched = optional_matches(g, rows[i], patterns, where_clause)->Ok_0;
            let here = if matched.len() == 0 {
                seq![with_nulls(rows[i], new_vars)]
            } else {
                matched
            };
            let tail = rows.skip(i + 1);
            assert forall|j: int| 0 <= j < here.len() implies rows[i].submap_of(
                #[trigger] here[j],
            ) by {
                if matched.len() == 0 {
                    lemma_nulls_keep(rows[i], new_vars);
                } else {
                    lemma_optional_matches_grow(g, rows[i], patterns, where_clause);
                    assert(grows_from(matched[j], seq![rows[i]]));
                }
            }
            lemma_join_more(rows[i], tail, here, rest);
            assert(seq![rows[i]] + tail =~= rows.skip(i));
            assert forall|k: int|
                0 <= k < rows.skip(i).len() && optional_matches(
                    g,
                    #[trigger] rows.skip(i)[k],
                    patterns,
                    where_clause,
                )->Ok_0.len() == 0 implies out.contains(with_nulls(rows.skip(i)[k], new_vars)) by {
                if k == 0 {
                    assert((here + rest)[0] == here[0]);
                } else {
                    assert(rows.skip(i)[k] == tail[k - 1]);
                    lemma_concat_contains(here, rest, with_nulls(tail[k - 1], new_vars));
                }
            }
        }
    }
}

/// One more row before the others, with what comes of it.
proof fn lemma_join_more<N>(
    row: RowModel<N>,
    tail: Seq<RowModel<N>>,
    here: Seq<RowModel<N>>,
    rest: Seq<RowModel<N>>,
)
    requires
        here.len() > 0,
        forall|j: int| 0 <= j < here.len() ==> row.submap_of(#[trigger] here[j]),
        forall|k: int| 0 <= k < tail.len() ==> grown_in(#[trigger] tail[k], rest),
        all_grow_from(rest, tail),
    ensures
        forall|k: int|
            0 <= k < (seq![row] + tail).len() ==> grown_in(
                #[trigger] (seq![row] + tail)[k],
                here + rest,
            ),
        all_grow_from(here + rest, seq![row] + tail),
{
    let whole = seq![row] + tail;
    let out = here + rest;
    assert forall|k: int| 0 <= k < whole.len() implies grown_in(#[trigger] whole[k], out) by {
        if k == 0 {
            assert(out[0] == here[0]);
        } else {
            assert(grown_in(tail[k - 1], rest));
            let j = choose|j: int| 0 <= j < rest.len() && tail[k - 1].submap_of(#[trigger] rest[j]);
            assert(out[here.len() + j] == rest[j]);
        }
    }
    assert forall|j: int| 0 <= j < out.len() implies grows_from(#[trigger] out[j], whole) by {
        if j < here.len() {
            assert(out[j] == here[j]);
            assert(whole[0] == row);
        } else {
            let r = rest[j - here.len()];
            assert(grows_from(r, tail));
            let k = choose|k: int| 0 <= k < tail.len() && (#[trigger] tail[k]).submap_of(r);
            assert(whole[k + 1] == tail[k]);
        }
    }
}

/// The row with the variables bound to null: these are null, and nothing else changes.
pub proof fn lemma_nulls_keep<N>(row: RowModel<N>, names: Seq<Text>)
    requires
        new_to(row, names),
    ensures
        row.submap_of(with_nulls(row, names)),
        forall|name: Text| #[trigger]
            with_nulls(row, names).contains_key(name) <==> row.contains_key(name)
                || names.contains(name),
        forall|name: Text|
            names.contains(name) ==> #[trigger] with_nulls(row, names)[name] == BindingModel::<
                N,
            >::Value(ValueModel::Null),
    decreases names.len(),
{
    if names.len() > 0 {
        assert forall|i: int| 0 <= i < names.drop_last().len() implies !row.contains_key(
            #[trigger] names.drop_last()[i],
        ) by {
            assert(names.drop_last()[i] == names[i]);
        }
        lemma_nulls_keep(row, names.drop_last());
        assert(names[names.len() - 1] == names.last());
        assert(names =~= names.drop_last().push(names.last()));
        assert forall|name: Text|
            names.contains(name) <==> names.drop_last().contains(name) || name == names.last() by {
            lemma_push_contains(names.drop_last(), names.last(), name);
        }
    }
}

/// What an `OPTIONAL MATCH` matches keeps the bindings of its row.
pub proof fn lemma_optional_matches_grow<G: GraphProvider>(
    g: &G,
    row: RowModel<G::NodeId>,
    patterns: Seq<PathModel>,
    where_clause: Option<ExprModel>,
)
    ensures
        optional_matches(g, row, patterns, where_clause) matches Ok(out) ==> all_grow_from(
            out,
            seq![row],
        ),
{
    lemma_grow_from_self(seq![row]);
    lemma_match_keeps_bindings(g, seq![row], patterns, 0, keep_all(), seq![row]);
    if let Ok(matched) = match_paths(g, seq![row], patterns, 0, keep_all()) {
        if let Some(predicate) = where_clause {
            lemma_filter_grows(g, matched, predicate, 0, seq![row]);
        }
    }
}

proof fn lemma_filter_grows<G: GraphProvider>(
    g: &G,
    rows: Seq<RowModel<G::NodeId>>,
    predicate: ExprModel,
    i: int,
    base: Seq<RowModel<G::NodeId>>,
)
    requires
        all_grow_from(rows, base),
        0 <= i,
    ensures
        filter_from(g, rows, predicate, i) matches Ok(out) ==> all_grow_from(out, base),
    decreases rows.len() - i,
{
    if i < rows.len() {
        lemma_filter_grows(g, rows, predicate, i + 1, base);
        if let Ok(rest) = filter_from(g, rows, predicate, i + 1) {
            let more = seq![rows[i]] + rest;
            assert forall|k: int| 0 <= k < more.len() implies grows_from(
                #[trigger] more[k],
                base,
            ) by {
                if k == 0 {
                    assert(grows_from(rows[i], base));
                } else {
                    assert(more[k] == rest[k - 1]);
                }
            }
        }
    }
}

} // verus!
