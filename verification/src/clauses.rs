//! Laws of the clauses: what each makes of one more row, and which variables are in scope behind
//! it.

use vstd::prelude::*;

use crate::ast::{ClauseModel, ExprModel, PathModel, ProjectionModel, QueryModel};
use crate::comparing::gives;
use crate::conditions::{counting, counts, decided, lemma_filter, lemma_kept_counts};
use crate::error::ErrorModel;
use crate::eval::{eval, filter_from};
use crate::executor::{
    clause_rows, clause_scope, names_outside, new_names, optional_matches, optional_rows,
    output_bindings, output_values, projection_output, query_result, run_clauses, unwind_rows,
    unwound, with_nulls,
};
use crate::finalize::ProjectedModel;
use crate::pattern::{add_hops, add_name, add_paths, keep_all, match_paths, path_node};
use crate::project::projection_columns;
use crate::provider::GraphProvider;
use crate::pushdown::{keep_passing, pushed_from};
use crate::row::{BindingModel, RowModel};
use crate::seqs::lemma_push_contains;
use crate::text::Text;
use crate::value::ValueModel;

verus! {

/// Rows, or the reason why there are none.
pub type Rows<N> = Result<Seq<RowModel<N>>, ErrorModel>;

/// The rows of a first part and those of a second one.
pub open spec fn both<N>(a: Rows<N>, b: Seq<RowModel<N>>) -> Rows<N> {
    match a {
        Ok(rows) => Ok(rows + b),
        Err(e) => Err(e),
    }
}

// ---- UNWIND --------------------------------------------------------------------

proof fn lemma_unwind_push<G: GraphProvider>(
    g: &G,
    rows: Seq<RowModel<G::NodeId>>,
    row: RowModel<G::NodeId>,
    e: ExprModel,
    var: Text,
    i: int,
    more: Seq<RowModel<G::NodeId>>,
)
    requires
        0 <= i <= rows.len(),
        unwind_rows(g, rows.push(row), e, var, rows.len() as int) == Ok::<
            Seq<RowModel<G::NodeId>>,
            ErrorModel,
        >(more),
    ensures
        unwind_rows(g, rows.push(row), e, var, i) == both(unwind_rows(g, rows, e, var, i), more),
    decreases rows.len() - i,
{
    let all = rows.push(row);
    if i < rows.len() {
        assert(all[i] == rows[i]);
        lemma_unwind_push(g, rows, row, e, var, i + 1, more);
        if let Ok(ValueModel::List(items)) = eval(g, rows[i], e) {
            if let Ok(rest) = unwind_rows(g, rows, e, var, i + 1) {
                let first = unwound(rows[i], var, items);
                assert(first + (rest + more) =~= (first + rest) + more);
            }
        }
    } else {
        assert(Seq::<RowModel<G::NodeId>>::empty() + more =~= more);
    }
}

/// `UNWIND` makes of a row one row for each item of its list, with the variable bound to the item,
/// in the order of the list; null makes none. The rows come in the order of the input.
pub proof fn lemma_unwind<G: GraphProvider>(
    g: &G,
    clauses: Seq<ClauseModel>,
    i: int,
    rows: Seq<RowModel<G::NodeId>>,
    row: RowModel<G::NodeId>,
    scope: Seq<Text>,
    expr: ExprModel,
    var: Text,
)
    requires
        clauses[i] == (ClauseModel::Unwind { expr, var }),
    ensures
        clause_rows(g, clauses, i, Seq::empty(), scope) == Ok::<
            Seq<RowModel<G::NodeId>>,
            ErrorModel,
        >(Seq::empty()),
        gives(g, row, expr, ValueModel::Null) ==> clause_rows(
            g,
            clauses,
            i,
            rows.push(row),
            scope,
        ) == clause_rows(g, clauses, i, rows, scope),
        eval(g, row, expr) matches Ok(ValueModel::List(items)) ==> clause_rows(
            g,
            clauses,
            i,
            rows.push(row),
            scope,
        ) == both(
            clause_rows(g, clauses, i, rows, scope),
            Seq::new(items.len(), |k: int| row.insert(var, BindingModel::Value(items[k]))),
        ),
        eval(g, row, expr) matches Ok(v) ==> !(v is List) && !(v is Null) ==> clause_rows(
            g,
            clauses,
            i,
            seq![row],
            scope,
        ) is Err,
        eval(g, row, expr) matches Err(e) ==> clause_rows(g, clauses, i, seq![row], scope) == Err::<
            Seq<RowModel<G::NodeId>>,
            ErrorModel,
        >(e),
{
    let all = rows.push(row);
    let n = rows.len() as int;
    let none = Seq::<RowModel<G::NodeId>>::empty();
    assert(all[n] == row);
    assert(unwind_rows(g, all, expr, var, n + 1) == Ok::<Seq<RowModel<G::NodeId>>, ErrorModel>(
        none,
    ));
    assert(seq![row][0] == row);
    if gives(g, row, expr, ValueModel::Null) {
        lemma_unwind_push(g, rows, row, expr, var, 0, none);
        if let Ok(out) = unwind_rows(g, rows, expr, var, 0) {
            assert(out + none =~= out);
        }
    }
    if let Ok(ValueModel::List(items)) = eval(g, row, expr) {
        let more = Seq::new(items.len(), |k: int| row.insert(var, BindingModel::Value(items[k])));
        assert(more + none =~= more);
        lemma_unwind_push(g, rows, row, expr, var, 0, more);
    }
}

// ---- OPTIONAL MATCH ------------------------------------------------------------

proof fn lemma_optional_push<G: GraphProvider>(
    g: &G,
    rows: Seq<RowModel<G::NodeId>>,
    row: RowModel<G::NodeId>,
    patterns: Seq<PathModel>,
    where_clause: Option<ExprModel>,
    nulls: Seq<Text>,
    i: int,
    more: Seq<RowModel<G::NodeId>>,
)
    requires
        0 <= i <= rows.len(),
        optional_rows(g, rows.push(row), patterns, where_clause, nulls, rows.len() as int) == Ok::<
            Seq<RowModel<G::NodeId>>,
            ErrorModel,
        >(more),
    ensures
        optional_rows(g, rows.push(row), patterns, where_clause, nulls, i) == both(
            optional_rows(g, rows, patterns, where_clause, nulls, i),
            more,
        ),
    decreases rows.len() - i,
{
    let all = rows.push(row);
    if i < rows.len() {
        assert(all[i] == rows[i]);
        lemma_optional_push(g, rows, row, patterns, where_clause, nulls, i + 1, more);
        if let Ok(matched) = optional_matches(g, rows[i], patterns, where_clause) {
            if let Ok(rest) = optional_rows(g, rows, patterns, where_clause, nulls, i + 1) {
                let first = if matched.len() == 0 {
                    seq![with_nulls(rows[i], nulls)]
                } else {
                    matched
                };
                assert(first + (rest + more) =~= (first + rest) + more);
            }
        }
    } else {
        assert(Seq::<RowModel<G::NodeId>>::empty() + more =~= more);
    }
}

/// The matches of the patterns of a `MATCH` from one row in which its `WHERE` counts as true.
pub open spec fn matches_from<G: GraphProvider>(
    g: &G,
    row: RowModel<G::NodeId>,
    patterns: Seq<PathModel>,
    where_clause: Option<ExprModel>,
) -> Seq<RowModel<G::NodeId>> {
    let matched = match_paths(g, seq![row], patterns, 0, keep_all())->Ok_0;
    match where_clause {
        None => matched,
        Some(predicate) => counting(g, matched, predicate),
    }
}

/// Whether the patterns and the `WHERE` of a `MATCH` can be evaluated from one row.
pub open spec fn matches_known<G: GraphProvider>(
    g: &G,
    row: RowModel<G::NodeId>,
    patterns: Seq<PathModel>,
    where_clause: Option<ExprModel>,
) -> bool {
    match match_paths(g, seq![row], patterns, 0, keep_all()) {
        Err(_) => false,
        Ok(matched) => match where_clause {
            None => true,
            Some(predicate) => decided(g, matched, predicate),
        },
    }
}

/// Whether `r` is the row with the variables of the patterns that are not in scope bound to null.
pub open spec fn filled_with_nulls<N>(
    row: RowModel<N>,
    patterns: Seq<PathModel>,
    scope: Seq<Text>,
    r: RowModel<N>,
) -> bool {
    forall|name: Text|
        #![trigger r.contains_key(name)]
        if paths_name(patterns, name) && !scope.contains(name) {
            r.contains_key(name) && r[name] == BindingModel::<N>::Value(ValueModel::Null)
        } else {
            (r.contains_key(name) <==> row.contains_key(name)) && (row.contains_key(name)
                ==> r[name] == row[name])
        }
}

/// `OPTIONAL MATCH` makes of a row all its matches in which its `WHERE` counts as true, in their
/// order; if there is none, it makes the row itself, with the variables that the patterns introduce
/// bound to null. The rows come in the order of the input.
pub proof fn lemma_optional_match<G: GraphProvider>(
    g: &G,
    clauses: Seq<ClauseModel>,
    i: int,
    rows: Seq<RowModel<G::NodeId>>,
    row: RowModel<G::NodeId>,
    scope: Seq<Text>,
    patterns: Seq<PathModel>,
    where_clause: Option<ExprModel>,
)
    requires
        clauses[i] == (ClauseModel::Match { optional: true, patterns, where_clause }),
        matches_known(g, row, patterns, where_clause),
    ensures
        clause_rows(g, clauses, i, Seq::empty(), scope) == Ok::<
            Seq<RowModel<G::NodeId>>,
            ErrorModel,
        >(Seq::empty()),
        matches_from(g, row, patterns, where_clause).len() > 0 ==> clause_rows(
            g,
            clauses,
            i,
            rows.push(row),
            scope,
        ) == both(
            clause_rows(g, clauses, i, rows, scope),
            matches_from(g, row, patterns, where_clause),
        ),
        matches_from(g, row, patterns, where_clause).len() == 0 ==> exists|r: RowModel<G::NodeId>|
            #[trigger] filled_with_nulls(row, patterns, scope, r) && clause_rows(
                g,
                clauses,
                i,
                rows.push(row),
                scope,
            ) == both(clause_rows(g, clauses, i, rows, scope), seq![r]),
{
    let nulls = new_names(patterns, scope);
    let all = rows.push(row);
    let n = rows.len() as int;
    let none = Seq::<RowModel<G::NodeId>>::empty();
    let matched = match_paths(g, seq![row], patterns, 0, keep_all())->Ok_0;
    if let Some(predicate) = where_clause {
        lemma_filter(g, matched, predicate);
    }
    let found = matches_from(g, row, patterns, where_clause);
    assert(optional_matches(g, row, patterns, where_clause) == Ok::<
        Seq<RowModel<G::NodeId>>,
        ErrorModel,
    >(found));
    assert(all[n] == row);
    let more = if found.len() == 0 {
        seq![with_nulls(row, nulls)]
    } else {
        found
    };
    assert(optional_rows(g, all, patterns, where_clause, nulls, n + 1) == Ok::<
        Seq<RowModel<G::NodeId>>,
        ErrorModel,
    >(none));
    assert(more + none =~= more);
    lemma_optional_push(g, rows, row, patterns, where_clause, nulls, 0, more);
    let r = with_nulls(row, nulls);
    assert forall|name: Text|
        #![trigger r.contains_key(name)]
        if paths_name(patterns, name) && !scope.contains(name) {
            r.contains_key(name) && r[name] == BindingModel::<G::NodeId>::Value(ValueModel::Null)
        } else {
            (r.contains_key(name) <==> row.contains_key(name)) && (row.contains_key(name)
                ==> r[name] == row[name])
        } by {
        lemma_with_nulls(row, nulls, name);
        lemma_outside(add_paths(Seq::empty(), patterns, patterns.len()), scope, name);
        lemma_paths_scope(Seq::empty(), patterns, patterns.len(), name);
    }
    assert(filled_with_nulls(row, patterns, scope, with_nulls(row, nulls)));
}

proof fn lemma_with_nulls<N>(row: RowModel<N>, names: Seq<Text>, name: Text)
    ensures
        with_nulls(row, names).contains_key(name) <==> row.contains_key(name) || names.contains(name),
        names.contains(name) ==> with_nulls(row, names)[name] == BindingModel::<N>::Value(
            ValueModel::Null,
        ),
        !names.contains(name) && row.contains_key(name) ==> with_nulls(row, names)[name]
            == row[name],
    decreases names.len(),
{
    if names.len() > 0 {
        let init = names.drop_last();
        lemma_with_nulls(row, init, name);
        assert(names =~= init.push(names.last()));
        lemma_push_contains(init, names.last(), name);
    }
}

proof fn lemma_outside(names: Seq<Text>, scope: Seq<Text>, name: Text)
    ensures
        names_outside(names, scope).contains(name) <==> names.contains(name) && !scope.contains(
            name,
        ),
    decreases names.len(),
{
    if names.len() > 0 {
        let init = names.drop_last();
        lemma_outside(init, scope, name);
        assert(names =~= init.push(names.last()));
        lemma_push_contains(init, names.last(), name);
        lemma_push_contains(names_outside(init, scope), names.last(), name);
    }
}

// ---- Scope -------------------------------------------------------------------

/// Whether a node pattern of the paths has the variable.
pub open spec fn paths_name(paths: Seq<PathModel>, name: Text) -> bool {
    exists|p: int, i: int|
        0 <= p < paths.len() && 0 <= i <= paths[p].rest.len() && (#[trigger] path_node(
            paths[p],
            i,
        )).var == Some(name)
}

/// Whether names are added behind others, each once.
pub open spec fn extends(scope: Seq<Text>, more: Seq<Text>) -> bool {
    &&& scope.len() <= more.len()
    &&& more.take(scope.len() as int) == scope
    &&& scope.no_duplicates() ==> more.no_duplicates()
}

proof fn lemma_add_name(scope: Seq<Text>, var: Option<Text>)
    ensures
        extends(scope, add_name(scope, var)),
        forall|name: Text| #[trigger]
            add_name(scope, var).contains(name) <==> scope.contains(name) || var == Some(name),
{
    let more = add_name(scope, var);
    assert(more.take(scope.len() as int) =~= scope);
    if let Some(v) = var {
        assert forall|name: Text| #[trigger] more.contains(name) <==> scope.contains(name) || var
            == Some(name) by {
            lemma_push_contains(scope, v, name);
        }
    }
}

proof fn lemma_extends_on(a: Seq<Text>, b: Seq<Text>, c: Seq<Text>)
    requires
        extends(a, b),
        extends(b, c),
    ensures
        extends(a, c),
{
    assert(c.take(a.len() as int) =~= b.take(a.len() as int));
}

proof fn lemma_path_scope(scope: Seq<Text>, path: PathModel, n: nat)
    requires
        n <= path.rest.len(),
    ensures
        extends(scope, add_hops(add_name(scope, path.start.var), path.rest, n)),
        forall|name: Text| #[trigger]
            add_hops(add_name(scope, path.start.var), path.rest, n).contains(name)
                <==> scope.contains(name) || exists|i: int|
                0 <= i <= n && (#[trigger] path_node(path, i)).var == Some(name),
    decreases n,
{
    let first = add_name(scope, path.start.var);
    lemma_add_name(scope, path.start.var);
    if n == 0 {
        assert forall|name: Text| #[trigger] first.contains(name) <==> scope.contains(name)
            || exists|i: int|
            0 <= i <= n && (#[trigger] path_node(path, i)).var == Some(name) by {
            assert(path_node(path, 0) == path.start);
        }
    } else {
        let m = (n - 1) as nat;
        lemma_path_scope(scope, path, m);
        let before = add_hops(first, path.rest, m);
        let all = add_hops(first, path.rest, n);
        lemma_add_name(before, path.rest[n - 1].1.var);
        lemma_extends_on(scope, before, all);
        assert(path_node(path, n as int) == path.rest[n - 1].1);
        assert forall|name: Text| #[trigger] all.contains(name) <==> scope.contains(name)
            || exists|i: int|
            0 <= i <= n && (#[trigger] path_node(path, i)).var == Some(name) by {
            assert(before.contains(name) <==> scope.contains(name) || exists|i: int|
                0 <= i <= m && (#[trigger] path_node(path, i)).var == Some(name));
            if before.contains(name) && !scope.contains(name) {
                let i = choose|i: int|
                    0 <= i <= m && (#[trigger] path_node(path, i)).var == Some(name);
                assert(path_node(path, i).var == Some(name));
            }
        }
    }
}

proof fn lemma_paths_scope(scope: Seq<Text>, paths: Seq<PathModel>, n: nat, name: Text)
    requires
        n <= paths.len(),
    ensures
        extends(scope, add_paths(scope, paths, n)),
        add_paths(scope, paths, n).contains(name) <==> scope.contains(name) || exists|
            p: int,
            i: int,
        |
            0 <= p < n && 0 <= i <= paths[p].rest.len() && (#[trigger] path_node(paths[p], i)).var
                == Some(name),
    decreases n,
{
    if n == 0 {
        assert(scope.take(scope.len() as int) =~= scope);
    } else {
        let m = (n - 1) as nat;
        lemma_paths_scope(scope, paths, m, name);
        let before = add_paths(scope, paths, m);
        let path = paths[n - 1];
        lemma_path_scope(before, path, path.rest.len());
        lemma_extends_on(scope, before, add_paths(scope, paths, n));
        assert(add_paths(scope, paths, n).contains(name) <==> before.contains(name) || exists|i: int|
            0 <= i <= path.rest.len() && (#[trigger] path_node(path, i)).var == Some(name));
        if exists|i: int|
            0 <= i <= path.rest.len() && (#[trigger] path_node(path, i)).var == Some(name) {
            let i = choose|i: int|
                0 <= i <= path.rest.len() && (#[trigger] path_node(path, i)).var == Some(name);
            assert(path_node(paths[n - 1], i).var == Some(name));
        }
        if exists|p: int, i: int|
            0 <= p < n && 0 <= i <= paths[p].rest.len() && (#[trigger] path_node(paths[p], i)).var
                == Some(name) {
            let (p, i) = choose|p: int, i: int|
                0 <= p < n && 0 <= i <= paths[p].rest.len() && (#[trigger] path_node(
                    paths[p],
                    i,
                )).var == Some(name);
            if p < m {
                assert(path_node(paths[p], i).var == Some(name));
            } else {
                assert(path_node(path, i).var == Some(name));
            }
        }
    }
}

/// Behind a `MATCH` the variables of its node patterns are in scope with those before them, behind
/// an `UNWIND` its variable; new names come behind the old ones, each once. Behind a `WITH` exactly
/// its columns are in scope.
pub proof fn lemma_scope(clause: ClauseModel, scope: Seq<Text>, name: Text)
    ensures
        match clause {
            ClauseModel::Match { optional, patterns, where_clause } => extends(
                scope,
                clause_scope(clause, scope),
            ) && (clause_scope(clause, scope).contains(name) <==> scope.contains(name)
                || paths_name(patterns, name)),
            ClauseModel::Unwind { expr, var } => extends(scope, clause_scope(clause, scope)) && (
            clause_scope(clause, scope).contains(name) <==> scope.contains(name) || name == var),
            ClauseModel::With { projection, where_clause } => clause_scope(clause, scope)
                == projection_columns(projection, scope),
        },
{
    match clause {
        ClauseModel::Match { optional, patterns, where_clause } => {
            lemma_paths_scope(scope, patterns, patterns.len(), name);
        },
        ClauseModel::Unwind { expr, var } => {
            lemma_add_name(scope, Some(var));
        },
        _ => {},
    }
}

// ---- WITH and RETURN -------------------------------------------------------------

/// The rows that projected rows carry on.
pub open spec fn carried<N>(out: Seq<ProjectedModel<N>>) -> Seq<RowModel<N>> {
    out.map_values(|row: ProjectedModel<N>| row.bindings)
}

/// `WITH` carries on its projected rows, and with a `WHERE` those of them in which it counts as
/// true.
pub proof fn lemma_with<G: GraphProvider>(
    g: &G,
    clauses: Seq<ClauseModel>,
    i: int,
    rows: Seq<RowModel<G::NodeId>>,
    scope: Seq<Text>,
    projection: ProjectionModel,
    predicate: ExprModel,
)
    requires
        projection_output(g, projection, rows, scope) is Ok,
    ensures
        clauses[i] == (ClauseModel::With { projection, where_clause: None }) ==> clause_rows(
            g,
            clauses,
            i,
            rows,
            scope,
        ) == Ok::<Seq<RowModel<G::NodeId>>, ErrorModel>(
            carried(projection_output(g, projection, rows, scope)->Ok_0),
        ),
        clauses[i] == (ClauseModel::With { projection, where_clause: Some(predicate) }) && decided(
            g,
            carried(projection_output(g, projection, rows, scope)->Ok_0),
            predicate,
        ) ==> clause_rows(g, clauses, i, rows, scope) == Ok::<
            Seq<RowModel<G::NodeId>>,
            ErrorModel,
        >(
            counting(
                g,
                carried(projection_output(g, projection, rows, scope)->Ok_0),
                predicate,
            ),
        ),
{
    let out = projection_output(g, projection, rows, scope)->Ok_0;
    assert(output_bindings(out) =~= carried(out));
    if decided(g, carried(out), predicate) {
        lemma_filter(g, carried(out), predicate);
    }
}

/// The result of a query holds the columns of its `RETURN` and the values of the rows that it makes
/// of those behind the last clause; the first clause starts from one row without variables.
pub proof fn lemma_query<G: GraphProvider>(g: &G, q: QueryModel)
    ensures
        match run_clauses(g, q.clauses, 0, seq![Map::empty()], Seq::empty()) {
            Err(e) => query_result(g, q) matches Err(f) && f == e,
            Ok((rows, scope)) => match projection_output(g, q.result, rows, scope) {
                Err(e) => query_result(g, q) matches Err(f) && f == e,
                Ok(out) => query_result(g, q) matches Ok(r) && r.columns == projection_columns(
                    q.result,
                    scope,
                ) && r.rows == out.map_values(|row: ProjectedModel<G::NodeId>| row.values),
            },
        },
{
    if let Ok((rows, scope)) = run_clauses(g, q.clauses, 0, seq![Map::empty()], Seq::empty()) {
        if let Ok(out) = projection_output(g, q.result, rows, scope) {
            assert(output_values(out) =~= out.map_values(
                |row: ProjectedModel<G::NodeId>| row.values,
            ));
        }
    }
}

// ---- MATCH ---------------------------------------------------------------------

/// In every row behind a `MATCH` its `WHERE` counts as true.
pub proof fn lemma_match_where<G: GraphProvider>(
    g: &G,
    clauses: Seq<ClauseModel>,
    i: int,
    rows: Seq<RowModel<G::NodeId>>,
    scope: Seq<Text>,
    patterns: Seq<PathModel>,
    predicate: ExprModel,
    k: int,
)
    requires
        clauses[i] == (ClauseModel::Match {
            optional: false,
            patterns,
            where_clause: Some(predicate),
        }),
        clause_rows(g, clauses, i, rows, scope) is Ok,
        0 <= k < clause_rows(g, clauses, i, rows, scope)->Ok_0.len(),
    ensures
        eval(g, clause_rows(g, clauses, i, rows, scope)->Ok_0[k], predicate) matches Ok(v)
            && counts(v),
{
    let keep = keep_passing(g, pushed_from(clauses, i));
    let matched = match_paths(g, rows, patterns, 0, keep)->Ok_0;
    lemma_kept_counts(g, matched, predicate, 0);
    assert(clause_rows(g, clauses, i, rows, scope)->Ok_0 == filter_from(
        g,
        matched,
        predicate,
        0,
    )->Ok_0);
}

} // verus!
