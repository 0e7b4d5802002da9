//! Evaluation of expressions and filtering of rows.

use vstd::prelude::*;

use crate::ast::{
    branch_models, expr_models, map_entry_models, opt_expr_model, Expr, ExprModel, MapEntry,
};
use crate::compare::{among, compare_values, equals, values_equal};
use crate::error::{failure, lemma_prepend_push, prepend, CypherError};
use crate::eval::{
    apply, binding_model, binding_of, eval, eval_all, eval_entries, filter_from, first_value,
    length_value, node_model, pick_branch, Outcome,
};
use crate::matcher::{literal_to_value, rows_result, Executor, NoFilter};
use crate::provider::GraphProvider;
use crate::row::{lemma_row_models_push, row_models, Binding, BindingModel, Row, RowModel};
use crate::text::{chars_of, lower_ascii, push_text, same_text, to_lowercase, to_uppercase, Text};
use crate::value::{
    entry_models, lemma_entry_models_push, lemma_value_models_push, value_models, CypherValue,
    ValueModel,
};
use crate::value_index::ValueIndex;

verus! {

/// What has been evaluated beforehand for a predicate: the lists on the right of some of its `IN`
/// operators, in the shape of the predicate.
pub enum Hoist {
    /// For the operand of `NOT` or `IS NULL`.
    One(Box<Hoist>),
    /// For the two operands of a connective or a comparison.
    Two(Option<Box<Hoist>>, Option<Box<Hoist>>),
    /// For the left operand of an `IN`, with the values of the list on its right.
    Members(Option<Box<Hoist>>, ValueIndex),
}

/// Whether a table holds the values of a list.
pub open spec fn holds_members(table: ValueIndex, list: Outcome) -> bool {
    &&& table.ok()
    &&& list is Ok
    &&& list->Ok_0 is List
    &&& forall|v: ValueModel| #[trigger] table@.contains(v) <==> list->Ok_0->List_0.contains(v)
}

/// Whether what has been evaluated beforehand is right for a row.
pub open spec fn fits_row<G: GraphProvider>(
    g: &G,
    row: RowModel<G::NodeId>,
    e: ExprModel,
    hoist: Hoist,
) -> bool
    decreases hoist,
{
    match (hoist, e) {
        (Hoist::One(x), ExprModel::Not(a)) => fits_row(g, row, *a, *x),
        (Hoist::One(x), ExprModel::IsNull(a, _)) => fits_row(g, row, *a, *x),
        (Hoist::Two(x, y), ExprModel::And(a, b)) => {
            &&& x matches Some(x) ==> fits_row(g, row, *a, *x)
            &&& y matches Some(y) ==> fits_row(g, row, *b, *y)
        },
        (Hoist::Two(x, y), ExprModel::Or(a, b)) => {
            &&& x matches Some(x) ==> fits_row(g, row, *a, *x)
            &&& y matches Some(y) ==> fits_row(g, row, *b, *y)
        },
        (Hoist::Two(x, y), ExprModel::Compare(a, _, b)) => {
            &&& x matches Some(x) ==> fits_row(g, row, *a, *x)
            &&& y matches Some(y) ==> fits_row(g, row, *b, *y)
        },
        (Hoist::Members(x, table), ExprModel::Compare(a, op, b)) => {
            &&& op is In
            &&& x matches Some(x) ==> fits_row(g, row, *a, *x)
            &&& holds_members(table, eval(g, row, *b))
        },
        _ => false,
    }
}

/// The same where nothing may have been evaluated.
pub open spec fn fits<G: GraphProvider>(
    g: &G,
    row: RowModel<G::NodeId>,
    e: ExprModel,
    hoist: Option<&Hoist>,
) -> bool {
    match hoist {
        Some(h) => fits_row(g, row, e, *h),
        None => true,
    }
}

/// What has been evaluated for a part.
fn part_of(part: &Option<Box<Hoist>>) -> (r: Option<&Hoist>)
    ensures
        match part {
            Some(x) => r == Some(&**x),
            None => r is None,
        },
{
    match part {
        Some(x) => Some(&**x),
        None => None,
    }
}

/// What has been evaluated for the only operand.
fn operand_part(hoist: Option<&Hoist>) -> (r: Option<&Hoist>)
    ensures
        r == match hoist {
            Some(h) => match *h {
                Hoist::One(x) => Some(&*x),
                _ => None,
            },
            None => None,
        },
{
    match hoist {
        Some(Hoist::One(x)) => Some(&**x),
        _ => None,
    }
}

/// Whether a result is the one that its model says.
pub open spec fn value_result(r: Result<CypherValue, CypherError>, expected: Outcome) -> bool {
    match expected {
        Ok(v) => r is Ok && r->Ok_0@ == v,
        Err(e) => r is Err && r->Err_0@ == e,
    }
}

/// A length as an integer value.
pub fn length_to_value(n: usize) -> (r: CypherValue)
    ensures
        r@ == length_value(n as nat),
{
    CypherValue::Int(
        if n as u64 <= 0x7fff_ffff_ffff_ffff {
            n as i64
        } else {
            i64::MAX
        },
    )
}

/// An execution error whose message quotes a name.
pub fn quoting(before: &str, name: &str, after: &str) -> (r: CypherError)
    ensures
        r@ == failure(before@ + name@ + after@),
{
    let mut message = String::new();
    push_text(&mut message, before);
    push_text(&mut message, name);
    push_text(&mut message, after);
    assert(message@ =~= before@ + name@ + after@);
    CypherError::Execution { message }
}

/// What a function of one argument makes of the value of its argument.
fn apply_function(name: &str, lower: &str, value: CypherValue) -> (r: Result<
    CypherValue,
    CypherError,
>)
    ensures
        value_result(r, apply(name@, lower@, value@)),
{
    if same_text(lower, "tolower") {
        match value {
            CypherValue::Null => Ok(CypherValue::Null),
            CypherValue::Str(s) => Ok(CypherValue::Str(to_lowercase(s.as_str()))),
            _ => Err(quoting("`", name, "` expects a string argument")),
        }
    } else if same_text(lower, "toupper") {
        match value {
            CypherValue::Null => Ok(CypherValue::Null),
            CypherValue::Str(s) => Ok(CypherValue::Str(to_uppercase(s.as_str()))),
            _ => Err(quoting("`", name, "` expects a string argument")),
        }
    } else if same_text(lower, "size") {
        match value {
            CypherValue::Null => Ok(CypherValue::Null),
            CypherValue::Str(s) => {
                let chars = chars_of(s.as_str());
                Ok(length_to_value(chars.len()))
            },
            CypherValue::List(items) => Ok(length_to_value(items.len())),
            _ => Err(CypherError::execution("`size` expects a string or list argument")),
        }
    } else {
        match value {
            CypherValue::Null => Ok(CypherValue::Null),
            CypherValue::Node { id, label, name } => {
                let mut labels: Vec<CypherValue> = Vec::new();
                proof {
                    lemma_value_models_push(labels@, CypherValue::Str(label));
                    assert(value_models(labels@) =~= Seq::empty());
                }
                labels.push(CypherValue::Str(label));
                assert(value_models(labels@) =~= seq![ValueModel::Str(label@)]);
                Ok(CypherValue::List(labels))
            },
            _ => Err(CypherError::execution("`labels` expects a node argument")),
        }
    }
}

impl<'a, G: GraphProvider> Executor<'a, G> {
    /// A graph node as a value.
    pub fn node_value(&self, node: G::NodeId) -> (r: CypherValue)
        ensures
            r@ == node_model(self.source(), node),
    {
        CypherValue::Node {
            id: self.graph().node_id(node),
            label: self.graph().label(node),
            name: self.graph().name(node),
        }
    }

    /// A binding as a value.
    pub fn binding_value(&self, binding: &Binding<G::NodeId>) -> (r: CypherValue)
        ensures
            r@ == binding_model(self.source(), binding@),
    {
        match binding {
            Binding::Node(node) => self.node_value(*node),
            Binding::Value(value) => value.clone(),
        }
    }

    /// Evaluates an expression in a row. Where `hoist` holds the list on the right of an `IN`, the
    /// list is not evaluated again but looked up.
    #[verifier::rlimit(60)]
    pub fn eval_expr(
        &mut self,
        row: &Row<G::NodeId>,
        expr: &Expr,
        hoist: Option<&Hoist>,
    ) -> (r: Result<CypherValue, CypherError>)
        requires
            old(self).ok(),
            fits(old(self).source(), row@, expr@, hoist),
        ensures
            final(self).ok(),
            final(self).source() == old(self).source(),
            value_result(r, eval(old(self).source(), row@, expr@)),
        decreases expr, 0int,
    {
        let ghost g = self.source();
        match expr {
            Expr::Literal(literal) => Ok(literal_to_value(literal)),
            Expr::Var(name) => Ok(
                match row.get(name) {
                    Some(binding) => self.binding_value(binding),
                    None => CypherValue::Null,
                },
            ),
            Expr::Property(var, prop) => Ok(
                match row.get(var) {
                    Some(Binding::Node(node)) => self.graph().property(*node, prop.as_str()),
                    _ => CypherValue::Null,
                },
            ),
            Expr::Not(inner) => match self.eval_expr(row, inner, operand_part(hoist)) {
                Ok(v) => Ok(CypherValue::Bool(!v.is_truthy())),
                Err(e) => Err(e),
            },
            Expr::And(a, b) => {
                let (left, right) = two_parts(hoist);
                match self.eval_expr(row, a, left) {
                    Ok(v) => if !v.is_truthy() {
                        Ok(CypherValue::Bool(false))
                    } else {
                        match self.eval_expr(row, b, right) {
                            Ok(w) => Ok(CypherValue::Bool(w.is_truthy())),
                            Err(e) => Err(e),
                        }
                    },
                    Err(e) => Err(e),
                }
            },
            Expr::Or(a, b) => {
                let (left, right) = two_parts(hoist);
                match self.eval_expr(row, a, left) {
                    Ok(v) => if v.is_truthy() {
                        Ok(CypherValue::Bool(true))
                    } else {
                        match self.eval_expr(row, b, right) {
                            Ok(w) => Ok(CypherValue::Bool(w.is_truthy())),
                            Err(e) => Err(e),
                        }
                    },
                    Err(e) => Err(e),
                }
            },
            Expr::Compare(a, op, b) => {
                if let Some(Hoist::Members(part, table)) = hoist {
                    return match self.eval_expr(row, a, part_of(part)) {
                        Ok(v) => {
                            let found = !v.is_null() && table.position(&v).is_some();
                            proof {
                                let items = eval(g, row@, b@)->Ok_0->List_0;
                                lemma_member(v@, items);
                                assert(table@.contains(v@) <==> items.contains(v@));
                            }
                            Ok(CypherValue::Bool(found))
                        },
                        Err(e) => Err(e),
                    };
                }
                let (left, right) = two_parts(hoist);
                match self.eval_expr(row, a, left) {
                    Ok(v) => match self.eval_expr(row, b, right) {
                        Ok(w) => Ok(CypherValue::Bool(compare_values(&v, *op, &w))),
                        Err(e) => Err(e),
                    },
                    Err(e) => Err(e),
                }
            },
            Expr::List(items) => match self.eval_items(row, items) {
                Ok(values) => Ok(CypherValue::List(values)),
                Err(e) => Err(e),
            },
            Expr::IsNull(inner, negated) => match self.eval_expr(
                row,
                inner,
                operand_part(hoist),
            ) {
                Ok(v) => Ok(CypherValue::Bool(v.is_null() != *negated)),
                Err(e) => Err(e),
            },
            Expr::Exists { patterns, where_clause } => {
                let mut base: Vec<Row<G::NodeId>> = Vec::new();
                base.push(row.copy());
                assert(row_models(base@) =~= seq![row@]);
                assert(opt_expr_model(*where_clause) is Some == where_clause is Some);
                let rows = match self.eval_patterns(base, patterns, &NoFilter) {
                    Ok(rows) => rows,
                    Err(e) => {
                        return Err(e);
                    },
                };
                match where_clause {
                    Some(predicate) => match self.filter_rows(rows, predicate, None) {
                        Ok(matched) => Ok(CypherValue::Bool(matched.len() > 0)),
                        Err(e) => Err(e),
                    },
                    None => Ok(CypherValue::Bool(rows.len() > 0)),
                }
            },
            Expr::Case { operand, branches, default } => {
                assert(opt_expr_model(*operand) is Some == operand is Some);
                assert(opt_expr_model(*default) is Some == default is Some);
                let subject = match operand {
                    Some(x) => match self.eval_expr(row, x, None) {
                        Ok(v) => Some(v),
                        Err(e) => {
                            return Err(e);
                        },
                    },
                    None => None,
                };
                match self.eval_case(row, &subject, branches) {
                    Ok(Some(v)) => Ok(v),
                    Ok(None) => match default {
                        Some(d) => self.eval_expr(row, d, None),
                        None => Ok(CypherValue::Null),
                    },
                    Err(e) => Err(e),
                }
            },
            Expr::Function { name, args } => self.eval_function(row, name, args),
            Expr::MapProjection { var, entries } => self.eval_map_projection(row, var, entries),
            Expr::Aggregate { .. } => Err(
                CypherError::execution(
                    "aggregate functions are only allowed in WITH or RETURN projections",
                ),
            ),
        }
    }

    /// Evaluates the expressions one after another.
    fn eval_items(&mut self, row: &Row<G::NodeId>, items: &Vec<Expr>) -> (r: Result<
        Vec<CypherValue>,
        CypherError,
    >)
        requires
            old(self).ok(),
        ensures
            final(self).ok(),
            final(self).source() == old(self).source(),
            match eval_all(old(self).source(), row@, expr_models(items@), 0) {
                Ok(values) => r is Ok && value_models(r->Ok_0@) == values,
                Err(e) => r is Err && r->Err_0@ == e,
            },
        decreases items, 0int,
    {
        let ghost g = self.source();
        let ghost models = expr_models(items@);
        let mut values: Vec<CypherValue> = Vec::new();
        let mut i: usize = 0;
        assert(prepend(value_models(values@), eval_all(g, row@, models, 0)) == eval_all(
            g,
            row@,
            models,
            0,
        )) by {
            assert(value_models(values@) =~= Seq::empty());
            if let Ok(rest) = eval_all(g, row@, models, 0) {
                assert(Seq::<ValueModel>::empty() + rest =~= rest);
            }
        }
        while i < items.len()
            invariant
                self.ok(),
                self.source() == g,
                old(self).source() == g,
                models == expr_models(items@),
                i <= items@.len(),
                eval_all(g, row@, models, 0) == prepend(
                    value_models(values@),
                    eval_all(g, row@, models, i as int),
                ),
            decreases items@.len() - i,
        {
            assert(models[i as int] == items@[i as int]@);
            match self.eval_expr(row, &items[i], None) {
                Ok(v) => {
                    proof {
                        lemma_value_models_push(values@, v);
                        lemma_prepend_push(
                            value_models(values@),
                            v@,
                            eval_all(g, row@, models, i as int + 1),
                        );
                    }
                    values.push(v);
                },
                Err(e) => {
                    return Err(e);
                },
            }
            i += 1;
        }
        assert(value_models(values@) + Seq::<ValueModel>::empty() =~= value_models(values@));
        Ok(values)
    }

    /// The value of the first branch of a `CASE` that applies.
    fn eval_case(
        &mut self,
        row: &Row<G::NodeId>,
        subject: &Option<CypherValue>,
        branches: &Vec<(Expr, Expr)>,
    ) -> (r: Result<Option<CypherValue>, CypherError>)
        requires
            old(self).ok(),
        ensures
            final(self).ok(),
            final(self).source() == old(self).source(),
            match pick_branch(
                old(self).source(),
                row@,
                opt_value(*subject),
                branch_models(branches@),
                0,
            ) {
                Ok(value) => r is Ok && opt_value(r->Ok_0) == value,
                Err(e) => r is Err && r->Err_0@ == e,
            },
        decreases branches, 0int,
    {
        let ghost g = self.source();
        let ghost models = branch_models(branches@);
        let mut i: usize = 0;
        while i < branches.len()
            invariant
                self.ok(),
                self.source() == g,
                old(self).source() == g,
                models == branch_models(branches@),
                i <= branches@.len(),
                pick_branch(g, row@, opt_value(*subject), models, 0) == pick_branch(
                    g,
                    row@,
                    opt_value(*subject),
                    models,
                    i as int,
                ),
            decreases branches@.len() - i,
        {
            assert(models[i as int] == (branches@[i as int].0@, branches@[i as int].1@));
            proof {
                assert(decreases_to!(branches => branches@[i as int]));
                assert(decreases_to!(branches@[i as int] => branches@[i as int].0));
                assert(decreases_to!(branches@[i as int] => branches@[i as int].1));
            }
            let candidate = match self.eval_expr(row, &branches[i].0, None) {
                Ok(v) => v,
                Err(e) => {
                    return Err(e);
                },
            };
            let applies = match subject {
                Some(s) => values_equal(s, &candidate),
                None => candidate.is_truthy(),
            };
            if applies {
                return match self.eval_expr(row, &branches[i].1, None) {
                    Ok(v) => Ok(Some(v)),
                    Err(e) => Err(e),
                };
            }
            i += 1;
        }
        Ok(None)
    }

    /// Evaluates a function call.
    fn eval_function(&mut self, row: &Row<G::NodeId>, name: &String, args: &Vec<Expr>) -> (r:
        Result<CypherValue, CypherError>)
        requires
            old(self).ok(),
        ensures
            final(self).ok(),
            final(self).source() == old(self).source(),
            value_result(
                r,
                eval(
                    old(self).source(),
                    row@,
                    (ExprModel::Function { name: name@, args: expr_models(args@) }),
                ),
            ),
        decreases args, 1int,
    {
        let lower = lower_ascii(name.as_str());
        let one = same_text(lower.as_str(), "tolower") || same_text(lower.as_str(), "toupper")
            || same_text(lower.as_str(), "size") || same_text(lower.as_str(), "labels");
        if one {
            if args.len() != 1 {
                return Err(quoting("`", name.as_str(), "` expects exactly one argument"));
            }
            assert(expr_models(args@)[0] == args@[0]@);
            match self.eval_expr(row, &args[0], None) {
                Ok(v) => apply_function(name.as_str(), lower.as_str(), v),
                Err(e) => Err(e),
            }
        } else if same_text(lower.as_str(), "coalesce") {
            if args.len() == 0 {
                return Err(CypherError::execution("`coalesce` requires at least one argument"));
            }
            self.eval_coalesce(row, args)
        } else {
            Err(quoting("unknown function `", name.as_str(), "`"))
        }
    }

    /// The first of the arguments that is not null.
    fn eval_coalesce(&mut self, row: &Row<G::NodeId>, args: &Vec<Expr>) -> (r: Result<
        CypherValue,
        CypherError,
    >)
        requires
            old(self).ok(),
        ensures
            final(self).ok(),
            final(self).source() == old(self).source(),
            value_result(r, first_value(old(self).source(), row@, expr_models(args@), 0)),
        decreases args, 0int,
    {
        let ghost g = self.source();
        let ghost models = expr_models(args@);
        let mut i: usize = 0;
        while i < args.len()
            invariant
                self.ok(),
                self.source() == g,
                old(self).source() == g,
                models == expr_models(args@),
                i <= args@.len(),
                first_value(g, row@, models, 0) == first_value(g, row@, models, i as int),
            decreases args@.len() - i,
        {
            assert(models[i as int] == args@[i as int]@);
            match self.eval_expr(row, &args[i], None) {
                Ok(v) => {
                    if !v.is_null() {
                        return Ok(v);
                    }
                },
                Err(e) => {
                    return Err(e);
                },
            }
            i += 1;
        }
        Ok(CypherValue::Null)
    }

    /// Evaluates a map projection. It is defined over a node; on a null/non-node binding it yields
    /// null.
    fn eval_map_projection(
        &mut self,
        row: &Row<G::NodeId>,
        var: &String,
        entries: &Vec<MapEntry>,
    ) -> (r: Result<CypherValue, CypherError>)
        requires
            old(self).ok(),
        ensures
            final(self).ok(),
            final(self).source() == old(self).source(),
            value_result(
                r,
                eval(
                    old(self).source(),
                    row@,
                    (ExprModel::MapProjection { var: var@, entries: map_entry_models(entries@) }),
                ),
            ),
        decreases entries, 0int,
    {
        let ghost g = self.source();
        let node = match row.get(var) {
            Some(Binding::Node(node)) => *node,
            _ => {
                return Ok(CypherValue::Null);
            },
        };
        let ghost models = map_entry_models(entries@);
        let mut map: Vec<(String, CypherValue)> = Vec::new();
        let mut i: usize = 0;
        assert(prepend(entry_models(map@), eval_entries(g, row@, node, models, 0))
            == eval_entries(g, row@, node, models, 0)) by {
            assert(entry_models(map@) =~= Seq::empty());
            if let Ok(rest) = eval_entries(g, row@, node, models, 0) {
                assert(Seq::<(Text, ValueModel)>::empty() + rest =~= rest);
            }
        }
        while i < entries.len()
            invariant
                self.ok(),
                self.source() == g,
                old(self).source() == g,
                models == map_entry_models(entries@),
                binding_of(row@, var@) == BindingModel::Node(node),
                i <= entries@.len(),
                eval_entries(g, row@, node, models, 0) == prepend(
                    entry_models(map@),
                    eval_entries(g, row@, node, models, i as int),
                ),
            decreases entries@.len() - i,
        {
            assert(models[i as int] == entries@[i as int]@);
            proof {
                assert(decreases_to!(entries => entries@[i as int]));
            }
            let entry = match &entries[i] {
                MapEntry::Property(prop) => (
                    prop.clone(),
                    self.graph().property(node, prop.as_str()),
                ),
                MapEntry::Literal(key, expr) => match self.eval_expr(row, expr, None) {
                    Ok(v) => (key.clone(), v),
                    Err(e) => {
                        return Err(e);
                    },
                },
            };
            proof {
                lemma_entry_models_push(map@, entry);
                lemma_prepend_push(
                    entry_models(map@),
                    (entry.0@, entry.1@),
                    eval_entries(g, row@, node, models, i as int + 1),
                );
            }
            map.push(entry);
            i += 1;
        }
        assert(entry_models(map@) + Seq::<(Text, ValueModel)>::empty() =~= entry_models(map@));
        Ok(CypherValue::Mapping(map))
    }

    /// The rows in which the predicate holds.
    pub fn filter_rows(
        &mut self,
        rows: Vec<Row<G::NodeId>>,
        predicate: &Expr,
        hoist: Option<&Hoist>,
    ) -> (r: Result<Vec<Row<G::NodeId>>, CypherError>)
        requires
            old(self).ok(),
            forall|k: int|
                0 <= k < rows@.len() ==> fits(
                    old(self).source(),
                    (#[trigger] rows@[k])@,
                    predicate@,
                    hoist,
                ),
        ensures
            final(self).ok(),
            final(self).source() == old(self).source(),
            rows_result(
                r,
                filter_from(old(self).source(), row_models(rows@), predicate@, 0),
            ),
        decreases predicate, 1int,
    {
        let ghost g = self.source();
        let ghost all = rows@;
        let ghost models = row_models(rows@);
        let mut filtered: Vec<Row<G::NodeId>> = Vec::new();
        assert(prepend(row_models(filtered@), filter_from(g, models, predicate@, 0))
            == filter_from(g, models, predicate@, 0)) by {
            assert(row_models(filtered@) =~= Seq::empty());
            if let Ok(rest) = filter_from(g, models, predicate@, 0) {
                assert(Seq::<RowModel<G::NodeId>>::empty() + rest =~= rest);
            }
        }
        for row in it: rows
            invariant
                it.seq() == all,
                self.ok(),
                self.source() == g,
                old(self).source() == g,
                models == row_models(all),
                forall|k: int|
                    0 <= k < all.len() ==> fits(g, (#[trigger] all[k])@, predicate@, hoist),
                filter_from(g, models, predicate@, 0) == prepend(
                    row_models(filtered@),
                    filter_from(g, models, predicate@, it.index() as int),
                ),
        {
            let ghost k = it.index() as int;
            assert(row == all[k]);
            assert(models[k] == row@);
            match self.eval_expr(&row, predicate, hoist) {
                Ok(v) => {
                    if v.is_truthy() {
                        proof {
                            lemma_row_models_push(filtered@, row);
                            lemma_prepend_push(
                                row_models(filtered@),
                                row@,
                                filter_from(g, models, predicate@, k + 1),
                            );
                        }
                        filtered.push(row);
                    }
                },
                Err(e) => {
                    return Err(e);
                },
            }
        }
        assert(row_models(filtered@) + Seq::<RowModel<G::NodeId>>::empty() =~= row_models(
            filtered@,
        ));
        Ok(filtered)
    }
}

/// The model of an optional value.
pub open spec fn opt_value(v: Option<CypherValue>) -> Option<ValueModel> {
    match v {
        Some(v) => Some(v@),
        None => None,
    }
}

/// What has been evaluated for the left and for the right operand.
fn two_parts(hoist: Option<&Hoist>) -> (r: (Option<&Hoist>, Option<&Hoist>))
    ensures
        match hoist {
            Some(h) => match *h {
                Hoist::Two(x, y) => (match x {
                    Some(x) => r.0 == Some(&*x),
                    None => r.0 is None,
                }) && (match y {
                    Some(y) => r.1 == Some(&*y),
                    None => r.1 is None,
                }),
                _ => r.0 is None && r.1 is None,
            },
            None => r.0 is None && r.1 is None,
        },
{
    match hoist {
        Some(Hoist::Two(x, y)) => (part_of(x), part_of(y)),
        _ => (None, None),
    }
}

/// `IN` finds a value that is not null just if the list contains it.
proof fn lemma_member(v: ValueModel, items: Seq<ValueModel>)
    ensures
        !(v is Null) ==> (among(v, items) <==> items.contains(v)),
{
    if !(v is Null) {
        if items.contains(v) {
            let i = choose|i: int| 0 <= i < items.len() && items[i] == v;
            assert(equals(v, items[i]));
        }
        if among(v, items) {
            let i = choose|i: int| 0 <= i < items.len() && equals(v, #[trigger] items[i]);
            assert(items[i] == v);
        }
    }
}

} // verus!
