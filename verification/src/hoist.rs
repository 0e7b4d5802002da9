//! Filtering with the lists on the right of `IN` evaluated beforehand, where they are the same in
//! every row.

use vstd::prelude::*;

use crate::analysis::{lemma_eval_agrees, references_only, refers_within};
use crate::ast::{CmpOp, Expr, ExprModel};
use crate::error::{CypherError, ErrorModel};
use crate::eval::{binding_of, eval, filter_from};
use crate::evaluator::{fits_row, holds_members, Hoist};
use crate::matcher::{rows_result, Executor};
use crate::provider::GraphProvider;
use crate::row::{row_models, Row, RowModel};
use crate::seqs::lemma_distinct_set;
use crate::text::{texts, Text};
use crate::value::{value_models, CypherValue, ValueModel};
use crate::value_index::{index_values, ValueIndex};

verus! {

/// The first error in the evaluation of the lists that a predicate allows to evaluate beforehand:
/// those on the right of an `IN` that refer to nothing but the constant variables.
pub open spec fn hoist_error<G: GraphProvider>(
    g: &G,
    row: RowModel<G::NodeId>,
    e: ExprModel,
    constant: Set<Text>,
) -> Option<ErrorModel>
    decreases e,
{
    match e {
        ExprModel::Not(x) => hoist_error(g, row, *x, constant),
        ExprModel::IsNull(x, _) => hoist_error(g, row, *x, constant),
        ExprModel::And(x, y) => match hoist_error(g, row, *x, constant) {
            Some(e) => Some(e),
            None => hoist_error(g, row, *y, constant),
        },
        ExprModel::Or(x, y) => match hoist_error(g, row, *x, constant) {
            Some(e) => Some(e),
            None => hoist_error(g, row, *y, constant),
        },
        ExprModel::Compare(x, op, y) => match hoist_error(g, row, *x, constant) {
            Some(e) => Some(e),
            None => if op is In {
                if refers_within(*y, constant) {
                    match eval(g, row, *y) {
                        Err(e) => Some(e),
                        Ok(_) => None,
                    }
                } else {
                    None
                }
            } else {
                hoist_error(g, row, *y, constant)
            },
        },
        _ => None,
    }
}

/// The rows in which a predicate holds, when the constant variables have one value in all of them:
/// an error in a list evaluated beforehand comes first, even if no row needs the list. Without rows
/// or constant variables nothing is evaluated beforehand.
pub open spec fn filter_hoisted<G: GraphProvider>(
    g: &G,
    rows: Seq<RowModel<G::NodeId>>,
    predicate: ExprModel,
    constant: Set<Text>,
) -> Result<Seq<RowModel<G::NodeId>>, ErrorModel> {
    if rows.len() == 0 || constant == Set::<Text>::empty() {
        filter_from(g, rows, predicate, 0)
    } else {
        match hoist_error(g, rows[0], predicate, constant) {
            Some(e) => Err(e),
            None => filter_from(g, rows, predicate, 0),
        }
    }
}

/// Whether two rows bind the variables alike.
pub open spec fn same_on<N>(r: RowModel<N>, s: RowModel<N>, names: Set<Text>) -> bool {
    forall|name: Text|
        names.contains(name) ==> #[trigger] binding_of(r, name) == binding_of(s, name)
}

/// Whether what has been evaluated on a sample is right for every row like it.
pub open spec fn right_for_all<G: GraphProvider>(
    g: &G,
    sample: RowModel<G::NodeId>,
    e: ExprModel,
    constant: Set<Text>,
    hoist: Option<Box<Hoist>>,
) -> bool {
    hoist matches Some(h) ==> forall|r: RowModel<G::NodeId>|
        same_on(r, sample, constant) ==> #[trigger] fits_row(g, r, e, *h)
}

/// What is right for the operand is right for `NOT` and `IS NULL`.
proof fn lemma_one_right<G: GraphProvider>(
    g: &G,
    sample: RowModel<G::NodeId>,
    e: ExprModel,
    x: ExprModel,
    constant: Set<Text>,
    part: Option<Box<Hoist>>,
)
    requires
        right_for_all(g, sample, x, constant, part),
        (e is Not && *e->Not_0 == x) || (e is IsNull && *e->IsNull_0 == x),
    ensures
        part matches Some(h) ==> right_for_all(
            g,
            sample,
            e,
            constant,
            Some(Box::new(Hoist::One(h))),
        ),
{
    if let Some(h) = part {
        let whole = Hoist::One(h);
        assert forall|r: RowModel<G::NodeId>| same_on(r, sample, constant) implies #[trigger]
            fits_row(g, r, e, whole) by {
            assert(fits_row(g, r, x, *h));
        }
    }
}

/// What is right for both operands is right for a connective or a comparison.
proof fn lemma_two_right<G: GraphProvider>(
    g: &G,
    sample: RowModel<G::NodeId>,
    e: ExprModel,
    x: ExprModel,
    y: ExprModel,
    constant: Set<Text>,
    left: Option<Box<Hoist>>,
    right: Option<Box<Hoist>>,
)
    requires
        right_for_all(g, sample, x, constant, left),
        right_for_all(g, sample, y, constant, right),
        (e is And && *e->And_0 == x && *e->And_1 == y) || (e is Or && *e->Or_0 == x && *e->Or_1
            == y) || (e is Compare && *e->Compare_0 == x && *e->Compare_2 == y),
    ensures
        right_for_all(g, sample, e, constant, Some(Box::new(Hoist::Two(left, right)))),
{
    let whole = Hoist::Two(left, right);
    assert forall|r: RowModel<G::NodeId>| same_on(r, sample, constant) implies #[trigger] fits_row(
        g,
        r,
        e,
        whole,
    ) by {
        if let Some(h) = left {
            assert(fits_row(g, r, x, *h));
        }
        if let Some(h) = right {
            assert(fits_row(g, r, y, *h));
        }
    }
}

/// The members of a list that is the same in every row are right for the `IN`.
proof fn lemma_members_right<G: GraphProvider>(
    g: &G,
    sample: RowModel<G::NodeId>,
    e: ExprModel,
    x: ExprModel,
    y: ExprModel,
    constant: Set<Text>,
    left: Option<Box<Hoist>>,
    table: ValueIndex,
)
    requires
        right_for_all(g, sample, x, constant, left),
        e is Compare && *e->Compare_0 == x && e->Compare_1 is In && *e->Compare_2 == y,
        refers_within(y, constant),
        holds_members(table, eval(g, sample, y)),
    ensures
        right_for_all(g, sample, e, constant, Some(Box::new(Hoist::Members(left, table)))),
{
    let whole = Hoist::Members(left, table);
    assert forall|r: RowModel<G::NodeId>| same_on(r, sample, constant) implies #[trigger] fits_row(
        g,
        r,
        e,
        whole,
    ) by {
        if let Some(h) = left {
            assert(fits_row(g, r, x, *h));
        }
        lemma_eval_agrees(g, r, sample, y);
    }
}

/// Both parts in the shape of an operator with two operands.
fn pair(left: Option<Box<Hoist>>, right: Option<Box<Hoist>>) -> (r: Option<Box<Hoist>>)
    ensures
        match r {
            Some(h) => *h == Hoist::Two(left, right),
            None => left is None && right is None,
        },
{
    if left.is_none() && right.is_none() {
        None
    } else {
        Some(Box::new(Hoist::Two(left, right)))
    }
}

/// The part in the shape of an operator with one operand.
fn single(part: Option<Box<Hoist>>) -> (r: Option<Box<Hoist>>)
    ensures
        match r {
            Some(h) => part is Some && *h == Hoist::One(part->0),
            None => part is None,
        },
{
    match part {
        Some(h) => Some(Box::new(Hoist::One(h))),
        None => None,
    }
}

impl<'a, G: GraphProvider> Executor<'a, G> {
    /// Walks a predicate and, for each `expr IN <list>` whose right-hand side references only
    /// constant variables, evaluates the list once.
    #[verifier::rlimit(60)]
    fn build_in_hoist(
        &mut self,
        expr: &Expr,
        constant_vars: &Vec<String>,
        sample: &Row<G::NodeId>,
    ) -> (r: Result<Option<Box<Hoist>>, CypherError>)
        requires
            old(self).ok(),
        ensures
            final(self).ok(),
            final(self).source() == old(self).source(),
            match hoist_error(
                old(self).source(),
                sample@,
                expr@,
                texts(constant_vars@).to_set(),
            ) {
                Some(e) => r is Err && r->Err_0@ == e,
                None => r is Ok && right_for_all(
                    old(self).source(),
                    sample@,
                    expr@,
                    texts(constant_vars@).to_set(),
                    r->Ok_0,
                ),
            },
        decreases expr,
    {
        let ghost g = self.source();
        let ghost constant = texts(constant_vars@).to_set();
        match expr {
            Expr::Not(inner) => match self.build_in_hoist(inner, constant_vars, sample) {
                Ok(part) => {
                    proof {
                        lemma_one_right(g, sample@, expr@, inner@, constant, part);
                    }
                    Ok(single(part))
                },
                Err(e) => Err(e),
            },
            Expr::IsNull(inner, _) => match self.build_in_hoist(inner, constant_vars, sample) {
                Ok(part) => {
                    proof {
                        lemma_one_right(g, sample@, expr@, inner@, constant, part);
                    }
                    Ok(single(part))
                },
                Err(e) => Err(e),
            },
            Expr::And(a, b) => match self.build_in_hoist(a, constant_vars, sample) {
                Ok(left) => match self.build_in_hoist(b, constant_vars, sample) {
                    Ok(right) => {
                        proof {
                            lemma_two_right(g, sample@, expr@, a@, b@, constant, left, right);
                        }
                        Ok(pair(left, right))
                    },
                    Err(e) => Err(e),
                },
                Err(e) => Err(e),
            },
            Expr::Or(a, b) => match self.build_in_hoist(a, constant_vars, sample) {
                Ok(left) => match self.build_in_hoist(b, constant_vars, sample) {
                    Ok(right) => {
                        proof {
                            lemma_two_right(g, sample@, expr@, a@, b@, constant, left, right);
                        }
                        Ok(pair(left, right))
                    },
                    Err(e) => Err(e),
                },
                Err(e) => Err(e),
            },
            Expr::Compare(a, op, b) => {
                let left = match self.build_in_hoist(a, constant_vars, sample) {
                    Ok(left) => left,
                    Err(e) => {
                        return Err(e);
                    },
                };
                if let CmpOp::In = op {
                    proof {
                        lemma_two_right(g, sample@, expr@, a@, b@, constant, left, None);
                    }
                    if references_only(b, constant_vars) {
                        return match self.eval_expr(sample, b, None) {
                            Ok(CypherValue::List(items)) => {
                                let ghost models = value_models(items@);
                                let table = index_values(items);
                                proof {
                                    lemma_distinct_set(models);
                                    assert forall|v: ValueModel| #[trigger]
                                        table@.contains(v) <==> models.contains(v) by {
                                        assert(table@.to_set().contains(v)
                                            <==> models.to_set().contains(v));
                                    }
                                    lemma_members_right(
                                        g,
                                        sample@,
                                        expr@,
                                        a@,
                                        b@,
                                        constant,
                                        left,
                                        table,
                                    );
                                }
                                Ok(Some(Box::new(Hoist::Members(left, table))))
                            },
                            Ok(_) => Ok(pair(left, None)),
                            Err(e) => Err(e),
                        };
                    }
                    return Ok(pair(left, None));
                }
                match self.build_in_hoist(b, constant_vars, sample) {
                    Ok(right) => {
                        proof {
                            lemma_two_right(g, sample@, expr@, a@, b@, constant, left, right);
                        }
                        Ok(pair(left, right))
                    },
                    Err(e) => Err(e),
                }
            },
            _ => Ok(None),
        }
    }

    /// Filters rows by a predicate, first evaluating once any `IN` right-hand side whose variables
    /// are all constant across the rows, if there are rows and constant variables.
    pub fn filter_rows_hoisted(
        &mut self,
        rows: Vec<Row<G::NodeId>>,
        predicate: &Expr,
        constant_vars: &Vec<String>,
    ) -> (r: Result<Vec<Row<G::NodeId>>, CypherError>)
        requires
            old(self).ok(),
            forall|k: int|
                0 <= k < rows@.len() ==> same_on(
                    (#[trigger] rows@[k])@,
                    rows@[0]@,
                    texts(constant_vars@).to_set(),
                ),
        ensures
            final(self).ok(),
            final(self).source() == old(self).source(),
            rows_result(
                r,
                filter_hoisted(
                    old(self).source(),
                    row_models(rows@),
                    predicate@,
                    texts(constant_vars@).to_set(),
                ),
            ),
    {
        if constant_vars.len() == 0 || rows.len() == 0 {
            assert(constant_vars@.len() == 0 ==> texts(constant_vars@).to_set() =~= Set::<
                Text,
            >::empty());
            return self.filter_rows(rows, predicate, None);
        }
        proof {
            let names = texts(constant_vars@);
            assert(names.contains(names[0]));
            assert(names.to_set().contains(names[0]));
        }
        match self.build_in_hoist(predicate, constant_vars, &rows[0]) {
            Ok(Some(hoist)) => self.filter_rows(rows, predicate, Some(&*hoist)),
            Ok(None) => self.filter_rows(rows, predicate, None),
            Err(e) => Err(e),
        }
    }
}

/// Evaluating lists beforehand changes nothing but which error comes: the rows that come out are
/// those of a filter that evaluates everything in every row.
pub proof fn lemma_hoisting_is_safe<G: GraphProvider>(
    g: &G,
    rows: Seq<RowModel<G::NodeId>>,
    predicate: ExprModel,
    constant: Set<Text>,
)
    ensures
        filter_hoisted(g, rows, predicate, constant) == filter_from(g, rows, predicate, 0) || (
        rows.len() > 0 && filter_hoisted(g, rows, predicate, constant) is Err && hoist_error(
            g,
            rows[0],
            predicate,
            constant,
        ) == Some(filter_hoisted(g, rows, predicate, constant)->Err_0)),
{
}

} // verus!
