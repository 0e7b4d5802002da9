//! Aggregate functions over a group of rows.

use vstd::prelude::*;

use crate::ast::{opt_expr_model, AggFn, Expr, ExprModel};
use crate::error::{failure, lemma_prepend_push, prepend, CypherError, ErrorModel};
use crate::eval::{eval, length_value, Outcome};
use crate::evaluator::{length_to_value, value_result};
use crate::matcher::Executor;
use crate::order::{lemma_order_flips, lemma_order_reflexive, lemma_order_transitive};
use crate::provider::GraphProvider;
use crate::row::{row_models, Row, RowModel};
use crate::seqs::distinct;
use crate::value::{
    int_of, lemma_value_models_push, value_models, value_order, CypherValue, ValueModel,
};
use crate::value_index::dedupe_values;

verus! {

/// The values of an expression in the rows from position `i` on, without the nulls.
pub open spec fn known_values<G: GraphProvider>(
    g: &G,
    rows: Seq<RowModel<G::NodeId>>,
    e: ExprModel,
    i: int,
) -> Result<Seq<ValueModel>, ErrorModel>
    decreases rows.len() - i,
{
    if i < 0 || i >= rows.len() {
        Ok(Seq::empty())
    } else {
        match eval(g, rows[i], e) {
            Err(e) => Err(e),
            Ok(v) => if v is Null {
                known_values(g, rows, e, i + 1)
            } else {
                prepend(seq![v], known_values(g, rows, e, i + 1))
            },
        }
    }
}

/// The number of integers among the values.
pub open spec fn int_count(values: Seq<ValueModel>) -> nat
    decreases values.len(),
{
    if values.len() == 0 {
        0
    } else {
        int_count(values.drop_last()) + if int_of(values.last()) is Some {
            1nat
        } else {
            0nat
        }
    }
}

/// The sum of the integers among the values; it wraps around at the limits of an integer.
pub open spec fn int_sum(values: Seq<ValueModel>) -> i64
    decreases values.len(),
{
    if values.len() == 0 {
        0
    } else {
        match int_of(values.last()) {
            Some(i) => int_sum(values.drop_last()).wrapping_add(i),
            None => int_sum(values.drop_last()),
        }
    }
}

/// The quotient without its fraction.
pub open spec fn quotient(a: int, b: int) -> int {
    if a >= 0 {
        a / b
    } else {
        -((-a) / b)
    }
}

/// The divisor for a mean of `n` integers.
pub open spec fn divisor(n: nat) -> int {
    if n <= i64::MAX {
        n as int
    } else {
        1
    }
}

/// The mean of the integers among the values, or null if there is none.
pub open spec fn mean(values: Seq<ValueModel>) -> ValueModel {
    if int_count(values) == 0 {
        ValueModel::Null
    } else {
        ValueModel::Int(quotient(int_sum(values) as int, divisor(int_count(values))) as i64)
    }
}

/// The first of the least values, or null if there is none.
pub open spec fn least(values: Seq<ValueModel>) -> ValueModel
    decreases values.len(),
{
    if values.len() == 0 {
        ValueModel::Null
    } else if values.len() == 1 {
        values[0]
    } else {
        let best = least(values.drop_last());
        if value_order(best, values.last()) > 0 {
            values.last()
        } else {
            best
        }
    }
}

/// The last of the greatest values, or null if there is none.
pub open spec fn greatest(values: Seq<ValueModel>) -> ValueModel
    decreases values.len(),
{
    if values.len() == 0 {
        ValueModel::Null
    } else if values.len() == 1 {
        values[0]
    } else {
        let best = greatest(values.drop_last());
        if value_order(best, values.last()) > 0 {
            best
        } else {
            values.last()
        }
    }
}

/// What an aggregate function makes of values that are not null.
pub open spec fn combine(func: AggFn, values: Seq<ValueModel>) -> ValueModel {
    match func {
        AggFn::Count => length_value(values.len()),
        AggFn::Collect => ValueModel::List(values),
        AggFn::Min => least(values),
        AggFn::Max => greatest(values),
        AggFn::Sum => ValueModel::Int(int_sum(values)),
        AggFn::Avg => mean(values),
    }
}

/// The value of an aggregate over a group of rows.
pub open spec fn aggregate<G: GraphProvider>(
    g: &G,
    e: ExprModel,
    group: Seq<RowModel<G::NodeId>>,
) -> Outcome {
    match e {
        ExprModel::Aggregate { func, arg, distinct: once } => match arg {
            None => if func is Count {
                Ok(length_value(group.len()))
            } else {
                Err(failure("aggregate function requires an argument"@))
            },
            Some(x) => match known_values(g, group, *x, 0) {
                Err(e) => Err(e),
                Ok(values) => Ok(
                    combine(
                        func,
                        if once {
                            distinct(values)
                        } else {
                            values
                        },
                    ),
                ),
            },
        },
        _ => Err(failure("expected an aggregate function"@)),
    }
}

/// The rows at the given positions.
pub open spec fn picked<A>(rows: Seq<A>, members: Seq<usize>) -> Seq<A> {
    Seq::new(members.len(), |i: int| rows[members[i] as int])
}

/// Whether the positions exist.
pub open spec fn within(members: Seq<usize>, n: nat) -> bool {
    forall|i: int| 0 <= i < members.len() ==> (#[trigger] members[i]) < n
}

/// The quotient without its fraction.
fn divide(a: i64, b: i64) -> (r: i64)
    requires
        b > 0,
    ensures
        r == quotient(a as int, b as int),
{
    if a >= 0 {
        let q: u64 = (a as u64) / (b as u64);
        proof {
            vstd::arithmetic::div_mod::lemma_div_nonincreasing(a as int, b as int);
        }
        q as i64
    } else {
        let size: u64 = (-(a as i128)) as u64;
        let q: u64 = size / (b as u64);
        proof {
            vstd::arithmetic::div_mod::lemma_div_nonincreasing(size as int, b as int);
        }
        (-(q as i128)) as i64
    }
}

/// The sum and the number of the integers among the values.
fn sum_ints(values: &Vec<CypherValue>) -> (r: (i64, usize))
    ensures
        r.0 == int_sum(value_models(values@)),
        r.1 == int_count(value_models(values@)),
{
    let ghost models = value_models(values@);
    let mut sum: i64 = 0;
    let mut count: usize = 0;
    let mut i: usize = 0;
    let n: usize = values.len();
    while i < n
        invariant
            n == values@.len(),
            i <= n,
            models == value_models(values@),
            sum == int_sum(models.take(i as int)),
            count == int_count(models.take(i as int)),
            count <= i,
        decreases n - i,
    {
        let ghost after = models.take(i as int + 1);
        assert(after.drop_last() =~= models.take(i as int));
        assert(after.last() == values@[i as int]@);
        if let Some(x) = values[i].as_int() {
            sum = sum.wrapping_add(x);
            count += 1;
        }
        i += 1;
    }
    assert(models.take(i as int) =~= models);
    (sum, count)
}

/// The first of the least values, or the last of the greatest.
fn extreme(values: &Vec<CypherValue>, most: bool) -> (r: CypherValue)
    ensures
        r@ == if most {
            greatest(value_models(values@))
        } else {
            least(value_models(values@))
        },
{
    if values.len() == 0 {
        return CypherValue::Null;
    }
    let ghost models = value_models(values@);
    let mut best: usize = 0;
    let mut i: usize = 1;
    assert(models.take(1) =~= seq![models[0]]);
    while i < values.len()
        invariant
            1 <= i <= values@.len(),
            best < i,
            models == value_models(values@),
            models[best as int] == if most {
                greatest(models.take(i as int))
            } else {
                least(models.take(i as int))
            },
        decreases values@.len() - i,
    {
        let ghost after = models.take(i as int + 1);
        assert(after.drop_last() =~= models.take(i as int));
        assert(after.last() == values@[i as int]@);
        let greater = values[best].order(&values[i]) > 0;
        if greater != most {
            best = i;
        }
        i += 1;
    }
    assert(models.take(i as int) =~= models);
    values[best].clone()
}

/// What an aggregate function makes of values that are not null.
fn combine_values(func: AggFn, values: Vec<CypherValue>) -> (r: CypherValue)
    ensures
        r@ == combine(func, value_models(values@)),
{
    match func {
        AggFn::Count => length_to_value(values.len()),
        AggFn::Collect => CypherValue::List(values),
        AggFn::Min => extreme(&values, false),
        AggFn::Max => extreme(&values, true),
        AggFn::Sum => {
            let (sum, count) = sum_ints(&values);
            CypherValue::Int(sum)
        },
        AggFn::Avg => {
            let (sum, count) = sum_ints(&values);
            if count == 0 {
                CypherValue::Null
            } else {
                let by: i64 = if count as u64 <= 0x7fff_ffff_ffff_ffff {
                    count as i64
                } else {
                    1
                };
                CypherValue::Int(divide(sum, by))
            }
        },
    }
}

impl<'a, G: GraphProvider> Executor<'a, G> {
    /// Evaluates an aggregate over the rows at the given positions.
    pub fn eval_aggregate(
        &mut self,
        expr: &Expr,
        rows: &Vec<Row<G::NodeId>>,
        members: &Vec<usize>,
    ) -> (r: Result<CypherValue, CypherError>)
        requires
            old(self).ok(),
            within(members@, rows@.len()),
        ensures
            final(self).ok(),
            final(self).source() == old(self).source(),
            value_result(
                r,
                aggregate(old(self).source(), expr@, picked(row_models(rows@), members@)),
            ),
    {
        match expr {
            Expr::Aggregate { func, arg, distinct } => {
                assert(opt_expr_model(*arg) is Some == arg is Some);
                match arg {
                    None => {
                        // count(*) does not evaluate an argument.
                        if let AggFn::Count = func {
                            Ok(length_to_value(members.len()))
                        } else {
                            Err(CypherError::execution("aggregate function requires an argument"))
                        }
                    },
                    Some(arg_expr) => match self.argument_values(arg_expr, rows, members) {
                        Ok(values) => {
                            let values = if *distinct {
                                dedupe_values(values)
                            } else {
                                values
                            };
                            Ok(combine_values(*func, values))
                        },
                        Err(e) => Err(e),
                    },
                }
            },
            _ => Err(CypherError::execution("expected an aggregate function")),
        }
    }

    /// The values of an aggregate's argument that are not null.
    fn argument_values(
        &mut self,
        expr: &Expr,
        rows: &Vec<Row<G::NodeId>>,
        members: &Vec<usize>,
    ) -> (r: Result<Vec<CypherValue>, CypherError>)
        requires
            old(self).ok(),
            within(members@, rows@.len()),
        ensures
            final(self).ok(),
            final(self).source() == old(self).source(),
            match known_values(
                old(self).source(),
                picked(row_models(rows@), members@),
                expr@,
                0,
            ) {
                Ok(values) => r is Ok && value_models(r->Ok_0@) == values,
                Err(e) => r is Err && r->Err_0@ == e,
            },
    {
        let ghost g = self.source();
        let ghost group = picked(row_models(rows@), members@);
        let mut values: Vec<CypherValue> = Vec::new();
        let mut i: usize = 0;
        assert(prepend(value_models(values@), known_values(g, group, expr@, 0)) == known_values(
            g,
            group,
            expr@,
            0,
        )) by {
            assert(value_models(values@) =~= Seq::empty());
            if let Ok(rest) = known_values(g, group, expr@, 0) {
                assert(Seq::<ValueModel>::empty() + rest =~= rest);
            }
        }
        while i < members.len()
            invariant
                self.ok(),
                self.source() == g,
                old(self).source() == g,
                i <= members@.len(),
                within(members@, rows@.len()),
                group == picked(row_models(rows@), members@),
                known_values(g, group, expr@, 0) == prepend(
                    value_models(values@),
                    known_values(g, group, expr@, i as int),
                ),
            decreases members@.len() - i,
        {
            let row = &rows[members[i]];
            assert(group[i as int] == row@);
            match self.eval_expr(row, expr, None) {
                Ok(v) => {
                    if !v.is_null() {
                        proof {
                            lemma_value_models_push(values@, v);
                            lemma_prepend_push(
                                value_models(values@),
                                v@,
                                known_values(g, group, expr@, i as int + 1),
                            );
                        }
                        values.push(v);
                    }
                },
                Err(e) => {
                    return Err(e);
                },
            }
            i += 1;
        }
        assert(value_models(values@) + Seq::<ValueModel>::empty() =~= value_models(values@));
        Ok(values)
    }
}

/// `min` gives a value of the group that is not greater than any other.
pub proof fn lemma_least(values: Seq<ValueModel>)
    requires
        values.len() > 0,
    ensures
        values.contains(least(values)),
        forall|i: int|
            0 <= i < values.len() ==> value_order(least(values), #[trigger] values[i]) <= 0,
    decreases values.len(),
{
    if values.len() == 1 {
        lemma_order_reflexive(values[0]);
        assert(values[0] == least(values));
    } else {
        let init = values.drop_last();
        lemma_least(init);
        let best = least(init);
        let j = choose|j: int| 0 <= j < init.len() && init[j] == best;
        assert(values[j] == best);
        assert(values[values.len() - 1] == values.last());
        lemma_order_flips(best, values.last());
        lemma_order_reflexive(values.last());
        assert forall|i: int| 0 <= i < values.len() implies value_order(
            least(values),
            #[trigger] values[i],
        ) <= 0 by {
            if i < init.len() {
                assert(init[i] == values[i]);
                if value_order(best, values.last()) > 0 {
                    lemma_order_transitive(values.last(), best, values[i]);
                }
            }
        }
    }
}

/// `max` gives a value of the group that is not less than any other.
pub proof fn lemma_greatest(values: Seq<ValueModel>)
    requires
        values.len() > 0,
    ensures
        values.contains(greatest(values)),
        forall|i: int|
            0 <= i < values.len() ==> value_order(#[trigger] values[i], greatest(values)) <= 0,
    decreases values.len(),
{
    if values.len() == 1 {
        lemma_order_reflexive(values[0]);
        assert(values[0] == greatest(values));
    } else {
        let init = values.drop_last();
        lemma_greatest(init);
        let best = greatest(init);
        let j = choose|j: int| 0 <= j < init.len() && init[j] == best;
        assert(values[j] == best);
        assert(values[values.len() - 1] == values.last());
        lemma_order_flips(best, values.last());
        lemma_order_reflexive(values.last());
        assert forall|i: int| 0 <= i < values.len() implies value_order(
            #[trigger] values[i],
            greatest(values),
        ) <= 0 by {
            if i < init.len() {
                assert(init[i] == values[i]);
                if value_order(best, values.last()) <= 0 {
                    lemma_order_transitive(values[i], best, values.last());
                }
            }
        }
    }
}

} // verus!
