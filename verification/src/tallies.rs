//! Laws of the aggregate functions.

use vstd::prelude::*;

use crate::aggregate::{
    aggregate, greatest, int_count, int_sum, known_values, least, lemma_greatest, lemma_least, mean,
    quotient,
};
use crate::ast::{AggFn, ExprModel};
use crate::error::ErrorModel;
use crate::eval::eval;
use crate::order::{lemma_order_flips, lemma_order_transitive};
use crate::provider::GraphProvider;
use crate::row::RowModel;
use crate::seqs::{distinct, lemma_distinct_set, lemma_fresh_elements};
use crate::value::{value_order, ValueModel};

verus! {

/// The values of an expression in the rows of a group, without null.
pub open spec fn given_values<G: GraphProvider>(
    g: &G,
    group: Seq<RowModel<G::NodeId>>,
    e: ExprModel,
) -> Seq<ValueModel> {
    group.map_values(|row: RowModel<G::NodeId>| eval(g, row, e)->Ok_0).filter(
        |v: ValueModel| v != ValueModel::Null,
    )
}

/// Whether an expression can be evaluated in every row of a group.
pub open spec fn all_given<G: GraphProvider>(
    g: &G,
    group: Seq<RowModel<G::NodeId>>,
    e: ExprModel,
) -> bool {
    forall|i: int| 0 <= i < group.len() ==> eval(g, #[trigger] group[i], e) is Ok
}

/// The expression `func(e)`, or `func(DISTINCT e)` if each value is to count once.
pub open spec fn call(func: AggFn, e: ExprModel, once: bool) -> ExprModel {
    ExprModel::Aggregate { func, arg: Some(Box::new(e)), distinct: once }
}

proof fn lemma_known<G: GraphProvider>(
    g: &G,
    group: Seq<RowModel<G::NodeId>>,
    e: ExprModel,
    i: int,
)
    requires
        all_given(g, group, e),
        0 <= i <= group.len(),
    ensures
        known_values(g, group, e, i) == Ok::<Seq<ValueModel>, ErrorModel>(
            given_values(g, group.skip(i), e),
        ),
    decreases group.len() - i,
{
    let f = |row: RowModel<G::NodeId>| eval(g, row, e)->Ok_0;
    let p = |v: ValueModel| v != ValueModel::Null;
    reveal(Seq::filter);
    if i < group.len() {
        lemma_known(g, group, e, i + 1);
        let v = eval(g, group[i], e)->Ok_0;
        let rest = group.skip(i + 1).map_values(f);
        assert(group.skip(i).map_values(f) =~= seq![v] + rest);
        Seq::filter_distributes_over_add(seq![v], rest, p);
        assert(seq![v].drop_last() =~= Seq::empty());
        assert(Seq::<ValueModel>::empty().filter(p) =~= Seq::empty());
        assert(seq![v].last() == v);
        assert(seq![v].filter(p) =~= if v != ValueModel::Null {
            seq![v]
        } else {
            Seq::empty()
        });
        assert(Seq::<ValueModel>::empty() + rest.filter(p) =~= rest.filter(p));
    } else {
        assert(group.skip(i).map_values(f) =~= Seq::empty());
        assert(given_values(g, group.skip(i), e) =~= Seq::empty());
    }
}

proof fn lemma_values<G: GraphProvider>(
    g: &G,
    group: Seq<RowModel<G::NodeId>>,
    e: ExprModel,
)
    requires
        all_given(g, group, e),
    ensures
        known_values(g, group, e, 0) == Ok::<Seq<ValueModel>, ErrorModel>(
            given_values(g, group, e),
        ),
{
    lemma_known(g, group, e, 0);
    assert(group.skip(0) =~= group);
}

/// `count(*)` is the number of rows.
pub proof fn lemma_count_rows<G: GraphProvider>(g: &G, group: Seq<RowModel<G::NodeId>>)
    requires
        group.len() <= i64::MAX,
    ensures
        aggregate(
            g,
            ExprModel::Aggregate { func: AggFn::Count, arg: None, distinct: false },
            group,
        ) == Ok::<ValueModel, ErrorModel>(ValueModel::Int(group.len() as i64)),
{
}

/// `count(e)` is the number of the values that are not null, and `count(DISTINCT e)` that of the
/// different ones.
pub proof fn lemma_count<G: GraphProvider>(
    g: &G,
    group: Seq<RowModel<G::NodeId>>,
    e: ExprModel,
)
    requires
        all_given(g, group, e),
        group.len() <= i64::MAX,
    ensures
        aggregate(g, call(AggFn::Count, e, false), group) == Ok::<ValueModel, ErrorModel>(
            ValueModel::Int(given_values(g, group, e).len() as i64),
        ),
        aggregate(g, call(AggFn::Count, e, true), group) == Ok::<ValueModel, ErrorModel>(
            ValueModel::Int(given_values(g, group, e).to_set().len() as i64),
        ),
        given_values(g, group, e).len() <= group.len(),
{
    let values = given_values(g, group, e);
    lemma_values(g, group, e);
    let f = |row: RowModel<G::NodeId>| eval(g, row, e)->Ok_0;
    group.map_values(f).lemma_filter_len(|v: ValueModel| v != ValueModel::Null);
    lemma_distinct_set(values);
    lemma_fresh_elements(values, Set::empty());
    distinct(values).unique_seq_to_set();
}

/// `collect(e)` is the list of the values that are not null, in the order of the rows.
pub proof fn lemma_collect<G: GraphProvider>(
    g: &G,
    group: Seq<RowModel<G::NodeId>>,
    e: ExprModel,
)
    requires
        all_given(g, group, e),
    ensures
        aggregate(g, call(AggFn::Collect, e, false), group) == Ok::<ValueModel, ErrorModel>(
            ValueModel::List(given_values(g, group, e)),
        ),
{
    lemma_values(g, group, e);
}

/// `collect(DISTINCT e)` is the list of the different values that are not null, each where it first
/// occurs.
pub proof fn lemma_collect_distinct<G: GraphProvider>(
    g: &G,
    group: Seq<RowModel<G::NodeId>>,
    e: ExprModel,
)
    requires
        all_given(g, group, e),
    ensures
        aggregate(g, call(AggFn::Collect, e, true), group) matches Ok(ValueModel::List(out))
            && out.no_duplicates() && out.to_set() == given_values(g, group, e).to_set() && exists|
            at: Seq<int>,
        | #[trigger]
            first_places(given_values(g, group, e), out, at),
{
    let values = given_values(g, group, e);
    lemma_values(g, group, e);
    lemma_distinct_set(values);
    lemma_fresh_elements(values, Set::empty());
    let at = lemma_first_places(values);
}

/// Whether `out` holds the elements of `s` at the ascending places `at`, and none of them occurs
/// before its place.
pub open spec fn first_places<A>(s: Seq<A>, out: Seq<A>, at: Seq<int>) -> bool {
    &&& at.len() == out.len()
    &&& forall|i: int|
        #![trigger at[i]]
        0 <= i < at.len() ==> 0 <= at[i] < s.len() && s[at[i]] == out[i] && forall|j: int|
            0 <= j < at[i] ==> #[trigger] s[j] != out[i]
    &&& forall|i: int, j: int| 0 <= i < j < at.len() ==> #[trigger] at[i] < #[trigger] at[j]
}

/// The different elements of a sequence stand where they first occur.
pub proof fn lemma_first_places<A>(s: Seq<A>) -> (at: Seq<int>)
    ensures
        first_places(s, distinct(s), at),
    decreases s.len(),
{
    if s.len() == 0 {
        Seq::empty()
    } else {
        let init = s.drop_last();
        let before = lemma_first_places(init);
        let at = if init.contains(s.last()) {
            before
        } else {
            before.push(s.len() - 1)
        };
        assert forall|i: int|
            #![trigger at[i]]
            0 <= i < at.len() implies 0 <= at[i] < s.len() && s[at[i]] == distinct(s)[i] && forall|
            j: int,
        |
            0 <= j < at[i] ==> #[trigger] s[j] != distinct(s)[i] by {
            if i < before.len() {
                assert(at[i] == before[i]);
            }
            assert forall|j: int| 0 <= j < at[i] implies #[trigger] s[j] != distinct(s)[i] by {
                assert(init[j] == s[j]);
            }
        }
        assert forall|i: int, j: int| 0 <= i < j < at.len() implies #[trigger] at[i]
            < #[trigger] at[j] by {
            assert(at[i] == before[i]);
            if j < before.len() {
                assert(at[j] == before[j]);
            }
        }
        at
    }
}

// ---- Sums --------------------------------------------------------------------------

/// The sum of the integers among values, as a number.
pub open spec fn total(values: Seq<ValueModel>) -> int {
    values.fold_left(
        0,
        |sum: int, v: ValueModel|
            match v {
                ValueModel::Int(i) => sum + i,
                _ => sum,
            },
    )
}

/// The integers among values.
pub open spec fn integers(values: Seq<ValueModel>) -> Seq<ValueModel> {
    values.filter(|v: ValueModel| v is Int)
}

proof fn lemma_int_sum(values: Seq<ValueModel>)
    ensures
        (total(values) - int_sum(values)) % 0x1_0000_0000_0000_0000 == 0,
    decreases values.len(),
{
    if values.len() > 0 {
        lemma_int_sum(values.drop_last());
    }
}

proof fn lemma_int_count(values: Seq<ValueModel>)
    ensures
        int_count(values) == integers(values).len(),
    decreases values.len(),
{
    reveal(Seq::filter);
    if values.len() > 0 {
        lemma_int_count(values.drop_last());
    }
}

/// `sum(e)` is the sum of the integers among the values, if it is an integer; it wraps around
/// otherwise.
pub proof fn lemma_sum<G: GraphProvider>(
    g: &G,
    group: Seq<RowModel<G::NodeId>>,
    e: ExprModel,
)
    requires
        all_given(g, group, e),
    ensures
        aggregate(g, call(AggFn::Sum, e, false), group) matches Ok(ValueModel::Int(s)) && (total(
            given_values(g, group, e),
        ) - s) % 0x1_0000_0000_0000_0000 == 0 && (i64::MIN <= total(given_values(g, group, e))
            <= i64::MAX ==> s == total(given_values(g, group, e))),
        aggregate(g, call(AggFn::Sum, e, true), group) matches Ok(ValueModel::Int(s)) && (total(
            distinct(given_values(g, group, e)),
        ) - s) % 0x1_0000_0000_0000_0000 == 0,
{
    lemma_values(g, group, e);
    lemma_int_sum(given_values(g, group, e));
    lemma_int_sum(distinct(given_values(g, group, e)));
}

/// `avg(e)` is the quotient of the sum and the number of the integers among the values, without its
/// fraction; without integers it is null.
pub proof fn lemma_avg<G: GraphProvider>(
    g: &G,
    group: Seq<RowModel<G::NodeId>>,
    e: ExprModel,
    once: bool,
)
    requires
        all_given(g, group, e),
    ensures
        ({
            let all = given_values(g, group, e);
            let values = if once {
                distinct(all)
            } else {
                all
            };
            let n = integers(values).len();
            let t = total(values);
            let r = aggregate(g, call(AggFn::Avg, e, once), group);
            &&& n == 0 ==> r == Ok::<ValueModel, ErrorModel>(ValueModel::Null)
            &&& 0 < n <= i64::MAX && i64::MIN <= t <= i64::MAX ==> (r matches Ok(
                ValueModel::Int(q),
            ) && if t >= 0 {
                q >= 0 && q * n <= t < (q + 1) * n
            } else {
                q <= 0 && (q - 1) * n < t <= q * n
            })
        }),
{
    let all = given_values(g, group, e);
    let values = if once {
        distinct(all)
    } else {
        all
    };
    lemma_values(g, group, e);
    lemma_int_sum(values);
    lemma_int_count(values);
    let n = integers(values).len();
    let t = total(values);
    if 0 < n <= i64::MAX && i64::MIN <= t <= i64::MAX {
        assert(int_sum(values) == t);
        lemma_quotient(t, n as int);
        assert(mean(values) == ValueModel::Int(quotient(t, n as int) as i64));
    }
}

proof fn lemma_quotient(t: int, n: int)
    requires
        n > 0,
        i64::MIN <= t <= i64::MAX,
    ensures
        i64::MIN <= quotient(t, n) <= i64::MAX,
        t >= 0 ==> quotient(t, n) >= 0 && quotient(t, n) * n <= t < (quotient(t, n) + 1) * n,
        t < 0 ==> quotient(t, n) <= 0 && (quotient(t, n) - 1) * n < t <= quotient(t, n) * n,
{
    let a = if t >= 0 {
        t
    } else {
        -t
    };
    let d = a / n;
    vstd::arithmetic::div_mod::lemma_fundamental_div_mod(a, n);
    vstd::arithmetic::div_mod::lemma_mod_bound(a, n);
    vstd::arithmetic::div_mod::lemma_div_pos_is_pos(a, n);
    vstd::arithmetic::div_mod::lemma_div_nonincreasing(a, n);
    assert(a == n * d + a % n);
    assert((d + 1) * n == n * d + n) by (nonlinear_arith);
    assert(d * n == n * d) by (nonlinear_arith);
    assert((-d) * n == -(n * d)) by (nonlinear_arith);
    assert((-d - 1) * n == -(n * d) - n) by (nonlinear_arith);
}

// ---- Extremes ----------------------------------------------------------------------

proof fn lemma_least_first(values: Seq<ValueModel>) -> (k: int)
    requires
        values.len() > 0,
    ensures
        0 <= k < values.len(),
        values[k] == least(values),
        forall|i: int| 0 <= i < values.len() ==> value_order(values[k], #[trigger] values[i]) <= 0,
        forall|i: int| 0 <= i < k ==> value_order(values[k], #[trigger] values[i]) < 0,
    decreases values.len(),
{
    lemma_least(values);
    if values.len() == 1 {
        0
    } else {
        let init = values.drop_last();
        let j = lemma_least_first(init);
        lemma_order_flips(init[j], values.last());
        if value_order(init[j], values.last()) > 0 {
            let k = values.len() - 1;
            assert forall|i: int| 0 <= i < k implies value_order(values[k], #[trigger] values[i])
                < 0 by {
                assert(init[i] == values[i]);
                lemma_order_transitive(values[k], init[j], init[i]);
            }
            k
        } else {
            assert forall|i: int| 0 <= i < j implies value_order(values[j], #[trigger] values[i])
                < 0 by {
                assert(init[i] == values[i]);
            }
            j
        }
    }
}

proof fn lemma_greatest_last(values: Seq<ValueModel>) -> (k: int)
    requires
        values.len() > 0,
    ensures
        0 <= k < values.len(),
        values[k] == greatest(values),
        forall|i: int| 0 <= i < values.len() ==> value_order(#[trigger] values[i], values[k]) <= 0,
        forall|i: int| k < i < values.len() ==> value_order(#[trigger] values[i], values[k]) < 0,
    decreases values.len(),
{
    lemma_greatest(values);
    if values.len() == 1 {
        0
    } else {
        let init = values.drop_last();
        let j = lemma_greatest_last(init);
        lemma_order_flips(init[j], values.last());
        if value_order(init[j], values.last()) > 0 {
            assert forall|i: int| j < i < values.len() implies value_order(
                #[trigger] values[i],
                values[j],
            ) < 0 by {
                if i < init.len() {
                    assert(init[i] == values[i]);
                }
            }
            j
        } else {
            values.len() - 1
        }
    }
}

/// `min(e)` is the first of the least values, and null if there is none; `DISTINCT` makes no
/// difference to its place in the order.
pub proof fn lemma_min<G: GraphProvider>(
    g: &G,
    group: Seq<RowModel<G::NodeId>>,
    e: ExprModel,
)
    requires
        all_given(g, group, e),
    ensures
        ({
            let values = given_values(g, group, e);
            let r = aggregate(g, call(AggFn::Min, e, false), group);
            &&& values.len() == 0 ==> r == Ok::<ValueModel, ErrorModel>(ValueModel::Null)
            &&& values.len() > 0 ==> exists|k: int|
                0 <= k < values.len() && r == Ok::<ValueModel, ErrorModel>(#[trigger] values[k])
                    && (forall|i: int|
                    0 <= i < values.len() ==> value_order(values[k], #[trigger] values[i]) <= 0) && (
                forall|i: int| 0 <= i < k ==> value_order(values[k], #[trigger] values[i]) < 0)
        }),
{
    let values = given_values(g, group, e);
    lemma_values(g, group, e);
    if values.len() > 0 {
        let k = lemma_least_first(values);
        assert(values[k] == least(values));
    }
}

/// `max(e)` is the last of the greatest values, and null if there is none.
pub proof fn lemma_max<G: GraphProvider>(
    g: &G,
    group: Seq<RowModel<G::NodeId>>,
    e: ExprModel,
)
    requires
        all_given(g, group, e),
    ensures
        ({
            let values = given_values(g, group, e);
            let r = aggregate(g, call(AggFn::Max, e, false), group);
            &&& values.len() == 0 ==> r == Ok::<ValueModel, ErrorModel>(ValueModel::Null)
            &&& values.len() > 0 ==> exists|k: int|
                0 <= k < values.len() && r == Ok::<ValueModel, ErrorModel>(#[trigger] values[k])
                    && (forall|i: int|
                    0 <= i < values.len() ==> value_order(#[trigger] values[i], values[k]) <= 0) && (
                forall|i: int|
                    k < i < values.len() ==> value_order(#[trigger] values[i], values[k]) < 0)
        }),
{
    let values = given_values(g, group, e);
    lemma_values(g, group, e);
    if values.len() > 0 {
        let k = lemma_greatest_last(values);
        assert(values[k] == greatest(values));
    }
}

/// `min(DISTINCT e)` and `max(DISTINCT e)` are values that are not null, least and greatest among
/// all of them.
pub proof fn lemma_extremes_distinct<G: GraphProvider>(
    g: &G,
    group: Seq<RowModel<G::NodeId>>,
    e: ExprModel,
)
    requires
        all_given(g, group, e),
        given_values(g, group, e).len() > 0,
    ensures
        aggregate(g, call(AggFn::Min, e, true), group) matches Ok(m) && given_values(
            g,
            group,
            e,
        ).contains(m) && forall|i: int|
            0 <= i < given_values(g, group, e).len() ==> value_order(
                m,
                #[trigger] given_values(g, group, e)[i],
            ) <= 0,
        aggregate(g, call(AggFn::Max, e, true), group) matches Ok(m) && given_values(
            g,
            group,
            e,
        ).contains(m) && forall|i: int|
            0 <= i < given_values(g, group, e).len() ==> value_order(
                #[trigger] given_values(g, group, e)[i],
                m,
            ) <= 0,
{
    let values = given_values(g, group, e);
    let once = distinct(values);
    lemma_values(g, group, e);
    lemma_fresh_elements(values, Set::empty());
    assert(values.contains(values[0]));
    assert(once.contains(values[0]));
    lemma_least(once);
    lemma_greatest(once);
    assert forall|i: int| 0 <= i < values.len() implies value_order(
        least(once),
        #[trigger] values[i],
    ) <= 0 && value_order(values[i], greatest(once)) <= 0 by {
        assert(values.contains(values[i]));
        assert(once.contains(values[i]));
        let j = choose|j: int| 0 <= j < once.len() && once[j] == values[i];
    }
    assert(once.contains(least(once)) && once.contains(greatest(once)));
}

/// An aggregate fails where its argument does.
pub proof fn lemma_aggregate_fails<G: GraphProvider>(
    g: &G,
    group: Seq<RowModel<G::NodeId>>,
    func: AggFn,
    e: ExprModel,
    once: bool,
    k: int,
)
    requires
        0 <= k < group.len(),
        all_given(g, group.take(k), e),
        eval(g, group[k], e) is Err,
    ensures
        aggregate(g, call(func, e, once), group) == eval(g, group[k], e),
{
    lemma_first_failure(g, group, e, 0, k);
}

proof fn lemma_first_failure<G: GraphProvider>(
    g: &G,
    group: Seq<RowModel<G::NodeId>>,
    e: ExprModel,
    i: int,
    k: int,
)
    requires
        0 <= i <= k < group.len(),
        all_given(g, group.take(k), e),
        eval(g, group[k], e) is Err,
    ensures
        known_values(g, group, e, i) is Err,
        known_values(g, group, e, i)->Err_0 == eval(g, group[k], e)->Err_0,
    decreases k - i,
{
    if i < k {
        assert(group.take(k)[i] == group[i]);
        lemma_first_failure(g, group, e, i + 1, k);
    }
}

/// An aggregate must stand alone in its item, and only `count` needs no argument.
pub proof fn lemma_no_aggregate<G: GraphProvider>(
    g: &G,
    group: Seq<RowModel<G::NodeId>>,
    e: ExprModel,
    func: AggFn,
    once: bool,
)
    ensures
        !(e is Aggregate) ==> aggregate(g, e, group) is Err,
        !(func is Count) ==> aggregate(
            g,
            (ExprModel::Aggregate { func, arg: None, distinct: once }),
            group,
        ) is Err,
{
}

} // verus!
