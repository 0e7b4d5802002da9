//! DISTINCT, ORDER BY, SKIP and LIMIT.

use vstd::prelude::*;

use crate::ast::{
    item_models, opt_nat, Expr, ExprModel, ItemModel, OrderItem, OrderModel, Projection,
    ProjectionModel, ReturnItem,
};
use crate::error::{failure, lemma_prepend_push, prepend, CypherError, ErrorModel};
use crate::evaluator::quoting;
use crate::naming::name_of;
use crate::order::{lemma_order_flips, lemma_order_transitive};
use crate::row::{Row, RowModel};
use crate::seqs::lemma_push_contains;
use crate::text::{texts, Text};
use crate::value::{clone_values, value_models, value_order, CypherValue, ValueModel};
use crate::value_index::ValueIndex;

verus! {

/// A projected row: the new bindings carried to the next clause, plus the aligned output values.
pub struct Projected<N> {
    pub bindings: Row<N>,
    pub values: Vec<CypherValue>,
}

/// The model of a [`Projected`].
pub struct ProjectedModel<N> {
    pub bindings: RowModel<N>,
    pub values: Seq<ValueModel>,
}

impl<N> Projected<N> {
    /// The model of the row.
    pub open spec fn view(&self) -> ProjectedModel<N> {
        ProjectedModel { bindings: self.bindings@, values: value_models(self.values@) }
    }
}

/// The models of projected rows.
pub open spec fn projected_models<N>(rows: Seq<Projected<N>>) -> Seq<ProjectedModel<N>> {
    Seq::new(rows.len(), |i: int| rows[i]@)
}

/// The models grow with the sequence.
pub proof fn lemma_projected_push<N>(rows: Seq<Projected<N>>, row: Projected<N>)
    ensures
        projected_models(rows.push(row)) == projected_models(rows).push(row@),
{
    assert(projected_models(rows.push(row)) =~= projected_models(rows).push(row@));
}

// ---- DISTINCT ----------------------------------------------------------------

/// Whether one of the rows has these values.
pub open spec fn has_values<N>(rows: Seq<ProjectedModel<N>>, values: Seq<ValueModel>) -> bool {
    exists|i: int| 0 <= i < rows.len() && (#[trigger] rows[i]).values == values
}

/// The rows without those whose values have come before.
pub open spec fn distinct_rows<N>(rows: Seq<ProjectedModel<N>>) -> Seq<ProjectedModel<N>>
    decreases rows.len(),
{
    if rows.len() == 0 {
        rows
    } else {
        let before = distinct_rows(rows.drop_last());
        if has_values(rows.drop_last(), rows.last().values) {
            before
        } else {
            before.push(rows.last())
        }
    }
}

// ---- ORDER BY ----------------------------------------------------------------

/// A column to sort by, and whether the order is descending.
pub type SortKey = (nat, bool);

/// The value in a column; a column that the row does not have counts as null.
pub open spec fn cell(values: Seq<ValueModel>, column: nat) -> ValueModel {
    if column < values.len() {
        values[column as int]
    } else {
        ValueModel::Null
    }
}

/// The comparison of two rows by the sort keys from position `i` on: the first key that tells them
/// apart decides.
pub open spec fn row_order(
    a: Seq<ValueModel>,
    b: Seq<ValueModel>,
    keys: Seq<SortKey>,
    i: int,
) -> int
    decreases keys.len() - i,
{
    if i < 0 || i >= keys.len() {
        0
    } else {
        let o = value_order(cell(a, keys[i].0), cell(b, keys[i].0));
        if o == 0 {
            row_order(a, b, keys, i + 1)
        } else if keys[i].1 {
            -o
        } else {
            o
        }
    }
}

/// The comparison of two rows by all sort keys.
pub open spec fn compare_rows<N>(
    a: ProjectedModel<N>,
    b: ProjectedModel<N>,
    keys: Seq<SortKey>,
) -> int {
    row_order(a.values, b.values, keys, 0)
}

/// The position of the first row from position `i` on that comes after `row`.
pub open spec fn slot<N>(
    rows: Seq<ProjectedModel<N>>,
    row: ProjectedModel<N>,
    keys: Seq<SortKey>,
    i: int,
) -> int
    decreases rows.len() - i,
{
    if i < 0 || i >= rows.len() {
        rows.len() as int
    } else if compare_rows(rows[i], row, keys) > 0 {
        i
    } else {
        slot(rows, row, keys, i + 1)
    }
}

/// The rows in order; rows that compare equal keep the order in which they came.
pub open spec fn sort_rows<N>(rows: Seq<ProjectedModel<N>>, keys: Seq<SortKey>) -> Seq<
    ProjectedModel<N>,
>
    decreases rows.len(),
{
    if rows.len() == 0 {
        rows
    } else {
        let sorted = sort_rows(rows.drop_last(), keys);
        sorted.insert(slot(sorted, rows.last(), keys, 0), rows.last())
    }
}

/// The first item from position `i` on that has this expression.
pub open spec fn item_position(items: Seq<ItemModel>, e: ExprModel, i: int) -> Option<nat>
    decreases items.len() - i,
{
    if i < 0 || i >= items.len() {
        None
    } else if items[i].expr == e {
        Some(i as nat)
    } else {
        item_position(items, e, i + 1)
    }
}

/// The first column from position `i` on that has this name.
pub open spec fn column_position(columns: Seq<Text>, name: Text, i: int) -> Option<nat>
    decreases columns.len() - i,
{
    if i < 0 || i >= columns.len() {
        None
    } else if columns[i] == name {
        Some(i as nat)
    } else {
        column_position(columns, name, i + 1)
    }
}

/// The column that an ORDER BY expression stands for: that of an identical projection expression,
/// or else, for a bare variable, that of its name.
pub open spec fn order_column(e: ExprModel, items: Seq<ItemModel>, columns: Seq<Text>) -> Result<
    nat,
    ErrorModel,
> {
    let named = match e {
        ExprModel::Var(name) => column_position(columns, name, 0),
        _ => None,
    };
    match item_position(items, e, 0) {
        Some(k) => Ok(k),
        None => match named {
            Some(k) => Ok(k),
            None => Err(
                failure(
                    "ORDER BY expression `"@ + name_of(e) + "` must also appear in the projection"@,
                ),
            ),
        },
    }
}

/// The sort keys of the ORDER BY items from position `i` on.
pub open spec fn sort_keys(
    order_by: Seq<OrderModel>,
    items: Seq<ItemModel>,
    columns: Seq<Text>,
    i: int,
) -> Result<Seq<SortKey>, ErrorModel>
    decreases order_by.len() - i,
{
    if i < 0 || i >= order_by.len() {
        Ok(Seq::empty())
    } else {
        match order_column(order_by[i].expr, items, columns) {
            Err(e) => Err(e),
            Ok(k) => prepend(
                seq![(k, order_by[i].descending)],
                sort_keys(order_by, items, columns, i + 1),
            ),
        }
    }
}

// ---- SKIP and LIMIT ------------------------------------------------------------

/// The rows without the first ones.
pub open spec fn skip_rows<A>(rows: Seq<A>, skip: Option<nat>) -> Seq<A> {
    match skip {
        Some(n) => if n >= rows.len() {
            Seq::empty()
        } else {
            rows.skip(n as int)
        },
        None => rows,
    }
}

/// The first rows.
pub open spec fn limit_rows<A>(rows: Seq<A>, limit: Option<nat>) -> Seq<A> {
    match limit {
        Some(n) => if n < rows.len() {
            rows.take(n as int)
        } else {
            rows
        },
        None => rows,
    }
}

/// The rows after DISTINCT, ORDER BY, SKIP and LIMIT.
pub open spec fn finalized<N>(
    p: ProjectionModel,
    columns: Seq<Text>,
    rows: Seq<ProjectedModel<N>>,
) -> Result<Seq<ProjectedModel<N>>, ErrorModel> {
    let kept = if p.distinct {
        distinct_rows(rows)
    } else {
        rows
    };
    match sort_keys(p.order_by, p.items, columns, 0) {
        Err(e) => Err(e),
        Ok(keys) => Ok(limit_rows(skip_rows(sort_rows(kept, keys), p.skip), p.limit)),
    }
}

// ---- The order of rows -----------------------------------------------------------

proof fn lemma_row_order_flips(
    a: Seq<ValueModel>,
    b: Seq<ValueModel>,
    keys: Seq<SortKey>,
    i: int,
)
    ensures
        row_order(a, b, keys, i) == -row_order(b, a, keys, i),
    decreases keys.len() - i,
{
    if 0 <= i < keys.len() {
        lemma_order_flips(cell(a, keys[i].0), cell(b, keys[i].0));
        lemma_row_order_flips(a, b, keys, i + 1);
    }
}

proof fn lemma_row_order_trans(
    a: Seq<ValueModel>,
    b: Seq<ValueModel>,
    c: Seq<ValueModel>,
    keys: Seq<SortKey>,
    i: int,
)
    requires
        row_order(a, b, keys, i) <= 0,
        row_order(b, c, keys, i) <= 0,
    ensures
        row_order(a, c, keys, i) <= 0,
        row_order(a, c, keys, i) == 0 <==> row_order(a, b, keys, i) == 0 && row_order(b, c, keys, i)
            == 0,
    decreases keys.len() - i,
{
    if 0 <= i < keys.len() {
        let x = cell(a, keys[i].0);
        let y = cell(b, keys[i].0);
        let z = cell(c, keys[i].0);
        lemma_order_flips(x, y);
        lemma_order_flips(y, z);
        lemma_order_flips(x, z);
        if keys[i].1 {
            lemma_order_transitive(z, y, x);
        } else {
            lemma_order_transitive(x, y, z);
        }
        if value_order(x, y) == 0 && value_order(y, z) == 0 {
            lemma_row_order_trans(a, b, c, keys, i + 1);
        }
    }
}

/// Whether no row comes after a later one.
pub open spec fn in_order<N>(rows: Seq<ProjectedModel<N>>, keys: Seq<SortKey>) -> bool {
    forall|i: int, j: int|
        0 <= i < j < rows.len() ==> compare_rows(#[trigger] rows[i], #[trigger] rows[j], keys) <= 0
}

/// Where a row is put: none before the place comes after it, and the one at the place does.
proof fn lemma_slot<N>(
    rows: Seq<ProjectedModel<N>>,
    row: ProjectedModel<N>,
    keys: Seq<SortKey>,
    i: int,
)
    requires
        0 <= i <= rows.len(),
    ensures
        i <= slot(rows, row, keys, i) <= rows.len(),
        forall|k: int|
            i <= k < slot(rows, row, keys, i) ==> compare_rows(#[trigger] rows[k], row, keys) <= 0,
        slot(rows, row, keys, i) < rows.len() ==> compare_rows(
            rows[slot(rows, row, keys, i)],
            row,
            keys,
        ) > 0,
    decreases rows.len() - i,
{
    if i < rows.len() && compare_rows(rows[i], row, keys) <= 0 {
        lemma_slot(rows, row, keys, i + 1);
    }
}

/// In rows in order, everything from the place on comes after the row.
proof fn lemma_slot_after<N>(
    rows: Seq<ProjectedModel<N>>,
    row: ProjectedModel<N>,
    keys: Seq<SortKey>,
    k: int,
)
    requires
        in_order(rows, keys),
        slot(rows, row, keys, 0) <= k < rows.len(),
    ensures
        compare_rows(rows[k], row, keys) > 0,
{
    lemma_slot(rows, row, keys, 0);
    let s = slot(rows, row, keys, 0);
    if k > s && compare_rows(rows[k], row, keys) <= 0 {
        assert(compare_rows(rows[s], rows[k], keys) <= 0);
        lemma_row_order_trans(rows[s].values, rows[k].values, row.values, keys, 0);
    }
}

/// Sorting puts the rows in order.
pub proof fn lemma_sorted<N>(rows: Seq<ProjectedModel<N>>, keys: Seq<SortKey>)
    ensures
        in_order(sort_rows(rows, keys), keys),
    decreases rows.len(),
{
    if rows.len() > 0 {
        let sorted = sort_rows(rows.drop_last(), keys);
        let row = rows.last();
        lemma_sorted(rows.drop_last(), keys);
        let s = slot(sorted, row, keys, 0);
        lemma_slot(sorted, row, keys, 0);
        let all = sorted.insert(s, row);
        assert forall|i: int, j: int| 0 <= i < j < all.len() implies compare_rows(
            #[trigger] all[i],
            #[trigger] all[j],
            keys,
        ) <= 0 by {
            let a = if i < s {
                i
            } else {
                i - 1
            };
            let b = if j < s {
                j
            } else {
                j - 1
            };
            if i != s && j != s {
                assert(all[i] == sorted[a] && all[j] == sorted[b]);
            } else if j == s {
                assert(all[i] == sorted[i]);
            } else {
                assert(all[j] == sorted[j - 1]);
                lemma_slot_after(sorted, row, keys, j - 1);
                lemma_row_order_flips(row.values, sorted[j - 1].values, keys, 0);
            }
        }
    }
}

/// Sorting keeps exactly the rows that there are.
pub proof fn lemma_sort_keeps_rows<N>(rows: Seq<ProjectedModel<N>>, keys: Seq<SortKey>)
    ensures
        sort_rows(rows, keys).len() == rows.len(),
        sort_rows(rows, keys).to_multiset() == rows.to_multiset(),
    decreases rows.len(),
{
    broadcast use vstd::seq_lib::group_to_multiset_ensures;

    if rows.len() > 0 {
        let sorted = sort_rows(rows.drop_last(), keys);
        lemma_sort_keeps_rows(rows.drop_last(), keys);
        lemma_slot(sorted, rows.last(), keys, 0);
        assert(rows =~= rows.drop_last().push(rows.last()));
        let s = slot(sorted, rows.last(), keys, 0);
        assert(sorted.insert(s, rows.last()).to_multiset() =~= sorted.to_multiset().insert(
            rows.last(),
        ));
    }
}

/// The rows that compare equal to a row.
pub open spec fn ties<N>(
    rows: Seq<ProjectedModel<N>>,
    row: ProjectedModel<N>,
    keys: Seq<SortKey>,
) -> Seq<ProjectedModel<N>>
    decreases rows.len(),
{
    if rows.len() == 0 {
        rows
    } else if compare_rows(rows.last(), row, keys) == 0 {
        ties(rows.drop_last(), row, keys).push(rows.last())
    } else {
        ties(rows.drop_last(), row, keys)
    }
}

proof fn lemma_ties_concat<N>(
    a: Seq<ProjectedModel<N>>,
    b: Seq<ProjectedModel<N>>,
    row: ProjectedModel<N>,
    keys: Seq<SortKey>,
)
    ensures
        ties(a + b, row, keys) == ties(a, row, keys) + ties(b, row, keys),
    decreases b.len(),
{
    if b.len() == 0 {
        assert(a + b =~= a);
        assert(ties(a, row, keys) + ties(b, row, keys) =~= ties(a, row, keys));
    } else {
        lemma_ties_concat(a, b.drop_last(), row, keys);
        assert((a + b).drop_last() =~= a + b.drop_last());
        assert((a + b).last() == b.last());
        assert(ties(a + b, row, keys) =~= ties(a, row, keys) + ties(b, row, keys));
    }
}

proof fn lemma_no_ties<N>(
    rows: Seq<ProjectedModel<N>>,
    row: ProjectedModel<N>,
    keys: Seq<SortKey>,
)
    requires
        forall|k: int| 0 <= k < rows.len() ==> compare_rows(#[trigger] rows[k], row, keys) != 0,
    ensures
        ties(rows, row, keys).len() == 0,
    decreases rows.len(),
{
    if rows.len() > 0 {
        assert(rows[rows.len() - 1] == rows.last());
        assert forall|k: int| 0 <= k < rows.drop_last().len() implies compare_rows(
            #[trigger] rows.drop_last()[k],
            row,
            keys,
        ) != 0 by {
            assert(rows.drop_last()[k] == rows[k]);
        }
        lemma_no_ties(rows.drop_last(), row, keys);
    }
}

/// Sorting is stable: rows that compare equal stay in the order in which they came.
pub proof fn lemma_sort_stable<N>(
    rows: Seq<ProjectedModel<N>>,
    keys: Seq<SortKey>,
    row: ProjectedModel<N>,
)
    ensures
        ties(sort_rows(rows, keys), row, keys) == ties(rows, row, keys),
    decreases rows.len(),
{
    if rows.len() > 0 {
        let init = rows.drop_last();
        let last = rows.last();
        let sorted = sort_rows(init, keys);
        lemma_sort_stable(init, keys, row);
        lemma_sorted(init, keys);
        lemma_slot(sorted, last, keys, 0);
        let s = slot(sorted, last, keys, 0);
        let front = sorted.take(s);
        let back = sorted.skip(s);
        assert(sorted =~= front + back);
        let one = seq![last];
        assert(sorted.insert(s, last) =~= front + one + back);
        lemma_ties_concat(front, back, row, keys);
        lemma_ties_concat(front, one, row, keys);
        lemma_ties_concat(front + one, back, row, keys);
        assert(one.drop_last() =~= Seq::empty());
        assert(ties(one.drop_last(), row, keys) =~= Seq::empty());
        if compare_rows(last, row, keys) == 0 {
            assert forall|k: int| 0 <= k < back.len() implies compare_rows(
                #[trigger] back[k],
                row,
                keys,
            ) != 0 by {
                lemma_slot_after(sorted, last, keys, s + k);
                if compare_rows(back[k], row, keys) == 0 {
                    lemma_row_order_flips(last.values, row.values, keys, 0);
                    lemma_row_order_trans(back[k].values, row.values, last.values, keys, 0);
                }
            }
            lemma_no_ties(back, row, keys);
            assert(ties(front + one + back, row, keys) =~= ties(init, row, keys).push(last));
        } else {
            assert(ties(front + one + back, row, keys) =~= ties(init, row, keys));
        }
    }
}

/// Without sort keys the rows stay as they are.
pub proof fn lemma_sort_without_keys<N>(rows: Seq<ProjectedModel<N>>)
    ensures
        sort_rows(rows, Seq::<SortKey>::empty()) == rows,
    decreases rows.len(),
{
    if rows.len() > 0 {
        let none = Seq::<SortKey>::empty();
        let init = rows.drop_last();
        lemma_sort_without_keys(init);
        lemma_slot(init, rows.last(), none, 0);
        assert(init.insert(slot(init, rows.last(), none, 0), rows.last()) =~= rows);
    }
}

/// The models of the sort keys.
spec fn key_models(keys: Seq<(usize, bool)>) -> Seq<SortKey> {
    Seq::new(keys.len(), |i: int| (keys[i].0 as nat, keys[i].1))
}

/// Removes rows whose values have come before.
fn dedupe_projected<N>(rows: Vec<Projected<N>>) -> (r: Vec<Projected<N>>)
    ensures
        projected_models(r@) == distinct_rows(projected_models(rows@)),
{
    let ghost all = rows@;
    let ghost models = projected_models(all);
    let mut seen = ValueIndex::new();
    let mut out: Vec<Projected<N>> = Vec::new();
    assert(projected_models(out@) =~= distinct_rows(models.take(0)));
    for row in it: rows
        invariant
            it.seq() == all,
            models == projected_models(all),
            seen.ok(),
            forall|v: Seq<ValueModel>| #[trigger]
                seen@.contains(ValueModel::List(v)) <==> has_values(
                    models.take(it.index() as int),
                    v,
                ),
            projected_models(out@) == distinct_rows(models.take(it.index() as int)),
    {
        let ghost k = it.index() as int;
        let ghost before = models.take(k);
        let ghost after = models.take(k + 1);
        assert(row == all[k]);
        assert(models[k] == row@);
        assert(after.drop_last() =~= before && after.last() == row@);
        let ghost table = seen@;
        let key = CypherValue::List(clone_values(&row.values));
        assert(key@ == ValueModel::List(row@.values));
        let known = seen.position(&key).is_some();
        assert(known == table.contains(key@));
        seen.add_value(key);
        proof {
            assert forall|v: Seq<ValueModel>| #[trigger]
                seen@.contains(ValueModel::List(v)) <==> has_values(after, v) by {
                lemma_push_contains(table, ValueModel::List(row@.values), ValueModel::List(v));
                assert(table.contains(ValueModel::List(v)) <==> has_values(before, v));
                if has_values(before, v) {
                    let j = choose|j: int|
                        0 <= j < before.len() && (#[trigger] before[j]).values == v;
                    assert(after[j] == before[j]);
                }
                if has_values(after, v) && v != row@.values {
                    let j = choose|j: int|
                        0 <= j < after.len() && (#[trigger] after[j]).values == v;
                    assert(before[j] == after[j]);
                }
                if v == row@.values {
                    assert(after[k].values == v);
                }
            }
            assert(has_values(before, row@.values) <==> table.contains(
                ValueModel::List(row@.values),
            ));
        }
        if !known {
            proof {
                lemma_projected_push(out@, row);
            }
            out.push(row);
        }
    }
    assert(models.take(models.len() as int) =~= models);
    out
}

/// Compares two rows by the sort keys.
fn order_rows(a: &Vec<CypherValue>, b: &Vec<CypherValue>, keys: &Vec<(usize, bool)>) -> (r: i8)
    ensures
        r == row_order(value_models(a@), value_models(b@), key_models(keys@), 0),
{
    let ghost x = value_models(a@);
    let ghost y = value_models(b@);
    let ghost models = key_models(keys@);
    let mut i: usize = 0;
    while i < keys.len()
        invariant
            i <= keys@.len(),
            x == value_models(a@),
            y == value_models(b@),
            models == key_models(keys@),
            row_order(x, y, models, 0) == row_order(x, y, models, i as int),
        decreases keys@.len() - i,
    {
        let at = keys[i].0;
        assert(models[i as int] == (at as nat, keys@[i as int].1));
        let o: i8 = if at < a.len() && at < b.len() {
            a[at].order(&b[at])
        } else if at < a.len() {
            a[at].order(&CypherValue::Null)
        } else if at < b.len() {
            CypherValue::Null.order(&b[at])
        } else {
            0
        };
        proof {
            lemma_order_flips(cell(x, at as nat), cell(y, at as nat));
        }
        if o != 0 {
            return if keys[i].1 {
                -o
            } else {
                o
            };
        }
        i += 1;
    }
    0
}

/// Where a row belongs among rows in order: behind those that do not come after it.
fn find_slot<N>(rows: &Vec<Projected<N>>, row: &Projected<N>, keys: &Vec<(usize, bool)>) -> (r:
    usize)
    requires
        in_order(projected_models(rows@), key_models(keys@)),
    ensures
        r == slot(projected_models(rows@), row@, key_models(keys@), 0),
{
    let ghost models = projected_models(rows@);
    let ghost ks = key_models(keys@);
    let ghost target = slot(models, row@, ks, 0);
    proof {
        lemma_slot(models, row@, ks, 0);
    }
    let mut lo: usize = 0;
    let mut hi: usize = rows.len();
    while lo < hi
        invariant
            lo <= hi <= rows@.len(),
            models == projected_models(rows@),
            ks == key_models(keys@),
            in_order(models, ks),
            target == slot(models, row@, ks, 0),
            lo <= target <= hi,
        decreases hi - lo,
    {
        let mid: usize = lo + (hi - lo) / 2;
        assert(models[mid as int] == rows@[mid as int]@);
        let o: i8 = order_rows(&rows[mid].values, &row.values, keys);
        proof {
            lemma_slot(models, row@, ks, 0);
            if mid as int >= target {
                lemma_slot_after(models, row@, ks, mid as int);
            }
        }
        if o > 0 {
            hi = mid;
        } else {
            lo = mid + 1;
        }
    }
    lo
}

/// Sorts the rows; rows that compare equal keep their order.
fn sort_projected<N>(rows: Vec<Projected<N>>, keys: &Vec<(usize, bool)>) -> (r: Vec<Projected<N>>)
    ensures
        projected_models(r@) == sort_rows(projected_models(rows@), key_models(keys@)),
{
    let ghost all = rows@;
    let ghost models = projected_models(all);
    let ghost ks = key_models(keys@);
    let mut out: Vec<Projected<N>> = Vec::new();
    assert(projected_models(out@) =~= sort_rows(models.take(0), ks));
    for row in it: rows
        invariant
            it.seq() == all,
            models == projected_models(all),
            ks == key_models(keys@),
            projected_models(out@) == sort_rows(models.take(it.index() as int), ks),
    {
        let ghost k = it.index() as int;
        assert(row == all[k]);
        assert(models[k] == row@);
        let ghost before = models.take(k);
        let ghost after = models.take(k + 1);
        assert(after.drop_last() =~= before && after.last() == row@);
        proof {
            lemma_sorted(before, ks);
        }
        let at = find_slot(&out, &row, keys);
        let ghost old_out = out@;
        proof {
            lemma_slot(projected_models(out@), row@, ks, 0);
        }
        out.insert(at, row);
        assert(projected_models(out@) =~= projected_models(old_out).insert(at as int, row@));
    }
    assert(models.take(models.len() as int) =~= models);
    out
}

/// The column that an ORDER BY item stands for.
fn resolve_order_column(
    order_item: &OrderItem,
    items: &Vec<ReturnItem>,
    columns: &Vec<String>,
) -> (r: Result<usize, CypherError>)
    ensures
        match order_column(order_item@.expr, item_models(items@), texts(columns@)) {
            Ok(k) => r is Ok && r->Ok_0 == k,
            Err(e) => r is Err && r->Err_0@ == e,
        },
{
    let ghost e = order_item@.expr;
    let ghost all = item_models(items@);
    let ghost names = texts(columns@);
    // Match by identical projection expression first.
    let mut i: usize = 0;
    while i < items.len()
        invariant
            i <= items@.len(),
            all == item_models(items@),
            e == order_item@.expr,
            names == texts(columns@),
            item_position(all, e, 0) == item_position(all, e, i as int),
        decreases items@.len() - i,
    {
        assert(all[i as int].expr == items@[i as int].expr@);
        if items[i].expr.same(&order_item.expr) {
            return Ok(i);
        }
        i += 1;
    }
    // Otherwise, a bare variable in ORDER BY may name a projected column or alias.
    if let Expr::Var(name) = &order_item.expr {
        let mut j: usize = 0;
        while j < columns.len()
            invariant
                j <= columns@.len(),
                names == texts(columns@),
                e == ExprModel::Var(name@),
                e == order_item@.expr,
                all == item_models(items@),
                item_position(all, e, 0) is None,
                column_position(names, name@, 0) == column_position(names, name@, j as int),
            decreases columns@.len() - j,
        {
            assert(names[j as int] == columns@[j as int]@);
            if columns[j] == *name {
                return Ok(j);
            }
            j += 1;
        }
    }
    let name = order_item.expr.display_name();
    Err(
        quoting(
            "ORDER BY expression `",
            name.as_str(),
            "` must also appear in the projection",
        ),
    )
}

/// The sort keys of a projection.
fn resolve_keys(projection: &Projection, columns: &Vec<String>) -> (r: Result<
    Vec<(usize, bool)>,
    CypherError,
>)
    ensures
        match sort_keys(projection@.order_by, projection@.items, texts(columns@), 0) {
            Ok(keys) => r is Ok && key_models(r->Ok_0@) == keys,
            Err(e) => r is Err && r->Err_0@ == e,
        },
{
    let ghost order_by = projection@.order_by;
    let ghost items = projection@.items;
    let ghost names = texts(columns@);
    let mut keys: Vec<(usize, bool)> = Vec::new();
    let mut i: usize = 0;
    assert(prepend(key_models(keys@), sort_keys(order_by, items, names, 0)) == sort_keys(
        order_by,
        items,
        names,
        0,
    )) by {
        assert(key_models(keys@) =~= Seq::empty());
        if let Ok(rest) = sort_keys(order_by, items, names, 0) {
            assert(Seq::<SortKey>::empty() + rest =~= rest);
        }
    }
    while i < projection.order_by.len()
        invariant
            i <= projection.order_by@.len(),
            order_by == projection@.order_by,
            items == projection@.items,
            names == texts(columns@),
            sort_keys(order_by, items, names, 0) == prepend(
                key_models(keys@),
                sort_keys(order_by, items, names, i as int),
            ),
        decreases projection.order_by@.len() - i,
    {
        let item = &projection.order_by[i];
        assert(order_by[i as int] == item@);
        match resolve_order_column(item, &projection.items, columns) {
            Ok(k) => {
                let ghost before = keys@;
                keys.push((k, item.descending));
                proof {
                    assert(key_models(keys@) =~= key_models(before).push(
                        (k as nat, item.descending),
                    ));
                    lemma_prepend_push(
                        key_models(before),
                        (k as nat, item.descending),
                        sort_keys(order_by, items, names, i as int + 1),
                    );
                }
            },
            Err(e) => {
                return Err(e);
            },
        }
        i += 1;
    }
    assert(key_models(keys@) + Seq::<SortKey>::empty() =~= key_models(keys@));
    Ok(keys)
}

/// Applies SKIP and LIMIT.
fn window<N>(rows: Vec<Projected<N>>, skip: Option<usize>, limit: Option<usize>) -> (r: Vec<
    Projected<N>,
>)
    ensures
        projected_models(r@) == limit_rows(
            skip_rows(projected_models(rows@), opt_nat(skip)),
            opt_nat(limit),
        ),
{
    let mut rows = rows;
    let ghost all = projected_models(rows@);
    if let Some(n) = skip {
        if n >= rows.len() {
            rows.clear();
            assert(projected_models(rows@) =~= Seq::empty());
        } else {
            let tail = rows.split_off(n);
            assert(projected_models(tail@) =~= all.skip(n as int));
            rows = tail;
        }
    }
    let ghost skipped = projected_models(rows@);
    if let Some(n) = limit {
        if rows.len() > n {
            rows.truncate(n);
            assert(projected_models(rows@) =~= skipped.take(n as int));
        }
    }
    rows
}

/// Applies DISTINCT, ORDER BY, SKIP, and LIMIT to a set of projected rows.
pub fn finalize<N>(
    projection: &Projection,
    columns: &Vec<String>,
    projected: Vec<Projected<N>>,
) -> (r: Result<Vec<Projected<N>>, CypherError>)
    ensures
        projected_result(
            r,
            finalized(projection@, texts(columns@), projected_models(projected@)),
        ),
{
    let rows = if projection.distinct {
        dedupe_projected(projected)
    } else {
        projected
    };
    let keys = match resolve_keys(projection, columns) {
        Ok(keys) => keys,
        Err(e) => {
            return Err(e);
        },
    };
    proof {
        let ks = key_models(keys@);
        if keys@.len() == 0 {
            assert(ks =~= Seq::<SortKey>::empty());
            lemma_sort_without_keys(projected_models(rows@));
        }
    }
    let sorted = if keys.len() == 0 {
        rows
    } else {
        sort_projected(rows, &keys)
    };
    Ok(window(sorted, projection.skip, projection.limit))
}

/// Whether a result is the one that its model says.
pub open spec fn projected_result<N>(
    r: Result<Vec<Projected<N>>, CypherError>,
    expected: Result<Seq<ProjectedModel<N>>, ErrorModel>,
) -> bool {
    match expected {
        Ok(rows) => r is Ok && projected_models(r->Ok_0@) == rows,
        Err(e) => r is Err && r->Err_0@ == e,
    }
}

/// DISTINCT leaves no two rows with the same values, and loses no values.
pub proof fn lemma_distinct_rows<N>(rows: Seq<ProjectedModel<N>>)
    ensures
        forall|i: int, j: int|
            0 <= i < j < distinct_rows(rows).len() ==> (#[trigger] distinct_rows(rows)[i]).values
                != (#[trigger] distinct_rows(rows)[j]).values,
        forall|values: Seq<ValueModel>| #[trigger]
            has_values(distinct_rows(rows), values) <==> has_values(rows, values),
    decreases rows.len(),
{
    if rows.len() > 0 {
        let init = rows.drop_last();
        let last = rows.last();
        let before = distinct_rows(init);
        let all = distinct_rows(rows);
        lemma_distinct_rows(init);
        assert forall|values: Seq<ValueModel>| #[trigger]
            has_values(all, values) <==> has_values(rows, values) by {
            assert(has_values(before, values) <==> has_values(init, values));
            lemma_has_values_push(init, last, values);
            lemma_has_values_push(before, last, values);
            assert(rows =~= init.push(last));
        }
        assert forall|i: int, j: int| 0 <= i < j < all.len() implies (#[trigger] all[i]).values != (
        #[trigger] all[j]).values by {
            if j < before.len() {
                assert(all[i] == before[i] && all[j] == before[j]);
            } else {
                assert(all[i] == before[i]);
                assert(!has_values(init, last.values));
                assert(!has_values(before, last.values));
            }
        }
    }
}

proof fn lemma_has_values_push<N>(
    rows: Seq<ProjectedModel<N>>,
    row: ProjectedModel<N>,
    values: Seq<ValueModel>,
)
    ensures
        has_values(rows.push(row), values) <==> has_values(rows, values) || row.values == values,
{
    let more = rows.push(row);
    if has_values(rows, values) {
        let i = choose|i: int| 0 <= i < rows.len() && (#[trigger] rows[i]).values == values;
        assert(more[i].values == values);
    }
    if row.values == values {
        assert(more[rows.len() as int].values == values);
    }
    if has_values(more, values) && row.values != values {
        let i = choose|i: int| 0 <= i < more.len() && (#[trigger] more[i]).values == values;
        assert(rows[i].values == values);
    }
}

/// LIMIT bounds the number of rows, and no row comes out that did not go in.
pub proof fn lemma_finalized_rows<N>(
    p: ProjectionModel,
    columns: Seq<Text>,
    rows: Seq<ProjectedModel<N>>,
)
    ensures
        finalized(p, columns, rows) matches Ok(out) ==> {
            &&& p.limit matches Some(n) ==> out.len() <= n
            &&& out.len() <= rows.len()
            &&& forall|i: int| 0 <= i < out.len() ==> rows.contains(#[trigger] out[i])
        },
{
    if let Ok(keys) = sort_keys(p.order_by, p.items, columns, 0) {
        let kept = if p.distinct {
            distinct_rows(rows)
        } else {
            rows
        };
        lemma_distinct_members(rows);
        lemma_sort_keeps_rows(kept, keys);
        let sorted = sort_rows(kept, keys);
        let skipped = skip_rows(sorted, p.skip);
        let out = limit_rows(skipped, p.limit);
        assert forall|i: int| 0 <= i < out.len() implies rows.contains(#[trigger] out[i]) by {
            let at = match p.skip {
                Some(n) => i + n,
                None => i as int,
            };
            assert(out[i] == sorted[at]);
            assert(sorted.contains(sorted[at]));
            assert(sorted.to_multiset().count(sorted[at]) > 0) by {
                broadcast use vstd::seq_lib::group_to_multiset_ensures;

            }
            assert(kept.to_multiset().count(sorted[at]) > 0);
            assert(kept.contains(sorted[at])) by {
                broadcast use vstd::seq_lib::group_to_multiset_ensures;

            }
        }
    }
}

proof fn lemma_distinct_members<N>(rows: Seq<ProjectedModel<N>>)
    ensures
        distinct_rows(rows).len() <= rows.len(),
        forall|row: ProjectedModel<N>| #[trigger]
            distinct_rows(rows).contains(row) ==> rows.contains(row),
    decreases rows.len(),
{
    if rows.len() > 0 {
        let init = rows.drop_last();
        lemma_distinct_members(init);
        assert(rows =~= init.push(rows.last()));
        assert forall|row: ProjectedModel<N>| #[trigger]
            distinct_rows(rows).contains(row) implies rows.contains(row) by {
            lemma_push_contains(init, rows.last(), row);
            lemma_push_contains(distinct_rows(init), rows.last(), row);
        }
    }
}

} // verus!
