//! Laws of how the rows of a projection are finished: what `ORDER BY`, `DISTINCT`, `SKIP` and
//! `LIMIT` make of them.

use vstd::prelude::*;

use crate::ast::{ExprModel, ItemModel, OrderModel, ProjectionModel};
use crate::error::ErrorModel;
use crate::executor::projection_output;
use crate::finalize::{
    cell, column_position, compare_rows, distinct_rows, has_values, item_position,
    lemma_finalized_rows, lemma_sort_keeps_rows, lemma_sort_without_keys, lemma_sorted,
    order_column, row_order, sort_keys, sort_rows, ProjectedModel, SortKey,
};
use crate::project::{lemma_projection_wide, projection_columns, projection_rows};
use crate::provider::GraphProvider;
use crate::row::RowModel;
use crate::text::Text;
use crate::value::{value_order, ValueModel};

verus! {

// ---- ORDER BY ----------------------------------------------------------------

/// Whether column `c` is the one that an `ORDER BY` expression stands for: the first whose item is
/// that expression or, where no item is, for a variable the first with its name.
pub open spec fn sorted_by(
    e: ExprModel,
    items: Seq<ItemModel>,
    columns: Seq<Text>,
    c: int,
) -> bool {
    ||| {
        &&& 0 <= c < items.len()
        &&& items[c].expr == e
        &&& forall|j: int| 0 <= j < c ==> (#[trigger] items[j]).expr != e
    }
    ||| {
        &&& forall|j: int| 0 <= j < items.len() ==> (#[trigger] items[j]).expr != e
        &&& e is Var
        &&& 0 <= c < columns.len()
        &&& columns[c] == e->Var_0
        &&& forall|j: int| 0 <= j < c ==> #[trigger] columns[j] != e->Var_0
    }
}

proof fn lemma_item_position(items: Seq<ItemModel>, e: ExprModel, i: int)
    requires
        0 <= i <= items.len(),
        forall|j: int| 0 <= j < i ==> (#[trigger] items[j]).expr != e,
    ensures
        match item_position(items, e, i) {
            Some(k) => k < items.len() && items[k as int].expr == e && forall|j: int|
                0 <= j < k ==> (#[trigger] items[j]).expr != e,
            None => forall|j: int| 0 <= j < items.len() ==> (#[trigger] items[j]).expr != e,
        },
    decreases items.len() - i,
{
    if i < items.len() && items[i].expr != e {
        lemma_item_position(items, e, i + 1);
    }
}

proof fn lemma_column_position(columns: Seq<Text>, name: Text, i: int)
    requires
        0 <= i <= columns.len(),
        forall|j: int| 0 <= j < i ==> #[trigger] columns[j] != name,
    ensures
        match column_position(columns, name, i) {
            Some(k) => k < columns.len() && columns[k as int] == name && forall|j: int|
                0 <= j < k ==> #[trigger] columns[j] != name,
            None => forall|j: int| 0 <= j < columns.len() ==> #[trigger] columns[j] != name,
        },
    decreases columns.len() - i,
{
    if i < columns.len() && columns[i] != name {
        lemma_column_position(columns, name, i + 1);
    }
}

proof fn lemma_order_column(e: ExprModel, items: Seq<ItemModel>, columns: Seq<Text>)
    ensures
        match order_column(e, items, columns) {
            Ok(k) => sorted_by(e, items, columns, k as int),
            Err(_) => forall|c: int| !#[trigger] sorted_by(e, items, columns, c),
        },
{
    lemma_item_position(items, e, 0);
    if e is Var {
        lemma_column_position(columns, e->Var_0, 0);
    }
}

proof fn lemma_sorted_by_once(
    e: ExprModel,
    items: Seq<ItemModel>,
    columns: Seq<Text>,
    c: int,
    d: int,
)
    requires
        sorted_by(e, items, columns, c),
        sorted_by(e, items, columns, d),
    ensures
        c == d,
{
    if c < d {
        if 0 <= c < items.len() && items[c].expr == e {
            assert(items[c].expr == e);
        } else {
            assert(columns[c] == e->Var_0);
        }
    } else if d < c {
        if 0 <= d < items.len() && items[d].expr == e {
            assert(items[d].expr == e);
        } else {
            assert(columns[d] == e->Var_0);
        }
    }
}

proof fn lemma_sort_keys(
    order_by: Seq<OrderModel>,
    items: Seq<ItemModel>,
    columns: Seq<Text>,
    i: int,
)
    requires
        0 <= i <= order_by.len(),
    ensures
        match sort_keys(order_by, items, columns, i) {
            Ok(keys) => keys.len() == order_by.len() - i && forall|k: int|
                i <= k < order_by.len() ==> (#[trigger] keys[k - i]).1 == order_by[k].descending
                    && sorted_by(order_by[k].expr, items, columns, keys[k - i].0 as int),
            Err(_) => exists|k: int|
                i <= k < order_by.len() && forall|c: int|
                    !#[trigger] sorted_by((#[trigger] order_by[k]).expr, items, columns, c),
        },
    decreases order_by.len() - i,
{
    if i < order_by.len() {
        lemma_order_column(order_by[i].expr, items, columns);
        lemma_sort_keys(order_by, items, columns, i + 1);
        if let Ok(c) = order_column(order_by[i].expr, items, columns) {
            if let Ok(rest) = sort_keys(order_by, items, columns, i + 1) {
                let first = (c, order_by[i].descending);
                let keys = seq![first] + rest;
                assert(sort_keys(order_by, items, columns, i) == Ok::<Seq<SortKey>, ErrorModel>(
                    keys,
                ));
                assert forall|k: int| i <= k < order_by.len() implies (#[trigger] keys[k - i]).1
                    == order_by[k].descending && sorted_by(
                    order_by[k].expr,
                    items,
                    columns,
                    keys[k - i].0 as int,
                ) by {
                    if k > i {
                        assert(keys[k - i] == rest[k - (i + 1)]);
                    }
                }
            } else {
                let k = choose|k: int|
                    i + 1 <= k < order_by.len() && forall|c: int|
                        !#[trigger] sorted_by((#[trigger] order_by[k]).expr, items, columns, c);
                assert(order_by[k].expr == order_by[k].expr);
            }
        } else {
            assert(order_by[i].expr == order_by[i].expr);
        }
    }
}

proof fn lemma_row_order_first(
    a: Seq<ValueModel>,
    b: Seq<ValueModel>,
    keys: Seq<SortKey>,
    i: int,
    m: int,
)
    requires
        0 <= i <= m < keys.len(),
        forall|k: int|
            i <= k < m ==> value_order(cell(a, (#[trigger] keys[k]).0), cell(b, keys[k].0)) == 0,
        value_order(cell(a, keys[m].0), cell(b, keys[m].0)) != 0,
        row_order(a, b, keys, i) <= 0,
    ensures
        keys[m].1 ==> value_order(cell(a, keys[m].0), cell(b, keys[m].0)) > 0,
        !keys[m].1 ==> value_order(cell(a, keys[m].0), cell(b, keys[m].0)) < 0,
    decreases m - i,
{
    if i < m {
        assert(value_order(cell(a, keys[i].0), cell(b, keys[i].0)) == 0);
        lemma_row_order_first(a, b, keys, i + 1, m);
    }
}

/// Whether two rows have the same place in the order of a column.
pub open spec fn level_in(a: Seq<ValueModel>, b: Seq<ValueModel>, c: int) -> bool {
    value_order(a[c], b[c]) == 0
}

/// `ORDER BY`: of two rows in a result, the first `ORDER BY` item in whose column they differ
/// decides, and that item alone: the one with the lesser value comes first if the item is
/// ascending, the one with the greater if it is descending.
pub proof fn lemma_order_by<G: GraphProvider>(
    g: &G,
    p: ProjectionModel,
    rows: Seq<RowModel<G::NodeId>>,
    scope: Seq<Text>,
    i: int,
    j: int,
    m: int,
    cs: Seq<int>,
)
    requires
        p.star ==> p.items.len() == 0,
        projection_output(g, p, rows, scope) is Ok,
        0 <= i < j < projection_output(g, p, rows, scope)->Ok_0.len(),
        0 <= m < p.order_by.len(),
        cs.len() == p.order_by.len(),
        forall|k: int|
            0 <= k < cs.len() ==> sorted_by(
                p.order_by[k].expr,
                p.items,
                projection_columns(p, scope),
                #[trigger] cs[k],
            ),
        forall|k: int|
            0 <= k < m ==> level_in(
                projection_output(g, p, rows, scope)->Ok_0[i].values,
                projection_output(g, p, rows, scope)->Ok_0[j].values,
                #[trigger] cs[k],
            ),
        !level_in(
            projection_output(g, p, rows, scope)->Ok_0[i].values,
            projection_output(g, p, rows, scope)->Ok_0[j].values,
            cs[m],
        ),
    ensures
        ({
            let a = projection_output(g, p, rows, scope)->Ok_0[i].values;
            let b = projection_output(g, p, rows, scope)->Ok_0[j].values;
            if p.order_by[m].descending {
                value_order(a[cs[m]], b[cs[m]]) > 0
            } else {
                value_order(a[cs[m]], b[cs[m]]) < 0
            }
        }),
{
    let columns = projection_columns(p, scope);
    let made = projection_rows(g, p, rows, scope)->Ok_0;
    let out = projection_output(g, p, rows, scope)->Ok_0;
    lemma_projection_wide(g, p, rows, scope);
    lemma_finalized_rows(p, columns, made);
    lemma_sort_keys(p.order_by, p.items, columns, 0);
    let keys = sort_keys(p.order_by, p.items, columns, 0)->Ok_0;
    let kept = if p.distinct {
        distinct_rows(made)
    } else {
        made
    };
    lemma_sorted(kept, keys);
    let sorted = sort_rows(kept, keys);
    let s: int = match p.skip {
        Some(n) => n as int,
        None => 0,
    };
    assert(out[i] == sorted[s + i]);
    assert(out[j] == sorted[s + j]);
    let a = out[i].values;
    let b = out[j].values;
    assert(made.contains(out[i]));
    assert(made.contains(out[j]));
    assert(a.len() == columns.len() && b.len() == columns.len());
    assert(compare_rows(sorted[s + i], sorted[s + j], keys) <= 0);
    assert forall|k: int| 0 <= k < keys.len() implies cs[k] == (#[trigger] keys[k]).0 && cs[k]
        < columns.len() by {
        assert(keys[k - 0].0 == keys[k].0);
        assert(sorted_by(p.order_by[k].expr, p.items, columns, cs[k]));
        lemma_sorted_by_once(p.order_by[k].expr, p.items, columns, cs[k], keys[k].0 as int);
        lemma_items_have_columns(p, scope, cs[k], p.order_by[k].expr);
    }
    assert forall|k: int| 0 <= k < m implies value_order(
        cell(a, (#[trigger] keys[k]).0),
        cell(b, keys[k].0),
    ) == 0 by {
        assert(level_in(a, b, cs[k]));
    }
    assert(keys[m - 0].1 == p.order_by[m].descending);
    lemma_row_order_first(a, b, keys, 0, m);
}

/// Without a star there is one column for each item.
proof fn lemma_items_have_columns(p: ProjectionModel, scope: Seq<Text>, c: int, e: ExprModel)
    requires
        sorted_by(e, p.items, projection_columns(p, scope), c),
        p.star ==> p.items.len() == 0,
    ensures
        0 <= c < projection_columns(p, scope).len(),
{
}

/// `ORDER BY` fails just if one of its expressions stands for no column.
pub proof fn lemma_order_by_fails<G: GraphProvider>(
    g: &G,
    p: ProjectionModel,
    rows: Seq<RowModel<G::NodeId>>,
    scope: Seq<Text>,
)
    requires
        projection_rows(g, p, rows, scope) is Ok,
    ensures
        projection_output(g, p, rows, scope) is Err <==> exists|k: int|
            0 <= k < p.order_by.len() && forall|c: int|
                !#[trigger] sorted_by(
                    (#[trigger] p.order_by[k]).expr,
                    p.items,
                    projection_columns(p, scope),
                    c,
                ),
{
    let columns = projection_columns(p, scope);
    lemma_sort_keys(p.order_by, p.items, columns, 0);
    if let Ok(keys) = sort_keys(p.order_by, p.items, columns, 0) {
        assert forall|k: int| 0 <= k < p.order_by.len() implies exists|c: int|
            #[trigger] sorted_by((#[trigger] p.order_by[k]).expr, p.items, columns, c) by {
            assert(keys[k - 0] == keys[k]);
            assert(sorted_by(p.order_by[k].expr, p.items, columns, keys[k].0 as int));
        }
    }
}

// ---- SKIP and LIMIT ------------------------------------------------------------

/// The projection without `SKIP` and `LIMIT`.
pub open spec fn uncut(p: ProjectionModel) -> ProjectionModel {
    ProjectionModel { skip: None, limit: None, ..p }
}

/// `SKIP` leaves out as many of the first rows as it says, and `LIMIT` lets through as many of the
/// others as it says; the rows are those that there would be without them, in their order.
pub proof fn lemma_skip_and_limit<G: GraphProvider>(
    g: &G,
    p: ProjectionModel,
    rows: Seq<RowModel<G::NodeId>>,
    scope: Seq<Text>,
)
    ensures
        match projection_output(g, uncut(p), rows, scope) {
            Err(e) => projection_output(g, p, rows, scope) == Err::<
                Seq<ProjectedModel<G::NodeId>>,
                ErrorModel,
            >(e),
            Ok(all) => {
                let first: int = match p.skip {
                    Some(n) => n as int,
                    None => 0,
                };
                let left: int = if first <= all.len() {
                    all.len() - first
                } else {
                    0
                };
                &&& projection_output(g, p, rows, scope) matches Ok(out) && out.len() == (
                match p.limit {
                    Some(n) => if n < left {
                        n as int
                    } else {
                        left
                    },
                    None => left,
                }) && forall|i: int| 0 <= i < out.len() ==> #[trigger] out[i] == all[first + i]
            },
        },
{
    assert(projection_rows(g, uncut(p), rows, scope) == projection_rows(g, p, rows, scope));
    assert(projection_columns(uncut(p), scope) == projection_columns(p, scope));
}

// ---- DISTINCT ----------------------------------------------------------------

/// The projection without `DISTINCT` and what follows it.
pub open spec fn unfinished(p: ProjectionModel) -> ProjectionModel {
    ProjectionModel {
        distinct: false,
        order_by: Seq::empty(),
        skip: None,
        limit: None,
        ..p
    }
}

/// Whether the rows at the positions `at`, which ascend, are those whose values occur first there.
pub open spec fn firsts<N>(
    all: Seq<ProjectedModel<N>>,
    out: Seq<ProjectedModel<N>>,
    at: Seq<int>,
) -> bool {
    &&& at.len() == out.len()
    &&& forall|i: int|
        #![trigger at[i]]
        0 <= i < at.len() ==> 0 <= at[i] < all.len() && out[i] == all[at[i]] && forall|j: int|
            0 <= j < at[i] ==> (#[trigger] all[j]).values != out[i].values
    &&& forall|i: int, j: int| 0 <= i < j < at.len() ==> #[trigger] at[i] < #[trigger] at[j]
    &&& forall|j: int|
        0 <= j < all.len() ==> exists|i: int|
            #![trigger out[i]]
            0 <= i < out.len() && out[i].values == (#[trigger] all[j]).values
}

proof fn lemma_firsts<N>(all: Seq<ProjectedModel<N>>) -> (at: Seq<int>)
    ensures
        firsts(all, distinct_rows(all), at),
    decreases all.len(),
{
    if all.len() == 0 {
        Seq::empty()
    } else {
        let init = all.drop_last();
        let before = lemma_firsts(init);
        let last = all.last();
        let kept = distinct_rows(init);
        let out = distinct_rows(all);
        let at = if has_values(init, last.values) {
            before
        } else {
            before.push(all.len() - 1)
        };
        assert forall|i: int|
            #![trigger at[i]]
            0 <= i < at.len() implies 0 <= at[i] < all.len() && out[i] == all[at[i]] && forall|
            j: int,
        |
            0 <= j < at[i] ==> (#[trigger] all[j]).values != out[i].values by {
            if i < before.len() {
                assert(at[i] == before[i]);
                assert(out[i] == kept[i]);
                assert forall|j: int| 0 <= j < at[i] implies (#[trigger] all[j]).values
                    != out[i].values by {
                    assert(init[j] == all[j]);
                }
            } else {
                assert forall|j: int| 0 <= j < at[i] implies (#[trigger] all[j]).values
                    != out[i].values by {
                    assert(init[j] == all[j]);
                }
            }
        }
        assert forall|i: int, j: int| 0 <= i < j < at.len() implies #[trigger] at[i]
            < #[trigger] at[j] by {
            assert(at[i] == before[i]);
            if j < before.len() {
                assert(at[j] == before[j]);
            }
        }
        assert forall|j: int| 0 <= j < all.len() implies exists|i: int|
            #![trigger out[i]]
            0 <= i < out.len() && out[i].values == (#[trigger] all[j]).values by {
            if j < init.len() {
                assert(init[j] == all[j]);
                let i = choose|i: int|
                    #![trigger kept[i]]
                    0 <= i < kept.len() && kept[i].values == init[j].values;
                assert(out[i] == kept[i]);
            } else if has_values(init, last.values) {
                let k = choose|k: int|
                    0 <= k < init.len() && (#[trigger] init[k]).values == last.values;
                let i = choose|i: int|
                    #![trigger kept[i]]
                    0 <= i < kept.len() && kept[i].values == init[k].values;
                assert(out[i] == kept[i]);
            } else {
                assert(out[kept.len() as int] == last);
            }
        }
        at
    }
}

/// `DISTINCT` keeps, of the rows with the same values, the first, and keeps their order.
pub proof fn lemma_distinct<G: GraphProvider>(
    g: &G,
    p: ProjectionModel,
    rows: Seq<RowModel<G::NodeId>>,
    scope: Seq<Text>,
)
    requires
        p.distinct,
        p.order_by.len() == 0,
        p.skip is None,
        p.limit is None,
    ensures
        match projection_output(g, unfinished(p), rows, scope) {
            Err(e) => projection_output(g, p, rows, scope) == Err::<
                Seq<ProjectedModel<G::NodeId>>,
                ErrorModel,
            >(e),
            Ok(all) => projection_output(g, p, rows, scope) matches Ok(out) && exists|at: Seq<int>|
                #[trigger] firsts(all, out, at),
        },
{
    let q = unfinished(p);
    assert(projection_rows(g, q, rows, scope) == projection_rows(g, p, rows, scope));
    assert(projection_columns(q, scope) == projection_columns(p, scope));
    if let Ok(made) = projection_rows(g, p, rows, scope) {
        lemma_sort_without_keys(made);
        lemma_sort_without_keys(distinct_rows(made));
        let at = lemma_firsts(made);
        let columns = projection_columns(p, scope);
        assert(sort_keys(p.order_by, p.items, columns, 0)->Ok_0 =~= Seq::empty());
        assert(projection_output(g, q, rows, scope)->Ok_0 == made);
        assert(projection_output(g, p, rows, scope)->Ok_0 == distinct_rows(made));
        assert(firsts(made, distinct_rows(made), at));
    }
}

/// `ORDER BY` changes nothing but the order: each row is there as often as before.
pub proof fn lemma_order_by_permutes<G: GraphProvider>(
    g: &G,
    p: ProjectionModel,
    rows: Seq<RowModel<G::NodeId>>,
    scope: Seq<Text>,
)
    requires
        p.skip is None,
        p.limit is None,
        projection_output(g, p, rows, scope) is Ok,
    ensures
        projection_output(
            g,
            ProjectionModel { order_by: Seq::empty(), ..p },
            rows,
            scope,
        ) matches Ok(all) && all.to_multiset() == projection_output(
            g,
            p,
            rows,
            scope,
        )->Ok_0.to_multiset(),
{
    let q = ProjectionModel { order_by: Seq::empty(), ..p };
    assert(projection_rows(g, q, rows, scope) == projection_rows(g, p, rows, scope));
    assert(projection_columns(q, scope) == projection_columns(p, scope));
    let made = projection_rows(g, p, rows, scope)->Ok_0;
    let kept = if p.distinct {
        distinct_rows(made)
    } else {
        made
    };
    let keys = sort_keys(p.order_by, p.items, projection_columns(p, scope), 0)->Ok_0;
    lemma_sort_keeps_rows(kept, keys);
    lemma_sort_without_keys(kept);
}

} // verus!
