//! Laws of projections: the values that a row or a group of rows makes, which rows make a group,
//! and what the aggregate functions make of it.

use vstd::prelude::*;

use crate::aggregate::aggregate;
use crate::ast::{ExprModel, ItemModel, MapEntryModel, ProjectionModel};
use crate::error::ErrorModel;
use crate::eval::eval;
use crate::naming::{
    aggregates, branch_aggregate, columns_of, entry_aggregate, has_aggregate, some_aggregate,
};
use crate::project::{
    assemble, group_binding, group_bindings, group_key, group_keys, group_order, group_rows,
    grouped_rows, groups_by, groups_of, item_binding, item_bindings, projected, projection_columns,
    projection_rows, simple_rows, star_bindings,
};
use crate::provider::GraphProvider;
use crate::row::{BindingModel, RowModel};
use crate::seqs::{distinct, lemma_distinct_set, lemma_push_contains};
use crate::tallies::lemma_first_places;
use crate::text::Text;
use crate::value::ValueModel;

verus! {

// ---- Which rows make a group -------------------------------------------------------

/// Whether two rows belong to one group: every item without an aggregate has the same value in
/// both.
pub open spec fn same_group<G: GraphProvider>(
    g: &G,
    items: Seq<ItemModel>,
    r: RowModel<G::NodeId>,
    s: RowModel<G::NodeId>,
) -> bool {
    forall|c: int|
        0 <= c < items.len() && !has_aggregate((#[trigger] items[c]).expr) ==> eval(
            g,
            r,
            items[c].expr,
        ) == eval(g, s, items[c].expr)
}

/// Whether a position belongs to one of the groups.
pub open spec fn in_a_group(groups: Seq<Seq<int>>, x: int) -> bool {
    exists|k: int| 0 <= k < groups.len() && (#[trigger] groups[k]).contains(x)
}

/// Whether the groups, given by the positions of their rows, are those of the rows: each row is in
/// the group of the rows that it belongs with, in the order of the rows, and the groups come in the
/// order of their first rows.
pub open spec fn grouped<G: GraphProvider>(
    g: &G,
    items: Seq<ItemModel>,
    rows: Seq<RowModel<G::NodeId>>,
    groups: Seq<Seq<int>>,
) -> bool {
    &&& forall|k: int| 0 <= k < groups.len() ==> (#[trigger] groups[k]).len() > 0
    &&& forall|k: int, i: int|
        0 <= k < groups.len() && 0 <= i < groups[k].len() ==> 0 <= #[trigger] groups[k][i]
            < rows.len()
    &&& forall|k: int, i: int, j: int|
        0 <= k < groups.len() && 0 <= i < j < groups[k].len() ==> #[trigger] groups[k][i]
            < #[trigger] groups[k][j]
    &&& forall|k: int, l: int|
        0 <= k < l < groups.len() ==> (#[trigger] groups[k])[0] < (#[trigger] groups[l])[0]
    &&& forall|x: int| 0 <= x < rows.len() ==> #[trigger] in_a_group(groups, x)
    &&& forall|k: int, l: int, x: int, y: int|
        0 <= k < groups.len() && 0 <= l < groups.len() && #[trigger] groups[k].contains(x)
            && #[trigger] groups[l].contains(y) ==> (k == l <==> same_group(
            g,
            items,
            rows[x],
            rows[y],
        ))
}

/// The rows at the given positions.
pub open spec fn rows_at<N>(rows: Seq<RowModel<N>>, at: Seq<int>) -> Seq<RowModel<N>> {
    Seq::new(at.len(), |i: int| rows[at[i]])
}

/// Whether a projected row holds what the items make of a group: the value of each item without an
/// aggregate in its rows, and what each aggregate makes of all of them.
pub open spec fn made_of_group<G: GraphProvider>(
    g: &G,
    items: Seq<ItemModel>,
    group: Seq<RowModel<G::NodeId>>,
    values: Seq<ValueModel>,
) -> bool {
    &&& values.len() == items.len()
    &&& forall|c: int|
        0 <= c < items.len() ==> if has_aggregate((#[trigger] items[c]).expr) {
            aggregate(g, items[c].expr, group) == Ok::<ValueModel, ErrorModel>(values[c])
        } else {
            forall|i: int|
                0 <= i < group.len() ==> eval(g, #[trigger] group[i], items[c].expr) == Ok::<
                    ValueModel,
                    ErrorModel,
                >(values[c])
        }
}

// ---- Proof -------------------------------------------------------------------------

/// The positions at which a key stands.
spec fn positions<A>(keys: Seq<A>, key: A) -> Seq<int>
    decreases keys.len(),
{
    if keys.len() == 0 {
        Seq::empty()
    } else if keys.last() == key {
        positions(keys.drop_last(), key).push(keys.len() - 1)
    } else {
        positions(keys.drop_last(), key)
    }
}

proof fn lemma_positions<A>(keys: Seq<A>, key: A)
    ensures
        forall|i: int|
            0 <= i < positions(keys, key).len() ==> 0 <= #[trigger] positions(keys, key)[i]
                < keys.len() && keys[positions(keys, key)[i]] == key,
        forall|i: int, j: int|
            0 <= i < j < positions(keys, key).len() ==> #[trigger] positions(keys, key)[i]
                < #[trigger] positions(keys, key)[j],
        forall|x: int|
            0 <= x < keys.len() && #[trigger] keys[x] == key ==> positions(keys, key).contains(x),
    decreases keys.len(),
{
    if keys.len() > 0 {
        let init = keys.drop_last();
        lemma_positions(init, key);
        let before = positions(init, key);
        let all = positions(keys, key);
        assert forall|x: int| 0 <= x < keys.len() && #[trigger] keys[x] == key implies all.contains(
            x,
        ) by {
            if x < init.len() {
                assert(init[x] == key);
                let i = choose|i: int| 0 <= i < before.len() && before[i] == x;
                assert(all[i] == x);
            } else {
                assert(all[before.len() as int] == x);
            }
        }
        assert forall|i: int| 0 <= i < all.len() implies 0 <= #[trigger] all[i] < keys.len()
            && keys[all[i]] == key by {
            if i < before.len() {
                assert(all[i] == before[i]);
                assert(init[before[i]] == key);
            }
        }
        assert forall|i: int, j: int| 0 <= i < j < all.len() implies #[trigger] all[i]
            < #[trigger] all[j] by {
            assert(all[i] == before[i]);
            if j < before.len() {
                assert(all[j] == before[j]);
            }
        }
    }
}

proof fn lemma_group_rows<N>(
    rows: Seq<RowModel<N>>,
    keys: Seq<Seq<ValueModel>>,
    key: Seq<ValueModel>,
)
    ensures
        group_rows(rows, keys, key) == rows_at(rows, positions(keys, key)),
    decreases keys.len(),
{
    if keys.len() > 0 {
        lemma_group_rows(rows, keys.drop_last(), key);
    }
    assert(group_rows(rows, keys, key) =~= rows_at(rows, positions(keys, key)));
}

/// Two rows have the same key just if every grouping item has the same value in both.
proof fn lemma_same_key<G: GraphProvider>(
    g: &G,
    items: Seq<ItemModel>,
    r: RowModel<G::NodeId>,
    s: RowModel<G::NodeId>,
    i: int,
)
    requires
        0 <= i <= items.len(),
        group_key(g, r, items, i) is Ok,
        group_key(g, s, items, i) is Ok,
    ensures
        group_key(g, r, items, i)->Ok_0.len() == group_key(g, s, items, i)->Ok_0.len(),
        group_key(g, r, items, i) == group_key(g, s, items, i) <==> forall|c: int|
            i <= c < items.len() && !has_aggregate((#[trigger] items[c]).expr) ==> eval(
                g,
                r,
                items[c].expr,
            ) == eval(g, s, items[c].expr),
    decreases items.len() - i,
{
    if i < items.len() {
        lemma_same_key(g, items, r, s, i + 1);
        if !has_aggregate(items[i].expr) {
            let a = eval(g, r, items[i].expr)->Ok_0;
            let b = eval(g, s, items[i].expr)->Ok_0;
            let x = group_key(g, r, items, i + 1)->Ok_0;
            let y = group_key(g, s, items, i + 1)->Ok_0;
            let p = seq![a] + x;
            let q = seq![b] + y;
            if p == q {
                assert(p[0] == a && q[0] == b);
                assert forall|k: int| 0 <= k < x.len() implies x[k] == y[k] by {
                    assert(p[k + 1] == x[k] && q[k + 1] == y[k]);
                }
                assert(x =~= y);
            }
        }
    }
}

proof fn lemma_group_keys<G: GraphProvider>(
    g: &G,
    rows: Seq<RowModel<G::NodeId>>,
    items: Seq<ItemModel>,
    i: int,
)
    requires
        0 <= i <= rows.len(),
        group_keys(g, rows, items, i) is Ok,
    ensures
        group_keys(g, rows, items, i)->Ok_0.len() == rows.len() - i,
        forall|x: int|
            i <= x < rows.len() ==> group_key(g, #[trigger] rows[x], items, 0) == Ok::<
                Seq<ValueModel>,
                ErrorModel,
            >(group_keys(g, rows, items, i)->Ok_0[x - i]),
    decreases rows.len() - i,
{
    if i < rows.len() {
        lemma_group_keys(g, rows, items, i + 1);
        let keys = group_keys(g, rows, items, i)->Ok_0;
        let rest = group_keys(g, rows, items, i + 1)->Ok_0;
        assert forall|x: int| i <= x < rows.len() implies group_key(g, #[trigger] rows[x], items, 0)
            == Ok::<Seq<ValueModel>, ErrorModel>(keys[x - i]) by {
            if x > i {
                assert(keys[x - i] == rest[x - (i + 1)]);
            }
        }
    }
}

proof fn lemma_group_bindings<G: GraphProvider>(
    g: &G,
    group: Seq<RowModel<G::NodeId>>,
    items: Seq<ItemModel>,
    i: int,
)
    requires
        0 <= i <= items.len(),
        group_bindings(g, group, items, i) is Ok,
    ensures
        group_bindings(g, group, items, i)->Ok_0.len() == items.len() - i,
        forall|c: int|
            i <= c < items.len() ==> group_binding(g, group, #[trigger] items[c]) == Ok::<
                BindingModel<G::NodeId>,
                ErrorModel,
            >(group_bindings(g, group, items, i)->Ok_0[c - i]),
    decreases items.len() - i,
{
    if i < items.len() {
        lemma_group_bindings(g, group, items, i + 1);
        let all = group_bindings(g, group, items, i)->Ok_0;
        let rest = group_bindings(g, group, items, i + 1)->Ok_0;
        assert forall|c: int| i <= c < items.len() implies group_binding(
            g,
            group,
            #[trigger] items[c],
        ) == Ok::<BindingModel<G::NodeId>, ErrorModel>(all[c - i]) by {
            if c > i {
                assert(all[c - i] == rest[c - (i + 1)]);
            }
        }
    }
}

proof fn lemma_grouped_rows<G: GraphProvider>(
    g: &G,
    groups: Seq<Seq<RowModel<G::NodeId>>>,
    items: Seq<ItemModel>,
    i: int,
)
    requires
        0 <= i <= groups.len(),
        grouped_rows(g, groups, items, i) is Ok,
    ensures
        grouped_rows(g, groups, items, i)->Ok_0.len() == groups.len() - i,
        forall|k: int|
            i <= k < groups.len() ==> group_bindings(g, #[trigger] groups[k], items, 0) is Ok
                && grouped_rows(g, groups, items, i)->Ok_0[k - i] == projected(
                g,
                columns_of(items),
                group_bindings(g, groups[k], items, 0)->Ok_0,
            ),
    decreases groups.len() - i,
{
    if i < groups.len() {
        lemma_grouped_rows(g, groups, items, i + 1);
        let all = grouped_rows(g, groups, items, i)->Ok_0;
        let rest = grouped_rows(g, groups, items, i + 1)->Ok_0;
        assert forall|k: int| i <= k < groups.len() implies group_bindings(
            g,
            #[trigger] groups[k],
            items,
            0,
        ) is Ok && all[k - i] == projected(
            g,
            columns_of(items),
            group_bindings(g, groups[k], items, 0)->Ok_0,
        ) by {
            if k > i {
                assert(all[k - i] == rest[k - (i + 1)]);
            }
        }
    }
}

proof fn lemma_made_of_group<G: GraphProvider>(
    g: &G,
    items: Seq<ItemModel>,
    group: Seq<RowModel<G::NodeId>>,
)
    requires
        group_bindings(g, group, items, 0) is Ok,
        forall|i: int, j: int|
            0 <= i < group.len() && 0 <= j < group.len() ==> same_group(
                g,
                items,
                #[trigger] group[i],
                #[trigger] group[j],
            ),
    ensures
        made_of_group(
            g,
            items,
            group,
            projected(g, columns_of(items), group_bindings(g, group, items, 0)->Ok_0).values,
        ),
{
    lemma_group_bindings(g, group, items, 0);
    let bindings = group_bindings(g, group, items, 0)->Ok_0;
    let values = projected(g, columns_of(items), bindings).values;
    assert forall|c: int| 0 <= c < items.len() implies if has_aggregate(
        (#[trigger] items[c]).expr,
    ) {
        aggregate(g, items[c].expr, group) == Ok::<ValueModel, ErrorModel>(values[c])
    } else {
        forall|i: int|
            0 <= i < group.len() ==> eval(g, #[trigger] group[i], items[c].expr) == Ok::<
                ValueModel,
                ErrorModel,
            >(values[c])
    } by {
        assert(bindings[c - 0] == bindings[c]);
        assert(group_binding(g, group, items[c]) == Ok::<BindingModel<G::NodeId>, ErrorModel>(
            bindings[c],
        ));
        if !has_aggregate(items[c].expr) {
            assert forall|i: int| 0 <= i < group.len() implies eval(
                g,
                #[trigger] group[i],
                items[c].expr,
            ) == Ok::<ValueModel, ErrorModel>(values[c]) by {
                assert(same_group(g, items, group[0], group[i]));
                assert(eval(g, group[0], items[c].expr) == Ok::<ValueModel, ErrorModel>(
                    values[c],
                ));
            }
        }
    }
}

/// The positions of each of the different keys.
spec fn key_groups<A>(keys: Seq<A>) -> Seq<Seq<int>> {
    Seq::new(distinct(keys).len(), |k: int| positions(keys, distinct(keys)[k]))
}

proof fn lemma_key_groups_inside<A>(keys: Seq<A>)
    ensures
        forall|k: int|
            0 <= k < key_groups(keys).len() ==> (#[trigger] key_groups(keys)[k]).len() > 0,
        forall|k: int, i: int|
            0 <= k < key_groups(keys).len() && 0 <= i < key_groups(keys)[k].len() ==> 0
                <= #[trigger] key_groups(keys)[k][i] < keys.len() && keys[key_groups(keys)[k][i]]
                == distinct(keys)[k],
        forall|k: int, i: int, j: int|
            0 <= k < key_groups(keys).len() && 0 <= i < j < key_groups(keys)[k].len()
                ==> #[trigger] key_groups(keys)[k][i] < #[trigger] key_groups(keys)[k][j],
        forall|k: int, l: int|
            0 <= k < l < key_groups(keys).len() ==> (#[trigger] key_groups(keys)[k])[0] < (
            #[trigger] key_groups(keys)[l])[0],
{
    let order = distinct(keys);
    let groups = key_groups(keys);
    let firsts = lemma_first_places(keys);
    assert forall|k: int| 0 <= k < groups.len() implies (#[trigger] groups[k]).len() > 0
        && groups[k][0] == firsts[k] by {
        lemma_positions(keys, order[k]);
        assert(keys[firsts[k]] == order[k]);
        assert(groups[k].contains(firsts[k]));
        let i = choose|i: int| 0 <= i < groups[k].len() && groups[k][i] == firsts[k];
        if i > 0 {
            assert(groups[k][0] < groups[k][i]);
            assert(keys[groups[k][0]] == order[k]);
        }
    }
    assert forall|k: int, i: int| 0 <= k < groups.len() && 0 <= i < groups[k].len() implies 0
        <= #[trigger] groups[k][i] < keys.len() && keys[groups[k][i]] == order[k] by {
        lemma_positions(keys, order[k]);
    }
    assert forall|k: int, i: int, j: int|
        0 <= k < groups.len() && 0 <= i < j < groups[k].len() implies #[trigger] groups[k][i]
        < #[trigger] groups[k][j] by {
        lemma_positions(keys, order[k]);
    }
    assert forall|k: int, l: int| 0 <= k < l < groups.len() implies (#[trigger] groups[k])[0] < (
    #[trigger] groups[l])[0] by {
        assert(groups[k][0] == firsts[k]);
        assert(groups[l][0] == firsts[l]);
        assert(firsts[k] < firsts[l]);
    }
}

proof fn lemma_key_groups_cover<A>(keys: Seq<A>, x: int)
    requires
        0 <= x < keys.len(),
    ensures
        exists|k: int|
            0 <= k < key_groups(keys).len() && (#[trigger] key_groups(keys)[k]).contains(x),
{
    let order = distinct(keys);
    lemma_distinct_set(keys);
    assert(keys.to_set().contains(keys[x]));
    assert(order.to_set().contains(keys[x]));
    let k = choose|k: int| 0 <= k < order.len() && order[k] == keys[x];
    lemma_positions(keys, order[k]);
    assert(key_groups(keys)[k].contains(x));
}

proof fn lemma_key_groups_apart<A>(keys: Seq<A>, k: int, l: int, x: int, y: int)
    requires
        0 <= k < key_groups(keys).len(),
        0 <= l < key_groups(keys).len(),
        key_groups(keys)[k].contains(x),
        key_groups(keys)[l].contains(y),
    ensures
        0 <= x < keys.len(),
        0 <= y < keys.len(),
        k == l <==> keys[x] == keys[y],
{
    let order = distinct(keys);
    let firsts = lemma_first_places(keys);
    lemma_positions(keys, order[k]);
    lemma_positions(keys, order[l]);
    if k < l {
        assert(firsts[k] < firsts[l]);
        assert(keys[firsts[k]] != order[l]);
    } else if l < k {
        assert(firsts[l] < firsts[k]);
        assert(keys[firsts[l]] != order[k]);
    }
}

/// The groups of the keys are those of the rows.
proof fn lemma_key_groups_of_rows<G: GraphProvider>(
    g: &G,
    items: Seq<ItemModel>,
    rows: Seq<RowModel<G::NodeId>>,
)
    requires
        group_keys(g, rows, items, 0) is Ok,
    ensures
        grouped(g, items, rows, key_groups(group_keys(g, rows, items, 0)->Ok_0)),
{
    let keys = group_keys(g, rows, items, 0)->Ok_0;
    let groups = key_groups(keys);
    lemma_group_keys(g, rows, items, 0);
    lemma_key_groups_inside(keys);
    assert forall|k: int, i: int| 0 <= k < groups.len() && 0 <= i < groups[k].len() implies 0
        <= #[trigger] groups[k][i] < rows.len() by {
        assert(key_groups(keys)[k][i] < keys.len());
    }
    assert forall|x: int| 0 <= x < rows.len() implies #[trigger] in_a_group(groups, x) by {
        lemma_key_groups_cover(keys, x);
    }
    assert forall|k: int, l: int, x: int, y: int|
        0 <= k < groups.len() && 0 <= l < groups.len() && #[trigger] groups[k].contains(x)
            && #[trigger] groups[l].contains(y) implies (k == l <==> same_group(
        g,
        items,
        rows[x],
        rows[y],
    )) by {
        lemma_key_groups_apart(keys, k, l, x, y);
        assert(group_key(g, rows[x], items, 0)->Ok_0 == keys[x - 0]);
        assert(group_key(g, rows[y], items, 0)->Ok_0 == keys[y - 0]);
        lemma_same_key(g, items, rows[x], rows[y], 0);
    }
}

/// A projection with aggregates makes one row for each group of rows: the rows in which every item
/// without an aggregate has the same value. Each such item shows that value, and each aggregate is
/// made of all rows of the group. The groups come in the order of their first rows.
pub proof fn lemma_groups<G: GraphProvider>(
    g: &G,
    p: ProjectionModel,
    rows: Seq<RowModel<G::NodeId>>,
    scope: Seq<Text>,
) -> (groups: Seq<Seq<int>>)
    requires
        !p.star,
        aggregates(p.items),
        rows.len() > 0,
        projection_rows(g, p, rows, scope) is Ok,
    ensures
        grouped(g, p.items, rows, groups),
        projection_rows(g, p, rows, scope)->Ok_0.len() == groups.len(),
        forall|k: int|
            0 <= k < groups.len() ==> made_of_group(
                g,
                p.items,
                rows_at(rows, #[trigger] groups[k]),
                projection_rows(g, p, rows, scope)->Ok_0[k].values,
            ),
{
    let items = p.items;
    let keys = group_keys(g, rows, items, 0)->Ok_0;
    lemma_group_keys(g, rows, items, 0);
    let order = distinct(keys);
    assert(group_order(keys, items) == order);
    let groups = key_groups(keys);
    lemma_key_groups_of_rows(g, items, rows);
    let parts = groups_of(rows, keys, items);
    let out = projection_rows(g, p, rows, scope)->Ok_0;
    lemma_grouped_rows(g, parts, items, 0);
    assert forall|k: int| 0 <= k < groups.len() implies made_of_group(
        g,
        items,
        rows_at(rows, #[trigger] groups[k]),
        out[k].values,
    ) by {
        lemma_group_rows(rows, keys, order[k]);
        let part = parts[k];
        assert(part == rows_at(rows, groups[k]));
        assert(out[k - 0] == out[k]);
        assert(group_bindings(g, parts[k], items, 0) is Ok);
        lemma_part(g, items, rows, groups, k);
        lemma_made_of_group(g, items, part);
    }
    groups
}

/// The rows of a group belong together.
proof fn lemma_part<G: GraphProvider>(
    g: &G,
    items: Seq<ItemModel>,
    rows: Seq<RowModel<G::NodeId>>,
    groups: Seq<Seq<int>>,
    k: int,
)
    requires
        grouped(g, items, rows, groups),
        0 <= k < groups.len(),
    ensures
        forall|i: int, j: int|
            0 <= i < groups[k].len() && 0 <= j < groups[k].len() ==> same_group(
                g,
                items,
                #[trigger] rows_at(rows, groups[k])[i],
                #[trigger] rows_at(rows, groups[k])[j],
            ),
{
    let part = rows_at(rows, groups[k]);
    assert forall|i: int, j: int|
        0 <= i < groups[k].len() && 0 <= j < groups[k].len() implies same_group(
        g,
        items,
        #[trigger] part[i],
        #[trigger] part[j],
    ) by {
        assert(groups[k].contains(groups[k][i]));
        assert(groups[k].contains(groups[k][j]));
    }
}

/// No two rows of a projection with aggregates agree on all items without an aggregate.
pub proof fn lemma_groups_differ<G: GraphProvider>(
    g: &G,
    p: ProjectionModel,
    rows: Seq<RowModel<G::NodeId>>,
    scope: Seq<Text>,
    k: int,
    l: int,
)
    requires
        !p.star,
        aggregates(p.items),
        projection_rows(g, p, rows, scope) is Ok,
        0 <= k < l < projection_rows(g, p, rows, scope)->Ok_0.len(),
    ensures
        exists|c: int|
            0 <= c < p.items.len() && !has_aggregate((#[trigger] p.items[c]).expr)
                && projection_rows(g, p, rows, scope)->Ok_0[k].values[c] != projection_rows(
                g,
                p,
                rows,
                scope,
            )->Ok_0[l].values[c],
{
    let items = p.items;
    let out = projection_rows(g, p, rows, scope)->Ok_0;
    if rows.len() == 0 {
        lemma_no_rows_no_groups(g, p, rows, scope);
    } else {
        let groups = lemma_groups(g, p, rows, scope);
        let x = groups[k][0];
        let y = groups[l][0];
        assert(groups[k].contains(x));
        assert(groups[l].contains(y));
        assert(!same_group(g, items, rows[x], rows[y]));
        let c = choose|c: int|
            0 <= c < items.len() && !has_aggregate((#[trigger] items[c]).expr) && eval(
                g,
                rows[x],
                items[c].expr,
            ) != eval(g, rows[y], items[c].expr);
        assert(rows_at(rows, groups[k])[0] == rows[x]);
        assert(rows_at(rows, groups[l])[0] == rows[y]);
        assert(made_of_group(g, items, rows_at(rows, groups[k]), out[k].values));
        assert(made_of_group(g, items, rows_at(rows, groups[l]), out[l].values));
    }
}

/// Without rows there is one group, without rows, if all items are aggregates, and none otherwise.
pub proof fn lemma_no_rows_no_groups<G: GraphProvider>(
    g: &G,
    p: ProjectionModel,
    rows: Seq<RowModel<G::NodeId>>,
    scope: Seq<Text>,
)
    requires
        !p.star,
        aggregates(p.items),
        rows.len() == 0,
        projection_rows(g, p, rows, scope) is Ok,
    ensures
        if forall|c: int| 0 <= c < p.items.len() ==> has_aggregate((#[trigger] p.items[c]).expr) {
            projection_rows(g, p, rows, scope)->Ok_0.len() == 1 && made_of_group(
                g,
                p.items,
                Seq::empty(),
                projection_rows(g, p, rows, scope)->Ok_0[0].values,
            )
        } else {
            projection_rows(g, p, rows, scope)->Ok_0.len() == 0
        },
{
    let items = p.items;
    let none = Seq::<RowModel<G::NodeId>>::empty();
    let keys = Seq::<Seq<ValueModel>>::empty();
    assert(group_keys(g, rows, items, 0) == Ok::<Seq<Seq<ValueModel>>, ErrorModel>(keys));
    let parts = groups_of(rows, keys, items);
    lemma_grouped_rows(g, parts, items, 0);
    if forall|c: int| 0 <= c < p.items.len() ==> has_aggregate((#[trigger] p.items[c]).expr) {
        assert(!groups_by(items));
        assert(parts.len() == 1);
        assert(parts[0] =~= none);
        lemma_made_of_group(g, items, none);
    } else {
        assert(groups_by(items));
        assert(parts.len() == 0);
    }
}

// ---- Row by row ------------------------------------------------------------------

proof fn lemma_item_bindings<G: GraphProvider>(
    g: &G,
    row: RowModel<G::NodeId>,
    items: Seq<ItemModel>,
    i: int,
)
    requires
        0 <= i <= items.len(),
        item_bindings(g, row, items, i) is Ok,
    ensures
        item_bindings(g, row, items, i)->Ok_0.len() == items.len() - i,
        forall|c: int|
            i <= c < items.len() ==> item_binding(g, row, #[trigger] items[c]) == Ok::<
                BindingModel<G::NodeId>,
                ErrorModel,
            >(item_bindings(g, row, items, i)->Ok_0[c - i]),
    decreases items.len() - i,
{
    if i < items.len() {
        lemma_item_bindings(g, row, items, i + 1);
        let all = item_bindings(g, row, items, i)->Ok_0;
        let rest = item_bindings(g, row, items, i + 1)->Ok_0;
        assert forall|c: int| i <= c < items.len() implies item_binding(
            g,
            row,
            #[trigger] items[c],
        ) == Ok::<BindingModel<G::NodeId>, ErrorModel>(all[c - i]) by {
            if c > i {
                assert(all[c - i] == rest[c - (i + 1)]);
            }
        }
    }
}

proof fn lemma_simple_rows<G: GraphProvider>(
    g: &G,
    rows: Seq<RowModel<G::NodeId>>,
    items: Seq<ItemModel>,
    i: int,
)
    requires
        0 <= i <= rows.len(),
        simple_rows(g, rows, items, i) is Ok,
    ensures
        simple_rows(g, rows, items, i)->Ok_0.len() == rows.len() - i,
        forall|k: int|
            i <= k < rows.len() ==> item_bindings(g, #[trigger] rows[k], items, 0) is Ok
                && simple_rows(g, rows, items, i)->Ok_0[k - i] == projected(
                g,
                columns_of(items),
                item_bindings(g, rows[k], items, 0)->Ok_0,
            ),
    decreases rows.len() - i,
{
    if i < rows.len() {
        lemma_simple_rows(g, rows, items, i + 1);
        let all = simple_rows(g, rows, items, i)->Ok_0;
        let rest = simple_rows(g, rows, items, i + 1)->Ok_0;
        assert forall|k: int| i <= k < rows.len() implies item_bindings(
            g,
            #[trigger] rows[k],
            items,
            0,
        ) is Ok && all[k - i] == projected(
            g,
            columns_of(items),
            item_bindings(g, rows[k], items, 0)->Ok_0,
        ) by {
            if k > i {
                assert(all[k - i] == rest[k - (i + 1)]);
            }
        }
    }
}

/// A projection without aggregates makes one row of each row, in their order, with the value that
/// each item has in it.
pub proof fn lemma_row_by_row<G: GraphProvider>(
    g: &G,
    p: ProjectionModel,
    rows: Seq<RowModel<G::NodeId>>,
    scope: Seq<Text>,
)
    requires
        !p.star,
        !aggregates(p.items),
        projection_rows(g, p, rows, scope) is Ok,
    ensures
        projection_rows(g, p, rows, scope)->Ok_0.len() == rows.len(),
        forall|k: int, c: int|
            0 <= k < rows.len() && 0 <= c < p.items.len() ==> eval(
                g,
                #[trigger] rows[k],
                (#[trigger] p.items[c]).expr,
            ) == Ok::<ValueModel, ErrorModel>(
                projection_rows(g, p, rows, scope)->Ok_0[k].values[c],
            ),
{
    let items = p.items;
    let out = projection_rows(g, p, rows, scope)->Ok_0;
    lemma_simple_rows(g, rows, items, 0);
    assert forall|k: int, c: int| 0 <= k < rows.len() && 0 <= c < items.len() implies eval(
        g,
        #[trigger] rows[k],
        (#[trigger] items[c]).expr,
    ) == Ok::<ValueModel, ErrorModel>(out[k].values[c]) by {
        lemma_item_bindings(g, rows[k], items, 0);
        assert(out[k - 0] == out[k]);
        let bindings = item_bindings(g, rows[k], items, 0)->Ok_0;
        assert(item_binding(g, rows[k], items[c])->Ok_0 == bindings[c - 0]);
    }
}

/// A star makes one row of each row, with the value that each variable in scope has in it.
pub proof fn lemma_star<G: GraphProvider>(
    g: &G,
    p: ProjectionModel,
    rows: Seq<RowModel<G::NodeId>>,
    scope: Seq<Text>,
)
    requires
        p.star,
    ensures
        projection_columns(p, scope) == scope,
        projection_rows(g, p, rows, scope) is Ok <==> scope.len() > 0,
        projection_rows(g, p, rows, scope) matches Ok(out) ==> out.len() == rows.len() && forall|
            k: int,
            c: int,
        |
            0 <= k < rows.len() && 0 <= c < scope.len() ==> eval(
                g,
                #[trigger] rows[k],
                ExprModel::Var(#[trigger] scope[c]),
            ) == Ok::<ValueModel, ErrorModel>(out[k].values[c]),
{
}

/// Without a star there is a column for each item, named by its alias if it has one.
pub proof fn lemma_columns(p: ProjectionModel, scope: Seq<Text>)
    requires
        !p.star,
    ensures
        projection_columns(p, scope).len() == p.items.len(),
        forall|c: int|
            0 <= c < p.items.len() && (#[trigger] p.items[c]).alias is Some ==> projection_columns(
                p,
                scope,
            )[c] == p.items[c].alias->Some_0,
        forall|c: int|
            0 <= c < p.items.len() && (#[trigger] p.items[c]).alias is None && p.items[c].expr is Var
                ==> projection_columns(p, scope)[c] == p.items[c].expr->Var_0,
{
}

// ---- What is carried on ------------------------------------------------------------

/// Whether no later column has the name of column `c`.
pub open spec fn last_of_name(columns: Seq<Text>, c: int) -> bool {
    0 <= c < columns.len() && forall|d: int| c < d < columns.len() ==> #[trigger] columns[d]
        != columns[c]
}

proof fn lemma_assemble<N>(columns: Seq<Text>, bindings: Seq<BindingModel<N>>, n: nat)
    requires
        n <= columns.len(),
        n <= bindings.len(),
    ensures
        forall|name: Text| #[trigger]
            assemble(columns, bindings, n).contains_key(name) <==> columns.take(
                n as int,
            ).contains(name),
        forall|c: int|
            #![trigger columns[c]]
            last_of_name(columns.take(n as int), c) ==> assemble(columns, bindings, n)[columns[c]]
                == bindings[c],
    decreases n,
{
    if n > 0 {
        let m = (n - 1) as nat;
        lemma_assemble(columns, bindings, m);
        let all = columns.take(n as int);
        let init = columns.take(m as int);
        assert(all =~= init.push(columns[n - 1]));
        assert forall|name: Text| #[trigger]
            assemble(columns, bindings, n).contains_key(name) <==> all.contains(name) by {
            lemma_push_contains(init, columns[n - 1], name);
            assert(assemble(columns, bindings, m).contains_key(name) <==> init.contains(name));
        }
        assert forall|c: int|
            #![trigger columns[c]]
            last_of_name(all, c) implies assemble(columns, bindings, n)[columns[c]]
            == bindings[c] by {
            if c < n - 1 {
                assert(all[n - 1] != all[c]);
                assert forall|d: int| c < d < init.len() implies #[trigger] init[d] != init[c] by {
                    assert(all[d] != all[c]);
                }
                assert(last_of_name(init, c));
            }
        }
    }
}

/// A projected row carries on exactly the columns as variables, each with the value that it shows;
/// of columns with one name, the last.
pub proof fn lemma_carried_on<G: GraphProvider>(
    g: &G,
    p: ProjectionModel,
    rows: Seq<RowModel<G::NodeId>>,
    scope: Seq<Text>,
    k: int,
)
    requires
        projection_rows(g, p, rows, scope) is Ok,
        0 <= k < projection_rows(g, p, rows, scope)->Ok_0.len(),
    ensures
        forall|name: Text| #[trigger]
            projection_rows(g, p, rows, scope)->Ok_0[k].bindings.contains_key(name)
                <==> projection_columns(p, scope).contains(name),
        forall|c: int|
            #![trigger projection_columns(p, scope)[c]]
            last_of_name(projection_columns(p, scope), c) ==> eval(
                g,
                projection_rows(g, p, rows, scope)->Ok_0[k].bindings,
                ExprModel::Var(projection_columns(p, scope)[c]),
            ) == Ok::<ValueModel, ErrorModel>(
                projection_rows(g, p, rows, scope)->Ok_0[k].values[c],
            ),
{
    let items = p.items;
    let columns = projection_columns(p, scope);
    let out = projection_rows(g, p, rows, scope)->Ok_0;
    let bindings = lemma_row_bindings(g, p, rows, scope, k);
    lemma_assemble(columns, bindings, columns.len());
    assert(columns.take(columns.len() as int) =~= columns);
    assert forall|c: int|
        #![trigger columns[c]]
        last_of_name(columns, c) implies eval(g, out[k].bindings, ExprModel::Var(columns[c]))
        == Ok::<ValueModel, ErrorModel>(out[k].values[c]) by {
        assert(columns.contains(columns[c]));
        assert(out[k].bindings.contains_key(columns[c]));
        assert(out[k].bindings[columns[c]] == bindings[c]);
    }
}

/// The bindings that a projected row was made of.
proof fn lemma_row_bindings<G: GraphProvider>(
    g: &G,
    p: ProjectionModel,
    rows: Seq<RowModel<G::NodeId>>,
    scope: Seq<Text>,
    k: int,
) -> (bindings: Seq<BindingModel<G::NodeId>>)
    requires
        projection_rows(g, p, rows, scope) is Ok,
        0 <= k < projection_rows(g, p, rows, scope)->Ok_0.len(),
    ensures
        bindings.len() == projection_columns(p, scope).len(),
        projection_rows(g, p, rows, scope)->Ok_0[k] == projected(
            g,
            projection_columns(p, scope),
            bindings,
        ),
        !p.star && !aggregates(p.items) ==> forall|c: int|
            0 <= c < p.items.len() ==> item_binding(g, rows[k], #[trigger] p.items[c]) == Ok::<
                BindingModel<G::NodeId>,
                ErrorModel,
            >(bindings[c]),
{
    let items = p.items;
    let out = projection_rows(g, p, rows, scope)->Ok_0;
    assert(out[k - 0] == out[k]);
    if p.star {
        star_bindings(rows[k], scope)
    } else if aggregates(items) {
        let keys = group_keys(g, rows, items, 0)->Ok_0;
        let parts = groups_of(rows, keys, items);
        lemma_grouped_rows(g, parts, items, 0);
        assert(group_bindings(g, parts[k], items, 0) is Ok);
        lemma_group_bindings(g, parts[k], items, 0);
        group_bindings(g, parts[k], items, 0)->Ok_0
    } else {
        lemma_simple_rows(g, rows, items, 0);
        assert(item_bindings(g, rows[k], items, 0) is Ok);
        lemma_item_bindings(g, rows[k], items, 0);
        let bindings = item_bindings(g, rows[k], items, 0)->Ok_0;
        assert forall|c: int| 0 <= c < items.len() implies item_binding(
            g,
            rows[k],
            #[trigger] items[c],
        ) == Ok::<BindingModel<G::NodeId>, ErrorModel>(bindings[c]) by {
            assert(bindings[c - 0] == bindings[c]);
        }
        bindings
    }
}

/// A projected variable stays what it is: a node is carried on as that node.
pub proof fn lemma_nodes_carried_on<G: GraphProvider>(
    g: &G,
    p: ProjectionModel,
    rows: Seq<RowModel<G::NodeId>>,
    scope: Seq<Text>,
    k: int,
    c: int,
)
    requires
        projection_rows(g, p, rows, scope) is Ok,
        0 <= k < projection_rows(g, p, rows, scope)->Ok_0.len(),
        !p.star,
        !aggregates(p.items),
        last_of_name(projection_columns(p, scope), c),
        p.items[c].expr is Var,
        rows[k].contains_key(p.items[c].expr->Var_0),
    ensures
        projection_rows(g, p, rows, scope)->Ok_0[k].bindings[projection_columns(p, scope)[c]]
            == rows[k][p.items[c].expr->Var_0],
{
    let columns = projection_columns(p, scope);
    let bindings = lemma_row_bindings(g, p, rows, scope, k);
    lemma_assemble(columns, bindings, columns.len());
    assert(columns.take(columns.len() as int) =~= columns);
    assert(item_binding(g, rows[k], p.items[c])->Ok_0 == bindings[c]);
}

// ---- What an aggregate is ----------------------------------------------------------

/// The expressions that an expression is made of. A subquery is closed.
pub open spec fn operands(e: ExprModel) -> Seq<ExprModel> {
    match e {
        ExprModel::Not(x) => seq![*x],
        ExprModel::IsNull(x, _) => seq![*x],
        ExprModel::And(x, y) => seq![*x, *y],
        ExprModel::Or(x, y) => seq![*x, *y],
        ExprModel::Compare(x, _, y) => seq![*x, *y],
        ExprModel::List(items) => items,
        ExprModel::Function { args, .. } => args,
        ExprModel::Case { operand, branches, default } => opt_operand(operand) + Seq::new(
            branches.len(),
            |i: int| branches[i].0,
        ) + Seq::new(branches.len(), |i: int| branches[i].1) + opt_operand(default),
        ExprModel::MapProjection { entries, .. } => Seq::new(
            entries.len(),
            |i: int|
                match entries[i] {
                    MapEntryModel::Literal(_, x) => x,
                    MapEntryModel::Property(p) => ExprModel::Var(p),
                },
        ),
        _ => Seq::empty(),
    }
}

/// An operand that may be missing.
pub open spec fn opt_operand(e: Option<Box<ExprModel>>) -> Seq<ExprModel> {
    match e {
        Some(x) => seq![*x],
        None => Seq::empty(),
    }
}

/// A projection groups its rows if an aggregate stands anywhere in its items, however deep: an
/// expression holds one if it is one, or if one of the expressions that it is made of does.
pub proof fn lemma_holds_aggregate(e: ExprModel)
    ensures
        has_aggregate(e) <==> e is Aggregate || exists|i: int|
            0 <= i < operands(e).len() && has_aggregate(#[trigger] operands(e)[i]),
{
    let parts = operands(e);
    match e {
        ExprModel::Not(x) => {
            assert(parts[0] == *x);
        },
        ExprModel::IsNull(x, _) => {
            assert(parts[0] == *x);
        },
        ExprModel::And(x, y) => {
            assert(parts[0] == *x && parts[1] == *y);
        },
        ExprModel::Or(x, y) => {
            assert(parts[0] == *x && parts[1] == *y);
        },
        ExprModel::Compare(x, _, y) => {
            assert(parts[0] == *x && parts[1] == *y);
        },
        ExprModel::Case { operand, branches, default } => {
            lemma_case_parts(operand, branches, default);
        },
        ExprModel::List(items) => {
            assert(has_aggregate(e) == some_aggregate(items));
        },
        ExprModel::Function { name, args } => {
            assert(has_aggregate(e) == some_aggregate(args));
        },
        ExprModel::MapProjection { var, entries } => {
            assert(has_aggregate(e) == entry_aggregate(entries));
            if has_aggregate(e) {
                let i = choose|i: int|
                    0 <= i < entries.len() && ((#[trigger] entries[i]) matches MapEntryModel::Literal(
                        _,
                        x,
                    ) && has_aggregate(x));
                assert(has_aggregate(parts[i]));
            }
            if exists|i: int| 0 <= i < parts.len() && has_aggregate(#[trigger] parts[i]) {
                let i = choose|i: int| 0 <= i < parts.len() && has_aggregate(#[trigger] parts[i]);
                assert(entries[i] is Literal);
            }
        },
        _ => {},
    }
}

proof fn lemma_case_parts(
    operand: Option<Box<ExprModel>>,
    branches: Seq<(ExprModel, ExprModel)>,
    default: Option<Box<ExprModel>>,
)
    ensures
        ({
            let e = ExprModel::Case { operand, branches, default };
            has_aggregate(e) <==> exists|i: int|
                0 <= i < operands(e).len() && has_aggregate(#[trigger] operands(e)[i])
        }),
{
    let e = ExprModel::Case { operand, branches, default };
    let parts = operands(e);
    assert(has_aggregate(e) == ((operand matches Some(x) && has_aggregate(*x)) || branch_aggregate(
        branches,
    ) || (default matches Some(x) && has_aggregate(*x))));
    let a = opt_operand(operand).len() as int;
    let n = branches.len() as int;
    if let Some(x) = operand {
        assert(parts[0] == *x);
    }
    if let Some(x) = default {
        assert(parts[a + n + n] == *x);
    }
    assert forall|i: int| 0 <= i < n implies parts[a + i] == (#[trigger] branches[i]).0 && parts[a + n
        + i] == branches[i].1 by {}
    if exists|i: int| 0 <= i < parts.len() && has_aggregate(#[trigger] parts[i]) {
        let i = choose|i: int| 0 <= i < parts.len() && has_aggregate(#[trigger] parts[i]);
        if a <= i < a + n {
            assert(parts[a + (i - a)] == branches[i - a].0);
        } else if a + n <= i < a + n + n {
            assert(parts[a + n + (i - a - n)] == branches[i - a - n].1);
        }
    }
    if exists|i: int|
        0 <= i < n && (has_aggregate((#[trigger] branches[i]).0) || has_aggregate(branches[i].1)) {
        let i = choose|i: int|
            0 <= i < n && (has_aggregate((#[trigger] branches[i]).0) || has_aggregate(
                branches[i].1,
            ));
        assert(parts[a + i] == branches[i].0 && parts[a + n + i] == branches[i].1);
        assert(has_aggregate(parts[a + i]) || has_aggregate(parts[a + n + i]));
    }
}

} // verus!
