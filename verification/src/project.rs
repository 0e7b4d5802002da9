//! Projection of rows by `WITH` and `RETURN`.

use vstd::prelude::*;

use crate::aggregate::{aggregate, picked, within};
use crate::ast::{
    clone_strings, item_models, Expr, ExprModel, ItemModel, Projection, ProjectionModel,
    ReturnItem,
};
use crate::error::{
    failure, lemma_prepend_nothing, lemma_prepend_push, prepend, CypherError, ErrorModel,
};
use crate::eval::{binding_model, binding_of, eval};
use crate::finalize::{
    lemma_projected_push, projected_models, projected_result, Projected, ProjectedModel,
};
use crate::matcher::Executor;
use crate::naming::{aggregates, columns_of, has_aggregate};
use crate::provider::GraphProvider;
use crate::row::{row_models, Binding, BindingModel, Row, RowModel};
use crate::seqs::{distinct, lemma_distinct_set, lemma_fresh_elements};
use crate::text::{texts, Text};
use crate::value::{lemma_value_models_push, value_models, CypherValue, ValueModel};
use crate::value_index::ValueIndex;

verus! {

/// The row that binds the first `n` columns.
pub open spec fn assemble<N>(
    columns: Seq<Text>,
    bindings: Seq<BindingModel<N>>,
    n: nat,
) -> RowModel<N>
    decreases n,
{
    if n == 0 {
        Map::empty()
    } else {
        assemble(columns, bindings, (n - 1) as nat).insert(columns[n - 1], bindings[n - 1])
    }
}

/// The projected row with these bindings.
pub open spec fn projected<G: GraphProvider>(
    g: &G,
    columns: Seq<Text>,
    bindings: Seq<BindingModel<G::NodeId>>,
) -> ProjectedModel<G::NodeId> {
    ProjectedModel {
        bindings: assemble(columns, bindings, bindings.len()),
        values: Seq::new(bindings.len(), |i: int| binding_model(g, bindings[i])),
    }
}

// ---- Every variable ------------------------------------------------------------

/// The bindings of all variables in scope.
pub open spec fn star_bindings<N>(row: RowModel<N>, scope: Seq<Text>) -> Seq<BindingModel<N>> {
    Seq::new(scope.len(), |i: int| binding_of(row, scope[i]))
}

/// The rows projected to all variables in scope.
pub open spec fn star_rows<G: GraphProvider>(
    g: &G,
    rows: Seq<RowModel<G::NodeId>>,
    scope: Seq<Text>,
) -> Seq<ProjectedModel<G::NodeId>> {
    Seq::new(rows.len(), |i: int| projected(g, scope, star_bindings(rows[i], scope)))
}

// ---- Row by row ------------------------------------------------------------------

/// The binding that an item makes of a row. A bare variable keeps what it is bound to, so that a
/// node can still be used as a node by later patterns.
pub open spec fn item_binding<G: GraphProvider>(
    g: &G,
    row: RowModel<G::NodeId>,
    item: ItemModel,
) -> Result<BindingModel<G::NodeId>, ErrorModel> {
    match item.expr {
        ExprModel::Var(name) => Ok(binding_of(row, name)),
        _ => match eval(g, row, item.expr) {
            Ok(v) => Ok(BindingModel::Value(v)),
            Err(e) => Err(e),
        },
    }
}

/// The bindings that the items from position `i` on make of a row.
pub open spec fn item_bindings<G: GraphProvider>(
    g: &G,
    row: RowModel<G::NodeId>,
    items: Seq<ItemModel>,
    i: int,
) -> Result<Seq<BindingModel<G::NodeId>>, ErrorModel>
    decreases items.len() - i,
{
    if i < 0 || i >= items.len() {
        Ok(Seq::empty())
    } else {
        match item_binding(g, row, items[i]) {
            Err(e) => Err(e),
            Ok(b) => prepend(seq![b], item_bindings(g, row, items, i + 1)),
        }
    }
}

/// The projections of the rows from position `i` on.
pub open spec fn simple_rows<G: GraphProvider>(
    g: &G,
    rows: Seq<RowModel<G::NodeId>>,
    items: Seq<ItemModel>,
    i: int,
) -> Result<Seq<ProjectedModel<G::NodeId>>, ErrorModel>
    decreases rows.len() - i,
{
    if i < 0 || i >= rows.len() {
        Ok(Seq::empty())
    } else {
        match item_bindings(g, rows[i], items, 0) {
            Err(e) => Err(e),
            Ok(bindings) => prepend(
                seq![projected(g, columns_of(items), bindings)],
                simple_rows(g, rows, items, i + 1),
            ),
        }
    }
}

// ---- Group by group --------------------------------------------------------------

/// The values of the grouping items (those without an aggregate) from position `i` on.
pub open spec fn group_key<G: GraphProvider>(
    g: &G,
    row: RowModel<G::NodeId>,
    items: Seq<ItemModel>,
    i: int,
) -> Result<Seq<ValueModel>, ErrorModel>
    decreases items.len() - i,
{
    if i < 0 || i >= items.len() {
        Ok(Seq::empty())
    } else if has_aggregate(items[i].expr) {
        group_key(g, row, items, i + 1)
    } else {
        match eval(g, row, items[i].expr) {
            Err(e) => Err(e),
            Ok(v) => prepend(seq![v], group_key(g, row, items, i + 1)),
        }
    }
}

/// The keys of the rows from position `i` on.
pub open spec fn group_keys<G: GraphProvider>(
    g: &G,
    rows: Seq<RowModel<G::NodeId>>,
    items: Seq<ItemModel>,
    i: int,
) -> Result<Seq<Seq<ValueModel>>, ErrorModel>
    decreases rows.len() - i,
{
    if i < 0 || i >= rows.len() {
        Ok(Seq::empty())
    } else {
        match group_key(g, rows[i], items, 0) {
            Err(e) => Err(e),
            Ok(key) => prepend(seq![key], group_keys(g, rows, items, i + 1)),
        }
    }
}

/// Whether there is a grouping item.
pub open spec fn groups_by(items: Seq<ItemModel>) -> bool {
    exists|i: int| 0 <= i < items.len() && !has_aggregate((#[trigger] items[i]).expr)
}

/// The keys of the groups, in the order in which they first occur. Without grouping items there is
/// one group even if there are no rows.
pub open spec fn group_order(keys: Seq<Seq<ValueModel>>, items: Seq<ItemModel>) -> Seq<
    Seq<ValueModel>,
> {
    if keys.len() == 0 && !groups_by(items) {
        seq![Seq::empty()]
    } else {
        distinct(keys)
    }
}

/// The rows whose key is `key`.
pub open spec fn group_rows<N>(
    rows: Seq<RowModel<N>>,
    keys: Seq<Seq<ValueModel>>,
    key: Seq<ValueModel>,
) -> Seq<RowModel<N>>
    decreases keys.len(),
{
    if keys.len() == 0 {
        Seq::empty()
    } else if keys.last() == key {
        group_rows(rows, keys.drop_last(), key).push(rows[keys.len() - 1])
    } else {
        group_rows(rows, keys.drop_last(), key)
    }
}

/// The binding that an item makes of a group: an aggregate over its rows, or what the item is in
/// its first row.
pub open spec fn group_binding<G: GraphProvider>(
    g: &G,
    group: Seq<RowModel<G::NodeId>>,
    item: ItemModel,
) -> Result<BindingModel<G::NodeId>, ErrorModel> {
    if has_aggregate(item.expr) {
        match aggregate(g, item.expr, group) {
            Ok(v) => Ok(BindingModel::Value(v)),
            Err(e) => Err(e),
        }
    } else if group.len() > 0 {
        item_binding(g, group[0], item)
    } else {
        Ok(BindingModel::Value(ValueModel::Null))
    }
}

/// The bindings that the items from position `i` on make of a group.
pub open spec fn group_bindings<G: GraphProvider>(
    g: &G,
    group: Seq<RowModel<G::NodeId>>,
    items: Seq<ItemModel>,
    i: int,
) -> Result<Seq<BindingModel<G::NodeId>>, ErrorModel>
    decreases items.len() - i,
{
    if i < 0 || i >= items.len() {
        Ok(Seq::empty())
    } else {
        match group_binding(g, group, items[i]) {
            Err(e) => Err(e),
            Ok(b) => prepend(seq![b], group_bindings(g, group, items, i + 1)),
        }
    }
}

/// One projected row for each group from position `i` on.
pub open spec fn grouped_rows<G: GraphProvider>(
    g: &G,
    groups: Seq<Seq<RowModel<G::NodeId>>>,
    items: Seq<ItemModel>,
    i: int,
) -> Result<Seq<ProjectedModel<G::NodeId>>, ErrorModel>
    decreases groups.len() - i,
{
    if i < 0 || i >= groups.len() {
        Ok(Seq::empty())
    } else {
        match group_bindings(g, groups[i], items, 0) {
            Err(e) => Err(e),
            Ok(bindings) => prepend(
                seq![projected(g, columns_of(items), bindings)],
                grouped_rows(g, groups, items, i + 1),
            ),
        }
    }
}

/// The groups of the rows.
pub open spec fn groups_of<N>(
    rows: Seq<RowModel<N>>,
    keys: Seq<Seq<ValueModel>>,
    items: Seq<ItemModel>,
) -> Seq<Seq<RowModel<N>>> {
    let order = group_order(keys, items);
    Seq::new(order.len(), |i: int| group_rows(rows, keys, order[i]))
}

/// One projected row for each group of rows.
pub open spec fn aggregated_rows<G: GraphProvider>(
    g: &G,
    rows: Seq<RowModel<G::NodeId>>,
    items: Seq<ItemModel>,
) -> Result<Seq<ProjectedModel<G::NodeId>>, ErrorModel> {
    match group_keys(g, rows, items, 0) {
        Err(e) => Err(e),
        Ok(keys) => grouped_rows(g, groups_of(rows, keys, items), items, 0),
    }
}

// ---- The projection ----------------------------------------------------------------

/// The columns of a projection.
pub open spec fn projection_columns(p: ProjectionModel, scope: Seq<Text>) -> Seq<Text> {
    if p.star {
        scope
    } else {
        columns_of(p.items)
    }
}

/// The rows of a projection, before DISTINCT, ORDER BY, SKIP and LIMIT.
pub open spec fn projection_rows<G: GraphProvider>(
    g: &G,
    p: ProjectionModel,
    rows: Seq<RowModel<G::NodeId>>,
    scope: Seq<Text>,
) -> Result<Seq<ProjectedModel<G::NodeId>>, ErrorModel> {
    if p.star {
        if scope.len() == 0 {
            Err(failure("`*` requires at least one variable in scope"@))
        } else {
            Ok(star_rows(g, rows, scope))
        }
    } else if aggregates(p.items) {
        aggregated_rows(g, rows, p.items)
    } else {
        simple_rows(g, rows, p.items, 0)
    }
}

// ---- Executable counterparts -----------------------------------------------------

/// The models of bindings.
pub open spec fn binding_models<N>(bindings: Seq<Binding<N>>) -> Seq<BindingModel<N>> {
    Seq::new(bindings.len(), |i: int| bindings[i]@)
}

/// The models grow with the sequence.
proof fn lemma_binding_models_push<N>(bindings: Seq<Binding<N>>, b: Binding<N>)
    ensures
        binding_models(bindings.push(b)) == binding_models(bindings).push(b@),
{
    assert(binding_models(bindings.push(b)) =~= binding_models(bindings).push(b@));
}

/// Whether a result is the one that its model says.
pub open spec fn bindings_result<N>(
    r: Result<Vec<Binding<N>>, CypherError>,
    expected: Result<Seq<BindingModel<N>>, ErrorModel>,
) -> bool {
    match expected {
        Ok(bindings) => r is Ok && binding_models(r->Ok_0@) == bindings,
        Err(e) => r is Err && r->Err_0@ == e,
    }
}

/// The number of bindings is that of the items.
pub proof fn lemma_item_bindings_len<G: GraphProvider>(
    g: &G,
    row: RowModel<G::NodeId>,
    items: Seq<ItemModel>,
    i: int,
)
    requires
        0 <= i <= items.len(),
    ensures
        item_bindings(g, row, items, i) matches Ok(b) ==> b.len() == items.len() - i,
    decreases items.len() - i,
{
    if i < items.len() {
        lemma_item_bindings_len(g, row, items, i + 1);
    }
}

/// The number of bindings of a group is that of the items.
pub proof fn lemma_group_bindings_len<G: GraphProvider>(
    g: &G,
    group: Seq<RowModel<G::NodeId>>,
    items: Seq<ItemModel>,
    i: int,
)
    requires
        0 <= i <= items.len(),
    ensures
        group_bindings(g, group, items, i) matches Ok(b) ==> b.len() == items.len() - i,
    decreases items.len() - i,
{
    if i < items.len() {
        lemma_group_bindings_len(g, group, items, i + 1);
    }
}

/// Whether every row has one value for each of `n` columns.
pub open spec fn all_wide<N>(rows: Seq<ProjectedModel<N>>, n: nat) -> bool {
    forall|i: int| 0 <= i < rows.len() ==> (#[trigger] rows[i]).values.len() == n
}

/// Prepending keeps the width of the rows.
proof fn lemma_prepend_wide<N>(
    row: ProjectedModel<N>,
    rest: Seq<ProjectedModel<N>>,
    n: nat,
)
    requires
        row.values.len() == n,
        all_wide(rest, n),
    ensures
        all_wide(seq![row] + rest, n),
{
    let all = seq![row] + rest;
    assert forall|i: int| 0 <= i < all.len() implies (#[trigger] all[i]).values.len() == n by {
        if i > 0 {
            assert(all[i] == rest[i - 1]);
        }
    }
}

proof fn lemma_simple_wide<G: GraphProvider>(
    g: &G,
    rows: Seq<RowModel<G::NodeId>>,
    items: Seq<ItemModel>,
    i: int,
)
    ensures
        simple_rows(g, rows, items, i) matches Ok(out) ==> all_wide(out, items.len()),
    decreases rows.len() - i,
{
    if 0 <= i < rows.len() {
        lemma_simple_wide(g, rows, items, i + 1);
        lemma_item_bindings_len(g, rows[i], items, 0);
        if let Ok(bindings) = item_bindings(g, rows[i], items, 0) {
            if let Ok(rest) = simple_rows(g, rows, items, i + 1) {
                lemma_prepend_wide(
                    projected(g, columns_of(items), bindings),
                    rest,
                    items.len(),
                );
            }
        }
    }
}

proof fn lemma_grouped_wide<G: GraphProvider>(
    g: &G,
    groups: Seq<Seq<RowModel<G::NodeId>>>,
    items: Seq<ItemModel>,
    i: int,
)
    ensures
        grouped_rows(g, groups, items, i) matches Ok(out) ==> all_wide(out, items.len()),
    decreases groups.len() - i,
{
    if 0 <= i < groups.len() {
        lemma_grouped_wide(g, groups, items, i + 1);
        lemma_group_bindings_len(g, groups[i], items, 0);
        if let Ok(bindings) = group_bindings(g, groups[i], items, 0) {
            if let Ok(rest) = grouped_rows(g, groups, items, i + 1) {
                lemma_prepend_wide(
                    projected(g, columns_of(items), bindings),
                    rest,
                    items.len(),
                );
            }
        }
    }
}

/// A projection gives every row one value for each column.
pub proof fn lemma_projection_wide<G: GraphProvider>(
    g: &G,
    p: ProjectionModel,
    rows: Seq<RowModel<G::NodeId>>,
    scope: Seq<Text>,
)
    ensures
        projection_rows(g, p, rows, scope) matches Ok(out) ==> all_wide(
            out,
            projection_columns(p, scope).len(),
        ),
{
    lemma_simple_wide(g, rows, p.items, 0);
    if let Ok(keys) = group_keys(g, rows, p.items, 0) {
        lemma_grouped_wide(g, groups_of(rows, keys, p.items), p.items, 0);
    }
}

/// A key that does not occur has no rows.
proof fn lemma_no_rows<N>(
    rows: Seq<RowModel<N>>,
    keys: Seq<Seq<ValueModel>>,
    key: Seq<ValueModel>,
)
    requires
        !keys.contains(key),
    ensures
        group_rows(rows, keys, key).len() == 0,
    decreases keys.len(),
{
    if keys.len() > 0 {
        assert(keys[keys.len() - 1] == keys.last());
        assert forall|k: int| 0 <= k < keys.drop_last().len() implies keys.drop_last()[k]
            != key by {
            assert(keys.drop_last()[k] == keys[k]);
        }
        lemma_no_rows(rows, keys.drop_last(), key);
    }
}

/// Keys as list values.
spec fn listed(keys: Seq<Seq<ValueModel>>) -> Seq<ValueModel> {
    Seq::new(keys.len(), |i: int| ValueModel::List(keys[i]))
}

/// A list value stands among the listed keys just if its key does.
proof fn lemma_listed(keys: Seq<Seq<ValueModel>>, key: Seq<ValueModel>)
    ensures
        listed(keys).contains(ValueModel::List(key)) <==> keys.contains(key),
{
    if keys.contains(key) {
        let i = choose|i: int| 0 <= i < keys.len() && keys[i] == key;
        assert(listed(keys)[i] == ValueModel::List(key));
    }
    if listed(keys).contains(ValueModel::List(key)) {
        let i = choose|i: int|
            0 <= i < listed(keys).len() && listed(keys)[i] == ValueModel::List(key);
        assert(keys[i] == key);
    }
}

/// Whether the positions are those of the rows of the groups.
spec fn grouped_right<N>(
    rows: Seq<RowModel<N>>,
    keys: Seq<Seq<ValueModel>>,
    groups: Seq<Vec<usize>>,
) -> bool {
    &&& groups.len() == distinct(keys).len()
    &&& forall|j: int|
        0 <= j < groups.len() ==> within((#[trigger] groups[j])@, keys.len()) && picked(
            rows,
            groups[j]@,
        ) == group_rows(rows, keys, distinct(keys)[j])
}

/// One more row in the groups.
proof fn lemma_grouped_step<N>(
    rows: Seq<RowModel<N>>,
    keys: Seq<Seq<ValueModel>>,
    key: Seq<ValueModel>,
    groups: Seq<Vec<usize>>,
    after: Seq<Vec<usize>>,
    at: int,
)
    requires
        grouped_right(rows, keys, groups),
        keys.len() < rows.len(),
        keys.len() <= usize::MAX,
        0 <= at < after.len(),
        after.len() == distinct(keys.push(key)).len(),
        distinct(keys.push(key))[at] == key,
        keys.contains(key) ==> after.len() == groups.len() && after[at]@ == groups[at]@.push(
            keys.len() as usize,
        ),
        !keys.contains(key) ==> at == groups.len() && after[at]@ == seq![keys.len() as usize],
        forall|j: int| 0 <= j < groups.len() && j != at ==> after[j] == groups[j],
    ensures
        grouped_right(rows, keys.push(key), after),
{
    let more = keys.push(key);
    assert(more.drop_last() =~= keys);
    assert(more.last() == key);
    lemma_fresh_elements(more, Set::empty());
    lemma_fresh_elements(keys, Set::empty());
    let here = keys.len() as usize;
    assert forall|j: int| 0 <= j < after.len() implies within((#[trigger] after[j])@, more.len())
        && picked(rows, after[j]@) == group_rows(rows, more, distinct(more)[j]) by {
        if j == at {
            if keys.contains(key) {
                assert(distinct(keys)[j] == key);
                assert(within(groups[j]@, keys.len()));
                assert forall|i: int| 0 <= i < after[j]@.len() implies (#[trigger] after[j]@[i])
                    < more.len() by {
                    if i < groups[j]@.len() {
                        assert(groups[j]@[i] < keys.len());
                    }
                }
                assert(picked(rows, after[j]@) =~= picked(rows, groups[j]@).push(
                    rows[keys.len() as int],
                ));
            } else {
                lemma_no_rows(rows, keys, key);
                assert(picked(rows, after[j]@) =~= group_rows(rows, keys, key).push(
                    rows[keys.len() as int],
                ));
            }
        } else {
            assert(after[j] == groups[j]);
            assert(distinct(more)[j] == distinct(keys)[j]);
            assert(distinct(more)[j] != key);
            assert(within(groups[j]@, keys.len()));
            assert forall|i: int| 0 <= i < after[j]@.len() implies (#[trigger] after[j]@[i])
                < more.len() by {
                assert(groups[j]@[i] < keys.len());
            }
        }
    }
}

impl<'a, G: GraphProvider> Executor<'a, G> {
    /// Puts bindings together to a projected row.
    fn assemble_row(&self, columns: &Vec<String>, bindings: Vec<Binding<G::NodeId>>) -> (r:
        Projected<G::NodeId>)
        requires
            bindings@.len() == columns@.len(),
        ensures
            r@ == projected(self.source(), texts(columns@), binding_models(bindings@)),
    {
        let ghost g = self.source();
        let ghost all = bindings@;
        let ghost models = binding_models(all);
        let ghost names = texts(columns@);
        let mut row: Row<G::NodeId> = Row::new();
        let mut values: Vec<CypherValue> = Vec::new();
        for binding in it: bindings
            invariant
                it.seq() == all,
                all.len() == columns@.len(),
                models == binding_models(all),
                names == texts(columns@),
                g == self.source(),
                row@ == assemble(names, models, it.index() as nat),
                values@.len() == it.index(),
                forall|k: int|
                    0 <= k < values@.len() ==> (#[trigger] values@[k])@ == binding_model(
                        g,
                        models[k],
                    ),
        {
            let i: usize = values.len();
            assert(binding == all[i as int]);
            assert(models[i as int] == binding@);
            assert(names[i as int] == columns@[i as int]@);
            values.push(self.binding_value(&binding));
            row = row.with(&columns[i], binding);
        }
        assert(value_models(values@) =~= projected(g, names, models).values);
        Projected { bindings: row, values }
    }

    /// Projects rows to all variables in scope.
    fn project_star(&self, rows: &Vec<Row<G::NodeId>>, scope: &Vec<String>) -> (r: Vec<
        Projected<G::NodeId>,
    >)
        ensures
            projected_models(r@) == star_rows(self.source(), row_models(rows@), texts(scope@)),
    {
        let ghost g = self.source();
        let ghost names = texts(scope@);
        let mut out: Vec<Projected<G::NodeId>> = Vec::new();
        let mut i: usize = 0;
        while i < rows.len()
            invariant
                i <= rows@.len(),
                g == self.source(),
                names == texts(scope@),
                out@.len() == i,
                forall|k: int|
                    0 <= k < i ==> (#[trigger] out@[k])@ == projected(
                        g,
                        names,
                        star_bindings(rows@[k]@, names),
                    ),
            decreases rows@.len() - i,
        {
            let row = &rows[i];
            let mut bindings: Vec<Binding<G::NodeId>> = Vec::new();
            let mut j: usize = 0;
            while j < scope.len()
                invariant
                    j <= scope@.len(),
                    names == texts(scope@),
                    bindings@.len() == j,
                    forall|k: int|
                        0 <= k < j ==> (#[trigger] bindings@[k])@ == binding_of(row@, names[k]),
                decreases scope@.len() - j,
            {
                bindings.push(bound_or_null(row, &scope[j]));
                j += 1;
            }
            assert(binding_models(bindings@) =~= star_bindings(row@, names));
            out.push(self.assemble_row(scope, bindings));
            i += 1;
        }
        assert(projected_models(out@) =~= star_rows(g, row_models(rows@), names));
        out
    }

    /// The binding that an item makes of a row.
    fn project_binding(&mut self, row: &Row<G::NodeId>, item: &ReturnItem) -> (r: Result<
        Binding<G::NodeId>,
        CypherError,
    >)
        requires
            old(self).ok(),
        ensures
            final(self).ok(),
            final(self).source() == old(self).source(),
            match item_binding(old(self).source(), row@, item@) {
                Ok(b) => r is Ok && r->Ok_0@ == b,
                Err(e) => r is Err && r->Err_0@ == e,
            },
    {
        if let Expr::Var(name) = &item.expr {
            return Ok(bound_or_null(row, name));
        }
        match self.eval_expr(row, &item.expr, None) {
            Ok(v) => Ok(Binding::Value(v)),
            Err(e) => Err(e),
        }
    }

    /// Projects a single input row.
    fn project_one(&mut self, items: &Vec<ReturnItem>, row: &Row<G::NodeId>) -> (r: Result<
        Vec<Binding<G::NodeId>>,
        CypherError,
    >)
        requires
            old(self).ok(),
        ensures
            final(self).ok(),
            final(self).source() == old(self).source(),
            bindings_result(r, item_bindings(old(self).source(), row@, item_models(items@), 0)),
    {
        let ghost g = self.source();
        let ghost models = item_models(items@);
        let mut out: Vec<Binding<G::NodeId>> = Vec::new();
        let mut i: usize = 0;
        proof {
            lemma_prepend_nothing(binding_models(out@), item_bindings(g, row@, models, 0));
        }
        while i < items.len()
            invariant
                self.ok(),
                self.source() == g,
                old(self).source() == g,
                models == item_models(items@),
                i <= items@.len(),
                item_bindings(g, row@, models, 0) == prepend(
                    binding_models(out@),
                    item_bindings(g, row@, models, i as int),
                ),
            decreases items@.len() - i,
        {
            assert(models[i as int] == items@[i as int]@);
            match self.project_binding(row, &items[i]) {
                Ok(b) => {
                    proof {
                        lemma_binding_models_push(out@, b);
                        lemma_prepend_push(
                            binding_models(out@),
                            b@,
                            item_bindings(g, row@, models, i as int + 1),
                        );
                    }
                    out.push(b);
                },
                Err(e) => {
                    return Err(e);
                },
            }
            i += 1;
        }
        assert(binding_models(out@) + Seq::<BindingModel<G::NodeId>>::empty() =~= binding_models(
            out@,
        ));
        Ok(out)
    }

    /// Projects the rows one by one.
    fn project_simple(
        &mut self,
        items: &Vec<ReturnItem>,
        columns: &Vec<String>,
        rows: &Vec<Row<G::NodeId>>,
    ) -> (r: Result<Vec<Projected<G::NodeId>>, CypherError>)
        requires
            old(self).ok(),
            texts(columns@) == columns_of(item_models(items@)),
        ensures
            final(self).ok(),
            final(self).source() == old(self).source(),
            projected_result(
                r,
                simple_rows(old(self).source(), row_models(rows@), item_models(items@), 0),
            ),
    {
        let ghost g = self.source();
        let ghost models = item_models(items@);
        let ghost all = row_models(rows@);
        let mut out: Vec<Projected<G::NodeId>> = Vec::new();
        let mut i: usize = 0;
        assert(texts(columns@).len() == columns@.len());
        proof {
            lemma_prepend_nothing(projected_models(out@), simple_rows(g, all, models, 0));
        }
        while i < rows.len()
            invariant
                self.ok(),
                self.source() == g,
                old(self).source() == g,
                models == item_models(items@),
                all == row_models(rows@),
                texts(columns@) == columns_of(models),
                columns@.len() == models.len(),
                i <= rows@.len(),
                simple_rows(g, all, models, 0) == prepend(
                    projected_models(out@),
                    simple_rows(g, all, models, i as int),
                ),
            decreases rows@.len() - i,
        {
            assert(all[i as int] == rows@[i as int]@);
            match self.project_one(items, &rows[i]) {
                Ok(bindings) => {
                    proof {
                        lemma_item_bindings_len(g, all[i as int], models, 0);
                    }
                    let row = self.assemble_row(columns, bindings);
                    proof {
                        lemma_projected_push(out@, row);
                        lemma_prepend_push(
                            projected_models(out@),
                            row@,
                            simple_rows(g, all, models, i as int + 1),
                        );
                    }
                    out.push(row);
                },
                Err(e) => {
                    return Err(e);
                },
            }
            i += 1;
        }
        assert(projected_models(out@) + Seq::<ProjectedModel<G::NodeId>>::empty()
            =~= projected_models(out@));
        Ok(out)
    }

    /// The values of the grouping items in a row.
    fn key_of_row(&mut self, items: &Vec<ReturnItem>, row: &Row<G::NodeId>) -> (r: Result<
        Vec<CypherValue>,
        CypherError,
    >)
        requires
            old(self).ok(),
        ensures
            final(self).ok(),
            final(self).source() == old(self).source(),
            match group_key(old(self).source(), row@, item_models(items@), 0) {
                Ok(key) => r is Ok && value_models(r->Ok_0@) == key,
                Err(e) => r is Err && r->Err_0@ == e,
            },
    {
        let ghost g = self.source();
        let ghost models = item_models(items@);
        let mut key: Vec<CypherValue> = Vec::new();
        let mut i: usize = 0;
        proof {
            assert(value_models(key@) =~= Seq::empty());
            lemma_prepend_nothing(value_models(key@), group_key(g, row@, models, 0));
        }
        while i < items.len()
            invariant
                self.ok(),
                self.source() == g,
                old(self).source() == g,
                models == item_models(items@),
                i <= items@.len(),
                group_key(g, row@, models, 0) == prepend(
                    value_models(key@),
                    group_key(g, row@, models, i as int),
                ),
            decreases items@.len() - i,
        {
            assert(models[i as int] == items@[i as int]@);
            if !items[i].expr.contains_aggregate() {
                match self.eval_expr(row, &items[i].expr, None) {
                    Ok(v) => {
                        proof {
                            lemma_value_models_push(key@, v);
                            lemma_prepend_push(
                                value_models(key@),
                                v@,
                                group_key(g, row@, models, i as int + 1),
                            );
                        }
                        key.push(v);
                    },
                    Err(e) => {
                        return Err(e);
                    },
                }
            }
            i += 1;
        }
        assert(value_models(key@) + Seq::<ValueModel>::empty() =~= value_models(key@));
        Ok(key)
    }

    /// Groups the rows by the values of the grouping items: for each group, in the order of their
    /// first rows, the positions of its rows.
    fn group_members(&mut self, items: &Vec<ReturnItem>, rows: &Vec<Row<G::NodeId>>) -> (r: Result<
        Vec<Vec<usize>>,
        CypherError,
    >)
        requires
            old(self).ok(),
        ensures
            final(self).ok(),
            final(self).source() == old(self).source(),
            match group_keys(old(self).source(), row_models(rows@), item_models(items@), 0) {
                Ok(keys) => r is Ok && keys.len() == rows@.len() && grouped_right(
                    row_models(rows@),
                    keys,
                    r->Ok_0@,
                ),
                Err(e) => r is Err && r->Err_0@ == e,
            },
    {
        let ghost g = self.source();
        let ghost models = item_models(items@);
        let ghost all = row_models(rows@);
        let ghost mut keys: Seq<Seq<ValueModel>> = Seq::empty();
        let mut index = ValueIndex::new();
        let mut groups: Vec<Vec<usize>> = Vec::new();
        let mut i: usize = 0;
        proof {
            lemma_prepend_nothing(keys, group_keys(g, all, models, 0));
            assert(index@ =~= listed(distinct(keys)));
        }
        while i < rows.len()
            invariant
                self.ok(),
                self.source() == g,
                old(self).source() == g,
                models == item_models(items@),
                all == row_models(rows@),
                i <= rows@.len(),
                keys.len() == i,
                index.ok(),
                index@ == listed(distinct(keys)),
                grouped_right(all, keys, groups@),
                group_keys(g, all, models, 0) == prepend(
                    keys,
                    group_keys(g, all, models, i as int),
                ),
            decreases rows@.len() - i,
        {
            assert(all[i as int] == rows@[i as int]@);
            let values = match self.key_of_row(items, &rows[i]) {
                Ok(values) => values,
                Err(e) => {
                    return Err(e);
                },
            };
            let ghost key = value_models(values@);
            let ghost before = index@;
            let ghost old_groups = groups@;
            let at = index.add_value(CypherValue::List(values));
            proof {
                lemma_distinct_set(keys);
                assert(distinct(keys).to_set().contains(key) <==> keys.to_set().contains(key));
                lemma_listed(distinct(keys), key);
                assert(keys.push(key).drop_last() =~= keys);
                assert(index@ =~= listed(distinct(keys.push(key))));
                assert(listed(distinct(keys.push(key)))[at as int] == ValueModel::List(key));
            }
            if at < groups.len() {
                groups[at].push(i);
            } else {
                let mut first: Vec<usize> = Vec::new();
                first.push(i);
                groups.push(first);
            }
            proof {
                lemma_prepend_push(keys, key, group_keys(g, all, models, i as int + 1));
                lemma_grouped_step(all, keys, key, old_groups, groups@, at as int);
                keys = keys.push(key);
            }
            i += 1;
        }
        assert(keys + Seq::<Seq<ValueModel>>::empty() =~= keys);
        Ok(groups)
    }

    /// Projects one group of rows.
    fn project_group(
        &mut self,
        items: &Vec<ReturnItem>,
        rows: &Vec<Row<G::NodeId>>,
        members: &Vec<usize>,
    ) -> (r: Result<Vec<Binding<G::NodeId>>, CypherError>)
        requires
            old(self).ok(),
            within(members@, rows@.len()),
        ensures
            final(self).ok(),
            final(self).source() == old(self).source(),
            bindings_result(
                r,
                group_bindings(
                    old(self).source(),
                    picked(row_models(rows@), members@),
                    item_models(items@),
                    0,
                ),
            ),
    {
        let ghost g = self.source();
        let ghost models = item_models(items@);
        let ghost group = picked(row_models(rows@), members@);
        let mut out: Vec<Binding<G::NodeId>> = Vec::new();
        let mut i: usize = 0;
        proof {
            lemma_prepend_nothing(binding_models(out@), group_bindings(g, group, models, 0));
        }
        while i < items.len()
            invariant
                self.ok(),
                self.source() == g,
                old(self).source() == g,
                within(members@, rows@.len()),
                models == item_models(items@),
                group == picked(row_models(rows@), members@),
                i <= items@.len(),
                group_bindings(g, group, models, 0) == prepend(
                    binding_models(out@),
                    group_bindings(g, group, models, i as int),
                ),
            decreases items@.len() - i,
        {
            let item = &items[i];
            assert(models[i as int] == item@);
            let binding = if item.expr.contains_aggregate() {
                match self.eval_aggregate(&item.expr, rows, members) {
                    Ok(v) => Binding::Value(v),
                    Err(e) => {
                        return Err(e);
                    },
                }
            } else if members.len() > 0 {
                // Preserve the grouping item's binding (e.g. node identity).
                assert(members@[0] < rows@.len());
                assert(group[0] == rows@[members@[0] as int]@);
                match self.project_binding(&rows[members[0]], item) {
                    Ok(b) => b,
                    Err(e) => {
                        return Err(e);
                    },
                }
            } else {
                Binding::Value(CypherValue::Null)
            };
            proof {
                lemma_binding_models_push(out@, binding);
                lemma_prepend_push(
                    binding_models(out@),
                    binding@,
                    group_bindings(g, group, models, i as int + 1),
                );
            }
            out.push(binding);
            i += 1;
        }
        assert(binding_models(out@) + Seq::<BindingModel<G::NodeId>>::empty() =~= binding_models(
            out@,
        ));
        Ok(out)
    }

    /// Projects the rows group by group.
    fn project_aggregated(
        &mut self,
        items: &Vec<ReturnItem>,
        columns: &Vec<String>,
        rows: &Vec<Row<G::NodeId>>,
    ) -> (r: Result<Vec<Projected<G::NodeId>>, CypherError>)
        requires
            old(self).ok(),
            texts(columns@) == columns_of(item_models(items@)),
        ensures
            final(self).ok(),
            final(self).source() == old(self).source(),
            projected_result(
                r,
                aggregated_rows(old(self).source(), row_models(rows@), item_models(items@)),
            ),
    {
        let ghost g = self.source();
        let ghost models = item_models(items@);
        let ghost all = row_models(rows@);
        let mut members = match self.group_members(items, rows) {
            Ok(members) => members,
            Err(e) => {
                return Err(e);
            },
        };
        let ghost keys = group_keys(g, all, models, 0)->Ok_0;
        let ghost groups = groups_of(all, keys, models);
        proof {
            lemma_distinct_set(keys);
            if rows@.len() > 0 {
                assert(keys.to_set().contains(keys[0]));
                assert(distinct(keys).contains(keys[0]));
            }
        }
        // With no grouping keys and no input rows, aggregates still produce a single row.
        if members.len() == 0 && !has_grouping(items) {
            assert(keys.len() == 0);
            members.push(Vec::new());
            assert(picked(all, members@[0]@) =~= groups[0]);
        }
        assert(members@.len() == groups.len());
        assert forall|j: int| 0 <= j < groups.len() implies within(
            (#[trigger] members@[j])@,
            rows@.len(),
        ) && picked(all, members@[j]@) == groups[j] by {}
        let mut out: Vec<Projected<G::NodeId>> = Vec::new();
        let mut i: usize = 0;
        assert(texts(columns@).len() == columns@.len());
        proof {
            lemma_prepend_nothing(projected_models(out@), grouped_rows(g, groups, models, 0));
        }
        while i < members.len()
            invariant
                self.ok(),
                self.source() == g,
                old(self).source() == g,
                models == item_models(items@),
                all == row_models(rows@),
                texts(columns@) == columns_of(models),
                columns@.len() == models.len(),
                members@.len() == groups.len(),
                forall|j: int|
                    0 <= j < groups.len() ==> within((#[trigger] members@[j])@, rows@.len())
                        && picked(all, members@[j]@) == groups[j],
                aggregated_rows(g, all, models) == grouped_rows(g, groups, models, 0),
                i <= members@.len(),
                grouped_rows(g, groups, models, 0) == prepend(
                    projected_models(out@),
                    grouped_rows(g, groups, models, i as int),
                ),
            decreases members@.len() - i,
        {
            match self.project_group(items, rows, &members[i]) {
                Ok(bindings) => {
                    proof {
                        lemma_group_bindings_len(g, groups[i as int], models, 0);
                    }
                    let row = self.assemble_row(columns, bindings);
                    proof {
                        lemma_projected_push(out@, row);
                        lemma_prepend_push(
                            projected_models(out@),
                            row@,
                            grouped_rows(g, groups, models, i as int + 1),
                        );
                    }
                    out.push(row);
                },
                Err(e) => {
                    return Err(e);
                },
            }
            i += 1;
        }
        assert(projected_models(out@) + Seq::<ProjectedModel<G::NodeId>>::empty()
            =~= projected_models(out@));
        Ok(out)
    }

    /// Projects the current rows through a `WITH` or `RETURN` projection, returning the output
    /// column names and one [`Projected`] per output row (bindings + aligned display values).
    /// Does not apply DISTINCT / ORDER BY / SKIP / LIMIT.
    pub fn project_rows(
        &mut self,
        projection: &Projection,
        rows: &Vec<Row<G::NodeId>>,
        scope: &Vec<String>,
    ) -> (r: Result<(Vec<String>, Vec<Projected<G::NodeId>>), CypherError>)
        requires
            old(self).ok(),
        ensures
            final(self).ok(),
            final(self).source() == old(self).source(),
            match projection_rows(
                old(self).source(),
                projection@,
                row_models(rows@),
                texts(scope@),
            ) {
                Ok(out) => r is Ok && projected_models(r->Ok_0.1@) == out && texts(r->Ok_0.0@)
                    == projection_columns(projection@, texts(scope@)),
                Err(e) => r is Err && r->Err_0@ == e,
            },
    {
        if projection.star {
            if scope.len() == 0 {
                return Err(CypherError::execution("`*` requires at least one variable in scope"));
            }
            let out = self.project_star(rows, scope);
            return Ok((clone_strings(scope), out));
        }
        let columns = projection.column_names();
        let out = if projection.has_aggregate() {
            self.project_aggregated(&projection.items, &columns, rows)
        } else {
            self.project_simple(&projection.items, &columns, rows)
        };
        match out {
            Ok(out) => Ok((columns, out)),
            Err(e) => Err(e),
        }
    }
}

/// A copy of the binding of a variable; an unbound variable is null.
fn bound_or_null<N: Copy>(row: &Row<N>, name: &String) -> (r: Binding<N>)
    ensures
        r@ == binding_of(row@, name@),
{
    match row.get(name) {
        Some(binding) => binding.copy(),
        None => Binding::Value(CypherValue::Null),
    }
}

/// Whether there is a grouping item.
fn has_grouping(items: &Vec<ReturnItem>) -> (r: bool)
    ensures
        r == groups_by(item_models(items@)),
{
    let ghost models = item_models(items@);
    let mut i: usize = 0;
    while i < items.len()
        invariant
            i <= items@.len(),
            models == item_models(items@),
            forall|k: int| 0 <= k < i ==> has_aggregate((#[trigger] models[k]).expr),
        decreases items@.len() - i,
    {
        if !items[i].expr.contains_aggregate() {
            assert(!has_aggregate(models[i as int].expr));
            return true;
        }
        i += 1;
    }
    false
}

/// Without grouping items, aggregates over no rows still give one row.
pub proof fn lemma_empty_input_gives_one_row<G: GraphProvider>(g: &G, items: Seq<ItemModel>)
    requires
        !groups_by(items),
    ensures
        aggregated_rows(g, Seq::empty(), items) matches Ok(out) ==> out.len() == 1,
{
    let rows = Seq::<RowModel<G::NodeId>>::empty();
    let keys = Seq::<Seq<ValueModel>>::empty();
    let groups = groups_of(rows, keys, items);
    assert(groups.len() == 1);
    assert(grouped_rows(g, groups, items, 1) == Ok::<
        Seq<ProjectedModel<G::NodeId>>,
        ErrorModel,
    >(Seq::empty()));
    assert(aggregated_rows(g, rows, items) == grouped_rows(g, groups, items, 0));
}

} // verus!
