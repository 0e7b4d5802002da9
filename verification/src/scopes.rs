//! Laws of scope: every variable that a row binds is in scope.

use vstd::prelude::*;

use crate::ast::{ClauseModel, ExprModel, NodePatternModel, PathModel, RelPatternModel};
use crate::eval::{eval, filter_from};
use crate::executor::{
    clause_rows, clause_scope, left_join, lemma_optional_joins, new_names, new_to, optional_matches,
    optional_rows, output_bindings, projection_output, unwind_rows, unwound, with_nulls,
};
use crate::finalize::{finalized, lemma_finalized_rows, ProjectedModel};
use crate::paths::lemma_reversed_node;
use crate::pattern::{
    add_hops, add_name, add_path, add_paths, arrive, begin, begin_all, candidates, hop_all,
    keep_all, match_path, match_paths, path_node, planned, resolve_types, reversed, targets, walk,
    walker_rows, Keep, Walker,
};
use crate::project::{
    assemble, group_bindings, grouped_rows, groups_of, item_bindings, lemma_group_bindings_len,
    lemma_item_bindings_len, projected, projection_columns, projection_rows, simple_rows,
};
use crate::naming::columns_of;
use crate::provider::GraphProvider;
use crate::row::{BindingModel, RowModel};
use crate::seqs::lemma_push_contains;
use crate::text::Text;
use crate::value::ValueModel;

verus! {

/// Whether a row binds nothing but the names.
pub open spec fn row_within<N>(row: RowModel<N>, names: Set<Text>) -> bool {
    forall|name: Text| #[trigger] row.contains_key(name) ==> names.contains(name)
}

/// Whether the rows bind nothing but the names.
pub open spec fn rows_within<N>(rows: Seq<RowModel<N>>, names: Set<Text>) -> bool {
    forall|k: int| 0 <= k < rows.len() ==> row_within(#[trigger] rows[k], names)
}

/// Whether the rows of the walkers bind nothing but the names.
spec fn walkers_within<N>(walkers: Seq<Walker<N>>, names: Set<Text>) -> bool {
    forall|k: int| 0 <= k < walkers.len() ==> row_within((#[trigger] walkers[k]).0, names)
}

/// Whether the variable of a pattern, if there is one, is among the names.
spec fn covers_var(names: Set<Text>, var: Option<Text>) -> bool {
    var matches Some(name) ==> names.contains(name)
}

/// Whether the variables of a path are among the names.
spec fn covers(names: Set<Text>, path: PathModel) -> bool {
    forall|i: int|
        #![trigger path_node(path, i)]
        0 <= i <= path.rest.len() ==> covers_var(names, path_node(path, i).var)
}

proof fn lemma_begin_within<N>(row: RowModel<N>, var: Option<Text>, nodes: Seq<N>, names: Set<Text>)
    requires
        row_within(row, names),
        covers_var(names, var),
    ensures
        walkers_within(begin(row, var, nodes), names),
    decreases nodes.len(),
{
    if nodes.len() > 0 {
        lemma_begin_within(row, var, nodes.drop_last(), names);
    }
}

proof fn lemma_walkers_concat_within<N>(a: Seq<Walker<N>>, b: Seq<Walker<N>>, names: Set<Text>)
    requires
        walkers_within(a, names),
        walkers_within(b, names),
    ensures
        walkers_within(a + b, names),
{
    assert forall|k: int| 0 <= k < (a + b).len() implies row_within(
        (#[trigger] (a + b)[k]).0,
        names,
    ) by {
        if k < a.len() {
            assert((a + b)[k] == a[k]);
        } else {
            assert((a + b)[k] == b[k - a.len()]);
        }
    }
}

proof fn lemma_begin_all_within<G: GraphProvider>(
    g: &G,
    base: Seq<RowModel<G::NodeId>>,
    p: NodePatternModel,
    keep: Keep<G::NodeId>,
    names: Set<Text>,
)
    requires
        rows_within(base, names),
        covers_var(names, p.var),
    ensures
        walkers_within(begin_all(g, base, p, keep), names),
    decreases base.len(),
{
    if base.len() > 0 {
        let init = base.drop_last();
        let last = base.last();
        assert forall|k: int| 0 <= k < init.len() implies row_within(#[trigger] init[k], names) by {
            assert(init[k] == base[k]);
        }
        assert(base[base.len() - 1] == last);
        lemma_begin_all_within(g, init, p, keep, names);
        lemma_begin_within(last, p.var, candidates(g, last, p, keep), names);
        lemma_walkers_concat_within(
            begin_all(g, init, p, keep),
            begin(last, p.var, candidates(g, last, p, keep)),
            names,
        );
    }
}

proof fn lemma_arrive_within<G: GraphProvider>(
    g: &G,
    row: RowModel<G::NodeId>,
    p: NodePatternModel,
    keep: Keep<G::NodeId>,
    nodes: Seq<G::NodeId>,
    names: Set<Text>,
)
    requires
        row_within(row, names),
        covers_var(names, p.var),
    ensures
        walkers_within(arrive(g, row, p, keep, nodes), names),
    decreases nodes.len(),
{
    if nodes.len() > 0 {
        lemma_arrive_within(g, row, p, keep, nodes.drop_last(), names);
    }
}

proof fn lemma_hop_all_within<G: GraphProvider>(
    g: &G,
    walkers: Seq<Walker<G::NodeId>>,
    types: Seq<Text>,
    rel: RelPatternModel,
    p: NodePatternModel,
    keep: Keep<G::NodeId>,
    names: Set<Text>,
)
    requires
        walkers_within(walkers, names),
        covers_var(names, p.var),
    ensures
        walkers_within(hop_all(g, walkers, types, rel, p, keep), names),
    decreases walkers.len(),
{
    if walkers.len() > 0 {
        let init = walkers.drop_last();
        let last = walkers.last();
        assert forall|k: int| 0 <= k < init.len() implies row_within(
            (#[trigger] init[k]).0,
            names,
        ) by {
            assert(init[k] == walkers[k]);
        }
        assert(walkers[walkers.len() - 1] == last);
        lemma_hop_all_within(g, init, types, rel, p, keep, names);
        let nodes = targets(g, last.1, types, rel.direction, rel.length);
        lemma_arrive_within(g, last.0, p, keep, nodes, names);
        lemma_walkers_concat_within(
            hop_all(g, init, types, rel, p, keep),
            arrive(g, last.0, p, keep, nodes),
            names,
        );
    }
}

proof fn lemma_walk_within<G: GraphProvider>(
    g: &G,
    walkers: Seq<Walker<G::NodeId>>,
    path: PathModel,
    i: int,
    keep: Keep<G::NodeId>,
    names: Set<Text>,
)
    requires
        walkers_within(walkers, names),
        covers(names, path),
        0 <= i,
    ensures
        walk(g, walkers, path.rest, i, keep) matches Ok(out) ==> walkers_within(out, names),
    decreases path.rest.len() - i,
{
    if i < path.rest.len() {
        if let Ok(types) = resolve_types(g, path.rest[i].0.types) {
            assert(path_node(path, i + 1) == path.rest[i].1);
            lemma_hop_all_within(
                g,
                walkers,
                types,
                path.rest[i].0,
                path.rest[i].1,
                keep,
                names,
            );
            lemma_walk_within(
                g,
                hop_all(g, walkers, types, path.rest[i].0, path.rest[i].1, keep),
                path,
                i + 1,
                keep,
                names,
            );
        }
    }
}

proof fn lemma_match_path_within<G: GraphProvider>(
    g: &G,
    base: Seq<RowModel<G::NodeId>>,
    path: PathModel,
    keep: Keep<G::NodeId>,
    names: Set<Text>,
)
    requires
        rows_within(base, names),
        covers(names, path),
    ensures
        match_path(g, base, path, keep) matches Ok(out) ==> rows_within(out, names),
{
    let plan = planned(path, base);
    assert(covers(names, plan)) by {
        assert forall|i: int|
            #![trigger path_node(plan, i)]
            0 <= i <= plan.rest.len() implies covers_var(names, path_node(plan, i).var) by {
            if plan == reversed(path) {
                lemma_reversed_node(path, i);
                assert(covers_var(names, path_node(path, path.rest.len() - i).var));
            }
        }
    }
    assert(path_node(plan, 0) == plan.start);
    lemma_begin_all_within(g, base, plan.start, keep, names);
    lemma_walk_within(g, begin_all(g, base, plan.start, keep), plan, 0, keep, names);
    if let Ok(walkers) = walk(
        g,
        begin_all(g, base, plan.start, keep),
        plan.rest,
        0,
        keep,
    ) {
        let out = walker_rows(walkers);
        assert forall|k: int| 0 <= k < out.len() implies row_within(#[trigger] out[k], names) by {
            assert(out[k] == walkers[k].0);
        }
    }
}

proof fn lemma_match_paths_within<G: GraphProvider>(
    g: &G,
    base: Seq<RowModel<G::NodeId>>,
    paths: Seq<PathModel>,
    i: int,
    keep: Keep<G::NodeId>,
    names: Set<Text>,
)
    requires
        rows_within(base, names),
        forall|k: int| 0 <= k < paths.len() ==> covers(names, #[trigger] paths[k]),
        0 <= i,
    ensures
        match_paths(g, base, paths, i, keep) matches Ok(out) ==> rows_within(out, names),
    decreases paths.len() - i,
{
    if i < paths.len() {
        lemma_match_path_within(g, base, paths[i], keep, names);
        if let Ok(rows) = match_path(g, base, paths[i], keep) {
            lemma_match_paths_within(g, rows, paths, i + 1, keep, names);
        }
    }
}

// ---- What patterns add to the scope ------------------------------------------------

proof fn lemma_add_name(scope: Seq<Text>, var: Option<Text>, name: Text)
    ensures
        add_name(scope, var).contains(name) <==> scope.contains(name) || var == Some(name),
{
    if let Some(n) = var {
        if !scope.contains(n) {
            lemma_push_contains(scope, n, name);
        }
    }
}

proof fn lemma_add_hops(
    scope: Seq<Text>,
    hops: Seq<(RelPatternModel, NodePatternModel)>,
    n: nat,
    name: Text,
)
    requires
        n <= hops.len(),
    ensures
        scope.contains(name) ==> add_hops(scope, hops, n).contains(name),
        forall|k: int|
            0 <= k < n && (#[trigger] hops[k]).1.var == Some(name) ==> add_hops(
                scope,
                hops,
                n,
            ).contains(name),
    decreases n,
{
    if n > 0 {
        lemma_add_hops(scope, hops, (n - 1) as nat, name);
        lemma_add_name(add_hops(scope, hops, (n - 1) as nat), hops[n - 1].1.var, name);
    }
}

proof fn lemma_add_path(scope: Seq<Text>, path: PathModel)
    ensures
        forall|name: Text| scope.contains(name) ==> #[trigger] add_path(scope, path).contains(name),
        covers(add_path(scope, path).to_set(), path),
{
    let start = add_name(scope, path.start.var);
    let all = add_path(scope, path);
    assert forall|name: Text| scope.contains(name) implies #[trigger] all.contains(name) by {
        lemma_add_name(scope, path.start.var, name);
        lemma_add_hops(start, path.rest, path.rest.len(), name);
    }
    assert forall|i: int|
        #![trigger path_node(path, i)]
        0 <= i <= path.rest.len() implies covers_var(all.to_set(), path_node(path, i).var) by {
        if let Some(name) = path_node(path, i).var {
            lemma_add_name(scope, path.start.var, name);
            lemma_add_hops(start, path.rest, path.rest.len(), name);
            if i > 0 {
                assert(path.rest[i - 1].1.var == Some(name));
            }
        }
    }
}

proof fn lemma_add_paths(scope: Seq<Text>, paths: Seq<PathModel>, n: nat)
    requires
        n <= paths.len(),
    ensures
        forall|name: Text|
            scope.contains(name) ==> #[trigger] add_paths(scope, paths, n).contains(name),
        forall|k: int|
            0 <= k < n ==> covers(add_paths(scope, paths, n).to_set(), #[trigger] paths[k]),
    decreases n,
{
    if n > 0 {
        let before = add_paths(scope, paths, (n - 1) as nat);
        let all = add_paths(scope, paths, n);
        lemma_add_paths(scope, paths, (n - 1) as nat);
        lemma_add_path(before, paths[n - 1]);
        assert forall|name: Text| scope.contains(name) implies #[trigger] all.contains(name) by {
            assert(before.contains(name));
        }
        assert forall|k: int| 0 <= k < n implies covers(all.to_set(), #[trigger] paths[k]) by {
            if k < n - 1 {
                assert(covers(before.to_set(), paths[k]));
                assert forall|i: int|
                    #![trigger path_node(paths[k], i)]
                    0 <= i <= paths[k].rest.len() implies covers_var(
                    all.to_set(),
                    path_node(paths[k], i).var,
                ) by {
                    if let Some(name) = path_node(paths[k], i).var {
                        assert(before.to_set().contains(name));
                        assert(before.contains(name));
                        assert(all.contains(name));
                    }
                }
            }
        }
    }
}

proof fn lemma_wider<N>(rows: Seq<RowModel<N>>, names: Set<Text>, more: Set<Text>)
    requires
        rows_within(rows, names),
        names.subset_of(more),
    ensures
        rows_within(rows, more),
{
    assert forall|k: int| 0 <= k < rows.len() implies row_within(#[trigger] rows[k], more) by {
        assert(row_within(rows[k], names));
    }
}

/// Patterns bind nothing that they do not add to the scope.
pub proof fn lemma_match_scope<G: GraphProvider>(
    g: &G,
    rows: Seq<RowModel<G::NodeId>>,
    scope: Seq<Text>,
    paths: Seq<PathModel>,
    keep: Keep<G::NodeId>,
)
    requires
        rows_within(rows, scope.to_set()),
    ensures
        match_paths(g, rows, paths, 0, keep) matches Ok(out) ==> rows_within(
            out,
            add_paths(scope, paths, paths.len()).to_set(),
        ),
{
    let all = add_paths(scope, paths, paths.len());
    lemma_add_paths(scope, paths, paths.len());
    assert forall|name: Text| scope.to_set().contains(name) implies all.to_set().contains(name) by {
        assert(scope.contains(name));
        assert(all.contains(name));
    }
    lemma_wider(rows, scope.to_set(), all.to_set());
    lemma_match_paths_within(g, rows, paths, 0, keep, all.to_set());
}

/// Filtering binds nothing.
pub proof fn lemma_filter_within<G: GraphProvider>(
    g: &G,
    rows: Seq<RowModel<G::NodeId>>,
    predicate: ExprModel,
    i: int,
    names: Set<Text>,
)
    requires
        rows_within(rows, names),
        0 <= i,
    ensures
        filter_from(g, rows, predicate, i) matches Ok(out) ==> rows_within(out, names),
    decreases rows.len() - i,
{
    if i < rows.len() {
        lemma_filter_within(g, rows, predicate, i + 1, names);
        if let Ok(rest) = filter_from(g, rows, predicate, i + 1) {
            let more = seq![rows[i]] + rest;
            assert forall|k: int| 0 <= k < more.len() implies row_within(
                #[trigger] more[k],
                names,
            ) by {
                if k == 0 {
                    assert(row_within(rows[i], names));
                } else {
                    assert(more[k] == rest[k - 1]);
                }
            }
        }
    }
}

// ---- The other clauses -------------------------------------------------------------

proof fn lemma_nulls_within<N>(row: RowModel<N>, nulls: Seq<Text>, names: Set<Text>)
    requires
        row_within(row, names),
        forall|i: int| 0 <= i < nulls.len() ==> names.contains(#[trigger] nulls[i]),
    ensures
        row_within(with_nulls(row, nulls), names),
    decreases nulls.len(),
{
    if nulls.len() > 0 {
        assert forall|i: int| 0 <= i < nulls.drop_last().len() implies names.contains(
            #[trigger] nulls.drop_last()[i],
        ) by {
            assert(nulls.drop_last()[i] == nulls[i]);
        }
        lemma_nulls_within(row, nulls.drop_last(), names);
        assert(nulls[nulls.len() - 1] == nulls.last());
    }
}

proof fn lemma_names_outside(names: Seq<Text>, scope: Seq<Text>)
    ensures
        forall|name: Text| #[trigger]
            crate::executor::names_outside(names, scope).contains(name) <==> names.contains(name)
                && !scope.contains(name),
    decreases names.len(),
{
    if names.len() > 0 {
        let init = names.drop_last();
        lemma_names_outside(init, scope);
        assert(names =~= init.push(names.last()));
        assert forall|name: Text| #[trigger]
            crate::executor::names_outside(names, scope).contains(name) <==> names.contains(name)
                && !scope.contains(name) by {
            lemma_push_contains(init, names.last(), name);
            lemma_push_contains(
                crate::executor::names_outside(init, scope),
                names.last(),
                name,
            );
        }
    }
}

/// What patterns add to a scope does not depend on what else is in it.
proof fn lemma_add_paths_grows(a: Seq<Text>, b: Seq<Text>, paths: Seq<PathModel>, n: nat)
    requires
        n <= paths.len(),
        forall|name: Text| a.contains(name) ==> #[trigger] b.contains(name),
    ensures
        forall|name: Text|
            add_paths(a, paths, n).contains(name) ==> #[trigger] add_paths(b, paths, n).contains(
                name,
            ),
    decreases n,
{
    if n > 0 {
        lemma_add_paths_grows(a, b, paths, (n - 1) as nat);
        let path = paths[n - 1];
        let x = add_paths(a, paths, (n - 1) as nat);
        let y = add_paths(b, paths, (n - 1) as nat);
        assert forall|name: Text| add_path(x, path).contains(name) implies #[trigger] add_path(
            y,
            path,
        ).contains(name) by {
            lemma_add_path_grows(x, y, path, name);
        }
    }
}

proof fn lemma_add_path_grows(x: Seq<Text>, y: Seq<Text>, path: PathModel, name: Text)
    requires
        forall|name: Text| x.contains(name) ==> #[trigger] y.contains(name),
        add_path(x, path).contains(name),
    ensures
        add_path(y, path).contains(name),
{
    let s = add_name(x, path.start.var);
    let t = add_name(y, path.start.var);
    assert forall|n: Text| s.contains(n) implies #[trigger] t.contains(n) by {
        lemma_add_name(x, path.start.var, n);
        lemma_add_name(y, path.start.var, n);
        if x.contains(n) {
            assert(y.contains(n));
        }
    }
    lemma_add_hops_grows(s, t, path.rest, path.rest.len(), name);
}

proof fn lemma_add_hops_grows(
    s: Seq<Text>,
    t: Seq<Text>,
    hops: Seq<(RelPatternModel, NodePatternModel)>,
    n: nat,
    name: Text,
)
    requires
        n <= hops.len(),
        forall|name: Text| s.contains(name) ==> #[trigger] t.contains(name),
        add_hops(s, hops, n).contains(name),
    ensures
        add_hops(t, hops, n).contains(name),
    decreases n,
{
    if n == 0 {
        assert(t.contains(name));
    } else {
        let x = add_hops(s, hops, (n - 1) as nat);
        let y = add_hops(t, hops, (n - 1) as nat);
        lemma_add_name(x, hops[n - 1].1.var, name);
        lemma_add_name(y, hops[n - 1].1.var, name);
        if x.contains(name) {
            lemma_add_hops_grows(s, t, hops, (n - 1) as nat, name);
        }
    }
}

/// The variables that an `OPTIONAL MATCH` may null are new, and it adds them to the scope.
pub proof fn lemma_new_names(paths: Seq<PathModel>, scope: Seq<Text>)
    ensures
        forall|i: int|
            0 <= i < new_names(paths, scope).len() ==> !scope.contains(
                #[trigger] new_names(paths, scope)[i],
            ) && add_paths(scope, paths, paths.len()).contains(new_names(paths, scope)[i]),
{
    let none = Seq::<Text>::empty();
    let all = add_paths(none, paths, paths.len());
    let fresh = new_names(paths, scope);
    lemma_names_outside(all, scope);
    lemma_add_paths_grows(none, scope, paths, paths.len());
    assert forall|i: int| 0 <= i < fresh.len() implies !scope.contains(#[trigger] fresh[i])
        && add_paths(scope, paths, paths.len()).contains(fresh[i]) by {
        assert(fresh.contains(fresh[i]));
        assert(all.contains(fresh[i]));
    }
}

proof fn lemma_optional_within<G: GraphProvider>(
    g: &G,
    rows: Seq<RowModel<G::NodeId>>,
    scope: Seq<Text>,
    paths: Seq<PathModel>,
    where_clause: Option<ExprModel>,
    i: int,
)
    requires
        rows_within(rows, scope.to_set()),
        0 <= i,
    ensures
        optional_rows(g, rows, paths, where_clause, new_names(paths, scope), i) matches Ok(out)
            ==> rows_within(out, add_paths(scope, paths, paths.len()).to_set()),
    decreases rows.len() - i,
{
    let nulls = new_names(paths, scope);
    let names = add_paths(scope, paths, paths.len()).to_set();
    if i < rows.len() {
        lemma_optional_within(g, rows, scope, paths, where_clause, i + 1);
        if let Ok(out) = optional_rows(g, rows, paths, where_clause, nulls, i) {
            let matched = optional_matches(g, rows[i], paths, where_clause)->Ok_0;
            let rest = optional_rows(g, rows, paths, where_clause, nulls, i + 1)->Ok_0;
            let one = seq![rows[i]];
            assert(rows_within(one, scope.to_set())) by {
                assert(row_within(rows[i], scope.to_set()));
            }
            lemma_match_scope(g, one, scope, paths, keep_all());
            if let Some(predicate) = where_clause {
                let found = match_paths(g, one, paths, 0, keep_all())->Ok_0;
                lemma_filter_within(g, found, predicate, 0, names);
            }
            let here = if matched.len() == 0 {
                seq![with_nulls(rows[i], nulls)]
            } else {
                matched
            };
            assert(rows_within(here, names)) by {
                lemma_new_names(paths, scope);
                lemma_add_paths(scope, paths, paths.len());
                assert(row_within(rows[i], scope.to_set()));
                assert forall|name: Text| #[trigger] rows[i].contains_key(name) implies
                    names.contains(name) by {
                    assert(scope.to_set().contains(name));
                    assert(scope.contains(name));
                    assert(add_paths(scope, paths, paths.len()).contains(name));
                }
                lemma_nulls_within(rows[i], nulls, names);
            }
            assert(out =~= here + rest);
            assert forall|k: int| 0 <= k < out.len() implies row_within(
                #[trigger] out[k],
                names,
            ) by {
                if k < here.len() {
                    assert(out[k] == here[k]);
                } else {
                    assert(out[k] == rest[k - here.len()]);
                }
            }
        }
    }
}

proof fn lemma_unwind_within<G: GraphProvider>(
    g: &G,
    rows: Seq<RowModel<G::NodeId>>,
    e: ExprModel,
    var: Text,
    i: int,
    names: Set<Text>,
)
    requires
        rows_within(rows, names),
        names.contains(var),
        0 <= i,
    ensures
        unwind_rows(g, rows, e, var, i) matches Ok(out) ==> rows_within(out, names),
    decreases rows.len() - i,
{
    if i < rows.len() {
        lemma_unwind_within(g, rows, e, var, i + 1, names);
        if let Ok(out) = unwind_rows(g, rows, e, var, i) {
            if let Ok(ValueModel::List(items)) = eval(g, rows[i], e) {
                let here = unwound(rows[i], var, items);
                let rest = unwind_rows(g, rows, e, var, i + 1)->Ok_0;
                assert(out =~= here + rest);
                assert forall|k: int| 0 <= k < out.len() implies row_within(
                    #[trigger] out[k],
                    names,
                ) by {
                    if k < here.len() {
                        assert(row_within(rows[i], names));
                        assert(out[k] == here[k]);
                    } else {
                        assert(out[k] == rest[k - here.len()]);
                    }
                }
            }
        }
    }
}

proof fn lemma_assemble_within<N>(columns: Seq<Text>, bindings: Seq<BindingModel<N>>, n: nat)
    requires
        n <= columns.len(),
    ensures
        row_within(assemble(columns, bindings, n), columns.to_set()),
    decreases n,
{
    if n > 0 {
        lemma_assemble_within(columns, bindings, (n - 1) as nat);
        assert(columns.contains(columns[n - 1]));
    }
}

/// Whether the bindings of projected rows are named by the columns.
spec fn outputs_within<N>(rows: Seq<ProjectedModel<N>>, columns: Seq<Text>) -> bool {
    forall|k: int|
        0 <= k < rows.len() ==> row_within((#[trigger] rows[k]).bindings, columns.to_set())
}

proof fn lemma_simple_within<G: GraphProvider>(
    g: &G,
    rows: Seq<RowModel<G::NodeId>>,
    items: Seq<crate::ast::ItemModel>,
    i: int,
)
    requires
        0 <= i,
    ensures
        simple_rows(g, rows, items, i) matches Ok(out) ==> outputs_within(out, columns_of(items)),
    decreases rows.len() - i,
{
    if i < rows.len() {
        lemma_simple_within(g, rows, items, i + 1);
        lemma_item_bindings_len(g, rows[i], items, 0);
        if let Ok(out) = simple_rows(g, rows, items, i) {
            let bindings = item_bindings(g, rows[i], items, 0)->Ok_0;
            let rest = simple_rows(g, rows, items, i + 1)->Ok_0;
            lemma_assemble_within(columns_of(items), bindings, bindings.len());
            let first = projected(g, columns_of(items), bindings);
            assert(out =~= seq![first] + rest);
            assert forall|k: int| 0 <= k < out.len() implies row_within(
                (#[trigger] out[k]).bindings,
                columns_of(items).to_set(),
            ) by {
                if k > 0 {
                    assert(out[k] == rest[k - 1]);
                }
            }
        }
    }
}

proof fn lemma_grouped_within<G: GraphProvider>(
    g: &G,
    groups: Seq<Seq<RowModel<G::NodeId>>>,
    items: Seq<crate::ast::ItemModel>,
    i: int,
)
    requires
        0 <= i,
    ensures
        grouped_rows(g, groups, items, i) matches Ok(out) ==> outputs_within(
            out,
            columns_of(items),
        ),
    decreases groups.len() - i,
{
    if i < groups.len() {
        lemma_grouped_within(g, groups, items, i + 1);
        lemma_group_bindings_len(g, groups[i], items, 0);
        if let Ok(out) = grouped_rows(g, groups, items, i) {
            let bindings = group_bindings(g, groups[i], items, 0)->Ok_0;
            let rest = grouped_rows(g, groups, items, i + 1)->Ok_0;
            lemma_assemble_within(columns_of(items), bindings, bindings.len());
            let first = projected(g, columns_of(items), bindings);
            assert(out =~= seq![first] + rest);
            assert forall|k: int| 0 <= k < out.len() implies row_within(
                (#[trigger] out[k]).bindings,
                columns_of(items).to_set(),
            ) by {
                if k > 0 {
                    assert(out[k] == rest[k - 1]);
                }
            }
        }
    }
}

proof fn lemma_projection_within<G: GraphProvider>(
    g: &G,
    p: crate::ast::ProjectionModel,
    rows: Seq<RowModel<G::NodeId>>,
    scope: Seq<Text>,
)
    ensures
        projection_output(g, p, rows, scope) matches Ok(out) ==> outputs_within(
            out,
            projection_columns(p, scope),
        ),
{
    let columns = projection_columns(p, scope);
    lemma_simple_within(g, rows, p.items, 0);
    if let Ok(keys) = crate::project::group_keys(g, rows, p.items, 0) {
        lemma_grouped_within(g, groups_of(rows, keys, p.items), p.items, 0);
    }
    if let Ok(all) = projection_rows(g, p, rows, scope) {
        if p.star {
            assert forall|k: int| 0 <= k < all.len() implies row_within(
                (#[trigger] all[k]).bindings,
                columns.to_set(),
            ) by {
                lemma_assemble_within(
                    columns,
                    crate::project::star_bindings(rows[k], scope),
                    scope.len(),
                );
            }
        }
        assert(outputs_within(all, columns));
        lemma_finalized_rows(p, columns, all);
        if let Ok(out) = finalized(p, columns, all) {
            assert forall|k: int| 0 <= k < out.len() implies row_within(
                (#[trigger] out[k]).bindings,
                columns.to_set(),
            ) by {
                let j = choose|j: int| 0 <= j < all.len() && all[j] == out[k];
                assert(row_within(all[j].bindings, columns.to_set()));
            }
        }
    }
}

/// Every variable that a row binds is in scope: if this holds before a clause, it holds after it.
pub proof fn lemma_clause_keeps_scope<G: GraphProvider>(
    g: &G,
    clauses: Seq<ClauseModel>,
    i: int,
    rows: Seq<RowModel<G::NodeId>>,
    scope: Seq<Text>,
)
    requires
        rows_within(rows, scope.to_set()),
    ensures
        clause_rows(g, clauses, i, rows, scope) matches Ok(out) ==> rows_within(
            out,
            clause_scope(clauses[i], scope).to_set(),
        ),
{
    let after = clause_scope(clauses[i], scope).to_set();
    match clauses[i] {
        ClauseModel::Match { optional, patterns, where_clause } => {
            if optional {
                lemma_optional_within(g, rows, scope, patterns, where_clause, 0);
            } else {
                let keep = crate::pushdown::keep_passing(
                    g,
                    crate::pushdown::pushed_from(clauses, i),
                );
                lemma_match_scope(g, rows, scope, patterns, keep);
                if let Ok(matched) = match_paths(g, rows, patterns, 0, keep) {
                    if let Some(predicate) = where_clause {
                        lemma_filter_within(g, matched, predicate, 0, after);
                    }
                }
            }
        },
        ClauseModel::Unwind { expr, var } => {
            lemma_add_name(scope, Some(var), var);
            assert forall|name: Text| scope.to_set().contains(name) implies after.contains(
                name,
            ) by {
                lemma_add_name(scope, Some(var), name);
                assert(scope.contains(name));
            }
            lemma_wider(rows, scope.to_set(), after);
            lemma_unwind_within(g, rows, expr, var, 0, after);
        },
        ClauseModel::With { projection, where_clause } => {
            lemma_projection_within(g, projection, rows, scope);
            if let Ok(out) = projection_output(g, projection, rows, scope) {
                let bindings = output_bindings(out);
                assert forall|k: int| 0 <= k < bindings.len() implies row_within(
                    #[trigger] bindings[k],
                    after,
                ) by {
                    assert(bindings[k] == out[k].bindings);
                }
                if let Some(predicate) = where_clause {
                    lemma_filter_within(g, bindings, predicate, 0, after);
                }
            }
        },
    }
}

/// `OPTIONAL MATCH` is a left join: every row comes out at least once, one without a match with the
/// clause's new variables bound to null, and nothing else comes out.
pub proof fn lemma_optional_is_left_join<G: GraphProvider>(
    g: &G,
    clauses: Seq<ClauseModel>,
    i: int,
    rows: Seq<RowModel<G::NodeId>>,
    scope: Seq<Text>,
)
    requires
        rows_within(rows, scope.to_set()),
    ensures
        clauses[i] matches ClauseModel::Match { optional: true, patterns, where_clause } ==> (
        clause_rows(g, clauses, i, rows, scope) matches Ok(out) ==> left_join(
            g,
            rows,
            patterns,
            where_clause,
            new_names(patterns, scope),
            out,
        )),
{
    if let ClauseModel::Match { optional: true, patterns, where_clause } = clauses[i] {
        let nulls = new_names(patterns, scope);
        lemma_new_names(patterns, scope);
        assert forall|k: int| 0 <= k < rows.len() implies new_to(#[trigger] rows[k], nulls) by {
            assert(row_within(rows[k], scope.to_set()));
            assert forall|n: int| 0 <= n < nulls.len() implies !rows[k].contains_key(
                #[trigger] nulls[n],
            ) by {
                assert(!scope.contains(nulls[n]));
            }
        }
        lemma_optional_joins(g, rows, patterns, where_clause, nulls, 0);
        assert(rows.skip(0) =~= rows);
    }
}

} // verus!
