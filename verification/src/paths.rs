//! Laws of path patterns: which rows a path makes, whichever end it is walked from.

use vstd::prelude::*;

use crate::ast::{NodePatternModel, PathModel, RelPatternModel};
use crate::pattern::{
    accepts, arrive, begin, begin_all, bind, candidates, flip_rel, hop_all, kept, match_as_written,
    match_path, max_length, node_ok, path_node, props_ok, resolve_types, reversed, suitable,
    targets, walk, walker_rows, Keep, Walker,
};
use crate::provider::GraphProvider;
use crate::row::{BindingModel, RowModel};
use crate::seqs::{lemma_concat_contains, lemma_push_contains};
use crate::text::Text;
use crate::walks::{
    adjacent, coherent, connected, distance, edge, in_graph, lemma_single_hop, lemma_targets_flip,
    lemma_variable_length, walk_exists,
};

verus! {

/// The relationship types of a hop.
pub open spec fn hop_types<G: GraphProvider>(g: &G, rel: RelPatternModel) -> Seq<Text> {
    resolve_types(g, rel.types)->Ok_0
}

/// Whether a hop leads from `a` to `b`.
pub open spec fn linked<G: GraphProvider>(
    g: &G,
    a: G::NodeId,
    rel: RelPatternModel,
    b: G::NodeId,
) -> bool {
    targets(g, a, hop_types(g, rel), rel.direction, rel.length).contains(b)
}

/// Whether the graph knows the relationship types of all hops.
pub open spec fn types_known<G: GraphProvider>(g: &G, path: PathModel) -> bool {
    forall|i: int|
        0 <= i < path.rest.len() ==> resolve_types(g, (#[trigger] path.rest[i]).0.types) is Ok
}

/// The row with the variables of the first nodes of a path bound to `xs`.
pub open spec fn bound_row<N>(row: RowModel<N>, path: PathModel, xs: Seq<N>) -> RowModel<N>
    decreases xs.len(),
{
    if xs.len() == 0 {
        row
    } else {
        bind(
            bound_row(row, path, xs.drop_last()),
            path_node(path, xs.len() - 1).var,
            xs.last(),
        )
    }
}

/// Whether a walk along the first nodes of a path can come through `xs`.
pub open spec fn chain<G: GraphProvider>(
    g: &G,
    row: RowModel<G::NodeId>,
    path: PathModel,
    xs: Seq<G::NodeId>,
    keep: Keep<G::NodeId>,
) -> bool
    decreases xs.len(),
{
    if xs.len() == 0 {
        false
    } else if xs.len() == 1 {
        candidates(g, row, path.start, keep).contains(xs[0])
    } else {
        &&& chain(g, row, path, xs.drop_last(), keep)
        &&& linked(g, xs[xs.len() - 2], path.rest[xs.len() - 2].0, xs.last())
        &&& accepts(
            g,
            bound_row(row, path, xs.drop_last()),
            path_node(path, xs.len() - 1),
            keep,
            xs.last(),
        )
    }
}

/// Whether a walker can be what is left of a walk through `m` nodes.
pub open spec fn traced<G: GraphProvider>(
    g: &G,
    base: Seq<RowModel<G::NodeId>>,
    path: PathModel,
    keep: Keep<G::NodeId>,
    m: nat,
    w: Walker<G::NodeId>,
) -> bool {
    exists|j: int, xs: Seq<G::NodeId>|
        0 <= j < base.len() && xs.len() == m && #[trigger] chain(g, base[j], path, xs, keep) && w.0
            == bound_row(base[j], path, xs) && w.1 == xs.last()
}

// ---- What the walkers are --------------------------------------------------------

/// The suitable nodes are those with the properties of the pattern that are kept.
pub proof fn lemma_suitable<G: GraphProvider>(
    g: &G,
    p: NodePatternModel,
    keep: Keep<G::NodeId>,
    nodes: Seq<G::NodeId>,
    x: G::NodeId,
)
    ensures
        suitable(g, p, keep, nodes).contains(x) <==> nodes.contains(x) && props_ok(g, x, p.props)
            && kept(keep, p.var, x),
    decreases nodes.len(),
{
    if nodes.len() > 0 {
        let init = nodes.drop_last();
        lemma_suitable(g, p, keep, init, x);
        assert(nodes =~= init.push(nodes.last()));
        lemma_push_contains(init, nodes.last(), x);
        lemma_push_contains(suitable(g, p, keep, init), nodes.last(), x);
    }
}

proof fn lemma_begin<N>(row: RowModel<N>, var: Option<Text>, nodes: Seq<N>, w: Walker<N>)
    ensures
        begin(row, var, nodes).contains(w) <==> nodes.contains(w.1) && w.0 == bind(row, var, w.1),
    decreases nodes.len(),
{
    if nodes.len() > 0 {
        let init = nodes.drop_last();
        let last = nodes.last();
        lemma_begin(row, var, init, w);
        assert(nodes =~= init.push(last));
        lemma_push_contains(init, last, w.1);
        lemma_push_contains(begin(row, var, init), (bind(row, var, last), last), w);
    }
}

/// Whether a walker starts from a row.
pub open spec fn starts_from<G: GraphProvider>(
    g: &G,
    row: RowModel<G::NodeId>,
    p: NodePatternModel,
    keep: Keep<G::NodeId>,
    w: Walker<G::NodeId>,
) -> bool {
    candidates(g, row, p, keep).contains(w.1) && w.0 == bind(row, p.var, w.1)
}

/// The walkers at the start of a path are those that stand at a candidate of one of the rows.
pub proof fn lemma_begin_all<G: GraphProvider>(
    g: &G,
    base: Seq<RowModel<G::NodeId>>,
    p: NodePatternModel,
    keep: Keep<G::NodeId>,
    w: Walker<G::NodeId>,
)
    ensures
        begin_all(g, base, p, keep).contains(w) <==> exists|j: int|
            0 <= j < base.len() && starts_from(g, #[trigger] base[j], p, keep, w),
    decreases base.len(),
{
    if base.len() > 0 {
        let init = base.drop_last();
        let last = base.last();
        lemma_begin_all(g, init, p, keep, w);
        let here = begin(last, p.var, candidates(g, last, p, keep));
        lemma_begin(last, p.var, candidates(g, last, p, keep), w);
        lemma_concat_contains(begin_all(g, init, p, keep), here, w);
        if begin_all(g, init, p, keep).contains(w) {
            let j = choose|j: int|
                0 <= j < init.len() && starts_from(g, #[trigger] init[j], p, keep, w);
            assert(base[j] == init[j]);
        }
        if here.contains(w) {
            assert(base[base.len() - 1] == last);
            assert(starts_from(g, last, p, keep, w));
        }
        if exists|j: int| 0 <= j < base.len() && starts_from(g, #[trigger] base[j], p, keep, w) {
            let j = choose|j: int|
                0 <= j < base.len() && starts_from(g, #[trigger] base[j], p, keep, w);
            if j < init.len() {
                assert(init[j] == base[j]);
            } else {
                assert(base[j] == last);
            }
        }
    }
}

proof fn lemma_arrive<G: GraphProvider>(
    g: &G,
    row: RowModel<G::NodeId>,
    p: NodePatternModel,
    keep: Keep<G::NodeId>,
    nodes: Seq<G::NodeId>,
    w: Walker<G::NodeId>,
)
    ensures
        arrive(g, row, p, keep, nodes).contains(w) <==> nodes.contains(w.1) && accepts(
            g,
            row,
            p,
            keep,
            w.1,
        ) && w.0 == bind(row, p.var, w.1),
    decreases nodes.len(),
{
    if nodes.len() > 0 {
        let init = nodes.drop_last();
        let last = nodes.last();
        lemma_arrive(g, row, p, keep, init, w);
        assert(nodes =~= init.push(last));
        lemma_push_contains(init, last, w.1);
        lemma_push_contains(
            arrive(g, row, p, keep, init),
            (bind(row, p.var, last), last),
            w,
        );
    }
}

/// Whether one hop takes walker `v` to walker `w`.
pub open spec fn hops_to<G: GraphProvider>(
    g: &G,
    v: Walker<G::NodeId>,
    rel: RelPatternModel,
    p: NodePatternModel,
    keep: Keep<G::NodeId>,
    w: Walker<G::NodeId>,
) -> bool {
    linked(g, v.1, rel, w.1) && accepts(g, v.0, p, keep, w.1) && w.0 == bind(v.0, p.var, w.1)
}

/// The walkers after a hop are those that one of the walkers before it leads to.
pub proof fn lemma_hop_all<G: GraphProvider>(
    g: &G,
    walkers: Seq<Walker<G::NodeId>>,
    rel: RelPatternModel,
    p: NodePatternModel,
    keep: Keep<G::NodeId>,
    w: Walker<G::NodeId>,
)
    ensures
        hop_all(g, walkers, hop_types(g, rel), rel, p, keep).contains(w) <==> exists|
            v: Walker<G::NodeId>,
        |
            walkers.contains(v) && #[trigger] hops_to(g, v, rel, p, keep, w),
    decreases walkers.len(),
{
    let types = hop_types(g, rel);
    if walkers.len() > 0 {
        let init = walkers.drop_last();
        let last = walkers.last();
        lemma_hop_all(g, init, rel, p, keep, w);
        let nodes = targets(g, last.1, types, rel.direction, rel.length);
        let here = arrive(g, last.0, p, keep, nodes);
        lemma_arrive(g, last.0, p, keep, nodes, w);
        lemma_concat_contains(hop_all(g, init, types, rel, p, keep), here, w);
        assert(here.contains(w) <==> hops_to(g, last, rel, p, keep, w));
        assert(walkers =~= init.push(last));
        assert forall|v: Walker<G::NodeId>| walkers.contains(v) <==> init.contains(v) || v
            == last by {
            lemma_push_contains(init, last, v);
        }
    }
}

/// The walkers at the start are those of walks through one node.
proof fn lemma_start_traced<G: GraphProvider>(
    g: &G,
    base: Seq<RowModel<G::NodeId>>,
    path: PathModel,
    keep: Keep<G::NodeId>,
    w: Walker<G::NodeId>,
)
    ensures
        begin_all(g, base, path.start, keep).contains(w) <==> traced(g, base, path, keep, 1, w),
{
    lemma_begin_all(g, base, path.start, keep, w);
    if begin_all(g, base, path.start, keep).contains(w) {
        let j = choose|j: int|
            0 <= j < base.len() && starts_from(g, #[trigger] base[j], path.start, keep, w);
        let xs = seq![w.1];
        assert(xs.drop_last() =~= Seq::empty());
        assert(bound_row(base[j], path, xs.drop_last()) == base[j]);
        assert(chain(g, base[j], path, xs, keep));
    }
    if traced(g, base, path, keep, 1, w) {
        let (j, xs) = choose|j: int, xs: Seq<G::NodeId>|
            0 <= j < base.len() && xs.len() == 1 && #[trigger] chain(g, base[j], path, xs, keep)
                && w.0 == bound_row(base[j], path, xs) && w.1 == xs.last();
        assert(xs.drop_last() =~= Seq::empty());
        assert(bound_row(base[j], path, xs.drop_last()) == base[j]);
        assert(starts_from(g, base[j], path.start, keep, w));
    }
}

/// One hop takes the walkers of walks through `m` nodes to those of walks through one node more.
proof fn lemma_hop_traced<G: GraphProvider>(
    g: &G,
    base: Seq<RowModel<G::NodeId>>,
    path: PathModel,
    keep: Keep<G::NodeId>,
    m: nat,
    walkers: Seq<Walker<G::NodeId>>,
    w: Walker<G::NodeId>,
)
    requires
        1 <= m <= path.rest.len(),
        forall|v: Walker<G::NodeId>| #[trigger]
            walkers.contains(v) <==> traced(g, base, path, keep, m, v),
    ensures
        hop_all(
            g,
            walkers,
            hop_types(g, path.rest[m - 1].0),
            path.rest[m - 1].0,
            path.rest[m - 1].1,
            keep,
        ).contains(w) <==> traced(g, base, path, keep, m + 1, w),
{
    let rel = path.rest[m - 1].0;
    let p = path.rest[m - 1].1;
    lemma_hop_all(g, walkers, rel, p, keep, w);
    assert(path_node(path, m as int) == p);
    if exists|v: Walker<G::NodeId>|
        walkers.contains(v) && #[trigger] hops_to(g, v, rel, p, keep, w) {
        let v = choose|v: Walker<G::NodeId>|
            walkers.contains(v) && #[trigger] hops_to(g, v, rel, p, keep, w);
        assert(traced(g, base, path, keep, m, v));
        let (j, xs) = choose|j: int, xs: Seq<G::NodeId>|
            0 <= j < base.len() && xs.len() == m && #[trigger] chain(g, base[j], path, xs, keep)
                && v.0 == bound_row(base[j], path, xs) && v.1 == xs.last();
        let ys = xs.push(w.1);
        assert(ys.drop_last() =~= xs);
        assert(ys[ys.len() - 2] == xs.last());
        assert(chain(g, base[j], path, ys, keep));
        assert(bound_row(base[j], path, ys) == w.0);
    }
    if traced(g, base, path, keep, m + 1, w) {
        let (j, ys) = choose|j: int, ys: Seq<G::NodeId>|
            0 <= j < base.len() && ys.len() == m + 1 && #[trigger] chain(
                g,
                base[j],
                path,
                ys,
                keep,
            ) && w.0 == bound_row(base[j], path, ys) && w.1 == ys.last();
        let xs = ys.drop_last();
        let v = (bound_row(base[j], path, xs), xs.last());
        assert(chain(g, base[j], path, xs, keep));
        assert(traced(g, base, path, keep, m, v));
        assert(walkers.contains(v));
        assert(hops_to(g, v, rel, p, keep, w));
    }
}

proof fn lemma_walk_traced<G: GraphProvider>(
    g: &G,
    base: Seq<RowModel<G::NodeId>>,
    path: PathModel,
    keep: Keep<G::NodeId>,
    i: int,
    walkers: Seq<Walker<G::NodeId>>,
)
    requires
        0 <= i <= path.rest.len(),
        forall|v: Walker<G::NodeId>| #[trigger]
            walkers.contains(v) <==> traced(g, base, path, keep, (i + 1) as nat, v),
    ensures
        (forall|k: int|
            i <= k < path.rest.len() ==> resolve_types(g, (#[trigger] path.rest[k]).0.types) is Ok)
            <==> walk(g, walkers, path.rest, i, keep) is Ok,
        walk(g, walkers, path.rest, i, keep) matches Ok(out) ==> forall|v: Walker<G::NodeId>|
            #[trigger]
            out.contains(v) <==> traced(g, base, path, keep, path.rest.len() + 1, v),
    decreases path.rest.len() - i,
{
    if i < path.rest.len() {
        if let Ok(types) = resolve_types(g, path.rest[i].0.types) {
            let next = hop_all(g, walkers, types, path.rest[i].0, path.rest[i].1, keep);
            assert forall|w: Walker<G::NodeId>| #[trigger]
                next.contains(w) <==> traced(g, base, path, keep, (i + 2) as nat, w) by {
                lemma_hop_traced(g, base, path, keep, (i + 1) as nat, walkers, w);
            }
            lemma_walk_traced(g, base, path, keep, i + 1, next);
        }
    }
}

/// A path matches if the graph knows its relationship types, and then makes the rows of the walks
/// along it.
pub proof fn lemma_rows_of_walks<G: GraphProvider>(
    g: &G,
    base: Seq<RowModel<G::NodeId>>,
    path: PathModel,
    keep: Keep<G::NodeId>,
    r: RowModel<G::NodeId>,
)
    ensures
        match_as_written(g, base, path, keep) is Ok <==> types_known(g, path),
        match_as_written(g, base, path, keep) matches Ok(out) ==> (out.contains(r) <==> exists|
            j: int,
            xs: Seq<G::NodeId>,
        |
            0 <= j < base.len() && xs.len() == path.rest.len() + 1 && #[trigger] chain(
                g,
                base[j],
                path,
                xs,
                keep,
            ) && r == bound_row(base[j], path, xs)),
{
    let first = begin_all(g, base, path.start, keep);
    assert forall|w: Walker<G::NodeId>| #[trigger]
        first.contains(w) <==> traced(g, base, path, keep, 1, w) by {
        lemma_start_traced(g, base, path, keep, w);
    }
    lemma_walk_traced(g, base, path, keep, 0, first);
    if let Ok(walkers) = walk(g, first, path.rest, 0, keep) {
        let out = walker_rows(walkers);
        if out.contains(r) {
            let k = choose|k: int| 0 <= k < out.len() && out[k] == r;
            let w = walkers[k];
            assert(walkers.contains(w));
            assert(traced(g, base, path, keep, path.rest.len() + 1, w));
        }
        if exists|j: int, xs: Seq<G::NodeId>|
            0 <= j < base.len() && xs.len() == path.rest.len() + 1 && #[trigger] chain(
                g,
                base[j],
                path,
                xs,
                keep,
            ) && r == bound_row(base[j], path, xs) {
            let (j, xs) = choose|j: int, xs: Seq<G::NodeId>|
                0 <= j < base.len() && xs.len() == path.rest.len() + 1 && #[trigger] chain(
                    g,
                    base[j],
                    path,
                    xs,
                    keep,
                ) && r == bound_row(base[j], path, xs);
            let w = (r, xs.last());
            assert(traced(g, base, path, keep, path.rest.len() + 1, w));
            assert(walkers.contains(w));
            let k = choose|k: int| 0 <= k < walkers.len() && walkers[k] == w;
            assert(out[k] == r);
        }
    }
}

// ---- What a walk is, without an order --------------------------------------------

/// Whether a row binds only nodes of the graph.
pub open spec fn row_in_graph<G: GraphProvider>(g: &G, row: RowModel<G::NodeId>) -> bool {
    forall|name: Text|
        row.contains_key(name) ==> (#[trigger] row[name] matches BindingModel::Node(n) ==> in_graph(
            g,
            n,
        ))
}

/// Whether `r` is the row with the variables of the first `xs.len()` nodes of a path bound to `xs`.
pub open spec fn binds_exactly<N>(
    row: RowModel<N>,
    path: PathModel,
    xs: Seq<N>,
    r: RowModel<N>,
) -> bool {
    &&& row.submap_of(r)
    &&& forall|i: int|
        #![trigger path_node(path, i)]
        0 <= i < xs.len() && path_node(path, i).var is Some ==> r.contains_key(
            path_node(path, i).var->0,
        ) && r[path_node(path, i).var->0] == BindingModel::Node(xs[i])
    &&& forall|name: Text| #[trigger]
        r.contains_key(name) ==> row.contains_key(name) || exists|i: int|
            #![trigger path_node(path, i)]
            0 <= i < xs.len() && path_node(path, i).var == Some(name)
}

/// Whether `xs` are nodes along a path: each satisfies its pattern, and each hop leads from one to
/// the next.
pub open spec fn along<G: GraphProvider>(g: &G, path: PathModel, xs: Seq<G::NodeId>) -> bool {
    &&& forall|i: int|
        #![trigger xs[i]]
        0 <= i < xs.len() ==> node_ok(g, xs[i], path_node(path, i)) && in_graph(g, xs[i])
    &&& forall|i: int|
        #![trigger path.rest[i]]
        0 <= i < xs.len() - 1 ==> linked(g, xs[i], path.rest[i].0, xs[i + 1])
}

proof fn lemma_targets_in_graph<G: GraphProvider>(
    g: &G,
    a: G::NodeId,
    rel: RelPatternModel,
    b: G::NodeId,
)
    requires
        coherent(g),
        in_graph(g, a),
        linked(g, a, rel, b),
    ensures
        in_graph(g, b),
{
    let types = hop_types(g, rel);
    match rel.length {
        None => {
            lemma_single_hop(g, a, b, types, rel.direction);
            lemma_connected_in_graph(g, a, b, rel);
        },
        Some(l) => {
            lemma_variable_length(g, a, b, types, rel.direction, l);
            let k = choose|k: nat|
                l.min <= k <= max_length(l) && #[trigger] distance(
                    g,
                    a,
                    b,
                    types,
                    rel.direction,
                    k,
                );
            assert(walk_exists(g, a, b, types, rel.direction, k));
            if k > 0 {
                let c = choose|c: G::NodeId| #[trigger]
                    connected(g, c, b, types, rel.direction) && walk_exists(
                        g,
                        a,
                        c,
                        types,
                        rel.direction,
                        (k - 1) as nat,
                    );
                lemma_connected_in_graph(g, c, b, rel);
            }
        },
    }
}

proof fn lemma_connected_in_graph<G: GraphProvider>(
    g: &G,
    a: G::NodeId,
    b: G::NodeId,
    rel: RelPatternModel,
)
    requires
        coherent(g),
        connected(g, a, b, hop_types(g, rel), rel.direction),
    ensures
        in_graph(g, b),
{
    let types = hop_types(g, rel);
    let t = choose|t: int|
        0 <= t < types.len() && adjacent(g, a, b, #[trigger] types[t], rel.direction);
    assert(edge(g, types[t], a, b) || edge(g, types[t], b, a));
}

/// What one more node adds to the bindings.
proof fn lemma_binds_step<N>(
    row: RowModel<N>,
    path: PathModel,
    xs: Seq<N>,
    before: RowModel<N>,
    x: N,
)
    requires
        binds_exactly(row, path, xs, before),
        (path_node(path, xs.len() as int).var is Some && before.contains_key(
            path_node(path, xs.len() as int).var->0,
        )) ==> before[path_node(path, xs.len() as int).var->0] == BindingModel::Node(x),
    ensures
        binds_exactly(
            row,
            path,
            xs.push(x),
            bind(before, path_node(path, xs.len() as int).var, x),
        ),
{
    let n = xs.len() as int;
    let p = path_node(path, n);
    let ys = xs.push(x);
    let r = bind(before, p.var, x);
    assert forall|name: Text| #[trigger] row.dom().contains(name) implies #[trigger]
        r.dom().contains(name) && row[name] == r[name] by {
        assert(before.dom().contains(name));
        assert(row[name] == before[name]);
    }
    assert forall|i: int|
        #![trigger path_node(path, i)]
        0 <= i < ys.len() && path_node(path, i).var is Some implies r.contains_key(
        path_node(path, i).var->0,
    ) && r[path_node(path, i).var->0] == BindingModel::Node(ys[i]) by {
        if i < n {
            let name = path_node(path, i).var->0;
            assert(ys[i] == xs[i]);
            assert(before.contains_key(name) && before[name] == BindingModel::Node(xs[i]));
        }
    }
    assert forall|name: Text| #[trigger] r.contains_key(name) implies row.contains_key(name)
        || exists|i: int|
        #![trigger path_node(path, i)]
        0 <= i < ys.len() && path_node(path, i).var == Some(name) by {
        if p.var == Some(name) {
            assert(path_node(path, n).var == Some(name));
        } else if !row.contains_key(name) {
            assert(before.contains_key(name));
            let i = choose|i: int|
                #![trigger path_node(path, i)]
                0 <= i < xs.len() && path_node(path, i).var == Some(name);
            assert(path_node(path, i).var == Some(name) && i < ys.len());
        }
    }
}

/// A start of a walk is a node of the graph that satisfies its pattern.
proof fn lemma_start_along<G: GraphProvider>(
    g: &G,
    row: RowModel<G::NodeId>,
    p: NodePatternModel,
    keep: Keep<G::NodeId>,
    x: G::NodeId,
)
    requires
        coherent(g),
        row_in_graph(g, row),
        candidates(g, row, p, keep).contains(x),
    ensures
        node_ok(g, x, p),
        in_graph(g, x),
        (p.var is Some && row.contains_key(p.var->0)) ==> row[p.var->0] == BindingModel::Node(x),
{
    if p.var is Some && row.contains_key(p.var->0) {
        let found = candidates(g, row, p, keep);
        assert(row[p.var->0] is Node);
        assert(found[0] == x);
    } else {
        lemma_suitable(g, p, keep, g.nodes_with(p.labels), x);
        assert(g.nodes_with(p.labels).contains(x));
    }
}

/// A walk comes through nodes along the path, and its row binds exactly them.
pub proof fn lemma_chain_along<G: GraphProvider>(
    g: &G,
    row: RowModel<G::NodeId>,
    path: PathModel,
    xs: Seq<G::NodeId>,
    keep: Keep<G::NodeId>,
)
    requires
        coherent(g),
        row_in_graph(g, row),
        xs.len() <= path.rest.len() + 1,
        chain(g, row, path, xs, keep),
    ensures
        along(g, path, xs),
        binds_exactly(row, path, xs, bound_row(row, path, xs)),
    decreases xs.len(),
{
    let init = xs.drop_last();
    let last = xs.last();
    let n = xs.len() - 1;
    let before = bound_row(row, path, init);
    assert(xs =~= init.push(last));
    if xs.len() == 1 {
        assert(init =~= Seq::empty());
        assert(before == row);
        assert(xs[0] == last);
        lemma_start_along(g, row, path.start, keep, last);
        assert(binds_exactly(row, path, init, row));
        assert(path_node(path, 0) == path.start);
        lemma_binds_step(row, path, init, before, last);
    } else {
        lemma_chain_along(g, row, path, init, keep);
        let prev = xs[xs.len() - 2];
        assert(init[init.len() - 1] == prev);
        lemma_targets_in_graph(g, prev, path.rest[n - 1].0, last);
        lemma_binds_step(row, path, init, before, last);
        assert forall|i: int|
            #![trigger xs[i]]
            0 <= i < xs.len() implies node_ok(g, xs[i], path_node(path, i)) && in_graph(
            g,
            xs[i],
        ) by {
            if i < init.len() {
                assert(init[i] == xs[i]);
            }
        }
        assert forall|i: int|
            #![trigger path.rest[i]]
            0 <= i < xs.len() - 1 implies linked(g, xs[i], path.rest[i].0, xs[i + 1]) by {
            if i < init.len() - 1 {
                assert(init[i] == xs[i] && init[i + 1] == xs[i + 1]);
            }
        }
    }
}

/// The bindings are determined by the nodes.
pub proof fn lemma_binds_unique<N>(
    row: RowModel<N>,
    path: PathModel,
    xs: Seq<N>,
    r: RowModel<N>,
    s: RowModel<N>,
)
    requires
        binds_exactly(row, path, xs, r),
        binds_exactly(row, path, xs, s),
    ensures
        r == s,
{
    assert forall|name: Text| r.contains_key(name) implies #[trigger] s.contains_key(name)
        && r[name] == s[name] by {
        lemma_binds_within(row, path, xs, r, s, name);
    }
    assert forall|name: Text| s.contains_key(name) implies #[trigger] r.contains_key(name) by {
        lemma_binds_within(row, path, xs, s, r, name);
    }
    assert(r =~= s);
}

proof fn lemma_binds_within<N>(
    row: RowModel<N>,
    path: PathModel,
    xs: Seq<N>,
    r: RowModel<N>,
    s: RowModel<N>,
    name: Text,
)
    requires
        binds_exactly(row, path, xs, r),
        binds_exactly(row, path, xs, s),
        r.contains_key(name),
    ensures
        s.contains_key(name),
        r[name] == s[name],
{
    if row.contains_key(name) {
        assert(row.dom().contains(name));
        assert(r.dom().contains(name));
        assert(row[name] == r[name]);
        assert(s.dom().contains(name));
        assert(row[name] == s[name]);
    } else {
        let i = choose|i: int|
            #![trigger path_node(path, i)]
            0 <= i < xs.len() && path_node(path, i).var == Some(name);
        assert(path_node(path, i).var is Some);
        assert(r[name] == BindingModel::Node(xs[i]));
        assert(s[name] == BindingModel::Node(xs[i]));
    }
}

/// One more binding that a row has.
proof fn lemma_bind_within<N>(before: RowModel<N>, var: Option<Text>, x: N, r: RowModel<N>)
    requires
        before.submap_of(r),
        var is Some ==> r.contains_key(var->0) && r[var->0] == BindingModel::Node(x),
    ensures
        bind(before, var, x).submap_of(r),
        (var is Some && before.contains_key(var->0)) ==> before[var->0] == BindingModel::Node(x),
{
    let after = bind(before, var, x);
    assert forall|name: Text| #[trigger] after.dom().contains(name) implies #[trigger]
        r.dom().contains(name) && after[name] == r[name] by {
        if var != Some(name) {
            assert(before.dom().contains(name));
            assert(after[name] == before[name]);
            assert(r.dom().contains(name));
            assert(before[name] == r[name]);
        }
    }
    if var is Some && before.contains_key(var->0) {
        assert(before.dom().contains(var->0));
        assert(r.dom().contains(var->0));
    }
}

/// Nodes along a path that a row binds exactly are those of a walk to this row, if every binding
/// of the row is kept.
pub proof fn lemma_along_chain<G: GraphProvider>(
    g: &G,
    row: RowModel<G::NodeId>,
    path: PathModel,
    xs: Seq<G::NodeId>,
    r: RowModel<G::NodeId>,
    keep: Keep<G::NodeId>,
    m: int,
)
    requires
        coherent(g),
        1 <= m <= xs.len() <= path.rest.len() + 1,
        along(g, path, xs),
        binds_exactly(row, path, xs, r),
        all_kept(r, keep),
    ensures
        chain(g, row, path, xs.take(m), keep),
        bound_row(row, path, xs.take(m)).submap_of(r),
        binds_exactly(row, path, xs.take(m), bound_row(row, path, xs.take(m))),
    decreases m,
{
    let ys = xs.take(m);
    let init = ys.drop_last();
    assert(init =~= xs.take(m - 1));
    let x = xs[m - 1];
    assert(ys.last() == x);
    assert(ys =~= init.push(x));
    let p = path_node(path, m - 1);
    let before = bound_row(row, path, init);
    assert(node_ok(g, x, p) && in_graph(g, x));
    assert(p.var is Some ==> r.contains_key(p.var->0) && r[p.var->0] == BindingModel::Node(x));
    assert(kept(keep, p.var, x));
    if m == 1 {
        assert(init =~= Seq::empty());
        assert(before == row);
        assert(binds_exactly(row, path, init, row));
        lemma_bind_within(before, p.var, x, r);
        if p.var is Some && row.contains_key(p.var->0) {
            assert(candidates(g, row, p, keep)[0] == x);
        } else {
            lemma_suitable(g, p, keep, g.nodes_with(p.labels), x);
            assert(g.nodes_with(p.labels).contains(x));
        }
        assert(ys[0] == x);
    } else {
        lemma_along_chain(g, row, path, xs, r, keep, m - 1);
        lemma_bind_within(before, p.var, x, r);
        assert(path.rest[m - 2].1 == p);
        assert(linked(g, xs[m - 2], path.rest[m - 2].0, xs[m - 1]));
        assert(ys[ys.len() - 2] == xs[m - 2]);
        assert(accepts(g, before, p, keep, x));
    }
    lemma_binds_step(row, path, init, before, x);
}

/// Whether every binding of a row to a node is kept.
pub open spec fn all_kept<N>(row: RowModel<N>, keep: Keep<N>) -> bool {
    forall|name: Text|
        row.contains_key(name) ==> (#[trigger] row[name] matches BindingModel::Node(n) ==> keep(
            name,
            n,
        ))
}

/// The rows whose bindings are all kept.
pub open spec fn keepers<N>(rows: Seq<RowModel<N>>, keep: Keep<N>) -> Seq<RowModel<N>>
    decreases rows.len(),
{
    if rows.len() == 0 {
        rows
    } else if all_kept(rows.last(), keep) {
        keepers(rows.drop_last(), keep).push(rows.last())
    } else {
        keepers(rows.drop_last(), keep)
    }
}

/// The kept rows of a concatenation.
pub proof fn lemma_keepers_concat<N>(a: Seq<RowModel<N>>, b: Seq<RowModel<N>>, keep: Keep<N>)
    ensures
        keepers(a + b, keep) == keepers(a, keep) + keepers(b, keep),
    decreases b.len(),
{
    if b.len() == 0 {
        assert(a + b =~= a);
        assert(keepers(a, keep) + keepers(b, keep) =~= keepers(a, keep));
    } else {
        lemma_keepers_concat(a, b.drop_last(), keep);
        assert((a + b).drop_last() =~= a + b.drop_last());
        assert((a + b).last() == b.last());
        assert(keepers(a + b, keep) =~= keepers(a, keep) + keepers(b, keep));
    }
}

/// A row comes out of a path, if its bindings are kept, just if it binds exactly nodes along the
/// path, starting from one of the rows of the input.
pub proof fn lemma_rows_along<G: GraphProvider>(
    g: &G,
    base: Seq<RowModel<G::NodeId>>,
    path: PathModel,
    keep: Keep<G::NodeId>,
    r: RowModel<G::NodeId>,
)
    requires
        coherent(g),
        forall|j: int| 0 <= j < base.len() ==> row_in_graph(g, #[trigger] base[j]),
        all_kept(r, keep),
    ensures
        match_as_written(g, base, path, keep) is Ok <==> types_known(g, path),
        match_as_written(g, base, path, keep) matches Ok(out) ==> (out.contains(r) <==> comes_from(
            g,
            base,
            path,
            r,
        )),
{
    lemma_rows_of_walks(g, base, path, keep, r);
    if let Ok(out) = match_as_written(g, base, path, keep) {
        if out.contains(r) {
            let (j, xs) = choose|j: int, xs: Seq<G::NodeId>|
                0 <= j < base.len() && xs.len() == path.rest.len() + 1 && #[trigger] chain(
                    g,
                    base[j],
                    path,
                    xs,
                    keep,
                ) && r == bound_row(base[j], path, xs);
            lemma_chain_along(g, base[j], path, xs, keep);
            assert(binds_exactly(base[j], path, xs, r));
        }
        if comes_from(g, base, path, r) {
            let (j, xs) = choose|j: int, xs: Seq<G::NodeId>|
                0 <= j < base.len() && xs.len() == path.rest.len() + 1 && along(g, path, xs)
                    && #[trigger] binds_exactly(base[j], path, xs, r);
            lemma_along_chain(g, base[j], path, xs, r, keep, xs.len() as int);
            assert(xs.take(xs.len() as int) =~= xs);
            lemma_binds_unique(base[j], path, xs, r, bound_row(base[j], path, xs));
            assert(chain(g, base[j], path, xs, keep));
        }
    }
}

/// Whether a row binds exactly nodes along a path, starting from one of the rows of the input.
pub open spec fn comes_from<G: GraphProvider>(
    g: &G,
    base: Seq<RowModel<G::NodeId>>,
    path: PathModel,
    r: RowModel<G::NodeId>,
) -> bool {
    exists|j: int, xs: Seq<G::NodeId>|
        0 <= j < base.len() && xs.len() == path.rest.len() + 1 && along(g, path, xs) && #[trigger]
        binds_exactly(base[j], path, xs, r)
}

// ---- The other end ---------------------------------------------------------------

/// The node patterns of a path written from its other end.
pub proof fn lemma_reversed_node(path: PathModel, i: int)
    requires
        0 <= i <= path.rest.len(),
    ensures
        path_node(reversed(path), i) == path_node(path, path.rest.len() - i),
{
    if i > 0 {
        assert(reversed(path).rest[i - 1].1 == path_node(path, path.rest.len() - i));
    }
}

/// A path written from its other end twice is the path.
pub proof fn lemma_reversed_twice(path: PathModel)
    ensures
        reversed(reversed(path)) == path,
{
    let back = reversed(path);
    let n = path.rest.len() as int;
    lemma_reversed_node(path, n);
    let again = reversed(back);
    assert(again.start == path.start);
    assert forall|i: int| 0 <= i < n implies #[trigger] again.rest[i] == path.rest[i] by {
        let hop = path.rest[i];
        assert(back.rest[n - 1 - i].0 == flip_rel(hop.0));
        assert(flip_rel(flip_rel(hop.0)) == hop.0);
        lemma_reversed_node(path, n - 1 - i);
        assert(path_node(path, i + 1) == hop.1);
        assert(again.rest[i].1 == path_node(back, n - 1 - i));
    }
    assert(again.rest =~= path.rest);
}

/// Nodes along a path are, from the other end, nodes along the reversed path.
pub proof fn lemma_along_reversed<G: GraphProvider>(g: &G, path: PathModel, xs: Seq<G::NodeId>)
    requires
        coherent(g),
        xs.len() == path.rest.len() + 1,
        along(g, path, xs),
    ensures
        along(g, reversed(path), xs.reverse()),
{
    let back = reversed(path);
    let ys = xs.reverse();
    let n = path.rest.len() as int;
    assert forall|i: int|
        #![trigger ys[i]]
        0 <= i < ys.len() implies node_ok(g, ys[i], path_node(back, i)) && in_graph(g, ys[i]) by {
        lemma_reversed_node(path, i);
        assert(ys[i] == xs[n - i]);
    }
    assert forall|i: int|
        #![trigger back.rest[i]]
        0 <= i < ys.len() - 1 implies linked(g, ys[i], back.rest[i].0, ys[i + 1]) by {
        let k = n - 1 - i;
        let rel = path.rest[k].0;
        assert(linked(g, xs[k], path.rest[k].0, xs[k + 1]));
        assert(back.rest[i].0 == flip_rel(rel));
        assert(ys[i] == xs[k + 1] && ys[i + 1] == xs[k]);
        lemma_targets_flip(g, xs[k], xs[k + 1], hop_types(g, rel), rel.direction, rel.length);
    }
}

/// A row binds the same nodes of a path from either end.
pub proof fn lemma_binds_reversed<N>(row: RowModel<N>, path: PathModel, xs: Seq<N>, r: RowModel<N>)
    requires
        xs.len() == path.rest.len() + 1,
        binds_exactly(row, path, xs, r),
    ensures
        binds_exactly(row, reversed(path), xs.reverse(), r),
{
    let back = reversed(path);
    let ys = xs.reverse();
    let n = path.rest.len() as int;
    assert forall|i: int|
        #![trigger path_node(back, i)]
        0 <= i < ys.len() && path_node(back, i).var is Some implies r.contains_key(
        path_node(back, i).var->0,
    ) && r[path_node(back, i).var->0] == BindingModel::Node(ys[i]) by {
        lemma_reversed_node(path, i);
        assert(path_node(path, n - i).var is Some);
        assert(ys[i] == xs[n - i]);
    }
    assert forall|name: Text| #[trigger] r.contains_key(name) implies row.contains_key(name)
        || exists|i: int|
        #![trigger path_node(back, i)]
        0 <= i < ys.len() && path_node(back, i).var == Some(name) by {
        if !row.contains_key(name) {
            let i = choose|i: int|
                #![trigger path_node(path, i)]
                0 <= i < xs.len() && path_node(path, i).var == Some(name);
            lemma_reversed_node(path, n - i);
            assert(path_node(back, n - i).var == Some(name));
        }
    }
}

proof fn lemma_comes_from_reversed<G: GraphProvider>(
    g: &G,
    base: Seq<RowModel<G::NodeId>>,
    path: PathModel,
    r: RowModel<G::NodeId>,
)
    requires
        coherent(g),
        comes_from(g, base, path, r),
    ensures
        comes_from(g, base, reversed(path), r),
{
    let (j, xs) = choose|j: int, xs: Seq<G::NodeId>|
        0 <= j < base.len() && xs.len() == path.rest.len() + 1 && along(g, path, xs) && #[trigger]
        binds_exactly(base[j], path, xs, r);
    lemma_along_reversed(g, path, xs);
    lemma_binds_reversed(base[j], path, xs, r);
    assert(xs.reverse().len() == reversed(path).rest.len() + 1);
}

/// The hops of a path seen from its other end have the same relationship types.
pub proof fn lemma_types_known_reversed<G: GraphProvider>(g: &G, path: PathModel)
    requires
        types_known(g, path),
    ensures
        types_known(g, reversed(path)),
{
    let back = reversed(path);
    let n = path.rest.len() as int;
    assert forall|i: int| 0 <= i < back.rest.len() implies resolve_types(
        g,
        (#[trigger] back.rest[i]).0.types,
    ) is Ok by {
        assert(back.rest[i].0.types == path.rest[n - 1 - i].0.types);
    }
}

/// Walking a path from its other end makes the same rows: it succeeds on the same graphs, and a row
/// whose bindings are kept comes out of the one walk just if it comes out of the other.
pub proof fn lemma_reversal_same_rows<G: GraphProvider>(
    g: &G,
    base: Seq<RowModel<G::NodeId>>,
    path: PathModel,
    keep: Keep<G::NodeId>,
    r: RowModel<G::NodeId>,
)
    requires
        coherent(g),
        forall|j: int| 0 <= j < base.len() ==> row_in_graph(g, #[trigger] base[j]),
        all_kept(r, keep),
    ensures
        match_as_written(g, base, path, keep) is Ok <==> match_as_written(
            g,
            base,
            reversed(path),
            keep,
        ) is Ok,
        match_as_written(g, base, path, keep) is Ok ==> (match_as_written(
            g,
            base,
            path,
            keep,
        )->Ok_0.contains(r) <==> match_as_written(g, base, reversed(path), keep)->Ok_0.contains(r)),
{
    lemma_rows_along(g, base, path, keep, r);
    lemma_rows_along(g, base, reversed(path), keep, r);
    lemma_reversed_twice(path);
    if types_known(g, path) {
        lemma_types_known_reversed(g, path);
    }
    if types_known(g, reversed(path)) {
        lemma_types_known_reversed(g, reversed(path));
    }
    if comes_from(g, base, path, r) {
        lemma_comes_from_reversed(g, base, path, r);
    }
    if comes_from(g, base, reversed(path), r) {
        lemma_comes_from_reversed(g, base, reversed(path), r);
    }
}

/// Which end a path is walked from has no part in which rows it makes.
pub proof fn lemma_plan_same_rows<G: GraphProvider>(
    g: &G,
    base: Seq<RowModel<G::NodeId>>,
    path: PathModel,
    keep: Keep<G::NodeId>,
    r: RowModel<G::NodeId>,
)
    requires
        coherent(g),
        forall|j: int| 0 <= j < base.len() ==> row_in_graph(g, #[trigger] base[j]),
        all_kept(r, keep),
    ensures
        match_path(g, base, path, keep) is Ok <==> types_known(g, path),
        match_path(g, base, path, keep) matches Ok(out) ==> (out.contains(r) <==> comes_from(
            g,
            base,
            path,
            r,
        )),
{
    lemma_rows_along(g, base, path, keep, r);
    lemma_reversal_same_rows(g, base, path, keep, r);
}

} // verus!
