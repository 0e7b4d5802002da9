//! The laws of repetition: a path makes each row equally often, whichever end it is walked from.

use vstd::prelude::*;

use crate::ast::{Direction, NodePatternModel, PathModel, RelPatternModel, VarLength};
use crate::bags::{
    flat, lemma_flat_alike, lemma_flat_permutes, lemma_same_bag_contains, lemma_unique_same_bag,
    same_bag,
};
use crate::paths::{
    all_kept, along, binds_exactly, bound_row, chain, hop_types, keepers, lemma_along_chain,
    lemma_along_reversed, lemma_binds_reversed, lemma_binds_unique, lemma_chain_along,
    lemma_keepers_concat, lemma_reversed_twice, lemma_rows_along, lemma_rows_of_walks,
    lemma_suitable, lemma_types_known_reversed, row_in_graph, types_known,
};
use crate::pattern::{
    accepts, arrive, begin, begin_all, bind, candidates, hop_all, keep_all, level, levels,
    match_as_written, match_path, max_length, neighbours_by_type, neighbours_of_all, path_node,
    planned, reached, resolve_types, reversed, suitable, targets, walk, walker_rows, walks_back,
    Keep, Walker,
};
use crate::provider::GraphProvider;
use crate::row::RowModel;
use crate::seqs::{lemma_concat_contains, lemma_fresh_elements, lemma_push_contains};
use crate::text::Text;
use crate::walks::{coherent, distance, lemma_level, lemma_levels, walk_exists};

verus! {

/// Whether a scan lists each node once.
pub open spec fn scans_once<G: GraphProvider>(g: &G) -> bool {
    forall|labels: Seq<Text>| (#[trigger] g.nodes_with(labels)).no_duplicates()
}

// ---- Nodes once each -------------------------------------------------------------

proof fn lemma_suitable_once<G: GraphProvider>(
    g: &G,
    p: NodePatternModel,
    keep: Keep<G::NodeId>,
    nodes: Seq<G::NodeId>,
)
    requires
        nodes.no_duplicates(),
    ensures
        suitable(g, p, keep, nodes).no_duplicates(),
    decreases nodes.len(),
{
    if nodes.len() > 0 {
        let init = nodes.drop_last();
        lemma_suitable_once(g, p, keep, init);
        lemma_suitable(g, p, keep, init, nodes.last());
        if init.contains(nodes.last()) {
            let k = choose|k: int| 0 <= k < init.len() && init[k] == nodes.last();
            assert(nodes[k] == nodes[nodes.len() - 1]);
        }
    }
}

proof fn lemma_level_once<G: GraphProvider>(
    g: &G,
    a: G::NodeId,
    types: Seq<Text>,
    direction: Direction,
    k: nat,
)
    ensures
        level(g, a, types, direction, k).no_duplicates(),
{
    if k > 0 {
        let p = (k - 1) as nat;
        let around = neighbours_of_all(
            g,
            level(g, a, types, direction, p),
            types,
            direction,
        );
        lemma_fresh_elements(
            around,
            reached(g, a, types, direction, p).to_set(),
        );
    }
}

proof fn lemma_levels_once<G: GraphProvider>(
    g: &G,
    a: G::NodeId,
    types: Seq<Text>,
    direction: Direction,
    min: nat,
    end: nat,
)
    requires
        coherent(g),
    ensures
        levels(g, a, types, direction, min, end).no_duplicates(),
    decreases end,
{
    if end > min {
        let p = (end - 1) as nat;
        lemma_levels_once(g, a, types, direction, min, p);
        lemma_level_once(g, a, types, direction, p);
        let before = levels(g, a, types, direction, min, p);
        let here = level(g, a, types, direction, p);
        assert forall|i: int, j: int|
            0 <= i < before.len() && 0 <= j < here.len() implies before[i] != here[j] by {
            if before[i] == here[j] {
                let b = here[j];
                assert(before.contains(b));
                assert(here.contains(b));
                lemma_levels(g, a, b, types, direction, min, p);
                lemma_level(g, a, b, types, direction, p);
                let k = choose|k: nat|
                    min <= k < p && #[trigger] distance(g, a, b, types, direction, k);
                assert(walk_exists(g, a, b, types, direction, k));
            }
        }
        vstd::seq_lib::lemma_no_dup_in_concat(before, here);
    }
}

/// A hop leads to each node once.
proof fn lemma_targets_once<G: GraphProvider>(
    g: &G,
    a: G::NodeId,
    types: Seq<Text>,
    direction: Direction,
    length: Option<VarLength>,
)
    requires
        coherent(g),
    ensures
        targets(g, a, types, direction, length).no_duplicates(),
{
    match length {
        Some(l) => lemma_levels_once(g, a, types, direction, l.min as nat, max_length(l) + 1),
        None => lemma_fresh_elements(neighbours_by_type(g, a, types, direction), Set::empty()),
    }
}

// ---- The walks of one row --------------------------------------------------------

/// The walks through one node.
spec fn starts<N>(nodes: Seq<N>) -> Seq<Seq<N>>
    decreases nodes.len(),
{
    if nodes.len() == 0 {
        Seq::empty()
    } else {
        starts(nodes.drop_last()).push(seq![nodes.last()])
    }
}

/// The walk `xs` with each of the nodes that are accepted behind it.
spec fn extended<G: GraphProvider>(
    g: &G,
    row: RowModel<G::NodeId>,
    p: NodePatternModel,
    keep: Keep<G::NodeId>,
    xs: Seq<G::NodeId>,
    nodes: Seq<G::NodeId>,
) -> Seq<Seq<G::NodeId>>
    decreases nodes.len(),
{
    if nodes.len() == 0 {
        Seq::empty()
    } else {
        let before = extended(g, row, p, keep, xs, nodes.drop_last());
        if accepts(g, row, p, keep, nodes.last()) {
            before.push(xs.push(nodes.last()))
        } else {
            before
        }
    }
}

/// The nodes that the `i`-th hop of a path leads to.
spec fn hop_nodes<G: GraphProvider>(g: &G, path: PathModel, i: int, node: G::NodeId) -> Seq<
    G::NodeId,
> {
    let rel = path.rest[i].0;
    targets(g, node, hop_types(g, rel), rel.direction, rel.length)
}

/// The walks with one more node, behind the `i`-th hop.
spec fn stepped<G: GraphProvider>(
    g: &G,
    row: RowModel<G::NodeId>,
    path: PathModel,
    keep: Keep<G::NodeId>,
    i: int,
    traces: Seq<Seq<G::NodeId>>,
) -> Seq<Seq<G::NodeId>>
    decreases traces.len(),
{
    if traces.len() == 0 {
        Seq::empty()
    } else {
        let xs = traces.last();
        stepped(g, row, path, keep, i, traces.drop_last()) + extended(
            g,
            bound_row(row, path, xs),
            path.rest[i].1,
            keep,
            xs,
            hop_nodes(g, path, i, xs.last()),
        )
    }
}

/// The walks from a row through `m` nodes along a path.
spec fn traces<G: GraphProvider>(
    g: &G,
    row: RowModel<G::NodeId>,
    path: PathModel,
    keep: Keep<G::NodeId>,
    m: nat,
) -> Seq<Seq<G::NodeId>>
    decreases m,
{
    if m == 0 {
        Seq::empty()
    } else if m == 1 {
        starts(candidates(g, row, path.start, keep))
    } else {
        stepped(g, row, path, keep, m - 2, traces(g, row, path, keep, (m - 1) as nat))
    }
}

/// The walkers of walks.
spec fn walkers_of<N>(row: RowModel<N>, path: PathModel, traces: Seq<Seq<N>>) -> Seq<Walker<N>> {
    Seq::new(traces.len(), |k: int| (bound_row(row, path, traces[k]), traces[k].last()))
}

/// The rows of walks.
spec fn rows_of<N>(row: RowModel<N>, path: PathModel, traces: Seq<Seq<N>>) -> Seq<RowModel<N>> {
    Seq::new(traces.len(), |k: int| bound_row(row, path, traces[k]))
}

proof fn lemma_starts_walkers<N>(row: RowModel<N>, path: PathModel, nodes: Seq<N>)
    ensures
        begin(row, path.start.var, nodes) == walkers_of(row, path, starts(nodes)),
    decreases nodes.len(),
{
    if nodes.len() > 0 {
        lemma_starts_walkers(row, path, nodes.drop_last());
        let xs = seq![nodes.last()];
        assert(xs.drop_last() =~= Seq::empty());
        assert(bound_row(row, path, xs.drop_last()) == row);
        assert(path_node(path, 0) == path.start);
        assert(bound_row(row, path, xs) == bind(row, path.start.var, nodes.last()));
    }
    assert(begin(row, path.start.var, nodes) =~= walkers_of(row, path, starts(nodes)));
}

proof fn lemma_extended_walkers<G: GraphProvider>(
    g: &G,
    row: RowModel<G::NodeId>,
    path: PathModel,
    keep: Keep<G::NodeId>,
    i: int,
    xs: Seq<G::NodeId>,
    nodes: Seq<G::NodeId>,
)
    requires
        0 <= i < path.rest.len(),
        xs.len() == i + 1,
    ensures
        arrive(g, bound_row(row, path, xs), path.rest[i].1, keep, nodes) == walkers_of(
            row,
            path,
            extended(g, bound_row(row, path, xs), path.rest[i].1, keep, xs, nodes),
        ),
    decreases nodes.len(),
{
    let r = bound_row(row, path, xs);
    let p = path.rest[i].1;
    if nodes.len() > 0 {
        lemma_extended_walkers(g, row, path, keep, i, xs, nodes.drop_last());
        let ys = xs.push(nodes.last());
        assert(ys.drop_last() =~= xs);
        assert(path_node(path, i + 1) == p);
        assert(bound_row(row, path, ys) == bind(r, p.var, nodes.last()));
    }
    assert(arrive(g, r, p, keep, nodes) =~= walkers_of(
        row,
        path,
        extended(g, r, p, keep, xs, nodes),
    ));
}

proof fn lemma_walkers_concat<N>(
    row: RowModel<N>,
    path: PathModel,
    a: Seq<Seq<N>>,
    b: Seq<Seq<N>>,
)
    ensures
        walkers_of(row, path, a + b) == walkers_of(row, path, a) + walkers_of(row, path, b),
{
    assert(walkers_of(row, path, a + b) =~= walkers_of(row, path, a) + walkers_of(row, path, b));
}

proof fn lemma_stepped_walkers<G: GraphProvider>(
    g: &G,
    row: RowModel<G::NodeId>,
    path: PathModel,
    keep: Keep<G::NodeId>,
    i: int,
    all: Seq<Seq<G::NodeId>>,
)
    requires
        0 <= i < path.rest.len(),
        forall|k: int| 0 <= k < all.len() ==> (#[trigger] all[k]).len() == i + 1,
    ensures
        hop_all(
            g,
            walkers_of(row, path, all),
            hop_types(g, path.rest[i].0),
            path.rest[i].0,
            path.rest[i].1,
            keep,
        ) == walkers_of(row, path, stepped(g, row, path, keep, i, all)),
    decreases all.len(),
{
    let walkers = walkers_of(row, path, all);
    if all.len() > 0 {
        let init = all.drop_last();
        let xs = all.last();
        assert(all[all.len() - 1] == xs);
        assert forall|k: int| 0 <= k < init.len() implies (#[trigger] init[k]).len() == i + 1 by {
            assert(init[k] == all[k]);
        }
        lemma_stepped_walkers(g, row, path, keep, i, init);
        assert(walkers.drop_last() =~= walkers_of(row, path, init));
        assert(walkers.last() == (bound_row(row, path, xs), xs.last()));
        let nodes = hop_nodes(g, path, i, xs.last());
        lemma_extended_walkers(g, row, path, keep, i, xs, nodes);
        lemma_walkers_concat(
            row,
            path,
            stepped(g, row, path, keep, i, init),
            extended(g, bound_row(row, path, xs), path.rest[i].1, keep, xs, nodes),
        );
    } else {
        assert(walkers =~= Seq::empty());
        assert(walkers_of(row, path, stepped(g, row, path, keep, i, all)) =~= Seq::empty());
    }
}

/// What the walks with one more node are.
proof fn lemma_extended_contains<G: GraphProvider>(
    g: &G,
    row: RowModel<G::NodeId>,
    p: NodePatternModel,
    keep: Keep<G::NodeId>,
    xs: Seq<G::NodeId>,
    nodes: Seq<G::NodeId>,
    ys: Seq<G::NodeId>,
)
    ensures
        extended(g, row, p, keep, xs, nodes).contains(ys) <==> ys.len() > 0 && ys.drop_last() == xs
            && nodes.contains(ys.last()) && accepts(g, row, p, keep, ys.last()),
        nodes.no_duplicates() ==> extended(g, row, p, keep, xs, nodes).no_duplicates(),
    decreases nodes.len(),
{
    if nodes.len() > 0 {
        let init = nodes.drop_last();
        let x = nodes.last();
        let zs = xs.push(x);
        lemma_extended_contains(g, row, p, keep, xs, init, ys);
        lemma_extended_contains(g, row, p, keep, xs, init, zs);
        assert(zs.drop_last() =~= xs);
        assert(zs.last() == x);
        let before = extended(g, row, p, keep, xs, init);
        lemma_push_contains(before, zs, ys);
        assert(nodes =~= init.push(x));
        if ys.len() > 0 {
            lemma_push_contains(init, x, ys.last());
            assert(ys =~= ys.drop_last().push(ys.last()));
        }
        if nodes.no_duplicates() && init.contains(x) {
            let k = choose|k: int| 0 <= k < init.len() && init[k] == x;
            assert(nodes[k] == nodes[nodes.len() - 1]);
        }
    }
}

proof fn lemma_stepped_contains<G: GraphProvider>(
    g: &G,
    row: RowModel<G::NodeId>,
    path: PathModel,
    keep: Keep<G::NodeId>,
    i: int,
    all: Seq<Seq<G::NodeId>>,
    ys: Seq<G::NodeId>,
)
    ensures
        stepped(g, row, path, keep, i, all).contains(ys) <==> ys.len() > 0 && all.contains(
            ys.drop_last(),
        ) && hop_nodes(g, path, i, ys.drop_last().last()).contains(ys.last()) && accepts(
            g,
            bound_row(row, path, ys.drop_last()),
            path.rest[i].1,
            keep,
            ys.last(),
        ),
    decreases all.len(),
{
    if all.len() > 0 {
        let init = all.drop_last();
        let xs = all.last();
        lemma_stepped_contains(g, row, path, keep, i, init, ys);
        let here = extended(
            g,
            bound_row(row, path, xs),
            path.rest[i].1,
            keep,
            xs,
            hop_nodes(g, path, i, xs.last()),
        );
        lemma_extended_contains(
            g,
            bound_row(row, path, xs),
            path.rest[i].1,
            keep,
            xs,
            hop_nodes(g, path, i, xs.last()),
            ys,
        );
        lemma_concat_contains(stepped(g, row, path, keep, i, init), here, ys);
        assert(all =~= init.push(xs));
        lemma_push_contains(init, xs, ys.drop_last());
    }
}

proof fn lemma_stepped_once<G: GraphProvider>(
    g: &G,
    row: RowModel<G::NodeId>,
    path: PathModel,
    keep: Keep<G::NodeId>,
    i: int,
    all: Seq<Seq<G::NodeId>>,
)
    requires
        coherent(g),
        all.no_duplicates(),
    ensures
        stepped(g, row, path, keep, i, all).no_duplicates(),
    decreases all.len(),
{
    if all.len() > 0 {
        let init = all.drop_last();
        let xs = all.last();
        lemma_stepped_once(g, row, path, keep, i, init);
        let nodes = hop_nodes(g, path, i, xs.last());
        let rel = path.rest[i].0;
        lemma_targets_once(g, xs.last(), hop_types(g, rel), rel.direction, rel.length);
        let before = stepped(g, row, path, keep, i, init);
        let here = extended(g, bound_row(row, path, xs), path.rest[i].1, keep, xs, nodes);
        lemma_extended_contains(
            g,
            bound_row(row, path, xs),
            path.rest[i].1,
            keep,
            xs,
            nodes,
            Seq::empty(),
        );
        assert forall|a: int, b: int|
            0 <= a < before.len() && 0 <= b < here.len() implies before[a] != here[b] by {
            if before[a] == here[b] {
                let ys = here[b];
                assert(before.contains(ys));
                assert(here.contains(ys));
                lemma_stepped_contains(g, row, path, keep, i, init, ys);
                lemma_extended_contains(
                    g,
                    bound_row(row, path, xs),
                    path.rest[i].1,
                    keep,
                    xs,
                    nodes,
                    ys,
                );
                assert(init.contains(xs));
                let k = choose|k: int| 0 <= k < init.len() && init[k] == xs;
                assert(all[k] == all[all.len() - 1]);
            }
        }
        vstd::seq_lib::lemma_no_dup_in_concat(before, here);
    }
}

proof fn lemma_starts_contains<N>(nodes: Seq<N>, xs: Seq<N>)
    ensures
        starts(nodes).contains(xs) <==> xs.len() == 1 && nodes.contains(xs[0]),
        nodes.no_duplicates() ==> starts(nodes).no_duplicates(),
    decreases nodes.len(),
{
    if nodes.len() > 0 {
        let init = nodes.drop_last();
        let x = nodes.last();
        lemma_starts_contains(init, xs);
        lemma_starts_contains(init, seq![x]);
        lemma_push_contains(starts(init), seq![x], xs);
        assert(nodes =~= init.push(x));
        if xs.len() == 1 {
            lemma_push_contains(init, x, xs[0]);
            assert(xs =~= seq![xs[0]]);
        }
        assert(seq![x][0] == x);
        if nodes.no_duplicates() && init.contains(x) {
            let k = choose|k: int| 0 <= k < init.len() && init[k] == x;
            assert(nodes[k] == nodes[nodes.len() - 1]);
        }
    }
}

/// The walks from a row through `m` nodes are the chains of that length, each once.
proof fn lemma_traces<G: GraphProvider>(
    g: &G,
    row: RowModel<G::NodeId>,
    path: PathModel,
    keep: Keep<G::NodeId>,
    m: nat,
)
    requires
        1 <= m <= path.rest.len() + 1,
        coherent(g),
        scans_once(g),
    ensures
        forall|xs: Seq<G::NodeId>| #[trigger]
            traces(g, row, path, keep, m).contains(xs) <==> xs.len() == m && chain(
                g,
                row,
                path,
                xs,
                keep,
            ),
        traces(g, row, path, keep, m).no_duplicates(),
    decreases m,
{
    let all = traces(g, row, path, keep, m);
    if m == 1 {
        let nodes = candidates(g, row, path.start, keep);
        lemma_suitable_once(g, path.start, keep, g.nodes_with(path.start.labels));
        assert(nodes.no_duplicates());
        lemma_starts_contains(nodes, Seq::empty());
        assert forall|xs: Seq<G::NodeId>| #[trigger] all.contains(xs) <==> xs.len() == m && chain(
            g,
            row,
            path,
            xs,
            keep,
        ) by {
            lemma_starts_contains(nodes, xs);
        }
    } else {
        let before = traces(g, row, path, keep, (m - 1) as nat);
        lemma_traces(g, row, path, keep, (m - 1) as nat);
        lemma_stepped_once(g, row, path, keep, m - 2, before);
        assert forall|xs: Seq<G::NodeId>| #[trigger] all.contains(xs) <==> xs.len() == m && chain(
            g,
            row,
            path,
            xs,
            keep,
        ) by {
            lemma_stepped_contains(g, row, path, keep, m - 2, before, xs);
            if xs.len() == m {
                assert(xs.drop_last().last() == xs[m - 2]);
                assert(path_node(path, m - 1) == path.rest[m - 2].1);
                assert(before.contains(xs.drop_last()) <==> chain(
                    g,
                    row,
                    path,
                    xs.drop_last(),
                    keep,
                ));
            } else if xs.len() > 0 {
                assert(!before.contains(xs.drop_last()));
            }
        }
    }
}

/// The walkers along a path are those of the walks.
proof fn lemma_walk_traces<G: GraphProvider>(
    g: &G,
    row: RowModel<G::NodeId>,
    path: PathModel,
    keep: Keep<G::NodeId>,
    m: nat,
)
    requires
        1 <= m <= path.rest.len() + 1,
        coherent(g),
        scans_once(g),
    ensures
        walk(
            g,
            walkers_of(row, path, traces(g, row, path, keep, m)),
            path.rest,
            m - 1,
            keep,
        ) matches Ok(out) ==> out == walkers_of(
            row,
            path,
            traces(g, row, path, keep, path.rest.len() + 1),
        ),
    decreases path.rest.len() + 1 - m,
{
    if m <= path.rest.len() {
        let all = traces(g, row, path, keep, m);
        lemma_traces(g, row, path, keep, m);
        assert forall|k: int| 0 <= k < all.len() implies (#[trigger] all[k]).len() == (m - 1)
            + 1 by {
            assert(all.contains(all[k]));
        }
        if resolve_types(g, path.rest[m - 1].0.types) is Ok {
            lemma_stepped_walkers(g, row, path, keep, m - 1, all);
            lemma_walk_traces(g, row, path, keep, m + 1);
        }
    }
}

/// The rows that a path makes of one row are those of the walks.
proof fn lemma_rows_of_traces<G: GraphProvider>(
    g: &G,
    row: RowModel<G::NodeId>,
    path: PathModel,
    keep: Keep<G::NodeId>,
)
    requires
        coherent(g),
        scans_once(g),
    ensures
        match_as_written(g, seq![row], path, keep) matches Ok(out) ==> out == rows_of(
            row,
            path,
            traces(g, row, path, keep, path.rest.len() + 1),
        ),
{
    let nodes = candidates(g, row, path.start, keep);
    lemma_starts_walkers(row, path, nodes);
    assert(seq![row].drop_last() =~= Seq::empty());
    assert(begin_all(g, seq![row].drop_last(), path.start, keep) == Seq::<
        Walker<G::NodeId>,
    >::empty());
    assert(begin_all(g, seq![row], path.start, keep) =~= begin(row, path.start.var, nodes));
    lemma_walk_traces(g, row, path, keep, 1);
    if let Ok(out) = match_as_written(g, seq![row], path, keep) {
        assert(out =~= rows_of(
            row,
            path,
            traces(g, row, path, keep, path.rest.len() + 1),
        ));
    }
}

// ---- Kept walks ------------------------------------------------------------------

/// The walks to rows whose bindings are all kept.
spec fn kept_traces<N>(
    row: RowModel<N>,
    path: PathModel,
    all: Seq<Seq<N>>,
    keep: Keep<N>,
) -> Seq<Seq<N>>
    decreases all.len(),
{
    if all.len() == 0 {
        Seq::empty()
    } else if all_kept(bound_row(row, path, all.last()), keep) {
        kept_traces(row, path, all.drop_last(), keep).push(all.last())
    } else {
        kept_traces(row, path, all.drop_last(), keep)
    }
}

proof fn lemma_kept_traces<N>(row: RowModel<N>, path: PathModel, all: Seq<Seq<N>>, keep: Keep<N>)
    ensures
        keepers(rows_of(row, path, all), keep) == rows_of(
            row,
            path,
            kept_traces(row, path, all, keep),
        ),
        forall|xs: Seq<N>| #[trigger]
            kept_traces(row, path, all, keep).contains(xs) <==> all.contains(xs) && all_kept(
                bound_row(row, path, xs),
                keep,
            ),
        all.no_duplicates() ==> kept_traces(row, path, all, keep).no_duplicates(),
    decreases all.len(),
{
    let some = kept_traces(row, path, all, keep);
    if all.len() > 0 {
        let init = all.drop_last();
        let last = all.last();
        let before = kept_traces(row, path, init, keep);
        lemma_kept_traces(row, path, init, keep);
        assert(rows_of(row, path, all).drop_last() =~= rows_of(row, path, init));
        assert(rows_of(row, path, all).last() == bound_row(row, path, last));
        assert(rows_of(row, path, before.push(last)) =~= rows_of(row, path, before).push(
            bound_row(row, path, last),
        ));
        assert(all =~= init.push(last));
        assert forall|xs: Seq<N>| #[trigger] some.contains(xs) <==> all.contains(xs) && all_kept(
            bound_row(row, path, xs),
            keep,
        ) by {
            lemma_push_contains(init, last, xs);
            lemma_push_contains(before, last, xs);
            assert(before.contains(xs) <==> init.contains(xs) && all_kept(
                bound_row(row, path, xs),
                keep,
            ));
        }
        if all.no_duplicates() {
            if before.contains(last) {
                assert(init.contains(last));
                let k = choose|k: int| 0 <= k < init.len() && init[k] == last;
                assert(all[k] == all[all.len() - 1]);
            }
        }
    } else {
        assert(rows_of(row, path, all) =~= Seq::empty());
        assert(keepers(rows_of(row, path, all), keep) =~= rows_of(row, path, some));
    }
}

// ---- The other end ---------------------------------------------------------------

/// A walk to a kept row, seen from its other end, is a walk along the reversed path to the same
/// row.
proof fn lemma_chain_reversed<G: GraphProvider>(
    g: &G,
    row: RowModel<G::NodeId>,
    path: PathModel,
    keep: Keep<G::NodeId>,
    xs: Seq<G::NodeId>,
)
    requires
        coherent(g),
        row_in_graph(g, row),
        xs.len() == path.rest.len() + 1,
        chain(g, row, path, xs, keep),
        all_kept(bound_row(row, path, xs), keep),
    ensures
        chain(g, row, reversed(path), xs.reverse(), keep),
        bound_row(row, reversed(path), xs.reverse()) == bound_row(row, path, xs),
{
    let r = bound_row(row, path, xs);
    let ys = xs.reverse();
    lemma_chain_along(g, row, path, xs, keep);
    lemma_along_reversed(g, path, xs);
    lemma_binds_reversed(row, path, xs, r);
    lemma_along_chain(g, row, reversed(path), ys, r, keep, ys.len() as int);
    assert(ys.take(ys.len() as int) =~= ys);
    lemma_binds_unique(row, reversed(path), ys, r, bound_row(row, reversed(path), ys));
}

/// The walks seen from their other ends.
spec fn turned<N>(all: Seq<Seq<N>>) -> Seq<Seq<N>> {
    Seq::new(all.len(), |k: int| all[k].reverse())
}

proof fn lemma_rows_flat<N>(row: RowModel<N>, path: PathModel, all: Seq<Seq<N>>)
    ensures
        rows_of(row, path, all) == flat(all, |xs: Seq<N>| seq![bound_row(row, path, xs)]),
    decreases all.len(),
{
    let f = |xs: Seq<N>| seq![bound_row(row, path, xs)];
    if all.len() > 0 {
        lemma_rows_flat(row, path, all.drop_last());
        assert(rows_of(row, path, all) =~= rows_of(row, path, all.drop_last()) + f(all.last()));
    } else {
        assert(rows_of(row, path, all) =~= Seq::empty());
    }
}

/// Walks that are one another seen from their other ends lead to the same rows, equally often.
proof fn lemma_turned_rows<N>(
    row: RowModel<N>,
    path: PathModel,
    back: PathModel,
    u: Seq<Seq<N>>,
    v: Seq<Seq<N>>,
)
    requires
        u.no_duplicates(),
        v.no_duplicates(),
        forall|k: int|
            0 <= k < u.len() ==> v.contains((#[trigger] u[k]).reverse()) && bound_row(
                row,
                back,
                u[k].reverse(),
            ) == bound_row(row, path, u[k]),
        forall|k: int| 0 <= k < v.len() ==> u.contains((#[trigger] v[k]).reverse()),
    ensures
        same_bag(rows_of(row, path, u), rows_of(row, back, v)),
{
    let w = turned(u);
    assert forall|ys: Seq<N>| w.contains(ys) <==> #[trigger] v.contains(ys) by {
        if w.contains(ys) {
            let k = choose|k: int| 0 <= k < w.len() && w[k] == ys;
            assert(v.contains(u[k].reverse()));
        }
        if v.contains(ys) {
            let j = choose|j: int| 0 <= j < v.len() && v[j] == ys;
            assert(u.contains(v[j].reverse()));
            let k = choose|k: int| 0 <= k < u.len() && u[k] == ys.reverse();
            assert(ys.reverse().reverse() =~= ys);
            assert(w[k] == ys);
        }
    }
    assert forall|i: int, j: int| 0 <= i < w.len() && 0 <= j < w.len() && i != j implies w[i]
        != w[j] by {
        if w[i] == w[j] {
            assert(u[i] =~= u[i].reverse().reverse());
            assert(u[j] =~= u[j].reverse().reverse());
            assert(u[i] == u[j]);
        }
    }
    lemma_unique_same_bag(w, v);
    lemma_rows_flat(row, back, w);
    lemma_rows_flat(row, back, v);
    lemma_flat_permutes(w, v, |xs: Seq<N>| seq![bound_row(row, back, xs)]);
    assert forall|k: int| 0 <= k < u.len() implies #[trigger] rows_of(row, back, w)[k] == rows_of(
        row,
        path,
        u,
    )[k] by {
        assert(w[k] == u[k].reverse());
        assert(v.contains(u[k].reverse()));
    }
    assert(rows_of(row, back, w) =~= rows_of(row, path, u));
}

/// The kept walks from a row are those from the other end, turned round.
proof fn lemma_kept_turned<G: GraphProvider>(
    g: &G,
    row: RowModel<G::NodeId>,
    path: PathModel,
    keep: Keep<G::NodeId>,
    xs: Seq<G::NodeId>,
)
    requires
        coherent(g),
        scans_once(g),
        row_in_graph(g, row),
        kept_traces(
            row,
            path,
            traces(g, row, path, keep, path.rest.len() + 1),
            keep,
        ).contains(xs),
    ensures
        kept_traces(
            row,
            reversed(path),
            traces(g, row, reversed(path), keep, path.rest.len() + 1),
            keep,
        ).contains(xs.reverse()),
        bound_row(row, reversed(path), xs.reverse()) == bound_row(row, path, xs),
{
    let back = reversed(path);
    let n = path.rest.len() + 1;
    let s = traces(g, row, path, keep, n);
    let t = traces(g, row, back, keep, n);
    lemma_traces(g, row, path, keep, n);
    lemma_traces(g, row, back, keep, n);
    lemma_kept_traces(row, path, s, keep);
    lemma_kept_traces(row, back, t, keep);
    assert(s.contains(xs));
    lemma_chain_reversed(g, row, path, keep, xs);
    assert(t.contains(xs.reverse()));
}

/// A path makes of one row each kept row equally often from both ends.
proof fn lemma_one_row_reversed<G: GraphProvider>(
    g: &G,
    row: RowModel<G::NodeId>,
    path: PathModel,
    keep: Keep<G::NodeId>,
)
    requires
        coherent(g),
        scans_once(g),
        row_in_graph(g, row),
        types_known(g, path),
    ensures
        same_bag(
            keepers(match_as_written(g, seq![row], path, keep)->Ok_0, keep),
            keepers(match_as_written(g, seq![row], reversed(path), keep)->Ok_0, keep),
        ),
{
    let back = reversed(path);
    let n = path.rest.len() + 1;
    lemma_types_known_reversed(g, path);
    lemma_rows_of_walks(g, seq![row], path, keep, row);
    lemma_rows_of_walks(g, seq![row], back, keep, row);
    lemma_rows_of_traces(g, row, path, keep);
    lemma_rows_of_traces(g, row, back, keep);
    let s = traces(g, row, path, keep, n);
    let t = traces(g, row, back, keep, n);
    lemma_traces(g, row, path, keep, n);
    lemma_traces(g, row, back, keep, n);
    lemma_kept_traces(row, path, s, keep);
    lemma_kept_traces(row, back, t, keep);
    let u = kept_traces(row, path, s, keep);
    let v = kept_traces(row, back, t, keep);
    assert forall|k: int| 0 <= k < u.len() implies v.contains((#[trigger] u[k]).reverse())
        && bound_row(row, back, u[k].reverse()) == bound_row(row, path, u[k]) by {
        assert(u.contains(u[k]));
        lemma_kept_turned(g, row, path, keep, u[k]);
    }
    assert forall|k: int| 0 <= k < v.len() implies u.contains((#[trigger] v[k]).reverse()) by {
        assert(v.contains(v[k]));
        lemma_reversed_twice(path);
        lemma_kept_turned(g, row, back, keep, v[k]);
    }
    lemma_turned_rows(row, path, back, u, v);
}

// ---- Rows one by one -------------------------------------------------------------

proof fn lemma_hop_concat<G: GraphProvider>(
    g: &G,
    a: Seq<Walker<G::NodeId>>,
    b: Seq<Walker<G::NodeId>>,
    types: Seq<Text>,
    rel: RelPatternModel,
    p: NodePatternModel,
    keep: Keep<G::NodeId>,
)
    ensures
        hop_all(g, a + b, types, rel, p, keep) == hop_all(g, a, types, rel, p, keep) + hop_all(
            g,
            b,
            types,
            rel,
            p,
            keep,
        ),
    decreases b.len(),
{
    if b.len() == 0 {
        assert(a + b =~= a);
        assert(hop_all(g, a, types, rel, p, keep) + hop_all(g, b, types, rel, p, keep)
            =~= hop_all(g, a, types, rel, p, keep));
    } else {
        lemma_hop_concat(g, a, b.drop_last(), types, rel, p, keep);
        assert((a + b).drop_last() =~= a + b.drop_last());
        assert((a + b).last() == b.last());
        assert(hop_all(g, a + b, types, rel, p, keep) =~= hop_all(g, a, types, rel, p, keep)
            + hop_all(g, b, types, rel, p, keep));
    }
}

proof fn lemma_walk_concat<G: GraphProvider>(
    g: &G,
    a: Seq<Walker<G::NodeId>>,
    b: Seq<Walker<G::NodeId>>,
    path: PathModel,
    i: int,
    keep: Keep<G::NodeId>,
)
    ensures
        walk(g, a + b, path.rest, i, keep) matches Ok(out) ==> walk(g, a, path.rest, i, keep) is Ok
            && walk(g, b, path.rest, i, keep) is Ok && out == walk(
            g,
            a,
            path.rest,
            i,
            keep,
        )->Ok_0 + walk(g, b, path.rest, i, keep)->Ok_0,
    decreases path.rest.len() - i,
{
    if 0 <= i < path.rest.len() {
        if let Ok(types) = resolve_types(g, path.rest[i].0.types) {
            let rel = path.rest[i].0;
            let p = path.rest[i].1;
            lemma_hop_concat(g, a, b, types, rel, p, keep);
            lemma_walk_concat(
                g,
                hop_all(g, a, types, rel, p, keep),
                hop_all(g, b, types, rel, p, keep),
                path,
                i + 1,
                keep,
            );
        }
    }
}

/// A path makes of rows what it makes of each of them, one after the other.
pub proof fn lemma_rows_one_by_one<G: GraphProvider>(
    g: &G,
    base: Seq<RowModel<G::NodeId>>,
    path: PathModel,
    keep: Keep<G::NodeId>,
)
    requires
        types_known(g, path),
    ensures
        match_as_written(g, base, path, keep) is Ok,
        match_as_written(g, base, path, keep)->Ok_0 == flat(base, of_one(g, path, keep)),
    decreases base.len(),
{
    lemma_rows_of_walks(g, base, path, keep, Map::empty());
    let f = of_one(g, path, keep);
    if base.len() == 0 {
        let out = match_as_written(g, base, path, keep)->Ok_0;
        if out.len() > 0 {
            lemma_rows_of_walks(g, base, path, keep, out[0]);
            assert(out.contains(out[0]));
        }
        assert(out =~= Seq::empty());
    } else {
        let init = base.drop_last();
        let last = base.last();
        lemma_rows_one_by_one(g, init, path, keep);
        lemma_rows_of_walks(g, seq![last], path, keep, Map::empty());
        let a = begin_all(g, init, path.start, keep);
        let b = begin_all(g, seq![last], path.start, keep);
        assert(seq![last].drop_last() =~= Seq::empty());
        assert(seq![last].last() == last);
        assert(begin_all(g, seq![last].drop_last(), path.start, keep) == Seq::<
            Walker<G::NodeId>,
        >::empty());
        assert(b =~= begin(last, path.start.var, candidates(g, last, path.start, keep)));
        assert(begin_all(g, base, path.start, keep) == a + b);
        lemma_walk_concat(g, a, b, path, 0, keep);
        let x = walk(g, a, path.rest, 0, keep)->Ok_0;
        let y = walk(g, b, path.rest, 0, keep)->Ok_0;
        assert(walker_rows(x + y) =~= walker_rows(x) + walker_rows(y));
    }
}

/// What a path makes of a single row.
pub open spec fn of_one<G: GraphProvider>(
    g: &G,
    path: PathModel,
    keep: Keep<G::NodeId>,
) -> spec_fn(RowModel<G::NodeId>) -> Seq<RowModel<G::NodeId>> {
    |row: RowModel<G::NodeId>| match_as_written(g, seq![row], path, keep)->Ok_0
}

/// The kept rows, row by row.
pub proof fn lemma_keepers_flat<N>(
    base: Seq<RowModel<N>>,
    f: spec_fn(RowModel<N>) -> Seq<RowModel<N>>,
    keep: Keep<N>,
)
    ensures
        keepers(flat(base, f), keep) == flat(base, |row: RowModel<N>| keepers(f(row), keep)),
    decreases base.len(),
{
    if base.len() > 0 {
        lemma_keepers_flat(base.drop_last(), f, keep);
        lemma_keepers_concat(flat(base.drop_last(), f), f(base.last()), keep);
    }
}

/// Walking a path from its other end makes each row equally often: it succeeds on the same graphs,
/// and the rows whose bindings are all kept come out of both walks as one multiset.
pub proof fn lemma_reversal_same_multiset<G: GraphProvider>(
    g: &G,
    base: Seq<RowModel<G::NodeId>>,
    path: PathModel,
    keep: Keep<G::NodeId>,
)
    requires
        coherent(g),
        scans_once(g),
        forall|j: int| 0 <= j < base.len() ==> row_in_graph(g, #[trigger] base[j]),
    ensures
        match_as_written(g, base, path, keep) is Ok <==> types_known(g, path),
        match_as_written(g, base, reversed(path), keep) is Ok <==> types_known(g, path),
        types_known(g, path) ==> same_bag(
            keepers(match_as_written(g, base, path, keep)->Ok_0, keep),
            keepers(match_as_written(g, base, reversed(path), keep)->Ok_0, keep),
        ),
{
    let back = reversed(path);
    lemma_rows_of_walks(g, base, path, keep, Map::empty());
    lemma_rows_of_walks(g, base, back, keep, Map::empty());
    if types_known(g, back) {
        lemma_types_known_reversed(g, back);
        lemma_reversed_twice(path);
    }
    if types_known(g, path) {
        lemma_types_known_reversed(g, path);
        lemma_rows_one_by_one(g, base, path, keep);
        lemma_rows_one_by_one(g, base, back, keep);
        let f = of_one(g, path, keep);
        let h = of_one(g, back, keep);
        lemma_keepers_flat(base, f, keep);
        lemma_keepers_flat(base, h, keep);
        let u = |row: RowModel<G::NodeId>| keepers(f(row), keep);
        let v = |row: RowModel<G::NodeId>| keepers(h(row), keep);
        assert forall|k: int| 0 <= k < base.len() implies same_bag(
            u(#[trigger] base[k]),
            v(base[k]),
        ) by {
            lemma_one_row_reversed(g, base[k], path, keep);
        }
        lemma_flat_alike(base, u, v);
    }
}

/// Which end a path is walked from has no part in how often it makes a row: the rows whose bindings
/// are all kept are, as a multiset, those of the path walked as it is written.
pub proof fn lemma_plan_same_multiset<G: GraphProvider>(
    g: &G,
    base: Seq<RowModel<G::NodeId>>,
    path: PathModel,
    keep: Keep<G::NodeId>,
)
    requires
        coherent(g),
        scans_once(g),
        forall|j: int| 0 <= j < base.len() ==> row_in_graph(g, #[trigger] base[j]),
    ensures
        match_path(g, base, path, keep) is Ok <==> types_known(g, path),
        types_known(g, path) ==> same_bag(
            keepers(match_path(g, base, path, keep)->Ok_0, keep),
            keepers(match_as_written(g, base, path, keep)->Ok_0, keep),
        ),
{
    lemma_reversal_same_multiset(g, base, path, keep);
}

/// Without a filter every row is kept.
pub proof fn lemma_all_are_keepers<N>(rows: Seq<RowModel<N>>)
    ensures
        keepers(rows, keep_all()) == rows,
    decreases rows.len(),
{
    if rows.len() > 0 {
        lemma_all_are_keepers(rows.drop_last());
        assert(all_kept(rows.last(), keep_all()));
        assert(rows =~= rows.drop_last().push(rows.last()));
    }
}

/// Without a filter, a path makes the same multiset of rows from both ends; each of them keeps the
/// bindings of the row that it comes from, and adds only variables of the path's nodes, bound to
/// nodes.
pub proof fn lemma_both_ends_same_rows<G: GraphProvider>(
    g: &G,
    base: Seq<RowModel<G::NodeId>>,
    path: PathModel,
)
    requires
        coherent(g),
        scans_once(g),
        forall|j: int| 0 <= j < base.len() ==> row_in_graph(g, #[trigger] base[j]),
        types_known(g, path),
    ensures
        match_path(g, base, path, keep_all()) is Ok,
        match_path(g, base, reversed(path), keep_all()) is Ok,
        match_path(g, base, path, keep_all())->Ok_0.to_multiset() == match_path(
            g,
            base,
            reversed(path),
            keep_all(),
        )->Ok_0.to_multiset(),
        forall|r: RowModel<G::NodeId>| #[trigger]
            match_path(g, base, path, keep_all())->Ok_0.contains(r) ==> bound_from(base, path, r),
{
    let keep = keep_all::<G::NodeId>();
    let back = reversed(path);
    lemma_types_known_reversed(g, path);
    lemma_reversed_twice(path);
    lemma_plan_same_multiset(g, base, path, keep);
    lemma_plan_same_multiset(g, base, back, keep);
    lemma_reversal_same_multiset(g, base, path, keep);
    let out = match_path(g, base, path, keep)->Ok_0;
    let written = match_as_written(g, base, path, keep)->Ok_0;
    lemma_all_are_keepers(out);
    lemma_all_are_keepers(match_path(g, base, back, keep)->Ok_0);
    lemma_all_are_keepers(written);
    lemma_all_are_keepers(match_as_written(g, base, back, keep)->Ok_0);
    assert forall|r: RowModel<G::NodeId>| #[trigger] out.contains(r) implies bound_from(
        base,
        path,
        r,
    ) by {
        lemma_same_bag_contains(out, written, r);
        lemma_rows_of_walks(g, base, path, keep, r);
        let (j, xs) = choose|j: int, xs: Seq<G::NodeId>|
            0 <= j < base.len() && xs.len() == path.rest.len() + 1 && #[trigger] chain(
                g,
                base[j],
                path,
                xs,
                keep,
            ) && r == bound_row(base[j], path, xs);
        lemma_chain_along(g, base[j], path, xs, keep);
        assert(binds_exactly(base[j], path, xs, r));
    }
}

/// Whether a row keeps the bindings of one of the rows, and binds beside them only variables of the
/// nodes of a path, each to the node at its place.
pub open spec fn bound_from<N>(base: Seq<RowModel<N>>, path: PathModel, r: RowModel<N>) -> bool {
    exists|j: int, xs: Seq<N>|
        0 <= j < base.len() && xs.len() == path.rest.len() + 1 && #[trigger] binds_exactly(
            base[j],
            path,
            xs,
            r,
        )
}

// ---- How often a row comes out -----------------------------------------------------

/// Whether the variables of a path can be bound to nodes beside the bindings of a row.
pub open spec fn agrees<N>(row: RowModel<N>, path: PathModel, xs: Seq<N>) -> bool {
    exists|r: RowModel<N>| binds_exactly(row, path, xs, r)
}

proof fn lemma_chain_agrees<G: GraphProvider>(
    g: &G,
    row: RowModel<G::NodeId>,
    path: PathModel,
    xs: Seq<G::NodeId>,
)
    requires
        coherent(g),
        row_in_graph(g, row),
        xs.len() == path.rest.len() + 1,
    ensures
        chain(g, row, path, xs, keep_all()) <==> along(g, path, xs) && agrees(row, path, xs),
        chain(g, row, path, xs, keep_all()) ==> binds_exactly(
            row,
            path,
            xs,
            bound_row(row, path, xs),
        ),
{
    let keep = keep_all::<G::NodeId>();
    if chain(g, row, path, xs, keep) {
        lemma_chain_along(g, row, path, xs, keep);
    }
    if along(g, path, xs) && agrees(row, path, xs) {
        let r = choose|r: RowModel<G::NodeId>| binds_exactly(row, path, xs, r);
        assert(all_kept(r, keep));
        lemma_along_chain(g, row, path, xs, r, keep, xs.len() as int);
        assert(xs.take(xs.len() as int) =~= xs);
    }
}

/// A path makes of one row exactly one row for each walk along it that agrees with the bindings of
/// the row.
pub proof fn lemma_one_row_per_walk<G: GraphProvider>(
    g: &G,
    row: RowModel<G::NodeId>,
    path: PathModel,
) -> (ways: Seq<Seq<G::NodeId>>)
    requires
        coherent(g),
        scans_once(g),
        row_in_graph(g, row),
        types_known(g, path),
    ensures
        match_path(g, seq![row], path, keep_all()) is Ok,
        match_path(g, seq![row], path, keep_all())->Ok_0.len() == ways.len(),
        ways.no_duplicates(),
        forall|k: int|
            0 <= k < ways.len() ==> binds_exactly(
                row,
                path,
                #[trigger] ways[k],
                match_path(g, seq![row], path, keep_all())->Ok_0[k],
            ),
        forall|xs: Seq<G::NodeId>| #[trigger]
            ways.contains(xs) <==> xs.len() == path.rest.len() + 1 && along(g, path, xs) && agrees(
                row,
                path,
                xs,
            ),
{
    let keep = keep_all::<G::NodeId>();
    let base = seq![row];
    let way = planned(path, base);
    let n = (path.rest.len() + 1) as nat;
    let back = walks_back(path, base);
    if back {
        lemma_types_known_reversed(g, path);
        lemma_reversed_twice(path);
    }
    assert(row_in_graph(g, base[0]));
    lemma_rows_along(g, base, way, keep, row);
    let all = traces(g, row, way, keep, n);
    lemma_traces(g, row, way, keep, n);
    lemma_rows_of_traces(g, row, way, keep);
    let out = match_path(g, base, path, keep)->Ok_0;
    let ways = if back {
        turned(all)
    } else {
        all
    };
    assert forall|k: int| 0 <= k < ways.len() implies binds_exactly(
        row,
        path,
        #[trigger] ways[k],
        out[k],
    ) by {
        assert(all.contains(all[k]));
        lemma_chain_agrees(g, row, way, all[k]);
        assert(out[k] == bound_row(row, way, all[k]));
        if back {
            lemma_binds_reversed(row, way, all[k], out[k]);
        }
    }
    assert forall|xs: Seq<G::NodeId>| #[trigger]
        ways.contains(xs) <==> xs.len() == n && along(g, path, xs) && agrees(row, path, xs) by {
        if back {
            lemma_turned_contains(all, xs);
            assert(xs.reverse().reverse() =~= xs);
            if xs.len() == n {
                lemma_chain_agrees(g, row, way, xs.reverse());
                if along(g, path, xs) && agrees(row, path, xs) {
                    let r = choose|r: RowModel<G::NodeId>| binds_exactly(row, path, xs, r);
                    lemma_along_reversed(g, path, xs);
                    lemma_binds_reversed(row, path, xs, r);
                    assert(agrees(row, way, xs.reverse()));
                }
                if along(g, way, xs.reverse()) && agrees(row, way, xs.reverse()) {
                    let r = choose|r: RowModel<G::NodeId>| binds_exactly(row, way, xs.reverse(), r);
                    lemma_along_reversed(g, way, xs.reverse());
                    lemma_binds_reversed(row, way, xs.reverse(), r);
                    assert(agrees(row, path, xs));
                }
            }
        } else if xs.len() == n {
            lemma_chain_agrees(g, row, way, xs);
        }
    }
    if back {
        assert(ways.no_duplicates()) by {
            assert forall|i: int, j: int|
                0 <= i < ways.len() && 0 <= j < ways.len() && i != j implies ways[i]
                != ways[j] by {
                assert(all[i].reverse().reverse() =~= all[i]);
                assert(all[j].reverse().reverse() =~= all[j]);
            }
        }
    }
    ways
}

proof fn lemma_turned_contains<N>(all: Seq<Seq<N>>, xs: Seq<N>)
    ensures
        turned(all).contains(xs) <==> all.contains(xs.reverse()),
{
    if turned(all).contains(xs) {
        let k = choose|k: int| 0 <= k < all.len() && turned(all)[k] == xs;
        assert(all[k].reverse().reverse() =~= all[k]);
        assert(all[k] == xs.reverse());
    }
    if all.contains(xs.reverse()) {
        let k = choose|k: int| 0 <= k < all.len() && all[k] == xs.reverse();
        assert(xs.reverse().reverse() =~= xs);
        assert(turned(all)[k] == xs);
    }
}

} // verus!
