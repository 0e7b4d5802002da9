//! Laws of traversal: what a hop leads to, said in terms of the edges of the graph.

use vstd::prelude::*;

use crate::ast::{Direction, VarLength};
use crate::pattern::{
    flip, labels_ok, level, levels, max_length, neighbours, neighbours_by_type, neighbours_of_all,
    reached, targets,
};
use crate::provider::{hits, incoming, leading_to, GraphProvider};
use crate::seqs::{lemma_concat_contains, lemma_fresh_elements, lemma_push_contains};
use crate::text::Text;

verus! {

/// Whether an edge of the type leads from `a` to `b`.
pub open spec fn edge<G: GraphProvider>(g: &G, rel: Text, a: G::NodeId, b: G::NodeId) -> bool {
    g.edges(rel)(a).contains(b)
}

/// Whether the sources of a relationship type include every node with an outgoing edge of it.
pub open spec fn sources_cover<G: GraphProvider>(g: &G, rel: Text) -> bool {
    forall|a: G::NodeId, b: G::NodeId| #[trigger]
        edge(g, rel, a, b) ==> g.sources(rel).contains(a)
}

/// Whether a node is one of the graph's.
pub open spec fn in_graph<G: GraphProvider>(g: &G, node: G::NodeId) -> bool {
    g.nodes_with(Seq::empty()).contains(node)
}

/// Whether what the graph says of itself fits together: a scan finds the nodes with one of the
/// labels, the sources of a relationship type include every node with an outgoing edge, and edges
/// connect nodes of the graph.
pub open spec fn coherent<G: GraphProvider>(g: &G) -> bool {
    &&& forall|labels: Seq<Text>, n: G::NodeId| #[trigger]
        g.nodes_with(labels).contains(n) <==> in_graph(g, n) && labels_ok(g, n, labels)
    &&& forall|rel: Text, a: G::NodeId, b: G::NodeId| #[trigger]
        edge(g, rel, a, b) ==> g.sources(rel).contains(a) && in_graph(g, a) && in_graph(g, b)
}

/// Whether a relationship of the type connects `a` to `b` in the direction.
pub open spec fn adjacent<G: GraphProvider>(
    g: &G,
    a: G::NodeId,
    b: G::NodeId,
    rel: Text,
    direction: Direction,
) -> bool {
    match direction {
        Direction::Outgoing => edge(g, rel, a, b),
        Direction::Incoming => edge(g, rel, b, a),
        Direction::Both => edge(g, rel, a, b) || edge(g, rel, b, a),
    }
}

/// Whether a relationship of one of the types connects `a` to `b` in the direction.
pub open spec fn connected<G: GraphProvider>(
    g: &G,
    a: G::NodeId,
    b: G::NodeId,
    types: Seq<Text>,
    direction: Direction,
) -> bool {
    exists|t: int| 0 <= t < types.len() && adjacent(g, a, b, #[trigger] types[t], direction)
}

/// Whether a walk of `k` steps leads from `a` to `b`.
pub open spec fn walk_exists<G: GraphProvider>(
    g: &G,
    a: G::NodeId,
    b: G::NodeId,
    types: Seq<Text>,
    direction: Direction,
    k: nat,
) -> bool
    decreases k,
{
    if k == 0 {
        a == b
    } else {
        exists|c: G::NodeId| #[trigger]
            connected(g, c, b, types, direction) && walk_exists(
                g,
                a,
                c,
                types,
                direction,
                (k - 1) as nat,
            )
    }
}

/// Whether the shortest walk from `a` to `b` has `k` steps.
pub open spec fn distance<G: GraphProvider>(
    g: &G,
    a: G::NodeId,
    b: G::NodeId,
    types: Seq<Text>,
    direction: Direction,
    k: nat,
) -> bool {
    &&& walk_exists(g, a, b, types, direction, k)
    &&& forall|j: nat| j < k ==> !#[trigger] walk_exists(g, a, b, types, direction, j)
}

// ---- Neighbours ------------------------------------------------------------------

proof fn lemma_hits<N>(found: Seq<N>, node: N, source: N, x: N)
    ensures
        hits(found, node, source).contains(x) <==> x == source && found.contains(node),
    decreases found.len(),
{
    if found.len() > 0 {
        let init = found.drop_last();
        lemma_hits(init, node, source, x);
        assert(found =~= init.push(found.last()));
        lemma_push_contains(init, found.last(), node);
        lemma_push_contains(hits(init, node, source), source, x);
    }
}

proof fn lemma_leading_to<N>(sources: Seq<N>, edges: spec_fn(N) -> Seq<N>, node: N, x: N)
    ensures
        leading_to(sources, edges, node).contains(x) <==> sources.contains(x) && edges(x).contains(
            node,
        ),
    decreases sources.len(),
{
    if sources.len() > 0 {
        let init = sources.drop_last();
        let last = sources.last();
        lemma_leading_to(init, edges, node, x);
        assert(sources =~= init.push(last));
        lemma_push_contains(init, last, x);
        lemma_hits(edges(last), node, last, x);
        lemma_concat_contains(
            leading_to(init, edges, node),
            hits(edges(last), node, last),
            x,
        );
    }
}

/// The incoming neighbours of a node are those with an edge to it, found with or without the help
/// of the graph.
pub proof fn lemma_incoming<G: GraphProvider>(g: &G, node: G::NodeId, rel: Text, x: G::NodeId)
    requires
        sources_cover(g, rel),
    ensures
        incoming(g, node, rel).contains(x) <==> edge(g, rel, x, node),
{
    lemma_leading_to(g.sources(rel), g.edges(rel), node, x);
}

proof fn lemma_neighbours<G: GraphProvider>(
    g: &G,
    a: G::NodeId,
    b: G::NodeId,
    rel: Text,
    direction: Direction,
)
    requires
        coherent(g),
    ensures
        neighbours(g, a, rel, direction).contains(b) <==> adjacent(g, a, b, rel, direction),
{
    let forward = g.edges(rel)(a);
    let backward = incoming(g, a, rel);
    lemma_incoming(g, a, rel, b);
    lemma_concat_contains(forward, backward, b);
    lemma_fresh_elements(forward, Set::empty());
    lemma_fresh_elements(backward, Set::empty());
    lemma_fresh_elements(forward + backward, Set::empty());
}

proof fn lemma_by_type<G: GraphProvider>(
    g: &G,
    a: G::NodeId,
    b: G::NodeId,
    types: Seq<Text>,
    direction: Direction,
)
    requires
        coherent(g),
    ensures
        neighbours_by_type(g, a, types, direction).contains(b) <==> connected(
            g,
            a,
            b,
            types,
            direction,
        ),
    decreases types.len(),
{
    if types.len() > 0 {
        let init = types.drop_last();
        let last = types.last();
        lemma_by_type(g, a, b, init, direction);
        lemma_neighbours(g, a, b, last, direction);
        lemma_concat_contains(
            neighbours_by_type(g, a, init, direction),
            neighbours(g, a, last, direction),
            b,
        );
        if connected(g, a, b, init, direction) {
            let t = choose|t: int|
                0 <= t < init.len() && adjacent(g, a, b, #[trigger] init[t], direction);
            assert(types[t] == init[t]);
        }
        if adjacent(g, a, b, last, direction) {
            assert(types[types.len() - 1] == last);
        }
        if connected(g, a, b, types, direction) && !adjacent(g, a, b, last, direction) {
            let t = choose|t: int|
                0 <= t < types.len() && adjacent(g, a, b, #[trigger] types[t], direction);
            assert(init[t] == types[t]);
        }
    }
}

proof fn lemma_of_all<G: GraphProvider>(
    g: &G,
    nodes: Seq<G::NodeId>,
    b: G::NodeId,
    types: Seq<Text>,
    direction: Direction,
)
    requires
        coherent(g),
    ensures
        neighbours_of_all(g, nodes, types, direction).contains(b) <==> exists|c: G::NodeId|
            #[trigger] connected(g, c, b, types, direction) && nodes.contains(c),
    decreases nodes.len(),
{
    if nodes.len() > 0 {
        let init = nodes.drop_last();
        let last = nodes.last();
        lemma_of_all(g, init, b, types, direction);
        lemma_by_type(g, last, b, types, direction);
        lemma_concat_contains(
            neighbours_of_all(g, init, types, direction),
            neighbours_by_type(g, last, types, direction),
            b,
        );
        assert(nodes =~= init.push(last));
        assert forall|c: G::NodeId| nodes.contains(c) <==> init.contains(c) || c == last by {
            lemma_push_contains(init, last, c);
        }
    }
}

// ---- Distances -------------------------------------------------------------------

/// A breadth-first search finds at level `k` the nodes at distance `k`.
pub proof fn lemma_level<G: GraphProvider>(
    g: &G,
    a: G::NodeId,
    b: G::NodeId,
    types: Seq<Text>,
    direction: Direction,
    k: nat,
)
    requires
        coherent(g),
    ensures
        level(g, a, types, direction, k).contains(b) <==> distance(g, a, b, types, direction, k),
        reached(g, a, types, direction, k).contains(b) <==> exists|j: nat|
            j <= k && #[trigger] walk_exists(g, a, b, types, direction, j),
    decreases k,
{
    if k == 0 {
        let first = level(g, a, types, direction, 0);
        assert(first[0] == a);
        assert(first.contains(b) <==> a == b);
        assert(walk_exists(g, a, b, types, direction, 0) <==> a == b);
        assert(reached(g, a, types, direction, 0) == first);
    } else {
        let p = (k - 1) as nat;
        lemma_level(g, a, b, types, direction, p);
        let before = level(g, a, types, direction, p);
        let known = reached(g, a, types, direction, p);
        let around = neighbours_of_all(g, before, types, direction);
        lemma_of_all(g, before, b, types, direction);
        lemma_fresh_elements(around, known.to_set());
        let here = level(g, a, types, direction, k);
        assert(here.contains(b) <==> around.contains(b) && !known.contains(b));
        if here.contains(b) {
            let c = choose|c: G::NodeId| #[trigger]
                connected(g, c, b, types, direction) && before.contains(c);
            lemma_level(g, a, c, types, direction, p);
            assert(connected(g, c, b, types, direction) && walk_exists(
                g,
                a,
                c,
                types,
                direction,
                p,
            ));
            assert(walk_exists(g, a, b, types, direction, k));
            assert forall|j: nat| j < k implies !#[trigger] walk_exists(
                g,
                a,
                b,
                types,
                direction,
                j,
            ) by {
                assert(j <= p);
            }
        }
        if distance(g, a, b, types, direction, k) {
            let c = choose|c: G::NodeId| #[trigger]
                connected(g, c, b, types, direction) && walk_exists(g, a, c, types, direction, p);
            lemma_level(g, a, c, types, direction, p);
            assert forall|j: nat| j < p implies !#[trigger] walk_exists(
                g,
                a,
                c,
                types,
                direction,
                j,
            ) by {
                if walk_exists(g, a, c, types, direction, j) {
                    assert(connected(g, c, b, types, direction));
                    assert(((j + 1) - 1) as nat == j);
                    assert(walk_exists(g, a, b, types, direction, j + 1));
                }
            }
            assert(before.contains(c));
            assert(around.contains(b));
            if known.contains(b) {
                let j = choose|j: nat|
                    j <= p && #[trigger] walk_exists(g, a, b, types, direction, j);
                assert(j < k);
            }
        }
        lemma_concat_contains(known, here, b);
        assert(reached(g, a, types, direction, k) == known + here);
        if exists|j: nat| j <= k && #[trigger] walk_exists(g, a, b, types, direction, j) {
            let j = choose|j: nat| j <= k && #[trigger] walk_exists(g, a, b, types, direction, j);
            if !known.contains(b) {
                assert(j == k);
                assert(distance(g, a, b, types, direction, k)) by {
                    assert forall|i: nat| i < k implies !#[trigger] walk_exists(
                        g,
                        a,
                        b,
                        types,
                        direction,
                        i,
                    ) by {
                        assert(i <= p);
                    }
                }
            }
        }
        if known.contains(b) {
            let j = choose|j: nat|
                    j <= p && #[trigger] walk_exists(g, a, b, types, direction, j);
            assert(j <= k);
        }
    }
}

/// What the levels of a breadth-first search hold between two distances.
pub proof fn lemma_levels<G: GraphProvider>(
    g: &G,
    a: G::NodeId,
    b: G::NodeId,
    types: Seq<Text>,
    direction: Direction,
    min: nat,
    end: nat,
)
    requires
        coherent(g),
    ensures
        levels(g, a, types, direction, min, end).contains(b) <==> exists|k: nat|
            min <= k < end && #[trigger] distance(g, a, b, types, direction, k),
    decreases end,
{
    if end > min {
        let p = (end - 1) as nat;
        lemma_levels(g, a, b, types, direction, min, p);
        lemma_level(g, a, b, types, direction, p);
        lemma_concat_contains(
            levels(g, a, types, direction, min, p),
            level(g, a, types, direction, p),
            b,
        );
    }
}

/// A variable-length hop leads to exactly the nodes whose distance lies within its bounds.
pub proof fn lemma_variable_length<G: GraphProvider>(
    g: &G,
    a: G::NodeId,
    b: G::NodeId,
    types: Seq<Text>,
    direction: Direction,
    length: VarLength,
)
    requires
        coherent(g),
    ensures
        targets(g, a, types, direction, Some(length)).contains(b) <==> exists|k: nat|
            length.min <= k <= max_length(length) && #[trigger] distance(
                g,
                a,
                b,
                types,
                direction,
                k,
            ),
{
    lemma_levels(g, a, b, types, direction, length.min as nat, max_length(length) + 1);
}

/// A plain hop leads to exactly the nodes that a relationship of one of the types connects.
pub proof fn lemma_single_hop<G: GraphProvider>(
    g: &G,
    a: G::NodeId,
    b: G::NodeId,
    types: Seq<Text>,
    direction: Direction,
)
    requires
        coherent(g),
    ensures
        targets(g, a, types, direction, None).contains(b) <==> connected(
            g,
            a,
            b,
            types,
            direction,
        ),
{
    lemma_by_type(g, a, b, types, direction);
    lemma_fresh_elements(neighbours_by_type(g, a, types, direction), Set::empty());
}

// ---- The other direction ---------------------------------------------------------

proof fn lemma_connected_flip<G: GraphProvider>(
    g: &G,
    a: G::NodeId,
    b: G::NodeId,
    types: Seq<Text>,
    direction: Direction,
)
    ensures
        connected(g, a, b, types, direction) <==> connected(g, b, a, types, flip(direction)),
{
    if connected(g, a, b, types, direction) {
        let t = choose|t: int|
            0 <= t < types.len() && adjacent(g, a, b, #[trigger] types[t], direction);
        assert(adjacent(g, b, a, types[t], flip(direction)));
    }
    if connected(g, b, a, types, flip(direction)) {
        let t = choose|t: int|
            0 <= t < types.len() && adjacent(g, b, a, #[trigger] types[t], flip(direction));
        assert(adjacent(g, a, b, types[t], direction));
    }
}

/// A step before a walk makes a longer walk.
proof fn lemma_walk_longer<G: GraphProvider>(
    g: &G,
    a: G::NodeId,
    c: G::NodeId,
    b: G::NodeId,
    types: Seq<Text>,
    direction: Direction,
    k: nat,
)
    requires
        connected(g, a, c, types, direction),
        walk_exists(g, c, b, types, direction, k),
    ensures
        walk_exists(g, a, b, types, direction, k + 1),
    decreases k,
{
    assert(((k + 1) - 1) as nat == k);
    if k == 0 {
        assert(walk_exists(g, a, a, types, direction, 0));
        assert(connected(g, a, b, types, direction));
    } else {
        let p = (k - 1) as nat;
        let d = choose|d: G::NodeId| #[trigger]
            connected(g, d, b, types, direction) && walk_exists(g, c, d, types, direction, p);
        lemma_walk_longer(g, a, c, d, types, direction, p);
        assert(walk_exists(g, a, d, types, direction, k));
        assert(connected(g, d, b, types, direction));
    }
}

proof fn lemma_walk_back<G: GraphProvider>(
    g: &G,
    a: G::NodeId,
    b: G::NodeId,
    types: Seq<Text>,
    direction: Direction,
    k: nat,
)
    requires
        walk_exists(g, a, b, types, direction, k),
    ensures
        walk_exists(g, b, a, types, flip(direction), k),
    decreases k,
{
    if k > 0 {
        let p = (k - 1) as nat;
        let c = choose|c: G::NodeId| #[trigger]
            connected(g, c, b, types, direction) && walk_exists(g, a, c, types, direction, p);
        lemma_walk_back(g, a, c, types, direction, p);
        lemma_connected_flip(g, c, b, types, direction);
        lemma_walk_longer(g, b, c, a, types, flip(direction), p);
    }
}

proof fn lemma_distance_back<G: GraphProvider>(
    g: &G,
    a: G::NodeId,
    b: G::NodeId,
    types: Seq<Text>,
    direction: Direction,
    k: nat,
)
    requires
        distance(g, a, b, types, direction, k),
    ensures
        distance(g, b, a, types, flip(direction), k),
{
    lemma_walk_back(g, a, b, types, direction, k);
    assert(flip(flip(direction)) == direction);
    assert forall|j: nat| j < k implies !#[trigger] walk_exists(
        g,
        b,
        a,
        types,
        flip(direction),
        j,
    ) by {
        if walk_exists(g, b, a, types, flip(direction), j) {
            lemma_walk_back(g, b, a, types, flip(direction), j);
            assert(walk_exists(g, a, b, types, direction, j));
        }
    }
}

/// A hop leads from `a` to `b` just if the same hop, seen from its other end, leads from `b` to
/// `a`.
pub proof fn lemma_targets_flip<G: GraphProvider>(
    g: &G,
    a: G::NodeId,
    b: G::NodeId,
    types: Seq<Text>,
    direction: Direction,
    length: Option<VarLength>,
)
    requires
        coherent(g),
    ensures
        targets(g, a, types, direction, length).contains(b) <==> targets(
            g,
            b,
            types,
            flip(direction),
            length,
        ).contains(a),
{
    match length {
        None => {
            lemma_single_hop(g, a, b, types, direction);
            lemma_single_hop(g, b, a, types, flip(direction));
            lemma_connected_flip(g, a, b, types, direction);
        },
        Some(l) => {
            lemma_variable_length(g, a, b, types, direction, l);
            lemma_variable_length(g, b, a, types, flip(direction), l);
            assert(flip(flip(direction)) == direction);
            let back = flip(direction);
            if exists|k: nat|
                l.min <= k <= max_length(l) && #[trigger] distance(g, a, b, types, direction, k) {
                let k = choose|k: nat|
                    l.min <= k <= max_length(l) && #[trigger] distance(
                        g,
                        a,
                        b,
                        types,
                        direction,
                        k,
                    );
                lemma_distance_back(g, a, b, types, direction, k);
                assert(distance(g, b, a, types, back, k));
            }
            if exists|k: nat|
                l.min <= k <= max_length(l) && #[trigger] distance(g, b, a, types, back, k) {
                let k = choose|k: nat|
                    l.min <= k <= max_length(l) && #[trigger] distance(g, b, a, types, back, k);
                lemma_distance_back(g, b, a, types, back, k);
                assert(distance(g, a, b, types, direction, k));
            }
        },
    }
}

} // verus!
