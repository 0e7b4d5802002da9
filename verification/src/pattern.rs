//! What a path pattern matches: the meaning of node patterns, hops and whole paths, and the choice
//! of the end from which a path is walked.

use vstd::prelude::*;

use crate::ast::{
    hop_models, lemma_hop_models_push, Direction, LiteralModel, NodePattern, NodePatternModel,
    PathModel, PathPattern, RelPattern, RelPatternModel, VarLength,
};
use crate::error::{failure, ErrorModel};
use crate::paths::{lemma_reversed_node, lemma_reversed_twice};
use crate::provider::{incoming, GraphProvider};
use crate::row::{row_models, Binding, BindingModel, Row, RowModel};
use crate::seqs::{distinct, fresh};
use crate::text::{has_name, lemma_texts_push, opt_text, texts, Text};
use crate::value::ValueModel;

verus! {

/// Decides which nodes a variable may be bound to, beyond what its pattern says.
pub type Keep<N> = spec_fn(Text, N) -> bool;

/// The decision that admits every node.
pub open spec fn keep_all<N>() -> Keep<N> {
    |name: Text, node: N| true
}

/// The value of a literal.
pub open spec fn literal_value(l: LiteralModel) -> ValueModel {
    match l {
        LiteralModel::Str(s) => ValueModel::Str(s),
        LiteralModel::Int(i) => ValueModel::Int(i),
        LiteralModel::Bool(b) => ValueModel::Bool(b),
        LiteralModel::Null => ValueModel::Null,
    }
}

// ---- Nodes -------------------------------------------------------------------

/// A node satisfies an empty label list, or any one of the listed labels (label disjunction).
pub open spec fn labels_ok<G: GraphProvider>(g: &G, node: G::NodeId, labels: Seq<Text>) -> bool {
    labels.len() == 0 || exists|i: int|
        0 <= i < labels.len() && g.has_label(node, #[trigger] labels[i])
}

/// A node satisfies a property map when each listed property has the listed value.
pub open spec fn props_ok<G: GraphProvider>(
    g: &G,
    node: G::NodeId,
    props: Seq<(Text, LiteralModel)>,
) -> bool {
    forall|i: int|
        0 <= i < props.len() ==> g.prop_value(node, (#[trigger] props[i]).0) == literal_value(
            props[i].1,
        )
}

/// Whether a node satisfies the labels and the properties of a pattern.
pub open spec fn node_ok<G: GraphProvider>(g: &G, node: G::NodeId, p: NodePatternModel) -> bool {
    labels_ok(g, node, p.labels) && props_ok(g, node, p.props)
}

/// Whether `keep` lets the variable, if there is one, stand for the node.
pub open spec fn kept<N>(keep: Keep<N>, var: Option<Text>, node: N) -> bool {
    match var {
        Some(name) => keep(name, node),
        None => true,
    }
}

/// Those of the scanned nodes that have the listed properties and are kept.
pub open spec fn suitable<G: GraphProvider>(
    g: &G,
    p: NodePatternModel,
    keep: Keep<G::NodeId>,
    nodes: Seq<G::NodeId>,
) -> Seq<G::NodeId>
    decreases nodes.len(),
{
    if nodes.len() == 0 {
        Seq::empty()
    } else {
        let before = suitable(g, p, keep, nodes.drop_last());
        if props_ok(g, nodes.last(), p.props) && kept(keep, p.var, nodes.last()) {
            before.push(nodes.last())
        } else {
            before
        }
    }
}

/// The nodes that the first node pattern of a path can stand for. A variable that is bound already
/// stands for its node, if that node matches, and for nothing if it is bound to a value.
pub open spec fn candidates<G: GraphProvider>(
    g: &G,
    row: RowModel<G::NodeId>,
    p: NodePatternModel,
    keep: Keep<G::NodeId>,
) -> Seq<G::NodeId> {
    if p.var is Some && row.contains_key(p.var->0) {
        match row[p.var->0] {
            BindingModel::Node(n) => if node_ok(g, n, p) {
                seq![n]
            } else {
                Seq::empty()
            },
            BindingModel::Value(_) => Seq::empty(),
        }
    } else {
        suitable(g, p, keep, g.nodes_with(p.labels))
    }
}

/// The row with the variable, if there is one, bound to the node.
pub open spec fn bind<N>(row: RowModel<N>, var: Option<Text>, node: N) -> RowModel<N> {
    match var {
        Some(name) => row.insert(name, BindingModel::Node(node)),
        None => row,
    }
}

/// A row paired with the node most recently matched in the path being walked.
pub type Walker<N> = (RowModel<N>, N);

/// The row extended by each of the nodes in turn.
pub open spec fn begin<N>(row: RowModel<N>, var: Option<Text>, nodes: Seq<N>) -> Seq<Walker<N>>
    decreases nodes.len(),
{
    if nodes.len() == 0 {
        Seq::empty()
    } else {
        begin(row, var, nodes.drop_last()).push((bind(row, var, nodes.last()), nodes.last()))
    }
}

/// The walkers that start from the rows of `base`.
pub open spec fn begin_all<G: GraphProvider>(
    g: &G,
    base: Seq<RowModel<G::NodeId>>,
    p: NodePatternModel,
    keep: Keep<G::NodeId>,
) -> Seq<Walker<G::NodeId>>
    decreases base.len(),
{
    if base.len() == 0 {
        Seq::empty()
    } else {
        begin_all(g, base.drop_last(), p, keep) + begin(
            base.last(),
            p.var,
            candidates(g, base.last(), p, keep),
        )
    }
}

// ---- Hops --------------------------------------------------------------------

/// The neighbours of a node along one relationship type, each once.
pub open spec fn neighbours<G: GraphProvider>(
    g: &G,
    node: G::NodeId,
    rel: Text,
    direction: Direction,
) -> Seq<G::NodeId> {
    match direction {
        Direction::Outgoing => distinct(g.edges(rel)(node)),
        Direction::Incoming => distinct(incoming(g, node, rel)),
        Direction::Both => distinct(g.edges(rel)(node) + incoming(g, node, rel)),
    }
}

/// The neighbours of a node along the relationship types, type by type.
pub open spec fn neighbours_by_type<G: GraphProvider>(
    g: &G,
    node: G::NodeId,
    types: Seq<Text>,
    direction: Direction,
) -> Seq<G::NodeId>
    decreases types.len(),
{
    if types.len() == 0 {
        Seq::empty()
    } else {
        neighbours_by_type(g, node, types.drop_last(), direction) + neighbours(
            g,
            node,
            types.last(),
            direction,
        )
    }
}

/// The neighbours of several nodes, node by node.
pub open spec fn neighbours_of_all<G: GraphProvider>(
    g: &G,
    nodes: Seq<G::NodeId>,
    types: Seq<Text>,
    direction: Direction,
) -> Seq<G::NodeId>
    decreases nodes.len(),
{
    if nodes.len() == 0 {
        Seq::empty()
    } else {
        neighbours_of_all(g, nodes.drop_last(), types, direction) + neighbours_by_type(
            g,
            nodes.last(),
            types,
            direction,
        )
    }
}

/// The nodes at distance `k` from `start`, in the order in which a breadth-first search finds them.
pub open spec fn level<G: GraphProvider>(
    g: &G,
    start: G::NodeId,
    types: Seq<Text>,
    direction: Direction,
    k: nat,
) -> Seq<G::NodeId>
    decreases k, 0int,
{
    if k == 0 {
        seq![start]
    } else {
        fresh(
            neighbours_of_all(
                g,
                level(g, start, types, direction, (k - 1) as nat),
                types,
                direction,
            ),
            reached(g, start, types, direction, (k - 1) as nat).to_set(),
        )
    }
}

/// The nodes at distance at most `k` from `start`.
pub open spec fn reached<G: GraphProvider>(
    g: &G,
    start: G::NodeId,
    types: Seq<Text>,
    direction: Direction,
    k: nat,
) -> Seq<G::NodeId>
    decreases k, 1int,
{
    if k == 0 {
        level(g, start, types, direction, 0)
    } else {
        reached(g, start, types, direction, (k - 1) as nat) + level(g, start, types, direction, k)
    }
}

/// The nodes at a distance from `min` up to and without `end`, nearest first.
pub open spec fn levels<G: GraphProvider>(
    g: &G,
    start: G::NodeId,
    types: Seq<Text>,
    direction: Direction,
    min: nat,
    end: nat,
) -> Seq<G::NodeId>
    decreases end,
{
    if end <= min {
        Seq::empty()
    } else {
        levels(g, start, types, direction, min, (end - 1) as nat) + level(
            g,
            start,
            types,
            direction,
            (end - 1) as nat,
        )
    }
}

/// The greatest length of a variable-length hop.
pub open spec fn max_length(length: VarLength) -> nat {
    match length.max {
        Some(m) => m as nat,
        None => u32::MAX as nat,
    }
}

/// The nodes that one hop leads to: the neighbours, each once, or, for a variable-length hop, the
/// nodes whose distance lies within the bounds.
pub open spec fn targets<G: GraphProvider>(
    g: &G,
    node: G::NodeId,
    types: Seq<Text>,
    direction: Direction,
    length: Option<VarLength>,
) -> Seq<G::NodeId> {
    match length {
        Some(l) => levels(g, node, types, direction, l.min as nat, max_length(l) + 1),
        None => distinct(neighbours_by_type(g, node, types, direction)),
    }
}

/// Whether a hop may arrive at a node: it matches the pattern, is kept, and a variable that is
/// bound already stands for the same node.
pub open spec fn accepts<G: GraphProvider>(
    g: &G,
    row: RowModel<G::NodeId>,
    p: NodePatternModel,
    keep: Keep<G::NodeId>,
    node: G::NodeId,
) -> bool {
    &&& node_ok(g, node, p)
    &&& kept(keep, p.var, node)
    &&& (p.var is Some && row.contains_key(p.var->0)) ==> row[p.var->0] == BindingModel::Node(node)
}

/// The walkers that arrive at the accepted ones of the nodes.
pub open spec fn arrive<G: GraphProvider>(
    g: &G,
    row: RowModel<G::NodeId>,
    p: NodePatternModel,
    keep: Keep<G::NodeId>,
    nodes: Seq<G::NodeId>,
) -> Seq<Walker<G::NodeId>>
    decreases nodes.len(),
{
    if nodes.len() == 0 {
        Seq::empty()
    } else {
        let before = arrive(g, row, p, keep, nodes.drop_last());
        if accepts(g, row, p, keep, nodes.last()) {
            before.push((bind(row, p.var, nodes.last()), nodes.last()))
        } else {
            before
        }
    }
}

/// The walkers after one hop of each walker in turn.
pub open spec fn hop_all<G: GraphProvider>(
    g: &G,
    walkers: Seq<Walker<G::NodeId>>,
    types: Seq<Text>,
    rel: RelPatternModel,
    p: NodePatternModel,
    keep: Keep<G::NodeId>,
) -> Seq<Walker<G::NodeId>>
    decreases walkers.len(),
{
    if walkers.len() == 0 {
        Seq::empty()
    } else {
        hop_all(g, walkers.drop_last(), types, rel, p, keep) + arrive(
            g,
            walkers.last().0,
            p,
            keep,
            targets(g, walkers.last().1, types, rel.direction, rel.length),
        )
    }
}

/// The message for a relationship type that the graph does not have.
pub open spec fn unknown_type(name: Text) -> Text {
    "unknown relationship type `"@ + name + "`"@
}

/// The relationship types from position `i` on, checked against the known ones: the first unknown
/// one is an error.
pub open spec fn check_types(known: Seq<Text>, types: Seq<Text>, i: int) -> Option<ErrorModel>
    decreases types.len() - i,
{
    if i < 0 || i >= types.len() {
        None
    } else if !known.contains(types[i]) {
        Some(failure(unknown_type(types[i])))
    } else {
        check_types(known, types, i + 1)
    }
}

/// The relationship types of a hop: those listed, which must be known, or all of the graph's.
pub open spec fn resolve_types<G: GraphProvider>(g: &G, types: Seq<Text>) -> Result<
    Seq<Text>,
    ErrorModel,
> {
    if types.len() == 0 {
        Ok(g.rel_names())
    } else {
        match check_types(g.rel_names(), types, 0) {
            Some(e) => Err(e),
            None => Ok(types),
        }
    }
}

/// The walkers after the hops from position `i` on.
pub open spec fn walk<G: GraphProvider>(
    g: &G,
    walkers: Seq<Walker<G::NodeId>>,
    hops: Seq<(RelPatternModel, NodePatternModel)>,
    i: int,
    keep: Keep<G::NodeId>,
) -> Result<Seq<Walker<G::NodeId>>, ErrorModel>
    decreases hops.len() - i,
{
    if i < 0 || i >= hops.len() {
        Ok(walkers)
    } else {
        match resolve_types(g, hops[i].0.types) {
            Err(e) => Err(e),
            Ok(types) => walk(
                g,
                hop_all(g, walkers, types, hops[i].0, hops[i].1, keep),
                hops,
                i + 1,
                keep,
            ),
        }
    }
}

/// The rows of the walkers.
pub open spec fn walker_rows<N>(walkers: Seq<Walker<N>>) -> Seq<RowModel<N>> {
    Seq::new(walkers.len(), |i: int| walkers[i].0)
}

/// The rows that a path pattern, walked as it is written, makes of the rows of `base`.
pub open spec fn match_as_written<G: GraphProvider>(
    g: &G,
    base: Seq<RowModel<G::NodeId>>,
    path: PathModel,
    keep: Keep<G::NodeId>,
) -> Result<Seq<RowModel<G::NodeId>>, ErrorModel> {
    match walk(g, begin_all(g, base, path.start, keep), path.rest, 0, keep) {
        Ok(walkers) => Ok(walker_rows(walkers)),
        Err(e) => Err(e),
    }
}

// ---- The direction of the walk -------------------------------------------------

/// Whether a variable is bound to a node in the first row.
pub open spec fn node_bound<N>(var: Option<Text>, base: Seq<RowModel<N>>) -> bool {
    &&& var is Some
    &&& base.len() > 0
    &&& base[0].contains_key(var->0)
    &&& base[0][var->0] is Node
}

/// Whether a path is walked backwards: its end is bound and its start is not.
pub open spec fn walks_back<N>(path: PathModel, base: Seq<RowModel<N>>) -> bool {
    &&& path.rest.len() > 0
    &&& !node_bound(path.start.var, base)
    &&& node_bound(path.rest.last().1.var, base)
}

/// The opposite direction.
pub open spec fn flip(direction: Direction) -> Direction {
    match direction {
        Direction::Outgoing => Direction::Incoming,
        Direction::Incoming => Direction::Outgoing,
        Direction::Both => Direction::Both,
    }
}

/// The relationship pattern seen from its other end.
pub open spec fn flip_rel(rel: RelPatternModel) -> RelPatternModel {
    RelPatternModel { direction: flip(rel.direction), ..rel }
}

/// The `i`-th node pattern of a path, counted from its start.
pub open spec fn path_node(path: PathModel, i: int) -> NodePatternModel {
    if i == 0 {
        path.start
    } else {
        path.rest[i - 1].1
    }
}

/// The path written from its other end.
pub open spec fn reversed(path: PathModel) -> PathModel {
    let n = path.rest.len() as int;
    PathModel {
        start: path_node(path, n),
        rest: Seq::new(
            path.rest.len(),
            |i: int| (flip_rel(path.rest[n - 1 - i].0), path_node(path, n - 1 - i)),
        ),
    }
}

/// The path in the direction in which it is walked.
pub open spec fn planned<N>(path: PathModel, base: Seq<RowModel<N>>) -> PathModel {
    if walks_back(path, base) {
        reversed(path)
    } else {
        path
    }
}

/// The rows that a path pattern makes of the rows of `base`.
pub open spec fn match_path<G: GraphProvider>(
    g: &G,
    base: Seq<RowModel<G::NodeId>>,
    path: PathModel,
    keep: Keep<G::NodeId>,
) -> Result<Seq<RowModel<G::NodeId>>, ErrorModel> {
    match_as_written(g, base, planned(path, base), keep)
}

/// The rows that the path patterns from position `i` on make of the rows of `base`.
pub open spec fn match_paths<G: GraphProvider>(
    g: &G,
    base: Seq<RowModel<G::NodeId>>,
    paths: Seq<PathModel>,
    i: int,
    keep: Keep<G::NodeId>,
) -> Result<Seq<RowModel<G::NodeId>>, ErrorModel>
    decreases paths.len() - i,
{
    if i < 0 || i >= paths.len() {
        Ok(base)
    } else {
        match match_path(g, base, paths[i], keep) {
            Err(e) => Err(e),
            Ok(rows) => match_paths(g, rows, paths, i + 1, keep),
        }
    }
}

// ---- Matching only adds bindings ---------------------------------------------------

/// Whether a row keeps every binding of one of the rows of `base`.
pub open spec fn grows_from<N>(row: RowModel<N>, base: Seq<RowModel<N>>) -> bool {
    exists|j: int| 0 <= j < base.len() && (#[trigger] base[j]).submap_of(row)
}

/// Whether every row keeps the bindings of one of the rows of `base`.
pub open spec fn all_grow_from<N>(rows: Seq<RowModel<N>>, base: Seq<RowModel<N>>) -> bool {
    forall|k: int| 0 <= k < rows.len() ==> grows_from(#[trigger] rows[k], base)
}

/// Whether every walker keeps the bindings of one of the rows of `base`.
pub open spec fn walkers_grow_from<N>(walkers: Seq<Walker<N>>, base: Seq<RowModel<N>>) -> bool {
    forall|k: int| 0 <= k < walkers.len() ==> grows_from((#[trigger] walkers[k]).0, base)
}

/// A row that keeps the bindings of another grows from whatever the other grows from.
proof fn lemma_grows_on<N>(row: RowModel<N>, larger: RowModel<N>, base: Seq<RowModel<N>>)
    requires
        grows_from(row, base),
        row.submap_of(larger),
    ensures
        grows_from(larger, base),
{
    let j = choose|j: int| 0 <= j < base.len() && (#[trigger] base[j]).submap_of(row);
    assert forall|k: Text| #[trigger] base[j].dom().contains(k) implies #[trigger]
        larger.dom().contains(k) && base[j][k] == larger[k] by {
        assert(row.dom().contains(k));
        assert(base[j][k] == row[k]);
        assert(larger.dom().contains(k));
        assert(larger[k] == row[k]);
    }
}

/// A node that stands for a bound variable is the node that it is bound to.
pub proof fn lemma_candidates_bound<G: GraphProvider>(
    g: &G,
    row: RowModel<G::NodeId>,
    p: NodePatternModel,
    keep: Keep<G::NodeId>,
    i: int,
)
    requires
        0 <= i < candidates(g, row, p, keep).len(),
    ensures
        row.submap_of(bind(row, p.var, candidates(g, row, p, keep)[i])),
{
}

proof fn lemma_begin_grows<N>(
    row: RowModel<N>,
    var: Option<Text>,
    nodes: Seq<N>,
    base: Seq<RowModel<N>>,
)
    requires
        grows_from(row, base),
        forall|i: int| 0 <= i < nodes.len() ==> row.submap_of(bind(row, var, #[trigger] nodes[i])),
    ensures
        walkers_grow_from(begin(row, var, nodes), base),
    decreases nodes.len(),
{
    if nodes.len() > 0 {
        let init = nodes.drop_last();
        assert forall|i: int| 0 <= i < init.len() implies row.submap_of(
            bind(row, var, #[trigger] init[i]),
        ) by {
            assert(init[i] == nodes[i]);
        }
        lemma_begin_grows(row, var, init, base);
        assert(nodes[nodes.len() - 1] == nodes.last());
        lemma_grows_on(row, bind(row, var, nodes.last()), base);
    }
}

proof fn lemma_begin_all_grows<G: GraphProvider>(
    g: &G,
    rows: Seq<RowModel<G::NodeId>>,
    p: NodePatternModel,
    keep: Keep<G::NodeId>,
    base: Seq<RowModel<G::NodeId>>,
)
    requires
        all_grow_from(rows, base),
    ensures
        walkers_grow_from(begin_all(g, rows, p, keep), base),
    decreases rows.len(),
{
    if rows.len() > 0 {
        let init = rows.drop_last();
        let row = rows.last();
        assert forall|k: int| 0 <= k < init.len() implies grows_from(#[trigger] init[k], base) by {
            assert(init[k] == rows[k]);
        }
        lemma_begin_all_grows(g, init, p, keep, base);
        assert(rows[rows.len() - 1] == row);
        let nodes = candidates(g, row, p, keep);
        assert forall|i: int| 0 <= i < nodes.len() implies row.submap_of(
            bind(row, p.var, #[trigger] nodes[i]),
        ) by {
            lemma_candidates_bound(g, row, p, keep, i);
        }
        lemma_begin_grows(row, p.var, nodes, base);
        lemma_walkers_concat(begin_all(g, init, p, keep), begin(row, p.var, nodes), base);
    }
}

proof fn lemma_walkers_concat<N>(a: Seq<Walker<N>>, b: Seq<Walker<N>>, base: Seq<RowModel<N>>)
    requires
        walkers_grow_from(a, base),
        walkers_grow_from(b, base),
    ensures
        walkers_grow_from(a + b, base),
{
    assert forall|k: int| 0 <= k < (a + b).len() implies grows_from(
        (#[trigger] (a + b)[k]).0,
        base,
    ) by {
        if k < a.len() {
            assert((a + b)[k] == a[k]);
        } else {
            assert((a + b)[k] == b[k - a.len()]);
        }
    }
}

proof fn lemma_arrive_grows<G: GraphProvider>(
    g: &G,
    row: RowModel<G::NodeId>,
    p: NodePatternModel,
    keep: Keep<G::NodeId>,
    nodes: Seq<G::NodeId>,
    base: Seq<RowModel<G::NodeId>>,
)
    requires
        grows_from(row, base),
    ensures
        walkers_grow_from(arrive(g, row, p, keep, nodes), base),
    decreases nodes.len(),
{
    if nodes.len() > 0 {
        lemma_arrive_grows(g, row, p, keep, nodes.drop_last(), base);
        if accepts(g, row, p, keep, nodes.last()) {
            assert(row.submap_of(bind(row, p.var, nodes.last())));
            lemma_grows_on(row, bind(row, p.var, nodes.last()), base);
        }
    }
}

proof fn lemma_hop_all_grows<G: GraphProvider>(
    g: &G,
    walkers: Seq<Walker<G::NodeId>>,
    types: Seq<Text>,
    rel: RelPatternModel,
    p: NodePatternModel,
    keep: Keep<G::NodeId>,
    base: Seq<RowModel<G::NodeId>>,
)
    requires
        walkers_grow_from(walkers, base),
    ensures
        walkers_grow_from(hop_all(g, walkers, types, rel, p, keep), base),
    decreases walkers.len(),
{
    if walkers.len() > 0 {
        let init = walkers.drop_last();
        let last = walkers.last();
        assert forall|k: int| 0 <= k < init.len() implies grows_from(
            (#[trigger] init[k]).0,
            base,
        ) by {
            assert(init[k] == walkers[k]);
        }
        assert(walkers[walkers.len() - 1] == last);
        lemma_hop_all_grows(g, init, types, rel, p, keep, base);
        let nodes = targets(g, last.1, types, rel.direction, rel.length);
        lemma_arrive_grows(g, last.0, p, keep, nodes, base);
        lemma_walkers_concat(
            hop_all(g, init, types, rel, p, keep),
            arrive(g, last.0, p, keep, nodes),
            base,
        );
    }
}

proof fn lemma_walk_grows<G: GraphProvider>(
    g: &G,
    walkers: Seq<Walker<G::NodeId>>,
    hops: Seq<(RelPatternModel, NodePatternModel)>,
    i: int,
    keep: Keep<G::NodeId>,
    base: Seq<RowModel<G::NodeId>>,
)
    requires
        walkers_grow_from(walkers, base),
    ensures
        walk(g, walkers, hops, i, keep) matches Ok(out) ==> walkers_grow_from(out, base),
    decreases hops.len() - i,
{
    if 0 <= i < hops.len() {
        if let Ok(types) = resolve_types(g, hops[i].0.types) {
            lemma_hop_all_grows(g, walkers, types, hops[i].0, hops[i].1, keep, base);
            lemma_walk_grows(
                g,
                hop_all(g, walkers, types, hops[i].0, hops[i].1, keep),
                hops,
                i + 1,
                keep,
                base,
            );
        }
    }
}

/// Matching never changes what a variable is bound to: every row that comes out keeps all bindings
/// of a row that went in.
pub proof fn lemma_match_keeps_bindings<G: GraphProvider>(
    g: &G,
    rows: Seq<RowModel<G::NodeId>>,
    paths: Seq<PathModel>,
    i: int,
    keep: Keep<G::NodeId>,
    base: Seq<RowModel<G::NodeId>>,
)
    requires
        all_grow_from(rows, base),
    ensures
        match_paths(g, rows, paths, i, keep) matches Ok(out) ==> all_grow_from(out, base),
    decreases paths.len() - i,
{
    if 0 <= i < paths.len() {
        let path = planned(paths[i], rows);
        lemma_begin_all_grows(g, rows, path.start, keep, base);
        lemma_walk_grows(
            g,
            begin_all(g, rows, path.start, keep),
            path.rest,
            0,
            keep,
            base,
        );
        if let Ok(walkers) = walk(
            g,
            begin_all(g, rows, path.start, keep),
            path.rest,
            0,
            keep,
        ) {
            let next = walker_rows(walkers);
            assert forall|k: int| 0 <= k < next.len() implies grows_from(
                #[trigger] next[k],
                base,
            ) by {
                assert(next[k] == walkers[k].0);
            }
            lemma_match_keeps_bindings(g, next, paths, i + 1, keep, base);
        }
    }
}

/// Rows grow from themselves.
pub proof fn lemma_grow_from_self<N>(rows: Seq<RowModel<N>>)
    ensures
        all_grow_from(rows, rows),
{
    assert forall|k: int| 0 <= k < rows.len() implies grows_from(#[trigger] rows[k], rows) by {
        assert(rows[k].submap_of(rows[k]));
    }
}

// ---- Scope -------------------------------------------------------------------

/// The names with one more, unless it is there already or there is none.
pub open spec fn add_name(scope: Seq<Text>, var: Option<Text>) -> Seq<Text> {
    match var {
        Some(name) => if scope.contains(name) {
            scope
        } else {
            scope.push(name)
        },
        None => scope,
    }
}

/// The scope after the first `n` hops of a path.
pub open spec fn add_hops(
    scope: Seq<Text>,
    hops: Seq<(RelPatternModel, NodePatternModel)>,
    n: nat,
) -> Seq<Text>
    decreases n,
{
    if n == 0 || n > hops.len() {
        scope
    } else {
        add_name(add_hops(scope, hops, (n - 1) as nat), hops[n - 1].1.var)
    }
}

/// The scope with the node variables of a path, in the order in which they are written.
pub open spec fn add_path(scope: Seq<Text>, path: PathModel) -> Seq<Text> {
    add_hops(add_name(scope, path.start.var), path.rest, path.rest.len())
}

/// The scope with the node variables of the first `n` paths.
pub open spec fn add_paths(scope: Seq<Text>, paths: Seq<PathModel>, n: nat) -> Seq<Text>
    decreases n,
{
    if n == 0 || n > paths.len() {
        scope
    } else {
        add_path(add_paths(scope, paths, (n - 1) as nat), paths[n - 1])
    }
}

// ---- Executable counterparts -----------------------------------------------------

/// Whether a variable is bound to a node in the sample row.
fn is_node_bound<N>(var: &Option<String>, sample: Option<&Row<N>>) -> (r: bool)
    ensures
        r == (opt_text(*var) is Some && sample is Some && sample->0@.contains_key(
            opt_text(*var)->0,
        ) && sample->0@[opt_text(*var)->0] is Node),
{
    match (var, sample) {
        (Some(name), Some(row)) => match row.get(name) {
            Some(Binding::Node(_)) => true,
            _ => false,
        },
        _ => false,
    }
}

/// Whether a path is to be walked backwards.
fn should_reverse<N>(pattern: &PathPattern, base: &Vec<Row<N>>) -> (r: bool)
    ensures
        r == walks_back(pattern@, row_models(base@)),
{
    if pattern.rest.len() == 0 {
        return false;
    }
    let sample: Option<&Row<N>> = if base.len() == 0 {
        None
    } else {
        Some(&base[0])
    };
    let last: usize = pattern.rest.len() - 1;
    assert(pattern@.rest.last() == (pattern.rest@[last as int].0@, pattern.rest@[last as int].1@));
    let start_bound = is_node_bound(&pattern.start.var, sample);
    let end_bound = is_node_bound(&pattern.rest[last].1.var, sample);
    assert(base@.len() > 0 ==> row_models(base@)[0] == base@[0]@);
    !start_bound && end_bound
}

/// The relationship pattern seen from its other end.
fn reverse_rel(rel: &RelPattern) -> (r: RelPattern)
    ensures
        r@ == flip_rel(rel@),
{
    let copy = rel.clone();
    RelPattern {
        var: copy.var,
        types: copy.types,
        direction: match copy.direction {
            Direction::Outgoing => Direction::Incoming,
            Direction::Incoming => Direction::Outgoing,
            Direction::Both => Direction::Both,
        },
        length: copy.length,
    }
}

/// Reverses a linear path: walks the node/relationship chain end-to-start and flips each
/// relationship's direction. Reversing the result gives the path again.
pub fn reverse_path(pattern: &PathPattern) -> (r: PathPattern)
    ensures
        r@ == reversed(pattern@),
        reversed(r@) == pattern@,
        r@.rest.len() == pattern@.rest.len(),
        forall|i: int|
            0 <= i <= pattern@.rest.len() ==> #[trigger] path_node(r@, i) == path_node(
                pattern@,
                pattern@.rest.len() - i,
            ),
        forall|i: int|
            0 <= i < pattern@.rest.len() ==> (#[trigger] r@.rest[i]).0 == flip_rel(
                pattern@.rest[pattern@.rest.len() - 1 - i].0,
            ),
{
    proof {
        lemma_reversed_twice(pattern@);
        assert forall|i: int| 0 <= i <= pattern@.rest.len() implies #[trigger] path_node(
            reversed(pattern@),
            i,
        ) == path_node(pattern@, pattern@.rest.len() - i) by {
            lemma_reversed_node(pattern@, i);
        }
    }
    let n: usize = pattern.rest.len();
    if n == 0 {
        let copy = pattern.clone();
        assert(copy@ =~= reversed(pattern@));
        return copy;
    }
    let start = pattern.rest[n - 1].1.clone();
    let mut rest: Vec<(RelPattern, NodePattern)> = Vec::new();
    let mut i: usize = 0;
    while i < n
        invariant
            i <= n,
            n == pattern.rest@.len(),
            hop_models(rest@) == reversed(pattern@).rest.take(i as int),
        decreases n - i,
    {
        let j: usize = n - 1 - i;
        let node = if j == 0 {
            pattern.start.clone()
        } else {
            pattern.rest[j - 1].1.clone()
        };
        let hop = (reverse_rel(&pattern.rest[j].0), node);
        proof {
            lemma_hop_models_push(rest@, hop);
        }
        rest.push(hop);
        i += 1;
        assert(hop_models(rest@) =~= reversed(pattern@).rest.take(i as int));
    }
    assert(reversed(pattern@).rest.take(i as int) =~= reversed(pattern@).rest);
    PathPattern { start, rest }
}

/// Chooses a traversal plan for a linear path: if the written start endpoint is not yet bound but
/// the end endpoint is, returns a reversed copy so matching starts from the bound node. Otherwise
/// the pattern is returned unchanged.
pub fn plan_pattern<N>(pattern: &PathPattern, base: &Vec<Row<N>>) -> (r: PathPattern)
    ensures
        r@ == planned(pattern@, row_models(base@)),
{
    if should_reverse(pattern, base) {
        reverse_path(pattern)
    } else {
        pattern.clone()
    }
}

/// Adds a variable to the scope unless it is there already.
pub fn add_var(scope: &mut Vec<String>, var: &Option<String>)
    ensures
        texts(final(scope)@) == add_name(texts(old(scope)@), opt_text(*var)),
{
    if let Some(name) = var {
        if !has_name(scope, name) {
            let copy = name.clone();
            proof {
                lemma_texts_push(scope@, copy);
            }
            scope.push(copy);
        }
    }
}

/// Adds the node variables introduced by a pattern to the scope, in declaration order.
pub fn add_pattern_vars(scope: &mut Vec<String>, pattern: &PathPattern)
    ensures
        texts(final(scope)@) == add_path(texts(old(scope)@), pattern@),
{
    add_var(scope, &pattern.start.var);
    let ghost start = texts(scope@);
    let mut i: usize = 0;
    while i < pattern.rest.len()
        invariant
            i <= pattern.rest@.len(),
            texts(scope@) == add_hops(start, pattern@.rest, i as nat),
        decreases pattern.rest@.len() - i,
    {
        add_var(scope, &pattern.rest[i].1.var);
        i += 1;
    }
}

/// Adds the node variables of several patterns to the scope.
pub fn add_patterns_vars(scope: &mut Vec<String>, patterns: &Vec<PathPattern>)
    ensures
        texts(final(scope)@) == add_paths(
            texts(old(scope)@),
            crate::ast::path_models(patterns@),
            patterns@.len(),
        ),
{
    let ghost start = texts(scope@);
    let ghost models = crate::ast::path_models(patterns@);
    let mut i: usize = 0;
    while i < patterns.len()
        invariant
            i <= patterns@.len(),
            models == crate::ast::path_models(patterns@),
            texts(scope@) == add_paths(start, models, i as nat),
        decreases patterns@.len() - i,
    {
        add_pattern_vars(scope, &patterns[i]);
        i += 1;
    }
}

} // verus!
