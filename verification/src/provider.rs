//! The [`GraphProvider`] trait: the read-only property-graph interface that queries run against.
//! Implement it for your own graph or data structure to make it queryable.
//!
//! The model is the standard Cypher property graph: nodes carry one or more **labels** and scalar
//! **properties**, and are connected by typed, directed **relationships**. The executor only ever
//! reads through this trait, so any backend that can answer these questions can be queried.

use std::hash::Hash;

use vstd::laws_eq::obeys_concrete_eq;
use vstd::prelude::*;
use vstd::std_specs::hash::obeys_key_model;

use crate::seqs::distinct;
use crate::text::{texts, Text};
use crate::value::{CypherValue, ValueModel};

verus! {

/// A read-only property-graph data source.
///
/// All methods are read-only. Node identity is an associated type so implementers can use whatever
/// handle is natural (an index, an interned id, an enum, ...), as long as it is cheap to copy,
/// equate, and hash.
///
/// The specification functions give the graph that the methods report; left alone they describe
/// the graph without nodes.
pub trait GraphProvider {
    /// A lightweight handle identifying a node.
    type NodeId: Copy + Eq + Hash;

    /// The nodes that carry one of `labels`, or every node when `labels` is empty.
    open spec fn nodes_with(&self, labels: Seq<Text>) -> Seq<Self::NodeId> {
        Seq::empty()
    }

    /// Whether `node` carries `label`.
    open spec fn has_label(&self, node: Self::NodeId, label: Text) -> bool {
        false
    }

    /// The names of the relationship types.
    open spec fn rel_names(&self) -> Seq<Text> {
        Seq::empty()
    }

    /// The relationships of type `rel`: for each node, the nodes that they lead to from it.
    open spec fn edges(&self, rel: Text) -> spec_fn(Self::NodeId) -> Seq<Self::NodeId> {
        |node: Self::NodeId| Seq::empty()
    }

    /// The nodes that may have an outgoing relationship of type `rel`.
    open spec fn sources(&self, rel: Text) -> Seq<Self::NodeId> {
        Seq::empty()
    }

    /// The value of the property `prop` of `node`.
    open spec fn prop_value(&self, node: Self::NodeId, prop: Text) -> ValueModel {
        ValueModel::Null
    }

    /// The identity of `node`.
    open spec fn id_text(&self, node: Self::NodeId) -> Text {
        Seq::empty()
    }

    /// The primary label of `node`.
    open spec fn label_text(&self, node: Self::NodeId) -> Text {
        Seq::empty()
    }

    /// The display name of `node`.
    open spec fn name_text(&self, node: Self::NodeId) -> Text {
        Seq::empty()
    }

    /// Returns all nodes matching **any** of the given labels. An empty slice matches every node.
    fn scan(&self, labels: &[String]) -> (r: Vec<Self::NodeId>)
        ensures
            r@ == self.nodes_with(texts(labels@)),
    ;

    /// Returns whether `node` has the given label.
    fn matches_label(&self, node: Self::NodeId, label: &str) -> (r: bool)
        ensures
            r == self.has_label(node, label@),
    ;

    /// Returns the names of all relationship types this graph exposes. Used to expand untyped
    /// relationship patterns (`-->`, `-[]->`) and to validate relationship-type names in queries.
    fn relationship_types(&self) -> (r: Vec<String>)
        ensures
            texts(r@) == self.rel_names(),
    ;

    /// Returns the outgoing neighbours of `node` along the relationship type `rel_type`.
    fn expand(&self, node: Self::NodeId, rel_type: &str) -> (r: Vec<Self::NodeId>)
        ensures
            r@ == self.edges(rel_type@)(node),
    ;

    /// Returns the nodes that may have an outgoing `rel_type` edge. Used to build reverse adjacency
    /// for incoming and undirected traversal. Returning all nodes is always correct (if less
    /// efficient); returning a tighter set is an optimization.
    fn rel_sources(&self, rel_type: &str) -> (r: Vec<Self::NodeId>)
        ensures
            r@ == self.sources(rel_type@),
    ;

    /// Returns the incoming neighbours of `node` along `rel_type`, if the graph can tell them
    /// without a search. `None`, the default, makes the executor find them through
    /// [`GraphProvider::rel_sources`] and [`GraphProvider::expand`]; an answer names the nodes that
    /// this search would find, in the order in which it would find them (repetitions aside).
    fn expand_in(&self, node: Self::NodeId, rel_type: &str) -> (r: Option<Vec<Self::NodeId>>)
        ensures
            r matches Some(v) ==> distinct(v@) == distinct(
                leading_to(self.sources(rel_type@), self.edges(rel_type@), node),
            ),
        default_ensures
            r is None,
    {
        None
    }

    /// Returns the value of property `prop` on `node`, or [`CypherValue::Null`] if it is absent.
    fn property(&self, node: Self::NodeId, prop: &str) -> (r: CypherValue)
        ensures
            r@ == self.prop_value(node, prop@),
    ;

    /// Returns a stable, opaque identifier for `node`, carried through to returned nodes so
    /// consumers can map a result back to their own object.
    ///
    /// The library never interprets this string: it only compares it for identity (so distinct
    /// nodes get distinct ids) and never includes it in table or JSON output. Encode whatever the
    /// consumer needs to round-trip a node (for example a type tag plus a primary key).
    fn node_id(&self, node: Self::NodeId) -> (r: String)
        ensures
            r@ == self.id_text(node),
    ;

    /// Returns the node's primary label, used when a bound node is returned directly.
    fn label(&self, node: Self::NodeId) -> (r: String)
        ensures
            r@ == self.label_text(node),
    ;

    /// Returns the node's display name, used when a bound node is returned directly.
    fn name(&self, node: Self::NodeId) -> (r: String)
        ensures
            r@ == self.name_text(node),
    ;
}

/// `source`, once for each time that `node` stands among `targets`.
pub open spec fn hits<N>(targets: Seq<N>, node: N, source: N) -> Seq<N>
    decreases targets.len(),
{
    if targets.len() == 0 {
        Seq::empty()
    } else if targets.last() == node {
        hits(targets.drop_last(), node, source).push(source)
    } else {
        hits(targets.drop_last(), node, source)
    }
}

/// The nodes among `sources` that have an edge to `node`, in order, once for each such edge.
pub open spec fn leading_to<N>(sources: Seq<N>, edges: spec_fn(N) -> Seq<N>, node: N) -> Seq<N>
    decreases sources.len(),
{
    if sources.len() == 0 {
        Seq::empty()
    } else {
        leading_to(sources.drop_last(), edges, node) + hits(
            edges(sources.last()),
            node,
            sources.last(),
        )
    }
}

/// Whether the graph can answer so when it is asked for the incoming neighbours of `node` along
/// `rel`: with nodes, or not at all.
pub open spec fn may_answer<G: GraphProvider>(
    g: &G,
    node: G::NodeId,
    rel: Text,
    answer: Option<Seq<G::NodeId>>,
) -> bool {
    exists|rel_type: &str, r: Option<Vec<G::NodeId>>| #[trigger]
        call_ensures(G::expand_in, (g, node, rel_type), r) && rel_type@ == rel && answer == (
        match r {
            Some(v) => Some(v@),
            None => None,
        })
}

/// The incoming neighbours of `node` along `rel`.
pub open spec fn incoming<G: GraphProvider>(g: &G, node: G::NodeId, rel: Text) -> Seq<G::NodeId> {
    leading_to(g.sources(rel), g.edges(rel), node)
}

/// Whether the node handles of a graph behave as keys: `==` is equality and hashing agrees with it.
pub open spec fn lawful_nodes<G: GraphProvider>() -> bool {
    &&& obeys_concrete_eq::<G::NodeId>()
    &&& obeys_key_model::<G::NodeId>()
}

} // verus!
