//! Pattern matching against a graph: candidates for a node pattern, the steps of a hop, and the
//! rows that a path makes of its input.

use std::collections::{HashMap, HashSet};
use std::hash::Hash;

use vstd::prelude::*;
use vstd::std_specs::hash::obeys_key_model;

use crate::ast::{
    clone_strings, path_models, Direction, Literal, NodePattern, PathPattern, RelPattern, VarLength,
};
use crate::error::{CypherError, ErrorModel};
use crate::pattern::{
    accepts, arrive, begin, begin_all, bind, candidates, check_types, hop_all, keep_all, kept,
    labels_ok, level, levels, literal_value, match_path, match_paths, max_length, neighbours,
    neighbours_by_type, neighbours_of_all, node_ok, plan_pattern, planned, props_ok, reached,
    resolve_types, suitable, targets, unknown_type, walk, walker_rows, Keep, Walker,
};
use crate::provider::{hits, incoming, lawful_nodes, leading_to, may_answer, GraphProvider};
use crate::row::{row_models, Binding, Row, RowModel};
use crate::seqs::{
    distinct, fresh, lemma_concat_set, lemma_distinct_set, lemma_fresh_concat,
    lemma_fresh_distinct, lemma_fresh_elements, lemma_push_contains,
};
use crate::text::{has_name, opt_text, push_text, texts, Text};
use crate::value::CypherValue;
use crate::walks::{edge, lemma_incoming, sources_cover};

verus! {

broadcast use vstd::std_specs::hash::group_hash_axioms;

/// Runs the parts of a query against a graph.
pub struct Executor<'a, G: GraphProvider> {
    /// The graph.
    graph: &'a G,
    /// Lazily-built reverse adjacency (target -> sources) per relationship type, for incoming and
    /// undirected traversal.
    reverse_cache: Vec<(String, HashMap<G::NodeId, Vec<G::NodeId>>)>,
}

/// What a reverse adjacency holds for a node.
spec fn indexed<N>(index: Map<N, Vec<N>>, node: N) -> Seq<N> {
    if index.contains_key(node) {
        index[node]@
    } else {
        Seq::empty()
    }
}

/// Decides which nodes a variable may be bound to while patterns are matched.
pub trait NodeFilter<G: GraphProvider> {
    /// The decision.
    spec fn keeps(&self, g: &G) -> Keep<G::NodeId>;

    /// Whether the variable may stand for the node.
    fn keep(&self, executor: &mut Executor<'_, G>, name: &String, node: G::NodeId) -> (r: bool)
        requires
            old(executor).ok(),
        ensures
            r == (self.keeps(old(executor).source()))(name@, node),
            final(executor).ok(),
            final(executor).source() == old(executor).source(),
    ;
}

/// The filter that admits every node.
pub struct NoFilter;

impl<G: GraphProvider> NodeFilter<G> for NoFilter {
    open spec fn keeps(&self, g: &G) -> Keep<G::NodeId> {
        keep_all()
    }

    fn keep(&self, executor: &mut Executor<'_, G>, name: &String, node: G::NodeId) -> (r: bool) {
        true
    }
}

/// A row paired with the node most recently matched in the path being expanded.
pub type Working<N> = Vec<(Row<N>, N)>;

/// The models of the working rows.
pub open spec fn walkers<N>(working: Seq<(Row<N>, N)>) -> Seq<Walker<N>> {
    Seq::new(working.len(), |i: int| (working[i].0@, working[i].1))
}

/// The models grow with the sequence.
proof fn lemma_walkers_push<N>(working: Seq<(Row<N>, N)>, w: (Row<N>, N))
    ensures
        walkers(working.push(w)) == walkers(working).push((w.0@, w.1)),
{
    assert(walkers(working.push(w)) =~= walkers(working).push((w.0@, w.1)));
}

/// Appends the items that are not in `seen`, each once, and puts them into it.
fn absorb<N: Copy + Eq + Hash>(seen: &mut HashSet<N>, out: &mut Vec<N>, items: &Vec<N>)
    requires
        obeys_key_model::<N>(),
    ensures
        final(out)@ == old(out)@ + fresh(items@, old(seen)@),
        final(seen)@ == old(seen)@.union(items@.to_set()),
{
    let ghost known = seen@;
    let ghost start = out@;
    let mut i: usize = 0;
    assert(seen@.union(items@.take(0).to_set()) =~= seen@);
    while i < items.len()
        invariant
            obeys_key_model::<N>(),
            i <= items@.len(),
            out@ == start + fresh(items@.take(i as int), known),
            seen@ == known.union(items@.take(i as int).to_set()),
        decreases items@.len() - i,
    {
        let item = items[i];
        let ghost before = items@.take(i as int);
        let ghost after = items@.take(i as int + 1);
        assert(after.drop_last() =~= before && after.last() == item);
        assert(after =~= before.push(item));
        let ghost seen_before = seen@;
        if seen.insert(item) {
            out.push(item);
        }
        i += 1;
        assert forall|a: N| seen@.contains(a) <==> known.union(after.to_set()).contains(a) by {
            lemma_push_contains(before, item, a);
        }
        assert(seen@ =~= known.union(after.to_set()));
        assert(out@ =~= start + fresh(after, known));
    }
    assert(items@.take(i as int) =~= items@);
}

/// Replacing a sequence by one with the same distinct elements does not change what is fresh.
proof fn lemma_same_fresh<A>(s: Seq<A>, t: Seq<A>, known: Set<A>)
    requires
        distinct(s) == distinct(t),
    ensures
        fresh(s, known) == fresh(t, known),
        s.to_set() == t.to_set(),
{
    lemma_fresh_distinct(s, known);
    lemma_fresh_distinct(t, known);
    lemma_distinct_set(s);
    lemma_distinct_set(t);
}

/// One step of a search that goes on from `p` to `p + t`, when the nodes found are those of `s`.
proof fn lemma_search_step<A>(p: Seq<A>, s: Seq<A>, t: Seq<A>, known: Set<A>)
    requires
        distinct(s) == distinct(t),
    ensures
        fresh(p + t, known) == fresh(p, known) + fresh(s, known.union(p.to_set())),
        known.union(p.to_set()).union(s.to_set()) == known.union((p + t).to_set()),
{
    lemma_fresh_concat(p, t, known);
    lemma_same_fresh(s, t, known.union(p.to_set()));
    lemma_concat_set(p, t);
    assert(known.union(p.to_set()).union(s.to_set()) =~= known.union((p + t).to_set()));
}

/// After an empty level no further level holds a node.
proof fn lemma_levels_end<G: GraphProvider>(
    g: &G,
    start: G::NodeId,
    types: Seq<Text>,
    direction: Direction,
    min: nat,
    k: nat,
    end: nat,
)
    requires
        level(g, start, types, direction, k).len() == 0,
        k < end,
    ensures
        level(g, start, types, direction, (end - 1) as nat).len() == 0,
        levels(g, start, types, direction, min, end) == levels(
            g,
            start,
            types,
            direction,
            min,
            k + 1,
        ),
    decreases end,
{
    if end > k + 1 {
        lemma_levels_end(g, start, types, direction, min, k, (end - 1) as nat);
        let before = level(g, start, types, direction, (end - 2) as nat);
        assert(neighbours_of_all(g, before, types, direction) =~= Seq::empty());
        assert(level(g, start, types, direction, (end - 1) as nat).len() == 0);
        assert(levels(g, start, types, direction, min, end) =~= levels(
            g,
            start,
            types,
            direction,
            min,
            (end - 1) as nat,
        ));
    }
}

/// A literal as a value.
pub fn literal_to_value(literal: &Literal) -> (r: CypherValue)
    ensures
        r@ == literal_value(literal@),
{
    match literal {
        Literal::Str(value) => CypherValue::Str(value.clone()),
        Literal::Int(value) => CypherValue::Int(*value),
        Literal::Bool(value) => CypherValue::Bool(*value),
        Literal::Null => CypherValue::Null,
    }
}

/// The relationship types with one more, unless it is among them.
pub open spec fn with_type(types: Seq<Text>, rel: Text) -> Seq<Text> {
    if types.contains(rel) {
        types
    } else {
        types.push(rel)
    }
}

/// The members of what stands for the incoming neighbours.
proof fn lemma_incoming_members<G: GraphProvider>(
    g: &G,
    node: G::NodeId,
    rel: Text,
    found: Seq<G::NodeId>,
)
    requires
        distinct(found) == distinct(incoming(g, node, rel)),
    ensures
        sources_cover(g, rel) ==> forall|s: G::NodeId| #[trigger]
            found.contains(s) <==> edge(g, rel, s, node),
{
    if sources_cover(g, rel) {
        lemma_fresh_elements(found, Set::empty());
        lemma_fresh_elements(incoming(g, node, rel), Set::empty());
        assert forall|s: G::NodeId| #[trigger] found.contains(s) <==> edge(g, rel, s, node) by {
            lemma_incoming(g, node, rel, s);
            assert(distinct(found).contains(s) <==> found.contains(s));
            assert(distinct(incoming(g, node, rel)).contains(s) <==> incoming(
                g,
                node,
                rel,
            ).contains(s));
        }
    }
}

impl<'a, G: GraphProvider> Executor<'a, G> {
    /// Whether the node handles are lawful and the reverse adjacencies agree with the graph.
    pub closed spec fn ok(&self) -> bool {
        &&& lawful_nodes::<G>()
        &&& self.indexed_types().no_duplicates()
        &&& forall|i: int, node: G::NodeId|
            0 <= i < self.reverse_cache@.len() ==> #[trigger] indexed(
                self.reverse_cache@[i].1@,
                node,
            ) == incoming(self.graph, node, self.reverse_cache@[i].0@)
    }

    /// The relationship types whose reverse adjacency has been built, in the order of the building.
    pub closed spec fn indexed_types(&self) -> Seq<Text> {
        Seq::new(self.reverse_cache@.len(), |i: int| self.reverse_cache@[i].0@)
    }

    /// The graph.
    pub closed spec fn source(&self) -> &'a G {
        self.graph
    }

    /// The graph.
    pub fn graph(&self) -> (r: &'a G)
        ensures
            r == self.source(),
    {
        self.graph
    }

    /// The executor for a graph.
    pub fn new(graph: &'a G) -> (r: Executor<'a, G>)
        requires
            lawful_nodes::<G>(),
        ensures
            r.ok(),
            r.source() == graph,
            r.indexed_types() == Seq::<Text>::empty(),
    {
        let r = Executor { graph, reverse_cache: Vec::new() };
        assert(r.indexed_types() =~= Seq::<Text>::empty());
        r
    }

    /// The reverse adjacency of one relationship type.
    fn reverse_index(&self, rel: &String) -> (r: HashMap<G::NodeId, Vec<G::NodeId>>)
        requires
            self.ok(),
        ensures
            forall|node: G::NodeId| #[trigger]
                indexed(r@, node) == incoming(self.graph, node, rel@),
    {
        let sources = self.graph.rel_sources(rel.as_str());
        let ghost edges = self.graph.edges(rel@);
        let mut reverse: HashMap<G::NodeId, Vec<G::NodeId>> = HashMap::new();
        let mut i: usize = 0;
        assert forall|node: G::NodeId| #[trigger] indexed(reverse@, node) == leading_to(
            sources@.take(0),
            edges,
            node,
        ) by {}
        while i < sources.len()
            invariant
                self.ok(),
                i <= sources@.len(),
                sources@ == self.graph.sources(rel@),
                edges == self.graph.edges(rel@),
                forall|node: G::NodeId| #[trigger]
                    indexed(reverse@, node) == leading_to(sources@.take(i as int), edges, node),
            decreases sources@.len() - i,
        {
            let source = sources[i];
            let found = self.graph.expand(source, rel.as_str());
            let ghost base = sources@.take(i as int);
            assert forall|node: G::NodeId| #[trigger] indexed(reverse@, node) == leading_to(
                base,
                edges,
                node,
            ) + hits(found@.take(0), node, source) by {}
            let mut j: usize = 0;
            while j < found.len()
                invariant
                    self.ok(),
                    j <= found@.len(),
                    forall|node: G::NodeId| #[trigger]
                        indexed(reverse@, node) == leading_to(base, edges, node) + hits(
                            found@.take(j as int),
                            node,
                            source,
                        ),
                decreases found@.len() - j,
            {
                let target = found[j];
                let ghost old_index = reverse@;
                let mut list = match reverse.remove(&target) {
                    Some(list) => list,
                    None => Vec::new(),
                };
                assert(list@ == indexed(old_index, target));
                list.push(source);
                reverse.insert(target, list);
                assert(found@.take(j as int + 1).drop_last() =~= found@.take(j as int));
                assert(found@.take(j as int + 1).last() == target);
                assert forall|node: G::NodeId| #[trigger] indexed(reverse@, node) == leading_to(
                    base,
                    edges,
                    node,
                ) + hits(found@.take(j as int + 1), node, source) by {
                    let prior = indexed(old_index, node);
                    if node == target {
                        assert(indexed(reverse@, node) == prior.push(source));
                    } else {
                        assert(indexed(reverse@, node) == prior);
                    }
                }
                j += 1;
            }
            assert(found@.take(j as int) =~= found@);
            assert(sources@.take(i as int + 1).drop_last() =~= base);
            assert(sources@.take(i as int + 1).last() == source);
            assert(found@ == edges(source));
            i += 1;
        }
        assert(sources@.take(i as int) =~= sources@);
        reverse
    }

    /// The incoming neighbours of a node: what the graph says of them, or else what its reverse
    /// adjacency holds. If the sources of the type include every node with an outgoing edge, these
    /// are the nodes with an edge to it. Where the graph answers, nothing is built.
    pub fn incoming(&mut self, node: G::NodeId, rel: &String) -> (r: Vec<G::NodeId>)
        requires
            old(self).ok(),
        ensures
            exists|answer: Option<Seq<G::NodeId>>| #[trigger]
                may_answer(old(self).source(), node, rel@, answer) && match answer {
                    Some(nodes) => r@ == nodes && final(self).indexed_types() == old(
                        self,
                    ).indexed_types(),
                    None => r@ == incoming(old(self).source(), node, rel@)
                        && final(self).indexed_types() == with_type(
                        old(self).indexed_types(),
                        rel@,
                    ),
                },
            distinct(r@) == distinct(incoming(old(self).source(), node, rel@)),
            sources_cover(old(self).source(), rel@) ==> forall|s: G::NodeId| #[trigger]
                r@.contains(s) <==> edge(old(self).source(), rel@, s, node),
            final(self).ok(),
            final(self).source() == old(self).source(),
    {
        let name = rel.as_str();
        let answer = self.graph.expand_in(node, name);
        let ghost said: Option<Seq<G::NodeId>> = match answer {
            Some(ref v) => Some(v@),
            None => None,
        };
        assert(call_ensures(G::expand_in, (self.graph, node, name), answer));
        assert(may_answer(self.graph, node, rel@, said));
        let r = self.incoming_given(node, rel, answer);
        proof {
            lemma_incoming_members(self.graph, node, rel@, r@);
        }
        r
    }

    /// The incoming neighbours of a node, given what the graph has answered: the answer, or else
    /// what the reverse adjacency holds, one source for each edge. The reverse adjacency of a type
    /// is built once, when it is first needed.
    pub fn incoming_given(
        &mut self,
        node: G::NodeId,
        rel: &String,
        answer: Option<Vec<G::NodeId>>,
    ) -> (r: Vec<G::NodeId>)
        requires
            old(self).ok(),
        ensures
            match answer {
                Some(nodes) => r@ == nodes@ && final(self).indexed_types() == old(
                    self,
                ).indexed_types(),
                None => r@ == incoming(old(self).source(), node, rel@)
                    && final(self).indexed_types() == with_type(old(self).indexed_types(), rel@),
            },
            final(self).ok(),
            final(self).source() == old(self).source(),
    {
        if let Some(nodes) = answer {
            return nodes;
        }
        let mut at: usize = 0;
        while at < self.reverse_cache.len()
            invariant
                at <= self.reverse_cache@.len(),
                self.ok(),
                self.graph == old(self).source(),
                self.indexed_types() == old(self).indexed_types(),
                answer is None,
                forall|k: int| 0 <= k < at ==> (#[trigger] self.reverse_cache@[k]).0@ != rel@,
            decreases self.reverse_cache@.len() - at,
        {
            if self.reverse_cache[at].0 == *rel {
                let r = Self::lookup(&self.reverse_cache[at].1, node);
                assert(r@ == indexed(self.reverse_cache@[at as int].1@, node));
                assert(self.indexed_types()[at as int] == rel@);
                return r;
            }
            at += 1;
        }
        let index = self.reverse_index(rel);
        let r = Self::lookup(&index, node);
        assert(r@ == indexed(index@, node));
        let ghost before = self.reverse_cache@;
        let ghost types = self.indexed_types();
        proof {
            if types.contains(rel@) {
                let k = choose|k: int| 0 <= k < types.len() && types[k] == rel@;
                assert(self.reverse_cache@[k].0@ == rel@);
            }
        }
        self.reverse_cache.push((rel.clone(), index));
        assert(self.indexed_types() =~= types.push(rel@));
        assert forall|i: int, n: G::NodeId|
            0 <= i < self.reverse_cache@.len() implies #[trigger] indexed(
            self.reverse_cache@[i].1@,
            n,
        ) == incoming(self.graph, n, self.reverse_cache@[i].0@) by {
            if i < before.len() {
                assert(indexed(before[i].1@, n) == incoming(self.graph, n, before[i].0@));
            }
        }
        r
    }

    /// What a reverse adjacency holds for a node.
    fn lookup(index: &HashMap<G::NodeId, Vec<G::NodeId>>, node: G::NodeId) -> (r: Vec<G::NodeId>)
        requires
            lawful_nodes::<G>(),
        ensures
            r@ == indexed(index@, node),
    {
        match index.get(&node) {
            Some(list) => copy_nodes(list),
            None => Vec::new(),
        }
    }

    /// The neighbours of a node along one relationship type.
    fn step_once(&mut self, node: G::NodeId, rel: &String, direction: Direction) -> (r: Vec<
        G::NodeId,
    >)
        requires
            old(self).ok(),
        ensures
            distinct(r@) == neighbours(old(self).source(), node, rel@, direction),
            final(self).ok(),
            final(self).source() == old(self).source(),
    {
        match direction {
            Direction::Outgoing => self.graph.expand(node, rel.as_str()),
            Direction::Incoming => self.incoming(node, rel),
            Direction::Both => {
                let forward = self.graph.expand(node, rel.as_str());
                let backward = self.incoming(node, rel);
                let mut seen: HashSet<G::NodeId> = HashSet::new();
                let mut found: Vec<G::NodeId> = Vec::new();
                absorb(&mut seen, &mut found, &forward);
                absorb(&mut seen, &mut found, &backward);
                proof {
                    let back = incoming(self.graph, node, rel@);
                    let none = Set::<G::NodeId>::empty();
                    lemma_search_step(forward@, backward@, back, none);
                    assert(none.union(forward@.to_set()) =~= forward@.to_set());
                    assert(found@ =~= distinct(forward@ + back));
                    lemma_fresh_distinct(forward@ + back, none);
                }
                found
            },
        }
    }

    /// The nodes that one hop leads to.
    fn step_targets(
        &mut self,
        node: G::NodeId,
        rel_types: &Vec<String>,
        direction: Direction,
        length: &Option<VarLength>,
    ) -> (r: Vec<G::NodeId>)
        requires
            old(self).ok(),
        ensures
            r@ == targets(old(self).source(), node, texts(rel_types@), direction, *length),
            final(self).ok(),
            final(self).source() == old(self).source(),
    {
        if let Some(var_length) = length {
            return self.var_length_targets(node, rel_types, direction, var_length);
        }
        let mut seen: HashSet<G::NodeId> = HashSet::new();
        let mut found: Vec<G::NodeId> = Vec::new();
        let ghost none = Set::<G::NodeId>::empty();
        assert(none.union(Seq::<G::NodeId>::empty().to_set()) =~= none);
        self.visit(
            &mut seen,
            &mut found,
            node,
            rel_types,
            direction,
            Ghost(none),
            Ghost(Seq::empty()),
        );
        proof {
            let all = neighbours_by_type(self.graph, node, texts(rel_types@), direction);
            assert(Seq::<G::NodeId>::empty() + all =~= all);
        }
        found
    }

    /// Continues a search that has come through the nodes of `past` with the neighbours of a node.
    fn visit(
        &mut self,
        seen: &mut HashSet<G::NodeId>,
        found: &mut Vec<G::NodeId>,
        node: G::NodeId,
        rel_types: &Vec<String>,
        direction: Direction,
        Ghost(known): Ghost<Set<G::NodeId>>,
        Ghost(past): Ghost<Seq<G::NodeId>>,
    )
        requires
            old(self).ok(),
            old(found)@ == fresh(past, known),
            old(seen)@ == known.union(past.to_set()),
        ensures
            final(self).ok(),
            final(self).source() == old(self).source(),
            ({
                let now = past + neighbours_by_type(
                    old(self).source(),
                    node,
                    texts(rel_types@),
                    direction,
                );
                final(found)@ == fresh(now, known) && final(seen)@ == known.union(now.to_set())
            }),
    {
        let ghost g = self.graph;
        let ghost types = texts(rel_types@);
        let mut j: usize = 0;
        assert(past + neighbours_by_type(g, node, types.take(0), direction) =~= past);
        while j < rel_types.len()
            invariant
                self.ok(),
                self.graph == g,
                types == texts(rel_types@),
                j <= rel_types@.len(),
                found@ == fresh(
                    past + neighbours_by_type(g, node, types.take(j as int), direction),
                    known,
                ),
                seen@ == known.union(
                    (past + neighbours_by_type(
                        g,
                        node,
                        types.take(j as int),
                        direction,
                    )).to_set(),
                ),
            decreases rel_types@.len() - j,
        {
            let step = self.step_once(node, &rel_types[j], direction);
            proof {
                let p = past + neighbours_by_type(g, node, types.take(j as int), direction);
                let t = neighbours(g, node, types[j as int], direction);
                lemma_fresh_distinct(step@, Set::empty());
                lemma_search_step(p, step@, t, known);
                assert(types.take(j as int + 1).drop_last() =~= types.take(j as int));
                assert(types.take(j as int + 1).last() == types[j as int]);
                assert(past + neighbours_by_type(g, node, types.take(j as int + 1), direction)
                    =~= p + t);
            }
            absorb(seen, found, &step);
            j += 1;
        }
        assert(types.take(j as int) =~= types);
    }

    /// The nodes that a variable-length hop leads to, by breadth-first search.
    fn var_length_targets(
        &mut self,
        start: G::NodeId,
        rel_types: &Vec<String>,
        direction: Direction,
        var_length: &VarLength,
    ) -> (r: Vec<G::NodeId>)
        requires
            old(self).ok(),
        ensures
            r@ == levels(
                old(self).source(),
                start,
                texts(rel_types@),
                direction,
                var_length.min as nat,
                max_length(*var_length) + 1,
            ),
            final(self).ok(),
            final(self).source() == old(self).source(),
    {
        let max: u32 = match var_length.max {
            Some(m) => m,
            None => u32::MAX,
        };
        let ghost g = self.graph;
        let ghost types = texts(rel_types@);
        let ghost min = var_length.min as nat;
        let mut results: Vec<G::NodeId> = Vec::new();
        if var_length.min == 0 {
            results.push(start);
        }
        let mut seen: HashSet<G::NodeId> = HashSet::new();
        seen.insert(start);
        let mut frontier: Vec<G::NodeId> = Vec::new();
        frontier.push(start);
        let mut depth: u32 = 0;
        proof {
            assert(frontier@ =~= level(g, start, types, direction, 0));
            assert(seen@ =~= reached(g, start, types, direction, 0).to_set()) by {
                let s = reached(g, start, types, direction, 0);
                assert(s =~= seq![start]);
                assert(s[0] == start);
            }
            assert(levels(g, start, types, direction, min, 0) =~= Seq::empty());
            assert(results@ =~= levels(g, start, types, direction, min, 1));
        }
        while depth < max && frontier.len() > 0
            invariant
                self.ok(),
                self.graph == g,
                types == texts(rel_types@),
                min == var_length.min as nat,
                depth <= max,
                frontier@ == level(g, start, types, direction, depth as nat),
                seen@ == reached(g, start, types, direction, depth as nat).to_set(),
                results@ == levels(g, start, types, direction, min, depth as nat + 1),
            decreases max - depth,
        {
            let mut next: Vec<G::NodeId> = Vec::new();
            let ghost known = seen@;
            let ghost k = depth as nat;
            let mut i: usize = 0;
            assert(known.union(Seq::<G::NodeId>::empty().to_set()) =~= known);
            while i < frontier.len()
                invariant
                    self.ok(),
                    self.graph == g,
                    types == texts(rel_types@),
                    i <= frontier@.len(),
                    next@ == fresh(
                        neighbours_of_all(g, frontier@.take(i as int), types, direction),
                        known,
                    ),
                    seen@ == known.union(
                        neighbours_of_all(
                            g,
                            frontier@.take(i as int),
                            types,
                            direction,
                        ).to_set(),
                    ),
                decreases frontier@.len() - i,
            {
                let ghost past = neighbours_of_all(
                    g,
                    frontier@.take(i as int),
                    types,
                    direction,
                );
                self.visit(
                    &mut seen,
                    &mut next,
                    frontier[i],
                    rel_types,
                    direction,
                    Ghost(known),
                    Ghost(past),
                );
                assert(frontier@.take(i as int + 1).drop_last() =~= frontier@.take(i as int));
                i += 1;
            }
            assert(frontier@.take(i as int) =~= frontier@);
            depth += 1;
            proof {
                let around = neighbours_of_all(g, frontier@, types, direction);
                assert(next@ == level(g, start, types, direction, depth as nat));
                lemma_concat_set(reached(g, start, types, direction, k), next@);
                lemma_fresh_elements(around, known);
                assert(seen@ =~= reached(g, start, types, direction, depth as nat).to_set());
            }
            if depth >= var_length.min {
                append_nodes(&mut results, &next);
            } else {
                assert(results@ =~= levels(
                    g,
                    start,
                    types,
                    direction,
                    min,
                    depth as nat + 1,
                ));
            }
            frontier = next;
        }
        proof {
            if depth < max {
                lemma_levels_end(
                    g,
                    start,
                    types,
                    direction,
                    min,
                    depth as nat,
                    max as nat + 1,
                );
            }
        }
        results
    }
}

/// A copy of the nodes.
fn copy_nodes<N: Copy>(nodes: &Vec<N>) -> (r: Vec<N>)
    ensures
        r@ == nodes@,
{
    let mut out: Vec<N> = Vec::new();
    append_nodes(&mut out, nodes);
    assert(out@ =~= nodes@);
    out
}

/// Appends the nodes.
fn append_nodes<N: Copy>(out: &mut Vec<N>, nodes: &Vec<N>)
    ensures
        final(out)@ == old(out)@ + nodes@,
{
    let ghost start = out@;
    let mut i: usize = 0;
    assert(start + nodes@.take(0) =~= start);
    while i < nodes.len()
        invariant
            i <= nodes@.len(),
            out@ == start + nodes@.take(i as int),
        decreases nodes@.len() - i,
    {
        out.push(nodes[i]);
        i += 1;
        assert(out@ =~= start + nodes@.take(i as int));
    }
    assert(nodes@.take(i as int) =~= nodes@);
}

impl<'a, G: GraphProvider> Executor<'a, G> {
    /// A node matches an empty label set, or any one of the listed labels (label disjunction).
    fn matches_labels(&self, node: G::NodeId, labels: &Vec<String>) -> (r: bool)
        ensures
            r == labels_ok(self.source(), node, texts(labels@)),
    {
        if labels.len() == 0 {
            return true;
        }
        let mut i: usize = 0;
        while i < labels.len()
            invariant
                i <= labels@.len(),
                forall|k: int|
                    0 <= k < i ==> !self.graph.has_label(node, #[trigger] texts(labels@)[k]),
            decreases labels@.len() - i,
        {
            if self.graph.matches_label(node, labels[i].as_str()) {
                assert(self.graph.has_label(node, texts(labels@)[i as int]));
                return true;
            }
            i += 1;
        }
        false
    }

    /// A node has each of the listed properties.
    fn props_match(&self, node: G::NodeId, pattern: &NodePattern) -> (r: bool)
        ensures
            r == props_ok(self.source(), node, pattern@.props),
    {
        let mut i: usize = 0;
        while i < pattern.props.len()
            invariant
                i <= pattern.props@.len(),
                forall|k: int|
                    0 <= k < i ==> self.graph.prop_value(
                        node,
                        (#[trigger] pattern@.props[k]).0,
                    ) == literal_value(pattern@.props[k].1),
            decreases pattern.props@.len() - i,
        {
            let value = self.graph.property(node, pattern.props[i].0.as_str());
            let wanted = literal_to_value(&pattern.props[i].1);
            if !value.same(&wanted) {
                assert(pattern@.props[i as int].0 == pattern.props@[i as int].0@);
                return false;
            }
            i += 1;
        }
        true
    }

    /// A node satisfies the labels and the properties of a pattern.
    fn node_matches(&self, node: G::NodeId, pattern: &NodePattern) -> (r: bool)
        ensures
            r == node_ok(self.source(), node, pattern@),
    {
        self.matches_labels(node, &pattern.labels) && self.props_match(node, pattern)
    }

    /// Whether the filter lets the variable, if there is one, stand for the node.
    fn keeps<F: NodeFilter<G>>(
        &mut self,
        filter: &F,
        var: &Option<String>,
        node: G::NodeId,
    ) -> (r: bool)
        requires
            old(self).ok(),
        ensures
            r == kept(filter.keeps(old(self).source()), opt_text(*var), node),
            final(self).ok(),
            final(self).source() == old(self).source(),
    {
        match var {
            Some(name) => filter.keep(self, name, node),
            None => true,
        }
    }

    /// The nodes that the first node pattern of a path can stand for.
    fn candidates_for_node<F: NodeFilter<G>>(
        &mut self,
        row: &Row<G::NodeId>,
        pattern: &NodePattern,
        filter: &F,
    ) -> (r: Vec<G::NodeId>)
        requires
            old(self).ok(),
        ensures
            r@ == candidates(
                old(self).source(),
                row@,
                pattern@,
                filter.keeps(old(self).source()),
            ),
            final(self).ok(),
            final(self).source() == old(self).source(),
    {
        if let Some(var) = &pattern.var {
            if let Some(binding) = row.get(var) {
                let mut out: Vec<G::NodeId> = Vec::new();
                if let Binding::Node(existing) = binding {
                    if self.node_matches(*existing, pattern) {
                        out.push(*existing);
                    }
                }
                return out;
            }
        }
        let ghost g = self.graph;
        let ghost keep = filter.keeps(g);
        let scanned = self.graph.scan(pattern.labels.as_slice());
        let mut out: Vec<G::NodeId> = Vec::new();
        let mut i: usize = 0;
        while i < scanned.len()
            invariant
                self.ok(),
                self.graph == g,
                keep == filter.keeps(g),
                i <= scanned@.len(),
                out@ == suitable(g, pattern@, keep, scanned@.take(i as int)),
            decreases scanned@.len() - i,
        {
            let node = scanned[i];
            let ghost after = scanned@.take(i as int + 1);
            assert(after.drop_last() =~= scanned@.take(i as int));
            if self.props_match(node, pattern) {
                if self.keeps(filter, &pattern.var, node) {
                    out.push(node);
                }
            }
            i += 1;
        }
        assert(scanned@.take(i as int) =~= scanned@);
        out
    }

    /// The relationship types of a hop: those listed, which must be known, or all of the graph's.
    fn resolve_rel_types(&self, rel: &RelPattern) -> (r: Result<Vec<String>, CypherError>)
        ensures
            match r {
                Ok(types) => resolve_types(self.source(), rel@.types) == Ok::<
                    Seq<Text>,
                    ErrorModel,
                >(texts(types@)),
                Err(e) => resolve_types(self.source(), rel@.types) == Err::<
                    Seq<Text>,
                    ErrorModel,
                >(e@),
            },
    {
        let known = self.graph.relationship_types();
        if rel.types.len() == 0 {
            return Ok(known);
        }
        let ghost wanted = texts(rel.types@);
        let mut i: usize = 0;
        while i < rel.types.len()
            invariant
                i <= rel.types@.len(),
                rel.types@.len() > 0,
                texts(known@) == self.graph.rel_names(),
                wanted == texts(rel.types@),
                wanted == rel@.types,
                check_types(texts(known@), wanted, 0) == check_types(
                    texts(known@),
                    wanted,
                    i as int,
                ),
            decreases rel.types@.len() - i,
        {
            if !has_name(&known, &rel.types[i]) {
                let mut message = String::new();
                push_text(&mut message, "unknown relationship type `");
                push_text(&mut message, rel.types[i].as_str());
                push_text(&mut message, "`");
                assert(message@ =~= unknown_type(wanted[i as int]));
                return Err(CypherError::Execution { message });
            }
            i += 1;
        }
        Ok(clone_strings(&rel.types))
    }

    /// Takes each working row one hop further.
    fn expand_step<F: NodeFilter<G>>(
        &mut self,
        working: &Working<G::NodeId>,
        rel: &RelPattern,
        node: &NodePattern,
        filter: &F,
    ) -> (r: Result<Working<G::NodeId>, CypherError>)
        requires
            old(self).ok(),
        ensures
            final(self).ok(),
            final(self).source() == old(self).source(),
            match resolve_types(old(self).source(), rel@.types) {
                Ok(types) => r is Ok && walkers(r->Ok_0@) == hop_all(
                    old(self).source(),
                    walkers(working@),
                    types,
                    rel@,
                    node@,
                    filter.keeps(old(self).source()),
                ),
                Err(e) => r is Err && r->Err_0@ == e,
            },
    {
        let rel_types = match self.resolve_rel_types(rel) {
            Ok(types) => types,
            Err(e) => {
                return Err(e);
            },
        };
        let ghost g = self.graph;
        let ghost keep = filter.keeps(g);
        let ghost types = texts(rel_types@);
        let mut next: Working<G::NodeId> = Vec::new();
        let mut i: usize = 0;
        assert(walkers(next@) =~= Seq::empty());
        while i < working.len()
            invariant
                self.ok(),
                self.graph == g,
                keep == filter.keeps(g),
                types == texts(rel_types@),
                i <= working@.len(),
                walkers(next@) == hop_all(
                    g,
                    walkers(working@).take(i as int),
                    types,
                    rel@,
                    node@,
                    keep,
                ),
            decreases working@.len() - i,
        {
            let row = &working[i].0;
            let found = self.step_targets(working[i].1, &rel_types, rel.direction, &rel.length);
            let ghost before = walkers(next@);
            let mut j: usize = 0;
            assert(before + arrive(g, row@, node@, keep, found@.take(0)) =~= before);
            while j < found.len()
                invariant
                    self.ok(),
                    self.graph == g,
                    keep == filter.keeps(g),
                    j <= found@.len(),
                    walkers(next@) == before + arrive(
                        g,
                        row@,
                        node@,
                        keep,
                        found@.take(j as int),
                    ),
                decreases found@.len() - j,
            {
                let target = found[j];
                let ghost after = found@.take(j as int + 1);
                assert(after.drop_last() =~= found@.take(j as int));
                if self.accept(row, node, filter, target) {
                    let new_row = bind_node(row.copy(), &node.var, target);
                    proof {
                        lemma_walkers_push(next@, (new_row, target));
                    }
                    next.push((new_row, target));
                    assert(walkers(next@) =~= before + arrive(g, row@, node@, keep, after));
                }
                j += 1;
            }
            assert(found@.take(j as int) =~= found@);
            let ghost all = walkers(working@).take(i as int + 1);
            assert(all.drop_last() =~= walkers(working@).take(i as int));
            assert(all.last() == (row@, working@[i as int].1));
            i += 1;
        }
        assert(walkers(working@).take(i as int) =~= walkers(working@));
        Ok(next)
    }

    /// Whether a hop may arrive at a node.
    fn accept<F: NodeFilter<G>>(
        &mut self,
        row: &Row<G::NodeId>,
        pattern: &NodePattern,
        filter: &F,
        node: G::NodeId,
    ) -> (r: bool)
        requires
            old(self).ok(),
        ensures
            r == accepts(
                old(self).source(),
                row@,
                pattern@,
                filter.keeps(old(self).source()),
                node,
            ),
            final(self).ok(),
            final(self).source() == old(self).source(),
    {
        if !self.node_matches(node, pattern) {
            return false;
        }
        if !self.keeps(filter, &pattern.var, node) {
            return false;
        }
        // If the target variable is already bound, it must be the same node.
        if let Some(var) = &pattern.var {
            if let Some(existing) = row.get(var) {
                return match existing {
                    Binding::Node(n) => {
                        proof {
                            reveal(vstd::laws_eq::obeys_concrete_eq);
                        }
                        *n == node
                    },
                    Binding::Value(_) => false,
                };
            }
        }
        true
    }

    /// Matches one path pattern against each of the rows. The traversal starts from an
    /// already-bound endpoint when possible: a forward-written `(x)-[:R]->(d)` with `d` bound is
    /// executed as `(d)<-[:R]-(x)`.
    pub fn eval_pattern<F: NodeFilter<G>>(
        &mut self,
        base: &Vec<Row<G::NodeId>>,
        pattern: &PathPattern,
        filter: &F,
    ) -> (r: Result<Vec<Row<G::NodeId>>, CypherError>)
        requires
            old(self).ok(),
        ensures
            final(self).ok(),
            final(self).source() == old(self).source(),
            rows_result(
                r,
                match_path(
                    old(self).source(),
                    row_models(base@),
                    pattern@,
                    filter.keeps(old(self).source()),
                ),
            ),
    {
        let plan = plan_pattern(pattern, base);
        let ghost g = self.graph;
        let ghost keep = filter.keeps(g);
        let mut working: Working<G::NodeId> = Vec::new();
        let mut i: usize = 0;
        assert(walkers(working@) =~= Seq::empty());
        while i < base.len()
            invariant
                self.ok(),
                self.graph == g,
                keep == filter.keeps(g),
                i <= base@.len(),
                walkers(working@) == begin_all(
                    g,
                    row_models(base@).take(i as int),
                    plan@.start,
                    keep,
                ),
            decreases base@.len() - i,
        {
            let row = &base[i];
            let nodes = self.candidates_for_node(row, &plan.start, filter);
            let ghost before = walkers(working@);
            let ghost var = plan@.start.var;
            let mut j: usize = 0;
            assert(before + begin(row@, var, nodes@.take(0)) =~= before);
            while j < nodes.len()
                invariant
                    j <= nodes@.len(),
                    var == opt_text(plan.start.var),
                    walkers(working@) == before + begin(row@, var, nodes@.take(j as int)),
                decreases nodes@.len() - j,
            {
                let ghost after = nodes@.take(j as int + 1);
                assert(after.drop_last() =~= nodes@.take(j as int));
                let new_row = bind_node(row.copy(), &plan.start.var, nodes[j]);
                proof {
                    lemma_walkers_push(working@, (new_row, nodes@[j as int]));
                }
                working.push((new_row, nodes[j]));
                j += 1;
                assert(walkers(working@) =~= before + begin(row@, var, after));
            }
            assert(nodes@.take(j as int) =~= nodes@);
            let ghost all = row_models(base@).take(i as int + 1);
            assert(all.drop_last() =~= row_models(base@).take(i as int));
            assert(all.last() == row@);
            i += 1;
        }
        assert(row_models(base@).take(i as int) =~= row_models(base@));
        let ghost first = walkers(working@);
        let ghost hops = plan@.rest;
        let mut h: usize = 0;
        while h < plan.rest.len()
            invariant
                self.ok(),
                self.graph == g,
                keep == filter.keeps(g),
                h <= plan.rest@.len(),
                hops == plan@.rest,
                walk(g, first, hops, 0, keep) == walk(
                    g,
                    walkers(working@),
                    hops,
                    h as int,
                    keep,
                ),
                first == begin_all(g, row_models(base@), plan@.start, keep),
                plan@ == planned(pattern@, row_models(base@)),
                old(self).source() == g,
            decreases plan.rest@.len() - h,
        {
            let next = self.expand_step(&working, &plan.rest[h].0, &plan.rest[h].1, filter);
            assert(hops[h as int] == (plan.rest@[h as int].0@, plan.rest@[h as int].1@));
            match next {
                Ok(next) => {
                    working = next;
                },
                Err(e) => {
                    return Err(e);
                },
            }
            h += 1;
        }
        Ok(rows_of(working))
    }

    /// Matches the path patterns, one after another, against each of the rows.
    pub fn eval_patterns<F: NodeFilter<G>>(
        &mut self,
        base: Vec<Row<G::NodeId>>,
        patterns: &Vec<PathPattern>,
        filter: &F,
    ) -> (r: Result<Vec<Row<G::NodeId>>, CypherError>)
        requires
            old(self).ok(),
        ensures
            final(self).ok(),
            final(self).source() == old(self).source(),
            rows_result(
                r,
                match_paths(
                    old(self).source(),
                    row_models(base@),
                    path_models(patterns@),
                    0,
                    filter.keeps(old(self).source()),
                ),
            ),
    {
        let ghost g = self.graph;
        let ghost keep = filter.keeps(g);
        let ghost paths = path_models(patterns@);
        let ghost first = row_models(base@);
        let mut rows = base;
        let mut i: usize = 0;
        while i < patterns.len()
            invariant
                self.ok(),
                self.graph == g,
                keep == filter.keeps(g),
                i <= patterns@.len(),
                paths == path_models(patterns@),
                old(self).source() == g,
                first == row_models(base@),
                match_paths(g, first, paths, 0, keep) == match_paths(
                    g,
                    row_models(rows@),
                    paths,
                    i as int,
                    keep,
                ),
            decreases patterns@.len() - i,
        {
            match self.eval_pattern(&rows, &patterns[i], filter) {
                Ok(next) => {
                    rows = next;
                },
                Err(e) => {
                    return Err(e);
                },
            }
            i += 1;
        }
        Ok(rows)
    }
}

/// Whether a result is the one that its model says.
pub open spec fn rows_result<N>(
    r: Result<Vec<Row<N>>, CypherError>,
    expected: Result<Seq<RowModel<N>>, ErrorModel>,
) -> bool {
    match expected {
        Ok(rows) => r is Ok && row_models(r->Ok_0@) == rows,
        Err(e) => r is Err && r->Err_0@ == e,
    }
}

/// The row with the variable, if there is one, bound to the node.
fn bind_node<N>(row: Row<N>, var: &Option<String>, node: N) -> (r: Row<N>)
    ensures
        r@ == bind(row@, opt_text(*var), node),
{
    match var {
        Some(name) => row.with(name, Binding::Node(node)),
        None => row,
    }
}

/// The rows of the working rows.
fn rows_of<N>(working: Working<N>) -> (r: Vec<Row<N>>)
    ensures
        row_models(r@) == walker_rows(walkers(working@)),
{
    let ghost all = working@;
    let mut out: Vec<Row<N>> = Vec::new();
    for w in it: working
        invariant
            it.seq() == all,
            out@.len() == it.index(),
            forall|k: int| 0 <= k < out@.len() ==> (#[trigger] out@[k])@ == all[k].0@,
    {
        out.push(w.0);
    }
    assert(row_models(out@) =~= walker_rows(walkers(all)));
    out
}

} // verus!
