//! Laws of what a pattern matches, stated over the labels, properties and relationships that the
//! graph reports.

use vstd::prelude::*;

use crate::ast::{LiteralModel, NodePatternModel, PathModel, RelPatternModel};
use crate::error::ErrorModel;
use crate::paths::{
    all_kept, along, binds_exactly, bound_row, chain, comes_from, lemma_plan_same_rows,
    lemma_reversed_node, lemma_rows_of_walks, lemma_suitable, linked, row_in_graph, types_known,
};
use crate::pattern::{
    candidates, check_types, keep_all, literal_value, match_path, match_paths, node_ok, path_node,
    planned, props_ok, resolve_types, walks_back, Keep,
};
use crate::provider::GraphProvider;
use crate::row::{BindingModel, RowModel};
use crate::text::Text;
use crate::value::ValueModel;
use crate::walks::{
    coherent, connected, distance, in_graph, lemma_single_hop, lemma_variable_length,
};

verus! {

// ---- Nodes -------------------------------------------------------------------

/// Whether a property of a node has the value that a literal stands for.
pub open spec fn has_property<G: GraphProvider>(
    g: &G,
    node: G::NodeId,
    key: Text,
    l: LiteralModel,
) -> bool {
    match l {
        LiteralModel::Str(s) => g.prop_value(node, key) == ValueModel::Str(s),
        LiteralModel::Int(i) => g.prop_value(node, key) == ValueModel::Int(i),
        LiteralModel::Bool(b) => g.prop_value(node, key) == ValueModel::Bool(b),
        LiteralModel::Null => g.prop_value(node, key) == ValueModel::Null,
    }
}

/// Whether a node has every property that a pattern lists.
pub open spec fn has_properties<G: GraphProvider>(
    g: &G,
    node: G::NodeId,
    p: NodePatternModel,
) -> bool {
    forall|i: int|
        0 <= i < p.props.len() ==> has_property(g, node, (#[trigger] p.props[i]).0, p.props[i].1)
}

/// Whether a node has one of the labels that a pattern lists, if it lists any.
pub open spec fn has_labels<G: GraphProvider>(g: &G, node: G::NodeId, p: NodePatternModel) -> bool {
    p.labels.len() > 0 ==> exists|i: int|
        0 <= i < p.labels.len() && g.has_label(node, #[trigger] p.labels[i])
}

proof fn lemma_properties<G: GraphProvider>(g: &G, node: G::NodeId, p: NodePatternModel)
    ensures
        props_ok(g, node, p.props) <==> has_properties(g, node, p),
{
    if has_properties(g, node, p) {
        assert forall|i: int| 0 <= i < p.props.len() implies g.prop_value(
            node,
            (#[trigger] p.props[i]).0,
        ) == literal_value(p.props[i].1) by {
            assert(has_property(g, node, p.props[i].0, p.props[i].1));
        }
    }
}

// ---- Hops --------------------------------------------------------------------

/// The relationship types that a pattern allows: those that it lists or, if it lists none, all of
/// the graph's.
pub open spec fn allowed_types<G: GraphProvider>(g: &G, rel: RelPatternModel) -> Seq<Text> {
    if rel.types.len() > 0 {
        rel.types
    } else {
        g.rel_names()
    }
}

/// Whether a relationship pattern leads from a node to another: by one relationship or, if it has a
/// length, by a shortest walk of a length within its bounds.
pub open spec fn leads<G: GraphProvider>(
    g: &G,
    a: G::NodeId,
    rel: RelPatternModel,
    b: G::NodeId,
) -> bool {
    match rel.length {
        None => connected(g, a, b, allowed_types(g, rel), rel.direction),
        Some(l) => exists|k: nat|
            l.min <= k && (match l.max {
                Some(m) => k <= m,
                None => k <= u32::MAX,
            }) && #[trigger] distance(g, a, b, allowed_types(g, rel), rel.direction, k),
    }
}

/// Whether every relationship type that a path lists is one of the graph's.
pub open spec fn types_exist<G: GraphProvider>(g: &G, path: PathModel) -> bool {
    forall|i: int, t: int|
        0 <= i < path.rest.len() && 0 <= t < path.rest[i].0.types.len() ==> g.rel_names().contains(
            #[trigger] path.rest[i].0.types[t],
        )
}

proof fn lemma_check_types(known: Seq<Text>, types: Seq<Text>, i: int)
    requires
        0 <= i <= types.len(),
    ensures
        check_types(known, types, i) is None <==> forall|t: int|
            i <= t < types.len() ==> known.contains(#[trigger] types[t]),
    decreases types.len() - i,
{
    if i < types.len() {
        lemma_check_types(known, types, i + 1);
    }
}

proof fn lemma_types_exist<G: GraphProvider>(g: &G, path: PathModel)
    ensures
        types_known(g, path) <==> types_exist(g, path),
        forall|i: int|
            0 <= i < path.rest.len() && types_known(g, path) ==> resolve_types(
                g,
                (#[trigger] path.rest[i]).0.types,
            ) == Ok::<Seq<Text>, ErrorModel>(allowed_types(g, path.rest[i].0)),
{
    let known = g.rel_names();
    assert forall|i: int| 0 <= i < path.rest.len() implies (resolve_types(
        g,
        (#[trigger] path.rest[i]).0.types,
    ) is Ok <==> forall|t: int|
        0 <= t < path.rest[i].0.types.len() ==> known.contains(
            #[trigger] path.rest[i].0.types[t],
        )) by {
        lemma_check_types(known, path.rest[i].0.types, 0);
    }
    if types_known(g, path) {
        assert forall|i: int, t: int|
            0 <= i < path.rest.len() && 0 <= t < path.rest[i].0.types.len() implies known.contains(
            #[trigger] path.rest[i].0.types[t],
        ) by {
            assert(resolve_types(g, path.rest[i].0.types) is Ok);
        }
    }
    if types_exist(g, path) {
        assert forall|i: int| 0 <= i < path.rest.len() implies resolve_types(
            g,
            (#[trigger] path.rest[i]).0.types,
        ) is Ok by {}
    }
}

proof fn lemma_leads<G: GraphProvider>(g: &G, a: G::NodeId, rel: RelPatternModel, b: G::NodeId)
    requires
        coherent(g),
        resolve_types(g, rel.types) == Ok::<Seq<Text>, ErrorModel>(allowed_types(g, rel)),
    ensures
        linked(g, a, rel, b) <==> leads(g, a, rel, b),
{
    let types = allowed_types(g, rel);
    match rel.length {
        None => {
            lemma_single_hop(g, a, b, types, rel.direction);
        },
        Some(l) => {
            lemma_variable_length(g, a, b, types, rel.direction, l);
        },
    }
}

// ---- Paths -------------------------------------------------------------------

/// Whether nodes of the graph lie along a path: each has the labels and the properties that its
/// pattern lists, and each relationship leads from one to the next.
pub open spec fn route<G: GraphProvider>(g: &G, path: PathModel, xs: Seq<G::NodeId>) -> bool {
    &&& xs.len() == path.rest.len() + 1
    &&& forall|i: int|
        #![trigger xs[i]]
        0 <= i < xs.len() ==> in_graph(g, xs[i]) && has_labels(g, xs[i], path_node(path, i))
            && has_properties(g, xs[i], path_node(path, i))
    &&& forall|i: int|
        #![trigger path.rest[i]]
        0 <= i < path.rest.len() ==> leads(g, xs[i], path.rest[i].0, xs[i + 1])
}

proof fn lemma_route<G: GraphProvider>(g: &G, path: PathModel, xs: Seq<G::NodeId>)
    requires
        coherent(g),
        types_known(g, path),
        xs.len() == path.rest.len() + 1,
    ensures
        along(g, path, xs) <==> route(g, path, xs),
{
    lemma_types_exist(g, path);
    assert forall|i: int| 0 <= i < xs.len() implies (node_ok(g, #[trigger] xs[i], path_node(path, i))
        <==> has_labels(g, xs[i], path_node(path, i)) && has_properties(
        g,
        xs[i],
        path_node(path, i),
    )) by {
        lemma_properties(g, xs[i], path_node(path, i));
    }
    assert forall|i: int| 0 <= i < path.rest.len() implies (linked(
        g,
        xs[i],
        (#[trigger] path.rest[i]).0,
        xs[i + 1],
    ) <==> leads(g, xs[i], path.rest[i].0, xs[i + 1])) by {
        lemma_leads(g, xs[i], path.rest[i].0, xs[i + 1]);
    }
}

/// Whether a row binds the variables of a path to nodes along it, beside the bindings of one of the
/// rows of the input.
pub open spec fn matched<G: GraphProvider>(
    g: &G,
    base: Seq<RowModel<G::NodeId>>,
    path: PathModel,
    r: RowModel<G::NodeId>,
) -> bool {
    exists|j: int, xs: Seq<G::NodeId>|
        0 <= j < base.len() && route(g, path, xs) && #[trigger] binds_exactly(base[j], path, xs, r)
}

/// A path can be matched if the graph has its relationship types, and then makes exactly the rows
/// that bind its variables to nodes along it: nodes with one of the labels and all of the
/// properties that their patterns list, connected as the relationship patterns say.
pub proof fn lemma_match_means<G: GraphProvider>(
    g: &G,
    base: Seq<RowModel<G::NodeId>>,
    path: PathModel,
    r: RowModel<G::NodeId>,
)
    requires
        coherent(g),
        forall|j: int| 0 <= j < base.len() ==> row_in_graph(g, #[trigger] base[j]),
    ensures
        match_path(g, base, path, keep_all()) is Ok <==> types_exist(g, path),
        match_path(g, base, path, keep_all()) matches Ok(out) ==> (out.contains(r) <==> matched(
            g,
            base,
            path,
            r,
        )),
{
    let keep = keep_all::<G::NodeId>();
    assert(all_kept(r, keep));
    lemma_plan_same_rows(g, base, path, keep, r);
    lemma_types_exist(g, path);
    if types_known(g, path) {
        if comes_from(g, base, path, r) {
            let (j, xs) = choose|j: int, xs: Seq<G::NodeId>|
                0 <= j < base.len() && xs.len() == path.rest.len() + 1 && along(g, path, xs)
                    && #[trigger] binds_exactly(base[j], path, xs, r);
            lemma_route(g, path, xs);
            assert(matched(g, base, path, r));
        }
        if matched(g, base, path, r) {
            let (j, xs) = choose|j: int, xs: Seq<G::NodeId>|
                0 <= j < base.len() && route(g, path, xs) && #[trigger] binds_exactly(
                    base[j],
                    path,
                    xs,
                    r,
                );
            lemma_route(g, path, xs);
            assert(comes_from(g, base, path, r));
        }
    }
}

// ---- On any graph ------------------------------------------------------------

proof fn lemma_chain_properties<G: GraphProvider>(
    g: &G,
    row: RowModel<G::NodeId>,
    path: PathModel,
    xs: Seq<G::NodeId>,
    keep: Keep<G::NodeId>,
)
    requires
        chain(g, row, path, xs, keep),
    ensures
        forall|i: int|
            #![trigger xs[i]]
            0 <= i < xs.len() ==> has_properties(g, xs[i], path_node(path, i)) && (has_labels(
                g,
                xs[i],
                path_node(path, i),
            ) || g.nodes_with(path_node(path, i).labels).contains(xs[i])),
    decreases xs.len(),
{
    if xs.len() == 1 {
        let p = path.start;
        lemma_properties(g, xs[0], p);
        if !(p.var is Some && row.contains_key(p.var->0)) {
            lemma_suitable(g, p, keep, g.nodes_with(p.labels), xs[0]);
        } else {
            let k = choose|k: int|
                0 <= k < candidates(g, row, p, keep).len() && candidates(g, row, p, keep)[k]
                    == xs[0];
            assert(node_ok(g, xs[0], p));
        }
    } else {
        let init = xs.drop_last();
        lemma_chain_properties(g, row, path, init, keep);
        lemma_properties(g, xs.last(), path_node(path, xs.len() - 1));
        assert forall|i: int|
            #![trigger xs[i]]
            0 <= i < xs.len() implies has_properties(g, xs[i], path_node(path, i)) && (has_labels(
            g,
            xs[i],
            path_node(path, i),
        ) || g.nodes_with(path_node(path, i).labels).contains(xs[i])) by {
            if i < init.len() {
                assert(init[i] == xs[i]);
            }
        }
    }
}

proof fn lemma_bound_row<N>(row: RowModel<N>, path: PathModel, xs: Seq<N>, i: int)
    requires
        0 <= i < xs.len(),
        path_node(path, i).var is Some,
        forall|j: int|
            i < j < xs.len() ==> (#[trigger] path_node(path, j)).var != path_node(path, i).var,
    ensures
        bound_row(row, path, xs).contains_key(path_node(path, i).var->0),
        bound_row(row, path, xs)[path_node(path, i).var->0] == BindingModel::Node(xs[i]),
    decreases xs.len(),
{
    if i < xs.len() - 1 {
        let init = xs.drop_last();
        lemma_bound_row(row, path, init, i);
        assert(init[i] == xs[i]);
        assert(path_node(path, xs.len() - 1).var != path_node(path, i).var);
    }
}

/// Whether a row of the matches of a path has, for each node pattern with a variable of its own, a
/// node with all properties that the pattern lists.
pub open spec fn shows_properties<G: GraphProvider>(
    g: &G,
    path: PathModel,
    r: RowModel<G::NodeId>,
) -> bool {
    forall|i: int|
        #![trigger path_node(path, i)]
        0 <= i <= path.rest.len() && path_node(path, i).var is Some && (forall|j: int|
            0 <= j <= path.rest.len() && j != i ==> (#[trigger] path_node(path, j)).var != path_node(
                path,
                i,
            ).var) ==> (r.contains_key(path_node(path, i).var->0) && (
        r[path_node(path, i).var->0] matches BindingModel::Node(n) && has_properties(
            g,
            n,
            path_node(path, i),
        )))
}

/// Whatever the graph is like, in every row that a path gives, a variable of a node pattern stands
/// for a node that has every property which the pattern lists.
pub proof fn lemma_match_has_properties<G: GraphProvider>(
    g: &G,
    base: Seq<RowModel<G::NodeId>>,
    path: PathModel,
    keep: Keep<G::NodeId>,
    r: RowModel<G::NodeId>,
)
    requires
        match_path(g, base, path, keep) is Ok,
        match_path(g, base, path, keep)->Ok_0.contains(r),
    ensures
        shows_properties(g, path, r),
{
    let way = planned(path, base);
    lemma_rows_of_walks(g, base, way, keep, r);
    let (j, xs) = choose|j: int, xs: Seq<G::NodeId>|
        0 <= j < base.len() && xs.len() == way.rest.len() + 1 && #[trigger] chain(
            g,
            base[j],
            way,
            xs,
            keep,
        ) && r == bound_row(base[j], way, xs);
    lemma_chain_properties(g, base[j], way, xs, keep);
    assert forall|i: int|
        #![trigger path_node(path, i)]
        0 <= i <= path.rest.len() && path_node(path, i).var is Some && (forall|j: int|
            0 <= j <= path.rest.len() && j != i ==> (#[trigger] path_node(path, j)).var
                != path_node(path, i).var) implies (r.contains_key(path_node(path, i).var->0) && (
    r[path_node(path, i).var->0] matches BindingModel::Node(n) && has_properties(
        g,
        n,
        path_node(path, i),
    ))) by {
        let n = path.rest.len() as int;
        let at = if walks_back(path, base) {
            n - i
        } else {
            i
        };
        if walks_back(path, base) {
            lemma_reversed_node(path, at);
        }
        assert(path_node(way, at) == path_node(path, i));
        assert forall|k: int| at < k < xs.len() implies (#[trigger] path_node(way, k)).var
            != path_node(way, at).var by {
            if walks_back(path, base) {
                lemma_reversed_node(path, k);
                assert(path_node(path, n - k).var != path_node(path, i).var);
            } else {
                assert(path_node(path, k).var != path_node(path, i).var);
            }
        }
        lemma_bound_row(base[j], way, xs, at);
        assert(has_properties(g, xs[at], path_node(way, at)));
    }
}

// ---- More conditions, fewer rows ----------------------------------------------------

/// Whether a node pattern lists whatever another one lists: the same labels, and all of its
/// properties.
pub open spec fn lists_more(p: NodePatternModel, q: NodePatternModel) -> bool {
    &&& p.var == q.var
    &&& p.labels == q.labels
    &&& forall|i: int| 0 <= i < q.props.len() ==> p.props.contains(#[trigger] q.props[i])
}

/// Whether two paths differ only in that the node patterns of the first list more properties.
pub open spec fn tighter(p: PathModel, q: PathModel) -> bool {
    &&& p.rest.len() == q.rest.len()
    &&& lists_more(p.start, q.start)
    &&& forall|i: int|
        #![trigger p.rest[i]]
        #![trigger q.rest[i]]
        0 <= i < p.rest.len() ==> p.rest[i].0 == q.rest[i].0 && lists_more(
            p.rest[i].1,
            q.rest[i].1,
        )
}

/// Further properties in the property maps of a path never add rows.
pub proof fn lemma_more_properties_fewer_rows<G: GraphProvider>(
    g: &G,
    base: Seq<RowModel<G::NodeId>>,
    p: PathModel,
    q: PathModel,
    r: RowModel<G::NodeId>,
)
    requires
        coherent(g),
        forall|j: int| 0 <= j < base.len() ==> row_in_graph(g, #[trigger] base[j]),
        tighter(p, q),
    ensures
        match_path(g, base, p, keep_all()) is Ok <==> match_path(g, base, q, keep_all()) is Ok,
        match_path(g, base, p, keep_all()) matches Ok(out) ==> out.contains(r) ==> match_path(
            g,
            base,
            q,
            keep_all(),
        )->Ok_0.contains(r),
{
    lemma_match_means(g, base, p, r);
    lemma_match_means(g, base, q, r);
    assert(types_exist(g, p) <==> types_exist(g, q)) by {
        assert forall|i: int| 0 <= i < p.rest.len() implies (#[trigger] p.rest[i]).0
            == q.rest[i].0 by {}
        if types_exist(g, p) {
            assert forall|i: int, t: int|
                0 <= i < q.rest.len() && 0 <= t < q.rest[i].0.types.len() implies g.rel_names().contains(
            #[trigger] q.rest[i].0.types[t]) by {
                assert(p.rest[i].0.types[t] == q.rest[i].0.types[t]);
            }
        }
        if types_exist(g, q) {
            assert forall|i: int, t: int|
                0 <= i < p.rest.len() && 0 <= t < p.rest[i].0.types.len() implies g.rel_names().contains(
            #[trigger] p.rest[i].0.types[t]) by {
                assert(p.rest[i].0.types[t] == q.rest[i].0.types[t]);
            }
        }
    }
    if matched(g, base, p, r) {
        let (j, xs) = choose|j: int, xs: Seq<G::NodeId>|
            0 <= j < base.len() && route(g, p, xs) && #[trigger] binds_exactly(base[j], p, xs, r);
        assert forall|i: int| 0 <= i < xs.len() implies lists_more(
            #[trigger] path_node(p, i),
            path_node(q, i),
        ) by {
            if i > 0 {
                assert(p.rest[i - 1].0 == q.rest[i - 1].0);
            }
        }
        assert forall|i: int|
            #![trigger xs[i]]
            0 <= i < xs.len() implies in_graph(g, xs[i]) && has_labels(g, xs[i], path_node(q, i))
            && has_properties(g, xs[i], path_node(q, i)) by {
            let a = path_node(p, i);
            let b = path_node(q, i);
            assert(lists_more(a, b));
            assert forall|k: int| 0 <= k < b.props.len() implies has_property(
                g,
                xs[i],
                (#[trigger] b.props[k]).0,
                b.props[k].1,
            ) by {
                assert(a.props.contains(b.props[k]));
                let m = choose|m: int| 0 <= m < a.props.len() && a.props[m] == b.props[k];
                assert(has_property(g, xs[i], a.props[m].0, a.props[m].1));
            }
        }
        assert forall|i: int|
            #![trigger q.rest[i]]
            0 <= i < q.rest.len() implies leads(g, xs[i], q.rest[i].0, xs[i + 1]) by {
            assert(leads(g, xs[i], p.rest[i].0, xs[i + 1]));
        }
        assert(route(g, q, xs));
        assert(binds_exactly(base[j], q, xs, r)) by {
            assert forall|i: int|
                #![trigger path_node(q, i)]
                0 <= i < xs.len() && path_node(q, i).var is Some implies r.contains_key(
                path_node(q, i).var->0,
            ) && r[path_node(q, i).var->0] == BindingModel::Node(xs[i]) by {
                assert(path_node(p, i).var == path_node(q, i).var);
            }
            assert forall|name: Text| #[trigger] r.contains_key(name) implies base[j].contains_key(
                name,
            ) || exists|i: int|
                #![trigger path_node(q, i)]
                0 <= i < xs.len() && path_node(q, i).var == Some(name) by {
                if !base[j].contains_key(name) {
                    let i = choose|i: int|
                        #![trigger path_node(p, i)]
                        0 <= i < xs.len() && path_node(p, i).var == Some(name);
                    assert(path_node(q, i).var == Some(name));
                }
            }
        }
        assert(matched(g, base, q, r));
    }
}

// ---- Several paths -------------------------------------------------------------------

/// Several paths are matched one after the other, each on the rows of those before it.
pub proof fn lemma_paths_in_turn<G: GraphProvider>(
    g: &G,
    base: Seq<RowModel<G::NodeId>>,
    paths: Seq<PathModel>,
    path: PathModel,
    keep: Keep<G::NodeId>,
)
    ensures
        match_paths(g, base, Seq::empty(), 0, keep) == Ok::<
            Seq<RowModel<G::NodeId>>,
            ErrorModel,
        >(base),
        match_paths(g, base, paths.push(path), 0, keep) == match match_paths(
            g,
            base,
            paths,
            0,
            keep,
        ) {
            Ok(rows) => match_path(g, rows, path, keep),
            Err(e) => Err(e),
        },
{
    lemma_paths_from(g, base, paths, path, keep, 0);
}

proof fn lemma_paths_from<G: GraphProvider>(
    g: &G,
    base: Seq<RowModel<G::NodeId>>,
    paths: Seq<PathModel>,
    path: PathModel,
    keep: Keep<G::NodeId>,
    i: int,
)
    requires
        0 <= i <= paths.len(),
    ensures
        match_paths(g, base, paths.push(path), i, keep) == match match_paths(
            g,
            base,
            paths,
            i,
            keep,
        ) {
            Ok(rows) => match_path(g, rows, path, keep),
            Err(e) => Err(e),
        },
    decreases paths.len() - i,
{
    let all = paths.push(path);
    if i < paths.len() {
        assert(all[i] == paths[i]);
        if let Ok(rows) = match_path(g, base, paths[i], keep) {
            lemma_paths_from(g, rows, paths, path, keep, i + 1);
        }
    } else {
        assert(all[i] == path);
        if let Ok(rows) = match_path(g, base, path, keep) {
            assert(match_paths(g, rows, all, i + 1, keep) == Ok::<
                Seq<RowModel<G::NodeId>>,
                ErrorModel,
            >(rows));
        }
    }
}

} // verus!
