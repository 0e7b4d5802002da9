//! The law of existential subqueries: to ask in each row whether a path can be matched is to ask
//! whether its node is among those collected from all matches of the path.

use vstd::prelude::*;

use crate::aggregate::{aggregate, known_values};
use crate::ast::{AggFn, CmpOp, ExprModel, PathModel};
use crate::compare::{among, equals};
use crate::error::ErrorModel;
use crate::eval::{binding_model, binding_of, eval, node_model};
use crate::paths::{
    all_kept, along, binds_exactly, comes_from, lemma_plan_same_rows, row_in_graph, types_known,
};
use crate::pattern::{keep_all, match_path, match_paths, path_node};
use crate::provider::GraphProvider;
use crate::row::{BindingModel, RowModel};
use crate::seqs::{distinct, lemma_concat_contains, lemma_distinct_set};
use crate::text::Text;
use crate::value::ValueModel;
use crate::walks::{coherent, in_graph};

verus! {

/// Whether nodes of the graph with the same identity are the same node.
pub open spec fn ids_tell_nodes<G: GraphProvider>(g: &G) -> bool {
    forall|a: G::NodeId, b: G::NodeId|
        in_graph(g, a) && in_graph(g, b) && #[trigger] g.id_text(a) == #[trigger] g.id_text(b) ==> a
            == b
}

/// Whether a path has a node pattern with the variable.
pub open spec fn names_node(path: PathModel, name: Text) -> bool {
    exists|i: int|
        0 <= i <= path.rest.len() && (#[trigger] path_node(path, i)).var == Some(name)
}

/// All matches of a path.
pub open spec fn matches_of<G: GraphProvider>(g: &G, path: PathModel) -> Result<
    Seq<RowModel<G::NodeId>>,
    ErrorModel,
> {
    match_path(g, seq![Map::empty()], path, keep_all())
}

/// Whether the variable stands for the node in one of the matches of a path.
pub open spec fn matched_as<G: GraphProvider>(
    g: &G,
    path: PathModel,
    name: Text,
    x: G::NodeId,
) -> bool {
    exists|r: RowModel<G::NodeId>| #[trigger]
        matches_of(g, path)->Ok_0.contains(r) && r[name] == BindingModel::<G::NodeId>::Node(x)
}

/// The expression `EXISTS { path }`.
pub open spec fn exists_path(path: PathModel) -> ExprModel {
    ExprModel::Exists { patterns: seq![path], where_clause: None }
}

/// The expression `collect(name)`, or `collect(DISTINCT name)` if each value is wanted `once`.
pub open spec fn collect_var(name: Text, once: bool) -> ExprModel {
    ExprModel::Aggregate {
        func: AggFn::Collect,
        arg: Some(Box::new(ExprModel::Var(name))),
        distinct: once,
    }
}

/// The expression `name IN list`.
pub open spec fn var_in(name: Text, list: Text) -> ExprModel {
    ExprModel::Compare(
        Box::new(ExprModel::Var(name)),
        CmpOp::In,
        Box::new(ExprModel::Var(list)),
    )
}

/// Whether the variable has the value in one of the rows from position `i` on.
spec fn has_value<G: GraphProvider>(
    g: &G,
    rows: Seq<RowModel<G::NodeId>>,
    name: Text,
    i: int,
    v: ValueModel,
) -> bool {
    exists|k: int|
        i <= k < rows.len() && binding_model(g, binding_of(#[trigger] rows[k], name)) == v
}

/// The values of a variable that are not null are those that it has in the rows.
proof fn lemma_known_values<G: GraphProvider>(
    g: &G,
    rows: Seq<RowModel<G::NodeId>>,
    name: Text,
    i: int,
    v: ValueModel,
)
    requires
        0 <= i <= rows.len(),
        !(v is Null),
    ensures
        known_values(g, rows, ExprModel::Var(name), i) is Ok,
        known_values(g, rows, ExprModel::Var(name), i)->Ok_0.contains(v) <==> has_value(
            g,
            rows,
            name,
            i,
            v,
        ),
    decreases rows.len() - i,
{
    let e = ExprModel::Var(name);
    if i < rows.len() {
        lemma_known_values(g, rows, name, i + 1, v);
        let rest = known_values(g, rows, e, i + 1)->Ok_0;
        let w = eval(g, rows[i], e)->Ok_0;
        let all = known_values(g, rows, e, i)->Ok_0;
        if !(w is Null) {
            assert(all == seq![w] + rest);
            lemma_concat_contains(seq![w], rest, v);
            assert(seq![w].contains(v) <==> v == w) by {
                assert(seq![w][0] == w);
            }
        }
        if has_value(g, rows, name, i, v) {
            let k = choose|k: int|
                i <= k < rows.len() && binding_model(g, binding_of(#[trigger] rows[k], name)) == v;
            if k == i {
                assert(v == w);
            }
        }
    }
}

/// A match of the path from the row has a counterpart among the matches from nothing.
proof fn lemma_match_without_row<G: GraphProvider>(
    g: &G,
    row: RowModel<G::NodeId>,
    path: PathModel,
    r: RowModel<G::NodeId>,
) -> (out: RowModel<G::NodeId>)
    requires
        comes_from(g, seq![row], path, r),
    ensures
        comes_from(g, seq![Map::empty()], path, out),
        forall|name: Text| names_node(path, name) ==> #[trigger] out.contains_key(name) && out[name]
            == r[name] && r.contains_key(name),
{
    let xs = choose|xs: Seq<G::NodeId>|
        xs.len() == path.rest.len() + 1 && along(g, path, xs) && #[trigger] binds_exactly(
            row,
            path,
            xs,
            r,
        );
    let out = r.restrict(Set::new(|name: Text| names_node(path, name)));
    let nothing = Map::<Text, BindingModel<G::NodeId>>::empty();
    assert forall|i: int|
        #![trigger path_node(path, i)]
        0 <= i < xs.len() && path_node(path, i).var is Some implies out.contains_key(
        path_node(path, i).var->0,
    ) && out[path_node(path, i).var->0] == BindingModel::Node(xs[i]) by {
        assert(names_node(path, path_node(path, i).var->0));
    }
    assert forall|name: Text| #[trigger] out.contains_key(name) implies exists|i: int|
        #![trigger path_node(path, i)]
        0 <= i < xs.len() && path_node(path, i).var == Some(name) by {
        assert(names_node(path, name));
    }
    assert(binds_exactly(nothing, path, xs, out));
    assert(seq![nothing][0] == nothing);
    assert forall|name: Text| names_node(path, name) implies #[trigger] out.contains_key(name)
        && out[name] == r[name] && r.contains_key(name) by {
        let i = choose|i: int|
            0 <= i <= path.rest.len() && (#[trigger] path_node(path, i)).var == Some(name);
        assert(path_node(path, i).var->0 == name);
    }
    out
}

/// A match from nothing that agrees with the row extends to a match from the row.
proof fn lemma_match_with_row<G: GraphProvider>(
    g: &G,
    row: RowModel<G::NodeId>,
    path: PathModel,
    r: RowModel<G::NodeId>,
) -> (out: RowModel<G::NodeId>)
    requires
        comes_from(g, seq![Map::empty()], path, r),
        forall|name: Text|
            names_node(path, name) && row.contains_key(name) ==> #[trigger] row[name] == r[name],
    ensures
        comes_from(g, seq![row], path, out),
{
    let nothing = Map::<Text, BindingModel<G::NodeId>>::empty();
    let xs = choose|xs: Seq<G::NodeId>|
        xs.len() == path.rest.len() + 1 && along(g, path, xs) && #[trigger] binds_exactly(
            nothing,
            path,
            xs,
            r,
        );
    let out = row.union_prefer_right(r);
    assert forall|name: Text| #[trigger] r.contains_key(name) implies names_node(path, name) by {
        let i = choose|i: int|
            #![trigger path_node(path, i)]
            0 <= i < xs.len() && path_node(path, i).var == Some(name);
        assert(path_node(path, i).var == Some(name));
    }
    assert(row.submap_of(out)) by {
        assert forall|name: Text| #[trigger] row.dom().contains(name) implies out.dom().contains(
            name,
        ) && row[name] == out[name] by {
            if r.contains_key(name) {
                assert(names_node(path, name));
            }
        }
    }
    assert(binds_exactly(row, path, xs, out));
    assert(seq![row][0] == row);
    out
}

/// In a row that shares one node with a path, `EXISTS { path }` is true just if some match of the
/// path has that node in its place. Neither fails if the graph knows the relationship types.
pub proof fn lemma_exists_is_a_match<G: GraphProvider>(
    g: &G,
    row: RowModel<G::NodeId>,
    path: PathModel,
    name: Text,
)
    requires
        coherent(g),
        types_known(g, path),
        row_in_graph(g, row),
        names_node(path, name),
        row.contains_key(name),
        row[name] is Node,
        forall|other: Text|
            names_node(path, other) && #[trigger] row.contains_key(other) ==> other == name,
    ensures
        matches_of(g, path) is Ok,
        eval(g, row, exists_path(path)) == Ok::<ValueModel, ErrorModel>(
            ValueModel::Bool(matched_as(g, path, name, row[name]->Node_0)),
        ),
{
    let keep = keep_all::<G::NodeId>();
    let nothing = Map::<Text, BindingModel<G::NodeId>>::empty();
    let start = seq![nothing];
    let base = seq![row];
    assert(all_kept(nothing, keep));
    assert(row_in_graph(g, nothing));
    lemma_plan_same_rows(g, start, path, keep, nothing);
    lemma_plan_same_rows(g, base, path, keep, nothing);
    let all = match_path(g, start, path, keep)->Ok_0;
    let here = match_path(g, base, path, keep)->Ok_0;
    reveal_with_fuel(match_paths, 2);
    assert(seq![path][0] == path);
    assert(eval(g, row, exists_path(path)) == Ok::<ValueModel, ErrorModel>(
        ValueModel::Bool(here.len() > 0),
    ));
    if here.len() > 0 {
        let r = here[0];
        assert(here.contains(r));
        assert(all_kept(r, keep));
        lemma_plan_same_rows(g, base, path, keep, r);
        let out = lemma_match_without_row(g, row, path, r);
        assert(all_kept(out, keep));
        lemma_plan_same_rows(g, start, path, keep, out);
        assert(out.contains_key(name));
        assert(row.submap_of(r));
        assert(row.dom().contains(name));
        assert(all.contains(out) && out[name] == row[name]);
    }
    if matched_as(g, path, name, row[name]->Node_0) {
        let r = choose|r: RowModel<G::NodeId>| #[trigger] all.contains(r) && r[name] == row[name];
        assert(all_kept(r, keep));
        lemma_plan_same_rows(g, start, path, keep, r);
        let out = lemma_match_with_row(g, row, path, r);
        assert(all_kept(out, keep));
        lemma_plan_same_rows(g, base, path, keep, out);
        assert(here.contains(out));
    }
}

/// The values collected of a variable of a path are the nodes that it stands for in the matches.
proof fn lemma_collected_nodes<G: GraphProvider>(
    g: &G,
    path: PathModel,
    name: Text,
    once: bool,
    x: G::NodeId,
)
    requires
        coherent(g),
        types_known(g, path),
        ids_tell_nodes(g),
        names_node(path, name),
        in_graph(g, x),
    ensures
        aggregate(g, collect_var(name, once), matches_of(g, path)->Ok_0) matches Ok(
            ValueModel::List(values),
        ) && among(node_model(g, x), values) == matched_as(g, path, name, x),
{
    let keep = keep_all::<G::NodeId>();
    let nothing = Map::<Text, BindingModel<G::NodeId>>::empty();
    let start = seq![nothing];
    let all = match_path(g, start, path, keep)->Ok_0;
    let e = ExprModel::Var(name);
    let v = node_model(g, x);
    assert(row_in_graph(g, nothing));
    assert(all_kept(nothing, keep));
    lemma_plan_same_rows(g, start, path, keep, nothing);
    lemma_known_values(g, all, name, 0, v);
    let known = known_values(g, all, e, 0)->Ok_0;
    lemma_distinct_set(known);
    assert(distinct(known).contains(v) <==> known.contains(v)) by {
        assert(distinct(known).to_set().contains(v) <==> known.to_set().contains(v));
    }
    let values = if once {
        distinct(known)
    } else {
        known
    };
    assert(aggregate(g, collect_var(name, once), all) == Ok::<ValueModel, ErrorModel>(
        ValueModel::List(values),
    ));
    assert(among(v, values) <==> values.contains(v)) by {
        if values.contains(v) {
            let k = choose|k: int| 0 <= k < values.len() && values[k] == v;
            assert(equals(v, values[k]));
        }
    }
    assert forall|k: int| 0 <= k < all.len() implies (binding_model(
        g,
        binding_of(#[trigger] all[k], name),
    ) == v <==> all[k][name] == BindingModel::<G::NodeId>::Node(x)) by {
        let r = all[k];
        assert(all.contains(r));
        assert(all_kept(r, keep));
        lemma_plan_same_rows(g, start, path, keep, r);
        let xs = choose|xs: Seq<G::NodeId>|
            xs.len() == path.rest.len() + 1 && along(g, path, xs) && #[trigger] binds_exactly(
                nothing,
                path,
                xs,
                r,
            );
        let i = choose|i: int|
            0 <= i <= path.rest.len() && (#[trigger] path_node(path, i)).var == Some(name);
        assert(path_node(path, i).var->0 == name);
        assert(r.contains_key(name) && r[name] == BindingModel::Node(xs[i]));
        assert(in_graph(g, xs[i]));
    }
    if matched_as(g, path, name, x) {
        let r = choose|r: RowModel<G::NodeId>| #[trigger]
            all.contains(r) && r[name] == BindingModel::<G::NodeId>::Node(x);
        let k = choose|k: int| 0 <= k < all.len() && all[k] == r;
        assert(binding_model(g, binding_of(all[k], name)) == v);
    }
    if known.contains(v) {
        let k = choose|k: int|
            0 <= k < all.len() && binding_model(g, binding_of(#[trigger] all[k], name)) == v;
        assert(all.contains(all[k]));
    }
}

/// The value of `name IN list`, where the one stands for a node and the other for a list.
proof fn lemma_var_in<G: GraphProvider>(
    g: &G,
    row: RowModel<G::NodeId>,
    name: Text,
    list: Text,
    x: G::NodeId,
)
    requires
        row.contains_key(name),
        row[name] == BindingModel::<G::NodeId>::Node(x),
        row.contains_key(list),
        row[list] matches BindingModel::Value(v) && v is List,
    ensures
        eval(g, row, var_in(name, list)) == Ok::<ValueModel, ErrorModel>(
            ValueModel::Bool(among(node_model(g, x), row[list]->Value_0->List_0)),
        ),
{
    assert(eval(g, row, ExprModel::Var(name)) == Ok::<ValueModel, ErrorModel>(node_model(g, x)));
    assert(eval(g, row, ExprModel::Var(list)) == Ok::<ValueModel, ErrorModel>(
        row[list]->Value_0,
    ));
}

/// `EXISTS { path }` can be answered from the outside: in a row that shares one node with the path,
/// it is what `name IN list` is, if the list is what `collect(name)` gives over all matches of the
/// path. So are `NOT EXISTS { path }` and `NOT name IN list`.
pub proof fn lemma_exists_is_membership<G: GraphProvider>(
    g: &G,
    row: RowModel<G::NodeId>,
    path: PathModel,
    name: Text,
    list: Text,
    once: bool,
)
    requires
        coherent(g),
        types_known(g, path),
        ids_tell_nodes(g),
        row_in_graph(g, row),
        names_node(path, name),
        row.contains_key(name),
        row[name] is Node,
        forall|other: Text|
            names_node(path, other) && #[trigger] row.contains_key(other) ==> other == name,
        row.contains_key(list),
        aggregate(g, collect_var(name, once), matches_of(g, path)->Ok_0) matches Ok(collected)
            && row[list] == BindingModel::<G::NodeId>::Value(collected),
    ensures
        eval(g, row, exists_path(path)) is Ok,
        eval(g, row, exists_path(path)) == eval(g, row, var_in(name, list)),
        eval(g, row, ExprModel::Not(Box::new(exists_path(path)))) == eval(
            g,
            row,
            ExprModel::Not(Box::new(var_in(name, list))),
        ),
{
    let x = row[name]->Node_0;
    assert(in_graph(g, x));
    lemma_exists_is_a_match(g, row, path, name);
    lemma_collected_nodes(g, path, name, once, x);
    lemma_var_in(g, row, name, list, x);
}

} // verus!
