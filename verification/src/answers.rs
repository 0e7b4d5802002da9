//! The law of determinism: the result of a query depends on nothing but the query and the answers
//! of the graph.

use vstd::prelude::*;

use crate::query_output;
use crate::aggregate::known_values;
use crate::ast::{
    ClauseModel, Direction, ExprModel, ItemModel, MapEntryModel, NodePatternModel, PathModel,
    ProjectionModel, QueryModel, RelPatternModel, VarLength,
};
use crate::eval::{
    binding_model, binding_of, eval, eval_all, eval_entries, filter_from, first_value, pick_branch,
};
use crate::executor::{
    clause_rows, clause_scope, match_rows, new_names, optional_rows, output_bindings,
    projection_output, query_result, run_clauses, unwind_rows,
};
use crate::format::OutputFormat;
use crate::grammar::parsed;
use crate::hoist::hoist_error;
use crate::naming::columns_of;
use crate::pattern::{
    arrive, begin_all, hop_all, keep_all, labels_ok, level, levels, match_path, match_paths,
    max_length, neighbours, neighbours_by_type, neighbours_of_all, node_ok, planned, props_ok,
    reached, resolve_types, suitable, targets, walk, Keep, Walker,
};
use crate::project::{
    group_bindings, group_key, group_keys, grouped_rows, groups_of, item_bindings, projected,
    projection_rows, simple_rows, star_bindings, star_rows,
};
use crate::provider::GraphProvider;
use crate::pushdown::{keep_passing, node_row, passes, pushed_from, rules_out, Pushable};
use crate::row::{BindingModel, RowModel};
use crate::text::Text;
use crate::value::ValueModel;

verus! {

/// Whether two graphs give the same answers, order included.
pub open spec fn same_answers<G: GraphProvider, H: GraphProvider<NodeId = G::NodeId>>(
    g: &G,
    h: &H,
) -> bool {
    &&& forall|labels: Seq<Text>| #[trigger] g.nodes_with(labels) == h.nodes_with(labels)
    &&& forall|n: G::NodeId, label: Text|
        #![trigger g.has_label(n, label)]
        #![trigger h.has_label(n, label)]
        g.has_label(n, label) == h.has_label(n, label)
    &&& g.rel_names() == h.rel_names()
    &&& forall|rel: Text, n: G::NodeId| #[trigger] g.edges(rel)(n) == h.edges(rel)(n)
    &&& forall|rel: Text| #[trigger] g.sources(rel) == h.sources(rel)
    &&& forall|n: G::NodeId, p: Text| #[trigger] g.prop_value(n, p) == h.prop_value(n, p)
    &&& forall|n: G::NodeId| #[trigger] g.id_text(n) == h.id_text(n)
    &&& forall|n: G::NodeId| #[trigger] g.label_text(n) == h.label_text(n)
    &&& forall|n: G::NodeId| #[trigger] g.name_text(n) == h.name_text(n)
}

// ---- Patterns --------------------------------------------------------------------

proof fn lemma_suitable<G: GraphProvider, H: GraphProvider<NodeId = G::NodeId>>(
    g: &G,
    h: &H,
    p: NodePatternModel,
    keep: Keep<G::NodeId>,
    nodes: Seq<G::NodeId>,
)
    requires
        same_answers(g, h),
    ensures
        suitable(g, p, keep, nodes) == suitable(h, p, keep, nodes),
    decreases nodes.len(),
{
    if nodes.len() > 0 {
        lemma_suitable(g, h, p, keep, nodes.drop_last());
    }
}

proof fn lemma_begin_all<G: GraphProvider, H: GraphProvider<NodeId = G::NodeId>>(
    g: &G,
    h: &H,
    base: Seq<RowModel<G::NodeId>>,
    p: NodePatternModel,
    keep: Keep<G::NodeId>,
)
    requires
        same_answers(g, h),
    ensures
        begin_all(g, base, p, keep) == begin_all(h, base, p, keep),
    decreases base.len(),
{
    if base.len() > 0 {
        lemma_begin_all(g, h, base.drop_last(), p, keep);
        lemma_suitable(g, h, p, keep, g.nodes_with(p.labels));
        let row = base.last();
        if p.var is Some && row.contains_key(p.var->0) {
            if let BindingModel::Node(n) = row[p.var->0] {
                lemma_node(g, h, n, p);
            }
        }
    }
}

proof fn lemma_node<G: GraphProvider, H: GraphProvider<NodeId = G::NodeId>>(
    g: &G,
    h: &H,
    node: G::NodeId,
    p: NodePatternModel,
)
    requires
        same_answers(g, h),
    ensures
        node_ok(g, node, p) == node_ok(h, node, p),
{
    let labels = p.labels;
    assert(labels_ok(g, node, labels) == labels_ok(h, node, labels)) by {
        if labels_ok(g, node, labels) && labels.len() > 0 {
            let i = choose|i: int| 0 <= i < labels.len() && g.has_label(node, #[trigger] labels[i]);
            assert(h.has_label(node, labels[i]));
        }
        if labels_ok(h, node, labels) && labels.len() > 0 {
            let i = choose|i: int| 0 <= i < labels.len() && h.has_label(node, #[trigger] labels[i]);
            assert(g.has_label(node, labels[i]));
        }
    }
    assert(props_ok(g, node, p.props) == props_ok(h, node, p.props)) by {
        assert forall|i: int| 0 <= i < p.props.len() implies g.prop_value(
            node,
            (#[trigger] p.props[i]).0,
        ) == h.prop_value(node, p.props[i].0) by {}
    }
}

proof fn lemma_neighbours<G: GraphProvider, H: GraphProvider<NodeId = G::NodeId>>(
    g: &G,
    h: &H,
    node: G::NodeId,
    rel: Text,
    direction: Direction,
)
    requires
        same_answers(g, h),
    ensures
        neighbours(g, node, rel, direction) == neighbours(h, node, rel, direction),
{
    assert(g.edges(rel) =~= h.edges(rel)) by {
        assert forall|n: G::NodeId| #[trigger] g.edges(rel)(n) == h.edges(rel)(n) by {}
    }
    assert(g.sources(rel) == h.sources(rel));
    assert(g.edges(rel)(node) == h.edges(rel)(node));
}

proof fn lemma_by_type<G: GraphProvider, H: GraphProvider<NodeId = G::NodeId>>(
    g: &G,
    h: &H,
    node: G::NodeId,
    types: Seq<Text>,
    direction: Direction,
)
    requires
        same_answers(g, h),
    ensures
        neighbours_by_type(g, node, types, direction)
            == neighbours_by_type(h, node, types, direction),
    decreases types.len(),
{
    if types.len() > 0 {
        lemma_by_type(g, h, node, types.drop_last(), direction);
        lemma_neighbours(g, h, node, types.last(), direction);
    }
}

proof fn lemma_of_all<G: GraphProvider, H: GraphProvider<NodeId = G::NodeId>>(
    g: &G,
    h: &H,
    nodes: Seq<G::NodeId>,
    types: Seq<Text>,
    direction: Direction,
)
    requires
        same_answers(g, h),
    ensures
        neighbours_of_all(g, nodes, types, direction)
            == neighbours_of_all(h, nodes, types, direction),
    decreases nodes.len(),
{
    if nodes.len() > 0 {
        lemma_of_all(g, h, nodes.drop_last(), types, direction);
        lemma_by_type(g, h, nodes.last(), types, direction);
    }
}

proof fn lemma_level<G: GraphProvider, H: GraphProvider<NodeId = G::NodeId>>(
    g: &G,
    h: &H,
    start: G::NodeId,
    types: Seq<Text>,
    direction: Direction,
    k: nat,
)
    requires
        same_answers(g, h),
    ensures
        level(g, start, types, direction, k) == level(h, start, types, direction, k),
    decreases k, 0int,
{
    if k > 0 {
        let p = (k - 1) as nat;
        lemma_level(g, h, start, types, direction, p);
        lemma_reached(g, h, start, types, direction, p);
        lemma_of_all(g, h, level(g, start, types, direction, p), types, direction);
    }
}

proof fn lemma_reached<G: GraphProvider, H: GraphProvider<NodeId = G::NodeId>>(
    g: &G,
    h: &H,
    start: G::NodeId,
    types: Seq<Text>,
    direction: Direction,
    k: nat,
)
    requires
        same_answers(g, h),
    ensures
        reached(g, start, types, direction, k) == reached(h, start, types, direction, k),
    decreases k, 1int,
{
    lemma_level(g, h, start, types, direction, k);
    if k > 0 {
        lemma_reached(g, h, start, types, direction, (k - 1) as nat);
    }
}

proof fn lemma_levels<G: GraphProvider, H: GraphProvider<NodeId = G::NodeId>>(
    g: &G,
    h: &H,
    start: G::NodeId,
    types: Seq<Text>,
    direction: Direction,
    min: nat,
    end: nat,
)
    requires
        same_answers(g, h),
    ensures
        levels(g, start, types, direction, min, end)
            == levels(h, start, types, direction, min, end),
    decreases end,
{
    if end > min {
        lemma_levels(g, h, start, types, direction, min, (end - 1) as nat);
        lemma_level(g, h, start, types, direction, (end - 1) as nat);
    }
}

proof fn lemma_targets<G: GraphProvider, H: GraphProvider<NodeId = G::NodeId>>(
    g: &G,
    h: &H,
    node: G::NodeId,
    types: Seq<Text>,
    direction: Direction,
    length: Option<VarLength>,
)
    requires
        same_answers(g, h),
    ensures
        targets(g, node, types, direction, length) == targets(h, node, types, direction, length),
{
    match length {
        Some(l) => lemma_levels(g, h, node, types, direction, l.min as nat, max_length(l) + 1),
        None => lemma_by_type(g, h, node, types, direction),
    }
}

proof fn lemma_arrive<G: GraphProvider, H: GraphProvider<NodeId = G::NodeId>>(
    g: &G,
    h: &H,
    row: RowModel<G::NodeId>,
    p: NodePatternModel,
    keep: Keep<G::NodeId>,
    nodes: Seq<G::NodeId>,
)
    requires
        same_answers(g, h),
    ensures
        arrive(g, row, p, keep, nodes) == arrive(h, row, p, keep, nodes),
    decreases nodes.len(),
{
    if nodes.len() > 0 {
        lemma_arrive(g, h, row, p, keep, nodes.drop_last());
        lemma_node(g, h, nodes.last(), p);
    }
}

proof fn lemma_hop_all<G: GraphProvider, H: GraphProvider<NodeId = G::NodeId>>(
    g: &G,
    h: &H,
    walkers: Seq<Walker<G::NodeId>>,
    types: Seq<Text>,
    rel: RelPatternModel,
    p: NodePatternModel,
    keep: Keep<G::NodeId>,
)
    requires
        same_answers(g, h),
    ensures
        hop_all(g, walkers, types, rel, p, keep) == hop_all(h, walkers, types, rel, p, keep),
    decreases walkers.len(),
{
    if walkers.len() > 0 {
        lemma_hop_all(g, h, walkers.drop_last(), types, rel, p, keep);
        let w = walkers.last();
        lemma_targets(g, h, w.1, types, rel.direction, rel.length);
        let nodes = targets(g, w.1, types, rel.direction, rel.length);
        lemma_arrive(g, h, w.0, p, keep, nodes);
    }
}

proof fn lemma_walk<G: GraphProvider, H: GraphProvider<NodeId = G::NodeId>>(
    g: &G,
    h: &H,
    walkers: Seq<Walker<G::NodeId>>,
    hops: Seq<(RelPatternModel, NodePatternModel)>,
    i: int,
    keep: Keep<G::NodeId>,
)
    requires
        same_answers(g, h),
    ensures
        walk(g, walkers, hops, i, keep) == walk(h, walkers, hops, i, keep),
    decreases hops.len() - i,
{
    if 0 <= i < hops.len() {
        if let Ok(types) = resolve_types(g, hops[i].0.types) {
            lemma_hop_all(g, h, walkers, types, hops[i].0, hops[i].1, keep);
            let next = hop_all(g, walkers, types, hops[i].0, hops[i].1, keep);
            lemma_walk(g, h, next, hops, i + 1, keep);
        }
    }
}

proof fn lemma_match_path<G: GraphProvider, H: GraphProvider<NodeId = G::NodeId>>(
    g: &G,
    h: &H,
    base: Seq<RowModel<G::NodeId>>,
    path: PathModel,
    keep: Keep<G::NodeId>,
)
    requires
        same_answers(g, h),
    ensures
        match_path(g, base, path, keep) == match_path(h, base, path, keep),
{
    let plan = planned(path, base);
    lemma_begin_all(g, h, base, plan.start, keep);
    lemma_walk(g, h, begin_all(g, base, plan.start, keep), plan.rest, 0, keep);
}

/// Patterns make the same rows, in the same order.
proof fn lemma_match_paths<G: GraphProvider, H: GraphProvider<NodeId = G::NodeId>>(
    g: &G,
    h: &H,
    base: Seq<RowModel<G::NodeId>>,
    paths: Seq<PathModel>,
    i: int,
    keep: Keep<G::NodeId>,
)
    requires
        same_answers(g, h),
    ensures
        match_paths(g, base, paths, i, keep) == match_paths(h, base, paths, i, keep),
    decreases paths.len() - i,
{
    if 0 <= i < paths.len() {
        lemma_match_path(g, h, base, paths[i], keep);
        if let Ok(rows) = match_path(g, base, paths[i], keep) {
            lemma_match_paths(g, h, rows, paths, i + 1, keep);
        }
    }
}

// ---- Expressions -----------------------------------------------------------------

/// Expressions have the same values.
proof fn lemma_eval<G: GraphProvider, H: GraphProvider<NodeId = G::NodeId>>(
    g: &G,
    h: &H,
    row: RowModel<G::NodeId>,
    e: ExprModel,
)
    requires
        same_answers(g, h),
    ensures
        eval(g, row, e) == eval(h, row, e),
    decreases e, 0int,
{
    match e {
        ExprModel::Var(name) => lemma_binding(g, h, binding_of(row, name)),
        ExprModel::Property(var, prop) => {
            if let BindingModel::Node(n) = binding_of(row, var) {
                assert(g.prop_value(n, prop) == h.prop_value(n, prop));
            }
        },
        ExprModel::Not(x) => lemma_eval(g, h, row, *x),
        ExprModel::IsNull(x, _) => lemma_eval(g, h, row, *x),
        ExprModel::And(x, y) => {
            lemma_eval(g, h, row, *x);
            lemma_eval(g, h, row, *y);
        },
        ExprModel::Or(x, y) => {
            lemma_eval(g, h, row, *x);
            lemma_eval(g, h, row, *y);
        },
        ExprModel::Compare(x, _, y) => {
            lemma_eval(g, h, row, *x);
            lemma_eval(g, h, row, *y);
        },
        ExprModel::List(items) => lemma_eval_all(g, h, row, items, 0),
        ExprModel::Exists { patterns, where_clause } => {
            lemma_match_paths(g, h, seq![row], patterns, 0, keep_all());
            if let Ok(rows) = match_paths(g, seq![row], patterns, 0, keep_all()) {
                if let Some(predicate) = where_clause {
                    lemma_filter(g, h, rows, *predicate, 0);
                }
            }
        },
        ExprModel::Case { operand, branches, default } => {
            if let Some(subject) = operand {
                lemma_eval(g, h, row, *subject);
                if let Ok(v) = eval(g, row, *subject) {
                    lemma_pick_branch(g, h, row, Some(v), branches, 0);
                }
            } else {
                lemma_pick_branch(g, h, row, None, branches, 0);
            }
            if let Some(d) = default {
                lemma_eval(g, h, row, *d);
            }
        },
        ExprModel::Function { name, args } => {
            lemma_first_value(g, h, row, args, 0);
            if args.len() == 1 {
                lemma_eval(g, h, row, args[0]);
            }
        },
        ExprModel::MapProjection { var, entries } => {
            if let BindingModel::Node(node) = binding_of(row, var) {
                lemma_eval_entries(g, h, row, node, entries, 0);
            }
        },
        _ => {},
    }
}

proof fn lemma_eval_all<G: GraphProvider, H: GraphProvider<NodeId = G::NodeId>>(
    g: &G,
    h: &H,
    row: RowModel<G::NodeId>,
    items: Seq<ExprModel>,
    i: int,
)
    requires
        same_answers(g, h),
    ensures
        eval_all(g, row, items, i) == eval_all(h, row, items, i),
    decreases items, items.len() - i,
{
    if 0 <= i < items.len() {
        lemma_eval(g, h, row, items[i]);
        lemma_eval_all(g, h, row, items, i + 1);
    }
}

proof fn lemma_first_value<G: GraphProvider, H: GraphProvider<NodeId = G::NodeId>>(
    g: &G,
    h: &H,
    row: RowModel<G::NodeId>,
    items: Seq<ExprModel>,
    i: int,
)
    requires
        same_answers(g, h),
    ensures
        first_value(g, row, items, i) == first_value(h, row, items, i),
    decreases items, items.len() - i,
{
    if 0 <= i < items.len() {
        lemma_eval(g, h, row, items[i]);
        lemma_first_value(g, h, row, items, i + 1);
    }
}

proof fn lemma_pick_branch<G: GraphProvider, H: GraphProvider<NodeId = G::NodeId>>(
    g: &G,
    h: &H,
    row: RowModel<G::NodeId>,
    subject: Option<ValueModel>,
    branches: Seq<(ExprModel, ExprModel)>,
    i: int,
)
    requires
        same_answers(g, h),
    ensures
        pick_branch(g, row, subject, branches, i) == pick_branch(h, row, subject, branches, i),
    decreases branches, branches.len() - i,
{
    if 0 <= i < branches.len() {
        assert(decreases_to!(branches => branches[i]));
        assert(decreases_to!(branches[i] => branches[i].0));
        assert(decreases_to!(branches[i] => branches[i].1));
        lemma_eval(g, h, row, branches[i].0);
        lemma_eval(g, h, row, branches[i].1);
        lemma_pick_branch(g, h, row, subject, branches, i + 1);
    }
}

proof fn lemma_eval_entries<G: GraphProvider, H: GraphProvider<NodeId = G::NodeId>>(
    g: &G,
    h: &H,
    row: RowModel<G::NodeId>,
    node: G::NodeId,
    entries: Seq<MapEntryModel>,
    i: int,
)
    requires
        same_answers(g, h),
    ensures
        eval_entries(g, row, node, entries, i) == eval_entries(h, row, node, entries, i),
    decreases entries, entries.len() - i,
{
    if 0 <= i < entries.len() {
        lemma_eval_entries(g, h, row, node, entries, i + 1);
        match entries[i] {
            MapEntryModel::Property(prop) => {
                assert(g.prop_value(node, prop) == h.prop_value(node, prop));
            },
            MapEntryModel::Literal(_, x) => {
                assert(decreases_to!(entries => entries[i]));
                lemma_eval(g, h, row, x);
            },
        }
    }
}

proof fn lemma_filter<G: GraphProvider, H: GraphProvider<NodeId = G::NodeId>>(
    g: &G,
    h: &H,
    rows: Seq<RowModel<G::NodeId>>,
    predicate: ExprModel,
    i: int,
)
    requires
        same_answers(g, h),
    ensures
        filter_from(g, rows, predicate, i) == filter_from(h, rows, predicate, i),
    decreases predicate, 1 + rows.len() - i,
{
    if 0 <= i < rows.len() {
        lemma_eval(g, h, rows[i], predicate);
        lemma_filter(g, h, rows, predicate, i + 1);
    }
}

proof fn lemma_binding<G: GraphProvider, H: GraphProvider<NodeId = G::NodeId>>(
    g: &G,
    h: &H,
    b: BindingModel<G::NodeId>,
)
    requires
        same_answers(g, h),
    ensures
        binding_model(g, b) == binding_model(h, b),
{
    if let BindingModel::Node(n) = b {
        assert(g.id_text(n) == h.id_text(n));
        assert(g.label_text(n) == h.label_text(n));
        assert(g.name_text(n) == h.name_text(n));
    }
}

// ---- Queries ---------------------------------------------------------------------

proof fn lemma_keep<G: GraphProvider, H: GraphProvider<NodeId = G::NodeId>>(
    g: &G,
    h: &H,
    pushed: Seq<Pushable>,
)
    requires
        same_answers(g, h),
    ensures
        keep_passing(g, pushed) == keep_passing(h, pushed),
{
    let a = keep_passing(g, pushed);
    let b = keep_passing(h, pushed);
    assert forall|name: Text, node: G::NodeId| #[trigger] a(name, node) == b(name, node) by {
        assert forall|i: int| 0 <= i < pushed.len() implies rules_out(
            g,
            name,
            node,
            (#[trigger] pushed[i]).1,
        ) == rules_out(h, name, node, pushed[i].1) by {
            lemma_eval(g, h, node_row(name, node), pushed[i].1);
        }
        assert(passes(g, pushed, name, node) == passes(h, pushed, name, node));
    }
    assert(a =~= b);
}

proof fn lemma_hoist_error<G: GraphProvider, H: GraphProvider<NodeId = G::NodeId>>(
    g: &G,
    h: &H,
    row: RowModel<G::NodeId>,
    e: ExprModel,
    constant: Set<Text>,
)
    requires
        same_answers(g, h),
    ensures
        hoist_error(g, row, e, constant) == hoist_error(h, row, e, constant),
    decreases e,
{
    match e {
        ExprModel::Not(x) => lemma_hoist_error(g, h, row, *x, constant),
        ExprModel::IsNull(x, _) => lemma_hoist_error(g, h, row, *x, constant),
        ExprModel::And(x, y) => {
            lemma_hoist_error(g, h, row, *x, constant);
            lemma_hoist_error(g, h, row, *y, constant);
        },
        ExprModel::Or(x, y) => {
            lemma_hoist_error(g, h, row, *x, constant);
            lemma_hoist_error(g, h, row, *y, constant);
        },
        ExprModel::Compare(x, _, y) => {
            lemma_hoist_error(g, h, row, *x, constant);
            lemma_hoist_error(g, h, row, *y, constant);
            lemma_eval(g, h, row, *y);
        },
        _ => {},
    }
}

proof fn lemma_match_rows<G: GraphProvider, H: GraphProvider<NodeId = G::NodeId>>(
    g: &G,
    h: &H,
    rows: Seq<RowModel<G::NodeId>>,
    clauses: Seq<ClauseModel>,
    i: int,
    patterns: Seq<PathModel>,
    where_clause: Option<ExprModel>,
)
    requires
        same_answers(g, h),
    ensures
        match_rows(g, rows, clauses, i, patterns, where_clause)
            == match_rows(h, rows, clauses, i, patterns, where_clause),
{
    let keep = keep_passing(g, pushed_from(clauses, i));
    lemma_keep(g, h, pushed_from(clauses, i));
    lemma_match_paths(g, h, rows, patterns, 0, keep);
    if let Ok(matched) = match_paths(g, rows, patterns, 0, keep) {
        if let Some(predicate) = where_clause {
            lemma_filter(g, h, matched, predicate, 0);
            if rows.len() == 1 && matched.len() > 0 {
                lemma_hoist_error(g, h, matched[0], predicate, rows[0].dom());
            }
        }
    }
}

proof fn lemma_optional_rows<G: GraphProvider, H: GraphProvider<NodeId = G::NodeId>>(
    g: &G,
    h: &H,
    rows: Seq<RowModel<G::NodeId>>,
    patterns: Seq<PathModel>,
    where_clause: Option<ExprModel>,
    new_vars: Seq<Text>,
    i: int,
)
    requires
        same_answers(g, h),
    ensures
        optional_rows(g, rows, patterns, where_clause, new_vars, i)
            == optional_rows(h, rows, patterns, where_clause, new_vars, i),
    decreases rows.len() - i,
{
    if 0 <= i < rows.len() {
        lemma_optional_rows(g, h, rows, patterns, where_clause, new_vars, i + 1);
        lemma_match_paths(g, h, seq![rows[i]], patterns, 0, keep_all());
        if let Ok(matched) = match_paths(g, seq![rows[i]], patterns, 0, keep_all()) {
            if let Some(predicate) = where_clause {
                lemma_filter(g, h, matched, predicate, 0);
            }
        }
    }
}

proof fn lemma_unwind_rows<G: GraphProvider, H: GraphProvider<NodeId = G::NodeId>>(
    g: &G,
    h: &H,
    rows: Seq<RowModel<G::NodeId>>,
    e: ExprModel,
    var: Text,
    i: int,
)
    requires
        same_answers(g, h),
    ensures
        unwind_rows(g, rows, e, var, i) == unwind_rows(h, rows, e, var, i),
    decreases rows.len() - i,
{
    if 0 <= i < rows.len() {
        lemma_eval(g, h, rows[i], e);
        lemma_unwind_rows(g, h, rows, e, var, i + 1);
    }
}

proof fn lemma_known_values<G: GraphProvider, H: GraphProvider<NodeId = G::NodeId>>(
    g: &G,
    h: &H,
    rows: Seq<RowModel<G::NodeId>>,
    e: ExprModel,
    i: int,
)
    requires
        same_answers(g, h),
    ensures
        known_values(g, rows, e, i) == known_values(h, rows, e, i),
    decreases rows.len() - i,
{
    if 0 <= i < rows.len() {
        lemma_eval(g, h, rows[i], e);
        lemma_known_values(g, h, rows, e, i + 1);
    }
}

proof fn lemma_projected<G: GraphProvider, H: GraphProvider<NodeId = G::NodeId>>(
    g: &G,
    h: &H,
    columns: Seq<Text>,
    bindings: Seq<BindingModel<G::NodeId>>,
)
    requires
        same_answers(g, h),
    ensures
        projected(g, columns, bindings) == projected(h, columns, bindings),
{
    let a = projected(g, columns, bindings).values;
    let b = projected(h, columns, bindings).values;
    assert forall|i: int| 0 <= i < bindings.len() implies #[trigger] a[i] == b[i] by {
        lemma_binding(g, h, bindings[i]);
    }
    assert(a =~= b);
}

proof fn lemma_star_rows<G: GraphProvider, H: GraphProvider<NodeId = G::NodeId>>(
    g: &G,
    h: &H,
    rows: Seq<RowModel<G::NodeId>>,
    scope: Seq<Text>,
)
    requires
        same_answers(g, h),
    ensures
        star_rows(g, rows, scope) == star_rows(h, rows, scope),
{
    let a = star_rows(g, rows, scope);
    let b = star_rows(h, rows, scope);
    assert forall|i: int| 0 <= i < rows.len() implies #[trigger] a[i] == b[i] by {
        lemma_projected(g, h, scope, star_bindings(rows[i], scope));
    }
    assert(a =~= b);
}

proof fn lemma_item_bindings<G: GraphProvider, H: GraphProvider<NodeId = G::NodeId>>(
    g: &G,
    h: &H,
    row: RowModel<G::NodeId>,
    items: Seq<ItemModel>,
    i: int,
)
    requires
        same_answers(g, h),
    ensures
        item_bindings(g, row, items, i) == item_bindings(h, row, items, i),
    decreases items.len() - i,
{
    if 0 <= i < items.len() {
        lemma_eval(g, h, row, items[i].expr);
        lemma_item_bindings(g, h, row, items, i + 1);
    }
}

proof fn lemma_simple_rows<G: GraphProvider, H: GraphProvider<NodeId = G::NodeId>>(
    g: &G,
    h: &H,
    rows: Seq<RowModel<G::NodeId>>,
    items: Seq<ItemModel>,
    i: int,
)
    requires
        same_answers(g, h),
    ensures
        simple_rows(g, rows, items, i) == simple_rows(h, rows, items, i),
    decreases rows.len() - i,
{
    if 0 <= i < rows.len() {
        lemma_item_bindings(g, h, rows[i], items, 0);
        if let Ok(bindings) = item_bindings(g, rows[i], items, 0) {
            lemma_projected(g, h, columns_of(items), bindings);
        }
        lemma_simple_rows(g, h, rows, items, i + 1);
    }
}

proof fn lemma_group_key<G: GraphProvider, H: GraphProvider<NodeId = G::NodeId>>(
    g: &G,
    h: &H,
    row: RowModel<G::NodeId>,
    items: Seq<ItemModel>,
    i: int,
)
    requires
        same_answers(g, h),
    ensures
        group_key(g, row, items, i) == group_key(h, row, items, i),
    decreases items.len() - i,
{
    if 0 <= i < items.len() {
        lemma_eval(g, h, row, items[i].expr);
        lemma_group_key(g, h, row, items, i + 1);
    }
}

proof fn lemma_group_keys<G: GraphProvider, H: GraphProvider<NodeId = G::NodeId>>(
    g: &G,
    h: &H,
    rows: Seq<RowModel<G::NodeId>>,
    items: Seq<ItemModel>,
    i: int,
)
    requires
        same_answers(g, h),
    ensures
        group_keys(g, rows, items, i) == group_keys(h, rows, items, i),
    decreases rows.len() - i,
{
    if 0 <= i < rows.len() {
        lemma_group_key(g, h, rows[i], items, 0);
        lemma_group_keys(g, h, rows, items, i + 1);
    }
}

proof fn lemma_group_bindings<G: GraphProvider, H: GraphProvider<NodeId = G::NodeId>>(
    g: &G,
    h: &H,
    group: Seq<RowModel<G::NodeId>>,
    items: Seq<ItemModel>,
    i: int,
)
    requires
        same_answers(g, h),
    ensures
        group_bindings(g, group, items, i) == group_bindings(h, group, items, i),
    decreases items.len() - i,
{
    if 0 <= i < items.len() {
        if group.len() > 0 {
            lemma_eval(g, h, group[0], items[i].expr);
        }
        if let ExprModel::Aggregate { func, arg: Some(x), distinct } = items[i].expr {
            lemma_known_values(g, h, group, *x, 0);
        }
        lemma_group_bindings(g, h, group, items, i + 1);
    }
}

proof fn lemma_grouped_rows<G: GraphProvider, H: GraphProvider<NodeId = G::NodeId>>(
    g: &G,
    h: &H,
    groups: Seq<Seq<RowModel<G::NodeId>>>,
    items: Seq<ItemModel>,
    i: int,
)
    requires
        same_answers(g, h),
    ensures
        grouped_rows(g, groups, items, i) == grouped_rows(h, groups, items, i),
    decreases groups.len() - i,
{
    if 0 <= i < groups.len() {
        lemma_group_bindings(g, h, groups[i], items, 0);
        if let Ok(bindings) = group_bindings(g, groups[i], items, 0) {
            lemma_projected(g, h, columns_of(items), bindings);
        }
        lemma_grouped_rows(g, h, groups, items, i + 1);
    }
}

proof fn lemma_projection_rows<G: GraphProvider, H: GraphProvider<NodeId = G::NodeId>>(
    g: &G,
    h: &H,
    p: ProjectionModel,
    rows: Seq<RowModel<G::NodeId>>,
    scope: Seq<Text>,
)
    requires
        same_answers(g, h),
    ensures
        projection_rows(g, p, rows, scope) == projection_rows(h, p, rows, scope),
{
    if p.star {
        lemma_star_rows(g, h, rows, scope);
    } else {
        lemma_simple_rows(g, h, rows, p.items, 0);
        lemma_group_keys(g, h, rows, p.items, 0);
        if let Ok(keys) = group_keys(g, rows, p.items, 0) {
            lemma_grouped_rows(g, h, groups_of(rows, keys, p.items), p.items, 0);
        }
    }
}

proof fn lemma_clause_rows<G: GraphProvider, H: GraphProvider<NodeId = G::NodeId>>(
    g: &G,
    h: &H,
    clauses: Seq<ClauseModel>,
    i: int,
    rows: Seq<RowModel<G::NodeId>>,
    scope: Seq<Text>,
)
    requires
        same_answers(g, h),
    ensures
        clause_rows(g, clauses, i, rows, scope) == clause_rows(h, clauses, i, rows, scope),
{
    match clauses[i] {
        ClauseModel::Match { optional, patterns, where_clause } => {
            if optional {
                let names = new_names(patterns, scope);
                lemma_optional_rows(g, h, rows, patterns, where_clause, names, 0);
            } else {
                lemma_match_rows(g, h, rows, clauses, i, patterns, where_clause);
            }
        },
        ClauseModel::Unwind { expr, var } => lemma_unwind_rows(g, h, rows, expr, var, 0),
        ClauseModel::With { projection, where_clause } => {
            lemma_projection_rows(g, h, projection, rows, scope);
            if let Ok(out) = projection_output(g, projection, rows, scope) {
                if let Some(predicate) = where_clause {
                    lemma_filter(g, h, output_bindings(out), predicate, 0);
                }
            }
        },
    }
}

proof fn lemma_run_clauses<G: GraphProvider, H: GraphProvider<NodeId = G::NodeId>>(
    g: &G,
    h: &H,
    clauses: Seq<ClauseModel>,
    i: int,
    rows: Seq<RowModel<G::NodeId>>,
    scope: Seq<Text>,
)
    requires
        same_answers(g, h),
    ensures
        run_clauses(g, clauses, i, rows, scope) == run_clauses(h, clauses, i, rows, scope),
    decreases clauses.len() - i,
{
    if 0 <= i < clauses.len() {
        lemma_clause_rows(g, h, clauses, i, rows, scope);
        if let Ok(next) = clause_rows(g, clauses, i, rows, scope) {
            lemma_run_clauses(g, h, clauses, i + 1, next, clause_scope(clauses[i], scope));
        }
    }
}

/// Graphs that give the same answers give the same result to a query, columns and rows in the same
/// order, or the same error.
pub proof fn lemma_same_answers_same_result<G: GraphProvider, H: GraphProvider<NodeId = G::NodeId>>(
    g: &G,
    h: &H,
    q: QueryModel,
)
    requires
        same_answers(g, h),
    ensures
        query_result(g, q) == query_result(h, q),
{
    lemma_run_clauses(g, h, q.clauses, 0, seq![Map::empty()], Seq::empty());
    if let Ok((rows, scope)) = run_clauses(g, q.clauses, 0, seq![Map::empty()], Seq::empty()) {
        lemma_projection_rows(g, h, q.result, rows, scope);
    }
}

/// Such graphs give the same rendered output to a query text.
pub proof fn lemma_same_answers_same_output<G: GraphProvider, H: GraphProvider<NodeId = G::NodeId>>(
    g: &G,
    h: &H,
    query: Text,
    output_format: OutputFormat,
)
    requires
        same_answers(g, h),
    ensures
        query_output(g, query, output_format) == query_output(h, query, output_format),
{
    if let Ok(q) = parsed(query) {
        lemma_same_answers_same_result(g, h, q);
    }
}

} // verus!
