//! The law of early filtering: predicates applied while patterns are matched, and lists evaluated
//! beforehand, do not change what a query gives.

use vstd::prelude::*;

use crate::analysis::{lemma_eval_agrees, mentions};
use crate::ast::{ClauseModel, ExprModel, NodePatternModel, PathModel, QueryModel, RelPatternModel};
use crate::bags::{flat, lemma_flat_permutes, lemma_same_bag_contains, same_bag};
use crate::error::ErrorModel;
use crate::eval::{binding_of, eval, filter_from};
use crate::executor::{
    clause_rows, clause_scope, lemma_nulls_keep, lemma_optional_matches_grow, new_names, new_to,
    optional_matches, optional_rows, output_values, projection_output, query_result, run_clauses,
    unwind_rows, unwound, with_nulls, ResultModel,
};
use crate::hoist::hoist_error;
use crate::paths::{
    all_kept, along, binds_exactly, bound_row, chain, hop_types, keepers, lemma_begin_all,
    lemma_chain_along, lemma_hop_all, lemma_keepers_concat, lemma_reversed_twice,
    lemma_rows_of_walks, lemma_types_known_reversed, row_in_graph, types_known,
};
use crate::pattern::{
    all_grow_from, arrive, begin, begin_all, bind, candidates, grows_from, hop_all, keep_all, kept,
    lemma_candidates_bound, lemma_grow_from_self, match_as_written, match_path, match_paths,
    path_node, planned, resolve_types, reversed, suitable, targets, walk, walker_rows, walks_back,
    Keep, Walker,
};
use crate::project::projection_columns;
use crate::provider::GraphProvider;
use crate::pushdown::{
    conjuncts, keep_passing, mentions_only, node_row, passes, pushable, pushed_from, rules_out,
    sole_var, where_pushable, Pushable,
};
use crate::repeats::{
    lemma_all_are_keepers, lemma_keepers_flat, lemma_reversal_same_multiset, lemma_rows_one_by_one,
    of_one, scans_once,
};
use crate::row::{BindingModel, RowModel};
use crate::scopes::{
    lemma_clause_keeps_scope, lemma_filter_within, lemma_match_scope, lemma_new_names, row_within,
    rows_within,
};
use crate::seqs::{lemma_concat_contains, lemma_push_contains};
use crate::text::Text;
use crate::value::{truthy, ValueModel};
use crate::walks::{coherent, in_graph};

verus! {

// ---- Queries without early filtering ---------------------------------------------

/// The rows after a clause when nothing is filtered early: the patterns are matched in full, and
/// the `WHERE` is applied to the rows that come out.
pub open spec fn plain_clause_rows<G: GraphProvider>(
    g: &G,
    clauses: Seq<ClauseModel>,
    i: int,
    rows: Seq<RowModel<G::NodeId>>,
    scope: Seq<Text>,
) -> Result<Seq<RowModel<G::NodeId>>, ErrorModel> {
    match clauses[i] {
        ClauseModel::Match { optional: false, patterns, where_clause } => match match_paths(
            g,
            rows,
            patterns,
            0,
            keep_all(),
        ) {
            Err(e) => Err(e),
            Ok(matched) => match where_clause {
                None => Ok(matched),
                Some(predicate) => filter_from(g, matched, predicate, 0),
            },
        },
        _ => clause_rows(g, clauses, i, rows, scope),
    }
}

/// The rows and the scope after the clauses from position `i` on when nothing is filtered early.
pub open spec fn plain_run<G: GraphProvider>(
    g: &G,
    clauses: Seq<ClauseModel>,
    i: int,
    rows: Seq<RowModel<G::NodeId>>,
    scope: Seq<Text>,
) -> Result<(Seq<RowModel<G::NodeId>>, Seq<Text>), ErrorModel>
    decreases clauses.len() - i,
{
    if i < 0 || i >= clauses.len() {
        Ok((rows, scope))
    } else {
        match plain_clause_rows(g, clauses, i, rows, scope) {
            Err(e) => Err(e),
            Ok(next) => plain_run(g, clauses, i + 1, next, clause_scope(clauses[i], scope)),
        }
    }
}

/// The result of a query when nothing is filtered early.
pub open spec fn plain_result<G: GraphProvider>(g: &G, q: QueryModel) -> Result<
    ResultModel,
    ErrorModel,
> {
    match plain_run(g, q.clauses, 0, seq![Map::empty()], Seq::empty()) {
        Err(e) => Err(e),
        Ok((rows, scope)) => match projection_output(g, q.result, rows, scope) {
            Err(e) => Err(e),
            Ok(out) => Ok(
                ResultModel {
                    columns: projection_columns(q.result, scope),
                    rows: output_values(out),
                },
            ),
        },
    }
}

/// Whether all rows say the same about which end a path is walked from.
pub open spec fn rows_agree<N>(rows: Seq<RowModel<N>>, path: PathModel) -> bool {
    forall|k: int|
        0 <= k < rows.len() ==> walks_back(path, seq![#[trigger] rows[k]]) == walks_back(path, rows)
}

/// Whether this holds of each of the paths from position `i` on.
pub open spec fn paths_agree<G: GraphProvider>(
    g: &G,
    rows: Seq<RowModel<G::NodeId>>,
    paths: Seq<PathModel>,
    i: int,
) -> bool
    decreases paths.len() - i,
{
    if i < 0 || i >= paths.len() {
        true
    } else {
        &&& rows_agree(rows, paths[i])
        &&& match_path(g, rows, paths[i], keep_all()) matches Ok(next) ==> paths_agree(
            g,
            next,
            paths,
            i + 1,
        )
    }
}

/// Whether this holds of the patterns of each `MATCH` from position `i` on.
pub open spec fn clauses_agree<G: GraphProvider>(
    g: &G,
    clauses: Seq<ClauseModel>,
    i: int,
    rows: Seq<RowModel<G::NodeId>>,
    scope: Seq<Text>,
) -> bool
    decreases clauses.len() - i,
{
    if i < 0 || i >= clauses.len() {
        true
    } else {
        &&& clauses[i] matches ClauseModel::Match { optional: false, patterns, .. } ==> paths_agree(
            g,
            rows,
            patterns,
            0,
        )
        &&& plain_clause_rows(g, clauses, i, rows, scope) matches Ok(next) ==> clauses_agree(
            g,
            clauses,
            i + 1,
            next,
            clause_scope(clauses[i], scope),
        )
    }
}

// ---- Rows whose bindings are kept --------------------------------------------------

/// The walkers whose rows have bindings that are all kept.
spec fn kept_walkers<N>(walkers: Seq<Walker<N>>, keep: Keep<N>) -> Seq<Walker<N>>
    decreases walkers.len(),
{
    if walkers.len() == 0 {
        walkers
    } else if all_kept(walkers.last().0, keep) {
        kept_walkers(walkers.drop_last(), keep).push(walkers.last())
    } else {
        kept_walkers(walkers.drop_last(), keep)
    }
}

proof fn lemma_kept_walkers_concat<N>(a: Seq<Walker<N>>, b: Seq<Walker<N>>, keep: Keep<N>)
    ensures
        kept_walkers(a + b, keep) == kept_walkers(a, keep) + kept_walkers(b, keep),
    decreases b.len(),
{
    if b.len() == 0 {
        assert(a + b =~= a);
        assert(kept_walkers(a, keep) + kept_walkers(b, keep) =~= kept_walkers(a, keep));
    } else {
        lemma_kept_walkers_concat(a, b.drop_last(), keep);
        assert((a + b).drop_last() =~= a + b.drop_last());
        assert((a + b).last() == b.last());
        assert(kept_walkers(a + b, keep) =~= kept_walkers(a, keep) + kept_walkers(b, keep));
    }
}

/// A row that keeps the bindings of a row with one that is not kept has one too.
proof fn lemma_not_kept_grows<N>(row: RowModel<N>, larger: RowModel<N>, keep: Keep<N>)
    requires
        row.submap_of(larger),
        all_kept(larger, keep),
    ensures
        all_kept(row, keep),
{
    assert forall|name: Text| row.contains_key(name) implies (
    #[trigger] row[name] matches BindingModel::Node(n) ==> keep(name, n)) by {
        assert(row.dom().contains(name));
        assert(larger.dom().contains(name));
        assert(larger[name] == row[name]);
    }
}

/// Rows that grow from a row with a binding that is not kept all have one.
proof fn lemma_none_kept<N>(rows: Seq<RowModel<N>>, row: RowModel<N>, keep: Keep<N>)
    requires
        !all_kept(row, keep),
        forall|k: int| 0 <= k < rows.len() ==> row.submap_of(#[trigger] rows[k]),
    ensures
        keepers(rows, keep).len() == 0,
    decreases rows.len(),
{
    if rows.len() > 0 {
        assert(rows[rows.len() - 1] == rows.last());
        if all_kept(rows.last(), keep) {
            lemma_not_kept_grows(row, rows.last(), keep);
        }
        assert forall|k: int| 0 <= k < rows.drop_last().len() implies row.submap_of(
            #[trigger] rows.drop_last()[k],
        ) by {
            assert(rows.drop_last()[k] == rows[k]);
        }
        lemma_none_kept(rows.drop_last(), row, keep);
    }
}

proof fn lemma_no_walker_kept<N>(walkers: Seq<Walker<N>>, row: RowModel<N>, keep: Keep<N>)
    requires
        !all_kept(row, keep),
        forall|k: int| 0 <= k < walkers.len() ==> row.submap_of((#[trigger] walkers[k]).0),
    ensures
        kept_walkers(walkers, keep).len() == 0,
    decreases walkers.len(),
{
    if walkers.len() > 0 {
        assert(walkers[walkers.len() - 1] == walkers.last());
        if all_kept(walkers.last().0, keep) {
            lemma_not_kept_grows(row, walkers.last().0, keep);
        }
        assert forall|k: int| 0 <= k < walkers.drop_last().len() implies row.submap_of(
            (#[trigger] walkers.drop_last()[k]).0,
        ) by {
            assert(walkers.drop_last()[k] == walkers[k]);
        }
        lemma_no_walker_kept(walkers.drop_last(), row, keep);
    }
}

/// A node that is not kept makes a row with a binding that is not kept.
proof fn lemma_bind_not_kept<N>(row: RowModel<N>, var: Option<Text>, x: N, keep: Keep<N>)
    requires
        !kept(keep, var, x),
    ensures
        !all_kept(bind(row, var, x), keep),
{
    let name = var->0;
    let r = bind(row, var, x);
    assert(r.contains_key(name) && r[name] == BindingModel::Node(x));
}

// ---- Starts ----------------------------------------------------------------------

/// The walkers of a row with bindings that are kept, whichever candidates are left away.
proof fn lemma_begin_suitable<G: GraphProvider>(
    g: &G,
    row: RowModel<G::NodeId>,
    p: NodePatternModel,
    nodes: Seq<G::NodeId>,
    keep: Keep<G::NodeId>,
)
    ensures
        kept_walkers(begin(row, p.var, suitable(g, p, keep, nodes)), keep) == kept_walkers(
            begin(row, p.var, suitable(g, p, keep_all(), nodes)),
            keep,
        ),
    decreases nodes.len(),
{
    if nodes.len() > 0 {
        let init = nodes.drop_last();
        let last = nodes.last();
        lemma_begin_suitable(g, row, p, init, keep);
        let some = suitable(g, p, keep, init);
        let every = suitable(g, p, keep_all(), init);
        let w = (bind(row, p.var, last), last);
        assert(some.push(last).drop_last() =~= some);
        assert(every.push(last).drop_last() =~= every);
        assert(begin(row, p.var, some.push(last)) == begin(row, p.var, some).push(w));
        assert(begin(row, p.var, every.push(last)) == begin(row, p.var, every).push(w));
        assert(begin(row, p.var, some).push(w).drop_last() =~= begin(row, p.var, some));
        assert(begin(row, p.var, every).push(w).drop_last() =~= begin(row, p.var, every));
        if props_ok_and_dropped(g, p, last, keep) {
            lemma_bind_not_kept(row, p.var, last, keep);
        }
    }
}

/// Whether a node has the properties and is not kept.
spec fn props_ok_and_dropped<G: GraphProvider>(
    g: &G,
    p: NodePatternModel,
    x: G::NodeId,
    keep: Keep<G::NodeId>,
) -> bool {
    crate::pattern::props_ok(g, x, p.props) && !kept(keep, p.var, x)
}

proof fn lemma_begin_row<G: GraphProvider>(
    g: &G,
    row: RowModel<G::NodeId>,
    p: NodePatternModel,
    keep: Keep<G::NodeId>,
)
    ensures
        kept_walkers(begin(row, p.var, candidates(g, row, p, keep)), keep) == kept_walkers(
            begin(row, p.var, candidates(g, row, p, keep_all())),
            keep,
        ),
{
    if !(p.var is Some && row.contains_key(p.var->0)) {
        lemma_begin_suitable(g, row, p, g.nodes_with(p.labels), keep);
    }
}

/// A row comes first in each walker that starts from it.
proof fn lemma_begin_keeps<N>(row: RowModel<N>, var: Option<Text>, nodes: Seq<N>)
    requires
        forall|i: int| 0 <= i < nodes.len() ==> row.submap_of(bind(row, var, #[trigger] nodes[i])),
    ensures
        forall|k: int|
            0 <= k < begin(row, var, nodes).len() ==> row.submap_of(
                (#[trigger] begin(row, var, nodes)[k]).0,
            ),
    decreases nodes.len(),
{
    if nodes.len() > 0 {
        let init = nodes.drop_last();
        assert forall|i: int| 0 <= i < init.len() implies row.submap_of(
            bind(row, var, #[trigger] init[i]),
        ) by {
            assert(init[i] == nodes[i]);
        }
        lemma_begin_keeps(row, var, init);
        assert(nodes[nodes.len() - 1] == nodes.last());
        let before = begin(row, var, init);
        let all = begin(row, var, nodes);
        assert forall|k: int| 0 <= k < all.len() implies row.submap_of((#[trigger] all[k]).0) by {
            if k < before.len() {
                assert(all[k] == before[k]);
            }
        }
    }
}

/// The walkers that start from the rows with kept bindings.
spec fn starts_of<G: GraphProvider>(
    g: &G,
    rows: Seq<RowModel<G::NodeId>>,
    p: NodePatternModel,
    keep: Keep<G::NodeId>,
) -> Seq<Walker<G::NodeId>>
    decreases rows.len(),
{
    if rows.len() == 0 {
        Seq::empty()
    } else {
        starts_of(g, rows.drop_last(), p, keep) + kept_walkers(
            begin(rows.last(), p.var, candidates(g, rows.last(), p, keep)),
            keep,
        )
    }
}

/// Which of the walkers are kept at the start depends only on which of the rows are kept.
proof fn lemma_starts<G: GraphProvider>(
    g: &G,
    base: Seq<RowModel<G::NodeId>>,
    p: NodePatternModel,
    keep: Keep<G::NodeId>,
    used: Keep<G::NodeId>,
)
    requires
        used == keep || used == keep_all::<G::NodeId>(),
    ensures
        kept_walkers(begin_all(g, base, p, used), keep) == starts_of(
            g,
            keepers(base, keep),
            p,
            keep,
        ),
    decreases base.len(),
{
    if base.len() > 0 {
        let init = base.drop_last();
        let last = base.last();
        lemma_starts(g, init, p, keep, used);
        let here = begin(last, p.var, candidates(g, last, p, used));
        lemma_kept_walkers_concat(begin_all(g, init, p, used), here, keep);
        lemma_begin_row(g, last, p, keep);
        if all_kept(last, keep) {
            assert(keepers(base, keep).drop_last() =~= keepers(init, keep));
        } else {
            let nodes = candidates(g, last, p, used);
            assert forall|i: int| 0 <= i < nodes.len() implies last.submap_of(
                bind(last, p.var, #[trigger] nodes[i]),
            ) by {
                crate::pattern::lemma_candidates_bound(g, last, p, used, i);
            }
            lemma_begin_keeps(last, p.var, nodes);
            lemma_no_walker_kept(here, last, keep);
            assert(kept_walkers(here, keep) =~= Seq::empty());
            assert(starts_of(g, keepers(init, keep), p, keep) + Seq::<Walker<G::NodeId>>::empty()
                =~= starts_of(g, keepers(init, keep), p, keep));
        }
    }
}

// ---- Hops ------------------------------------------------------------------------

proof fn lemma_arrive_row<G: GraphProvider>(
    g: &G,
    row: RowModel<G::NodeId>,
    p: NodePatternModel,
    nodes: Seq<G::NodeId>,
    keep: Keep<G::NodeId>,
)
    ensures
        kept_walkers(arrive(g, row, p, keep, nodes), keep) == kept_walkers(
            arrive(g, row, p, keep_all(), nodes),
            keep,
        ),
    decreases nodes.len(),
{
    if nodes.len() > 0 {
        let init = nodes.drop_last();
        let last = nodes.last();
        lemma_arrive_row(g, row, p, init, keep);
        let some = arrive(g, row, p, keep, init);
        let every = arrive(g, row, p, keep_all(), init);
        let w = (bind(row, p.var, last), last);
        assert(some.push(w).drop_last() =~= some);
        assert(every.push(w).drop_last() =~= every);
        if !kept(keep, p.var, last) {
            lemma_bind_not_kept(row, p.var, last, keep);
        }
    }
}

proof fn lemma_arrive_keeps<G: GraphProvider>(
    g: &G,
    row: RowModel<G::NodeId>,
    p: NodePatternModel,
    keep: Keep<G::NodeId>,
    nodes: Seq<G::NodeId>,
)
    ensures
        forall|k: int|
            0 <= k < arrive(g, row, p, keep, nodes).len() ==> row.submap_of(
                (#[trigger] arrive(g, row, p, keep, nodes)[k]).0,
            ),
    decreases nodes.len(),
{
    if nodes.len() > 0 {
        lemma_arrive_keeps(g, row, p, keep, nodes.drop_last());
        let before = arrive(g, row, p, keep, nodes.drop_last());
        let all = arrive(g, row, p, keep, nodes);
        assert forall|k: int| 0 <= k < all.len() implies row.submap_of((#[trigger] all[k]).0) by {
            if k < before.len() {
                assert(all[k] == before[k]);
            } else {
                assert(row.submap_of(bind(row, p.var, nodes.last())));
            }
        }
    }
}

/// The walkers that go on from walkers with kept bindings.
spec fn hops_of<G: GraphProvider>(
    g: &G,
    walkers: Seq<Walker<G::NodeId>>,
    types: Seq<Text>,
    rel: RelPatternModel,
    p: NodePatternModel,
    keep: Keep<G::NodeId>,
) -> Seq<Walker<G::NodeId>>
    decreases walkers.len(),
{
    if walkers.len() == 0 {
        Seq::empty()
    } else {
        hops_of(g, walkers.drop_last(), types, rel, p, keep) + kept_walkers(
            arrive(
                g,
                walkers.last().0,
                p,
                keep,
                targets(g, walkers.last().1, types, rel.direction, rel.length),
            ),
            keep,
        )
    }
}

/// Which of the walkers are kept after a hop depends only on which were kept before it.
proof fn lemma_hops<G: GraphProvider>(
    g: &G,
    walkers: Seq<Walker<G::NodeId>>,
    types: Seq<Text>,
    rel: RelPatternModel,
    p: NodePatternModel,
    keep: Keep<G::NodeId>,
    used: Keep<G::NodeId>,
)
    requires
        used == keep || used == keep_all::<G::NodeId>(),
    ensures
        kept_walkers(hop_all(g, walkers, types, rel, p, used), keep) == hops_of(
            g,
            kept_walkers(walkers, keep),
            types,
            rel,
            p,
            keep,
        ),
    decreases walkers.len(),
{
    if walkers.len() > 0 {
        let init = walkers.drop_last();
        let last = walkers.last();
        lemma_hops(g, init, types, rel, p, keep, used);
        let nodes = targets(g, last.1, types, rel.direction, rel.length);
        let here = arrive(g, last.0, p, used, nodes);
        lemma_kept_walkers_concat(hop_all(g, init, types, rel, p, used), here, keep);
        lemma_arrive_row(g, last.0, p, nodes, keep);
        if all_kept(last.0, keep) {
            assert(kept_walkers(walkers, keep).drop_last() =~= kept_walkers(init, keep));
        } else {
            lemma_arrive_keeps(g, last.0, p, used, nodes);
            lemma_no_walker_kept(here, last.0, keep);
            assert(kept_walkers(here, keep) =~= Seq::empty());
            let before = hops_of(g, kept_walkers(init, keep), types, rel, p, keep);
            assert(before + Seq::<Walker<G::NodeId>>::empty() =~= before);
        }
    }
}

proof fn lemma_walks<G: GraphProvider>(
    g: &G,
    a: Seq<Walker<G::NodeId>>,
    b: Seq<Walker<G::NodeId>>,
    hops: Seq<(RelPatternModel, NodePatternModel)>,
    i: int,
    keep: Keep<G::NodeId>,
)
    requires
        kept_walkers(a, keep) == kept_walkers(b, keep),
        walk(g, b, hops, i, keep_all()) is Ok,
    ensures
        walk(g, a, hops, i, keep) is Ok,
        kept_walkers(walk(g, a, hops, i, keep)->Ok_0, keep) == kept_walkers(
            walk(g, b, hops, i, keep_all())->Ok_0,
            keep,
        ),
    decreases hops.len() - i,
{
    if 0 <= i < hops.len() {
        let types = resolve_types(g, hops[i].0.types)->Ok_0;
        lemma_hops(g, a, types, hops[i].0, hops[i].1, keep, keep);
        lemma_hops(g, b, types, hops[i].0, hops[i].1, keep, keep_all());
        lemma_walks(
            g,
            hop_all(g, a, types, hops[i].0, hops[i].1, keep),
            hop_all(g, b, types, hops[i].0, hops[i].1, keep_all()),
            hops,
            i + 1,
            keep,
        );
    }
}

proof fn lemma_kept_rows<N>(walkers: Seq<Walker<N>>, keep: Keep<N>)
    ensures
        keepers(walker_rows(walkers), keep) == walker_rows(kept_walkers(walkers, keep)),
    decreases walkers.len(),
{
    if walkers.len() == 0 {
        assert(keepers(walker_rows(walkers), keep) =~= walker_rows(kept_walkers(walkers, keep)));
    } else {
        let init = walkers.drop_last();
        lemma_kept_rows(init, keep);
        assert(walker_rows(walkers).drop_last() =~= walker_rows(init));
        assert(walker_rows(walkers).last() == walkers.last().0);
        assert(walker_rows(kept_walkers(init, keep).push(walkers.last())) =~= walker_rows(
            kept_walkers(init, keep),
        ).push(walkers.last().0));
    }
}

proof fn lemma_written<G: GraphProvider>(
    g: &G,
    a: Seq<RowModel<G::NodeId>>,
    b: Seq<RowModel<G::NodeId>>,
    path: PathModel,
    keep: Keep<G::NodeId>,
)
    requires
        keepers(a, keep) == keepers(b, keep),
        match_as_written(g, b, path, keep_all()) is Ok,
    ensures
        match_as_written(g, a, path, keep) is Ok,
        keepers(match_as_written(g, a, path, keep)->Ok_0, keep) == keepers(
            match_as_written(g, b, path, keep_all())->Ok_0,
            keep,
        ),
{
    lemma_starts(g, a, path.start, keep, keep);
    lemma_starts(g, b, path.start, keep, keep_all());
    let x = begin_all(g, a, path.start, keep);
    let y = begin_all(g, b, path.start, keep_all());
    lemma_walks(g, x, y, path.rest, 0, keep);
    lemma_kept_rows(walk(g, x, path.rest, 0, keep)->Ok_0, keep);
    lemma_kept_rows(walk(g, y, path.rest, 0, keep_all())->Ok_0, keep);
}

// ---- Fewer rows ------------------------------------------------------------------

/// Whether every row of `a` is one of `b`.
pub open spec fn among_rows<N>(a: Seq<RowModel<N>>, b: Seq<RowModel<N>>) -> bool {
    forall|r: RowModel<N>| #[trigger] a.contains(r) ==> b.contains(r)
}

/// Whether every walker of `a` is one of `b`.
spec fn among_walkers<N>(a: Seq<Walker<N>>, b: Seq<Walker<N>>) -> bool {
    forall|w: Walker<N>| #[trigger] a.contains(w) ==> b.contains(w)
}

proof fn lemma_fewer_starts<G: GraphProvider>(
    g: &G,
    a: Seq<RowModel<G::NodeId>>,
    b: Seq<RowModel<G::NodeId>>,
    p: NodePatternModel,
    keep: Keep<G::NodeId>,
)
    requires
        among_rows(a, b),
    ensures
        among_walkers(begin_all(g, a, p, keep), begin_all(g, b, p, keep_all())),
{
    let x = begin_all(g, a, p, keep);
    let y = begin_all(g, b, p, keep_all());
    assert forall|w: Walker<G::NodeId>| #[trigger] x.contains(w) implies y.contains(w) by {
        lemma_begin_all(g, a, p, keep, w);
        lemma_begin_all(g, b, p, keep_all(), w);
        let j = choose|j: int|
            0 <= j < a.len() && crate::paths::starts_from(g, #[trigger] a[j], p, keep, w);
        let row = a[j];
        assert(a.contains(row));
        let k = choose|k: int| 0 <= k < b.len() && b[k] == row;
        if !(p.var is Some && row.contains_key(p.var->0)) {
            crate::paths::lemma_suitable(g, p, keep, g.nodes_with(p.labels), w.1);
            crate::paths::lemma_suitable(g, p, keep_all(), g.nodes_with(p.labels), w.1);
        }
        assert(crate::paths::starts_from(g, b[k], p, keep_all(), w));
    }
}

proof fn lemma_fewer_hops<G: GraphProvider>(
    g: &G,
    a: Seq<Walker<G::NodeId>>,
    b: Seq<Walker<G::NodeId>>,
    rel: RelPatternModel,
    p: NodePatternModel,
    keep: Keep<G::NodeId>,
)
    requires
        among_walkers(a, b),
    ensures
        among_walkers(
            hop_all(g, a, hop_types(g, rel), rel, p, keep),
            hop_all(g, b, hop_types(g, rel), rel, p, keep_all()),
        ),
{
    let x = hop_all(g, a, hop_types(g, rel), rel, p, keep);
    let y = hop_all(g, b, hop_types(g, rel), rel, p, keep_all());
    assert forall|w: Walker<G::NodeId>| #[trigger] x.contains(w) implies y.contains(w) by {
        lemma_hop_all(g, a, rel, p, keep, w);
        lemma_hop_all(g, b, rel, p, keep_all(), w);
        let v = choose|v: Walker<G::NodeId>|
            a.contains(v) && #[trigger] crate::paths::hops_to(g, v, rel, p, keep, w);
        assert(b.contains(v));
        assert(crate::paths::hops_to(g, v, rel, p, keep_all(), w));
    }
}

proof fn lemma_fewer_walks<G: GraphProvider>(
    g: &G,
    a: Seq<Walker<G::NodeId>>,
    b: Seq<Walker<G::NodeId>>,
    hops: Seq<(RelPatternModel, NodePatternModel)>,
    i: int,
    keep: Keep<G::NodeId>,
)
    requires
        among_walkers(a, b),
        walk(g, b, hops, i, keep_all()) is Ok,
    ensures
        walk(g, a, hops, i, keep) is Ok,
        among_walkers(walk(g, a, hops, i, keep)->Ok_0, walk(g, b, hops, i, keep_all())->Ok_0),
    decreases hops.len() - i,
{
    if 0 <= i < hops.len() {
        let types = resolve_types(g, hops[i].0.types)->Ok_0;
        assert(types == hop_types(g, hops[i].0));
        lemma_fewer_hops(g, a, b, hops[i].0, hops[i].1, keep);
        lemma_fewer_walks(
            g,
            hop_all(g, a, types, hops[i].0, hops[i].1, keep),
            hop_all(g, b, types, hops[i].0, hops[i].1, keep_all()),
            hops,
            i + 1,
            keep,
        );
    }
}

proof fn lemma_fewer_written<G: GraphProvider>(
    g: &G,
    a: Seq<RowModel<G::NodeId>>,
    b: Seq<RowModel<G::NodeId>>,
    path: PathModel,
    keep: Keep<G::NodeId>,
)
    requires
        among_rows(a, b),
        match_as_written(g, b, path, keep_all()) is Ok,
    ensures
        match_as_written(g, a, path, keep) is Ok,
        among_rows(
            match_as_written(g, a, path, keep)->Ok_0,
            match_as_written(g, b, path, keep_all())->Ok_0,
        ),
{
    lemma_fewer_starts(g, a, b, path.start, keep);
    let x = begin_all(g, a, path.start, keep);
    let y = begin_all(g, b, path.start, keep_all());
    lemma_fewer_walks(g, x, y, path.rest, 0, keep);
    let u = walk(g, x, path.rest, 0, keep)->Ok_0;
    let v = walk(g, y, path.rest, 0, keep_all())->Ok_0;
    assert forall|r: RowModel<G::NodeId>| #[trigger] walker_rows(u).contains(r) implies walker_rows(
        v,
    ).contains(r) by {
        let k = choose|k: int| 0 <= k < walker_rows(u).len() && walker_rows(u)[k] == r;
        assert(u.contains(u[k]));
        assert(v.contains(u[k]));
        let m = choose|m: int| 0 <= m < v.len() && v[m] == u[k];
        assert(walker_rows(v)[m] == r);
    }
}

// ---- Patterns --------------------------------------------------------------------

/// Whether no types are unknown has nothing to do with the rows.
proof fn lemma_empty_walk<G: GraphProvider>(
    g: &G,
    b: Seq<Walker<G::NodeId>>,
    hops: Seq<(RelPatternModel, NodePatternModel)>,
    i: int,
    keep: Keep<G::NodeId>,
)
    requires
        walk(g, b, hops, i, keep_all()) is Ok,
    ensures
        walk(g, Seq::empty(), hops, i, keep) is Ok,
        walk(g, Seq::empty(), hops, i, keep)->Ok_0.len() == 0,
    decreases hops.len() - i,
{
    if 0 <= i < hops.len() {
        let types = resolve_types(g, hops[i].0.types)->Ok_0;
        assert(hop_all(g, Seq::<Walker<G::NodeId>>::empty(), types, hops[i].0, hops[i].1, keep)
            =~= Seq::empty());
        lemma_empty_walk(
            g,
            hop_all(g, b, types, hops[i].0, hops[i].1, keep_all()),
            hops,
            i + 1,
            keep,
        );
    }
}

/// How the rows of a match with and without early filtering are related.
pub open spec fn related<N>(a: Seq<RowModel<N>>, b: Seq<RowModel<N>>, keep: Keep<N>) -> bool {
    keepers(a, keep) == keepers(b, keep) && among_rows(a, b)
}

proof fn lemma_path_related<G: GraphProvider>(
    g: &G,
    a: Seq<RowModel<G::NodeId>>,
    b: Seq<RowModel<G::NodeId>>,
    path: PathModel,
    keep: Keep<G::NodeId>,
)
    requires
        related(a, b, keep),
        rows_agree(b, path),
        match_path(g, b, path, keep_all()) is Ok,
        match_path(g, a, path, keep) is Ok,
    ensures
        related(
            match_path(g, a, path, keep)->Ok_0,
            match_path(g, b, path, keep_all())->Ok_0,
            keep,
        ),
{
    if a.len() == 0 {
        let plan = planned(path, b);
        let out = match_path(g, a, path, keep)->Ok_0;
        let mine = planned(path, a);
        assert(begin_all(g, a, mine.start, keep) =~= Seq::empty());
        lemma_empty_out(g, mine.rest, 0, keep);
        assert(out =~= Seq::empty());
        assert(keepers(a, keep) == a);
        lemma_written(g, a, b, plan, keep);
        assert(begin_all(g, a, plan.start, keep) =~= Seq::empty());
        lemma_empty_walk(g, begin_all(g, b, plan.start, keep_all()), plan.rest, 0, keep);
        let other = match_as_written(g, a, plan, keep)->Ok_0;
        assert(other =~= Seq::empty());
    } else {
        assert(a.contains(a[0]));
        let k = choose|k: int| 0 <= k < b.len() && b[k] == a[0];
        assert(walks_back(path, seq![b[k]]) == walks_back(path, b));
        assert(seq![b[k]][0] == a[0]);
        assert(walks_back(path, a) == walks_back(path, seq![b[k]]));
        let plan = planned(path, b);
        assert(planned(path, a) == plan);
        lemma_written(g, a, b, plan, keep);
        lemma_fewer_written(g, a, b, plan, keep);
    }
}

proof fn lemma_empty_out<G: GraphProvider>(
    g: &G,
    hops: Seq<(RelPatternModel, NodePatternModel)>,
    i: int,
    keep: Keep<G::NodeId>,
)
    ensures
        walk(g, Seq::empty(), hops, i, keep) matches Ok(out) ==> out.len() == 0,
    decreases hops.len() - i,
{
    if 0 <= i < hops.len() {
        if let Ok(types) = resolve_types(g, hops[i].0.types) {
            assert(hop_all(g, Seq::<Walker<G::NodeId>>::empty(), types, hops[i].0, hops[i].1, keep)
                =~= Seq::empty());
            lemma_empty_out(g, hops, i + 1, keep);
        }
    }
}

proof fn lemma_paths_related<G: GraphProvider>(
    g: &G,
    a: Seq<RowModel<G::NodeId>>,
    b: Seq<RowModel<G::NodeId>>,
    paths: Seq<PathModel>,
    i: int,
    keep: Keep<G::NodeId>,
)
    requires
        related(a, b, keep),
        paths_agree(g, b, paths, i),
        match_paths(g, b, paths, i, keep_all()) is Ok,
        match_paths(g, a, paths, i, keep) is Ok,
    ensures
        related(
            match_paths(g, a, paths, i, keep)->Ok_0,
            match_paths(g, b, paths, i, keep_all())->Ok_0,
            keep,
        ),
    decreases paths.len() - i,
{
    if 0 <= i < paths.len() {
        lemma_path_related(g, a, b, paths[i], keep);
        lemma_paths_related(
            g,
            match_path(g, a, paths[i], keep)->Ok_0,
            match_path(g, b, paths[i], keep_all())->Ok_0,
            paths,
            i + 1,
            keep,
        );
    }
}

// ---- WHERE -----------------------------------------------------------------------

/// Whether a predicate holds in a row.
pub open spec fn holds<G: GraphProvider>(
    g: &G,
    row: RowModel<G::NodeId>,
    predicate: ExprModel,
) -> bool {
    eval(g, row, predicate) matches Ok(v) && truthy(v)
}

/// The rows in which a predicate holds.
pub open spec fn holding<G: GraphProvider>(
    g: &G,
    rows: Seq<RowModel<G::NodeId>>,
    predicate: ExprModel,
) -> Seq<RowModel<G::NodeId>>
    decreases rows.len(),
{
    if rows.len() == 0 {
        rows
    } else if holds(g, rows.last(), predicate) {
        holding(g, rows.drop_last(), predicate).push(rows.last())
    } else {
        holding(g, rows.drop_last(), predicate)
    }
}

proof fn lemma_filter_from<G: GraphProvider>(
    g: &G,
    rows: Seq<RowModel<G::NodeId>>,
    predicate: ExprModel,
    i: int,
)
    requires
        0 <= i <= rows.len(),
    ensures
        filter_from(g, rows, predicate, i) matches Ok(out) ==> holding(g, rows, predicate)
            == holding(g, rows.take(i), predicate) + out,
    decreases rows.len() - i,
{
    if i < rows.len() {
        lemma_filter_from(g, rows, predicate, i + 1);
        let more = rows.take(i + 1);
        assert(more.drop_last() =~= rows.take(i));
        assert(more.last() == rows[i]);
        if let Ok(out) = filter_from(g, rows, predicate, i) {
            let before = holding(g, rows.take(i), predicate);
            let rest = filter_from(g, rows, predicate, i + 1)->Ok_0;
            if holds(g, rows[i], predicate) {
                assert(before.push(rows[i]) + rest =~= before + (seq![rows[i]] + rest));
            }
        }
    } else {
        assert(rows.take(i) =~= rows);
        assert(holding(g, rows, predicate) + Seq::<RowModel<G::NodeId>>::empty() =~= holding(
            g,
            rows,
            predicate,
        ));
    }
}

/// Filtering keeps, in order, the rows in which the predicate holds.
pub proof fn lemma_filter_holds<G: GraphProvider>(
    g: &G,
    rows: Seq<RowModel<G::NodeId>>,
    predicate: ExprModel,
)
    ensures
        filter_from(g, rows, predicate, 0) matches Ok(out) ==> out == holding(g, rows, predicate),
{
    lemma_filter_from(g, rows, predicate, 0);
    assert(rows.take(0) =~= Seq::empty());
    if let Ok(out) = filter_from(g, rows, predicate, 0) {
        assert(Seq::<RowModel<G::NodeId>>::empty() + out =~= out);
    }
}

/// A conjunction holds only if all of its parts do.
proof fn lemma_conjuncts_hold<G: GraphProvider>(
    g: &G,
    row: RowModel<G::NodeId>,
    e: ExprModel,
    k: int,
)
    requires
        holds(g, row, e),
        0 <= k < conjuncts(e).len(),
    ensures
        holds(g, row, conjuncts(e)[k]),
    decreases e,
{
    if let ExprModel::And(x, y) = e {
        let left = conjuncts(*x);
        if k < left.len() {
            lemma_conjuncts_hold(g, row, *x, k);
            assert(conjuncts(e)[k] == left[k]);
        } else {
            lemma_conjuncts_hold(g, row, *y, k - left.len());
            assert(conjuncts(e)[k] == conjuncts(*y)[k - left.len()]);
        }
    }
}

/// What can be applied early is one of the predicates, with its only variable.
proof fn lemma_pushable(predicates: Seq<ExprModel>, i: int)
    requires
        0 <= i < pushable(predicates).len(),
    ensures
        exists|k: int|
            0 <= k < predicates.len() && pushable(predicates)[i].1 == #[trigger] predicates[k],
        sole_var(pushable(predicates)[i].1) == Some(pushable(predicates)[i].0),
    decreases predicates.len(),
{
    let init = predicates.drop_last();
    let before = pushable(init);
    if i < before.len() {
        lemma_pushable(init, i);
        assert(pushable(predicates)[i] == before[i]);
        let k = choose|k: int| 0 <= k < init.len() && before[i].1 == #[trigger] init[k];
        assert(predicates[k] == init[k]);
    } else {
        assert(pushable(predicates)[i] == (sole_var(predicates.last())->0, predicates.last()));
        assert(predicates[predicates.len() - 1] == predicates.last());
    }
}

/// Where a `WHERE` holds, none of its parts rules out a node that the row binds.
proof fn lemma_where_keeps<G: GraphProvider>(
    g: &G,
    row: RowModel<G::NodeId>,
    predicate: ExprModel,
)
    requires
        holds(g, row, predicate),
    ensures
        all_kept(row, keep_passing(g, where_pushable(Some(predicate)))),
{
    let pushed = where_pushable(Some(predicate));
    let parts = conjuncts(predicate);
    assert forall|name: Text| row.contains_key(name) implies (
    #[trigger] row[name] matches BindingModel::Node(n) ==> (keep_passing(g, pushed))(name, n)) by {
        if let BindingModel::Node(n) = row[name] {
            assert forall|i: int|
                0 <= i < pushed.len() && (#[trigger] pushed[i]).0 == name implies !rules_out(
                g,
                name,
                n,
                pushed[i].1,
            ) by {
                lemma_pushable(parts, i);
                let e = pushed[i].1;
                let k = choose|k: int| 0 <= k < parts.len() && e == #[trigger] parts[k];
                lemma_conjuncts_hold(g, row, predicate, k);
                assert(mentions_only(e, name));
                let alone = node_row(name, n);
                assert forall|m: Text| mentions(e, m) implies #[trigger] binding_of(row, m)
                    == binding_of(alone, m) by {
                    assert(m == name);
                }
                lemma_eval_agrees(g, row, alone, e);
            }
        }
    }
}

/// Keeping what passes two lists of predicates is keeping what passes both.
proof fn lemma_kept_both<G: GraphProvider>(
    g: &G,
    row: RowModel<G::NodeId>,
    a: Seq<Pushable>,
    b: Seq<Pushable>,
)
    ensures
        all_kept(row, keep_passing(g, a + b)) <==> all_kept(row, keep_passing(g, a)) && all_kept(
            row,
            keep_passing(g, b),
        ),
{
    assert forall|name: Text, n: G::NodeId| #[trigger]
        passes(g, a + b, name, n) <==> passes(g, a, name, n) && passes(g, b, name, n) by {
        if passes(g, a + b, name, n) {
            assert forall|i: int|
                0 <= i < a.len() && (#[trigger] a[i]).0 == name implies !rules_out(
                g,
                name,
                n,
                a[i].1,
            ) by {
                assert((a + b)[i] == a[i]);
            }
            assert forall|i: int|
                0 <= i < b.len() && (#[trigger] b[i]).0 == name implies !rules_out(
                g,
                name,
                n,
                b[i].1,
            ) by {
                assert((a + b)[a.len() + i] == b[i]);
            }
        }
    }
    let both = keep_passing(g, a + b);
    let ka = keep_passing(g, a);
    let kb = keep_passing(g, b);
    assert forall|name: Text, n: G::NodeId| #[trigger]
        both(name, n) <==> ka(name, n) && kb(name, n) by {
        assert(passes(g, a + b, name, n) <==> passes(g, a, name, n) && passes(g, b, name, n));
    }
    if all_kept(row, both) {
        assert forall|name: Text| row.contains_key(name) implies (
        #[trigger] row[name] matches BindingModel::Node(n) ==> ka(name, n) && kb(name, n)) by {
            if let BindingModel::Node(n) = row[name] {
                assert(both(name, n));
            }
        }
    }
    if all_kept(row, ka) && all_kept(row, kb) {
        assert forall|name: Text| row.contains_key(name) implies (
        #[trigger] row[name] matches BindingModel::Node(n) ==> both(name, n)) by {
            if let BindingModel::Node(n) = row[name] {
                assert(ka(name, n) && kb(name, n));
            }
        }
    }
}

/// Of the rows in which a `WHERE` holds, those that pass the later predicates are those that passed
/// its own too.
proof fn lemma_where_keepers<G: GraphProvider>(
    g: &G,
    rows: Seq<RowModel<G::NodeId>>,
    predicate: ExprModel,
    later: Seq<Pushable>,
)
    ensures
        keepers(holding(g, rows, predicate), keep_passing(g, later)) == holding(
            g,
            keepers(rows, keep_passing(g, where_pushable(Some(predicate)) + later)),
            predicate,
        ),
    decreases rows.len(),
{
    let own = where_pushable(Some(predicate));
    let both = keep_passing(g, own + later);
    let after = keep_passing(g, later);
    if rows.len() > 0 {
        let init = rows.drop_last();
        let last = rows.last();
        lemma_where_keepers(g, init, predicate, later);
        lemma_kept_both(g, last, own, later);
        let x = holding(g, init, predicate);
        let y = keepers(init, both);
        assert(x.push(last).drop_last() =~= x);
        assert(y.push(last).drop_last() =~= y);
        if holds(g, last, predicate) {
            lemma_where_keeps(g, last, predicate);
        }
    }
}

proof fn lemma_holding_among<G: GraphProvider>(
    g: &G,
    a: Seq<RowModel<G::NodeId>>,
    predicate: ExprModel,
    r: RowModel<G::NodeId>,
)
    ensures
        holding(g, a, predicate).contains(r) <==> a.contains(r) && holds(g, r, predicate),
    decreases a.len(),
{
    if a.len() > 0 {
        let init = a.drop_last();
        lemma_holding_among(g, init, predicate, r);
        assert(a =~= init.push(a.last()));
        lemma_push_contains(init, a.last(), r);
        lemma_push_contains(holding(g, init, predicate), a.last(), r);
    }
}

/// Without predicates everything is kept.
proof fn lemma_keepers_all<G: GraphProvider>(g: &G, rows: Seq<RowModel<G::NodeId>>)
    ensures
        keepers(rows, keep_passing(g, Seq::empty())) == rows,
    decreases rows.len(),
{
    if rows.len() > 0 {
        lemma_keepers_all(g, rows.drop_last());
        let keep = keep_passing(g, Seq::empty());
        let row = rows.last();
        assert(all_kept(row, keep)) by {
            assert forall|name: Text| row.contains_key(name) implies (
            #[trigger] row[name] matches BindingModel::Node(n) ==> keep(name, n)) by {
                if let BindingModel::Node(n) = row[name] {
                    assert(passes(g, Seq::empty(), name, n));
                }
            }
        }
        assert(rows =~= rows.drop_last().push(row));
    }
}

// ---- Clauses ---------------------------------------------------------------------

/// A `MATCH` with and without early filtering.
proof fn lemma_match_related<G: GraphProvider>(
    g: &G,
    clauses: Seq<ClauseModel>,
    i: int,
    a: Seq<RowModel<G::NodeId>>,
    b: Seq<RowModel<G::NodeId>>,
    scope: Seq<Text>,
)
    requires
        0 <= i < clauses.len(),
        clauses[i] is Match,
        !clauses[i]->optional,
        related(a, b, keep_passing(g, pushed_from(clauses, i))),
        paths_agree(g, b, clauses[i]->patterns, 0),
        clause_rows(g, clauses, i, a, scope) is Ok,
        plain_clause_rows(g, clauses, i, b, scope) is Ok,
    ensures
        related(
            clause_rows(g, clauses, i, a, scope)->Ok_0,
            plain_clause_rows(g, clauses, i, b, scope)->Ok_0,
            keep_passing(g, pushed_from(clauses, i + 1)),
        ),
{
    let patterns = clauses[i]->patterns;
    let where_clause = clauses[i]->Match_where_clause;
    let pushed = pushed_from(clauses, i);
    let later = pushed_from(clauses, i + 1);
    let keep = keep_passing(g, pushed);
    lemma_paths_related(g, a, b, patterns, 0, keep);
    let x = match_paths(g, a, patterns, 0, keep)->Ok_0;
    let y = match_paths(g, b, patterns, 0, keep_all())->Ok_0;
    assert(pushed == where_pushable(where_clause) + later);
    match where_clause {
        None => {
            assert(Seq::<Pushable>::empty() + later =~= later);
        },
        Some(predicate) => {
            lemma_filter_holds(g, x, predicate);
            lemma_filter_holds(g, y, predicate);
            lemma_where_keepers(g, x, predicate, later);
            lemma_where_keepers(g, y, predicate, later);
            let u = holding(g, x, predicate);
            let v = holding(g, y, predicate);
            assert(clause_rows(g, clauses, i, a, scope)->Ok_0 == u) by {
                if x.len() == 0 {
                    assert(u =~= x);
                }
            }
            assert forall|r: RowModel<G::NodeId>| #[trigger] u.contains(r) implies v.contains(
                r,
            ) by {
                lemma_holding_among(g, x, predicate, r);
                lemma_holding_among(g, y, predicate, r);
            }
        },
    }
}

/// What an `OPTIONAL MATCH` makes of one row.
spec fn optional_one<G: GraphProvider>(
    g: &G,
    row: RowModel<G::NodeId>,
    patterns: Seq<PathModel>,
    where_clause: Option<ExprModel>,
    nulls: Seq<Text>,
) -> Seq<RowModel<G::NodeId>> {
    let matched = optional_matches(g, row, patterns, where_clause)->Ok_0;
    if matched.len() == 0 {
        seq![with_nulls(row, nulls)]
    } else {
        matched
    }
}

/// What an `OPTIONAL MATCH` makes of rows, row by row.
spec fn optional_each<G: GraphProvider>(
    g: &G,
    rows: Seq<RowModel<G::NodeId>>,
    patterns: Seq<PathModel>,
    where_clause: Option<ExprModel>,
    nulls: Seq<Text>,
) -> Seq<RowModel<G::NodeId>>
    decreases rows.len(),
{
    if rows.len() == 0 {
        rows
    } else {
        optional_each(g, rows.drop_last(), patterns, where_clause, nulls) + optional_one(
            g,
            rows.last(),
            patterns,
            where_clause,
            nulls,
        )
    }
}

proof fn lemma_optional_each<G: GraphProvider>(
    g: &G,
    rows: Seq<RowModel<G::NodeId>>,
    patterns: Seq<PathModel>,
    where_clause: Option<ExprModel>,
    nulls: Seq<Text>,
    i: int,
)
    requires
        0 <= i <= rows.len(),
        optional_rows(g, rows, patterns, where_clause, nulls, i) is Ok,
    ensures
        optional_each(g, rows, patterns, where_clause, nulls) == optional_each(
            g,
            rows.take(i),
            patterns,
            where_clause,
            nulls,
        ) + optional_rows(g, rows, patterns, where_clause, nulls, i)->Ok_0,
        forall|k: int|
            i <= k < rows.len() ==> optional_matches(
                g,
                #[trigger] rows[k],
                patterns,
                where_clause,
            ) is Ok,
    decreases rows.len() - i,
{
    let before = optional_each(g, rows.take(i), patterns, where_clause, nulls);
    if i < rows.len() {
        lemma_optional_each(g, rows, patterns, where_clause, nulls, i + 1);
        let more = rows.take(i + 1);
        assert(more.drop_last() =~= rows.take(i));
        assert(more.last() == rows[i]);
        let here = optional_one(g, rows[i], patterns, where_clause, nulls);
        let rest = optional_rows(g, rows, patterns, where_clause, nulls, i + 1)->Ok_0;
        assert((before + here) + rest =~= before + (here + rest));
    } else {
        assert(rows.take(i) =~= rows);
        assert(before + Seq::<RowModel<G::NodeId>>::empty() =~= before);
    }
}

/// Which rows are kept after an `OPTIONAL MATCH` depends only on which were kept before it.
proof fn lemma_optional_keepers<G: GraphProvider>(
    g: &G,
    rows: Seq<RowModel<G::NodeId>>,
    patterns: Seq<PathModel>,
    where_clause: Option<ExprModel>,
    nulls: Seq<Text>,
    keep: Keep<G::NodeId>,
)
    requires
        forall|k: int|
            0 <= k < rows.len() ==> optional_matches(
                g,
                #[trigger] rows[k],
                patterns,
                where_clause,
            ) is Ok && new_to(rows[k], nulls),
    ensures
        keepers(optional_each(g, rows, patterns, where_clause, nulls), keep) == keepers(
            optional_each(g, keepers(rows, keep), patterns, where_clause, nulls),
            keep,
        ),
    decreases rows.len(),
{
    if rows.len() > 0 {
        let init = rows.drop_last();
        let last = rows.last();
        assert(rows[rows.len() - 1] == last);
        assert forall|k: int| 0 <= k < init.len() implies optional_matches(
            g,
            #[trigger] init[k],
            patterns,
            where_clause,
        ) is Ok && new_to(init[k], nulls) by {
            assert(init[k] == rows[k]);
        }
        lemma_optional_keepers(g, init, patterns, where_clause, nulls, keep);
        let x = optional_each(g, init, patterns, where_clause, nulls);
        let y = optional_each(g, keepers(init, keep), patterns, where_clause, nulls);
        let here = optional_one(g, last, patterns, where_clause, nulls);
        lemma_keepers_concat(x, here, keep);
        lemma_keepers_concat(y, here, keep);
        if all_kept(last, keep) {
            assert(keepers(rows, keep).drop_last() =~= keepers(init, keep));
        } else {
            lemma_optional_one_grows(g, last, patterns, where_clause, nulls);
            lemma_none_kept(here, last, keep);
            assert(keepers(here, keep) =~= Seq::empty());
            assert(keepers(x, keep) + Seq::<RowModel<G::NodeId>>::empty() =~= keepers(x, keep));
        }
    }
}

proof fn lemma_optional_one_grows<G: GraphProvider>(
    g: &G,
    row: RowModel<G::NodeId>,
    patterns: Seq<PathModel>,
    where_clause: Option<ExprModel>,
    nulls: Seq<Text>,
)
    requires
        optional_matches(g, row, patterns, where_clause) is Ok,
        new_to(row, nulls),
    ensures
        forall|k: int|
            0 <= k < optional_one(g, row, patterns, where_clause, nulls).len() ==> row.submap_of(
                #[trigger] optional_one(g, row, patterns, where_clause, nulls)[k],
            ),
{
    let out = optional_one(g, row, patterns, where_clause, nulls);
    lemma_optional_matches_grow(g, row, patterns, where_clause);
    lemma_nulls_keep(row, nulls);
    let matched = optional_matches(g, row, patterns, where_clause)->Ok_0;
    assert forall|k: int| 0 <= k < out.len() implies row.submap_of(#[trigger] out[k]) by {
        if matched.len() > 0 {
            assert(grows_from(matched[k], seq![row]));
            assert(seq![row][0] == row);
        }
    }
}

proof fn lemma_optional_among<G: GraphProvider>(
    g: &G,
    rows: Seq<RowModel<G::NodeId>>,
    patterns: Seq<PathModel>,
    where_clause: Option<ExprModel>,
    nulls: Seq<Text>,
    r: RowModel<G::NodeId>,
)
    ensures
        optional_each(g, rows, patterns, where_clause, nulls).contains(r) <==> exists|
            x: RowModel<G::NodeId>,
        |
            rows.contains(x) && #[trigger] optional_one(
                g,
                x,
                patterns,
                where_clause,
                nulls,
            ).contains(r),
    decreases rows.len(),
{
    if rows.len() > 0 {
        let init = rows.drop_last();
        let last = rows.last();
        lemma_optional_among(g, init, patterns, where_clause, nulls, r);
        lemma_concat_contains(
            optional_each(g, init, patterns, where_clause, nulls),
            optional_one(g, last, patterns, where_clause, nulls),
            r,
        );
        assert(rows =~= init.push(last));
        assert forall|x: RowModel<G::NodeId>| rows.contains(x) <==> init.contains(x) || x
            == last by {
            lemma_push_contains(init, last, x);
        }
    }
}

/// An `OPTIONAL MATCH` of rows that are related.
proof fn lemma_optional_related<G: GraphProvider>(
    g: &G,
    a: Seq<RowModel<G::NodeId>>,
    b: Seq<RowModel<G::NodeId>>,
    patterns: Seq<PathModel>,
    where_clause: Option<ExprModel>,
    scope: Seq<Text>,
    keep: Keep<G::NodeId>,
)
    requires
        related(a, b, keep),
        rows_within(a, scope.to_set()),
        rows_within(b, scope.to_set()),
        optional_rows(g, a, patterns, where_clause, new_names(patterns, scope), 0) is Ok,
        optional_rows(g, b, patterns, where_clause, new_names(patterns, scope), 0) is Ok,
    ensures
        related(
            optional_rows(g, a, patterns, where_clause, new_names(patterns, scope), 0)->Ok_0,
            optional_rows(g, b, patterns, where_clause, new_names(patterns, scope), 0)->Ok_0,
            keep,
        ),
{
    let nulls = new_names(patterns, scope);
    lemma_new_names(patterns, scope);
    lemma_optional_whole(g, a, patterns, where_clause, scope);
    lemma_optional_whole(g, b, patterns, where_clause, scope);
    lemma_optional_keepers(g, a, patterns, where_clause, nulls, keep);
    lemma_optional_keepers(g, b, patterns, where_clause, nulls, keep);
    let x = optional_each(g, a, patterns, where_clause, nulls);
    let y = optional_each(g, b, patterns, where_clause, nulls);
    assert forall|r: RowModel<G::NodeId>| #[trigger] x.contains(r) implies y.contains(r) by {
        lemma_optional_among(g, a, patterns, where_clause, nulls, r);
        lemma_optional_among(g, b, patterns, where_clause, nulls, r);
        let row = choose|row: RowModel<G::NodeId>|
            a.contains(row) && #[trigger] optional_one(
                g,
                row,
                patterns,
                where_clause,
                nulls,
            ).contains(r);
        assert(b.contains(row));
    }
}

proof fn lemma_optional_whole<G: GraphProvider>(
    g: &G,
    rows: Seq<RowModel<G::NodeId>>,
    patterns: Seq<PathModel>,
    where_clause: Option<ExprModel>,
    scope: Seq<Text>,
)
    requires
        rows_within(rows, scope.to_set()),
        optional_rows(g, rows, patterns, where_clause, new_names(patterns, scope), 0) is Ok,
    ensures
        optional_rows(g, rows, patterns, where_clause, new_names(patterns, scope), 0)->Ok_0
            == optional_each(g, rows, patterns, where_clause, new_names(patterns, scope)),
        forall|k: int|
            0 <= k < rows.len() ==> optional_matches(
                g,
                #[trigger] rows[k],
                patterns,
                where_clause,
            ) is Ok && new_to(rows[k], new_names(patterns, scope)),
{
    let nulls = new_names(patterns, scope);
    lemma_optional_each(g, rows, patterns, where_clause, nulls, 0);
    assert(rows.take(0) =~= Seq::empty());
    let out = optional_rows(g, rows, patterns, where_clause, nulls, 0)->Ok_0;
    assert(optional_each(g, rows.take(0), patterns, where_clause, nulls) + out =~= out);
    lemma_new_names(patterns, scope);
    assert forall|k: int| 0 <= k < rows.len() implies optional_matches(
        g,
        #[trigger] rows[k],
        patterns,
        where_clause,
    ) is Ok && new_to(rows[k], nulls) by {
        assert(row_within(rows[k], scope.to_set()));
        assert forall|i: int| 0 <= i < nulls.len() implies !rows[k].contains_key(
            #[trigger] nulls[i],
        ) by {
            assert(!scope.contains(nulls[i]));
        }
    }
}

// ---- Errors ----------------------------------------------------------------------

/// A path can be matched if the graph knows its relationship types, whatever the rows are.
proof fn lemma_path_succeeds<G: GraphProvider>(
    g: &G,
    base: Seq<RowModel<G::NodeId>>,
    path: PathModel,
    keep: Keep<G::NodeId>,
)
    ensures
        match_path(g, base, path, keep) is Ok <==> types_known(g, path),
{
    lemma_rows_of_walks(g, base, planned(path, base), keep, Map::empty());
    if types_known(g, path) {
        lemma_types_known_reversed(g, path);
    }
    if types_known(g, reversed(path)) {
        lemma_types_known_reversed(g, reversed(path));
        lemma_reversed_twice(path);
    }
}

proof fn lemma_paths_succeed<G: GraphProvider>(
    g: &G,
    a: Seq<RowModel<G::NodeId>>,
    b: Seq<RowModel<G::NodeId>>,
    paths: Seq<PathModel>,
    i: int,
    keep: Keep<G::NodeId>,
)
    requires
        match_paths(g, b, paths, i, keep_all()) is Ok,
    ensures
        match_paths(g, a, paths, i, keep) is Ok,
    decreases paths.len() - i,
{
    if 0 <= i < paths.len() {
        lemma_path_succeeds(g, a, paths[i], keep);
        lemma_path_succeeds(g, b, paths[i], keep_all());
        lemma_paths_succeed(
            g,
            match_path(g, a, paths[i], keep)->Ok_0,
            match_path(g, b, paths[i], keep_all())->Ok_0,
            paths,
            i + 1,
            keep,
        );
    }
}

/// Rows can be filtered if the predicate has a value in each of them.
proof fn lemma_filter_succeeds<G: GraphProvider>(
    g: &G,
    rows: Seq<RowModel<G::NodeId>>,
    predicate: ExprModel,
    i: int,
)
    requires
        0 <= i <= rows.len(),
    ensures
        filter_from(g, rows, predicate, i) is Ok <==> forall|k: int|
            i <= k < rows.len() ==> eval(g, #[trigger] rows[k], predicate) is Ok,
    decreases rows.len() - i,
{
    if i < rows.len() {
        lemma_filter_succeeds(g, rows, predicate, i + 1);
        if filter_from(g, rows, predicate, i) is Ok {
            assert forall|k: int| i <= k < rows.len() implies eval(
                g,
                #[trigger] rows[k],
                predicate,
            ) is Ok by {
                assert(i == k || i + 1 <= k);
            }
        }
    }
}

proof fn lemma_fewer_filtered<G: GraphProvider>(
    g: &G,
    a: Seq<RowModel<G::NodeId>>,
    b: Seq<RowModel<G::NodeId>>,
    predicate: ExprModel,
)
    requires
        among_rows(a, b),
        filter_from(g, b, predicate, 0) is Ok,
    ensures
        filter_from(g, a, predicate, 0) is Ok,
{
    lemma_filter_succeeds(g, a, predicate, 0);
    lemma_filter_succeeds(g, b, predicate, 0);
    assert forall|k: int| 0 <= k < a.len() implies eval(g, #[trigger] a[k], predicate) is Ok by {
        assert(a.contains(a[k]));
        let j = choose|j: int| 0 <= j < b.len() && b[j] == a[k];
        assert(eval(g, b[j], predicate) is Ok);
    }
}

proof fn lemma_fewer_optional<G: GraphProvider>(
    g: &G,
    a: Seq<RowModel<G::NodeId>>,
    b: Seq<RowModel<G::NodeId>>,
    patterns: Seq<PathModel>,
    where_clause: Option<ExprModel>,
    nulls: Seq<Text>,
    i: int,
)
    requires
        among_rows(a, b),
        optional_rows(g, b, patterns, where_clause, nulls, 0) is Ok,
        0 <= i <= a.len(),
    ensures
        optional_rows(g, a, patterns, where_clause, nulls, i) is Ok,
    decreases a.len() - i,
{
    if i < a.len() {
        lemma_fewer_optional(g, a, b, patterns, where_clause, nulls, i + 1);
        lemma_optional_each(g, b, patterns, where_clause, nulls, 0);
        assert(a.contains(a[i]));
        let j = choose|j: int| 0 <= j < b.len() && b[j] == a[i];
        assert(optional_matches(g, b[j], patterns, where_clause) is Ok);
    }
}

/// The error of a list that the `WHERE` of the `j`-th clause allows to evaluate beforehand, on a
/// row with constant variables.
pub open spec fn list_error<G: GraphProvider>(
    g: &G,
    clauses: Seq<ClauseModel>,
    j: int,
    row: RowModel<G::NodeId>,
    constant: Set<Text>,
) -> Option<ErrorModel> {
    match clauses[j] {
        ClauseModel::Match { where_clause: Some(predicate), .. } => hoist_error(
            g,
            row,
            predicate,
            constant,
        ),
        _ => None,
    }
}

/// Whether an error is that of a list evaluated beforehand.
pub open spec fn from_list<G: GraphProvider>(
    g: &G,
    clauses: Seq<ClauseModel>,
    e: ErrorModel,
) -> bool {
    exists|j: int, row: RowModel<G::NodeId>, constant: Set<Text>|
        0 <= j < clauses.len() && #[trigger] list_error(g, clauses, j, row, constant) == Some(e)
}

/// A clause that succeeds without early filtering fails with it only on a list evaluated
/// beforehand.
proof fn lemma_clause_succeeds<G: GraphProvider>(
    g: &G,
    clauses: Seq<ClauseModel>,
    i: int,
    a: Seq<RowModel<G::NodeId>>,
    b: Seq<RowModel<G::NodeId>>,
    scope: Seq<Text>,
)
    requires
        0 <= i < clauses.len(),
        related(a, b, keep_passing(g, pushed_from(clauses, i))),
        clauses[i] matches ClauseModel::Match { optional: false, patterns, .. } ==> paths_agree(
            g,
            b,
            patterns,
            0,
        ),
        plain_clause_rows(g, clauses, i, b, scope) is Ok,
    ensures
        clause_rows(g, clauses, i, a, scope) matches Err(e) ==> from_list(g, clauses, e),
{
    match clauses[i] {
        ClauseModel::Match { optional, patterns, where_clause } => {
            if optional {
                let nulls = new_names(patterns, scope);
                lemma_fewer_optional(g, a, b, patterns, where_clause, nulls, 0);
            } else {
                let keep = keep_passing(g, pushed_from(clauses, i));
                lemma_paths_succeed(g, a, b, patterns, 0, keep);
                lemma_paths_related(g, a, b, patterns, 0, keep);
                if let Some(predicate) = where_clause {
                    let x = match_paths(g, a, patterns, 0, keep)->Ok_0;
                    let y = match_paths(g, b, patterns, 0, keep_all())->Ok_0;
                    lemma_fewer_filtered(g, x, y, predicate);
                    if let Err(e) = clause_rows(g, clauses, i, a, scope) {
                        assert(list_error(g, clauses, i, x[0], a[0].dom()) == Some(e));
                    }
                }
            }
        },
        _ => {
            lemma_keepers_all(g, a);
            lemma_keepers_all(g, b);
            assert(a == b);
        },
    }
}

// ---- Queries ---------------------------------------------------------------------

/// The runs with and without early filtering stay related, and end in the same rows.
proof fn lemma_runs_related<G: GraphProvider>(
    g: &G,
    clauses: Seq<ClauseModel>,
    i: int,
    a: Seq<RowModel<G::NodeId>>,
    b: Seq<RowModel<G::NodeId>>,
    scope: Seq<Text>,
)
    requires
        0 <= i <= clauses.len(),
        related(a, b, keep_passing(g, pushed_from(clauses, i))),
        rows_within(a, scope.to_set()),
        rows_within(b, scope.to_set()),
        clauses_agree(g, clauses, i, b, scope),
        plain_run(g, clauses, i, b, scope) is Ok,
    ensures
        match run_clauses(g, clauses, i, a, scope) {
            Ok(out) => plain_run(g, clauses, i, b, scope)->Ok_0 == out,
            Err(e) => from_list(g, clauses, e),
        },
    decreases clauses.len() - i,
{
    if i == clauses.len() {
        lemma_keepers_all(g, a);
        lemma_keepers_all(g, b);
    } else {
        lemma_clause_succeeds(g, clauses, i, a, b, scope);
        if let Ok(x) = clause_rows(g, clauses, i, a, scope) {
            let y = plain_clause_rows(g, clauses, i, b, scope)->Ok_0;
            let next = clause_scope(clauses[i], scope);
            let later = keep_passing(g, pushed_from(clauses, i + 1));
            lemma_clause_keeps_scope(g, clauses, i, a, scope);
            lemma_plain_keeps_scope(g, clauses, i, b, scope);
            match clauses[i] {
                ClauseModel::Match { optional, patterns, where_clause } => {
                    if optional {
                        assert(pushed_from(clauses, i) == pushed_from(clauses, i + 1));
                        lemma_optional_related(g, a, b, patterns, where_clause, scope, later);
                    } else {
                        lemma_match_related(g, clauses, i, a, b, scope);
                    }
                },
                _ => {
                    lemma_keepers_all(g, a);
                    lemma_keepers_all(g, b);
                    assert(a == b);
                },
            }
            assert(related(x, y, later));
            lemma_runs_related(g, clauses, i + 1, x, y, next);
        }
    }
}

proof fn lemma_plain_keeps_scope<G: GraphProvider>(
    g: &G,
    clauses: Seq<ClauseModel>,
    i: int,
    rows: Seq<RowModel<G::NodeId>>,
    scope: Seq<Text>,
)
    requires
        rows_within(rows, scope.to_set()),
    ensures
        plain_clause_rows(g, clauses, i, rows, scope) matches Ok(out) ==> rows_within(
            out,
            clause_scope(clauses[i], scope).to_set(),
        ),
{
    lemma_clause_keeps_scope(g, clauses, i, rows, scope);
    if let ClauseModel::Match { optional: false, patterns, where_clause } = clauses[i] {
        let after = clause_scope(clauses[i], scope).to_set();
        lemma_match_scope(g, rows, scope, patterns, keep_all());
        if let Ok(matched) = match_paths(g, rows, patterns, 0, keep_all()) {
            if let Some(predicate) = where_clause {
                lemma_filter_within(g, matched, predicate, 0, after);
            }
        }
    }
}

/// Early filtering does not change what a query gives. Where the clauses can be run without it, and
/// all rows agree on which end a path is walked from, the query gives the same result, row for row;
/// the one other outcome is the error of a list on the right of an `IN`, evaluated beforehand.
pub proof fn lemma_early_filtering_is_safe<G: GraphProvider>(g: &G, q: QueryModel)
    requires
        clauses_agree(g, q.clauses, 0, seq![Map::empty()], Seq::empty()),
        plain_run(g, q.clauses, 0, seq![Map::empty()], Seq::empty()) is Ok,
    ensures
        query_result(g, q) == plain_result(g, q) || (query_result(g, q) matches Err(e) && from_list(
            g,
            q.clauses,
            e,
        )),
{
    let rows: Seq<RowModel<G::NodeId>> = seq![Map::empty()];
    lemma_runs_related(g, q.clauses, 0, rows, rows, Seq::empty());
}

// ---- Rows in whatever order -------------------------------------------------------

/// Whether the rows that are kept come equally often, and no row of `a` is missing from `b`.
pub open spec fn bag_related<N>(a: Seq<RowModel<N>>, b: Seq<RowModel<N>>, keep: Keep<N>) -> bool {
    same_bag(keepers(a, keep), keepers(b, keep)) && among_rows(a, b)
}

/// Whether all rows bind only nodes of the graph.
pub open spec fn rows_in_graph<G: GraphProvider>(
    g: &G,
    rows: Seq<RowModel<G::NodeId>>,
) -> bool {
    forall|k: int| 0 <= k < rows.len() ==> row_in_graph(g, #[trigger] rows[k])
}

/// The kept rows of the same rows are the same.
proof fn lemma_keepers_permute<N>(a: Seq<RowModel<N>>, b: Seq<RowModel<N>>, keep: Keep<N>)
    requires
        same_bag(a, b),
    ensures
        same_bag(keepers(a, keep), keepers(b, keep)),
{
    let f = |r: RowModel<N>|
        if all_kept(r, keep) {
            seq![r]
        } else {
            Seq::empty()
        };
    lemma_keepers_as_flat(a, keep, f);
    lemma_keepers_as_flat(b, keep, f);
    lemma_flat_permutes(a, b, f);
}

proof fn lemma_keepers_as_flat<N>(
    rows: Seq<RowModel<N>>,
    keep: Keep<N>,
    f: spec_fn(RowModel<N>) -> Seq<RowModel<N>>,
)
    requires
        forall|r: RowModel<N>| #[trigger]
            f(r) == (if all_kept(r, keep) {
                seq![r]
            } else {
                Seq::empty()
            }),
    ensures
        keepers(rows, keep) == flat(rows, f),
    decreases rows.len(),
{
    if rows.len() > 0 {
        lemma_keepers_as_flat(rows.drop_last(), keep, f);
        let last = rows.last();
        assert(f(last) == (if all_kept(last, keep) {
            seq![last]
        } else {
            Seq::empty()
        }));
    }
    assert(keepers(rows, keep) =~= flat(rows, f));
}

/// The rows in which a predicate holds, of the same rows, are the same.
proof fn lemma_holding_permutes<G: GraphProvider>(
    g: &G,
    a: Seq<RowModel<G::NodeId>>,
    b: Seq<RowModel<G::NodeId>>,
    predicate: ExprModel,
)
    requires
        same_bag(a, b),
    ensures
        same_bag(holding(g, a, predicate), holding(g, b, predicate)),
{
    let f = |r: RowModel<G::NodeId>|
        if holds(g, r, predicate) {
            seq![r]
        } else {
            Seq::empty()
        };
    lemma_holding_as_flat(g, a, predicate, f);
    lemma_holding_as_flat(g, b, predicate, f);
    lemma_flat_permutes(a, b, f);
}

proof fn lemma_holding_as_flat<G: GraphProvider>(
    g: &G,
    rows: Seq<RowModel<G::NodeId>>,
    predicate: ExprModel,
    f: spec_fn(RowModel<G::NodeId>) -> Seq<RowModel<G::NodeId>>,
)
    requires
        forall|r: RowModel<G::NodeId>| #[trigger]
            f(r) == (if holds(g, r, predicate) {
                seq![r]
            } else {
                Seq::empty()
            }),
    ensures
        holding(g, rows, predicate) == flat(rows, f),
    decreases rows.len(),
{
    if rows.len() > 0 {
        lemma_holding_as_flat(g, rows.drop_last(), predicate, f);
        let last = rows.last();
        assert(f(last) == (if holds(g, last, predicate) {
            seq![last]
        } else {
            Seq::empty()
        }));
    }
    assert(holding(g, rows, predicate) =~= flat(rows, f));
}

/// Rows from which nothing kept comes may be left out.
proof fn lemma_flat_keepers<N>(
    rows: Seq<RowModel<N>>,
    keep: Keep<N>,
    f: spec_fn(RowModel<N>) -> Seq<RowModel<N>>,
)
    requires
        forall|k: int|
            0 <= k < rows.len() && !all_kept(#[trigger] rows[k], keep) ==> f(rows[k]).len() == 0,
    ensures
        flat(rows, f) == flat(keepers(rows, keep), f),
    decreases rows.len(),
{
    if rows.len() > 0 {
        let init = rows.drop_last();
        let last = rows.last();
        assert(rows[rows.len() - 1] == last);
        assert forall|k: int| 0 <= k < init.len() && !all_kept(#[trigger] init[k], keep) implies f(
            init[k],
        ).len() == 0 by {
            assert(init[k] == rows[k]);
        }
        lemma_flat_keepers(init, keep, f);
        let before = keepers(init, keep);
        if all_kept(last, keep) {
            assert(before.push(last).drop_last() =~= before);
        } else {
            assert(f(last) =~= Seq::empty());
            assert(flat(rows, f) =~= flat(init, f));
        }
    }
}

/// A path binds only nodes of the graph.
proof fn lemma_path_in_graph<G: GraphProvider>(
    g: &G,
    base: Seq<RowModel<G::NodeId>>,
    path: PathModel,
    keep: Keep<G::NodeId>,
)
    requires
        coherent(g),
        rows_in_graph(g, base),
    ensures
        match_as_written(g, base, path, keep) matches Ok(out) ==> rows_in_graph(g, out),
{
    if let Ok(out) = match_as_written(g, base, path, keep) {
        assert forall|k: int| 0 <= k < out.len() implies row_in_graph(g, #[trigger] out[k]) by {
            let r = out[k];
            assert(out.contains(r));
            lemma_rows_of_walks(g, base, path, keep, r);
            let (j, xs) = choose|j: int, xs: Seq<G::NodeId>|
                0 <= j < base.len() && xs.len() == path.rest.len() + 1 && #[trigger] chain(
                    g,
                    base[j],
                    path,
                    xs,
                    keep,
                ) && r == bound_row(base[j], path, xs);
            lemma_chain_along(g, base[j], path, xs, keep);
            lemma_bound_in_graph(g, base[j], path, xs, r);
        }
    }
}

proof fn lemma_bound_in_graph<G: GraphProvider>(
    g: &G,
    row: RowModel<G::NodeId>,
    path: PathModel,
    xs: Seq<G::NodeId>,
    r: RowModel<G::NodeId>,
)
    requires
        row_in_graph(g, row),
        along(g, path, xs),
        binds_exactly(row, path, xs, r),
    ensures
        row_in_graph(g, r),
{
    assert forall|name: Text| r.contains_key(name) implies (
    #[trigger] r[name] matches BindingModel::Node(n) ==> in_graph(g, n)) by {
        if row.contains_key(name) {
            assert(row.dom().contains(name) && r.dom().contains(name));
            assert(row[name] == r[name]);
        } else {
            let i = choose|i: int|
                #![trigger path_node(path, i)]
                0 <= i < xs.len() && path_node(path, i).var == Some(name);
            assert(path_node(path, i).var is Some);
            assert(r[name] == BindingModel::Node(xs[i]));
            assert(in_graph(g, xs[i]));
        }
    }
}

/// Without a filter, it has no part in which rows come out how often which end a path is walked
/// from.
proof fn lemma_ends_same_bag<G: GraphProvider>(
    g: &G,
    base: Seq<RowModel<G::NodeId>>,
    path: PathModel,
)
    requires
        coherent(g),
        scans_once(g),
        rows_in_graph(g, base),
        types_known(g, path),
    ensures
        same_bag(
            match_as_written(g, base, path, keep_all())->Ok_0,
            match_as_written(g, base, reversed(path), keep_all())->Ok_0,
        ),
{
    lemma_reversal_same_multiset(g, base, path, keep_all());
    lemma_all_are_keepers(match_as_written(g, base, path, keep_all())->Ok_0);
    lemma_all_are_keepers(match_as_written(g, base, reversed(path), keep_all())->Ok_0);
}

/// The kept rows that a path makes of rows are those that it makes of the kept ones.
proof fn lemma_written_bag<G: GraphProvider>(
    g: &G,
    a: Seq<RowModel<G::NodeId>>,
    b: Seq<RowModel<G::NodeId>>,
    path: PathModel,
    keep: Keep<G::NodeId>,
)
    requires
        same_bag(keepers(a, keep), keepers(b, keep)),
        types_known(g, path),
    ensures
        same_bag(
            keepers(match_as_written(g, a, path, keep_all())->Ok_0, keep),
            keepers(match_as_written(g, b, path, keep_all())->Ok_0, keep),
        ),
{
    let f = of_one(g, path, keep_all());
    let u = |row: RowModel<G::NodeId>| keepers(f(row), keep);
    lemma_rows_one_by_one(g, a, path, keep_all());
    lemma_rows_one_by_one(g, b, path, keep_all());
    lemma_keepers_flat(a, f, keep);
    lemma_keepers_flat(b, f, keep);
    assert forall|row: RowModel<G::NodeId>| !all_kept(row, keep) implies #[trigger] u(row).len()
        == 0 by {
        lemma_rows_of_walks(g, seq![row], path, keep_all(), row);
        let out = f(row);
        lemma_grow_from_self(seq![row]);
        lemma_match_grows(g, row, path);
        assert forall|k: int| 0 <= k < out.len() implies row.submap_of(#[trigger] out[k]) by {
            assert(grows_from(out[k], seq![row]));
        }
        lemma_none_kept(out, row, keep);
    }
    lemma_flat_keepers(a, keep, u);
    lemma_flat_keepers(b, keep, u);
    lemma_flat_permutes(keepers(a, keep), keepers(b, keep), u);
}

/// What a path makes of a row keeps its bindings.
proof fn lemma_match_grows<G: GraphProvider>(g: &G, row: RowModel<G::NodeId>, path: PathModel)
    ensures
        match_as_written(g, seq![row], path, keep_all()) matches Ok(out) ==> all_grow_from(
            out,
            seq![row],
        ),
{
    if let Ok(out) = match_as_written(g, seq![row], path, keep_all()) {
        assert forall|k: int| 0 <= k < out.len() implies grows_from(
            #[trigger] out[k],
            seq![row],
        ) by {
            let r = out[k];
            assert(out.contains(r));
            lemma_rows_of_walks(g, seq![row], path, keep_all(), r);
            let (j, xs) = choose|j: int, xs: Seq<G::NodeId>|
                0 <= j < seq![row].len() && xs.len() == path.rest.len() + 1 && #[trigger] chain(
                    g,
                    seq![row][j],
                    path,
                    xs,
                    keep_all(),
                ) && r == bound_row(seq![row][j], path, xs);
            lemma_chain_grows(g, row, path, xs);
            assert(seq![row][0] == row);
        }
    }
}

proof fn lemma_chain_grows<G: GraphProvider>(
    g: &G,
    row: RowModel<G::NodeId>,
    path: PathModel,
    xs: Seq<G::NodeId>,
)
    requires
        chain(g, row, path, xs, keep_all()),
    ensures
        row.submap_of(bound_row(row, path, xs)),
    decreases xs.len(),
{
    let init = xs.drop_last();
    let before = bound_row(row, path, init);
    let r = bound_row(row, path, xs);
    let p = path_node(path, xs.len() - 1);
    if xs.len() == 1 {
        assert(init =~= Seq::empty());
        assert(before == row);
        let found = candidates(g, row, path.start, keep_all());
        let i = choose|i: int| 0 <= i < found.len() && found[i] == xs[0];
        lemma_candidates_bound(g, row, path.start, keep_all(), i);
        assert(xs.last() == xs[0]);
        assert(p == path.start);
    } else {
        lemma_chain_grows(g, row, path, init);
        assert forall|name: Text| #[trigger] row.dom().contains(name) implies #[trigger]
            r.dom().contains(name) && row[name] == r[name] by {
            assert(before.dom().contains(name));
            assert(row[name] == before[name]);
        }
    }
}

/// One path, with and without early filtering.
proof fn lemma_path_bag<G: GraphProvider>(
    g: &G,
    a: Seq<RowModel<G::NodeId>>,
    b: Seq<RowModel<G::NodeId>>,
    path: PathModel,
    keep: Keep<G::NodeId>,
)
    requires
        coherent(g),
        scans_once(g),
        rows_in_graph(g, a),
        rows_in_graph(g, b),
        bag_related(a, b, keep),
        types_known(g, path),
    ensures
        match_path(g, a, path, keep) is Ok,
        match_path(g, b, path, keep_all()) is Ok,
        bag_related(
            match_path(g, a, path, keep)->Ok_0,
            match_path(g, b, path, keep_all())->Ok_0,
            keep,
        ),
        rows_in_graph(g, match_path(g, a, path, keep)->Ok_0),
        rows_in_graph(g, match_path(g, b, path, keep_all())->Ok_0),
{
    lemma_types_known_reversed(g, path);
    let mine = planned(path, a);
    let plain = planned(path, b);
    lemma_path_succeeds(g, a, path, keep);
    lemma_path_succeeds(g, b, path, keep_all());
    lemma_path_in_graph(g, a, mine, keep);
    lemma_path_in_graph(g, b, plain, keep_all());
    let x = match_path(g, a, path, keep)->Ok_0;
    let y = match_path(g, b, path, keep_all())->Ok_0;
    lemma_rows_of_walks(g, a, mine, keep_all(), Map::empty());
    lemma_rows_of_walks(g, b, mine, keep_all(), Map::empty());
    lemma_rows_of_walks(g, b, path, keep_all(), Map::empty());
    let a_all = match_as_written(g, a, mine, keep_all())->Ok_0;
    let b_all = match_as_written(g, b, mine, keep_all())->Ok_0;
    lemma_written(g, a, a, mine, keep);
    assert(keepers(x, keep) == keepers(a_all, keep));
    lemma_written_bag(g, a, b, mine, keep);
    lemma_ends_same_bag(g, b, path);
    assert(same_bag(b_all, y));
    lemma_keepers_permute(b_all, y, keep);
    lemma_fewer_written(g, a, b, mine, keep);
    assert forall|r: RowModel<G::NodeId>| #[trigger] x.contains(r) implies y.contains(r) by {
        assert(b_all.contains(r));
        lemma_same_bag_contains(b_all, y, r);
    }
}

proof fn lemma_paths_bag<G: GraphProvider>(
    g: &G,
    a: Seq<RowModel<G::NodeId>>,
    b: Seq<RowModel<G::NodeId>>,
    paths: Seq<PathModel>,
    i: int,
    keep: Keep<G::NodeId>,
)
    requires
        coherent(g),
        scans_once(g),
        rows_in_graph(g, a),
        rows_in_graph(g, b),
        bag_related(a, b, keep),
        match_paths(g, b, paths, i, keep_all()) is Ok,
    ensures
        match_paths(g, a, paths, i, keep) is Ok,
        bag_related(
            match_paths(g, a, paths, i, keep)->Ok_0,
            match_paths(g, b, paths, i, keep_all())->Ok_0,
            keep,
        ),
        rows_in_graph(g, match_paths(g, a, paths, i, keep)->Ok_0),
        rows_in_graph(g, match_paths(g, b, paths, i, keep_all())->Ok_0),
    decreases paths.len() - i,
{
    if 0 <= i < paths.len() {
        lemma_path_succeeds(g, b, paths[i], keep_all());
        lemma_path_bag(g, a, b, paths[i], keep);
        lemma_paths_bag(
            g,
            match_path(g, a, paths[i], keep)->Ok_0,
            match_path(g, b, paths[i], keep_all())->Ok_0,
            paths,
            i + 1,
            keep,
        );
    }
}

proof fn lemma_holding_in_graph<G: GraphProvider>(
    g: &G,
    rows: Seq<RowModel<G::NodeId>>,
    predicate: ExprModel,
)
    requires
        rows_in_graph(g, rows),
    ensures
        rows_in_graph(g, holding(g, rows, predicate)),
{
    let out = holding(g, rows, predicate);
    assert forall|k: int| 0 <= k < out.len() implies row_in_graph(g, #[trigger] out[k]) by {
        lemma_holding_among(g, rows, predicate, out[k]);
        assert(out.contains(out[k]));
        let j = choose|j: int| 0 <= j < rows.len() && rows[j] == out[k];
        assert(row_in_graph(g, rows[j]));
    }
}

/// A `MATCH`, with and without early filtering.
proof fn lemma_match_bag<G: GraphProvider>(
    g: &G,
    clauses: Seq<ClauseModel>,
    i: int,
    a: Seq<RowModel<G::NodeId>>,
    b: Seq<RowModel<G::NodeId>>,
    scope: Seq<Text>,
)
    requires
        0 <= i < clauses.len(),
        clauses[i] is Match,
        !clauses[i]->optional,
        coherent(g),
        scans_once(g),
        rows_in_graph(g, a),
        rows_in_graph(g, b),
        bag_related(a, b, keep_passing(g, pushed_from(clauses, i))),
        plain_clause_rows(g, clauses, i, b, scope) is Ok,
    ensures
        match clause_rows(g, clauses, i, a, scope) {
            Ok(x) => bag_related(
                x,
                plain_clause_rows(g, clauses, i, b, scope)->Ok_0,
                keep_passing(g, pushed_from(clauses, i + 1)),
            ) && rows_in_graph(g, x) && rows_in_graph(
                g,
                plain_clause_rows(g, clauses, i, b, scope)->Ok_0,
            ),
            Err(e) => from_list(g, clauses, e),
        },
{
    let patterns = clauses[i]->patterns;
    let where_clause = clauses[i]->Match_where_clause;
    let pushed = pushed_from(clauses, i);
    let later = pushed_from(clauses, i + 1);
    let keep = keep_passing(g, pushed);
    lemma_paths_bag(g, a, b, patterns, 0, keep);
    let x = match_paths(g, a, patterns, 0, keep)->Ok_0;
    let y = match_paths(g, b, patterns, 0, keep_all())->Ok_0;
    assert(pushed == where_pushable(where_clause) + later);
    match where_clause {
        None => {
            assert(Seq::<Pushable>::empty() + later =~= later);
        },
        Some(predicate) => {
            lemma_fewer_filtered(g, x, y, predicate);
            lemma_filter_holds(g, x, predicate);
            lemma_filter_holds(g, y, predicate);
            if let Err(e) = clause_rows(g, clauses, i, a, scope) {
                assert(list_error(g, clauses, i, x[0], a[0].dom()) == Some(e));
            } else {
                let u = holding(g, x, predicate);
                let v = holding(g, y, predicate);
                assert(clause_rows(g, clauses, i, a, scope)->Ok_0 == u) by {
                    if x.len() == 0 {
                        assert(u =~= x);
                    }
                }
                lemma_where_keepers(g, x, predicate, later);
                lemma_where_keepers(g, y, predicate, later);
                lemma_holding_permutes(g, keepers(x, keep), keepers(y, keep), predicate);
                lemma_holding_in_graph(g, x, predicate);
                lemma_holding_in_graph(g, y, predicate);
                assert forall|r: RowModel<G::NodeId>| #[trigger] u.contains(r) implies v.contains(
                    r,
                ) by {
                    lemma_holding_among(g, x, predicate, r);
                    lemma_holding_among(g, y, predicate, r);
                }
            }
        },
    }
}

proof fn lemma_optional_flat<G: GraphProvider>(
    g: &G,
    rows: Seq<RowModel<G::NodeId>>,
    patterns: Seq<PathModel>,
    where_clause: Option<ExprModel>,
    nulls: Seq<Text>,
)
    ensures
        optional_each(g, rows, patterns, where_clause, nulls) == flat(
            rows,
            |r: RowModel<G::NodeId>| optional_one(g, r, patterns, where_clause, nulls),
        ),
    decreases rows.len(),
{
    if rows.len() > 0 {
        lemma_optional_flat(g, rows.drop_last(), patterns, where_clause, nulls);
    } else {
        assert(rows =~= Seq::empty());
    }
}

proof fn lemma_nulls_in_graph<G: GraphProvider>(
    g: &G,
    row: RowModel<G::NodeId>,
    names: Seq<Text>,
)
    requires
        row_in_graph(g, row),
    ensures
        row_in_graph(g, with_nulls(row, names)),
    decreases names.len(),
{
    if names.len() > 0 {
        lemma_nulls_in_graph(g, row, names.drop_last());
    }
}

proof fn lemma_optional_one_in_graph<G: GraphProvider>(
    g: &G,
    row: RowModel<G::NodeId>,
    patterns: Seq<PathModel>,
    where_clause: Option<ExprModel>,
    nulls: Seq<Text>,
)
    requires
        coherent(g),
        scans_once(g),
        row_in_graph(g, row),
        optional_matches(g, row, patterns, where_clause) is Ok,
    ensures
        rows_in_graph(g, optional_one(g, row, patterns, where_clause, nulls)),
{
    let one = seq![row];
    lemma_nulls_in_graph(g, row, nulls);
    assert(rows_in_graph(g, one));
    lemma_paths_bag(g, one, one, patterns, 0, keep_all());
    if let Some(predicate) = where_clause {
        let found = match_paths(g, one, patterns, 0, keep_all())->Ok_0;
        lemma_filter_holds(g, found, predicate);
        lemma_holding_in_graph(g, found, predicate);
    }
}

proof fn lemma_optional_in_graph<G: GraphProvider>(
    g: &G,
    rows: Seq<RowModel<G::NodeId>>,
    patterns: Seq<PathModel>,
    where_clause: Option<ExprModel>,
    nulls: Seq<Text>,
)
    requires
        coherent(g),
        scans_once(g),
        rows_in_graph(g, rows),
        forall|k: int|
            0 <= k < rows.len() ==> optional_matches(
                g,
                #[trigger] rows[k],
                patterns,
                where_clause,
            ) is Ok,
    ensures
        rows_in_graph(g, optional_each(g, rows, patterns, where_clause, nulls)),
{
    let out = optional_each(g, rows, patterns, where_clause, nulls);
    assert forall|k: int| 0 <= k < out.len() implies row_in_graph(g, #[trigger] out[k]) by {
        let r = out[k];
        assert(out.contains(r));
        lemma_optional_among(g, rows, patterns, where_clause, nulls, r);
        let x = choose|x: RowModel<G::NodeId>|
            rows.contains(x) && #[trigger] optional_one(
                g,
                x,
                patterns,
                where_clause,
                nulls,
            ).contains(r);
        let j = choose|j: int| 0 <= j < rows.len() && rows[j] == x;
        assert(row_in_graph(g, rows[j]));
        lemma_optional_one_in_graph(g, x, patterns, where_clause, nulls);
        let made = optional_one(g, x, patterns, where_clause, nulls);
        let i = choose|i: int| 0 <= i < made.len() && made[i] == r;
        assert(row_in_graph(g, made[i]));
    }
}

/// An `OPTIONAL MATCH`, with and without early filtering before it.
proof fn lemma_optional_bag<G: GraphProvider>(
    g: &G,
    a: Seq<RowModel<G::NodeId>>,
    b: Seq<RowModel<G::NodeId>>,
    patterns: Seq<PathModel>,
    where_clause: Option<ExprModel>,
    scope: Seq<Text>,
    keep: Keep<G::NodeId>,
)
    requires
        coherent(g),
        scans_once(g),
        rows_in_graph(g, a),
        rows_in_graph(g, b),
        bag_related(a, b, keep),
        rows_within(a, scope.to_set()),
        rows_within(b, scope.to_set()),
        optional_rows(g, b, patterns, where_clause, new_names(patterns, scope), 0) is Ok,
    ensures
        optional_rows(g, a, patterns, where_clause, new_names(patterns, scope), 0) is Ok,
        bag_related(
            optional_rows(g, a, patterns, where_clause, new_names(patterns, scope), 0)->Ok_0,
            optional_rows(g, b, patterns, where_clause, new_names(patterns, scope), 0)->Ok_0,
            keep,
        ),
        rows_in_graph(
            g,
            optional_rows(g, a, patterns, where_clause, new_names(patterns, scope), 0)->Ok_0,
        ),
        rows_in_graph(
            g,
            optional_rows(g, b, patterns, where_clause, new_names(patterns, scope), 0)->Ok_0,
        ),
{
    let nulls = new_names(patterns, scope);
    let f = |r: RowModel<G::NodeId>| optional_one(g, r, patterns, where_clause, nulls);
    lemma_fewer_optional(g, a, b, patterns, where_clause, nulls, 0);
    lemma_optional_whole(g, a, patterns, where_clause, scope);
    lemma_optional_whole(g, b, patterns, where_clause, scope);
    lemma_optional_keepers(g, a, patterns, where_clause, nulls, keep);
    lemma_optional_keepers(g, b, patterns, where_clause, nulls, keep);
    let p = keepers(a, keep);
    let q = keepers(b, keep);
    lemma_optional_flat(g, p, patterns, where_clause, nulls);
    lemma_optional_flat(g, q, patterns, where_clause, nulls);
    lemma_flat_permutes(p, q, f);
    lemma_keepers_permute(
        optional_each(g, p, patterns, where_clause, nulls),
        optional_each(g, q, patterns, where_clause, nulls),
        keep,
    );
    lemma_optional_in_graph(g, a, patterns, where_clause, nulls);
    lemma_optional_in_graph(g, b, patterns, where_clause, nulls);
    let x = optional_each(g, a, patterns, where_clause, nulls);
    let y = optional_each(g, b, patterns, where_clause, nulls);
    assert forall|r: RowModel<G::NodeId>| #[trigger] x.contains(r) implies y.contains(r) by {
        lemma_optional_among(g, a, patterns, where_clause, nulls, r);
        lemma_optional_among(g, b, patterns, where_clause, nulls, r);
        let row = choose|row: RowModel<G::NodeId>|
            a.contains(row) && #[trigger] optional_one(
                g,
                row,
                patterns,
                where_clause,
                nulls,
            ).contains(r);
        assert(b.contains(row));
    }
}

/// What an `UNWIND` makes of one row.
spec fn unwind_one<G: GraphProvider>(
    g: &G,
    row: RowModel<G::NodeId>,
    e: ExprModel,
    var: Text,
) -> Seq<RowModel<G::NodeId>> {
    match eval(g, row, e) {
        Ok(ValueModel::List(items)) => unwound(row, var, items),
        _ => Seq::empty(),
    }
}

/// Whether an `UNWIND` can be applied to a row.
spec fn unwinds<G: GraphProvider>(g: &G, row: RowModel<G::NodeId>, e: ExprModel) -> bool {
    eval(g, row, e) matches Ok(v) && (v is List || v is Null)
}

proof fn lemma_unwind_flat<G: GraphProvider>(
    g: &G,
    rows: Seq<RowModel<G::NodeId>>,
    e: ExprModel,
    var: Text,
    i: int,
)
    requires
        0 <= i <= rows.len(),
    ensures
        unwind_rows(g, rows, e, var, i) is Ok <==> forall|k: int|
            i <= k < rows.len() ==> unwinds(g, #[trigger] rows[k], e),
        unwind_rows(g, rows, e, var, i) matches Ok(out) ==> flat(
            rows,
            |r: RowModel<G::NodeId>| unwind_one(g, r, e, var),
        ) == flat(rows.take(i), |r: RowModel<G::NodeId>| unwind_one(g, r, e, var)) + out,
    decreases rows.len() - i,
{
    let f = |r: RowModel<G::NodeId>| unwind_one(g, r, e, var);
    if i < rows.len() {
        lemma_unwind_flat(g, rows, e, var, i + 1);
        let more = rows.take(i + 1);
        assert(more.drop_last() =~= rows.take(i));
        assert(more.last() == rows[i]);
        let before = flat(rows.take(i), f);
        assert(flat(more, f) == before + f(rows[i]));
        if let Ok(out) = unwind_rows(g, rows, e, var, i) {
            let rest = unwind_rows(g, rows, e, var, i + 1)->Ok_0;
            assert(before + f(rows[i]) + rest =~= before + (f(rows[i]) + rest));
            assert(out =~= f(rows[i]) + rest);
            assert forall|k: int| i <= k < rows.len() implies unwinds(g, #[trigger] rows[k], e) by {
                assert(k == i || i + 1 <= k);
            }
        } else {
            if forall|k: int| i <= k < rows.len() ==> unwinds(g, #[trigger] rows[k], e) {
                assert(unwinds(g, rows[i], e));
                assert(false);
            }
        }
    } else {
        assert(rows.take(i) =~= rows);
        assert(flat(rows, f) + Seq::<RowModel<G::NodeId>>::empty() =~= flat(rows, f));
    }
}

/// An `UNWIND` of the same rows.
proof fn lemma_unwind_bag<G: GraphProvider>(
    g: &G,
    a: Seq<RowModel<G::NodeId>>,
    b: Seq<RowModel<G::NodeId>>,
    e: ExprModel,
    var: Text,
)
    requires
        same_bag(a, b),
        rows_in_graph(g, a),
        rows_in_graph(g, b),
        unwind_rows(g, b, e, var, 0) is Ok,
    ensures
        unwind_rows(g, a, e, var, 0) is Ok,
        same_bag(unwind_rows(g, a, e, var, 0)->Ok_0, unwind_rows(g, b, e, var, 0)->Ok_0),
        rows_in_graph(g, unwind_rows(g, a, e, var, 0)->Ok_0),
        rows_in_graph(g, unwind_rows(g, b, e, var, 0)->Ok_0),
{
    let f = |r: RowModel<G::NodeId>| unwind_one(g, r, e, var);
    lemma_unwind_flat(g, a, e, var, 0);
    lemma_unwind_flat(g, b, e, var, 0);
    assert forall|k: int| 0 <= k < a.len() implies unwinds(g, #[trigger] a[k], e) by {
        assert(a.contains(a[k]));
        lemma_same_bag_contains(a, b, a[k]);
        let j = choose|j: int| 0 <= j < b.len() && b[j] == a[k];
        assert(unwinds(g, b[j], e));
    }
    assert(a.take(0) =~= Seq::empty());
    assert(b.take(0) =~= Seq::empty());
    let x = unwind_rows(g, a, e, var, 0)->Ok_0;
    let y = unwind_rows(g, b, e, var, 0)->Ok_0;
    assert(Seq::<RowModel<G::NodeId>>::empty() + x =~= x);
    assert(Seq::<RowModel<G::NodeId>>::empty() + y =~= y);
    lemma_flat_permutes(a, b, f);
    lemma_unwind_in_graph(g, a, e, var);
    lemma_unwind_in_graph(g, b, e, var);
}

proof fn lemma_unwind_in_graph<G: GraphProvider>(
    g: &G,
    rows: Seq<RowModel<G::NodeId>>,
    e: ExprModel,
    var: Text,
)
    requires
        rows_in_graph(g, rows),
    ensures
        rows_in_graph(g, flat(rows, |r: RowModel<G::NodeId>| unwind_one(g, r, e, var))),
    decreases rows.len(),
{
    let f = |r: RowModel<G::NodeId>| unwind_one(g, r, e, var);
    if rows.len() > 0 {
        let init = rows.drop_last();
        let last = rows.last();
        assert(rows[rows.len() - 1] == last);
        assert forall|k: int| 0 <= k < init.len() implies row_in_graph(g, #[trigger] init[k]) by {
            assert(init[k] == rows[k]);
        }
        lemma_unwind_in_graph(g, init, e, var);
        let before = flat(init, f);
        let out = flat(rows, f);
        assert forall|k: int| 0 <= k < out.len() implies row_in_graph(g, #[trigger] out[k]) by {
            if k < before.len() {
                assert(out[k] == before[k]);
            } else {
                let items = eval(g, last, e)->Ok_0->List_0;
                assert(out[k] == unwound(last, var, items)[k - before.len()]);
            }
        }
    }
}

// ---- Clauses up to a projection ----------------------------------------------------

/// The rows after the clauses from position `i` up to and without position `j`.
pub open spec fn part_rows<G: GraphProvider>(
    g: &G,
    clauses: Seq<ClauseModel>,
    i: int,
    j: int,
    rows: Seq<RowModel<G::NodeId>>,
    scope: Seq<Text>,
) -> Result<Seq<RowModel<G::NodeId>>, ErrorModel>
    decreases j - i,
{
    if i >= j {
        Ok(rows)
    } else {
        match clause_rows(g, clauses, i, rows, scope) {
            Err(e) => Err(e),
            Ok(next) => part_rows(g, clauses, i + 1, j, next, clause_scope(clauses[i], scope)),
        }
    }
}

/// These rows when nothing is filtered early.
pub open spec fn plain_part<G: GraphProvider>(
    g: &G,
    clauses: Seq<ClauseModel>,
    i: int,
    j: int,
    rows: Seq<RowModel<G::NodeId>>,
    scope: Seq<Text>,
) -> Result<Seq<RowModel<G::NodeId>>, ErrorModel>
    decreases j - i,
{
    if i >= j {
        Ok(rows)
    } else {
        match plain_clause_rows(g, clauses, i, rows, scope) {
            Err(e) => Err(e),
            Ok(next) => plain_part(g, clauses, i + 1, j, next, clause_scope(clauses[i], scope)),
        }
    }
}

proof fn lemma_part_bag<G: GraphProvider>(
    g: &G,
    clauses: Seq<ClauseModel>,
    i: int,
    j: int,
    a: Seq<RowModel<G::NodeId>>,
    b: Seq<RowModel<G::NodeId>>,
    scope: Seq<Text>,
)
    requires
        0 <= i <= j <= clauses.len(),
        coherent(g),
        scans_once(g),
        rows_in_graph(g, a),
        rows_in_graph(g, b),
        rows_within(a, scope.to_set()),
        rows_within(b, scope.to_set()),
        bag_related(a, b, keep_passing(g, pushed_from(clauses, i))),
        forall|k: int| i <= k < j ==> !((#[trigger] clauses[k]) is With),
        plain_part(g, clauses, i, j, b, scope) is Ok,
    ensures
        match part_rows(g, clauses, i, j, a, scope) {
            Ok(x) => bag_related(
                x,
                plain_part(g, clauses, i, j, b, scope)->Ok_0,
                keep_passing(g, pushed_from(clauses, j)),
            ),
            Err(e) => from_list(g, clauses, e),
        },
    decreases j - i,
{
    if i < j {
        let y = plain_clause_rows(g, clauses, i, b, scope)->Ok_0;
        let next = clause_scope(clauses[i], scope);
        let later = keep_passing(g, pushed_from(clauses, i + 1));
        lemma_clause_keeps_scope(g, clauses, i, a, scope);
        lemma_plain_keeps_scope(g, clauses, i, b, scope);
        match clauses[i] {
            ClauseModel::Match { optional, patterns, where_clause } => {
                if optional {
                    assert(pushed_from(clauses, i) == pushed_from(clauses, i + 1));
                    lemma_optional_bag(g, a, b, patterns, where_clause, scope, later);
                } else {
                    lemma_match_bag(g, clauses, i, a, b, scope);
                }
            },
            ClauseModel::Unwind { expr, var } => {
                lemma_keepers_all(g, a);
                lemma_keepers_all(g, b);
                lemma_unwind_bag(g, a, b, expr, var);
                let x = unwind_rows(g, a, expr, var, 0)->Ok_0;
                lemma_keepers_permute(x, y, later);
                assert forall|r: RowModel<G::NodeId>| #[trigger] x.contains(r) implies y.contains(
                    r,
                ) by {
                    lemma_same_bag_contains(x, y, r);
                }
            },
            ClauseModel::With { .. } => {
                assert(clauses[i] is With);
            },
        }
        if let Ok(x) = clause_rows(g, clauses, i, a, scope) {
            lemma_part_bag(g, clauses, i + 1, j, x, y, next);
        }
    }
}

/// Early filtering loses no row and adds none, whichever ends the paths are walked from. From the
/// same rows, the clauses up to a projection, to an `UNWIND` or to the end make the same multiset
/// of rows with it and without it; the one other outcome is the error of a list on the right of an
/// `IN`, evaluated beforehand.
pub proof fn lemma_early_filtering_same_multiset<G: GraphProvider>(
    g: &G,
    clauses: Seq<ClauseModel>,
    i: int,
    j: int,
    rows: Seq<RowModel<G::NodeId>>,
    scope: Seq<Text>,
)
    requires
        0 <= i <= j <= clauses.len(),
        coherent(g),
        scans_once(g),
        rows_in_graph(g, rows),
        rows_within(rows, scope.to_set()),
        forall|k: int| i <= k < j ==> !((#[trigger] clauses[k]) is With),
        j == clauses.len() || !(clauses[j] is Match),
        plain_part(g, clauses, i, j, rows, scope) is Ok,
    ensures
        match part_rows(g, clauses, i, j, rows, scope) {
            Ok(out) => out.to_multiset() == plain_part(
                g,
                clauses,
                i,
                j,
                rows,
                scope,
            )->Ok_0.to_multiset(),
            Err(e) => from_list(g, clauses, e),
        },
{
    lemma_part_bag(g, clauses, i, j, rows, rows, scope);
    if let Ok(out) = part_rows(g, clauses, i, j, rows, scope) {
        lemma_keepers_all(g, out);
        lemma_keepers_all(g, plain_part(g, clauses, i, j, rows, scope)->Ok_0);
    }
}

/// The rows after all clauses are those of the part that ends with the last one.
pub proof fn lemma_part_is_run<G: GraphProvider>(
    g: &G,
    clauses: Seq<ClauseModel>,
    i: int,
    rows: Seq<RowModel<G::NodeId>>,
    scope: Seq<Text>,
)
    requires
        0 <= i <= clauses.len(),
    ensures
        match run_clauses(g, clauses, i, rows, scope) {
            Ok((out, _)) => part_rows(g, clauses, i, clauses.len() as int, rows, scope) == Ok::<
                Seq<RowModel<G::NodeId>>,
                ErrorModel,
            >(out),
            Err(e) => part_rows(g, clauses, i, clauses.len() as int, rows, scope) == Err::<
                Seq<RowModel<G::NodeId>>,
                ErrorModel,
            >(e),
        },
    decreases clauses.len() - i,
{
    if i < clauses.len() {
        if let Ok(next) = clause_rows(g, clauses, i, rows, scope) {
            lemma_part_is_run(g, clauses, i + 1, next, clause_scope(clauses[i], scope));
        }
    }
}

} // verus!
