//! Which variables an expression refers to, and what can be said of its value beforehand.

use vstd::prelude::*;

use crate::ast::{
    branch_models, expr_models, map_entry_models, opt_expr_model, Expr, ExprModel, MapEntry,
    MapEntryModel,
};
use crate::eval::{binding_of, eval, eval_all, eval_entries, first_value, pick_branch};
use crate::provider::GraphProvider;
use crate::row::{BindingModel, RowModel};
use crate::text::{has_name, lemma_texts_push, texts, Text};
use crate::value::ValueModel;
use crate::seqs::lemma_push_contains;

verus! {

/// Whether an expression contains neither an aggregate nor an `EXISTS` subquery.
pub open spec fn plain(e: ExprModel) -> bool
    decreases e,
{
    match e {
        ExprModel::Var(_) => true,
        ExprModel::Property(_, _) => true,
        ExprModel::Literal(_) => true,
        ExprModel::List(items) => all_plain(items),
        ExprModel::Not(x) => plain(*x),
        ExprModel::IsNull(x, _) => plain(*x),
        ExprModel::And(x, y) => plain(*x) && plain(*y),
        ExprModel::Or(x, y) => plain(*x) && plain(*y),
        ExprModel::Compare(x, _, y) => plain(*x) && plain(*y),
        ExprModel::Function { name, args } => all_plain(args),
        ExprModel::MapProjection { var, entries } => entries_plain(entries),
        ExprModel::Case { operand, branches, default } => {
            &&& operand matches Some(x) ==> plain(*x)
            &&& branches_plain(branches)
            &&& default matches Some(x) ==> plain(*x)
        },
        ExprModel::Aggregate { .. } => false,
        ExprModel::Exists { .. } => false,
    }
}

/// Whether all of the expressions are plain.
pub open spec fn all_plain(items: Seq<ExprModel>) -> bool
    decreases items,
{
    forall|i: int| 0 <= i < items.len() ==> plain(#[trigger] items[i])
}

/// Whether the conditions and the values of all branches are plain.
pub open spec fn branches_plain(branches: Seq<(ExprModel, ExprModel)>) -> bool
    decreases branches,
{
    forall|i: int|
        0 <= i < branches.len() ==> plain((#[trigger] branches[i]).0) && plain(branches[i].1)
}

/// Whether the expressions of all entries are plain.
pub open spec fn entries_plain(entries: Seq<MapEntryModel>) -> bool
    decreases entries,
{
    forall|i: int|
        0 <= i < entries.len() ==> match #[trigger] entries[i] {
            MapEntryModel::Property(_) => true,
            MapEntryModel::Literal(_, x) => plain(x),
        }
}

/// Whether a plain expression refers to a variable.
pub open spec fn mentions(e: ExprModel, name: Text) -> bool
    decreases e,
{
    match e {
        ExprModel::Var(n) => n == name,
        ExprModel::Property(n, _) => n == name,
        ExprModel::Literal(_) => false,
        ExprModel::List(items) => some_mentions(items, items.len() as int, name),
        ExprModel::Not(x) => mentions(*x, name),
        ExprModel::IsNull(x, _) => mentions(*x, name),
        ExprModel::And(x, y) => mentions(*x, name) || mentions(*y, name),
        ExprModel::Or(x, y) => mentions(*x, name) || mentions(*y, name),
        ExprModel::Compare(x, _, y) => mentions(*x, name) || mentions(*y, name),
        ExprModel::Function { name: f, args } => some_mentions(args, args.len() as int, name),
        ExprModel::MapProjection { var, entries } => var == name || entries_mention(
            entries,
            entries.len() as int,
            name,
        ),
        ExprModel::Case { operand, branches, default } => {
            ||| (operand matches Some(x) && mentions(*x, name))
            ||| branches_mention(branches, branches.len() as int, name)
            ||| (default matches Some(x) && mentions(*x, name))
        },
        ExprModel::Aggregate { .. } => false,
        ExprModel::Exists { .. } => false,
    }
}

/// Whether one of the first `n` expressions refers to a variable.
pub open spec fn some_mentions(items: Seq<ExprModel>, n: int, name: Text) -> bool
    decreases items,
{
    exists|i: int| 0 <= i < items.len() && i < n && mentions(#[trigger] items[i], name)
}

/// Whether one of the first `n` branches refers to a variable.
pub open spec fn branches_mention(
    branches: Seq<(ExprModel, ExprModel)>,
    n: int,
    name: Text,
) -> bool
    decreases branches,
{
    exists|i: int|
        0 <= i < branches.len() && i < n && (mentions((#[trigger] branches[i]).0, name) || mentions(
            branches[i].1,
            name,
        ))
}

/// Whether one of the first `n` entries refers to a variable.
pub open spec fn entries_mention(entries: Seq<MapEntryModel>, n: int, name: Text) -> bool
    decreases entries,
{
    exists|i: int|
        0 <= i < entries.len() && i < n && match #[trigger] entries[i] {
            MapEntryModel::Property(_) => false,
            MapEntryModel::Literal(_, x) => mentions(x, name),
        }
}

/// Whether an expression is plain and refers to none but the allowed variables.
pub open spec fn refers_within(e: ExprModel, allowed: Set<Text>) -> bool {
    plain(e) && forall|name: Text| #[trigger] mentions(e, name) ==> allowed.contains(name)
}

/// Whether two rows bind the variables of an expression alike.
pub open spec fn agree<N>(r: RowModel<N>, s: RowModel<N>, e: ExprModel) -> bool {
    forall|name: Text| mentions(e, name) ==> #[trigger] binding_of(r, name) == binding_of(s, name)
}

/// The value of a plain expression depends only on the variables that it refers to.
pub proof fn lemma_eval_agrees<G: GraphProvider>(
    g: &G,
    r: RowModel<G::NodeId>,
    s: RowModel<G::NodeId>,
    e: ExprModel,
)
    requires
        plain(e),
        agree(r, s, e),
    ensures
        eval(g, r, e) == eval(g, s, e),
    decreases e, 0int,
{
    match e {
        ExprModel::Var(name) => {
            assert(mentions(e, name));
        },
        ExprModel::Property(name, _) => {
            assert(mentions(e, name));
        },
        ExprModel::Literal(_) => {},
        ExprModel::List(items) => {
            assert(all_plain(items));
            lemma_eval_all_agrees(g, r, s, items, 0);
        },
        ExprModel::Not(x) => {
            lemma_eval_agrees(g, r, s, *x);
        },
        ExprModel::IsNull(x, _) => {
            lemma_eval_agrees(g, r, s, *x);
        },
        ExprModel::And(x, y) => {
            lemma_eval_agrees(g, r, s, *x);
            lemma_eval_agrees(g, r, s, *y);
        },
        ExprModel::Or(x, y) => {
            lemma_eval_agrees(g, r, s, *x);
            lemma_eval_agrees(g, r, s, *y);
        },
        ExprModel::Compare(x, _, y) => {
            lemma_eval_agrees(g, r, s, *x);
            lemma_eval_agrees(g, r, s, *y);
        },
        ExprModel::Function { name, args } => {
            assert(all_plain(args));
            lemma_eval_all_agrees(g, r, s, args, 0);
            if args.len() == 1 {
                assert forall|n: Text| mentions(args[0], n) implies #[trigger] binding_of(r, n)
                    == binding_of(s, n) by {
                    assert(some_mentions(args, args.len() as int, n));
                }
                lemma_eval_agrees(g, r, s, args[0]);
            }
        },
        ExprModel::MapProjection { var, entries } => {
            assert(entries_plain(entries));
            assert(mentions(e, var));
            if let BindingModel::Node(node) = binding_of(r, var) {
                lemma_eval_entries_agrees(g, r, s, node, entries, 0);
            }
        },
        ExprModel::Case { operand, branches, default } => {
            assert(branches_plain(branches));
            if let Some(x) = operand {
                lemma_eval_agrees(g, r, s, *x);
                if let Ok(v) = eval(g, r, *x) {
                    lemma_pick_branch_agrees(g, r, s, Some(v), branches, 0);
                }
            } else {
                lemma_pick_branch_agrees(g, r, s, None, branches, 0);
            }
            if let Some(x) = default {
                lemma_eval_agrees(g, r, s, *x);
            }
        },
        ExprModel::Aggregate { .. } => {},
        ExprModel::Exists { .. } => {},
    }
}

/// The same for a sequence of expressions.
proof fn lemma_eval_all_agrees<G: GraphProvider>(
    g: &G,
    r: RowModel<G::NodeId>,
    s: RowModel<G::NodeId>,
    items: Seq<ExprModel>,
    i: int,
)
    requires
        all_plain(items),
        0 <= i,
        forall|name: Text|
            some_mentions(items, items.len() as int, name) ==> #[trigger] binding_of(r, name)
                == binding_of(s, name),
    ensures
        eval_all(g, r, items, i) == eval_all(g, s, items, i),
        first_value(g, r, items, i) == first_value(g, s, items, i),
    decreases items, items.len() - i,
{
    if i < items.len() {
        assert(plain(items[i]));
        assert forall|n: Text| mentions(items[i], n) implies #[trigger] binding_of(r, n)
            == binding_of(s, n) by {
            assert(some_mentions(items, items.len() as int, n));
        }
        lemma_eval_agrees(g, r, s, items[i]);
        lemma_eval_all_agrees(g, r, s, items, i + 1);
    }
}

/// The same for the branches of a `CASE`.
proof fn lemma_pick_branch_agrees<G: GraphProvider>(
    g: &G,
    r: RowModel<G::NodeId>,
    s: RowModel<G::NodeId>,
    subject: Option<ValueModel>,
    branches: Seq<(ExprModel, ExprModel)>,
    i: int,
)
    requires
        branches_plain(branches),
        0 <= i,
        forall|name: Text|
            branches_mention(branches, branches.len() as int, name) ==> #[trigger] binding_of(
                r,
                name,
            ) == binding_of(s, name),
    ensures
        pick_branch(g, r, subject, branches, i) == pick_branch(g, s, subject, branches, i),
    decreases branches, branches.len() - i,
{
    if i < branches.len() {
        assert(plain(branches[i].0) && plain(branches[i].1));
        assert forall|n: Text|
            mentions(branches[i].0, n) || mentions(branches[i].1, n) implies #[trigger] binding_of(
            r,
            n,
        ) == binding_of(s, n) by {
            assert(branches_mention(branches, branches.len() as int, n));
        }
        lemma_eval_agrees(g, r, s, branches[i].0);
        lemma_eval_agrees(g, r, s, branches[i].1);
        lemma_pick_branch_agrees(g, r, s, subject, branches, i + 1);
    }
}

/// The same for the entries of a map projection.
proof fn lemma_eval_entries_agrees<G: GraphProvider>(
    g: &G,
    r: RowModel<G::NodeId>,
    s: RowModel<G::NodeId>,
    node: G::NodeId,
    entries: Seq<MapEntryModel>,
    i: int,
)
    requires
        entries_plain(entries),
        0 <= i,
        forall|name: Text|
            entries_mention(entries, entries.len() as int, name) ==> #[trigger] binding_of(r, name)
                == binding_of(s, name),
    ensures
        eval_entries(g, r, node, entries, i) == eval_entries(g, s, node, entries, i),
    decreases entries, entries.len() - i,
{
    if i < entries.len() {
        let entry = entries[i];
        if let MapEntryModel::Literal(key, x) = entry {
            assert(plain(x));
            assert forall|n: Text| mentions(x, n) implies #[trigger] binding_of(r, n)
                == binding_of(s, n) by {
                assert(entries_mention(entries, entries.len() as int, n));
            }
            lemma_eval_agrees(g, r, s, x);
        }
        lemma_eval_entries_agrees(g, r, s, node, entries, i + 1);
    }
}

// ---- Collecting variables ------------------------------------------------------

/// Whether a variable is collected from an expression. Both sides of a connective or a comparison
/// and all parts of a `CASE` are visited; in a list, among arguments and in a map projection
/// nothing is visited behind the first part that is not plain.
pub open spec fn collected(e: ExprModel, name: Text) -> bool
    decreases e,
{
    match e {
        ExprModel::Var(n) => n == name,
        ExprModel::Property(n, _) => n == name,
        ExprModel::Literal(_) => false,
        ExprModel::List(items) => some_collected(items, items.len() as int, name),
        ExprModel::Not(x) => collected(*x, name),
        ExprModel::IsNull(x, _) => collected(*x, name),
        ExprModel::And(x, y) => collected(*x, name) || collected(*y, name),
        ExprModel::Or(x, y) => collected(*x, name) || collected(*y, name),
        ExprModel::Compare(x, _, y) => collected(*x, name) || collected(*y, name),
        ExprModel::Function { name: f, args } => some_collected(args, args.len() as int, name),
        ExprModel::MapProjection { var, entries } => var == name || entries_collected(
            entries,
            entries.len() as int,
            name,
        ),
        ExprModel::Case { operand, branches, default } => {
            ||| (operand matches Some(x) && collected(*x, name))
            ||| branches_collected(branches, branches.len() as int, name)
            ||| (default matches Some(x) && collected(*x, name))
        },
        ExprModel::Aggregate { .. } => false,
        ExprModel::Exists { .. } => false,
    }
}

/// Whether a variable is collected from one of the first `n` expressions, those behind the first
/// that is not plain left out.
pub open spec fn some_collected(items: Seq<ExprModel>, n: int, name: Text) -> bool
    decreases items,
{
    exists|i: int|
        0 <= i < items.len() && i < n && plain_before(items, i) && collected(
            #[trigger] items[i],
            name,
        )
}

/// Whether the first `n` expressions are plain.
pub open spec fn plain_before(items: Seq<ExprModel>, n: int) -> bool {
    forall|i: int| 0 <= i < items.len() && i < n ==> plain(#[trigger] items[i])
}

/// Whether a variable is collected from one of the first `n` branches.
pub open spec fn branches_collected(
    branches: Seq<(ExprModel, ExprModel)>,
    n: int,
    name: Text,
) -> bool
    decreases branches,
{
    exists|i: int|
        0 <= i < branches.len() && i < n && (collected((#[trigger] branches[i]).0, name)
            || collected(branches[i].1, name))
}

/// Whether a variable is collected from one of the first `n` entries, those behind the first that
/// is not plain left out.
pub open spec fn entries_collected(entries: Seq<MapEntryModel>, n: int, name: Text) -> bool
    decreases entries,
{
    exists|i: int|
        0 <= i < entries.len() && i < n && plain_entries_before(entries, i)
            && match #[trigger] entries[i] {
            MapEntryModel::Property(_) => false,
            MapEntryModel::Literal(_, x) => collected(x, name),
        }
}

/// Whether the first `n` entries are plain.
pub open spec fn plain_entries_before(entries: Seq<MapEntryModel>, n: int) -> bool {
    forall|i: int|
        0 <= i < entries.len() && i < n ==> match #[trigger] entries[i] {
            MapEntryModel::Property(_) => true,
            MapEntryModel::Literal(_, x) => plain(x),
        }
}

/// Only variables that an expression refers to are collected from it, and all of them if it is
/// plain.
pub proof fn lemma_collected(e: ExprModel, name: Text)
    ensures
        collected(e, name) ==> mentions(e, name),
        plain(e) ==> (collected(e, name) <==> mentions(e, name)),
    decreases e,
{
    match e {
        ExprModel::Not(x) => lemma_collected(*x, name),
        ExprModel::IsNull(x, _) => lemma_collected(*x, name),
        ExprModel::And(x, y) => {
            lemma_collected(*x, name);
            lemma_collected(*y, name);
        },
        ExprModel::Or(x, y) => {
            lemma_collected(*x, name);
            lemma_collected(*y, name);
        },
        ExprModel::Compare(x, _, y) => {
            lemma_collected(*x, name);
            lemma_collected(*y, name);
        },
        ExprModel::List(items) => lemma_some_collected(items, name),
        ExprModel::Function { name: f, args } => lemma_some_collected(args, name),
        ExprModel::MapProjection { var, entries } => lemma_entries_collected(entries, name),
        ExprModel::Case { operand, branches, default } => {
            if let Some(x) = operand {
                lemma_collected(*x, name);
            }
            if let Some(x) = default {
                lemma_collected(*x, name);
            }
            lemma_branches_collected(branches, name);
        },
        _ => {},
    }
}

proof fn lemma_some_collected(items: Seq<ExprModel>, name: Text)
    ensures
        some_collected(items, items.len() as int, name) ==> some_mentions(
            items,
            items.len() as int,
            name,
        ),
        all_plain(items) ==> (some_collected(items, items.len() as int, name) <==> some_mentions(
            items,
            items.len() as int,
            name,
        )),
    decreases items,
{
    let n = items.len() as int;
    assert forall|i: int| 0 <= i < n implies (collected(#[trigger] items[i], name) ==> mentions(
        items[i],
        name,
    )) && (plain(items[i]) ==> (collected(items[i], name) <==> mentions(items[i], name))) by {
        lemma_collected(items[i], name);
    }
    if some_collected(items, n, name) {
        let i = choose|i: int|
            0 <= i < items.len() && i < n && plain_before(items, i) && collected(
                #[trigger] items[i],
                name,
            );
        assert(mentions(items[i], name));
    }
    if all_plain(items) && some_mentions(items, n, name) {
        let i = choose|i: int| 0 <= i < items.len() && i < n && mentions(#[trigger] items[i], name);
        assert(collected(items[i], name));
        assert(plain_before(items, i));
    }
}

proof fn lemma_branches_collected(branches: Seq<(ExprModel, ExprModel)>, name: Text)
    ensures
        branches_collected(branches, branches.len() as int, name) ==> branches_mention(
            branches,
            branches.len() as int,
            name,
        ),
        branches_plain(branches) ==> (branches_collected(branches, branches.len() as int, name)
            <==> branches_mention(branches, branches.len() as int, name)),
    decreases branches,
{
    let n = branches.len() as int;
    assert forall|i: int| 0 <= i < n implies (collected((#[trigger] branches[i]).0, name)
        ==> mentions(branches[i].0, name)) && (collected(branches[i].1, name) ==> mentions(
        branches[i].1,
        name,
    )) && (plain(branches[i].0) ==> (collected(branches[i].0, name) <==> mentions(
        branches[i].0,
        name,
    ))) && (plain(branches[i].1) ==> (collected(branches[i].1, name) <==> mentions(
        branches[i].1,
        name,
    ))) by {
        assert(decreases_to!(branches => branches[i]));
        assert(decreases_to!(branches[i] => branches[i].0));
        assert(decreases_to!(branches[i] => branches[i].1));
        lemma_collected(branches[i].0, name);
        lemma_collected(branches[i].1, name);
    }
    if branches_collected(branches, n, name) {
        let i = choose|i: int|
            0 <= i < branches.len() && i < n && (collected((#[trigger] branches[i]).0, name)
                || collected(branches[i].1, name));
        assert(mentions(branches[i].0, name) || mentions(branches[i].1, name));
    }
    if branches_plain(branches) && branches_mention(branches, n, name) {
        let i = choose|i: int|
            0 <= i < branches.len() && i < n && (mentions((#[trigger] branches[i]).0, name)
                || mentions(branches[i].1, name));
        assert(collected(branches[i].0, name) || collected(branches[i].1, name));
    }
}

proof fn lemma_entries_collected(entries: Seq<MapEntryModel>, name: Text)
    ensures
        entries_collected(entries, entries.len() as int, name) ==> entries_mention(
            entries,
            entries.len() as int,
            name,
        ),
        entries_plain(entries) ==> (entries_collected(entries, entries.len() as int, name)
            <==> entries_mention(entries, entries.len() as int, name)),
    decreases entries,
{
    let n = entries.len() as int;
    assert forall|i: int| 0 <= i < n implies match #[trigger] entries[i] {
        MapEntryModel::Property(_) => true,
        MapEntryModel::Literal(_, x) => (collected(x, name) ==> mentions(x, name)) && (plain(x)
            ==> (collected(x, name) <==> mentions(x, name))),
    } by {
        if let MapEntryModel::Literal(_, x) = entries[i] {
            assert(decreases_to!(entries => entries[i]));
            lemma_collected(x, name);
        }
    }
    if entries_collected(entries, n, name) {
        let i = choose|i: int|
            0 <= i < entries.len() && i < n && plain_entries_before(entries, i)
                && match #[trigger] entries[i] {
                MapEntryModel::Property(_) => false,
                MapEntryModel::Literal(_, x) => collected(x, name),
            };
        assert(entries[i] is Literal);
    }
    if entries_plain(entries) && entries_mention(entries, n, name) {
        let i = choose|i: int|
            0 <= i < entries.len() && i < n && match #[trigger] entries[i] {
                MapEntryModel::Property(_) => false,
                MapEntryModel::Literal(_, x) => mentions(x, name),
            };
        assert(entries[i] is Literal);
        assert(plain_entries_before(entries, i));
    }
}

/// Whether `after` holds the names of `before` and those for which `extra` holds.
pub open spec fn gathered(
    before: Seq<Text>,
    after: Seq<Text>,
    extra: spec_fn(Text) -> bool,
) -> bool {
    forall|name: Text| #[trigger] after.contains(name) <==> before.contains(name) || extra(name)
}

/// Adds a name unless it is there already.
fn add_once(out: &mut Vec<String>, name: &String)
    requires
        texts(old(out)@).no_duplicates(),
    ensures
        texts(final(out)@).no_duplicates(),
        forall|n: Text| #[trigger]
            texts(final(out)@).contains(n) <==> texts(old(out)@).contains(n) || n == name@,
{
    if !has_name(out, name) {
        let copy = name.clone();
        let ghost before = texts(out@);
        proof {
            lemma_texts_push(out@, copy);
        }
        out.push(copy);
        assert forall|n: Text| #[trigger] texts(out@).contains(n) <==> before.contains(n) || n
            == name@ by {
            lemma_push_contains(before, name@, n);
        }
    }
}

/// Collects the variables referenced by an expression. Returns `false` if the expression contains
/// an aggregate or an `EXISTS` subquery. Names are only ever added.
#[verifier::rlimit(80)]
pub fn collect_vars(expr: &Expr, out: &mut Vec<String>) -> (r: bool)
    requires
        texts(old(out)@).no_duplicates(),
    ensures
        r == plain(expr@),
        texts(final(out)@).no_duplicates(),
        forall|n: Text| #[trigger]
            texts(final(out)@).contains(n) <==> texts(old(out)@).contains(n) || collected(expr@, n),
        forall|n: Text| texts(old(out)@).contains(n) ==> #[trigger] texts(final(out)@).contains(n),
        forall|n: Text| #[trigger]
            texts(final(out)@).contains(n) ==> texts(old(out)@).contains(n) || mentions(expr@, n),
        r ==> gathered(texts(old(out)@), texts(final(out)@), |n: Text| mentions(expr@, n)),
    decreases expr, 1int,
{
    let ghost start = texts(out@);
    let r = collect_parts(expr, out);
    proof {
        assert forall|n: Text| (collected(expr@, n) ==> #[trigger] mentions(expr@, n)) && (plain(
            expr@,
        ) ==> (collected(expr@, n) <==> mentions(expr@, n))) by {
            lemma_collected(expr@, n);
        }
        assert forall|n: Text| #[trigger] texts(out@).contains(n) implies start.contains(n)
            || mentions(expr@, n) by {
            assert(collected(expr@, n) ==> mentions(expr@, n));
        }
        if r {
            assert forall|n: Text| #[trigger] texts(out@).contains(n) <==> start.contains(n)
                || mentions(expr@, n) by {
                assert(collected(expr@, n) <==> mentions(expr@, n));
            }
        }
    }
    r
}

/// Collects the variables of the parts of an expression.
#[verifier::rlimit(80)]
fn collect_parts(expr: &Expr, out: &mut Vec<String>) -> (r: bool)
    requires
        texts(old(out)@).no_duplicates(),
    ensures
        r == plain(expr@),
        texts(final(out)@).no_duplicates(),
        gathered(texts(old(out)@), texts(final(out)@), |n: Text| collected(expr@, n)),
    decreases expr, 0int,
{
    match expr {
        Expr::Var(name) => {
            add_once(out, name);
            true
        },
        Expr::Property(var, _) => {
            add_once(out, var);
            true
        },
        Expr::Literal(_) => true,
        Expr::List(items) => collect_all(items, out),
        Expr::Not(inner) => collect_vars(inner, out),
        Expr::IsNull(inner, _) => collect_vars(inner, out),
        Expr::And(a, b) => {
            let left = collect_vars(a, out);
            let right = collect_vars(b, out);
            left && right
        },
        Expr::Or(a, b) => {
            let left = collect_vars(a, out);
            let right = collect_vars(b, out);
            left && right
        },
        Expr::Compare(a, _, b) => {
            let left = collect_vars(a, out);
            let right = collect_vars(b, out);
            left && right
        },
        Expr::Function { args, .. } => collect_all(args, out),
        Expr::MapProjection { var, entries } => {
            add_once(out, var);
            collect_entries(entries, out)
        },
        Expr::Case { operand, branches, default } => {
            assert(opt_expr_model(*operand) is Some == operand is Some);
            assert(opt_expr_model(*default) is Some == default is Some);
            let first = match operand {
                Some(x) => collect_vars(x, out),
                None => true,
            };
            let middle = collect_branches(branches, out);
            let last = match default {
                Some(x) => collect_vars(x, out),
                None => true,
            };
            first && middle && last
        },
        Expr::Aggregate { .. } => false,
        Expr::Exists { .. } => false,
    }
}

/// Collects the variables referenced by several expressions, up to the first that is not plain.
fn collect_all(items: &Vec<Expr>, out: &mut Vec<String>) -> (r: bool)
    requires
        texts(old(out)@).no_duplicates(),
    ensures
        r == all_plain(expr_models(items@)),
        texts(final(out)@).no_duplicates(),
        gathered(
            texts(old(out)@),
            texts(final(out)@),
            |n: Text| some_collected(expr_models(items@), items@.len() as int, n),
        ),
    decreases items, 0int,
{
    let ghost models = expr_models(items@);
    let ghost start = texts(out@);
    let mut i: usize = 0;
    while i < items.len()
        invariant
            i <= items@.len(),
            models == expr_models(items@),
            start == texts(old(out)@),
            texts(out@).no_duplicates(),
            plain_before(models, i as int),
            gathered(start, texts(out@), |n: Text| some_collected(models, i as int, n)),
        decreases items@.len() - i,
    {
        assert(models[i as int] == items@[i as int]@);
        let ghost before = texts(out@);
        let more = collect_vars(&items[i], out);
        proof {
            let j = i as int;
            assert forall|n: Text| #[trigger] texts(out@).contains(n) <==> start.contains(n)
                || some_collected(models, j + 1, n) by {
                lemma_one_more_collected(models, j, n);
                assert(before.contains(n) <==> start.contains(n) || some_collected(models, j, n));
            }
            if !more {
                assert forall|n: Text| #[trigger] texts(out@).contains(n) <==> start.contains(n)
                    || some_collected(models, models.len() as int, n) by {
                    lemma_nothing_behind(models, j, n);
                }
            }
        }
        if !more {
            assert(!plain(models[i as int]));
            return false;
        }
        i += 1;
    }
    true
}

/// What is collected with one more expression, if those before it are plain.
proof fn lemma_one_more_collected(items: Seq<ExprModel>, j: int, name: Text)
    requires
        0 <= j < items.len(),
        plain_before(items, j),
    ensures
        some_collected(items, j + 1, name) <==> some_collected(items, j, name) || collected(
            items[j],
            name,
        ),
{
    if some_collected(items, j, name) {
        let k = choose|k: int|
            0 <= k < items.len() && k < j && plain_before(items, k) && collected(
                #[trigger] items[k],
                name,
            );
        assert(collected(items[k], name) && k < j + 1);
    }
    if some_collected(items, j + 1, name) && !collected(items[j], name) {
        let k = choose|k: int|
            0 <= k < items.len() && k < j + 1 && plain_before(items, k) && collected(
                #[trigger] items[k],
                name,
            );
        assert(k < j);
    }
}

/// Nothing is collected behind an expression that is not plain.
proof fn lemma_nothing_behind(items: Seq<ExprModel>, j: int, name: Text)
    requires
        0 <= j < items.len(),
        !plain(items[j]),
    ensures
        some_collected(items, items.len() as int, name) <==> some_collected(items, j + 1, name),
{
    if some_collected(items, items.len() as int, name) {
        let k = choose|k: int|
            0 <= k < items.len() && plain_before(items, k) && collected(#[trigger] items[k], name);
        assert(k < j + 1);
    }
    if some_collected(items, j + 1, name) {
        let k = choose|k: int|
            0 <= k < items.len() && k < j + 1 && plain_before(items, k) && collected(
                #[trigger] items[k],
                name,
            );
        assert(k < items.len());
    }
}

/// Collects the variables referenced by the branches of a `CASE`, all of them.
fn collect_branches(branches: &Vec<(Expr, Expr)>, out: &mut Vec<String>) -> (r: bool)
    requires
        texts(old(out)@).no_duplicates(),
    ensures
        r == branches_plain(branch_models(branches@)),
        texts(final(out)@).no_duplicates(),
        gathered(
            texts(old(out)@),
            texts(final(out)@),
            |n: Text| branches_collected(branch_models(branches@), branches@.len() as int, n),
        ),
    decreases branches, 0int,
{
    let ghost models = branch_models(branches@);
    let ghost start = texts(out@);
    let mut all: bool = true;
    let mut i: usize = 0;
    while i < branches.len()
        invariant
            i <= branches@.len(),
            models == branch_models(branches@),
            texts(out@).no_duplicates(),
            all <==> forall|k: int|
                0 <= k < i ==> plain((#[trigger] models[k]).0) && plain(models[k].1),
            gathered(start, texts(out@), |n: Text| branches_collected(models, i as int, n)),
        decreases branches@.len() - i,
    {
        assert(models[i as int] == (branches@[i as int].0@, branches@[i as int].1@));
        proof {
            assert(decreases_to!(branches => branches@[i as int]));
            assert(decreases_to!(branches@[i as int] => branches@[i as int].0));
            assert(decreases_to!(branches@[i as int] => branches@[i as int].1));
        }
        let ghost before = texts(out@);
        let when = collect_vars(&branches[i].0, out);
        let ghost middle = texts(out@);
        let value = collect_vars(&branches[i].1, out);
        proof {
            let j = i as int;
            assert forall|n: Text| #[trigger] texts(out@).contains(n) <==> start.contains(n)
                || branches_collected(models, j + 1, n) by {
                assert(middle.contains(n) <==> before.contains(n) || collected(models[j].0, n));
                assert(before.contains(n) <==> start.contains(n) || branches_collected(
                    models,
                    j,
                    n,
                ));
                if branches_collected(models, j, n) {
                    let k = choose|k: int|
                        0 <= k < models.len() && k < j && (collected((#[trigger] models[k]).0, n)
                            || collected(models[k].1, n));
                    assert(collected(models[k].0, n) || collected(models[k].1, n));
                }
                if branches_collected(models, j + 1, n) && !collected(models[j].0, n)
                    && !collected(models[j].1, n) {
                    let k = choose|k: int|
                        0 <= k < models.len() && k < j + 1 && (collected(
                            (#[trigger] models[k]).0,
                            n,
                        ) || collected(models[k].1, n));
                    assert(k < j);
                }
            }
            assert((all && when && value) <==> forall|k: int|
                0 <= k < j + 1 ==> plain((#[trigger] models[k]).0) && plain(models[k].1)) by {
                if all && when && value {
                    assert forall|k: int| 0 <= k < j + 1 implies plain((#[trigger] models[k]).0)
                        && plain(models[k].1) by {
                        assert(k < j || k == j);
                    }
                } else if all {
                    assert(!(plain(models[j].0) && plain(models[j].1)));
                }
            }
        }
        all = all && when && value;
        i += 1;
    }
    all
}

/// Collects the variables referenced by the entries of a map projection, up to the first that is
/// not plain.
fn collect_entries(entries: &Vec<MapEntry>, out: &mut Vec<String>) -> (r: bool)
    requires
        texts(old(out)@).no_duplicates(),
    ensures
        r == entries_plain(map_entry_models(entries@)),
        texts(final(out)@).no_duplicates(),
        gathered(
            texts(old(out)@),
            texts(final(out)@),
            |n: Text| entries_collected(map_entry_models(entries@), entries@.len() as int, n),
        ),
    decreases entries, 0int,
{
    let ghost models = map_entry_models(entries@);
    let ghost start = texts(out@);
    let mut i: usize = 0;
    while i < entries.len()
        invariant
            i <= entries@.len(),
            models == map_entry_models(entries@),
            start == texts(old(out)@),
            texts(out@).no_duplicates(),
            plain_entries_before(models, i as int),
            gathered(start, texts(out@), |n: Text| entries_collected(models, i as int, n)),
        decreases entries@.len() - i,
    {
        assert(models[i as int] == entries@[i as int]@);
        proof {
            assert(decreases_to!(entries => entries@[i as int]));
        }
        let ghost before = texts(out@);
        let mut more: bool = true;
        if let MapEntry::Literal(key, expr) = &entries[i] {
            assert(models[i as int] == MapEntryModel::Literal(key@, expr@));
            more = collect_vars(expr, out);
        }
        proof {
            let j = i as int;
            assert forall|n: Text| #[trigger] texts(out@).contains(n) <==> start.contains(n)
                || entries_collected(models, j + 1, n) by {
                lemma_one_more_entry(models, j, n);
                assert(before.contains(n) <==> start.contains(n) || entries_collected(
                    models,
                    j,
                    n,
                ));
            }
            if !more {
                assert forall|n: Text| #[trigger] texts(out@).contains(n) <==> start.contains(n)
                    || entries_collected(models, models.len() as int, n) by {
                    lemma_no_entry_behind(models, j, n);
                }
            }
        }
        if !more {
            return false;
        }
        i += 1;
    }
    true
}

/// Whether a variable is collected from an entry.
spec fn entry_collected(entry: MapEntryModel, name: Text) -> bool {
    match entry {
        MapEntryModel::Property(_) => false,
        MapEntryModel::Literal(_, x) => collected(x, name),
    }
}

/// What is collected with one more entry, if those before it are plain.
proof fn lemma_one_more_entry(entries: Seq<MapEntryModel>, j: int, name: Text)
    requires
        0 <= j < entries.len(),
        plain_entries_before(entries, j),
    ensures
        entries_collected(entries, j + 1, name) <==> entries_collected(entries, j, name)
            || entry_collected(entries[j], name),
{
    if entries_collected(entries, j, name) {
        let k = choose|k: int|
            0 <= k < entries.len() && k < j && plain_entries_before(entries, k)
                && match #[trigger] entries[k] {
                MapEntryModel::Property(_) => false,
                MapEntryModel::Literal(_, x) => collected(x, name),
            };
        assert(entry_collected(entries[k], name) && k < j + 1);
    }
    if entries_collected(entries, j + 1, name) && !entry_collected(entries[j], name) {
        let k = choose|k: int|
            0 <= k < entries.len() && k < j + 1 && plain_entries_before(entries, k)
                && match #[trigger] entries[k] {
                MapEntryModel::Property(_) => false,
                MapEntryModel::Literal(_, x) => collected(x, name),
            };
        assert(k < j);
    }
}

/// Nothing is collected behind an entry that is not plain.
proof fn lemma_no_entry_behind(entries: Seq<MapEntryModel>, j: int, name: Text)
    requires
        0 <= j < entries.len(),
        !plain_entries_before(entries, j + 1),
        plain_entries_before(entries, j),
    ensures
        entries_collected(entries, entries.len() as int, name) <==> entries_collected(
            entries,
            j + 1,
            name,
        ),
{
    if entries_collected(entries, entries.len() as int, name) {
        let k = choose|k: int|
            0 <= k < entries.len() && plain_entries_before(entries, k)
                && match #[trigger] entries[k] {
                MapEntryModel::Property(_) => false,
                MapEntryModel::Literal(_, x) => collected(x, name),
            };
        assert(k < j + 1);
    }
    if entries_collected(entries, j + 1, name) {
        let k = choose|k: int|
            0 <= k < entries.len() && k < j + 1 && plain_entries_before(entries, k)
                && match #[trigger] entries[k] {
                MapEntryModel::Property(_) => false,
                MapEntryModel::Literal(_, x) => collected(x, name),
            };
        assert(k < entries.len());
    }
}

/// Whether an expression references only variables in `allowed` (and no aggregates), so it is
/// constant across a pass in which those variables are constant.
pub fn references_only(expr: &Expr, allowed: &Vec<String>) -> (r: bool)
    ensures
        r == refers_within(expr@, texts(allowed@).to_set()),
{
    let mut vars: Vec<String> = Vec::new();
    if !collect_vars(expr, &mut vars) {
        return false;
    }
    let mut i: usize = 0;
    while i < vars.len()
        invariant
            i <= vars@.len(),
            forall|k: int| 0 <= k < i ==> texts(allowed@).contains(#[trigger] texts(vars@)[k]),
            forall|n: Text| #[trigger] texts(vars@).contains(n) <==> mentions(expr@, n),
        decreases vars@.len() - i,
    {
        if !has_name(allowed, &vars[i]) {
            assert(texts(vars@)[i as int] == vars@[i as int]@);
            assert(texts(vars@).contains(vars@[i as int]@));
            return false;
        }
        i += 1;
    }
    assert forall|n: Text| #[trigger] mentions(expr@, n) implies texts(allowed@).contains(n) by {
        assert(texts(vars@).contains(n));
        let k = choose|k: int| 0 <= k < texts(vars@).len() && texts(vars@)[k] == n;
        assert(texts(allowed@).contains(texts(vars@)[k]));
    }
    true
}

} // verus!
