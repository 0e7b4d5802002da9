//! Predicates on a single variable, applied while candidates for that variable are generated.

use vstd::prelude::*;

use crate::analysis::{collect_vars, mentions, plain};
use crate::ast::{clause_models, opt_model, Clause, ClauseModel, Expr, ExprModel};
use crate::eval::eval;
use crate::matcher::{Executor, NodeFilter};
use crate::pattern::Keep;
use crate::provider::GraphProvider;
use crate::row::{Binding, BindingModel, Row, RowModel};
use crate::text::{texts, Text};
use crate::value::truthy;

verus! {

/// The parts of a conjunction (`a AND b AND ...`), from left to right.
pub open spec fn conjuncts(e: ExprModel) -> Seq<ExprModel>
    decreases e,
{
    match e {
        ExprModel::And(x, y) => conjuncts(*x) + conjuncts(*y),
        _ => seq![e],
    }
}

/// Whether an expression refers to this variable and to no other.
pub open spec fn mentions_only(e: ExprModel, name: Text) -> bool {
    forall|n: Text| #[trigger] mentions(e, n) <==> n == name
}

/// The only variable of an expression without aggregates and `EXISTS` subqueries.
pub open spec fn sole_var(e: ExprModel) -> Option<Text> {
    if plain(e) && exists|name: Text| mentions_only(e, name) {
        Some(choose|name: Text| mentions_only(e, name))
    } else {
        None
    }
}

/// A predicate with its only variable.
pub type Pushable = (Text, ExprModel);

/// Those of the predicates that have just one variable, with the variable.
pub open spec fn pushable(predicates: Seq<ExprModel>) -> Seq<Pushable>
    decreases predicates.len(),
{
    if predicates.len() == 0 {
        Seq::empty()
    } else {
        let before = pushable(predicates.drop_last());
        match sole_var(predicates.last()) {
            Some(name) => before.push((name, predicates.last())),
            None => before,
        }
    }
}

/// The predicates that a `WHERE` allows to apply early.
pub open spec fn where_pushable(where_clause: Option<ExprModel>) -> Seq<Pushable> {
    match where_clause {
        Some(e) => pushable(conjuncts(e)),
        None => Seq::empty(),
    }
}

/// The predicates that apply to the patterns of the clause at position `i`: its own, and those of
/// the later `MATCH` clauses that see the same variables. A `WITH` or an `UNWIND` may give a name
/// another meaning, so nothing behind one is taken; an `OPTIONAL MATCH` filters nothing that came
/// before it and is passed over.
pub open spec fn pushed_from(clauses: Seq<ClauseModel>, i: int) -> Seq<Pushable>
    decreases clauses.len() - i,
{
    if i < 0 || i >= clauses.len() {
        Seq::empty()
    } else {
        match clauses[i] {
            ClauseModel::Match { optional, patterns, where_clause } => if optional {
                pushed_from(clauses, i + 1)
            } else {
                where_pushable(where_clause) + pushed_from(clauses, i + 1)
            },
            ClauseModel::Unwind { .. } => Seq::empty(),
            ClauseModel::With { .. } => Seq::empty(),
        }
    }
}

/// The row that binds one variable to a node.
pub open spec fn node_row<N>(name: Text, node: N) -> RowModel<N> {
    Map::empty().insert(name, BindingModel::Node(node))
}

/// Whether a predicate rules a node out for its variable: it has a value, and the value is not
/// true.
/// A predicate that cannot be evaluated rules nothing out.
pub open spec fn rules_out<G: GraphProvider>(
    g: &G,
    name: Text,
    node: G::NodeId,
    predicate: ExprModel,
) -> bool {
    eval(g, node_row(name, node), predicate) matches Ok(v) && !truthy(v)
}

/// Whether none of the predicates on the variable rules the node out.
pub open spec fn passes<G: GraphProvider>(
    g: &G,
    pushed: Seq<Pushable>,
    name: Text,
    node: G::NodeId,
) -> bool {
    forall|i: int|
        0 <= i < pushed.len() && (#[trigger] pushed[i]).0 == name ==> !rules_out(
            g,
            name,
            node,
            pushed[i].1,
        )
}

/// The decision to keep the nodes that no predicate rules out.
pub open spec fn keep_passing<G: GraphProvider>(g: &G, pushed: Seq<Pushable>) -> Keep<G::NodeId> {
    |name: Text, node: G::NodeId| passes(g, pushed, name, node)
}

/// The models of borrowed expressions.
pub open spec fn ref_models(exprs: Seq<&Expr>) -> Seq<ExprModel> {
    Seq::new(exprs.len(), |i: int| exprs[i]@)
}

/// The models of predicates with their variables.
pub open spec fn pushed_models(pushed: Seq<(String, &Expr)>) -> Seq<Pushable> {
    Seq::new(pushed.len(), |i: int| (pushed[i].0@, pushed[i].1@))
}

/// Flattens a conjunction (`a AND b AND ...`) into its individual conjuncts.
fn collect_conjuncts<'q>(expr: &'q Expr, out: &mut Vec<&'q Expr>)
    ensures
        ref_models(final(out)@) == ref_models(old(out)@) + conjuncts(expr@),
    decreases expr,
{
    if let Expr::And(a, b) = expr {
        let ghost start = ref_models(out@);
        collect_conjuncts(a, out);
        collect_conjuncts(b, out);
        assert(ref_models(out@) =~= start + (conjuncts(a@) + conjuncts(b@)));
    } else {
        let ghost start = out@;
        out.push(expr);
        assert(ref_models(out@) =~= ref_models(start) + seq![expr@]);
    }
}

/// Returns the sole variable an expression references if it is pushable (references exactly one
/// variable and contains no aggregate or EXISTS subquery); otherwise `None`.
fn single_var(expr: &Expr) -> (r: Option<String>)
    ensures
        match r {
            Some(name) => sole_var(expr@) == Some(name@),
            None => sole_var(expr@) is None,
        },
{
    let mut vars: Vec<String> = Vec::new();
    if !collect_vars(expr, &mut vars) {
        return None;
    }
    let ghost names = texts(vars@);
    assert(forall|n: Text| #[trigger] names.contains(n) <==> mentions(expr@, n));
    if vars.len() == 1 {
        let name = vars[0].clone();
        proof {
            assert(names[0] == name@);
            assert forall|n: Text| #[trigger] mentions(expr@, n) <==> n == name@ by {
                assert(names.contains(n) <==> mentions(expr@, n));
                if names.contains(n) {
                    let k = choose|k: int| 0 <= k < names.len() && names[k] == n;
                    assert(k == 0);
                }
            }
            assert(mentions_only(expr@, name@));
            let other = choose|other: Text| mentions_only(expr@, other);
            assert(mentions(expr@, other));
            assert(other == name@);
        }
        Some(name)
    } else {
        proof {
            if exists|name: Text| mentions_only(expr@, name) {
                let name = choose|name: Text| mentions_only(expr@, name);
                assert(mentions(expr@, name));
                assert(names.contains(name));
                if names.len() >= 2 {
                    assert(names.contains(names[0]));
                    assert(names.contains(names[1]));
                    assert(mentions(expr@, names[0]));
                    assert(mentions(expr@, names[1]));
                    assert(false);
                }
            }
        }
        None
    }
}

/// Predicates with their variables.
pub struct Pushed<'q> {
    preds: Vec<(String, &'q Expr)>,
}

impl<'q> Pushed<'q> {
    /// The predicates with their variables.
    pub closed spec fn view(&self) -> Seq<Pushable> {
        pushed_models(self.preds@)
    }

    /// Adds the single-variable, aggregate/EXISTS-free conjuncts of a `WHERE`.
    fn add_where(&mut self, where_clause: &'q Option<Expr>)
        ensures
            final(self)@ == old(self)@ + where_pushable(opt_model(*where_clause)),
    {
        let ghost start = self@;
        match where_clause {
            Some(predicate) => {
                let mut parts: Vec<&'q Expr> = Vec::new();
                collect_conjuncts(predicate, &mut parts);
                let ghost models = ref_models(parts@);
                assert(models =~= conjuncts(predicate@));
                let mut i: usize = 0;
                assert(models.take(0) =~= Seq::empty());
                assert(start + pushable(models.take(0)) =~= start);
                while i < parts.len()
                    invariant
                        i <= parts@.len(),
                        models == ref_models(parts@),
                        self@ == start + pushable(models.take(i as int)),
                    decreases parts@.len() - i,
                {
                    let ghost after = models.take(i as int + 1);
                    assert(after.drop_last() =~= models.take(i as int));
                    assert(after.last() == parts@[i as int]@);
                    if let Some(name) = single_var(parts[i]) {
                        let ghost before = self.preds@;
                        self.preds.push((name, parts[i]));
                        assert(self@ =~= pushed_models(before).push((name@, parts@[i as int]@)));
                    }
                    i += 1;
                    assert(self@ =~= start + pushable(after));
                }
                assert(models.take(i as int) =~= models);
            },
            None => {
                assert(self@ =~= start + Seq::<Pushable>::empty());
            },
        }
    }

    /// Builds the predicates for the patterns of the clause at position `i`.
    pub fn build(clauses: &'q Vec<Clause>, i: usize) -> (r: Pushed<'q>)
        ensures
            r@ == pushed_from(clause_models(clauses@), i as int),
    {
        let ghost models = clause_models(clauses@);
        let mut pushed = Pushed { preds: Vec::new() };
        let mut k: usize = i;
        assert(pushed@ =~= Seq::empty());
        assert(pushed@ + pushed_from(models, i as int) =~= pushed_from(models, i as int));
        while k < clauses.len()
            invariant
                models == clause_models(clauses@),
                i <= k,
                k <= clauses@.len() || k == i,
                pushed_from(models, i as int) == pushed@ + pushed_from(models, k as int),
            decreases clauses@.len() - k,
        {
            assert(models[k as int] == clauses@[k as int]@);
            match &clauses[k] {
                Clause::Match(m) => {
                    if !m.optional {
                        let ghost before = pushed@;
                        pushed.add_where(&m.where_clause);
                        assert(pushed@ + pushed_from(models, k as int + 1) =~= before + (
                        where_pushable(opt_model(m.where_clause)) + pushed_from(
                            models,
                            k as int + 1,
                        )));
                    }
                },
                _ => {
                    assert(pushed@ + Seq::<Pushable>::empty() =~= pushed@);
                    return pushed;
                },
            }
            k += 1;
        }
        assert(pushed@ + Seq::<Pushable>::empty() =~= pushed@);
        pushed
    }
}

impl<'q, G: GraphProvider> NodeFilter<G> for Pushed<'q> {
    open spec fn keeps(&self, g: &G) -> Keep<G::NodeId> {
        keep_passing(g, self@)
    }

    /// Whether a candidate node satisfies the predicates on its variable. Evaluation errors are
    /// ignored here (the full WHERE runs later and will surface them), so a node is only pruned
    /// when a predicate is definitively false.
    fn keep(&self, executor: &mut Executor<'_, G>, name: &String, node: G::NodeId) -> (r: bool) {
        let ghost g = executor.source();
        let row: Row<G::NodeId> = Row::new().with(name, Binding::Node(node));
        assert(row@ == node_row(name@, node));
        let mut i: usize = 0;
        while i < self.preds.len()
            invariant
                executor.ok(),
                executor.source() == g,
                old(executor).source() == g,
                row@ == node_row(name@, node),
                i <= self.preds@.len(),
                forall|k: int|
                    0 <= k < i && (#[trigger] self@[k]).0 == name@ ==> !rules_out(
                        g,
                        name@,
                        node,
                        self@[k].1,
                    ),
            decreases self.preds@.len() - i,
        {
            assert(self@[i as int] == (self.preds@[i as int].0@, self.preds@[i as int].1@));
            if self.preds[i].0 == *name {
                if let Ok(value) = executor.eval_expr(&row, self.preds[i].1, None) {
                    if !value.is_truthy() {
                        assert(rules_out(g, name@, node, self@[i as int].1));
                        return false;
                    }
                }
            }
            i += 1;
        }
        true
    }
}

} // verus!
