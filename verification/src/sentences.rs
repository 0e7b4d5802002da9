//! Reading clauses and queries that were written: a query that can be written is the query that its
//! tokens stand for.

use vstd::prelude::*;

use crate::ast::{
    ClauseModel, ExprModel, ItemModel, OrderModel, PathModel, ProjectionModel, QueryModel,
};
use crate::error::ErrorModel;
use crate::grammar::{
    clause_at, clauses_at, columns_at, is_symbol, is_word, item_at, items_at, kind_at, match_at,
    opt_count_at, opt_order_at, opt_where_at, order_at, orders_at, projection_at, query_of,
};
use crate::lexer::{KindModel, Symbol, TokenModel};
use crate::phrases::{begins, ends, lemma_expr, lemma_no_clause_word, lemma_stop_word};
use crate::rereading::{
    lemma_key, lemma_mark, lemma_name, lemma_number, lemma_paths, lemma_split, lemma_variable_names,
    lemma_words,
};
use crate::text::Text;
use crate::writing::{
    clause, clause_ok, clauses, count, count_ok, expr, expr_ok, item, items, key, mark, name,
    opt_free, opt_number, opt_where, order, orders, paths, paths_ok, projection, projection_ok,
    query, query_ok, shown, where_ok, Sign,
};

verus! {

/// Whether a clause or the end of the query stands at a position.
spec fn next_clause(toks: Seq<TokenModel>, i: nat) -> bool {
    kind_at(toks, i) is End || is_word(toks, i, "match"@) || is_word(toks, i, "optional"@)
        || is_word(toks, i, "unwind"@) || is_word(toks, i, "with"@) || is_word(toks, i, "return"@)
}

/// Whether what stands at a position comes behind some parts of a projection: behind its columns
/// (0), its order (1), its `SKIP` (2) or its `LIMIT` (3).
spec fn behind(toks: Seq<TokenModel>, i: nat, part: int) -> bool {
    ||| next_clause(toks, i)
    ||| is_word(toks, i, "where"@)
    ||| part <= 2 && is_word(toks, i, "limit"@)
    ||| part <= 1 && is_word(toks, i, "skip"@)
    ||| part <= 0 && is_word(toks, i, "order"@)
}

#[verifier::rlimit(60)]
#[verifier::spinoff_prover]
proof fn lemma_behind(toks: Seq<TokenModel>, i: nat, part: int)
    requires
        behind(toks, i, part),
    ensures
        ends(toks, i, 0),
        !is_symbol(toks, i, Symbol::Comma),
        !is_symbol(toks, i, Symbol::Minus),
        !is_symbol(toks, i, Symbol::Less),
        !is_word(toks, i, "as"@),
        !is_word(toks, i, "desc"@),
        !is_word(toks, i, "asc"@),
        part >= 1 ==> !is_word(toks, i, "order"@),
        part >= 2 ==> !is_word(toks, i, "skip"@),
        part >= 3 ==> !is_word(toks, i, "limit"@),
{
    lemma_words();
    if kind_at(toks, i) is End {
    } else if is_word(toks, i, "match"@) {
        lemma_stop_word(toks, i, "match"@);
    } else if is_word(toks, i, "optional"@) {
        lemma_stop_word(toks, i, "optional"@);
    } else if is_word(toks, i, "unwind"@) {
        lemma_stop_word(toks, i, "unwind"@);
    } else if is_word(toks, i, "with"@) {
        lemma_stop_word(toks, i, "with"@);
    } else if is_word(toks, i, "return"@) {
        lemma_stop_word(toks, i, "return"@);
    } else if is_word(toks, i, "where"@) {
        lemma_stop_word(toks, i, "where"@);
    } else if is_word(toks, i, "limit"@) {
        lemma_stop_word(toks, i, "limit"@);
    } else if is_word(toks, i, "skip"@) {
        lemma_stop_word(toks, i, "skip"@);
    } else {
        lemma_stop_word(toks, i, "order"@);
    }
}

/// A clause begins with no `WHERE`.
proof fn lemma_next_clause(toks: Seq<TokenModel>, i: nat)
    requires
        next_clause(toks, i),
    ensures
        !is_word(toks, i, "where"@),
{
    lemma_words();
}

// ---- Projections ---------------------------------------------------------------------

#[verifier::rlimit(60)]
#[verifier::spinoff_prover]
proof fn lemma_item(toks: Seq<TokenModel>, i: nat, it: ItemModel)
    requires
        expr_ok(it.expr),
        opt_free(it.alias),
        shown(toks, i, item(it)),
        ends(toks, i + item(it).len(), 0),
        !is_word(toks, i + item(it).len(), "as"@),
    ensures
        item_at(toks, i) == Ok::<(ItemModel, nat), ErrorModel>((it, i + item(it).len())),
        begins(kind_at(toks, i), 0),
        item(it).len() > 0,
        i < toks.len(),
{
    let a = expr(it.expr, 0);
    let j = i + a.len();
    match it.alias {
        None => {
            assert(a + Seq::<Sign>::empty() =~= a);
            lemma_expr(toks, i, it.expr);
        },
        Some(n) => {
            lemma_split(toks, i, a, key("as"@) + name(n));
            lemma_split(toks, j, key("as"@), name(n));
            lemma_key(toks, j, "as"@);
            lemma_stop_word(toks, j, "as"@);
            lemma_expr(toks, i, it.expr);
            lemma_name(toks, j + 1, n);
            lemma_variable_names(toks, j + 1, n);
        },
    }
}

#[verifier::rlimit(60)]
#[verifier::spinoff_prover]
proof fn lemma_items(toks: Seq<TokenModel>, i: nat, its: Seq<ItemModel>, k: int)
    requires
        0 <= k < its.len(),
        forall|m: int|
            0 <= m < its.len() ==> expr_ok((#[trigger] its[m]).expr) && opt_free(its[m].alias),
        shown(toks, i, items(its, k)),
        ends(toks, i + items(its, k).len(), 0),
        !is_word(toks, i + items(its, k).len(), "as"@),
        !is_symbol(toks, i + items(its, k).len(), Symbol::Comma),
    ensures
        items_at(toks, i) == Ok::<(Seq<ItemModel>, nat), ErrorModel>(
            (its.skip(k), i + items(its, k).len()),
        ),
        begins(kind_at(toks, i), 0),
    decreases its.len() - k,
{
    let a = item(its[k]);
    if k + 1 == its.len() {
        lemma_item(toks, i, its[k]);
        assert(its.skip(k) =~= seq![its[k]]);
    } else {
        let c = items(its, k + 1);
        lemma_split(toks, i, a + mark(Symbol::Comma), c);
        lemma_split(toks, i, a, mark(Symbol::Comma));
        let j = i + a.len();
        lemma_mark(toks, j, Symbol::Comma);
        lemma_item(toks, i, its[k]);
        lemma_items(toks, j + 1, its, k + 1);
        assert(seq![its[k]] + its.skip(k + 1) =~= its.skip(k));
    }
}

proof fn lemma_order(toks: Seq<TokenModel>, i: nat, o: OrderModel)
    requires
        expr_ok(o.expr),
        shown(toks, i, order(o)),
        ends(toks, i + order(o).len(), 0),
        !is_word(toks, i + order(o).len(), "desc"@),
        !is_word(toks, i + order(o).len(), "asc"@),
    ensures
        order_at(toks, i) == Ok::<(OrderModel, nat), ErrorModel>((o, i + order(o).len())),
        order(o).len() > 0,
        i < toks.len(),
{
    let a = expr(o.expr, 0);
    let j = i + a.len();
    if o.descending {
        lemma_split(toks, i, a, key("desc"@));
        lemma_key(toks, j, "desc"@);
        lemma_stop_word(toks, j, "desc"@);
    } else {
        assert(a + Seq::<Sign>::empty() =~= a);
    }
    lemma_expr(toks, i, o.expr);
}

/// `ASC` says what is so without it.
pub proof fn lemma_ascending(toks: Seq<TokenModel>, i: nat, e: ExprModel)
    requires
        expr_ok(e),
        shown(toks, i, expr(e, 0) + key("asc"@)),
    ensures
        order_at(toks, i) == Ok::<(OrderModel, nat), ErrorModel>(
            ((OrderModel { expr: e, descending: false }), i + expr(e, 0).len() + 1),
        ),
{
    let j = i + expr(e, 0).len();
    lemma_split(toks, i, expr(e, 0), key("asc"@));
    lemma_key(toks, j, "asc"@);
    lemma_stop_word(toks, j, "asc"@);
    lemma_expr(toks, i, e);
    lemma_words();
}

#[verifier::rlimit(60)]
#[verifier::spinoff_prover]
proof fn lemma_orders(toks: Seq<TokenModel>, i: nat, os: Seq<OrderModel>, k: int)
    requires
        0 <= k < os.len(),
        forall|m: int| 0 <= m < os.len() ==> expr_ok((#[trigger] os[m]).expr),
        shown(toks, i, orders(os, k)),
        ends(toks, i + orders(os, k).len(), 0),
        !is_word(toks, i + orders(os, k).len(), "desc"@),
        !is_word(toks, i + orders(os, k).len(), "asc"@),
        !is_symbol(toks, i + orders(os, k).len(), Symbol::Comma),
    ensures
        orders_at(toks, i) == Ok::<(Seq<OrderModel>, nat), ErrorModel>(
            (os.skip(k), i + orders(os, k).len()),
        ),
    decreases os.len() - k,
{
    let a = order(os[k]);
    if k + 1 == os.len() {
        lemma_order(toks, i, os[k]);
        assert(os.skip(k) =~= seq![os[k]]);
    } else {
        let c = orders(os, k + 1);
        lemma_split(toks, i, a + mark(Symbol::Comma), c);
        lemma_split(toks, i, a, mark(Symbol::Comma));
        let j = i + a.len();
        lemma_mark(toks, j, Symbol::Comma);
        lemma_order(toks, i, os[k]);
        lemma_orders(toks, j + 1, os, k + 1);
        assert(seq![os[k]] + os.skip(k + 1) =~= os.skip(k));
    }
}

proof fn lemma_opt_number(toks: Seq<TokenModel>, i: nat, word: Text, n: Option<nat>)
    requires
        shown(toks, i, opt_number(word, n)),
        count_ok(n),
        !is_word(toks, i + opt_number(word, n).len(), word),
    ensures
        opt_count_at(toks, word, i) == Ok::<(Option<nat>, nat), ErrorModel>(
            (n, i + opt_number(word, n).len()),
        ),
        n is Some ==> is_word(toks, i, word),
{
    if let Some(m) = n {
        lemma_split(toks, i, key(word), count(m));
        lemma_key(toks, i, word);
        lemma_number(toks, i + 1, m);
        assert((m as u64) as nat == m);
    }
}

/// The order of a projection, if there is one.
spec fn opt_order(os: Seq<OrderModel>) -> Seq<Sign> {
    if os.len() == 0 {
        Seq::empty()
    } else {
        key("order"@) + key("by"@) + orders(os, 0)
    }
}

proof fn lemma_opt_order(toks: Seq<TokenModel>, i: nat, os: Seq<OrderModel>)
    requires
        forall|m: int| 0 <= m < os.len() ==> expr_ok((#[trigger] os[m]).expr),
        shown(toks, i, opt_order(os)),
        behind(toks, i + opt_order(os).len(), 1),
    ensures
        opt_order_at(toks, i) == Ok::<(Seq<OrderModel>, nat), ErrorModel>(
            (os, i + opt_order(os).len()),
        ),
        behind(toks, i, 0),
{
    let j = i + opt_order(os).len();
    lemma_behind(toks, j, 1);
    if os.len() == 0 {
        assert(os =~= Seq::empty());
    } else {
        lemma_split(toks, i, key("order"@) + key("by"@), orders(os, 0));
        lemma_split(toks, i, key("order"@), key("by"@));
        lemma_key(toks, i, "order"@);
        lemma_key(toks, i + 1, "by"@);
        lemma_orders(toks, i + 2, os, 0);
        assert(os.skip(0) =~= os);
    }
}

/// The columns of a projection.
spec fn columns(p: ProjectionModel) -> Seq<Sign> {
    if p.star {
        mark(Symbol::Star)
    } else {
        items(p.items, 0)
    }
}

proof fn lemma_columns(toks: Seq<TokenModel>, i: nat, p: ProjectionModel)
    requires
        projection_ok(p),
        shown(toks, i, columns(p)),
        behind(toks, i + columns(p).len(), 0),
    ensures
        columns_at(toks, i) == Ok::<((bool, Seq<ItemModel>), nat), ErrorModel>(
            ((p.star, p.items), i + columns(p).len()),
        ),
        !is_word(toks, i, "distinct"@),
{
    let j = i + columns(p).len();
    lemma_behind(toks, j, 0);
    if p.star {
        lemma_mark(toks, i, Symbol::Star);
        assert(p.items =~= Seq::empty());
    } else {
        lemma_items(toks, i, p.items, 0);
        assert(p.items.skip(0) =~= p.items);
        lemma_no_clause_word(toks, i, 0);
    }
}

#[verifier::rlimit(60)]
#[verifier::spinoff_prover]
proof fn lemma_projection(toks: Seq<TokenModel>, i: nat, p: ProjectionModel)
    requires
        projection_ok(p),
        shown(toks, i, projection(p)),
        behind(toks, i + projection(p).len(), 3),
    ensures
        projection_at(toks, i) == Ok::<(ProjectionModel, nat), ErrorModel>(
            (p, i + projection(p).len()),
        ),
{
    let d = if p.distinct {
        key("distinct"@)
    } else {
        Seq::empty()
    };
    let a = columns(p);
    let b = opt_order(p.order_by);
    let c = opt_number("skip"@, p.skip);
    let f = opt_number("limit"@, p.limit);
    assert(projection(p) == d + a + b + c + f);
    lemma_split(toks, i, d + a + b + c, f);
    lemma_split(toks, i, d + a + b, c);
    lemma_split(toks, i, d + a, b);
    lemma_split(toks, i, d, a);
    let m = i + d.len();
    let n = m + a.len();
    let o = n + b.len();
    let q = o + c.len();
    lemma_behind(toks, q + f.len(), 3);
    lemma_opt_number(toks, q, "limit"@, p.limit);
    assert(behind(toks, q, 2));
    lemma_behind(toks, q, 2);
    lemma_opt_number(toks, o, "skip"@, p.skip);
    assert(behind(toks, o, 1));
    lemma_opt_order(toks, n, p.order_by);
    lemma_columns(toks, m, p);
    if p.distinct {
        lemma_key(toks, i, "distinct"@);
    }
}

// ---- Clauses -------------------------------------------------------------------------

proof fn lemma_opt_where(toks: Seq<TokenModel>, i: nat, e: Option<ExprModel>)
    requires
        where_ok(e),
        shown(toks, i, opt_where(e)),
        next_clause(toks, i + opt_where(e).len()),
    ensures
        opt_where_at(toks, i) == Ok::<(Option<ExprModel>, nat), ErrorModel>(
            (e, i + opt_where(e).len()),
        ),
        behind(toks, i, 3),
{
    let j = i + opt_where(e).len();
    lemma_next_clause(toks, j);
    lemma_behind(toks, j, 3);
    if let Some(x) = e {
        lemma_split(toks, i, key("where"@), expr(x, 0));
        lemma_key(toks, i, "where"@);
        lemma_expr(toks, i + 1, x);
    }
}

proof fn lemma_match(
    toks: Seq<TokenModel>,
    i: nat,
    optional: bool,
    patterns: Seq<PathModel>,
    where_clause: Option<ExprModel>,
)
    requires
        paths_ok(patterns),
        where_ok(where_clause),
        shown(toks, i, paths(patterns, 0)),
        shown(toks, i + paths(patterns, 0).len(), opt_where(where_clause)),
        next_clause(toks, i + paths(patterns, 0).len() + opt_where(where_clause).len()),
    ensures
        match_at(toks, optional, i) == Ok::<(ClauseModel, nat), ErrorModel>(
            (
                (ClauseModel::Match { optional, patterns, where_clause }),
                i + paths(patterns, 0).len() + opt_where(where_clause).len(),
            ),
        ),
{
    let j = i + paths(patterns, 0).len();
    lemma_opt_where(toks, j, where_clause);
    lemma_behind(toks, j, 3);
    lemma_paths(toks, i, patterns, 0);
    assert(patterns.skip(0) =~= patterns);
}

/// The words that clauses begin with differ.
proof fn lemma_clause_words(toks: Seq<TokenModel>, i: nat)
    ensures
        is_word(toks, i, "match"@) ==> !is_word(toks, i, "return"@),
        is_word(toks, i, "optional"@) ==> !is_word(toks, i, "return"@) && !is_word(
            toks,
            i,
            "match"@,
        ),
        is_word(toks, i, "unwind"@) ==> !is_word(toks, i, "return"@) && !is_word(toks, i, "match"@)
            && !is_word(toks, i, "optional"@),
        is_word(toks, i, "with"@) ==> !is_word(toks, i, "return"@) && !is_word(toks, i, "match"@)
            && !is_word(toks, i, "optional"@) && !is_word(toks, i, "unwind"@),
{
    lemma_words();
}

#[verifier::rlimit(60)]
#[verifier::spinoff_prover]
proof fn lemma_match_clause(toks: Seq<TokenModel>, i: nat, c: ClauseModel)
    requires
        c is Match,
        clause_ok(c),
        shown(toks, i, clause(c)),
        next_clause(toks, i + clause(c).len()),
    ensures
        clause_at(toks, i) == Ok::<(ClauseModel, nat), ErrorModel>((c, i + clause(c).len())),
        next_clause(toks, i),
        !is_word(toks, i, "return"@),
        clause(c).len() > 0,
        i < toks.len(),
{
    lemma_clause_words(toks, i);
    let o = if c->optional {
        key("optional"@)
    } else {
        Seq::empty()
    };
    let a = key("match"@);
    let b = paths(c->patterns, 0);
    let d = opt_where(c->Match_where_clause);
    lemma_split(toks, i, o + a + b, d);
    lemma_split(toks, i, o + a, b);
    lemma_split(toks, i, o, a);
    lemma_key(toks, i + o.len(), "match"@);
    if c->optional {
        lemma_key(toks, i, "optional"@);
    }
    lemma_match(toks, i + o.len() + 1, c->optional, c->patterns, c->Match_where_clause);
}

#[verifier::rlimit(60)]
#[verifier::spinoff_prover]
proof fn lemma_unwind_clause(toks: Seq<TokenModel>, i: nat, c: ClauseModel)
    requires
        c is Unwind,
        clause_ok(c),
        shown(toks, i, clause(c)),
        next_clause(toks, i + clause(c).len()),
    ensures
        clause_at(toks, i) == Ok::<(ClauseModel, nat), ErrorModel>((c, i + clause(c).len())),
        next_clause(toks, i),
        !is_word(toks, i, "return"@),
        clause(c).len() > 0,
        i < toks.len(),
{
    lemma_clause_words(toks, i);
    let a = expr(c->expr, 0);
    let var = c->var;
    lemma_split(toks, i, key("unwind"@) + a + key("as"@), name(var));
    lemma_split(toks, i, key("unwind"@) + a, key("as"@));
    lemma_split(toks, i, key("unwind"@), a);
    let j = i + 1 + a.len();
    lemma_key(toks, i, "unwind"@);
    lemma_key(toks, j, "as"@);
    lemma_stop_word(toks, j, "as"@);
    lemma_expr(toks, i + 1, c->expr);
    lemma_name(toks, j + 1, var);
    lemma_variable_names(toks, j + 1, var);
}

#[verifier::rlimit(60)]
#[verifier::spinoff_prover]
proof fn lemma_with_clause(toks: Seq<TokenModel>, i: nat, c: ClauseModel)
    requires
        c is With,
        clause_ok(c),
        shown(toks, i, clause(c)),
        next_clause(toks, i + clause(c).len()),
    ensures
        clause_at(toks, i) == Ok::<(ClauseModel, nat), ErrorModel>((c, i + clause(c).len())),
        next_clause(toks, i),
        !is_word(toks, i, "return"@),
        clause(c).len() > 0,
        i < toks.len(),
{
    lemma_clause_words(toks, i);
    let a = projection(c->projection);
    let d = opt_where(c->With_where_clause);
    lemma_split(toks, i, key("with"@) + a, d);
    lemma_split(toks, i, key("with"@), a);
    lemma_key(toks, i, "with"@);
    lemma_opt_where(toks, i + 1 + a.len(), c->With_where_clause);
    lemma_projection(toks, i + 1, c->projection);
}

proof fn lemma_clause(toks: Seq<TokenModel>, i: nat, c: ClauseModel)
    requires
        clause_ok(c),
        shown(toks, i, clause(c)),
        next_clause(toks, i + clause(c).len()),
    ensures
        clause_at(toks, i) == Ok::<(ClauseModel, nat), ErrorModel>((c, i + clause(c).len())),
        next_clause(toks, i),
        !is_word(toks, i, "return"@),
        clause(c).len() > 0,
        i < toks.len(),
{
    match c {
        ClauseModel::Match { .. } => {
            lemma_match_clause(toks, i, c);
        },
        ClauseModel::Unwind { .. } => {
            lemma_unwind_clause(toks, i, c);
        },
        ClauseModel::With { .. } => {
            lemma_with_clause(toks, i, c);
        },
    }
}

proof fn lemma_clauses(toks: Seq<TokenModel>, i: nat, cs: Seq<ClauseModel>, k: int)
    requires
        0 <= k <= cs.len(),
        forall|m: int| 0 <= m < cs.len() ==> clause_ok(#[trigger] cs[m]),
        shown(toks, i, clauses(cs, k)),
        is_word(toks, i + clauses(cs, k).len(), "return"@),
    ensures
        clauses_at(toks, i) == Ok::<(Seq<ClauseModel>, nat), ErrorModel>(
            (cs.skip(k), i + clauses(cs, k).len()),
        ),
        next_clause(toks, i),
        k < cs.len() ==> !is_word(toks, i, "return"@),
    decreases cs.len() - k,
{
    if k < cs.len() {
        let a = clause(cs[k]);
        lemma_split(toks, i, a, clauses(cs, k + 1));
        lemma_clauses(toks, i + a.len(), cs, k + 1);
        lemma_clause(toks, i, cs[k]);
        assert(seq![cs[k]] + cs.skip(k + 1) =~= cs.skip(k));
    } else {
        assert(cs.skip(k) =~= Seq::empty());
    }
}

/// Reading what was written: the tokens of a query that can be written stand for that query,
/// whatever the case of the keywords.
#[verifier::rlimit(60)]
#[verifier::spinoff_prover]
pub proof fn lemma_query_read_back(toks: Seq<TokenModel>, q: QueryModel)
    requires
        query_ok(q),
        shown(toks, 0, query(q)),
        toks.len() == query(q).len() + 1,
        toks.last().kind == KindModel::End,
    ensures
        query_of(toks) == Ok::<QueryModel, ErrorModel>(q),
{
    let a = clauses(q.clauses, 0);
    let b = projection(q.result);
    lemma_split(toks, 0, a + key("return"@), b);
    lemma_split(toks, 0, a, key("return"@));
    let j = a.len();
    lemma_key(toks, j, "return"@);
    lemma_clauses(toks, 0, q.clauses, 0);
    assert(q.clauses.skip(0) =~= q.clauses);
    let m = j + 1 + b.len();
    assert(kind_at(toks, m) is End);
    lemma_projection(toks, j + 1, q.result);
}

/// Nothing stands behind a query: where a clause, a `WHERE` or a second `RETURN` follows what
/// `RETURN` gives back, the tokens stand for no query.
#[verifier::rlimit(60)]
#[verifier::spinoff_prover]
pub proof fn lemma_nothing_behind(toks: Seq<TokenModel>, q: QueryModel)
    requires
        query_ok(q),
        shown(toks, 0, query(q)),
        ({
            let m = query(q).len();
            is_word(toks, m, "match"@) || is_word(toks, m, "optional"@) || is_word(
                toks,
                m,
                "unwind"@,
            ) || is_word(toks, m, "with"@) || is_word(toks, m, "where"@) || is_word(
                toks,
                m,
                "return"@,
            )
        }),
    ensures
        query_of(toks) is Err,
{
    let a = clauses(q.clauses, 0);
    let b = projection(q.result);
    lemma_split(toks, 0, a + key("return"@), b);
    lemma_split(toks, 0, a, key("return"@));
    let j = a.len();
    lemma_key(toks, j, "return"@);
    lemma_clauses(toks, 0, q.clauses, 0);
    assert(q.clauses.skip(0) =~= q.clauses);
    lemma_projection(toks, j + 1, q.result);
}

} // verus!
