//! The laws of layout: what stands between the tokens of a text has no part in the query that it
//! stands for.

use vstd::prelude::*;

use crate::ast::ExprModel;
use crate::error::{prepend, ErrorModel};
use crate::grammar::{
    after_symbol, after_word, agg_of, and_rest_at, branches_at, call_at, case_at, case_end_at,
    case_rest_at, clause_at, clauses_at, columns_at, comparison_at, conjunction_at, entries_at,
    entry_at, exists_at, expr_at, exprs_at, hops_at, is_symbol, is_word, item_at, items_at, kind_at,
    literal_at, match_at, name_at, names_at, negation_at, node_at, operator_at, opt_names_at,
    opt_order_at, opt_props_at, opt_var_at, opt_where_at, or_rest_at, order_at, orders_at, parsed,
    path_at, paths_at, primary_at, projection_at, props_at, query_of, rel_at, rel_body_at,
    word_operand_at,
};
use crate::lexer::{
    char_at, comment_end, digits_end, is_digit, is_space, is_word_part, is_word_start, left,
    line_end, past, piece_at, string_from, tokens_from, tokens_of, word_end, KindModel, Piece,
    Symbol, TokenModel,
};
use crate::text::{ascii_lower, Text};

verus! {

/// Whether the tokens are the same, wherever they stand.
pub open spec fn same_kinds(s: Seq<TokenModel>, t: Seq<TokenModel>) -> bool {
    &&& s.len() == t.len()
    &&& forall|i: nat|
        #![trigger kind_at(s, i)]
        #![trigger kind_at(t, i)]
        kind_at(s, i) == kind_at(t, i)
}

/// Whether the same has been read, or nothing.
pub open spec fn alike<A>(a: Result<A, ErrorModel>, b: Result<A, ErrorModel>) -> bool {
    match (a, b) {
        (Ok(x), Ok(y)) => x == y,
        (Err(_), Err(_)) => true,
        _ => false,
    }
}

// ---- Patterns --------------------------------------------------------------------

proof fn lemma_names(s: Seq<TokenModel>, t: Seq<TokenModel>, i: nat)
    requires
        same_kinds(s, t),
    ensures
        alike(names_at(s, i), names_at(t, i)),
    decreases left(s.len(), i),
{
    if kind_at(s, i) is Word && is_symbol(s, i + 1, Symbol::Pipe) {
        lemma_names(s, t, i + 2);
        lemma_names(s, t, i + 3);
    }
}

proof fn lemma_props(s: Seq<TokenModel>, t: Seq<TokenModel>, i: nat)
    requires
        same_kinds(s, t),
    ensures
        alike(props_at(s, i), props_at(t, i)),
    decreases left(s.len(), i),
{
    if name_at(s, i) is Ok && after_symbol(s, i + 1, Symbol::Colon, "`:`"@) is Ok {
        if let Ok((_, j)) = literal_at(s, i + 2) {
            if is_symbol(s, j, Symbol::Comma) {
                lemma_props(s, t, past(i, j + 1));
            }
        }
    }
}

proof fn lemma_names_and_props(s: Seq<TokenModel>, t: Seq<TokenModel>, i: nat)
    requires
        same_kinds(s, t),
    ensures
        alike(opt_names_at(s, i), opt_names_at(t, i)),
        alike(opt_props_at(s, i), opt_props_at(t, i)),
{
    lemma_names(s, t, i + 1);
    lemma_props(s, t, i + 1);
}

#[verifier::rlimit(40)]
proof fn lemma_node(s: Seq<TokenModel>, t: Seq<TokenModel>, i: nat)
    requires
        same_kinds(s, t),
    ensures
        alike(node_at(s, i), node_at(t, i)),
{
    if let Ok((_, b)) = opt_var_at(s, i + 1) {
        lemma_names_and_props(s, t, b);
        if let Ok((_, c)) = opt_names_at(s, b) {
            lemma_names_and_props(s, t, c);
        }
    }
}

proof fn lemma_rel_body(s: Seq<TokenModel>, t: Seq<TokenModel>, i: nat)
    requires
        same_kinds(s, t),
    ensures
        alike(rel_body_at(s, i), rel_body_at(t, i)),
{
    if let Ok((_, b)) = opt_var_at(s, i + 1) {
        lemma_names_and_props(s, t, b);
    }
}

#[verifier::rlimit(40)]
proof fn lemma_rel(s: Seq<TokenModel>, t: Seq<TokenModel>, i: nat)
    requires
        same_kinds(s, t),
    ensures
        alike(rel_at(s, i), rel_at(t, i)),
{
    lemma_rel_body(s, t, i + 1);
    lemma_rel_body(s, t, i + 2);
}

proof fn lemma_hops(s: Seq<TokenModel>, t: Seq<TokenModel>, i: nat)
    requires
        same_kinds(s, t),
    ensures
        alike(hops_at(s, i), hops_at(t, i)),
    decreases left(s.len(), i),
{
    if is_symbol(s, i, Symbol::Minus) || is_symbol(s, i, Symbol::Less) {
        lemma_rel(s, t, i);
        if let Ok((_, a)) = rel_at(s, i) {
            lemma_node(s, t, a);
            if let Ok((_, b)) = node_at(s, a) {
                lemma_hops(s, t, past(i, b));
            }
        }
    }
}

proof fn lemma_path(s: Seq<TokenModel>, t: Seq<TokenModel>, i: nat)
    requires
        same_kinds(s, t),
    ensures
        alike(path_at(s, i), path_at(t, i)),
{
    lemma_node(s, t, i);
    if let Ok((_, a)) = node_at(s, i) {
        lemma_hops(s, t, a);
    }
}

proof fn lemma_paths(s: Seq<TokenModel>, t: Seq<TokenModel>, i: nat)
    requires
        same_kinds(s, t),
    ensures
        alike(paths_at(s, i), paths_at(t, i)),
    decreases left(s.len(), i),
{
    lemma_path(s, t, i);
    if let Ok((_, j)) = path_at(s, i) {
        if i < s.len() && is_symbol(s, j, Symbol::Comma) {
            lemma_paths(s, t, past(i, j + 1));
        }
    }
}

// ---- Expressions -----------------------------------------------------------------

/// Expressions with the same tokens are read alike.
proof fn lemma_expr(s: Seq<TokenModel>, t: Seq<TokenModel>, i: nat)
    requires
        same_kinds(s, t),
    ensures
        alike(expr_at(s, i), expr_at(t, i)),
    decreases left(s.len(), i), 9nat,
{
    lemma_conjunction(s, t, i);
    if let Ok((x, j)) = conjunction_at(s, i) {
        lemma_or_rest(s, t, x, past(i, j));
    }
}

proof fn lemma_or_rest(s: Seq<TokenModel>, t: Seq<TokenModel>, x: ExprModel, i: nat)
    requires
        same_kinds(s, t),
    ensures
        alike(or_rest_at(s, x, i), or_rest_at(t, x, i)),
    decreases left(s.len(), i), 0nat,
{
    if is_word(s, i, "or"@) {
        lemma_conjunction(s, t, i + 1);
        if let Ok((y, j)) = conjunction_at(s, i + 1) {
            lemma_or_rest(s, t, ExprModel::Or(Box::new(x), Box::new(y)), past(i, j));
        }
    }
}

proof fn lemma_conjunction(s: Seq<TokenModel>, t: Seq<TokenModel>, i: nat)
    requires
        same_kinds(s, t),
    ensures
        alike(conjunction_at(s, i), conjunction_at(t, i)),
    decreases left(s.len(), i), 8nat,
{
    lemma_negation(s, t, i);
    if let Ok((x, j)) = negation_at(s, i) {
        lemma_and_rest(s, t, x, past(i, j));
    }
}

proof fn lemma_and_rest(s: Seq<TokenModel>, t: Seq<TokenModel>, x: ExprModel, i: nat)
    requires
        same_kinds(s, t),
    ensures
        alike(and_rest_at(s, x, i), and_rest_at(t, x, i)),
    decreases left(s.len(), i), 0nat,
{
    if is_word(s, i, "and"@) {
        lemma_negation(s, t, i + 1);
        if let Ok((y, j)) = negation_at(s, i + 1) {
            lemma_and_rest(s, t, ExprModel::And(Box::new(x), Box::new(y)), past(i, j));
        }
    }
}

proof fn lemma_negation(s: Seq<TokenModel>, t: Seq<TokenModel>, i: nat)
    requires
        same_kinds(s, t),
    ensures
        alike(negation_at(s, i), negation_at(t, i)),
    decreases left(s.len(), i), 7nat,
{
    if is_word(s, i, "not"@) {
        lemma_negation(s, t, i + 1);
    } else {
        lemma_comparison(s, t, i);
    }
}

#[verifier::rlimit(40)]
proof fn lemma_comparison(s: Seq<TokenModel>, t: Seq<TokenModel>, i: nat)
    requires
        same_kinds(s, t),
    ensures
        alike(comparison_at(s, i), comparison_at(t, i)),
    decreases left(s.len(), i), 6nat,
{
    lemma_primary(s, t, i);
    if let Ok((_, k)) = primary_at(s, i) {
        if let Some((_, a)) = operator_at(s, past(i, k)) {
            lemma_primary(s, t, a);
        }
    }
}

#[verifier::rlimit(40)]
proof fn lemma_primary(s: Seq<TokenModel>, t: Seq<TokenModel>, i: nat)
    requires
        same_kinds(s, t),
    ensures
        alike(primary_at(s, i), primary_at(t, i)),
    decreases left(s.len(), i), 5nat,
{
    match kind_at(s, i) {
        KindModel::Symbol(Symbol::LBracket) => {
            lemma_exprs(s, t, i + 1);
        },
        KindModel::Symbol(Symbol::LParen) => {
            lemma_expr(s, t, i + 1);
        },
        KindModel::Word(w) => {
            lemma_word_operand(s, t, w, i);
        },
        _ => {},
    }
}

#[verifier::rlimit(40)]
proof fn lemma_word_operand(s: Seq<TokenModel>, t: Seq<TokenModel>, w: Text, i: nat)
    requires
        same_kinds(s, t),
    ensures
        alike(word_operand_at(s, w, i), word_operand_at(t, w, i)),
    decreases left(s.len(), i), 4nat,
{
    let lower = ascii_lower(w);
    if i < s.len() {
        if lower == "case"@ {
            lemma_case(s, t, i + 1);
        } else if lower == "exists"@ {
            lemma_exists(s, t, i + 2);
        } else if is_symbol(s, i + 1, Symbol::LParen) {
            lemma_call(s, t, w, i + 2);
        } else if is_symbol(s, i + 1, Symbol::LBrace) {
            lemma_entries(s, t, i + 2);
        }
    }
}

proof fn lemma_exprs(s: Seq<TokenModel>, t: Seq<TokenModel>, i: nat)
    requires
        same_kinds(s, t),
    ensures
        alike(exprs_at(s, i), exprs_at(t, i)),
    decreases left(s.len(), i), 10nat,
{
    lemma_expr(s, t, i);
    if let Ok((_, j)) = expr_at(s, i) {
        if i < s.len() && is_symbol(s, j, Symbol::Comma) {
            lemma_exprs(s, t, past(i, j + 1));
        }
    }
}

#[verifier::rlimit(40)]
proof fn lemma_call(s: Seq<TokenModel>, t: Seq<TokenModel>, name: Text, i: nat)
    requires
        same_kinds(s, t),
    ensures
        alike(call_at(s, name, i), call_at(t, name, i)),
    decreases left(s.len(), i), 11nat,
{
    if agg_of(ascii_lower(name)) is None {
        lemma_exprs(s, t, i);
    } else if is_word(s, i, "distinct"@) {
        lemma_expr(s, t, i + 1);
    } else {
        lemma_expr(s, t, i);
    }
}

proof fn lemma_entries(s: Seq<TokenModel>, t: Seq<TokenModel>, i: nat)
    requires
        same_kinds(s, t),
    ensures
        alike(entries_at(s, i), entries_at(t, i)),
    decreases left(s.len(), i), 12nat,
{
    lemma_entry(s, t, i);
    if let Ok((_, j)) = entry_at(s, i) {
        if i < s.len() && is_symbol(s, j, Symbol::Comma) {
            lemma_entries(s, t, past(i, j + 1));
        }
    }
}

proof fn lemma_entry(s: Seq<TokenModel>, t: Seq<TokenModel>, i: nat)
    requires
        same_kinds(s, t),
    ensures
        alike(entry_at(s, i), entry_at(t, i)),
    decreases left(s.len(), i), 11nat,
{
    if name_at(s, i) is Ok {
        lemma_expr(s, t, i + 2);
    }
}

#[verifier::rlimit(40)]
proof fn lemma_exists(s: Seq<TokenModel>, t: Seq<TokenModel>, i: nat)
    requires
        same_kinds(s, t),
    ensures
        alike(exists_at(s, i), exists_at(t, i)),
    decreases left(s.len(), i), 11nat,
{
    let a = if is_word(s, i, "match"@) {
        i + 1
    } else {
        i
    };
    lemma_paths(s, t, a);
    if let Ok((_, k)) = paths_at(s, a) {
        let b = past(i, k);
        if is_word(s, b, "where"@) {
            lemma_expr(s, t, b + 1);
        }
    }
}

proof fn lemma_case(s: Seq<TokenModel>, t: Seq<TokenModel>, i: nat)
    requires
        same_kinds(s, t),
    ensures
        alike(case_at(s, i), case_at(t, i)),
    decreases left(s.len(), i), 11nat,
{
    if is_word(s, i, "when"@) {
        lemma_case_rest(s, t, None, i);
    } else {
        lemma_expr(s, t, i);
        if let Ok((x, j)) = expr_at(s, i) {
            lemma_case_rest(s, t, Some(Box::new(x)), past(i, j));
        }
    }
}

proof fn lemma_case_rest(
    s: Seq<TokenModel>,
    t: Seq<TokenModel>,
    operand: Option<Box<ExprModel>>,
    i: nat,
)
    requires
        same_kinds(s, t),
    ensures
        alike(case_rest_at(s, operand, i), case_rest_at(t, operand, i)),
    decreases left(s.len(), i), 2nat,
{
    if is_word(s, i, "when"@) {
        lemma_branches(s, t, i);
        if let Ok((_, k)) = branches_at(s, i) {
            lemma_case_end(s, t, past(i, k));
        }
    }
}

proof fn lemma_case_end(s: Seq<TokenModel>, t: Seq<TokenModel>, i: nat)
    requires
        same_kinds(s, t),
    ensures
        alike(case_end_at(s, i), case_end_at(t, i)),
    decreases left(s.len(), i), 0nat,
{
    if is_word(s, i, "else"@) {
        lemma_expr(s, t, i + 1);
    }
}

proof fn lemma_branches(s: Seq<TokenModel>, t: Seq<TokenModel>, i: nat)
    requires
        same_kinds(s, t),
    ensures
        alike(branches_at(s, i), branches_at(t, i)),
    decreases left(s.len(), i), 1nat,
{
    if is_word(s, i, "when"@) {
        lemma_expr(s, t, i + 1);
        if let Ok((_, k)) = expr_at(s, i + 1) {
            let a = past(i, k);
            if let Ok(b) = after_word(s, a, "then"@, "THEN"@) {
                lemma_expr(s, t, b);
                if let Ok((_, j)) = expr_at(s, b) {
                    lemma_branches(s, t, past(i, j));
                }
            }
        }
    }
}

// ---- Projections and clauses -----------------------------------------------------

proof fn lemma_item(s: Seq<TokenModel>, t: Seq<TokenModel>, i: nat)
    requires
        same_kinds(s, t),
    ensures
        alike(item_at(s, i), item_at(t, i)),
{
    lemma_expr(s, t, i);
}

proof fn lemma_items(s: Seq<TokenModel>, t: Seq<TokenModel>, i: nat)
    requires
        same_kinds(s, t),
    ensures
        alike(items_at(s, i), items_at(t, i)),
    decreases left(s.len(), i),
{
    lemma_item(s, t, i);
    if let Ok((_, j)) = item_at(s, i) {
        if i < s.len() && is_symbol(s, j, Symbol::Comma) {
            lemma_items(s, t, past(i, j + 1));
        }
    }
}

proof fn lemma_order(s: Seq<TokenModel>, t: Seq<TokenModel>, i: nat)
    requires
        same_kinds(s, t),
    ensures
        alike(order_at(s, i), order_at(t, i)),
{
    lemma_expr(s, t, i);
}

proof fn lemma_orders(s: Seq<TokenModel>, t: Seq<TokenModel>, i: nat)
    requires
        same_kinds(s, t),
    ensures
        alike(orders_at(s, i), orders_at(t, i)),
    decreases left(s.len(), i),
{
    lemma_order(s, t, i);
    if let Ok((_, j)) = order_at(s, i) {
        if i < s.len() && is_symbol(s, j, Symbol::Comma) {
            lemma_orders(s, t, past(i, j + 1));
        }
    }
}

proof fn lemma_opt_order(s: Seq<TokenModel>, t: Seq<TokenModel>, i: nat)
    requires
        same_kinds(s, t),
    ensures
        alike(opt_order_at(s, i), opt_order_at(t, i)),
{
    lemma_orders(s, t, i + 2);
}

#[verifier::rlimit(40)]
proof fn lemma_projection(s: Seq<TokenModel>, t: Seq<TokenModel>, i: nat)
    requires
        same_kinds(s, t),
    ensures
        alike(projection_at(s, i), projection_at(t, i)),
{
    let a = if is_word(s, i, "distinct"@) {
        i + 1
    } else {
        i
    };
    lemma_items(s, t, a);
    if let Ok((_, b)) = columns_at(s, a) {
        lemma_opt_order(s, t, b);
    }
}

proof fn lemma_opt_where(s: Seq<TokenModel>, t: Seq<TokenModel>, i: nat)
    requires
        same_kinds(s, t),
    ensures
        alike(opt_where_at(s, i), opt_where_at(t, i)),
{
    lemma_expr(s, t, i + 1);
}

proof fn lemma_match(s: Seq<TokenModel>, t: Seq<TokenModel>, optional: bool, i: nat)
    requires
        same_kinds(s, t),
    ensures
        alike(match_at(s, optional, i), match_at(t, optional, i)),
{
    lemma_paths(s, t, i);
    if let Ok((_, a)) = paths_at(s, i) {
        lemma_opt_where(s, t, a);
    }
}

#[verifier::rlimit(40)]
proof fn lemma_clause(s: Seq<TokenModel>, t: Seq<TokenModel>, i: nat)
    requires
        same_kinds(s, t),
    ensures
        alike(clause_at(s, i), clause_at(t, i)),
{
    if is_word(s, i, "match"@) {
        lemma_match(s, t, false, i + 1);
    } else if is_word(s, i, "optional"@) {
        lemma_match(s, t, true, i + 2);
    } else if is_word(s, i, "unwind"@) {
        lemma_expr(s, t, i + 1);
    } else if is_word(s, i, "with"@) {
        lemma_projection(s, t, i + 1);
        if let Ok((_, a)) = projection_at(s, i + 1) {
            lemma_opt_where(s, t, a);
        }
    }
}

proof fn lemma_clauses(s: Seq<TokenModel>, t: Seq<TokenModel>, i: nat)
    requires
        same_kinds(s, t),
    ensures
        alike(clauses_at(s, i), clauses_at(t, i)),
    decreases left(s.len(), i),
{
    if !is_word(s, i, "return"@) && i < s.len() {
        lemma_clause(s, t, i);
        if let Ok((_, j)) = clause_at(s, i) {
            lemma_clauses(s, t, past(i, j));
        }
    }
}

/// Tokens of the same kinds stand for the same query, or for none.
pub proof fn lemma_same_kinds_same_query(s: Seq<TokenModel>, t: Seq<TokenModel>)
    requires
        same_kinds(s, t),
    ensures
        alike(query_of(s), query_of(t)),
{
    lemma_clauses(s, t, 0);
    if let Ok((_, a)) = clauses_at(s, 0) {
        lemma_projection(s, t, a + 1);
    }
}

// ---- Texts -----------------------------------------------------------------------

/// Whether the same tokens have been read, wherever they stand, or none.
pub open spec fn lexed_alike(
    a: Result<Seq<TokenModel>, ErrorModel>,
    b: Result<Seq<TokenModel>, ErrorModel>,
) -> bool {
    match (a, b) {
        (Ok(x), Ok(y)) => same_kinds(x, y),
        (Err(_), Err(_)) => true,
        _ => false,
    }
}

/// Tokens stay the same when a token of the same kind comes before them.
proof fn lemma_one_more_token(
    a: Result<Seq<TokenModel>, ErrorModel>,
    b: Result<Seq<TokenModel>, ErrorModel>,
    x: TokenModel,
    y: TokenModel,
)
    requires
        lexed_alike(a, b),
        x.kind == y.kind,
    ensures
        lexed_alike(prepend(seq![x], a), prepend(seq![y], b)),
{
    if let (Ok(s), Ok(t)) = (a, b) {
        let u = seq![x] + s;
        let v = seq![y] + t;
        assert forall|i: nat|
            #![trigger kind_at(u, i)]
            #![trigger kind_at(v, i)]
            kind_at(u, i) == kind_at(v, i) by {
            if i > 0 {
                assert(kind_at(s, (i - 1) as nat) == kind_at(t, (i - 1) as nat));
            }
        }
    }
}

// ---- The text behind a gap -------------------------------------------------------

/// Whether `s` goes on as `t` does from position `m` on, `d` characters later.
spec fn shifted(s: Text, t: Text, d: nat, m: nat) -> bool {
    &&& s.len() == t.len() + d
    &&& forall|x: int| m <= x < t.len() ==> #[trigger] t[x] == s[x + d]
}

proof fn lemma_line_end_shifts(s: Text, t: Text, d: nat, m: nat, x: nat)
    requires
        shifted(s, t, d, m),
        m <= x,
    ensures
        line_end(s, x + d) == line_end(t, x) + d,
        x <= line_end(t, x),
    decreases t.len() - x,
{
    if x < t.len() && t[x as int] != '\n' {
        lemma_line_end_shifts(s, t, d, m, x + 1);
    }
}

proof fn lemma_comment_end_shifts(s: Text, t: Text, d: nat, m: nat, x: nat)
    requires
        shifted(s, t, d, m),
        m <= x,
    ensures
        match comment_end(t, x) {
            Some(j) => x <= j && comment_end(s, x + d) == Some(j + d),
            None => comment_end(s, x + d) is None,
        },
    decreases t.len() - x,
{
    if x + 1 < t.len() {
        assert(t[x as int] == s[x as int + d]);
        assert(t[x as int + 1] == s[x as int + 1 + d]);
        if !(t[x as int] == '*' && t[x as int + 1] == '/') {
            lemma_comment_end_shifts(s, t, d, m, x + 1);
        }
    }
}

proof fn lemma_word_end_shifts(s: Text, t: Text, d: nat, m: nat, x: nat)
    requires
        shifted(s, t, d, m),
        m <= x,
    ensures
        word_end(s, x + d) == word_end(t, x) + d,
        x <= word_end(t, x),
        x <= t.len() ==> word_end(t, x) <= t.len(),
    decreases t.len() - x,
{
    if x < t.len() && is_word_part(t[x as int]) {
        lemma_word_end_shifts(s, t, d, m, x + 1);
    }
}

proof fn lemma_digits_end_shifts(s: Text, t: Text, d: nat, m: nat, x: nat)
    requires
        shifted(s, t, d, m),
        m <= x,
    ensures
        digits_end(s, x + d) == digits_end(t, x) + d,
        x <= digits_end(t, x),
        x <= t.len() ==> digits_end(t, x) <= t.len(),
    decreases t.len() - x,
{
    if x < t.len() && is_digit(t[x as int]) {
        lemma_digits_end_shifts(s, t, d, m, x + 1);
    }
}

proof fn lemma_string_shifts(s: Text, t: Text, d: nat, m: nat, quote: char, x: nat)
    requires
        shifted(s, t, d, m),
        m <= x,
    ensures
        match string_from(t, quote, x) {
            Some((text, j)) => x <= j && string_from(s, quote, x + d) == Some((text, j + d)),
            None => string_from(s, quote, x + d) is None,
        },
    decreases t.len() - x,
{
    if x < t.len() {
        assert(t[x as int] == s[x as int + d]);
        if t[x as int] == quote {
        } else if t[x as int] == '\\' {
            if x + 1 < t.len() {
                assert(t[x as int + 1] == s[x as int + 1 + d]);
                lemma_string_shifts(s, t, d, m, quote, x + 2);
            }
        } else {
            lemma_string_shifts(s, t, d, m, quote, x + 1);
        }
    }
}

/// Whether a piece is another one, `d` characters later.
spec fn later_piece(p: Piece, q: Piece, d: nat) -> bool {
    match q {
        Piece::Gap(j) => p == Piece::Gap(j + d),
        Piece::Item(kind, j) => p == Piece::Item(kind, j + d),
        Piece::Fault(message) => p == Piece::Fault(message),
    }
}

proof fn lemma_piece_shifts(s: Text, t: Text, d: nat, m: nat, x: nat)
    requires
        shifted(s, t, d, m),
        m <= x < t.len(),
    ensures
        later_piece(piece_at(s, x + d), piece_at(t, x), d),
{
    let c = t[x as int];
    assert(c == s[x as int + d]);
    assert(char_at(t, x + 1) == char_at(s, x + 1 + d)) by {
        if x + 1 < t.len() {
            assert(t[x as int + 1] == s[x as int + 1 + d]);
        }
    }
    lemma_line_end_shifts(s, t, d, m, x + 2);
    lemma_comment_end_shifts(s, t, d, m, x + 2);
    lemma_word_end_shifts(s, t, d, m, x + 1);
    lemma_digits_end_shifts(s, t, d, m, x + 1);
    lemma_string_shifts(s, t, d, m, c, x + 1);
    let w = word_end(t, x + 1);
    assert(s.subrange((x + d) as int, (w + d) as int) =~= t.subrange(x as int, w as int));
    let n = digits_end(t, x + 1);
    assert(s.subrange((x + d) as int, (n + d) as int) =~= t.subrange(x as int, n as int));
}

/// The tokens of texts that go on alike.
proof fn lemma_tokens_shift(s: Text, t: Text, d: nat, m: nat, x: nat)
    requires
        shifted(s, t, d, m),
        m <= x,
    ensures
        lexed_alike(tokens_from(s, x + d), tokens_from(t, x)),
    decreases left(t.len(), x),
{
    if x < t.len() {
        lemma_piece_shifts(s, t, d, m, x);
        match piece_at(t, x) {
            Piece::Gap(j) => {
                lemma_tokens_shift(s, t, d, m, past(x, j));
                assert(past(x + d, j + d) == past(x, j) + d);
            },
            Piece::Item(kind, j) => {
                lemma_tokens_shift(s, t, d, m, past(x, j));
                assert(past(x + d, j + d) == past(x, j) + d);
                lemma_one_more_token(
                    tokens_from(s, past(x + d, j + d)),
                    tokens_from(t, past(x, j)),
                    TokenModel { kind, position: x + d },
                    TokenModel { kind, position: x },
                );
            },
            Piece::Fault(_) => {},
        }
    }
}

// ---- The text before a gap -------------------------------------------------------

/// Whether the two texts are the same up to position `n`, where a gap begins in `s` and a line
/// break stands in `t`.
spec fn same_before(s: Text, t: Text, n: nat) -> bool {
    &&& n < s.len()
    &&& n < t.len()
    &&& forall|x: int| 0 <= x < n ==> #[trigger] t[x] == s[x]
    &&& is_space(s[n as int]) || s[n as int] == '/'
    &&& t[n as int] == '\n'
}

proof fn lemma_line_end_stays(s: Text, t: Text, n: nat, x: nat)
    requires
        same_before(s, t, n),
        x <= n,
        line_end(s, x) <= n,
    ensures
        line_end(t, x) == line_end(s, x),
    decreases n - x,
{
    if x < n {
        assert(t[x as int] == s[x as int]);
        if s[x as int] != '\n' {
            lemma_line_end_stays(s, t, n, x + 1);
        }
    } else {
        lemma_line_goes_on(s, n + 1);
    }
}

proof fn lemma_comment_end_stays(s: Text, t: Text, n: nat, x: nat)
    requires
        same_before(s, t, n),
        comment_end(s, x) matches Some(j) && j <= n,
    ensures
        comment_end(t, x) == comment_end(s, x),
    decreases s.len() - x,
{
    lemma_comment_goes_on(s, x);
    assert(t[x as int] == s[x as int]);
    assert(t[x as int + 1] == s[x as int + 1]);
    if !(s[x as int] == '*' && s[x as int + 1] == '/') {
        lemma_comment_end_stays(s, t, n, x + 1);
    }
}

proof fn lemma_comment_goes_on(s: Text, x: nat)
    ensures
        comment_end(s, x) matches Some(j) ==> x + 2 <= j <= s.len(),
    decreases s.len() - x,
{
    if x + 1 < s.len() && !(s[x as int] == '*' && s[x as int + 1] == '/') {
        lemma_comment_goes_on(s, x + 1);
    }
}

proof fn lemma_word_end_stays(s: Text, t: Text, n: nat, x: nat)
    requires
        same_before(s, t, n),
        x <= n,
        word_end(s, x) <= n,
    ensures
        word_end(t, x) == word_end(s, x),
    decreases n - x,
{
    if x < n {
        assert(t[x as int] == s[x as int]);
        if is_word_part(s[x as int]) {
            lemma_word_end_stays(s, t, n, x + 1);
        }
    }
}

proof fn lemma_digits_end_stays(s: Text, t: Text, n: nat, x: nat)
    requires
        same_before(s, t, n),
        x <= n,
        digits_end(s, x) <= n,
    ensures
        digits_end(t, x) == digits_end(s, x),
    decreases n - x,
{
    if x < n {
        assert(t[x as int] == s[x as int]);
        if is_digit(s[x as int]) {
            lemma_digits_end_stays(s, t, n, x + 1);
        }
    }
}

proof fn lemma_string_goes_on(s: Text, quote: char, x: nat)
    ensures
        string_from(s, quote, x) matches Some((_, j)) ==> x < j <= s.len(),
    decreases s.len() - x,
{
    if x < s.len() && s[x as int] != quote {
        lemma_string_goes_on(s, quote, x + 1);
        if x + 1 < s.len() {
            lemma_string_goes_on(s, quote, x + 2);
        }
    }
}

proof fn lemma_string_stays(s: Text, t: Text, n: nat, quote: char, x: nat)
    requires
        same_before(s, t, n),
        string_from(s, quote, x) matches Some((_, j)) && j <= n,
    ensures
        string_from(t, quote, x) == string_from(s, quote, x),
    decreases s.len() - x,
{
    lemma_string_goes_on(s, quote, x);
    assert(t[x as int] == s[x as int]);
    if s[x as int] == quote {
    } else if s[x as int] == '\\' {
        lemma_string_goes_on(s, quote, x + 2);
        assert(t[x as int + 1] == s[x as int + 1]);
        lemma_string_stays(s, t, n, quote, x + 2);
    } else {
        lemma_string_stays(s, t, n, quote, x + 1);
    }
}

/// The position behind a piece, or that of the piece itself where there is none.
pub open spec fn piece_end(s: Text, x: nat) -> nat {
    match piece_at(s, x) {
        Piece::Gap(j) => past(x, j),
        Piece::Item(_, j) => past(x, j),
        Piece::Fault(_) => x,
    }
}

/// A piece that ends before a gap stays the same.
proof fn lemma_piece_stays(s: Text, t: Text, n: nat, x: nat)
    requires
        same_before(s, t, n),
        x < n,
        piece_at(s, x) !is Fault,
        piece_end(s, x) <= n,
    ensures
        piece_at(t, x) == piece_at(s, x),
{
    let c = s[x as int];
    let d = char_at(s, x + 1);
    assert(t[x as int] == c);
    if x + 1 < n {
        assert(t[x as int + 1] == s[x as int + 1]);
    }
    if is_space(c) {
    } else if c == '/' && d == '/' {
        lemma_line_goes_on(s, x + 2);
        lemma_line_end_stays(s, t, n, x + 2);
    } else if c == '/' && d == '*' {
        lemma_comment_goes_on(s, x + 2);
        lemma_comment_end_stays(s, t, n, x + 2);
    } else if is_word_start(c) {
        lemma_word_goes_on(s, x + 1);
        lemma_word_end_stays(s, t, n, x + 1);
        let j = word_end(s, x + 1);
        assert(s.subrange(x as int, j as int) =~= t.subrange(x as int, j as int));
    } else if is_digit(c) {
        lemma_digits_go_on(s, x + 1);
        lemma_digits_end_stays(s, t, n, x + 1);
        let j = digits_end(s, x + 1);
        assert(s.subrange(x as int, j as int) =~= t.subrange(x as int, j as int));
    } else if c == '\'' || c == '"' {
        lemma_string_goes_on(s, c, x + 1);
        lemma_string_stays(s, t, n, c, x + 1);
    }
}

proof fn lemma_line_goes_on(s: Text, x: nat)
    ensures
        x <= line_end(s, x),
        x <= s.len() ==> line_end(s, x) <= s.len(),
    decreases s.len() - x,
{
    if x < s.len() && s[x as int] != '\n' {
        lemma_line_goes_on(s, x + 1);
    }
}

proof fn lemma_word_goes_on(s: Text, x: nat)
    ensures
        x <= word_end(s, x),
        x <= s.len() ==> word_end(s, x) <= s.len(),
    decreases s.len() - x,
{
    if x < s.len() && is_word_part(s[x as int]) {
        lemma_word_goes_on(s, x + 1);
    }
}

proof fn lemma_digits_go_on(s: Text, x: nat)
    ensures
        x <= digits_end(s, x),
        x <= s.len() ==> digits_end(s, x) <= s.len(),
    decreases s.len() - x,
{
    if x < s.len() && is_digit(s[x as int]) {
        lemma_digits_go_on(s, x + 1);
    }
}

/// Whether a piece of the text begins at position `n`, when it is read from position `x` on.
pub open spec fn begins_at(s: Text, x: nat, n: nat) -> bool
    decreases left(n, x),
{
    if x >= n {
        x == n
    } else if piece_at(s, x) is Fault {
        false
    } else {
        begins_at(s, piece_end(s, x), n)
    }
}

/// The tokens of texts that are the same up to a gap, and go on alike behind it.
proof fn lemma_tokens_up_to_gap(s: Text, t: Text, n: nat, x: nat)
    requires
        same_before(s, t, n),
        begins_at(s, x, n),
        x <= n,
        lexed_alike(tokens_from(s, n), tokens_from(t, n)),
    ensures
        lexed_alike(tokens_from(s, x), tokens_from(t, x)),
    decreases n - x,
{
    if x < n {
        let y = piece_end(s, x);
        assert(y <= n) by {
            if y > n {
                assert(!begins_at(s, y, n));
            }
        }
        lemma_piece_stays(s, t, n, x);
        lemma_tokens_up_to_gap(s, t, n, y);
        if let Piece::Item(kind, j) = piece_at(s, x) {
            let token = TokenModel { kind, position: x };
            lemma_one_more_token(tokens_from(s, y), tokens_from(t, y), token, token);
        }
    }
}

/// The text with a line break in place of what stands from position `n` to position `j`.
pub open spec fn broken(s: Text, n: nat, j: nat) -> Text {
    s.take(n as int).push('\n') + s.skip(j as int)
}

/// A gap has a length, and ends in the text.
proof fn lemma_gap_ends(s: Text, n: nat)
    requires
        n < s.len(),
        piece_at(s, n) is Gap,
    ensures
        n < piece_end(s, n) <= s.len(),
        is_space(s[n as int]) || s[n as int] == '/',
{
    lemma_line_goes_on(s, n + 2);
    lemma_comment_goes_on(s, n + 2);
}

/// Behind a gap, the text goes on as before.
proof fn lemma_broken_shifts(s: Text, n: nat, j: nat)
    requires
        n < j <= s.len(),
    ensures
        shifted(s, broken(s, n, j), (j - (n + 1)) as nat, n + 1),
        forall|x: int| 0 <= x < n ==> #[trigger] broken(s, n, j)[x] == s[x],
        n < broken(s, n, j).len(),
        broken(s, n, j)[n as int] == '\n',
{
    let t = broken(s, n, j);
    let d = (j - (n + 1)) as nat;
    assert forall|x: int| n + 1 <= x < t.len() implies #[trigger] t[x] == s[x + d] by {
        assert(t[x] == s.skip(j as int)[x - (n + 1)]);
    }
}

/// The tokens of a text with a line break in place of a gap.
proof fn lemma_tokens_with_break(s: Text, n: nat)
    requires
        n < s.len(),
        begins_at(s, 0, n),
        piece_at(s, n) is Gap,
    ensures
        lexed_alike(tokens_of(s), tokens_of(broken(s, n, piece_end(s, n)))),
{
    let j = piece_end(s, n);
    let t = broken(s, n, j);
    lemma_gap_ends(s, n);
    lemma_broken_shifts(s, n, j);
    lemma_tokens_shift(s, t, (j - (n + 1)) as nat, n + 1, n + 1);
    assert(piece_at(t, n) == Piece::Gap(n + 1));
    assert(tokens_from(t, n) == tokens_from(t, n + 1));
    assert(tokens_from(s, n) == tokens_from(s, j));
    lemma_tokens_up_to_gap(s, t, n, 0);
}

/// Gaps do not matter: with a line break in place of a blank or a comment between two tokens, a
/// text stands for the same query, or for none as before.
pub proof fn lemma_gaps_do_not_matter(s: Text, n: nat)
    requires
        n < s.len(),
        begins_at(s, 0, n),
        piece_at(s, n) is Gap,
    ensures
        alike(parsed(s), parsed(broken(s, n, piece_end(s, n)))),
{
    lemma_tokens_with_break(s, n);
    if let (Ok(a), Ok(b)) = (tokens_of(s), tokens_of(broken(s, n, piece_end(s, n)))) {
        lemma_same_kinds_same_query(a, b);
    }
}

} // verus!
