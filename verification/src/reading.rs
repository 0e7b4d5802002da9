//! The laws of reading: every error of lexing or parsing stands at a place in the text, and what is
//! read makes progress.

use vstd::prelude::*;

use crate::ast::ExprModel;
use crate::error::ErrorModel;
use crate::grammar::{
    after_symbol, after_word, agg_of, and_rest_at, branches_at, call_at, case_at, case_end_at,
    case_rest_at, clause_at, clauses_at, columns_at, comparison_at, conjunction_at, entries_at,
    entry_at, exists_at, expr_at, exprs_at, hops_at, is_symbol, is_word, item_at, items_at, kind_at,
    literal_at, match_at, name_at, names_at, negation_at, node_at, operator_at, opt_names_at,
    opt_order_at, opt_props_at, opt_var_at, opt_where_at, or_rest_at, order_at, orders_at, parsed,
    path_at, paths_at, primary_at, projection_at, props_at, rel_at, rel_body_at, word_operand_at,
    Parsed,
};
use crate::lexer::{
    left, past, piece_at, tokens_from, tokens_of, KindModel, Piece, Symbol, TokenModel,
};
use crate::text::{ascii_lower, Text};

verus! {

/// Whether all tokens stand within the first `limit` characters, or right behind them.
pub open spec fn tokens_within(toks: Seq<TokenModel>, limit: nat) -> bool {
    forall|i: int| 0 <= i < toks.len() ==> (#[trigger] toks[i]).position <= limit
}

/// Whether what is read from position `i` on takes at least `step` tokens, or else fails at a place
/// within the first `limit` characters, or right behind them.
pub open spec fn goes_on<A>(r: Parsed<A>, i: nat, step: nat, limit: nat) -> bool {
    match r {
        Ok((_, j)) => i + step <= j,
        Err(e) => e matches ErrorModel::Parse { position, .. } && position <= limit,
    }
}

// ---- Patterns --------------------------------------------------------------------

proof fn lemma_names(toks: Seq<TokenModel>, i: nat, limit: nat)
    requires
        tokens_within(toks, limit),
    ensures
        goes_on(names_at(toks, i), i, 1, limit),
    decreases left(toks.len(), i),
{
    if kind_at(toks, i) is Word && is_symbol(toks, i + 1, Symbol::Pipe) {
        lemma_names(toks, i + 2, limit);
        lemma_names(toks, i + 3, limit);
    }
}

proof fn lemma_props(toks: Seq<TokenModel>, i: nat, limit: nat)
    requires
        tokens_within(toks, limit),
    ensures
        goes_on(props_at(toks, i), i, 1, limit),
    decreases left(toks.len(), i),
{
    if name_at(toks, i) is Ok && after_symbol(toks, i + 1, Symbol::Colon, "`:`"@) is Ok {
        if let Ok((_, j)) = literal_at(toks, i + 2) {
            if is_symbol(toks, j, Symbol::Comma) {
                lemma_props(toks, past(i, j + 1), limit);
            }
        }
    }
}

proof fn lemma_names_and_props(toks: Seq<TokenModel>, i: nat, limit: nat)
    requires
        tokens_within(toks, limit),
    ensures
        goes_on(opt_names_at(toks, i), i, 0, limit),
        goes_on(opt_props_at(toks, i), i, 0, limit),
{
    lemma_names(toks, i + 1, limit);
    lemma_props(toks, i + 1, limit);
}

#[verifier::rlimit(40)]
proof fn lemma_node(toks: Seq<TokenModel>, i: nat, limit: nat)
    requires
        tokens_within(toks, limit),
    ensures
        goes_on(node_at(toks, i), i, 2, limit),
{
    if let Ok((_, b)) = opt_var_at(toks, i + 1) {
        lemma_names_and_props(toks, b, limit);
        if let Ok((_, c)) = opt_names_at(toks, b) {
            lemma_names_and_props(toks, c, limit);
        }
    }
}

proof fn lemma_rel_body(toks: Seq<TokenModel>, i: nat, limit: nat)
    requires
        tokens_within(toks, limit),
    ensures
        goes_on(rel_body_at(toks, i), i, 0, limit),
{
    if let Ok((_, b)) = opt_var_at(toks, i + 1) {
        lemma_names_and_props(toks, b, limit);
    }
}

#[verifier::rlimit(40)]
proof fn lemma_rel(toks: Seq<TokenModel>, i: nat, limit: nat)
    requires
        tokens_within(toks, limit),
    ensures
        goes_on(rel_at(toks, i), i, 2, limit),
{
    lemma_rel_body(toks, i + 1, limit);
    lemma_rel_body(toks, i + 2, limit);
}

proof fn lemma_hops(toks: Seq<TokenModel>, i: nat, limit: nat)
    requires
        tokens_within(toks, limit),
    ensures
        goes_on(hops_at(toks, i), i, 0, limit),
    decreases left(toks.len(), i),
{
    if is_symbol(toks, i, Symbol::Minus) || is_symbol(toks, i, Symbol::Less) {
        lemma_rel(toks, i, limit);
        if let Ok((_, a)) = rel_at(toks, i) {
            lemma_node(toks, a, limit);
            if let Ok((_, b)) = node_at(toks, a) {
                lemma_hops(toks, past(i, b), limit);
            }
        }
    }
}

proof fn lemma_path(toks: Seq<TokenModel>, i: nat, limit: nat)
    requires
        tokens_within(toks, limit),
    ensures
        goes_on(path_at(toks, i), i, 2, limit),
{
    lemma_node(toks, i, limit);
    if let Ok((_, a)) = node_at(toks, i) {
        lemma_hops(toks, a, limit);
    }
}

proof fn lemma_paths(toks: Seq<TokenModel>, i: nat, limit: nat)
    requires
        tokens_within(toks, limit),
    ensures
        goes_on(paths_at(toks, i), i, 2, limit),
    decreases left(toks.len(), i),
{
    lemma_path(toks, i, limit);
    if let Ok((_, j)) = path_at(toks, i) {
        if i < toks.len() && is_symbol(toks, j, Symbol::Comma) {
            lemma_paths(toks, past(i, j + 1), limit);
        }
    }
}

// ---- Expressions -----------------------------------------------------------------

/// An expression takes at least one token, and its errors stand in the text.
proof fn lemma_expr(toks: Seq<TokenModel>, i: nat, limit: nat)
    requires
        tokens_within(toks, limit),
    ensures
        goes_on(expr_at(toks, i), i, 1, limit),
    decreases left(toks.len(), i), 9nat,
{
    lemma_conjunction(toks, i, limit);
    if let Ok((x, j)) = conjunction_at(toks, i) {
        lemma_or_rest(toks, x, past(i, j), limit);
    }
}

proof fn lemma_or_rest(toks: Seq<TokenModel>, x: ExprModel, i: nat, limit: nat)
    requires
        tokens_within(toks, limit),
    ensures
        goes_on(or_rest_at(toks, x, i), i, 0, limit),
    decreases left(toks.len(), i), 0nat,
{
    if is_word(toks, i, "or"@) {
        lemma_conjunction(toks, i + 1, limit);
        if let Ok((y, j)) = conjunction_at(toks, i + 1) {
            lemma_or_rest(toks, ExprModel::Or(Box::new(x), Box::new(y)), past(i, j), limit);
        }
    }
}

proof fn lemma_conjunction(toks: Seq<TokenModel>, i: nat, limit: nat)
    requires
        tokens_within(toks, limit),
    ensures
        goes_on(conjunction_at(toks, i), i, 1, limit),
    decreases left(toks.len(), i), 8nat,
{
    lemma_negation(toks, i, limit);
    if let Ok((x, j)) = negation_at(toks, i) {
        lemma_and_rest(toks, x, past(i, j), limit);
    }
}

proof fn lemma_and_rest(toks: Seq<TokenModel>, x: ExprModel, i: nat, limit: nat)
    requires
        tokens_within(toks, limit),
    ensures
        goes_on(and_rest_at(toks, x, i), i, 0, limit),
    decreases left(toks.len(), i), 0nat,
{
    if is_word(toks, i, "and"@) {
        lemma_negation(toks, i + 1, limit);
        if let Ok((y, j)) = negation_at(toks, i + 1) {
            lemma_and_rest(toks, ExprModel::And(Box::new(x), Box::new(y)), past(i, j), limit);
        }
    }
}

proof fn lemma_negation(toks: Seq<TokenModel>, i: nat, limit: nat)
    requires
        tokens_within(toks, limit),
    ensures
        goes_on(negation_at(toks, i), i, 1, limit),
    decreases left(toks.len(), i), 7nat,
{
    if is_word(toks, i, "not"@) {
        lemma_negation(toks, i + 1, limit);
    } else {
        lemma_comparison(toks, i, limit);
    }
}

#[verifier::rlimit(40)]
proof fn lemma_comparison(toks: Seq<TokenModel>, i: nat, limit: nat)
    requires
        tokens_within(toks, limit),
    ensures
        goes_on(comparison_at(toks, i), i, 1, limit),
    decreases left(toks.len(), i), 6nat,
{
    lemma_primary(toks, i, limit);
    if let Ok((_, k)) = primary_at(toks, i) {
        if let Some((_, a)) = operator_at(toks, k) {
            lemma_primary(toks, a, limit);
        }
    }
}

#[verifier::rlimit(40)]
proof fn lemma_primary(toks: Seq<TokenModel>, i: nat, limit: nat)
    requires
        tokens_within(toks, limit),
    ensures
        goes_on(primary_at(toks, i), i, 1, limit),
    decreases left(toks.len(), i), 5nat,
{
    match kind_at(toks, i) {
        KindModel::Symbol(Symbol::LBracket) => {
            lemma_exprs(toks, i + 1, limit);
        },
        KindModel::Symbol(Symbol::LParen) => {
            lemma_expr(toks, i + 1, limit);
        },
        KindModel::Word(w) => {
            lemma_word_operand(toks, w, i, limit);
        },
        _ => {},
    }
}

#[verifier::rlimit(40)]
proof fn lemma_word_operand(toks: Seq<TokenModel>, w: Text, i: nat, limit: nat)
    requires
        tokens_within(toks, limit),
    ensures
        goes_on(word_operand_at(toks, w, i), i, 1, limit),
    decreases left(toks.len(), i), 4nat,
{
    let lower = ascii_lower(w);
    if i < toks.len() {
        if lower == "case"@ {
            lemma_case(toks, i + 1, limit);
        } else if lower == "exists"@ {
            lemma_exists(toks, i + 2, limit);
        } else if is_symbol(toks, i + 1, Symbol::LParen) {
            lemma_call(toks, w, i + 2, limit);
        } else if is_symbol(toks, i + 1, Symbol::LBrace) {
            lemma_entries(toks, i + 2, limit);
        }
    }
}

proof fn lemma_exprs(toks: Seq<TokenModel>, i: nat, limit: nat)
    requires
        tokens_within(toks, limit),
    ensures
        goes_on(exprs_at(toks, i), i, 1, limit),
    decreases left(toks.len(), i), 10nat,
{
    lemma_expr(toks, i, limit);
    if let Ok((_, j)) = expr_at(toks, i) {
        if i < toks.len() && is_symbol(toks, j, Symbol::Comma) {
            lemma_exprs(toks, past(i, j + 1), limit);
        }
    }
}

#[verifier::rlimit(40)]
proof fn lemma_call(toks: Seq<TokenModel>, name: Text, i: nat, limit: nat)
    requires
        tokens_within(toks, limit),
    ensures
        goes_on(call_at(toks, name, i), i, 1, limit),
    decreases left(toks.len(), i), 11nat,
{
    if agg_of(ascii_lower(name)) is None {
        lemma_exprs(toks, i, limit);
    } else if is_word(toks, i, "distinct"@) {
        lemma_expr(toks, i + 1, limit);
    } else {
        lemma_expr(toks, i, limit);
    }
}

proof fn lemma_entries(toks: Seq<TokenModel>, i: nat, limit: nat)
    requires
        tokens_within(toks, limit),
    ensures
        goes_on(entries_at(toks, i), i, 1, limit),
    decreases left(toks.len(), i), 12nat,
{
    lemma_entry(toks, i, limit);
    if let Ok((_, j)) = entry_at(toks, i) {
        if i < toks.len() && is_symbol(toks, j, Symbol::Comma) {
            lemma_entries(toks, past(i, j + 1), limit);
        }
    }
}

proof fn lemma_entry(toks: Seq<TokenModel>, i: nat, limit: nat)
    requires
        tokens_within(toks, limit),
    ensures
        goes_on(entry_at(toks, i), i, 1, limit),
    decreases left(toks.len(), i), 11nat,
{
    if name_at(toks, i) is Ok {
        lemma_expr(toks, i + 2, limit);
    }
}

#[verifier::rlimit(40)]
proof fn lemma_exists(toks: Seq<TokenModel>, i: nat, limit: nat)
    requires
        tokens_within(toks, limit),
    ensures
        goes_on(exists_at(toks, i), i, 1, limit),
    decreases left(toks.len(), i), 11nat,
{
    let a = if is_word(toks, i, "match"@) {
        i + 1
    } else {
        i
    };
    lemma_paths(toks, a, limit);
    if let Ok((_, k)) = paths_at(toks, a) {
        if is_word(toks, k, "where"@) {
            lemma_expr(toks, k + 1, limit);
        }
    }
}

proof fn lemma_case(toks: Seq<TokenModel>, i: nat, limit: nat)
    requires
        tokens_within(toks, limit),
    ensures
        goes_on(case_at(toks, i), i, 1, limit),
    decreases left(toks.len(), i), 11nat,
{
    if is_word(toks, i, "when"@) {
        lemma_case_rest(toks, None, i, limit);
    } else {
        lemma_expr(toks, i, limit);
        if let Ok((x, j)) = expr_at(toks, i) {
            lemma_case_rest(toks, Some(Box::new(x)), past(i, j), limit);
        }
    }
}

proof fn lemma_case_rest(toks: Seq<TokenModel>, operand: Option<Box<ExprModel>>, i: nat, limit: nat)
    requires
        tokens_within(toks, limit),
    ensures
        goes_on(case_rest_at(toks, operand, i), i, 1, limit),
    decreases left(toks.len(), i), 2nat,
{
    if is_word(toks, i, "when"@) {
        lemma_branches(toks, i, limit);
        if let Ok((_, k)) = branches_at(toks, i) {
            lemma_case_end(toks, past(i, k), limit);
        }
    }
}

proof fn lemma_case_end(toks: Seq<TokenModel>, i: nat, limit: nat)
    requires
        tokens_within(toks, limit),
    ensures
        goes_on(case_end_at(toks, i), i, 1, limit),
    decreases left(toks.len(), i), 0nat,
{
    if is_word(toks, i, "else"@) {
        lemma_expr(toks, i + 1, limit);
    }
}

proof fn lemma_branches(toks: Seq<TokenModel>, i: nat, limit: nat)
    requires
        tokens_within(toks, limit),
    ensures
        goes_on(branches_at(toks, i), i, 0, limit),
    decreases left(toks.len(), i), 1nat,
{
    if is_word(toks, i, "when"@) {
        lemma_expr(toks, i + 1, limit);
        if let Ok((_, k)) = expr_at(toks, i + 1) {
            let a = past(i, k);
            if let Ok(b) = after_word(toks, a, "then"@, "THEN"@) {
                lemma_expr(toks, b, limit);
                if let Ok((_, j)) = expr_at(toks, b) {
                    lemma_branches(toks, past(i, j), limit);
                }
            }
        }
    }
}

// ---- Projections and clauses -----------------------------------------------------

proof fn lemma_item(toks: Seq<TokenModel>, i: nat, limit: nat)
    requires
        tokens_within(toks, limit),
    ensures
        goes_on(item_at(toks, i), i, 1, limit),
{
    lemma_expr(toks, i, limit);
}

proof fn lemma_items(toks: Seq<TokenModel>, i: nat, limit: nat)
    requires
        tokens_within(toks, limit),
    ensures
        goes_on(items_at(toks, i), i, 1, limit),
    decreases left(toks.len(), i),
{
    lemma_item(toks, i, limit);
    if let Ok((_, j)) = item_at(toks, i) {
        if i < toks.len() && is_symbol(toks, j, Symbol::Comma) {
            lemma_items(toks, past(i, j + 1), limit);
        }
    }
}

proof fn lemma_order(toks: Seq<TokenModel>, i: nat, limit: nat)
    requires
        tokens_within(toks, limit),
    ensures
        goes_on(order_at(toks, i), i, 1, limit),
{
    lemma_expr(toks, i, limit);
}

proof fn lemma_orders(toks: Seq<TokenModel>, i: nat, limit: nat)
    requires
        tokens_within(toks, limit),
    ensures
        goes_on(orders_at(toks, i), i, 1, limit),
    decreases left(toks.len(), i),
{
    lemma_order(toks, i, limit);
    if let Ok((_, j)) = order_at(toks, i) {
        if i < toks.len() && is_symbol(toks, j, Symbol::Comma) {
            lemma_orders(toks, past(i, j + 1), limit);
        }
    }
}

proof fn lemma_opt_order(toks: Seq<TokenModel>, i: nat, limit: nat)
    requires
        tokens_within(toks, limit),
    ensures
        goes_on(opt_order_at(toks, i), i, 0, limit),
{
    lemma_orders(toks, i + 2, limit);
}

#[verifier::rlimit(40)]
proof fn lemma_projection(toks: Seq<TokenModel>, i: nat, limit: nat)
    requires
        tokens_within(toks, limit),
    ensures
        goes_on(projection_at(toks, i), i, 1, limit),
{
    let a = if is_word(toks, i, "distinct"@) {
        i + 1
    } else {
        i
    };
    lemma_items(toks, a, limit);
    if let Ok((_, b)) = columns_at(toks, a) {
        lemma_opt_order(toks, b, limit);
    }
}

proof fn lemma_opt_where(toks: Seq<TokenModel>, i: nat, limit: nat)
    requires
        tokens_within(toks, limit),
    ensures
        goes_on(opt_where_at(toks, i), i, 0, limit),
{
    lemma_expr(toks, i + 1, limit);
}

proof fn lemma_match(toks: Seq<TokenModel>, optional: bool, i: nat, limit: nat)
    requires
        tokens_within(toks, limit),
    ensures
        goes_on(match_at(toks, optional, i), i, 1, limit),
{
    lemma_paths(toks, i, limit);
    if let Ok((_, a)) = paths_at(toks, i) {
        lemma_opt_where(toks, a, limit);
    }
}

#[verifier::rlimit(40)]
proof fn lemma_clause(toks: Seq<TokenModel>, i: nat, limit: nat)
    requires
        tokens_within(toks, limit),
    ensures
        goes_on(clause_at(toks, i), i, 1, limit),
{
    if is_word(toks, i, "match"@) {
        lemma_match(toks, false, i + 1, limit);
    } else if is_word(toks, i, "optional"@) {
        lemma_match(toks, true, i + 2, limit);
    } else if is_word(toks, i, "unwind"@) {
        lemma_expr(toks, i + 1, limit);
    } else if is_word(toks, i, "with"@) {
        lemma_projection(toks, i + 1, limit);
        if let Ok((_, a)) = projection_at(toks, i + 1) {
            lemma_opt_where(toks, a, limit);
        }
    }
}

proof fn lemma_clauses(toks: Seq<TokenModel>, i: nat, limit: nat)
    requires
        tokens_within(toks, limit),
    ensures
        goes_on(clauses_at(toks, i), i, 0, limit),
    decreases left(toks.len(), i),
{
    if !is_word(toks, i, "return"@) && i < toks.len() {
        lemma_clause(toks, i, limit);
        if let Ok((_, j)) = clause_at(toks, i) {
            lemma_clauses(toks, past(i, j), limit);
        }
    }
}

// ---- Texts -----------------------------------------------------------------------

/// The tokens of a text stand in it; so does the error if it has none.
proof fn lemma_tokens_within(s: Text, i: nat)
    ensures
        match tokens_from(s, i) {
            Ok(toks) => tokens_within(toks, s.len()),
            Err(e) => e matches ErrorModel::Lex { position, .. } && position < s.len(),
        },
    decreases left(s.len(), i),
{
    if i < s.len() {
        match piece_at(s, i) {
            Piece::Gap(j) => {
                lemma_tokens_within(s, past(i, j));
            },
            Piece::Item(kind, j) => {
                lemma_tokens_within(s, past(i, j));
            },
            Piece::Fault(_) => {},
        }
    }
}

/// Every error of a text that is no query says where it stands: that of the lexer at a character of
/// the text, that of the parser at a character or at the end.
pub proof fn lemma_errors_have_places(s: Text)
    ensures
        parsed(s) matches Err(e) ==> match e {
            ErrorModel::Lex { position, .. } => position < s.len(),
            ErrorModel::Parse { position, .. } => position <= s.len(),
            ErrorModel::Execution { .. } => false,
        },
{
    lemma_tokens_within(s, 0);
    if let Ok(toks) = tokens_of(s) {
        lemma_clauses(toks, 0, s.len());
        if let Ok((_, a)) = clauses_at(toks, 0) {
            lemma_projection(toks, a + 1, s.len());
        }
    }
}

} // verus!
