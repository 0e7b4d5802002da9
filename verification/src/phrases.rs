//! Reading expressions that were written.

use vstd::prelude::*;

use crate::ast::{AggFn, CmpOp, ExprModel, LiteralModel, MapEntryModel, PathModel};
use crate::error::ErrorModel;
use crate::grammar::{
    agg_of, and_rest_at, branches_at, call_at, case_at, case_end_at, case_rest_at, comparison_at,
    conjunction_at, entries_at, entry_at, exists_at, expr_at, exprs_at, is_symbol, is_word, kind_at,
    literal_operand_at, negation_at, operator_at, or_rest_at, primary_at, reserved, word_operand_at,
    Parsed,
};
use crate::lexer::{KindModel, Symbol, TokenModel};
use crate::rereading::{
    lemma_key, lemma_literal, lemma_mark, lemma_name, lemma_number, lemma_paths, lemma_reserved,
    lemma_split, lemma_words,
};
use crate::text::{ascii_lower, Text};
use crate::writing::{
    aggregate_name, bare, cases, cases_ok, count, entries, entries_ok, entry, entry_ok, expr,
    expr_ok, exprs, exprs_ok, function, key, literal, mark, name, operator, paths, shown, stands,
    strength, Sign,
};

verus! {

/// What is read at a level of the grammar, from `OR` down to operands.
#[verifier::opaque]
spec fn read_at(toks: Seq<TokenModel>, i: nat, level: int) -> Parsed<ExprModel> {
    if level == 0 {
        expr_at(toks, i)
    } else if level == 1 {
        conjunction_at(toks, i)
    } else if level == 2 {
        negation_at(toks, i)
    } else if level == 3 {
        comparison_at(toks, i)
    } else {
        primary_at(toks, i)
    }
}

proof fn lemma_read_expr(toks: Seq<TokenModel>, i: nat)
    ensures
        read_at(toks, i, 0) == expr_at(toks, i),
{
    reveal(read_at);
}

proof fn lemma_read_conjunction(toks: Seq<TokenModel>, i: nat)
    ensures
        read_at(toks, i, 1) == conjunction_at(toks, i),
{
    reveal(read_at);
}

proof fn lemma_read_negation(toks: Seq<TokenModel>, i: nat)
    ensures
        read_at(toks, i, 2) == negation_at(toks, i),
{
    reveal(read_at);
}

proof fn lemma_read_comparison(toks: Seq<TokenModel>, i: nat)
    ensures
        read_at(toks, i, 3) == comparison_at(toks, i),
{
    reveal(read_at);
}

proof fn lemma_read_primary(toks: Seq<TokenModel>, i: nat)
    ensures
        read_at(toks, i, 4) == primary_at(toks, i),
{
    reveal(read_at);
}

/// An expression stands in parentheses just if it is weaker than what is wanted.
proof fn lemma_forms(e: ExprModel, level: int)
    ensures
        strength(e) >= level ==> expr(e, level) == bare(e),
        strength(e) < level ==> expr(e, level) == mark(Symbol::LParen) + expr(e, 0) + mark(
            Symbol::RParen,
        ),
        expr(e, 0) == bare(e),
{
    reveal(bare);
    assert(strength(e) >= 0);
}

/// Whether nothing at a position carries on an expression of a level.
pub open spec fn ends(toks: Seq<TokenModel>, i: nat, level: int) -> bool {
    &&& !is_symbol(toks, i, Symbol::LParen)
    &&& !is_symbol(toks, i, Symbol::Dot)
    &&& !is_symbol(toks, i, Symbol::LBrace)
    &&& level <= 3 ==> operator_at(toks, i) is None && !is_word(toks, i, "is"@)
    &&& level <= 1 ==> !is_word(toks, i, "and"@)
    &&& level <= 0 ==> !is_word(toks, i, "or"@)
}

/// Whether a token can begin an expression of a level.
#[verifier::opaque]
pub open spec fn begins(kind: KindModel, level: int) -> bool {
    match kind {
        KindModel::Symbol(s) => s is LParen || s is LBracket || s is Minus,
        KindModel::Word(w) => {
            let l = ascii_lower(w);
            !reserved(l) || l == "true"@ || l == "false"@ || l == "null"@ || l == "case"@ || l
                == "exists"@ || (level < 3 && l == "not"@)
        },
        KindModel::End => false,
        _ => true,
    }
}

/// Punctuation that ends an expression.
pub proof fn lemma_symbol_ends(toks: Seq<TokenModel>, i: nat, s: Symbol, level: int)
    requires
        is_symbol(toks, i, s),
        s is Comma || s is RParen || s is RBracket || s is RBrace,
    ensures
        ends(toks, i, level),
{
}

/// A word that ends an expression.
pub proof fn lemma_word_ends(toks: Seq<TokenModel>, i: nat, word: Text, level: int)
    requires
        is_word(toks, i, word),
        word != "contains"@,
        word != "in"@,
        word != "starts"@,
        word != "ends"@,
        word != "is"@,
        level <= 1 ==> word != "and"@,
        level <= 0 ==> word != "or"@,
    ensures
        ends(toks, i, level),
{
}

/// The words that stand behind expressions end them.
pub proof fn lemma_stop_word(toks: Seq<TokenModel>, i: nat, word: Text)
    requires
        is_word(toks, i, word),
        word == "when"@ || word == "then"@ || word == "else"@ || word == "end"@ || word == "as"@
            || word == "where"@ || word == "desc"@ || word == "asc"@ || word == "order"@ || word
            == "skip"@ || word == "limit"@ || word == "match"@ || word == "optional"@ || word
            == "unwind"@ || word == "with"@ || word == "return"@,
    ensures
        ends(toks, i, 0),
{
    lemma_words();
    lemma_word_ends(toks, i, word, 0);
}

proof fn lemma_or_ends(toks: Seq<TokenModel>, i: nat)
    requires
        is_word(toks, i, "or"@),
    ensures
        ends(toks, i, 1),
{
    lemma_words();
    lemma_word_ends(toks, i, "or"@, 1);
}

proof fn lemma_and_ends(toks: Seq<TokenModel>, i: nat)
    requires
        is_word(toks, i, "and"@),
    ensures
        ends(toks, i, 2),
{
    lemma_words();
    lemma_word_ends(toks, i, "and"@, 2);
}

proof fn lemma_is_word_ends(toks: Seq<TokenModel>, i: nat, n: nat)
    requires
        is_word(toks, i, "is"@),
        is_word(toks, n, "null"@),
    ensures
        ends(toks, i, 4),
        operator_at(toks, i) is None,
        !is_word(toks, n, "not"@),
{
    lemma_words();
}

proof fn lemma_not_word(toks: Seq<TokenModel>, i: nat)
    requires
        is_word(toks, i, "not"@),
    ensures
        !is_word(toks, i, "null"@),
{
    lemma_words();
}

proof fn lemma_branch_words(toks: Seq<TokenModel>, i: nat)
    ensures
        is_word(toks, i, "end"@) ==> !is_word(toks, i, "else"@) && !is_word(toks, i, "when"@),
        is_word(toks, i, "else"@) ==> !is_word(toks, i, "when"@),
{
    lemma_words();
}

proof fn lemma_function_word(func: AggFn)
    ensures
        agg_of(function(func)) == Some(func),
        !reserved(function(func)),
{
    lemma_words();
}

/// Behind the word `EXISTS` and a brace, a subquery is read.
proof fn lemma_exists_word(toks: Seq<TokenModel>, i: nat, r: Parsed<ExprModel>)
    requires
        is_word(toks, i, "exists"@),
        i < toks.len(),
        is_symbol(toks, i + 1, Symbol::LBrace),
        exists_at(toks, i + 2) == r,
    ensures
        primary_at(toks, i) == r,
{
    lemma_words();
    let w = kind_at(toks, i)->Word_0;
    assert(word_operand_at(toks, w, i) == r);
}

/// Behind a name that is no keyword and a parenthesis, a call is read.
proof fn lemma_call_word(toks: Seq<TokenModel>, i: nat, w: Text, r: Parsed<ExprModel>)
    requires
        kind_at(toks, i) == KindModel::Word(w),
        !reserved(ascii_lower(w)),
        i < toks.len(),
        is_symbol(toks, i + 1, Symbol::LParen),
        call_at(toks, w, i + 2) == r,
    ensures
        primary_at(toks, i) == r,
{
    assert(word_operand_at(toks, w, i) == r);
}

/// How many levels are left down to where an expression is read.
spec fn rank(e: ExprModel, level: int) -> int {
    if strength(e) < level {
        10 + (4 - level)
    } else {
        strength(e) - level
    }
}

// ---- Beginnings ----------------------------------------------------------------------

/// What an expression begins with.
#[verifier::rlimit(60)]
#[verifier::spinoff_prover]
pub proof fn lemma_begins(toks: Seq<TokenModel>, i: nat, e: ExprModel, level: int)
    requires
        0 <= level <= 4,
        expr_ok(e),
        shown(toks, i, expr(e, level)),
    ensures
        begins(kind_at(toks, i), level),
        expr(e, level).len() > 0,
        i < toks.len(),
    decreases e, level,
{
    reveal(begins);
    lemma_words();
    lemma_forms(e, level);
    if strength(e) < level {
        lemma_split(toks, i, mark(Symbol::LParen) + expr(e, 0), mark(Symbol::RParen));
        lemma_split(toks, i, mark(Symbol::LParen), expr(e, 0));
        lemma_mark(toks, i, Symbol::LParen);
    } else {
        lemma_forms(e, level);
        match e {
            ExprModel::Or(x, y) => {
                assert(bare(e) == expr(*x, 0) + key("or"@) + expr(*y, 1)) by {
                    reveal(bare);
                }
                lemma_split(toks, i, expr(*x, 0) + key("or"@), expr(*y, 1));
                lemma_split(toks, i, expr(*x, 0), key("or"@));
                lemma_begins(toks, i, *x, 0);
            },
            ExprModel::And(x, y) => {
                assert(bare(e) == expr(*x, 1) + key("and"@) + expr(*y, 2)) by {
                    reveal(bare);
                }
                lemma_split(toks, i, expr(*x, 1) + key("and"@), expr(*y, 2));
                lemma_split(toks, i, expr(*x, 1), key("and"@));
                lemma_begins(toks, i, *x, 1);
            },
            ExprModel::Not(x) => {
                assert(bare(e) == key("not"@) + expr(*x, 2)) by {
                    reveal(bare);
                }
                lemma_split(toks, i, key("not"@), expr(*x, 2));
                lemma_key(toks, i, "not"@);
            },
            ExprModel::Compare(x, op, y) => {
                assert(bare(e) == expr(*x, 4) + operator(op) + expr(*y, 4)) by {
                    reveal(bare);
                }
                lemma_split(toks, i, expr(*x, 4) + operator(op), expr(*y, 4));
                lemma_split(toks, i, expr(*x, 4), operator(op));
                lemma_begins(toks, i, *x, 4);
            },
            ExprModel::IsNull(x, negated) => {
                let n = if negated {
                    key("not"@)
                } else {
                    Seq::empty()
                };
                assert(bare(e) == expr(*x, 4) + key("is"@) + n + key("null"@)) by {
                    reveal(bare);
                }
                lemma_split(toks, i, expr(*x, 4) + key("is"@) + n, key("null"@));
                lemma_split(toks, i, expr(*x, 4) + key("is"@), n);
                lemma_split(toks, i, expr(*x, 4), key("is"@));
                lemma_begins(toks, i, *x, 4);
            },
            _ => {
                lemma_operand_begins(toks, i, e);
            },
        }
    }
}

proof fn lemma_operand_begins(toks: Seq<TokenModel>, i: nat, e: ExprModel)
    requires
        expr_ok(e),
        strength(e) == 4,
        shown(toks, i, bare(e)),
    ensures
        begins(kind_at(toks, i), 4),
        bare(e).len() > 0,
        i < toks.len(),
{
    reveal(begins);
    lemma_words();
    match e {
        ExprModel::Var(v) => {
            assert(bare(e) == name(v)) by {
                reveal(bare);
            }
            lemma_name(toks, i, v);
            lemma_reserved(ascii_lower(v));
        },
        ExprModel::Property(v, p) => {
            assert(bare(e) == name(v) + mark(Symbol::Dot) + name(p)) by {
                reveal(bare);
            }
            lemma_split(toks, i, name(v) + mark(Symbol::Dot), name(p));
            lemma_split(toks, i, name(v), mark(Symbol::Dot));
            lemma_name(toks, i, v);
            lemma_reserved(ascii_lower(v));
        },
        ExprModel::Literal(l) => {
            assert(bare(e) == literal(l)) by {
                reveal(bare);
            }
            lemma_literal_begins(toks, i, l);
        },
        ExprModel::List(items) => {
            assert(bare(e) == mark(Symbol::LBracket) + exprs(items, 0) + mark(Symbol::RBracket)) by {
                reveal(bare);
            }
            let a = mark(Symbol::LBracket);
            lemma_split(toks, i, a + exprs(items, 0), mark(Symbol::RBracket));
            lemma_split(toks, i, a, exprs(items, 0));
            lemma_mark(toks, i, Symbol::LBracket);
        },
        ExprModel::Function { name: f, args } => {
            let a = name(f);
            let b = mark(Symbol::LParen);
            assert(bare(e) == a + b + exprs(args, 0) + mark(Symbol::RParen)) by {
                reveal(bare);
            }
            lemma_split(toks, i, a + b + exprs(args, 0), mark(Symbol::RParen));
            lemma_split(toks, i, a + b, exprs(args, 0));
            lemma_split(toks, i, a, b);
            lemma_name(toks, i, f);
            lemma_reserved(ascii_lower(f));
        },
        ExprModel::Aggregate { func, arg, distinct } => {
            lemma_aggregate_split(toks, i, func, arg, distinct);
            lemma_key(toks, i, function(func));
        },
        ExprModel::Exists { patterns, where_clause } => {
            lemma_exists_split(toks, i, patterns, where_clause);
            lemma_key(toks, i, "exists"@);
        },
        ExprModel::Case { operand, branches, default } => {
            let j = i + 1 + case_operand(operand).len();
            let k = j + cases(branches, 0).len();
            lemma_case_split(toks, i, e, j, k, k + case_default(default).len());
        },
        ExprModel::MapProjection { var, entries: es } => {
            let a = name(var);
            let b = mark(Symbol::LBrace);
            assert(bare(e) == a + b + entries(es, 0) + mark(Symbol::RBrace)) by {
                reveal(bare);
            }
            lemma_split(toks, i, a + b + entries(es, 0), mark(Symbol::RBrace));
            lemma_split(toks, i, a + b, entries(es, 0));
            lemma_split(toks, i, a, b);
            lemma_name(toks, i, var);
            lemma_reserved(ascii_lower(var));
        },
        _ => {},
    }
}

proof fn lemma_literal_begins(toks: Seq<TokenModel>, i: nat, l: LiteralModel)
    requires
        shown(toks, i, literal(l)),
    ensures
        begins(kind_at(toks, i), 4),
        literal(l).len() > 0,
        i < toks.len(),
        match kind_at(toks, i) {
            KindModel::Symbol(s) => s is Minus,
            KindModel::Word(w) => ascii_lower(w) == "true"@ || ascii_lower(w) == "false"@
                || ascii_lower(w) == "null"@,
            KindModel::End => false,
            _ => true,
        },
{
    reveal(begins);
    match l {
        LiteralModel::Str(s) => {
            reveal(shown);
            assert(stands(toks[i + 0int].kind, literal(l)[0]));
        },
        LiteralModel::Int(n) => {
            if n >= 0 {
                lemma_number(toks, i, n as nat);
            } else {
                let m = (-(n as int)) as nat;
                lemma_split(toks, i, mark(Symbol::Minus), count(m));
                lemma_mark(toks, i, Symbol::Minus);
            }
        },
        LiteralModel::Bool(b) => {
            lemma_key(
                toks,
                i,
                if b {
                    "true"@
                } else {
                    "false"@
                },
            );
        },
        LiteralModel::Null => {
            lemma_key(toks, i, "null"@);
        },
    }
}

/// What stands in the parentheses of an aggregate.
spec fn aggregate_body(arg: Option<Box<ExprModel>>, distinct: bool) -> Seq<Sign> {
    match arg {
        None => mark(Symbol::Star),
        Some(x) => (if distinct {
            key("distinct"@)
        } else {
            Seq::empty()
        }) + expr(*x, 0),
    }
}

proof fn lemma_aggregate_split(
    toks: Seq<TokenModel>,
    i: nat,
    func: AggFn,
    arg: Option<Box<ExprModel>>,
    distinct: bool,
)
    requires
        shown(toks, i, bare(ExprModel::Aggregate { func, arg, distinct })),
    ensures
        bare(ExprModel::Aggregate { func, arg, distinct }).len() == 3 + aggregate_body(
            arg,
            distinct,
        ).len(),
        shown(toks, i, key(function(func))),
        is_symbol(toks, i + 1, Symbol::LParen),
        shown(toks, i + 2, aggregate_body(arg, distinct)),
        is_symbol(toks, i + 2 + aggregate_body(arg, distinct).len(), Symbol::RParen),
{
    let a = key(function(func));
    let b = mark(Symbol::LParen);
    let c = aggregate_body(arg, distinct);
    reveal(bare);
    lemma_split(toks, i, a + b + c, mark(Symbol::RParen));
    lemma_split(toks, i, a + b, c);
    lemma_split(toks, i, a, b);
    lemma_mark(toks, i + 1, Symbol::LParen);
    lemma_mark(toks, i + 2 + c.len(), Symbol::RParen);
}

/// The `WHERE` of a subquery, if there is one.
spec fn inner_where(where_clause: Option<Box<ExprModel>>) -> Seq<Sign> {
    match where_clause {
        None => Seq::empty(),
        Some(x) => key("where"@) + expr(*x, 0),
    }
}

proof fn lemma_exists_split(
    toks: Seq<TokenModel>,
    i: nat,
    patterns: Seq<PathModel>,
    where_clause: Option<Box<ExprModel>>,
)
    requires
        shown(toks, i, bare(ExprModel::Exists { patterns, where_clause })),
    ensures
        bare(ExprModel::Exists { patterns, where_clause }).len() == 3 + paths(patterns, 0).len()
            + inner_where(where_clause).len(),
        shown(toks, i, key("exists"@)),
        is_symbol(toks, i + 1, Symbol::LBrace),
        shown(toks, i + 2, paths(patterns, 0)),
        shown(toks, i + 2 + paths(patterns, 0).len(), inner_where(where_clause)),
        is_symbol(
            toks,
            i + 2 + paths(patterns, 0).len() + inner_where(where_clause).len(),
            Symbol::RBrace,
        ),
{
    let a = key("exists"@);
    let b = mark(Symbol::LBrace);
    let c = paths(patterns, 0);
    let d = inner_where(where_clause);
    reveal(bare);
    lemma_split(toks, i, a + b + c + d, mark(Symbol::RBrace));
    lemma_split(toks, i, a + b + c, d);
    lemma_split(toks, i, a + b, c);
    lemma_split(toks, i, a, b);
    lemma_mark(toks, i + 1, Symbol::LBrace);
    lemma_mark(toks, i + 2 + c.len() + d.len(), Symbol::RBrace);
}

/// The operand of a `CASE`, if there is one.
spec fn case_operand(operand: Option<Box<ExprModel>>) -> Seq<Sign> {
    match operand {
        None => Seq::empty(),
        Some(x) => expr(*x, 0),
    }
}

/// The `ELSE` of a `CASE`, if there is one.
spec fn case_default(default: Option<Box<ExprModel>>) -> Seq<Sign> {
    match default {
        None => Seq::empty(),
        Some(x) => key("else"@) + expr(*x, 0),
    }
}

proof fn lemma_case_split(toks: Seq<TokenModel>, i: nat, e: ExprModel, j: nat, k: nat, m: nat)
    requires
        e is Case,
        shown(toks, i, bare(e)),
        j == i + 1 + case_operand(e->operand).len(),
        k == j + cases(e->branches, 0).len(),
        m == k + case_default(e->default).len(),
    ensures
        i + bare(e).len() == m + 1,
        is_word(toks, i, "case"@),
        i < toks.len(),
        shown(toks, i + 1, case_operand(e->operand)),
        shown(toks, j, cases(e->branches, 0)),
        shown(toks, k, case_default(e->default)),
        is_word(toks, m, "end"@),
{
    let a = key("case"@);
    let b = case_operand(e->operand);
    let c = cases(e->branches, 0);
    let d = case_default(e->default);
    assert(bare(e) == a + b + c + d + key("end"@)) by {
        reveal(bare);
    }
    lemma_split(toks, i, a + b + c + d, key("end"@));
    lemma_split(toks, i, a + b + c, d);
    lemma_split(toks, i, a + b, c);
    lemma_split(toks, i, a, b);
    lemma_key(toks, i, "case"@);
    lemma_key(toks, m, "end"@);
}

// ---- Levels --------------------------------------------------------------------------

/// An expression that was written is read, at any level, up to where it ends.
pub proof fn lemma_expr(toks: Seq<TokenModel>, i: nat, e: ExprModel)
    requires
        expr_ok(e),
        shown(toks, i, expr(e, 0)),
        ends(toks, i + expr(e, 0).len(), 0),
    ensures
        expr_at(toks, i) == Ok::<(ExprModel, nat), ErrorModel>((e, i + expr(e, 0).len())),
        begins(kind_at(toks, i), 0),
        expr(e, 0).len() > 0,
        i < toks.len(),
{
    lemma_level(toks, i, e, 0);
    lemma_read_expr(toks, i);
    lemma_begins(toks, i, e, 0);
}

#[verifier::rlimit(60)]
#[verifier::spinoff_prover]
proof fn lemma_level(toks: Seq<TokenModel>, i: nat, e: ExprModel, level: int)
    requires
        0 <= level <= 4,
        expr_ok(e),
        shown(toks, i, expr(e, level)),
        ends(toks, i + expr(e, level).len(), level),
    ensures
        read_at(toks, i, level) == Ok::<(ExprModel, nat), ErrorModel>(
            (e, i + expr(e, level).len()),
        ),
    decreases e, rank(e, level), 5nat,
{
    let j = i + expr(e, level).len();
    lemma_begins(toks, i, e, level);
    if level == 0 {
        lemma_read_expr(toks, i);
        lemma_or(toks, i, e);
    } else if level == 1 {
        lemma_read_conjunction(toks, i);
        lemma_and(toks, i, e);
    } else if level == 2 {
        lemma_read_negation(toks, i);
        if e is Not {
            let x = *e->Not_0;
            lemma_forms(e, 2);
            assert(bare(e) == key("not"@) + expr(x, 2)) by {
                reveal(bare);
            }
            lemma_split(toks, i, key("not"@), expr(x, 2));
            lemma_key(toks, i, "not"@);
            lemma_level(toks, i + 1, x, 2);
            lemma_read_negation(toks, i + 1);
        } else {
            lemma_forms(e, 2);
            lemma_forms(e, 3);
            lemma_begins(toks, i, e, 3);
            lemma_no_not(toks, i);
            lemma_level(toks, i, e, 3);
            lemma_read_comparison(toks, i);
        }
    } else if level == 3 {
        lemma_read_comparison(toks, i);
        lemma_comparison(toks, i, e);
    } else {
        lemma_read_primary(toks, i);
        lemma_operand(toks, i, e);
    }
}

/// Up to an `OR` behind it, an expression is read as the first operand.
#[verifier::rlimit(60)]
#[verifier::spinoff_prover]
proof fn lemma_or(toks: Seq<TokenModel>, i: nat, e: ExprModel)
    requires
        expr_ok(e),
        shown(toks, i, expr(e, 0)),
        ends(toks, i + expr(e, 0).len(), 1),
    ensures
        expr_at(toks, i) == or_rest_at(toks, e, i + expr(e, 0).len()),
    decreases e, rank(e, 0), 4nat,
{
    let j = i + expr(e, 0).len();
    lemma_begins(toks, i, e, 0);
    if let ExprModel::Or(x, y) = e {
        let a = expr(*x, 0);
        let b = expr(*y, 1);
        lemma_forms(e, 0);
        assert(bare(e) == a + key("or"@) + b) by {
            reveal(bare);
        }
        lemma_split(toks, i, a + key("or"@), b);
        lemma_split(toks, i, a, key("or"@));
        let k = i + a.len();
        lemma_key(toks, k, "or"@);
        lemma_or_ends(toks, k);
        lemma_or(toks, i, *x);
        lemma_level(toks, k + 1, *y, 1);
        lemma_read_conjunction(toks, k + 1);
        assert(conjunction_at(toks, k + 1) == Ok::<(ExprModel, nat), ErrorModel>((*y, j)));
    } else {
        lemma_forms(e, 0);
        lemma_forms(e, 1);
        lemma_level(toks, i, e, 1);
        lemma_read_conjunction(toks, i);
        assert(conjunction_at(toks, i) == Ok::<(ExprModel, nat), ErrorModel>((e, j)));
    }
}

/// Up to an `AND` behind it, an expression is read as the first operand.
#[verifier::rlimit(60)]
#[verifier::spinoff_prover]
proof fn lemma_and(toks: Seq<TokenModel>, i: nat, e: ExprModel)
    requires
        expr_ok(e),
        shown(toks, i, expr(e, 1)),
        ends(toks, i + expr(e, 1).len(), 2),
    ensures
        conjunction_at(toks, i) == and_rest_at(toks, e, i + expr(e, 1).len()),
    decreases e, rank(e, 1), 4nat,
{
    let j = i + expr(e, 1).len();
    lemma_begins(toks, i, e, 1);
    if let ExprModel::And(x, y) = e {
        let a = expr(*x, 1);
        let b = expr(*y, 2);
        lemma_forms(e, 1);
        assert(bare(e) == a + key("and"@) + b) by {
            reveal(bare);
        }
        lemma_split(toks, i, a + key("and"@), b);
        lemma_split(toks, i, a, key("and"@));
        let k = i + a.len();
        lemma_key(toks, k, "and"@);
        lemma_and_ends(toks, k);
        lemma_and(toks, i, *x);
        lemma_level(toks, k + 1, *y, 2);
        lemma_read_negation(toks, k + 1);
        assert(negation_at(toks, k + 1) == Ok::<(ExprModel, nat), ErrorModel>((*y, j)));
    } else {
        lemma_forms(e, 1);
        lemma_forms(e, 2);
        lemma_level(toks, i, e, 2);
        lemma_read_negation(toks, i);
        assert(negation_at(toks, i) == Ok::<(ExprModel, nat), ErrorModel>((e, j)));
    }
}

/// A comparison operator is read back.
proof fn lemma_operator(toks: Seq<TokenModel>, i: nat, op: CmpOp)
    requires
        shown(toks, i, operator(op)),
    ensures
        operator_at(toks, i) == Some((op, i + operator(op).len())),
        ends(toks, i, 4),
        operator(op).len() > 0,
{
    lemma_words();
    match op {
        CmpOp::Eq => {
            lemma_mark(toks, i, Symbol::Equal);
        },
        CmpOp::Neq => {
            lemma_mark(toks, i, Symbol::NotEqual);
        },
        CmpOp::Lt => {
            lemma_mark(toks, i, Symbol::Less);
        },
        CmpOp::Lte => {
            lemma_mark(toks, i, Symbol::LessEqual);
        },
        CmpOp::Gt => {
            lemma_mark(toks, i, Symbol::Greater);
        },
        CmpOp::Gte => {
            lemma_mark(toks, i, Symbol::GreaterEqual);
        },
        CmpOp::Contains => {
            lemma_key(toks, i, "contains"@);
        },
        CmpOp::StartsWith => {
            lemma_split(toks, i, key("starts"@), key("with"@));
            lemma_key(toks, i, "starts"@);
            lemma_key(toks, i + 1, "with"@);
        },
        CmpOp::EndsWith => {
            lemma_split(toks, i, key("ends"@), key("with"@));
            lemma_key(toks, i, "ends"@);
            lemma_key(toks, i + 1, "with"@);
        },
        CmpOp::In => {
            lemma_key(toks, i, "in"@);
        },
    }
}

#[verifier::rlimit(60)]
#[verifier::spinoff_prover]
proof fn lemma_comparison(toks: Seq<TokenModel>, i: nat, e: ExprModel)
    requires
        expr_ok(e),
        shown(toks, i, expr(e, 3)),
        ends(toks, i + expr(e, 3).len(), 3),
    ensures
        comparison_at(toks, i) == Ok::<(ExprModel, nat), ErrorModel>((e, i + expr(e, 3).len())),
    decreases e, rank(e, 3), 4nat,
{
    let j = i + expr(e, 3).len();
    lemma_begins(toks, i, e, 3);
    if e is Compare {
        lemma_compared(toks, i, e);
    } else if e is IsNull {
        lemma_null_test(toks, i, e);
    } else {
        lemma_forms(e, 3);
        lemma_forms(e, 4);
        lemma_level(toks, i, e, 4);
        lemma_read_primary(toks, i);
        assert(primary_at(toks, i) == Ok::<(ExprModel, nat), ErrorModel>((e, j)));
    }
}

#[verifier::rlimit(60)]
#[verifier::spinoff_prover]
proof fn lemma_compared(toks: Seq<TokenModel>, i: nat, e: ExprModel)
    requires
        e is Compare,
        expr_ok(e),
        shown(toks, i, expr(e, 3)),
        ends(toks, i + expr(e, 3).len(), 3),
    ensures
        comparison_at(toks, i) == Ok::<(ExprModel, nat), ErrorModel>((e, i + expr(e, 3).len())),
    decreases e, rank(e, 3), 3nat,
{
    let j = i + expr(e, 3).len();
    let x = e->Compare_0;
    let op = e->Compare_1;
    let y = e->Compare_2;
    let a = expr(*x, 4);
    let b = operator(op);
    lemma_forms(e, 3);
    let c = expr(*y, 4);
    assert(bare(e) == a + b + c) by {
        reveal(bare);
    }
    lemma_split(toks, i, a + b, c);
    lemma_split(toks, i, a, b);
    let k = i + a.len();
    lemma_operator(toks, k, op);
    lemma_begins(toks, i, *x, 4);
    lemma_level(toks, i, *x, 4);
    lemma_read_primary(toks, i);
    lemma_level(toks, k + b.len(), *y, 4);
    lemma_read_primary(toks, k + b.len());
    assert(primary_at(toks, i) == Ok::<(ExprModel, nat), ErrorModel>((*x, k)));
    assert(primary_at(toks, k + b.len()) == Ok::<(ExprModel, nat), ErrorModel>((*y, j)));
}

#[verifier::rlimit(60)]
#[verifier::spinoff_prover]
proof fn lemma_null_test(toks: Seq<TokenModel>, i: nat, e: ExprModel)
    requires
        e is IsNull,
        expr_ok(e),
        shown(toks, i, expr(e, 3)),
        ends(toks, i + expr(e, 3).len(), 3),
    ensures
        comparison_at(toks, i) == Ok::<(ExprModel, nat), ErrorModel>((e, i + expr(e, 3).len())),
    decreases e, rank(e, 3), 3nat,
{
    let j = i + expr(e, 3).len();
    let x = e->IsNull_0;
    let negated = e->IsNull_1;
    let a = expr(*x, 4);
    lemma_forms(e, 3);
    let n = if negated {
        key("not"@)
    } else {
        Seq::empty()
    };
    assert(bare(e) == a + key("is"@) + n + key("null"@)) by {
        reveal(bare);
    }
    lemma_split(toks, i, a + key("is"@) + n, key("null"@));
    lemma_split(toks, i, a + key("is"@), n);
    lemma_split(toks, i, a, key("is"@));
    let k = i + a.len();
    lemma_key(toks, k, "is"@);
    lemma_key(toks, k + 1 + n.len(), "null"@);
    lemma_is_word_ends(toks, k, k + 1 + n.len());
    if negated {
        lemma_key(toks, k + 1, "not"@);
        lemma_not_word(toks, k + 1);
    }
    lemma_begins(toks, i, *x, 4);
    lemma_level(toks, i, *x, 4);
    lemma_read_primary(toks, i);
    assert(primary_at(toks, i) == Ok::<(ExprModel, nat), ErrorModel>((*x, k)));
    assert(operator_at(toks, k) is None);
}

#[verifier::rlimit(60)]
#[verifier::spinoff_prover]
proof fn lemma_operand(toks: Seq<TokenModel>, i: nat, e: ExprModel)
    requires
        expr_ok(e),
        shown(toks, i, expr(e, 4)),
        ends(toks, i + expr(e, 4).len(), 4),
    ensures
        primary_at(toks, i) == Ok::<(ExprModel, nat), ErrorModel>((e, i + expr(e, 4).len())),
    decreases e, rank(e, 4), 4nat,
{
    lemma_begins(toks, i, e, 4);
    if strength(e) < 4 {
        let a = mark(Symbol::LParen);
        let b = expr(e, 0);
        lemma_forms(e, 4);
        lemma_split(toks, i, a + b, mark(Symbol::RParen));
        lemma_split(toks, i, a, b);
        lemma_mark(toks, i, Symbol::LParen);
        let k = i + 1 + b.len();
        lemma_mark(toks, k, Symbol::RParen);
        lemma_symbol_ends(toks, k, Symbol::RParen, 0);
        lemma_level(toks, i + 1, e, 0);
        lemma_read_expr(toks, i + 1);
        assert(expr_at(toks, i + 1) == Ok::<(ExprModel, nat), ErrorModel>((e, k)));
    } else {
        lemma_forms(e, 4);
        match e {
            ExprModel::Var(v) => {
                assert(bare(e) == name(v)) by {
                    reveal(bare);
                }
                lemma_name(toks, i, v);
                lemma_reserved(ascii_lower(v));
            },
            ExprModel::Property(v, p) => {
                assert(bare(e) == name(v) + mark(Symbol::Dot) + name(p)) by {
                    reveal(bare);
                }
                lemma_split(toks, i, name(v) + mark(Symbol::Dot), name(p));
                lemma_split(toks, i, name(v), mark(Symbol::Dot));
                lemma_name(toks, i, v);
                lemma_mark(toks, i + 1, Symbol::Dot);
                lemma_name(toks, i + 2, p);
                lemma_reserved(ascii_lower(v));
            },
            ExprModel::Literal(l) => {
                assert(bare(e) == literal(l)) by {
                    reveal(bare);
                }
                lemma_literal(toks, i, l);
                lemma_literal_begins(toks, i, l);
                assert(literal_operand_at(toks, i) == Ok::<(ExprModel, nat), ErrorModel>(
                    (e, i + literal(l).len()),
                ));
            },
            ExprModel::List(items) => {
                assert(bare(e) == mark(Symbol::LBracket) + exprs(items, 0) + mark(Symbol::RBracket)) by {
                    reveal(bare);
                }
                let a = mark(Symbol::LBracket);
                let b = exprs(items, 0);
                lemma_split(toks, i, a + b, mark(Symbol::RBracket));
                lemma_split(toks, i, a, b);
                lemma_mark(toks, i, Symbol::LBracket);
                let k = i + 1 + b.len();
                lemma_mark(toks, k, Symbol::RBracket);
                if items.len() == 0 {
                    assert(items =~= Seq::empty());
                } else {
                    lemma_symbol_ends(toks, k, Symbol::RBracket, 0);
                    lemma_exprs(toks, i + 1, items, 0);
                    assert(items.skip(0) =~= items);
                }
            },
            ExprModel::Function { .. } => {
                lemma_function(toks, i, e);
            },
            ExprModel::Aggregate { .. } => {
                lemma_aggregate(toks, i, e);
            },
            ExprModel::Exists { .. } => {
                lemma_exists(toks, i, e);
            },
            ExprModel::Case { .. } => {
                lemma_case(toks, i, e);
            },
            ExprModel::MapProjection { .. } => {
                lemma_map(toks, i, e);
            },
            _ => {},
        }
    }
}

/// Expressions with commas between them are read one by one.
#[verifier::rlimit(60)]
#[verifier::spinoff_prover]
pub proof fn lemma_exprs(toks: Seq<TokenModel>, i: nat, items: Seq<ExprModel>, k: int)
    requires
        0 <= k < items.len(),
        exprs_ok(items),
        shown(toks, i, exprs(items, k)),
        ends(toks, i + exprs(items, k).len(), 0),
        !is_symbol(toks, i + exprs(items, k).len(), Symbol::Comma),
    ensures
        exprs_at(toks, i) == Ok::<(Seq<ExprModel>, nat), ErrorModel>(
            (items.skip(k), i + exprs(items, k).len()),
        ),
        begins(kind_at(toks, i), 0),
    decreases items, items.len() - k, 0nat,
{
    let a = expr(items[k], 0);
    assert(expr_ok(items[k]));
    if k + 1 == items.len() {
        lemma_begins(toks, i, items[k], 0);
        lemma_level(toks, i, items[k], 0);
        lemma_read_expr(toks, i);
        assert(expr_at(toks, i) == Ok::<(ExprModel, nat), ErrorModel>((items[k], i + a.len())));
        assert(items.skip(k) =~= seq![items[k]]);
    } else {
        let c = exprs(items, k + 1);
        lemma_split(toks, i, a + mark(Symbol::Comma), c);
        lemma_split(toks, i, a, mark(Symbol::Comma));
        let j = i + a.len();
        lemma_mark(toks, j, Symbol::Comma);
        lemma_symbol_ends(toks, j, Symbol::Comma, 0);
        lemma_begins(toks, i, items[k], 0);
        lemma_level(toks, i, items[k], 0);
        lemma_read_expr(toks, i);
        assert(expr_at(toks, i) == Ok::<(ExprModel, nat), ErrorModel>((items[k], j)));
        lemma_exprs(toks, j + 1, items, k + 1);
        assert(seq![items[k]] + items.skip(k + 1) =~= items.skip(k));
    }
}

/// Only the names of the aggregate functions are read as such.
proof fn lemma_aggregate_name(word: Text)
    ensures
        agg_of(word) is Some <==> aggregate_name(word),
{
    reveal(aggregate_name);
    lemma_words();
    let all = seq!["count"@, "collect"@, "min"@, "max"@, "sum"@, "avg"@];
    assert(all[0] == "count"@ && all[1] == "collect"@ && all[2] == "min"@ && all[3] == "max"@
        && all[4] == "sum"@ && all[5] == "avg"@);
    if aggregate_name(word) {
        let k = choose|k: int| 0 <= k < all.len() && all[k] == word;
        assert(0 <= k < 6);
    }
}

#[verifier::rlimit(60)]
#[verifier::spinoff_prover]
proof fn lemma_function(toks: Seq<TokenModel>, i: nat, e: ExprModel)
    requires
        e is Function,
        expr_ok(e),
        shown(toks, i, bare(e)),
    ensures
        primary_at(toks, i) == Ok::<(ExprModel, nat), ErrorModel>((e, i + bare(e).len())),
    decreases e, 0int, 0nat,
{
    let f = e->Function_name;
    let args = e->args;
    let a = name(f);
    let b = mark(Symbol::LParen);
    let c = exprs(args, 0);
    assert(bare(e) == a + b + c + mark(Symbol::RParen)) by {
        reveal(bare);
    }
    lemma_split(toks, i, a + b + c, mark(Symbol::RParen));
    lemma_split(toks, i, a + b, c);
    lemma_split(toks, i, a, b);
    lemma_name(toks, i, f);
    lemma_reserved(ascii_lower(f));
    lemma_mark(toks, i + 1, Symbol::LParen);
    let k = i + 2 + c.len();
    lemma_mark(toks, k, Symbol::RParen);
    lemma_aggregate_name(ascii_lower(f));
    if args.len() == 0 {
        assert(args =~= Seq::empty());
    } else {
        lemma_symbol_ends(toks, k, Symbol::RParen, 0);
        assert(exprs_ok(args));
        lemma_exprs(toks, i + 2, args, 0);
        assert(args.skip(0) =~= args);
    }
    assert(call_at(toks, f, i + 2) == Ok::<(ExprModel, nat), ErrorModel>((e, k + 1)));
    lemma_call_word(toks, i, f, Ok((e, k + 1)));
}

#[verifier::rlimit(60)]
#[verifier::spinoff_prover]
proof fn lemma_aggregate(toks: Seq<TokenModel>, i: nat, e: ExprModel)
    requires
        e is Aggregate,
        expr_ok(e),
        shown(toks, i, bare(e)),
    ensures
        primary_at(toks, i) == Ok::<(ExprModel, nat), ErrorModel>((e, i + bare(e).len())),
    decreases e, 0int, 0nat,
{
    let func = e->func;
    let arg = e->arg;
    let distinct = e->distinct;
    let c = aggregate_body(arg, distinct);
    lemma_aggregate_split(toks, i, func, arg, distinct);
    lemma_key(toks, i, function(func));
    lemma_function_word(func);
    let w = kind_at(toks, i)->Word_0;
    let k = i + 2 + c.len();
    match arg {
        None => {
            lemma_mark(toks, i + 2, Symbol::Star);
        },
        Some(x) => {
            let d = if distinct {
                key("distinct"@)
            } else {
                Seq::empty()
            };
            lemma_split(toks, i + 2, d, expr(*x, 0));
            let s = i + 2 + d.len();
            lemma_symbol_ends(toks, k, Symbol::RParen, 0);
            lemma_begins(toks, s, *x, 0);
            lemma_level(toks, s, *x, 0);
            lemma_read_expr(toks, s);
            assert(expr_at(toks, s) == Ok::<(ExprModel, nat), ErrorModel>((*x, k)));
            lemma_no_clause_word(toks, s, 0);
            if distinct {
                lemma_key(toks, i + 2, "distinct"@);
            }
        },
    }
    assert(call_at(toks, w, i + 2) == Ok::<(ExprModel, nat), ErrorModel>((e, k + 1)));
    lemma_call_word(toks, i, w, Ok((e, k + 1)));
}

#[verifier::rlimit(60)]
#[verifier::spinoff_prover]
proof fn lemma_exists(toks: Seq<TokenModel>, i: nat, e: ExprModel)
    requires
        e is Exists,
        expr_ok(e),
        shown(toks, i, bare(e)),
    ensures
        primary_at(toks, i) == Ok::<(ExprModel, nat), ErrorModel>((e, i + bare(e).len())),
    decreases e, 0int, 0nat,
{
    let patterns = e->patterns;
    let where_clause = e->where_clause;
    let c = paths(patterns, 0);
    let d = inner_where(where_clause);
    lemma_exists_split(toks, i, patterns, where_clause);
    lemma_key(toks, i, "exists"@);
    let j = i + 2 + c.len();
    let k = j + d.len();
    match where_clause {
        None => {},
        Some(x) => {
            lemma_split(toks, j, key("where"@), expr(*x, 0));
            lemma_key(toks, j, "where"@);
            lemma_symbol_ends(toks, k, Symbol::RBrace, 0);
            lemma_level(toks, j + 1, *x, 0);
            lemma_read_expr(toks, j + 1);
            assert(expr_at(toks, j + 1) == Ok::<(ExprModel, nat), ErrorModel>((*x, k)));
        },
    }
    lemma_paths(toks, i + 2, patterns, 0);
    assert(patterns.skip(0) =~= patterns);
    assert(exists_at(toks, i + 2) == Ok::<(ExprModel, nat), ErrorModel>((e, k + 1)));
    lemma_exists_word(toks, i, Ok((e, k + 1)));
}

#[verifier::rlimit(60)]
#[verifier::spinoff_prover]
proof fn lemma_cases(
    toks: Seq<TokenModel>,
    i: nat,
    branches: Seq<(ExprModel, ExprModel)>,
    k: int,
)
    requires
        0 <= k <= branches.len(),
        cases_ok(branches),
        shown(toks, i, cases(branches, k)),
        is_word(toks, i + cases(branches, k).len(), "else"@) || is_word(
            toks,
            i + cases(branches, k).len(),
            "end"@,
        ),
    ensures
        branches_at(toks, i) == Ok::<(Seq<(ExprModel, ExprModel)>, nat), ErrorModel>(
            (branches.skip(k), i + cases(branches, k).len()),
        ),
        k < branches.len() ==> is_word(toks, i, "when"@) && cases(branches, k).len() > 0,
    decreases branches, branches.len() - k, 0nat,
{
    lemma_branch_words(toks, i + cases(branches, k).len());
    if k < branches.len() {
        let x = branches[k].0;
        let y = branches[k].1;
        let a = key("when"@);
        let b = expr(x, 0);
        let c = key("then"@);
        let d = expr(y, 0);
        let f = cases(branches, k + 1);
        lemma_split(toks, i, a + b + c + d, f);
        lemma_split(toks, i, a + b + c, d);
        lemma_split(toks, i, a + b, c);
        lemma_split(toks, i, a, b);
        let m = i + 1 + b.len();
        let n = m + 1 + d.len();
        lemma_key(toks, i, "when"@);
        lemma_key(toks, m, "then"@);
        lemma_cases(toks, n, branches, k + 1);
        lemma_stop_word(toks, m, "then"@);
        assert(expr_ok(x) && expr_ok(y)) by {
            assert(expr_ok(branches[k].0));
        }
        lemma_level(toks, i + 1, x, 0);
        lemma_read_expr(toks, i + 1);
        lemma_begins(toks, i + 1, x, 0);
        lemma_begins(toks, m + 1, y, 0);
        if is_word(toks, n, "when"@) {
            lemma_stop_word(toks, n, "when"@);
        } else if is_word(toks, n, "else"@) {
            lemma_stop_word(toks, n, "else"@);
        } else {
            lemma_stop_word(toks, n, "end"@);
        }
        lemma_level(toks, m + 1, y, 0);
        lemma_read_expr(toks, m + 1);
        assert(expr_at(toks, i + 1) == Ok::<(ExprModel, nat), ErrorModel>((x, m)));
        assert(expr_at(toks, m + 1) == Ok::<(ExprModel, nat), ErrorModel>((y, n)));
        assert(branches[k] == (x, y));
        assert(seq![branches[k]] + branches.skip(k + 1) =~= branches.skip(k));
    } else {
        assert(branches.skip(k) =~= Seq::empty());
    }
}

#[verifier::rlimit(60)]
#[verifier::spinoff_prover]
proof fn lemma_case(toks: Seq<TokenModel>, i: nat, e: ExprModel)
    requires
        e is Case,
        expr_ok(e),
        shown(toks, i, bare(e)),
    ensures
        primary_at(toks, i) == Ok::<(ExprModel, nat), ErrorModel>((e, i + bare(e).len())),
    decreases e, 0int, 2nat,
{
    let j = i + 1 + case_operand(e->operand).len();
    let k = j + cases(e->branches, 0).len();
    let m = k + case_default(e->default).len();
    lemma_case_split(toks, i, e, j, k, m);
    lemma_case_rest(toks, j, e, k, m);
    lemma_case_head(toks, i + 1, e, j);
    lemma_case_word(toks, i, Ok((e, m + 1)));
}

#[verifier::rlimit(60)]
#[verifier::spinoff_prover]
proof fn lemma_case_head(toks: Seq<TokenModel>, i: nat, e: ExprModel, j: nat)
    requires
        e is Case,
        expr_ok(e),
        shown(toks, i, case_operand(e->operand)),
        j == i + case_operand(e->operand).len(),
        is_word(toks, j, "when"@),
    ensures
        case_at(toks, i) == case_rest_at(toks, e->operand, j),
    decreases e, 0int, 1nat,
{
    match e->operand {
        None => {
            lemma_case_plain(toks, i);
        },
        Some(x) => {
            lemma_case_operand(toks, i, e, *x);
            lemma_case_with(toks, i, *x, j);
        },
    }
}

proof fn lemma_case_plain(toks: Seq<TokenModel>, i: nat)
    requires
        is_word(toks, i, "when"@),
    ensures
        case_at(toks, i) == case_rest_at(toks, None, i),
{
}

proof fn lemma_case_with(toks: Seq<TokenModel>, i: nat, x: ExprModel, j: nat)
    requires
        !is_word(toks, i, "when"@),
        expr_at(toks, i) == Ok::<(ExprModel, nat), ErrorModel>((x, j)),
        i < j,
    ensures
        case_at(toks, i) == case_rest_at(toks, Some(Box::new(x)), j),
{
}

/// Behind the word `CASE`, a `CASE` is read.
proof fn lemma_case_word(toks: Seq<TokenModel>, i: nat, r: Parsed<ExprModel>)
    requires
        is_word(toks, i, "case"@),
        i < toks.len(),
        case_at(toks, i + 1) == r,
    ensures
        primary_at(toks, i) == r,
{
    lemma_words();
    let w = kind_at(toks, i)->Word_0;
    assert(word_operand_at(toks, w, i) == r);
}

#[verifier::rlimit(60)]
#[verifier::spinoff_prover]
proof fn lemma_case_operand(toks: Seq<TokenModel>, i: nat, e: ExprModel, x: ExprModel)
    requires
        e is Case,
        e->operand == Some(Box::new(x)),
        expr_ok(e),
        shown(toks, i, expr(x, 0)),
        is_word(toks, i + expr(x, 0).len(), "when"@),
    ensures
        expr_at(toks, i) == Ok::<(ExprModel, nat), ErrorModel>((x, i + expr(x, 0).len())),
        !is_word(toks, i, "when"@),
        expr(x, 0).len() > 0,
    decreases e, 0int, 0nat,
{
    let j = i + expr(x, 0).len();
    lemma_stop_word(toks, j, "when"@);
    assert(*(e->operand->Some_0) == x);
    assert(expr_ok(x));
    lemma_begins(toks, i, x, 0);
    lemma_no_clause_word(toks, i, 0);
    lemma_level(toks, i, x, 0);
    lemma_read_expr(toks, i);
}

/// Only a negation begins with `NOT`.
proof fn lemma_no_not(toks: Seq<TokenModel>, i: nat)
    requires
        begins(kind_at(toks, i), 3),
    ensures
        !is_word(toks, i, "not"@),
{
    reveal(begins);
    lemma_words();
}

/// An expression begins with no word that belongs to what stands around it.
pub proof fn lemma_no_clause_word(toks: Seq<TokenModel>, i: nat, level: int)
    requires
        begins(kind_at(toks, i), level),
    ensures
        !is_word(toks, i, "when"@),
        !is_word(toks, i, "distinct"@),
        !is_symbol(toks, i, Symbol::Star),
        !is_symbol(toks, i, Symbol::RParen),
        !is_symbol(toks, i, Symbol::RBracket),
        !is_symbol(toks, i, Symbol::RBrace),
{
    reveal(begins);
    lemma_words();
}

#[verifier::rlimit(60)]
#[verifier::spinoff_prover]
proof fn lemma_case_rest(toks: Seq<TokenModel>, j: nat, e: ExprModel, k: nat, m: nat)
    requires
        e is Case,
        expr_ok(e),
        k == j + cases(e->branches, 0).len(),
        m == k + case_default(e->default).len(),
        shown(toks, j, cases(e->branches, 0)),
        shown(toks, k, case_default(e->default)),
        is_word(toks, m, "end"@),
    ensures
        case_rest_at(toks, e->operand, j) == Ok::<(ExprModel, nat), ErrorModel>((e, m + 1)),
        is_word(toks, j, "when"@),
    decreases e, 0int, 1nat,
{
    let branches = e->branches;
    lemma_case_end(toks, k, e);
    assert(branches.len() > 0 && cases_ok(branches));
    lemma_cases(toks, j, branches, 0);
    assert(branches.skip(0) =~= branches);
    lemma_case_built(toks, j, e->operand, branches, k, e->default, m + 1);
}

proof fn lemma_case_built(
    toks: Seq<TokenModel>,
    j: nat,
    operand: Option<Box<ExprModel>>,
    branches: Seq<(ExprModel, ExprModel)>,
    k: nat,
    default: Option<Box<ExprModel>>,
    m: nat,
)
    requires
        is_word(toks, j, "when"@),
        branches_at(toks, j) == Ok::<(Seq<(ExprModel, ExprModel)>, nat), ErrorModel>(
            (branches, k),
        ),
        j < k,
        case_end_at(toks, k) == Ok::<(Option<Box<ExprModel>>, nat), ErrorModel>((default, m)),
    ensures
        case_rest_at(toks, operand, j) == Ok::<(ExprModel, nat), ErrorModel>(
            ((ExprModel::Case { operand, branches, default }), m),
        ),
{
}

#[verifier::rlimit(60)]
#[verifier::spinoff_prover]
proof fn lemma_case_end(toks: Seq<TokenModel>, k: nat, e: ExprModel)
    requires
        e is Case,
        expr_ok(e),
        shown(toks, k, case_default(e->default)),
        is_word(toks, k + case_default(e->default).len(), "end"@),
    ensures
        case_end_at(toks, k) == Ok::<(Option<Box<ExprModel>>, nat), ErrorModel>(
            (e->default, k + case_default(e->default).len() + 1),
        ),
        is_word(toks, k, "else"@) || is_word(toks, k, "end"@),
    decreases e, 0int, 0nat,
{
    let m = k + case_default(e->default).len();
    lemma_branch_words(toks, k);
    match e->default {
        None => {},
        Some(x) => {
            lemma_split(toks, k, key("else"@), expr(*x, 0));
            lemma_key(toks, k, "else"@);
            lemma_stop_word(toks, m, "end"@);
            lemma_level(toks, k + 1, *x, 0);
            lemma_read_expr(toks, k + 1);
            assert(expr_at(toks, k + 1) == Ok::<(ExprModel, nat), ErrorModel>((*x, m)));
        },
    }
}

#[verifier::rlimit(60)]
#[verifier::spinoff_prover]
proof fn lemma_entry(toks: Seq<TokenModel>, i: nat, e: MapEntryModel)
    requires
        entry_ok(e),
        shown(toks, i, entry(e)),
        ends(toks, i + entry(e).len(), 0),
    ensures
        entry_at(toks, i) == Ok::<(MapEntryModel, nat), ErrorModel>((e, i + entry(e).len())),
        entry(e).len() > 0,
        i < toks.len(),
        !is_symbol(toks, i, Symbol::RBrace),
    decreases e, 0int, 0nat,
{
    match e {
        MapEntryModel::Property(p) => {
            lemma_split(toks, i, mark(Symbol::Dot), name(p));
            lemma_mark(toks, i, Symbol::Dot);
            lemma_name(toks, i + 1, p);
        },
        MapEntryModel::Literal(k, x) => {
            lemma_split(toks, i, name(k) + mark(Symbol::Colon), expr(x, 0));
            lemma_split(toks, i, name(k), mark(Symbol::Colon));
            lemma_name(toks, i, k);
            lemma_mark(toks, i + 1, Symbol::Colon);
            lemma_level(toks, i + 2, x, 0);
            lemma_read_expr(toks, i + 2);
            assert(expr_at(toks, i + 2) == Ok::<(ExprModel, nat), ErrorModel>(
                (x, i + entry(e).len()),
            ));
        },
    }
}

proof fn lemma_entries_last(toks: Seq<TokenModel>, i: nat, e: MapEntryModel, j: nat)
    requires
        entry_at(toks, i) == Ok::<(MapEntryModel, nat), ErrorModel>((e, j)),
        is_symbol(toks, j, Symbol::RBrace),
    ensures
        entries_at(toks, i) == Ok::<(Seq<MapEntryModel>, nat), ErrorModel>((seq![e], j + 1)),
{
}

proof fn lemma_entries_step(toks: Seq<TokenModel>, i: nat, e: MapEntryModel, j: nat)
    requires
        entry_at(toks, i) == Ok::<(MapEntryModel, nat), ErrorModel>((e, j)),
        i < j,
        i < toks.len(),
        is_symbol(toks, j, Symbol::Comma),
        entries_at(toks, j + 1) is Ok,
    ensures
        entries_at(toks, i) == Ok::<(Seq<MapEntryModel>, nat), ErrorModel>(
            (
                seq![e] + entries_at(toks, j + 1)->Ok_0.0,
                entries_at(toks, j + 1)->Ok_0.1,
            ),
        ),
{
}

#[verifier::rlimit(60)]
#[verifier::spinoff_prover]
proof fn lemma_entries(toks: Seq<TokenModel>, i: nat, es: Seq<MapEntryModel>, k: int)
    requires
        0 <= k < es.len(),
        entries_ok(es),
        shown(toks, i, entries(es, k)),
        is_symbol(toks, i + entries(es, k).len(), Symbol::RBrace),
    ensures
        entries_at(toks, i) == Ok::<(Seq<MapEntryModel>, nat), ErrorModel>(
            (es.skip(k), i + entries(es, k).len() + 1),
        ),
        !is_symbol(toks, i, Symbol::RBrace),
    decreases es, es.len() - k, 0nat,
{
    let a = entry(es[k]);
    let j = i + a.len();
    assert(entry_ok(es[k]));
    if k + 1 == es.len() {
        lemma_symbol_ends(toks, j, Symbol::RBrace, 0);
        lemma_entry(toks, i, es[k]);
        lemma_entries_last(toks, i, es[k], j);
        assert(es.skip(k) =~= seq![es[k]]);
    } else {
        let c = entries(es, k + 1);
        lemma_split(toks, i, a + mark(Symbol::Comma), c);
        lemma_split(toks, i, a, mark(Symbol::Comma));
        lemma_mark(toks, j, Symbol::Comma);
        lemma_symbol_ends(toks, j, Symbol::Comma, 0);
        lemma_entry(toks, i, es[k]);
        lemma_entries(toks, j + 1, es, k + 1);
        lemma_entries_step(toks, i, es[k], j);
        assert(seq![es[k]] + es.skip(k + 1) =~= es.skip(k));
    }
}

#[verifier::rlimit(60)]
#[verifier::spinoff_prover]
proof fn lemma_map(toks: Seq<TokenModel>, i: nat, e: ExprModel)
    requires
        e is MapProjection,
        expr_ok(e),
        shown(toks, i, bare(e)),
    ensures
        primary_at(toks, i) == Ok::<(ExprModel, nat), ErrorModel>((e, i + bare(e).len())),
    decreases e, 0int, 0nat,
{
    let var = e->var;
    let es = e->entries;
    let a = name(var);
    let b = mark(Symbol::LBrace);
    let c = entries(es, 0);
    assert(bare(e) == a + b + c + mark(Symbol::RBrace)) by {
        reveal(bare);
    }
    lemma_split(toks, i, a + b + c, mark(Symbol::RBrace));
    lemma_split(toks, i, a + b, c);
    lemma_split(toks, i, a, b);
    lemma_name(toks, i, var);
    lemma_reserved(ascii_lower(var));
    lemma_mark(toks, i + 1, Symbol::LBrace);
    lemma_mark(toks, i + 2 + c.len(), Symbol::RBrace);
    if es.len() == 0 {
        assert(es =~= Seq::empty());
    } else {
        assert(entries_ok(es));
        lemma_entries(toks, i + 2, es, 0);
        assert(es.skip(0) =~= es);
    }
}

} // verus!
