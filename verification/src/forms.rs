//! Other ways of writing: the forms that say the same in fewer or other signs.

use vstd::prelude::*;

use crate::ast::{Direction, ExprModel, LiteralModel, PathModel, RelPatternModel};
use crate::error::ErrorModel;
use crate::grammar::{
    exists_at, is_symbol, is_word, kind_at, literal_at, names_at, opt_count_at, opt_props_at,
    query_of, rel_at,
};
use crate::lexer::{KindModel, Symbol, TokenModel};
use crate::phrases::{lemma_expr, lemma_symbol_ends};
use crate::rereading::lemma_paths;
use crate::text::{ascii_lower, Text};
use crate::writing::{expr, expr_ok, paths, paths_ok, shown};

verus! {

/// The relationship pattern without a name, types or a length.
pub open spec fn any_relationship(direction: Direction) -> RelPatternModel {
    RelPatternModel { var: None, types: Seq::empty(), direction, length: None }
}

/// `-->`, `<--` and `--` stand for any one relationship in their directions; an arrow at both ends
/// is an error.
pub proof fn lemma_bare_relationships(toks: Seq<TokenModel>, i: nat)
    ensures
        kind_at(toks, i) == KindModel::Symbol(Symbol::Minus) && kind_at(toks, i + 1)
            == KindModel::Symbol(Symbol::Minus) && kind_at(toks, i + 2) == KindModel::Symbol(
            Symbol::Greater,
        ) ==> rel_at(toks, i) == Ok::<(RelPatternModel, nat), ErrorModel>(
            (any_relationship(Direction::Outgoing), i + 3),
        ),
        kind_at(toks, i) == KindModel::Symbol(Symbol::Minus) && kind_at(toks, i + 1)
            == KindModel::Symbol(Symbol::Minus) && kind_at(toks, i + 2) != KindModel::Symbol(
            Symbol::Greater,
        ) ==> rel_at(toks, i) == Ok::<(RelPatternModel, nat), ErrorModel>(
            (any_relationship(Direction::Both), i + 2),
        ),
        kind_at(toks, i) == KindModel::Symbol(Symbol::Less) && kind_at(toks, i + 1)
            == KindModel::Symbol(Symbol::Minus) && kind_at(toks, i + 2) == KindModel::Symbol(
            Symbol::Minus,
        ) && kind_at(toks, i + 3) != KindModel::Symbol(Symbol::Greater) ==> rel_at(toks, i) == Ok::<
            (RelPatternModel, nat),
            ErrorModel,
        >((any_relationship(Direction::Incoming), i + 3)),
        kind_at(toks, i) == KindModel::Symbol(Symbol::Less) && kind_at(toks, i + 1)
            == KindModel::Symbol(Symbol::Minus) && kind_at(toks, i + 2) == KindModel::Symbol(
            Symbol::Minus,
        ) && kind_at(toks, i + 3) == KindModel::Symbol(Symbol::Greater) ==> rel_at(
            toks,
            i,
        ) is Err,
{
}

/// A colon may stand behind the bar between two names.
pub proof fn lemma_names_with_colon(toks: Seq<TokenModel>, i: nat, a: Text, b: Text)
    requires
        kind_at(toks, i) == KindModel::Word(a),
        kind_at(toks, i + 1) == KindModel::Symbol(Symbol::Pipe),
        kind_at(toks, i + 2) == KindModel::Symbol(Symbol::Colon),
        kind_at(toks, i + 3) == KindModel::Word(b),
        kind_at(toks, i + 4) != KindModel::Symbol(Symbol::Pipe),
    ensures
        names_at(toks, i) == Ok::<(Seq<Text>, nat), ErrorModel>((seq![a, b], i + 4)),
{
    reveal_with_fuel(names_at, 2);
    assert(seq![a] + seq![b] =~= seq![a, b]);
}

/// An empty property map lists nothing.
pub proof fn lemma_empty_properties(toks: Seq<TokenModel>, i: nat)
    requires
        kind_at(toks, i) == KindModel::Symbol(Symbol::LBrace),
        kind_at(toks, i + 1) == KindModel::Symbol(Symbol::RBrace),
    ensures
        opt_props_at(toks, i) == Ok::<(Seq<(Text, LiteralModel)>, nat), ErrorModel>(
            (Seq::empty(), i + 2),
        ),
{
}

/// The word `MATCH` in a subquery changes nothing.
pub proof fn lemma_exists_with_match(toks: Seq<TokenModel>, i: nat, patterns: Seq<PathModel>)
    requires
        paths_ok(patterns),
        is_word(toks, i, "match"@),
        shown(toks, i + 1, paths(patterns, 0)),
        kind_at(toks, i + 1 + paths(patterns, 0).len()) == KindModel::Symbol(Symbol::RBrace),
    ensures
        exists_at(toks, i) == Ok::<(ExprModel, nat), ErrorModel>(
            (
                (ExprModel::Exists { patterns, where_clause: None }),
                i + 2 + paths(patterns, 0).len(),
            ),
        ),
{
    assert(patterns.skip(0) =~= patterns);
    lemma_paths(toks, i + 1, patterns, 0);
}

/// Nor does it where the subquery has a `WHERE`.
pub proof fn lemma_exists_with_match_where(
    toks: Seq<TokenModel>,
    i: nat,
    patterns: Seq<PathModel>,
    predicate: ExprModel,
    j: nat,
    k: nat,
)
    requires
        paths_ok(patterns),
        expr_ok(predicate),
        is_word(toks, i, "match"@),
        j == i + 1 + paths(patterns, 0).len(),
        k == j + 1 + expr(predicate, 0).len(),
        shown(toks, i + 1, paths(patterns, 0)),
        is_word(toks, j, "where"@),
        shown(toks, j + 1, expr(predicate, 0)),
        is_symbol(toks, k, Symbol::RBrace),
    ensures
        exists_at(toks, i) == Ok::<(ExprModel, nat), ErrorModel>(
            (
                (ExprModel::Exists { patterns, where_clause: Some(Box::new(predicate)) }),
                k + 1,
            ),
        ),
{
    assert(patterns.skip(0) =~= patterns);
    lemma_paths(toks, i + 1, patterns, 0);
    lemma_symbol_ends(toks, k, Symbol::RBrace, 0);
    lemma_expr(toks, j + 1, predicate);
}

/// The numbers of a query: an integer literal, with or without a minus, is one of 64 bits, and the
/// numbers behind `SKIP` and `LIMIT` have no sign.
pub proof fn lemma_number_ranges(toks: Seq<TokenModel>, i: nat, n: u64, word: Text)
    ensures
        kind_at(toks, i) == KindModel::Int(n) && n <= i64::MAX ==> literal_at(toks, i) == Ok::<
            (LiteralModel, nat),
            ErrorModel,
        >((LiteralModel::Int(n as i64), i + 1)),
        kind_at(toks, i) == KindModel::Int(n) && n > i64::MAX ==> literal_at(toks, i) is Err,
        kind_at(toks, i) == KindModel::Symbol(Symbol::Minus) && kind_at(toks, i + 1)
            == KindModel::Int(n) && n <= 0x8000_0000_0000_0000 ==> literal_at(toks, i) == Ok::<
            (LiteralModel, nat),
            ErrorModel,
        >((LiteralModel::Int((-(n as int)) as i64), i + 2)),
        kind_at(toks, i) == KindModel::Symbol(Symbol::Minus) && kind_at(toks, i + 1)
            == KindModel::Int(n) && n > 0x8000_0000_0000_0000 ==> literal_at(toks, i) is Err,
        is_word(toks, i, word) && !(kind_at(toks, i + 1) is Int) ==> opt_count_at(
            toks,
            word,
            i,
        ) is Err,
{
}

/// A query needs a clause before its `RETURN`.
pub proof fn lemma_no_clause(toks: Seq<TokenModel>, w: Text)
    requires
        kind_at(toks, 0) == KindModel::Word(w),
        ascii_lower(w) == "return"@,
    ensures
        query_of(toks) is Err,
{
}

} // verus!
