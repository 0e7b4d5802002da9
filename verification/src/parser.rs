//! The recursive-descent parser.

use vstd::prelude::*;

use crate::ast::{
    branch_models, clause_models, expr_models, hop_models, item_models, lemma_branch_models_push,
    lemma_clause_models_push, lemma_expr_models_push, lemma_hop_models_push, lemma_item_models_push,
    lemma_map_entry_models_push, lemma_order_models_push, lemma_path_models_push,
    lemma_prop_models_push, map_entry_models, opt_expr_model, opt_model, opt_nat, order_models,
    path_models, prop_models, AggFn, Clause, CmpOp, Direction, Expr, ExprModel, Literal, MapEntry,
    MatchClause, NodePattern, NodePatternModel, OrderItem, PathPattern, Projection, Query,
    RelPattern, ReturnItem, UnwindClause, VarLength, WithClause,
};
use crate::error::{CypherError, ErrorModel};
use crate::grammar::{
    after_symbol, after_word, agg_of, ahead, and_rest_at, bound_at, branches_at, call_at, case_at,
    case_end_at, case_rest_at, clause_at, clauses_at, comparison_at, conjunction_at, entries_at,
    entry_at, exists_at, expected, expr_at, exprs_at, hops_at, is_symbol, is_word, item_at,
    items_at, kind_at, literal_at, literal_operand_at, match_at, name_at, names_at, negation_at,
    node_at, operator_at, opt_count_at, opt_length_at, opt_names_at, opt_order_at, opt_props_at,
    opt_var_at, opt_where_at, or_rest_at, order_at, orders_at, out_of_range, parsed, path_at,
    paths_at, place_at, primary_at, projection_at, props_at, query_of, rel_at, rel_body_at,
    reserved, var_at, word_operand_at, Parsed,
};
use crate::lexer::{left, token_models, tokenize, KindModel, Symbol, Token, TokenKind, TokenModel};
use crate::text::{lemma_texts_push, lower_ascii, opt_text, push_text, same_text, texts};

verus! {

proof fn lemma_ahead_push<A>(before: Seq<A>, item: A, rest: Parsed<Seq<A>>)
    ensures
        ahead(before, ahead(seq![item], rest)) == ahead(before.push(item), rest),
{
    if let Ok((items, j)) = rest {
        assert(before + (seq![item] + items) =~= before.push(item) + items);
    }
}

proof fn lemma_ahead_last<A>(before: Seq<A>, item: A, j: nat)
    ensures
        ahead(before, Ok((seq![item], j))) == Ok::<(Seq<A>, nat), ErrorModel>(
            (before.push(item), j),
        ),
{
    assert(before + seq![item] =~= before.push(item));
}

proof fn lemma_ahead_none<A>(before: Seq<A>, j: nat)
    ensures
        ahead(before, Ok((Seq::empty(), j))) == Ok::<(Seq<A>, nat), ErrorModel>((before, j)),
{
    assert(before + Seq::<A>::empty() =~= before);
}

proof fn lemma_ahead_nothing<A>(before: Seq<A>, rest: Parsed<Seq<A>>)
    requires
        before.len() == 0,
    ensures
        ahead(before, rest) == rest,
{
    if let Ok((items, j)) = rest {
        assert(before + items =~= items);
    }
}

/// Whether a word, in lower case, is a keyword that cannot name a variable.
fn is_reserved(word: &str) -> (r: bool)
    ensures
        r == reserved(word@),
{
    same_text(word, "match") || same_text(word, "optional") || same_text(word, "where")
        || same_text(word, "return") || same_text(word, "with") || same_text(word, "unwind")
        || same_text(word, "as") || same_text(word, "distinct") || same_text(word, "order")
        || same_text(word, "by") || same_text(word, "skip") || same_text(word, "limit")
        || same_text(word, "asc") || same_text(word, "desc") || same_text(word, "and")
        || same_text(word, "or") || same_text(word, "not") || same_text(word, "in") || same_text(
        word,
        "is",
    ) || same_text(word, "null") || same_text(word, "true") || same_text(word, "false")
        || same_text(word, "contains") || same_text(word, "starts") || same_text(word, "ends")
        || same_text(word, "case") || same_text(word, "when") || same_text(word, "then")
        || same_text(word, "else") || same_text(word, "end") || same_text(word, "exists")
}

/// The aggregate function of a name in lower case.
fn aggregate_of(word: &str) -> (r: Option<AggFn>)
    ensures
        r == agg_of(word@),
{
    if same_text(word, "count") {
        Some(AggFn::Count)
    } else if same_text(word, "collect") {
        Some(AggFn::Collect)
    } else if same_text(word, "min") {
        Some(AggFn::Min)
    } else if same_text(word, "max") {
        Some(AggFn::Max)
    } else if same_text(word, "sum") {
        Some(AggFn::Sum)
    } else if same_text(word, "avg") {
        Some(AggFn::Avg)
    } else {
        None
    }
}

/// Reads tokens from given positions.
pub struct Parser {
    tokens: Vec<Token>,
}

impl Parser {
    /// The tokens.
    pub closed spec fn view(&self) -> Seq<TokenModel> {
        token_models(self.tokens@)
    }

    /// The parser of some tokens.
    pub fn new(tokens: Vec<Token>) -> (r: Parser)
        ensures
            r@ == token_models(tokens@),
    {
        Parser { tokens }
    }

    /// Whether the token at a position is the punctuation.
    fn symbol_is(&self, i: usize, symbol: Symbol) -> (r: bool)
        ensures
            r == is_symbol(self@, i as nat, symbol),
            r ==> i < self@.len() <= usize::MAX,
    {
        if i < self.tokens.len() {
            assert(self@[i as int] == self.tokens@[i as int]@);
            match &self.tokens[i].kind {
                TokenKind::Symbol(s) => *s == symbol,
                _ => false,
            }
        } else {
            false
        }
    }

    /// The word at a position.
    fn word(&self, i: usize) -> (r: Option<&String>)
        ensures
            match r {
                Some(w) => kind_at(self@, i as nat) == KindModel::Word(w@) && i < self@.len()
                    <= usize::MAX,
                None => !(kind_at(self@, i as nat) is Word),
            },
    {
        if i < self.tokens.len() {
            assert(self@[i as int] == self.tokens@[i as int]@);
            match &self.tokens[i].kind {
                TokenKind::Word(w) => Some(w),
                _ => None,
            }
        } else {
            None
        }
    }

    /// Whether the token at a position is the word, which is given in lower case.
    fn word_is(&self, i: usize, word: &str) -> (r: bool)
        ensures
            r == is_word(self@, i as nat, word@),
            r ==> i < self@.len() <= usize::MAX,
    {
        match self.word(i) {
            Some(w) => {
                let lower = lower_ascii(w.as_str());
                same_text(lower.as_str(), word)
            },
            None => false,
        }
    }

    /// The number at a position.
    fn number(&self, i: usize) -> (r: Option<u64>)
        ensures
            match r {
                Some(n) => kind_at(self@, i as nat) == KindModel::Int(n) && i < self@.len()
                    <= usize::MAX,
                None => !(kind_at(self@, i as nat) is Int),
            },
    {
        if i < self.tokens.len() {
            assert(self@[i as int] == self.tokens@[i as int]@);
            match &self.tokens[i].kind {
                TokenKind::Int(n) => Some(*n),
                _ => None,
            }
        } else {
            None
        }
    }

    /// Where the token at a position stands in the text.
    fn place(&self, i: usize) -> (r: usize)
        ensures
            r == place_at(self@, i as nat),
    {
        if i < self.tokens.len() {
            self.tokens[i].position
        } else {
            0
        }
    }

    /// The error that something else was expected at a position.
    fn fail(&self, i: usize, what: &str) -> (r: CypherError)
        ensures
            r@ == expected(self@, i as nat, what@),
    {
        let mut message = String::new();
        push_text(&mut message, "expected ");
        push_text(&mut message, what);
        assert(message@ =~= "expected "@ + what@);
        CypherError::Parse { message, position: self.place(i) }
    }

    /// The error that a number at a position is too large.
    fn range_error(&self, i: usize) -> (r: CypherError)
        ensures
            r@ == out_of_range(self@, i as nat),
    {
        CypherError::Parse {
            message: "integer literal out of range".to_owned(),
            position: self.place(i),
        }
    }

    /// The position behind the punctuation.
    fn expect_symbol(&self, i: usize, symbol: Symbol, what: &str) -> (r: Result<
        usize,
        CypherError,
    >)
        ensures
            match after_symbol(self@, i as nat, symbol, what@) {
                Ok(j) => r is Ok && r->Ok_0 == j && i < j <= self@.len() <= usize::MAX,
                Err(e) => r is Err && r->Err_0@ == e,
            },
    {
        if self.symbol_is(i, symbol) {
            Ok(i + 1)
        } else {
            Err(self.fail(i, what))
        }
    }

    /// The position behind the word.
    fn expect_word(&self, i: usize, word: &str, what: &str) -> (r: Result<usize, CypherError>)
        ensures
            match after_word(self@, i as nat, word@, what@) {
                Ok(j) => r is Ok && r->Ok_0 == j && i < j <= self@.len() <= usize::MAX,
                Err(e) => r is Err && r->Err_0@ == e,
            },
    {
        if self.word_is(i, word) {
            Ok(i + 1)
        } else {
            Err(self.fail(i, what))
        }
    }

    // ---- Names and literals --------------------------------------------------------

    /// A name: any word.
    fn parse_name(&self, i: usize) -> (r: Result<(String, usize), CypherError>)
        ensures
            match name_at(self@, i as nat) {
                Ok((w, j)) => r is Ok && r->Ok_0.0@ == w && r->Ok_0.1 == j && i < j <= self@.len()
                    <= usize::MAX,
                Err(e) => r is Err && r->Err_0@ == e,
            },
    {
        match self.word(i) {
            Some(w) => Ok((w.clone(), i + 1)),
            None => Err(self.fail(i, "a name")),
        }
    }

    /// A variable: a word that is no keyword.
    fn parse_var(&self, i: usize) -> (r: Result<(String, usize), CypherError>)
        ensures
            match var_at(self@, i as nat) {
                Ok((w, j)) => r is Ok && r->Ok_0.0@ == w && r->Ok_0.1 == j && i < j <= self@.len()
                    <= usize::MAX,
                Err(e) => r is Err && r->Err_0@ == e,
            },
    {
        match self.word(i) {
            Some(w) => {
                let lower = lower_ascii(w.as_str());
                if is_reserved(lower.as_str()) {
                    Err(self.fail(i, "a variable"))
                } else {
                    Ok((w.clone(), i + 1))
                }
            },
            None => Err(self.fail(i, "a variable")),
        }
    }

    /// A string, an integer with or without a minus, `true`, `false` or `null`.
    fn parse_literal(&self, i: usize) -> (r: Result<(Literal, usize), CypherError>)
        ensures
            match literal_at(self@, i as nat) {
                Ok((l, j)) => r is Ok && r->Ok_0.0@ == l && r->Ok_0.1 == j && i < j <= self@.len()
                    <= usize::MAX,
                Err(e) => r is Err && r->Err_0@ == e,
            },
    {
        if i >= self.tokens.len() {
            return Err(self.fail(i, "a literal"));
        }
        assert(self@[i as int] == self.tokens@[i as int]@);
        match &self.tokens[i].kind {
            TokenKind::Str(s) => Ok((Literal::Str(s.clone()), i + 1)),
            TokenKind::Int(n) => if *n <= 0x7fff_ffff_ffff_ffff {
                Ok((Literal::Int(*n as i64), i + 1))
            } else {
                Err(self.range_error(i))
            },
            TokenKind::Symbol(Symbol::Minus) => match self.number(i + 1) {
                Some(n) => if n <= 0x8000_0000_0000_0000 {
                    Ok((Literal::Int((-(n as i128)) as i64), i + 2))
                } else {
                    Err(self.range_error(i + 1))
                },
                None => Err(self.fail(i + 1, "an integer")),
            },
            TokenKind::Word(w) => {
                let lower = lower_ascii(w.as_str());
                if same_text(lower.as_str(), "true") {
                    Ok((Literal::Bool(true), i + 1))
                } else if same_text(lower.as_str(), "false") {
                    Ok((Literal::Bool(false), i + 1))
                } else if same_text(lower.as_str(), "null") {
                    Ok((Literal::Null, i + 1))
                } else {
                    Err(self.fail(i, "a literal"))
                }
            },
            _ => Err(self.fail(i, "a literal")),
        }
    }

    // ---- Patterns ------------------------------------------------------------------

    /// A variable, if there is a word.
    fn parse_opt_var(&self, i: usize) -> (r: Result<(Option<String>, usize), CypherError>)
        requires
            i <= self@.len(),
        ensures
            match opt_var_at(self@, i as nat) {
                Ok((w, j)) => r is Ok && opt_text(r->Ok_0.0) == w && r->Ok_0.1 == j && i <= j
                    <= self@.len(),
                Err(e) => r is Err && r->Err_0@ == e,
            },
    {
        if self.word(i).is_some() {
            match self.parse_var(i) {
                Ok((name, j)) => Ok((Some(name), j)),
                Err(e) => Err(e),
            }
        } else {
            Ok((None, i))
        }
    }

    /// Alternative names.
    fn parse_names(&self, i: usize) -> (r: Result<(Vec<String>, usize), CypherError>)
        ensures
            match names_at(self@, i as nat) {
                Ok((names, j)) => r is Ok && texts(r->Ok_0.0@) == names && r->Ok_0.1 == j && i < j
                    <= self@.len(),
                Err(e) => r is Err && r->Err_0@ == e,
            },
    {
        let ghost toks = self@;
        let mut out: Vec<String> = Vec::new();
        let mut k: usize = i;
        proof {
            lemma_ahead_nothing(texts(out@), names_at(toks, i as nat));
        }
        loop
            invariant
                toks == self@,
                i <= k,
                names_at(toks, i as nat) == ahead(texts(out@), names_at(toks, k as nat)),
            decreases left(toks.len(), k as nat),
        {
            let (name, a) = match self.parse_name(k) {
                Ok(read) => read,
                Err(e) => {
                    return Err(e);
                },
            };
            let ghost before = texts(out@);
            proof {
                lemma_texts_push(out@, name);
            }
            out.push(name);
            if !self.symbol_is(a, Symbol::Pipe) {
                proof {
                    lemma_ahead_last(before, name@, a as nat);
                }
                return Ok((out, a));
            }
            let next: usize = if self.symbol_is(a + 1, Symbol::Colon) {
                a + 2
            } else {
                a + 1
            };
            proof {
                lemma_ahead_push(before, name@, names_at(toks, next as nat));
            }
            k = next;
        }
    }

    /// Names behind a colon, if there is one.
    fn parse_opt_names(&self, i: usize) -> (r: Result<(Vec<String>, usize), CypherError>)
        requires
            i <= self@.len(),
        ensures
            match opt_names_at(self@, i as nat) {
                Ok((names, j)) => r is Ok && texts(r->Ok_0.0@) == names && r->Ok_0.1 == j && i <= j
                    <= self@.len(),
                Err(e) => r is Err && r->Err_0@ == e,
            },
    {
        if self.symbol_is(i, Symbol::Colon) {
            self.parse_names(i + 1)
        } else {
            let none: Vec<String> = Vec::new();
            assert(texts(none@) =~= Seq::empty());
            Ok((none, i))
        }
    }

    /// Properties up to the closing brace.
    fn parse_props(&self, i: usize) -> (r: Result<(Vec<(String, Literal)>, usize), CypherError>)
        ensures
            match props_at(self@, i as nat) {
                Ok((props, j)) => r is Ok && prop_models(r->Ok_0.0@) == props && r->Ok_0.1 == j && i
                    < j <= self@.len(),
                Err(e) => r is Err && r->Err_0@ == e,
            },
    {
        let ghost toks = self@;
        let mut out: Vec<(String, Literal)> = Vec::new();
        let mut k: usize = i;
        proof {
            assert(prop_models(out@) =~= Seq::empty());
            lemma_ahead_nothing(prop_models(out@), props_at(toks, i as nat));
        }
        loop
            invariant
                toks == self@,
                i <= k,
                props_at(toks, i as nat) == ahead(prop_models(out@), props_at(toks, k as nat)),
            decreases left(toks.len(), k as nat),
        {
            let (key, a) = match self.parse_name(k) {
                Ok(read) => read,
                Err(e) => {
                    return Err(e);
                },
            };
            let b = match self.expect_symbol(a, Symbol::Colon, "`:`") {
                Ok(b) => b,
                Err(e) => {
                    return Err(e);
                },
            };
            let (value, c) = match self.parse_literal(b) {
                Ok(read) => read,
                Err(e) => {
                    return Err(e);
                },
            };
            let ghost before = prop_models(out@);
            let ghost entry = (key@, value@);
            proof {
                lemma_prop_models_push(out@, (key, value));
            }
            out.push((key, value));
            if self.symbol_is(c, Symbol::Comma) {
                proof {
                    lemma_ahead_push(before, entry, props_at(toks, c as nat + 1));
                }
                k = c + 1;
            } else if self.symbol_is(c, Symbol::RBrace) {
                proof {
                    lemma_ahead_last(before, entry, c as nat + 1);
                }
                return Ok((out, c + 1));
            } else {
                return Err(self.fail(c, "`,` or `}`"));
            }
        }
    }

    /// A property map, if there is an opening brace.
    fn parse_opt_props(&self, i: usize) -> (r: Result<
        (Vec<(String, Literal)>, usize),
        CypherError,
    >)
        requires
            i <= self@.len(),
        ensures
            match opt_props_at(self@, i as nat) {
                Ok((props, j)) => r is Ok && prop_models(r->Ok_0.0@) == props && r->Ok_0.1 == j && i
                    <= j <= self@.len(),
                Err(e) => r is Err && r->Err_0@ == e,
            },
    {
        let none: Vec<(String, Literal)> = Vec::new();
        assert(prop_models(none@) =~= Seq::empty());
        if self.symbol_is(i, Symbol::LBrace) {
            if self.symbol_is(i + 1, Symbol::RBrace) {
                Ok((none, i + 2))
            } else {
                self.parse_props(i + 1)
            }
        } else {
            Ok((none, i))
        }
    }

    /// A node pattern.
    fn parse_node(&self, i: usize) -> (r: Result<(NodePattern, usize), CypherError>)
        ensures
            match node_at(self@, i as nat) {
                Ok((node, j)) => r is Ok && r->Ok_0.0@ == node && r->Ok_0.1 == j && i < j
                    <= self@.len(),
                Err(e) => r is Err && r->Err_0@ == e,
            },
    {
        let a = match self.expect_symbol(i, Symbol::LParen, "`(`") {
            Ok(a) => a,
            Err(e) => {
                return Err(e);
            },
        };
        let (var, b) = match self.parse_opt_var(a) {
            Ok(read) => read,
            Err(e) => {
                return Err(e);
            },
        };
        let (labels, c) = match self.parse_opt_names(b) {
            Ok(read) => read,
            Err(e) => {
                return Err(e);
            },
        };
        let (props, d) = match self.parse_opt_props(c) {
            Ok(read) => read,
            Err(e) => {
                return Err(e);
            },
        };
        match self.expect_symbol(d, Symbol::RParen, "`)`") {
            Ok(j) => Ok((NodePattern { var, labels, props }, j)),
            Err(e) => Err(e),
        }
    }

    /// A bound of a variable-length relationship, if there is a number.
    fn parse_bound(&self, i: usize) -> (r: Result<(Option<u32>, usize), CypherError>)
        requires
            i <= self@.len(),
        ensures
            match bound_at(self@, i as nat) {
                Ok((n, j)) => r is Ok && r->Ok_0.0 == n && r->Ok_0.1 == j && i <= j <= self@.len(),
                Err(e) => r is Err && r->Err_0@ == e,
            },
    {
        match self.number(i) {
            Some(n) => if n <= 0xffff_ffff {
                Ok((Some(n as u32), i + 1))
            } else {
                Err(self.range_error(i))
            },
            None => Ok((None, i)),
        }
    }

    /// The length of a relationship, if there is a star.
    fn parse_opt_length(&self, i: usize) -> (r: Result<(Option<VarLength>, usize), CypherError>)
        requires
            i <= self@.len(),
        ensures
            match opt_length_at(self@, i as nat) {
                Ok((length, j)) => r is Ok && r->Ok_0.0 == length && r->Ok_0.1 == j && i <= j
                    <= self@.len(),
                Err(e) => r is Err && r->Err_0@ == e,
            },
    {
        if !self.symbol_is(i, Symbol::Star) {
            return Ok((None, i));
        }
        let (low, a) = match self.parse_bound(i + 1) {
            Ok(read) => read,
            Err(e) => {
                return Err(e);
            },
        };
        if self.symbol_is(a, Symbol::DotDot) {
            match self.parse_bound(a + 1) {
                Ok((high, b)) => {
                    let min: u32 = match low {
                        Some(n) => n,
                        None => 1,
                    };
                    Ok((Some(VarLength { min, max: high }), b))
                },
                Err(e) => Err(e),
            }
        } else {
            let length = match low {
                Some(n) => VarLength { min: n, max: Some(n) },
                None => VarLength { min: 1, max: None },
            };
            Ok((Some(length), a))
        }
    }

    /// A relationship pattern.
    fn parse_rel(&self, i: usize) -> (r: Result<(RelPattern, usize), CypherError>)
        ensures
            match rel_at(self@, i as nat) {
                Ok((rel, j)) => r is Ok && r->Ok_0.0@ == rel && r->Ok_0.1 == j && i < j
                    <= self@.len(),
                Err(e) => r is Err && r->Err_0@ == e,
            },
    {
        let backward = self.symbol_is(i, Symbol::Less);
        let a: usize = if backward {
            i + 1
        } else {
            i
        };
        let b = match self.expect_symbol(a, Symbol::Minus, "`-`") {
            Ok(b) => b,
            Err(e) => {
                return Err(e);
            },
        };
        let (rel, c) = match self.parse_rel_body(b) {
            Ok(read) => read,
            Err(e) => {
                return Err(e);
            },
        };
        let d = match self.expect_symbol(c, Symbol::Minus, "`-`") {
            Ok(d) => d,
            Err(e) => {
                return Err(e);
            },
        };
        if self.symbol_is(d, Symbol::Greater) {
            if backward {
                Err(self.fail(d, "`(`"))
            } else {
                let rel = RelPattern {
                    var: rel.var,
                    types: rel.types,
                    direction: Direction::Outgoing,
                    length: rel.length,
                };
                Ok((rel, d + 1))
            }
        } else {
            let direction = if backward {
                Direction::Incoming
            } else {
                Direction::Both
            };
            let rel = RelPattern { var: rel.var, types: rel.types, direction, length: rel.length };
            Ok((rel, d))
        }
    }

    /// What stands in the brackets of a relationship.
    fn parse_rel_body(&self, i: usize) -> (r: Result<(RelPattern, usize), CypherError>)
        requires
            i <= self@.len(),
        ensures
            match rel_body_at(self@, i as nat) {
                Ok(((var, types, length), j)) => r is Ok && r->Ok_0.0@.var == var
                    && r->Ok_0.0@.types == types && r->Ok_0.0@.length == length && r->Ok_0.1 == j
                    && i <= j <= self@.len(),
                Err(e) => r is Err && r->Err_0@ == e,
            },
    {
        if !self.symbol_is(i, Symbol::LBracket) {
            let types: Vec<String> = Vec::new();
            assert(texts(types@) =~= Seq::empty());
            let rel = RelPattern { var: None, types, direction: Direction::Both, length: None };
            return Ok((rel, i));
        }
        let (var, b) = match self.parse_opt_var(i + 1) {
            Ok(read) => read,
            Err(e) => {
                return Err(e);
            },
        };
        let (types, c) = match self.parse_opt_names(b) {
            Ok(read) => read,
            Err(e) => {
                return Err(e);
            },
        };
        let (length, d) = match self.parse_opt_length(c) {
            Ok(read) => read,
            Err(e) => {
                return Err(e);
            },
        };
        match self.expect_symbol(d, Symbol::RBracket, "`]`") {
            Ok(j) => Ok((RelPattern { var, types, direction: Direction::Both, length }, j)),
            Err(e) => Err(e),
        }
    }

    /// A path pattern.
    fn parse_path(&self, i: usize) -> (r: Result<(PathPattern, usize), CypherError>)
        ensures
            match path_at(self@, i as nat) {
                Ok((path, j)) => r is Ok && r->Ok_0.0@ == path && r->Ok_0.1 == j && i < j
                    <= self@.len(),
                Err(e) => r is Err && r->Err_0@ == e,
            },
    {
        let ghost toks = self@;
        let (start, a) = match self.parse_node(i) {
            Ok(read) => read,
            Err(e) => {
                return Err(e);
            },
        };
        let mut rest: Vec<(RelPattern, NodePattern)> = Vec::new();
        let mut k: usize = a;
        proof {
            assert(hop_models(rest@) =~= Seq::empty());
            lemma_ahead_nothing(hop_models(rest@), hops_at(toks, a as nat));
        }
        while self.symbol_is(k, Symbol::Minus) || self.symbol_is(k, Symbol::Less)
            invariant
                toks == self@,
                i < a <= k <= toks.len(),
                node_at(toks, i as nat) == Ok::<(NodePatternModel, nat), ErrorModel>(
                    (start@, a as nat),
                ),
                hops_at(toks, a as nat) == ahead(hop_models(rest@), hops_at(toks, k as nat)),
            decreases left(toks.len(), k as nat),
        {
            let (rel, b) = match self.parse_rel(k) {
                Ok(read) => read,
                Err(e) => {
                    return Err(e);
                },
            };
            let (node, c) = match self.parse_node(b) {
                Ok(read) => read,
                Err(e) => {
                    return Err(e);
                },
            };
            proof {
                lemma_ahead_push(hop_models(rest@), (rel@, node@), hops_at(toks, c as nat));
                lemma_hop_models_push(rest@, (rel, node));
            }
            rest.push((rel, node));
            k = c;
        }
        proof {
            lemma_ahead_none(hop_models(rest@), k as nat);
        }
        Ok((PathPattern { start, rest }, k))
    }

    /// Path patterns separated by commas.
    fn parse_paths(&self, i: usize) -> (r: Result<(Vec<PathPattern>, usize), CypherError>)
        ensures
            match paths_at(self@, i as nat) {
                Ok((paths, j)) => r is Ok && path_models(r->Ok_0.0@) == paths && r->Ok_0.1 == j && i
                    < j <= self@.len(),
                Err(e) => r is Err && r->Err_0@ == e,
            },
    {
        let ghost toks = self@;
        let mut out: Vec<PathPattern> = Vec::new();
        let mut k: usize = i;
        proof {
            assert(path_models(out@) =~= Seq::empty());
            lemma_ahead_nothing(path_models(out@), paths_at(toks, i as nat));
        }
        loop
            invariant
                toks == self@,
                i <= k,
                paths_at(toks, i as nat) == ahead(path_models(out@), paths_at(toks, k as nat)),
            decreases left(toks.len(), k as nat),
        {
            let (path, a) = match self.parse_path(k) {
                Ok(read) => read,
                Err(e) => {
                    return Err(e);
                },
            };
            let ghost before = path_models(out@);
            proof {
                lemma_path_models_push(out@, path);
            }
            out.push(path);
            if !self.symbol_is(a, Symbol::Comma) {
                proof {
                    lemma_ahead_last(before, path@, a as nat);
                }
                return Ok((out, a));
            }
            proof {
                lemma_ahead_push(before, path@, paths_at(toks, a as nat + 1));
            }
            k = a + 1;
        }
    }
}

impl Parser {
    // ---- Expressions ---------------------------------------------------------------

    /// The comparison operator at a position, with the position behind it.
    fn operator(&self, i: usize) -> (r: Option<(CmpOp, usize)>)
        ensures
            match operator_at(self@, i as nat) {
                Some((op, j)) => r is Some && r->Some_0.0 == op && r->Some_0.1 == j && i < j
                    <= self@.len(),
                None => r is None,
            },
    {
        if i >= self.tokens.len() {
            return None;
        }
        assert(self@[i as int] == self.tokens@[i as int]@);
        match &self.tokens[i].kind {
            TokenKind::Symbol(symbol) => match symbol {
                Symbol::Equal => Some((CmpOp::Eq, i + 1)),
                Symbol::NotEqual => Some((CmpOp::Neq, i + 1)),
                Symbol::Less => Some((CmpOp::Lt, i + 1)),
                Symbol::LessEqual => Some((CmpOp::Lte, i + 1)),
                Symbol::Greater => Some((CmpOp::Gt, i + 1)),
                Symbol::GreaterEqual => Some((CmpOp::Gte, i + 1)),
                _ => None,
            },
            TokenKind::Word(w) => {
                let lower = lower_ascii(w.as_str());
                if same_text(lower.as_str(), "contains") {
                    Some((CmpOp::Contains, i + 1))
                } else if same_text(lower.as_str(), "in") {
                    Some((CmpOp::In, i + 1))
                } else if same_text(lower.as_str(), "starts") && self.word_is(i + 1, "with") {
                    Some((CmpOp::StartsWith, i + 2))
                } else if same_text(lower.as_str(), "ends") && self.word_is(i + 1, "with") {
                    Some((CmpOp::EndsWith, i + 2))
                } else {
                    None
                }
            },
            _ => None,
        }
    }

    /// An expression: operands of `OR`.
    pub fn parse_expr(&self, i: usize) -> (r: Result<(Expr, usize), CypherError>)
        ensures
            match expr_at(self@, i as nat) {
                Ok((e, j)) => r is Ok && r->Ok_0.0@ == e && r->Ok_0.1 == j && i < j <= self@.len()
                    <= usize::MAX,
                Err(e) => r is Err && r->Err_0@ == e,
            },
        decreases left(self@.len(), i as nat), 9nat,
    {
        let ghost toks = self@;
        let (first, a) = match self.parse_conjunction(i) {
            Ok(read) => read,
            Err(e) => {
                return Err(e);
            },
        };
        let mut x = first;
        let mut k: usize = a;
        while self.word_is(k, "or")
            invariant
                toks == self@,
                i < k <= toks.len() <= usize::MAX,
                expr_at(toks, i as nat) == or_rest_at(toks, x@, k as nat),
            decreases left(toks.len(), k as nat),
        {
            let (y, b) = match self.parse_conjunction(k + 1) {
                Ok(read) => read,
                Err(e) => {
                    return Err(e);
                },
            };
            x = Expr::Or(Box::new(x), Box::new(y));
            k = b;
        }
        Ok((x, k))
    }

    /// Operands of `AND`.
    fn parse_conjunction(&self, i: usize) -> (r: Result<(Expr, usize), CypherError>)
        ensures
            match conjunction_at(self@, i as nat) {
                Ok((e, j)) => r is Ok && r->Ok_0.0@ == e && r->Ok_0.1 == j && i < j <= self@.len()
                    <= usize::MAX,
                Err(e) => r is Err && r->Err_0@ == e,
            },
        decreases left(self@.len(), i as nat), 8nat,
    {
        let ghost toks = self@;
        let (first, a) = match self.parse_negation(i) {
            Ok(read) => read,
            Err(e) => {
                return Err(e);
            },
        };
        let mut x = first;
        let mut k: usize = a;
        while self.word_is(k, "and")
            invariant
                toks == self@,
                i < k <= toks.len() <= usize::MAX,
                conjunction_at(toks, i as nat) == and_rest_at(toks, x@, k as nat),
            decreases left(toks.len(), k as nat),
        {
            let (y, b) = match self.parse_negation(k + 1) {
                Ok(read) => read,
                Err(e) => {
                    return Err(e);
                },
            };
            x = Expr::And(Box::new(x), Box::new(y));
            k = b;
        }
        Ok((x, k))
    }

    /// A comparison, or the negation of one.
    fn parse_negation(&self, i: usize) -> (r: Result<(Expr, usize), CypherError>)
        ensures
            match negation_at(self@, i as nat) {
                Ok((e, j)) => r is Ok && r->Ok_0.0@ == e && r->Ok_0.1 == j && i < j <= self@.len()
                    <= usize::MAX,
                Err(e) => r is Err && r->Err_0@ == e,
            },
        decreases left(self@.len(), i as nat), 7nat,
    {
        if self.word_is(i, "not") {
            match self.parse_negation(i + 1) {
                Ok((x, j)) => Ok((Expr::Not(Box::new(x)), j)),
                Err(e) => Err(e),
            }
        } else {
            self.parse_comparison(i)
        }
    }

    /// One operand, two operands with a comparison operator, or a test for null.
    fn parse_comparison(&self, i: usize) -> (r: Result<(Expr, usize), CypherError>)
        ensures
            match comparison_at(self@, i as nat) {
                Ok((e, j)) => r is Ok && r->Ok_0.0@ == e && r->Ok_0.1 == j && i < j <= self@.len()
                    <= usize::MAX,
                Err(e) => r is Err && r->Err_0@ == e,
            },
        decreases left(self@.len(), i as nat), 6nat,
    {
        let (x, j) = match self.parse_primary(i) {
            Ok(read) => read,
            Err(e) => {
                return Err(e);
            },
        };
        if let Some((op, a)) = self.operator(j) {
            return match self.parse_primary(a) {
                Ok((y, b)) => Ok((Expr::Compare(Box::new(x), op, Box::new(y)), b)),
                Err(e) => Err(e),
            };
        }
        if !self.word_is(j, "is") {
            return Ok((x, j));
        }
        if self.word_is(j + 1, "null") {
            return Ok((Expr::IsNull(Box::new(x), false), j + 2));
        }
        if self.word_is(j + 1, "not") && self.word_is(j + 2, "null") {
            return Ok((Expr::IsNull(Box::new(x), true), j + 3));
        }
        Err(self.fail(j + 1, "NULL or NOT NULL"))
    }

    /// A literal as an operand.
    fn parse_literal_operand(&self, i: usize) -> (r: Result<(Expr, usize), CypherError>)
        ensures
            match literal_operand_at(self@, i as nat) {
                Ok((e, j)) => r is Ok && r->Ok_0.0@ == e && r->Ok_0.1 == j && i < j <= self@.len()
                    <= usize::MAX,
                Err(e) => r is Err && r->Err_0@ == e,
            },
    {
        match self.parse_literal(i) {
            Ok((l, j)) => Ok((Expr::Literal(l), j)),
            Err(e) => Err(e),
        }
    }

    /// An operand.
    fn parse_primary(&self, i: usize) -> (r: Result<(Expr, usize), CypherError>)
        ensures
            match primary_at(self@, i as nat) {
                Ok((e, j)) => r is Ok && r->Ok_0.0@ == e && r->Ok_0.1 == j && i < j <= self@.len()
                    <= usize::MAX,
                Err(e) => r is Err && r->Err_0@ == e,
            },
        decreases left(self@.len(), i as nat), 5nat,
    {
        if i >= self.tokens.len() {
            return Err(self.fail(i, "an expression"));
        }
        assert(self@[i as int] == self.tokens@[i as int]@);
        match &self.tokens[i].kind {
            TokenKind::Symbol(Symbol::LBracket) => {
                if self.symbol_is(i + 1, Symbol::RBracket) {
                    let none: Vec<Expr> = Vec::new();
                    assert(expr_models(none@) =~= Seq::empty());
                    return Ok((Expr::List(none), i + 2));
                }
                match self.parse_exprs(i + 1) {
                    Ok((items, a)) => match self.expect_symbol(a, Symbol::RBracket, "`]`") {
                        Ok(j) => Ok((Expr::List(items), j)),
                        Err(e) => Err(e),
                    },
                    Err(e) => Err(e),
                }
            },
            TokenKind::Symbol(Symbol::LParen) => match self.parse_expr(i + 1) {
                Ok((x, a)) => match self.expect_symbol(a, Symbol::RParen, "`)`") {
                    Ok(j) => Ok((x, j)),
                    Err(e) => Err(e),
                },
                Err(e) => Err(e),
            },
            TokenKind::Symbol(Symbol::Minus) => self.parse_literal_operand(i),
            TokenKind::Symbol(_) => Err(self.fail(i, "an expression")),
            TokenKind::End => Err(self.fail(i, "an expression")),
            TokenKind::Word(w) => self.parse_word_operand(w, i),
            TokenKind::Str(_) => self.parse_literal_operand(i),
            TokenKind::Int(_) => self.parse_literal_operand(i),
        }
    }

    /// An operand that begins with a word.
    fn parse_word_operand(&self, w: &String, i: usize) -> (r: Result<(Expr, usize), CypherError>)
        requires
            i < self@.len() <= usize::MAX,
        ensures
            match word_operand_at(self@, w@, i as nat) {
                Ok((e, j)) => r is Ok && r->Ok_0.0@ == e && r->Ok_0.1 == j && i < j <= self@.len()
                    <= usize::MAX,
                Err(e) => r is Err && r->Err_0@ == e,
            },
        decreases left(self@.len(), i as nat), 4nat,
    {
        let lower = lower_ascii(w.as_str());
        if same_text(lower.as_str(), "true") || same_text(lower.as_str(), "false") || same_text(
            lower.as_str(),
            "null",
        ) {
            return self.parse_literal_operand(i);
        }
        if same_text(lower.as_str(), "case") {
            return self.parse_case(i + 1);
        }
        if same_text(lower.as_str(), "exists") {
            return match self.expect_symbol(i + 1, Symbol::LBrace, "`{`") {
                Ok(a) => self.parse_exists(a),
                Err(e) => Err(e),
            };
        }
        if is_reserved(lower.as_str()) {
            return Err(self.fail(i, "an expression"));
        }
        if self.symbol_is(i + 1, Symbol::LParen) {
            return self.parse_call(w, i + 2);
        }
        if self.symbol_is(i + 1, Symbol::Dot) {
            return match self.parse_name(i + 2) {
                Ok((prop, j)) => Ok((Expr::Property(w.clone(), prop), j)),
                Err(e) => Err(e),
            };
        }
        if self.symbol_is(i + 1, Symbol::LBrace) {
            if self.symbol_is(i + 2, Symbol::RBrace) {
                let none: Vec<MapEntry> = Vec::new();
                assert(map_entry_models(none@) =~= Seq::empty());
                return Ok((Expr::MapProjection { var: w.clone(), entries: none }, i + 3));
            }
            return match self.parse_entries(i + 2) {
                Ok((entries, j)) => Ok((Expr::MapProjection { var: w.clone(), entries }, j)),
                Err(e) => Err(e),
            };
        }
        Ok((Expr::Var(w.clone()), i + 1))
    }

    /// Expressions separated by commas.
    fn parse_exprs(&self, i: usize) -> (r: Result<(Vec<Expr>, usize), CypherError>)
        ensures
            match exprs_at(self@, i as nat) {
                Ok((items, j)) => r is Ok && expr_models(r->Ok_0.0@) == items && r->Ok_0.1 == j && i
                    < j <= self@.len() <= usize::MAX,
                Err(e) => r is Err && r->Err_0@ == e,
            },
        decreases left(self@.len(), i as nat), 10nat,
    {
        let ghost toks = self@;
        let mut out: Vec<Expr> = Vec::new();
        let mut k: usize = i;
        proof {
            assert(expr_models(out@) =~= Seq::empty());
            lemma_ahead_nothing(expr_models(out@), exprs_at(toks, i as nat));
        }
        loop
            invariant
                toks == self@,
                i <= k,
                k == i || i < toks.len(),
                exprs_at(toks, i as nat) == ahead(expr_models(out@), exprs_at(toks, k as nat)),
            decreases left(toks.len(), k as nat),
        {
            let (x, a) = match self.parse_expr(k) {
                Ok(read) => read,
                Err(e) => {
                    return Err(e);
                },
            };
            let ghost before = expr_models(out@);
            proof {
                lemma_expr_models_push(out@, x);
            }
            out.push(x);
            if !self.symbol_is(a, Symbol::Comma) {
                proof {
                    lemma_ahead_last(before, x@, a as nat);
                }
                return Ok((out, a));
            }
            proof {
                lemma_ahead_push(before, x@, exprs_at(toks, a as nat + 1));
            }
            k = a + 1;
        }
    }

    /// A call of a function, behind its opening parenthesis.
    #[verifier::rlimit(60)]
    fn parse_call(&self, name: &String, i: usize) -> (r: Result<(Expr, usize), CypherError>)
        ensures
            match call_at(self@, name@, i as nat) {
                Ok((e, j)) => r is Ok && r->Ok_0.0@ == e && r->Ok_0.1 == j && i < j <= self@.len()
                    <= usize::MAX,
                Err(e) => r is Err && r->Err_0@ == e,
            },
        decreases left(self@.len(), i as nat), 11nat,
    {
        let lower = lower_ascii(name.as_str());
        if let Some(func) = aggregate_of(lower.as_str()) {
            let counts = match func {
                AggFn::Count => true,
                _ => false,
            };
            if counts && self.symbol_is(i, Symbol::Star) {
                return match self.expect_symbol(i + 1, Symbol::RParen, "`)`") {
                    Ok(j) => {
                        let arg: Option<Box<Expr>> = None;
                        assert(opt_expr_model(arg) is None);
                        Ok((Expr::Aggregate { func, arg, distinct: false }, j))
                    },
                    Err(e) => Err(e),
                };
            }
            let distinct = self.word_is(i, "distinct");
            let a: usize = if distinct {
                i + 1
            } else {
                i
            };
            return match self.parse_expr(a) {
                Ok((x, b)) => match self.expect_symbol(b, Symbol::RParen, "`)`") {
                    Ok(j) => {
                        let arg = Some(Box::new(x));
                        assert(opt_expr_model(arg) == Some(Box::new(x@)));
                        Ok((Expr::Aggregate { func, arg, distinct }, j))
                    },
                    Err(e) => Err(e),
                },
                Err(e) => Err(e),
            };
        }
        if self.symbol_is(i, Symbol::RParen) {
            let none: Vec<Expr> = Vec::new();
            assert(expr_models(none@) =~= Seq::empty());
            return Ok((Expr::Function { name: name.clone(), args: none }, i + 1));
        }
        match self.parse_exprs(i) {
            Ok((args, a)) => match self.expect_symbol(a, Symbol::RParen, "`)`") {
                Ok(j) => Ok((Expr::Function { name: name.clone(), args }, j)),
                Err(e) => Err(e),
            },
            Err(e) => Err(e),
        }
    }

    /// The entries of a map projection, up to the closing brace.
    fn parse_entries(&self, i: usize) -> (r: Result<(Vec<MapEntry>, usize), CypherError>)
        ensures
            match entries_at(self@, i as nat) {
                Ok((entries, j)) => r is Ok && map_entry_models(r->Ok_0.0@) == entries && r->Ok_0.1
                    == j && i < j <= self@.len() <= usize::MAX,
                Err(e) => r is Err && r->Err_0@ == e,
            },
        decreases left(self@.len(), i as nat), 12nat,
    {
        let ghost toks = self@;
        let mut out: Vec<MapEntry> = Vec::new();
        let mut k: usize = i;
        proof {
            assert(map_entry_models(out@) =~= Seq::empty());
            lemma_ahead_nothing(map_entry_models(out@), entries_at(toks, i as nat));
        }
        loop
            invariant
                toks == self@,
                i <= k,
                k == i || i < toks.len(),
                entries_at(toks, i as nat) == ahead(
                    map_entry_models(out@),
                    entries_at(toks, k as nat),
                ),
            decreases left(toks.len(), k as nat),
        {
            let (entry, a) = match self.parse_entry(k) {
                Ok(read) => read,
                Err(e) => {
                    return Err(e);
                },
            };
            let ghost before = map_entry_models(out@);
            proof {
                lemma_map_entry_models_push(out@, entry);
            }
            out.push(entry);
            if self.symbol_is(a, Symbol::Comma) {
                proof {
                    lemma_ahead_push(before, entry@, entries_at(toks, a as nat + 1));
                }
                k = a + 1;
            } else if self.symbol_is(a, Symbol::RBrace) {
                proof {
                    lemma_ahead_last(before, entry@, a as nat + 1);
                }
                return Ok((out, a + 1));
            } else {
                return Err(self.fail(a, "`,` or `}`"));
            }
        }
    }

    /// An entry of a map projection.
    fn parse_entry(&self, i: usize) -> (r: Result<(MapEntry, usize), CypherError>)
        ensures
            match entry_at(self@, i as nat) {
                Ok((e, j)) => r is Ok && r->Ok_0.0@ == e && r->Ok_0.1 == j && i < j <= self@.len()
                    <= usize::MAX,
                Err(e) => r is Err && r->Err_0@ == e,
            },
        decreases left(self@.len(), i as nat), 11nat,
    {
        if self.symbol_is(i, Symbol::Dot) {
            return match self.parse_name(i + 1) {
                Ok((prop, j)) => Ok((MapEntry::Property(prop), j)),
                Err(e) => Err(e),
            };
        }
        match self.parse_name(i) {
            Ok((key, a)) => match self.expect_symbol(a, Symbol::Colon, "`:`") {
                Ok(b) => match self.parse_expr(b) {
                    Ok((x, j)) => Ok((MapEntry::Literal(key, x), j)),
                    Err(e) => Err(e),
                },
                Err(e) => Err(e),
            },
            Err(e) => Err(e),
        }
    }

    /// An `EXISTS` subquery, behind its opening brace.
    fn parse_exists(&self, i: usize) -> (r: Result<(Expr, usize), CypherError>)
        ensures
            match exists_at(self@, i as nat) {
                Ok((e, j)) => r is Ok && r->Ok_0.0@ == e && r->Ok_0.1 == j && i < j <= self@.len()
                    <= usize::MAX,
                Err(e) => r is Err && r->Err_0@ == e,
            },
        decreases left(self@.len(), i as nat), 11nat,
    {
        let a: usize = if self.word_is(i, "match") {
            i + 1
        } else {
            i
        };
        let (patterns, b) = match self.parse_paths(a) {
            Ok(read) => read,
            Err(e) => {
                return Err(e);
            },
        };
        if self.word_is(b, "where") {
            match self.parse_expr(b + 1) {
                Ok((x, c)) => match self.expect_symbol(c, Symbol::RBrace, "`}`") {
                    Ok(j) => {
                        let where_clause = Some(Box::new(x));
                        assert(opt_expr_model(where_clause) == Some(Box::new(x@)));
                        Ok((Expr::Exists { patterns, where_clause }, j))
                    },
                    Err(e) => Err(e),
                },
                Err(e) => Err(e),
            }
        } else {
            match self.expect_symbol(b, Symbol::RBrace, "`}`") {
                Ok(j) => {
                    let where_clause: Option<Box<Expr>> = None;
                    assert(opt_expr_model(where_clause) is None);
                    Ok((Expr::Exists { patterns, where_clause }, j))
                },
                Err(e) => Err(e),
            }
        }
    }

    /// A `CASE`, behind the word.
    fn parse_case(&self, i: usize) -> (r: Result<(Expr, usize), CypherError>)
        ensures
            match case_at(self@, i as nat) {
                Ok((e, j)) => r is Ok && r->Ok_0.0@ == e && r->Ok_0.1 == j && i < j <= self@.len()
                    <= usize::MAX,
                Err(e) => r is Err && r->Err_0@ == e,
            },
        decreases left(self@.len(), i as nat), 11nat,
    {
        if self.word_is(i, "when") {
            let operand: Option<Box<Expr>> = None;
            assert(opt_expr_model(operand) is None);
            self.parse_case_rest(operand, i)
        } else {
            match self.parse_expr(i) {
                Ok((x, j)) => {
                    let operand = Some(Box::new(x));
                    assert(opt_expr_model(operand) == Some(Box::new(x@)));
                    self.parse_case_rest(operand, j)
                },
                Err(e) => Err(e),
            }
        }
    }

    /// The branches of a `CASE`, its `ELSE` and its `END`.
    #[verifier::rlimit(60)]
    fn parse_case_rest(&self, operand: Option<Box<Expr>>, i: usize) -> (r: Result<
        (Expr, usize),
        CypherError,
    >)
        ensures
            match case_rest_at(self@, opt_expr_model(operand), i as nat) {
                Ok((e, j)) => r is Ok && r->Ok_0.0@ == e && r->Ok_0.1 == j && i < j <= self@.len()
                    <= usize::MAX,
                Err(e) => r is Err && r->Err_0@ == e,
            },
        decreases left(self@.len(), i as nat), 2nat,
    {
        if !self.word_is(i, "when") {
            return Err(self.fail(i, "WHEN"));
        }
        let (branches, a) = match self.parse_branches(i) {
            Ok(read) => read,
            Err(e) => {
                return Err(e);
            },
        };
        match self.parse_case_end(a) {
            Ok((default, j)) => {
                let ghost want = ExprModel::Case {
                    operand: opt_expr_model(operand),
                    branches: branch_models(branches@),
                    default: opt_expr_model(default),
                };
                let case = Expr::Case { operand, branches, default };
                assert(case@ == want);
                Ok((case, j))
            },
            Err(e) => Err(e),
        }
    }

    /// The `ELSE` of a `CASE`, if it is there, and its `END`.
    fn parse_case_end(&self, i: usize) -> (r: Result<(Option<Box<Expr>>, usize), CypherError>)
        ensures
            match case_end_at(self@, i as nat) {
                Ok((x, j)) => r is Ok && opt_expr_model(r->Ok_0.0) == x && r->Ok_0.1 == j && i < j
                    <= self@.len() <= usize::MAX,
                Err(e) => r is Err && r->Err_0@ == e,
            },
        decreases left(self@.len(), i as nat), 0nat,
    {
        if self.word_is(i, "else") {
            match self.parse_expr(i + 1) {
                Ok((x, a)) => match self.expect_word(a, "end", "END") {
                    Ok(j) => {
                        let default = Some(Box::new(x));
                        assert(opt_expr_model(default) == Some(Box::new(x@)));
                        Ok((default, j))
                    },
                    Err(e) => Err(e),
                },
                Err(e) => Err(e),
            }
        } else {
            match self.expect_word(i, "end", "END") {
                Ok(j) => {
                    let default: Option<Box<Expr>> = None;
                    assert(opt_expr_model(default) is None);
                    Ok((default, j))
                },
                Err(e) => Err(e),
            }
        }
    }

    /// The branches of a `CASE`.
    fn parse_branches(&self, i: usize) -> (r: Result<(Vec<(Expr, Expr)>, usize), CypherError>)
        requires
            is_word(self@, i as nat, "when"@),
        ensures
            match branches_at(self@, i as nat) {
                Ok((branches, j)) => r is Ok && branch_models(r->Ok_0.0@) == branches && r->Ok_0.1
                    == j && i < j <= self@.len() <= usize::MAX,
                Err(e) => r is Err && r->Err_0@ == e,
            },
        decreases left(self@.len(), i as nat), 1nat,
    {
        let ghost toks = self@;
        let mut out: Vec<(Expr, Expr)> = Vec::new();
        let mut k: usize = i;
        proof {
            assert(branch_models(out@) =~= Seq::empty());
            lemma_ahead_nothing(branch_models(out@), branches_at(toks, i as nat));
        }
        while self.word_is(k, "when")
            invariant
                toks == self@,
                i <= k <= toks.len(),
                k == i ==> is_word(toks, i as nat, "when"@),
                k > i ==> toks.len() <= usize::MAX,
                branches_at(toks, i as nat) == ahead(
                    branch_models(out@),
                    branches_at(toks, k as nat),
                ),
            decreases left(toks.len(), k as nat),
        {
            let (x, a) = match self.parse_expr(k + 1) {
                Ok(read) => read,
                Err(e) => {
                    return Err(e);
                },
            };
            let b = match self.expect_word(a, "then", "THEN") {
                Ok(b) => b,
                Err(e) => {
                    return Err(e);
                },
            };
            let (y, c) = match self.parse_expr(b) {
                Ok(read) => read,
                Err(e) => {
                    return Err(e);
                },
            };
            proof {
                lemma_ahead_push(branch_models(out@), (x@, y@), branches_at(toks, c as nat));
                lemma_branch_models_push(out@, (x, y));
            }
            out.push((x, y));
            k = c;
        }
        proof {
            lemma_ahead_none(branch_models(out@), k as nat);
        }
        Ok((out, k))
    }

    // ---- Projections ---------------------------------------------------------------

    /// An item of a projection.
    fn parse_item(&self, i: usize) -> (r: Result<(ReturnItem, usize), CypherError>)
        ensures
            match item_at(self@, i as nat) {
                Ok((e, j)) => r is Ok && r->Ok_0.0@ == e && r->Ok_0.1 == j && i < j <= self@.len()
                    <= usize::MAX,
                Err(e) => r is Err && r->Err_0@ == e,
            },
    {
        let (expr, a) = match self.parse_expr(i) {
            Ok(read) => read,
            Err(e) => {
                return Err(e);
            },
        };
        if self.word_is(a, "as") {
            match self.parse_var(a + 1) {
                Ok((name, j)) => Ok((ReturnItem { expr, alias: Some(name) }, j)),
                Err(e) => Err(e),
            }
        } else {
            Ok((ReturnItem { expr, alias: None }, a))
        }
    }

    /// Items separated by commas.
    fn parse_items(&self, i: usize) -> (r: Result<(Vec<ReturnItem>, usize), CypherError>)
        ensures
            match items_at(self@, i as nat) {
                Ok((items, j)) => r is Ok && item_models(r->Ok_0.0@) == items && r->Ok_0.1 == j && i
                    < j <= self@.len(),
                Err(e) => r is Err && r->Err_0@ == e,
            },
    {
        let ghost toks = self@;
        let mut out: Vec<ReturnItem> = Vec::new();
        let mut k: usize = i;
        proof {
            assert(item_models(out@) =~= Seq::empty());
            lemma_ahead_nothing(item_models(out@), items_at(toks, i as nat));
        }
        loop
            invariant
                toks == self@,
                i <= k,
                items_at(toks, i as nat) == ahead(item_models(out@), items_at(toks, k as nat)),
            decreases left(toks.len(), k as nat),
        {
            let (item, a) = match self.parse_item(k) {
                Ok(read) => read,
                Err(e) => {
                    return Err(e);
                },
            };
            let ghost before = item_models(out@);
            proof {
                lemma_item_models_push(out@, item);
            }
            out.push(item);
            if !self.symbol_is(a, Symbol::Comma) {
                proof {
                    lemma_ahead_last(before, item@, a as nat);
                }
                return Ok((out, a));
            }
            proof {
                lemma_ahead_push(before, item@, items_at(toks, a as nat + 1));
            }
            k = a + 1;
        }
    }

    /// An expression to sort by.
    fn parse_order(&self, i: usize) -> (r: Result<(OrderItem, usize), CypherError>)
        ensures
            match order_at(self@, i as nat) {
                Ok((e, j)) => r is Ok && r->Ok_0.0@ == e && r->Ok_0.1 == j && i < j <= self@.len()
                    <= usize::MAX,
                Err(e) => r is Err && r->Err_0@ == e,
            },
    {
        let (expr, a) = match self.parse_expr(i) {
            Ok(read) => read,
            Err(e) => {
                return Err(e);
            },
        };
        if self.word_is(a, "desc") {
            Ok((OrderItem { expr, descending: true }, a + 1))
        } else if self.word_is(a, "asc") {
            Ok((OrderItem { expr, descending: false }, a + 1))
        } else {
            Ok((OrderItem { expr, descending: false }, a))
        }
    }

    /// Expressions to sort by, separated by commas.
    fn parse_orders(&self, i: usize) -> (r: Result<(Vec<OrderItem>, usize), CypherError>)
        ensures
            match orders_at(self@, i as nat) {
                Ok((items, j)) => r is Ok && order_models(r->Ok_0.0@) == items && r->Ok_0.1 == j
                    && i < j <= self@.len(),
                Err(e) => r is Err && r->Err_0@ == e,
            },
    {
        let ghost toks = self@;
        let mut out: Vec<OrderItem> = Vec::new();
        let mut k: usize = i;
        proof {
            assert(order_models(out@) =~= Seq::empty());
            lemma_ahead_nothing(order_models(out@), orders_at(toks, i as nat));
        }
        loop
            invariant
                toks == self@,
                i <= k,
                orders_at(toks, i as nat) == ahead(order_models(out@), orders_at(toks, k as nat)),
            decreases left(toks.len(), k as nat),
        {
            let (item, a) = match self.parse_order(k) {
                Ok(read) => read,
                Err(e) => {
                    return Err(e);
                },
            };
            let ghost before = order_models(out@);
            proof {
                lemma_order_models_push(out@, item);
            }
            out.push(item);
            if !self.symbol_is(a, Symbol::Comma) {
                proof {
                    lemma_ahead_last(before, item@, a as nat);
                }
                return Ok((out, a));
            }
            proof {
                lemma_ahead_push(before, item@, orders_at(toks, a as nat + 1));
            }
            k = a + 1;
        }
    }

    /// `ORDER BY`, if it is there.
    fn parse_opt_order(&self, i: usize) -> (r: Result<(Vec<OrderItem>, usize), CypherError>)
        requires
            i <= self@.len(),
        ensures
            match opt_order_at(self@, i as nat) {
                Ok((items, j)) => r is Ok && order_models(r->Ok_0.0@) == items && r->Ok_0.1 == j
                    && i <= j <= self@.len(),
                Err(e) => r is Err && r->Err_0@ == e,
            },
    {
        if self.word_is(i, "order") {
            match self.expect_word(i + 1, "by", "BY") {
                Ok(a) => self.parse_orders(a),
                Err(e) => Err(e),
            }
        } else {
            let none: Vec<OrderItem> = Vec::new();
            assert(order_models(none@) =~= Seq::empty());
            Ok((none, i))
        }
    }

    /// The number behind a word, if the word is there.
    fn parse_opt_count(&self, word: &str, i: usize) -> (r: Result<
        (Option<usize>, usize),
        CypherError,
    >)
        requires
            i <= self@.len(),
        ensures
            match opt_count_at(self@, word@, i as nat) {
                Ok((n, j)) => r is Ok && opt_nat(r->Ok_0.0) == n && r->Ok_0.1 == j && i <= j
                    <= self@.len(),
                Err(e) => r is Err && r->Err_0@ == e,
            },
    {
        if !self.word_is(i, word) {
            return Ok((None, i));
        }
        match self.number(i + 1) {
            Some(n) => if n <= usize::MAX as u64 {
                Ok((Some(n as usize), i + 2))
            } else {
                Err(self.range_error(i + 1))
            },
            None => Err(self.fail(i + 1, "an integer")),
        }
    }

    /// A projection, behind `WITH` or `RETURN`.
    fn parse_projection(&self, i: usize) -> (r: Result<(Projection, usize), CypherError>)
        ensures
            match projection_at(self@, i as nat) {
                Ok((e, j)) => r is Ok && r->Ok_0.0@ == e && r->Ok_0.1 == j && i < j <= self@.len(),
                Err(e) => r is Err && r->Err_0@ == e,
            },
    {
        let distinct = self.word_is(i, "distinct");
        let a: usize = if distinct {
            i + 1
        } else {
            i
        };
        let star = self.symbol_is(a, Symbol::Star);
        let (items, b) = if star {
            let none: Vec<ReturnItem> = Vec::new();
            assert(item_models(none@) =~= Seq::empty());
            (none, a + 1)
        } else {
            match self.parse_items(a) {
                Ok(read) => read,
                Err(e) => {
                    return Err(e);
                },
            }
        };
        let (order_by, c) = match self.parse_opt_order(b) {
            Ok(read) => read,
            Err(e) => {
                return Err(e);
            },
        };
        let (skip, d) = match self.parse_opt_count("skip", c) {
            Ok(read) => read,
            Err(e) => {
                return Err(e);
            },
        };
        let (limit, j) = match self.parse_opt_count("limit", d) {
            Ok(read) => read,
            Err(e) => {
                return Err(e);
            },
        };
        Ok((Projection { distinct, star, items, order_by, skip, limit }, j))
    }

    // ---- Clauses -------------------------------------------------------------------

    /// A `WHERE`, if it is there.
    fn parse_opt_where(&self, i: usize) -> (r: Result<(Option<Expr>, usize), CypherError>)
        requires
            i <= self@.len(),
        ensures
            match opt_where_at(self@, i as nat) {
                Ok((x, j)) => r is Ok && opt_model(r->Ok_0.0) == x && r->Ok_0.1 == j && i <= j
                    <= self@.len(),
                Err(e) => r is Err && r->Err_0@ == e,
            },
    {
        if self.word_is(i, "where") {
            match self.parse_expr(i + 1) {
                Ok((x, j)) => Ok((Some(x), j)),
                Err(e) => Err(e),
            }
        } else {
            Ok((None, i))
        }
    }

    /// The patterns and the `WHERE` of a `MATCH`.
    fn parse_match(&self, optional: bool, i: usize) -> (r: Result<(Clause, usize), CypherError>)
        ensures
            match match_at(self@, optional, i as nat) {
                Ok((e, j)) => r is Ok && r->Ok_0.0@ == e && r->Ok_0.1 == j && i < j <= self@.len(),
                Err(e) => r is Err && r->Err_0@ == e,
            },
    {
        let (patterns, a) = match self.parse_paths(i) {
            Ok(read) => read,
            Err(e) => {
                return Err(e);
            },
        };
        match self.parse_opt_where(a) {
            Ok((where_clause, j)) => Ok(
                (Clause::Match(MatchClause { optional, patterns, where_clause }), j),
            ),
            Err(e) => Err(e),
        }
    }

    /// A clause.
    fn parse_clause(&self, i: usize) -> (r: Result<(Clause, usize), CypherError>)
        ensures
            match clause_at(self@, i as nat) {
                Ok((e, j)) => r is Ok && r->Ok_0.0@ == e && r->Ok_0.1 == j && i < j <= self@.len(),
                Err(e) => r is Err && r->Err_0@ == e,
            },
    {
        if self.word_is(i, "match") {
            return self.parse_match(false, i + 1);
        }
        if self.word_is(i, "optional") {
            return match self.expect_word(i + 1, "match", "MATCH") {
                Ok(a) => self.parse_match(true, a),
                Err(e) => Err(e),
            };
        }
        if self.word_is(i, "unwind") {
            return match self.parse_expr(i + 1) {
                Ok((expr, a)) => match self.expect_word(a, "as", "AS") {
                    Ok(b) => match self.parse_var(b) {
                        Ok((var, j)) => Ok((Clause::Unwind(UnwindClause { expr, var }), j)),
                        Err(e) => Err(e),
                    },
                    Err(e) => Err(e),
                },
                Err(e) => Err(e),
            };
        }
        if self.word_is(i, "with") {
            return match self.parse_projection(i + 1) {
                Ok((projection, a)) => match self.parse_opt_where(a) {
                    Ok((where_clause, j)) => Ok(
                        (Clause::With(WithClause { projection, where_clause }), j),
                    ),
                    Err(e) => Err(e),
                },
                Err(e) => Err(e),
            };
        }
        Err(self.fail(i, "MATCH, OPTIONAL MATCH, UNWIND, WITH or RETURN"))
    }

    /// The query that the tokens stand for.
    pub fn parse_query(&self) -> (r: Result<Query, CypherError>)
        ensures
            match query_of(self@) {
                Ok(q) => r is Ok && r->Ok_0@ == q,
                Err(e) => r is Err && r->Err_0@ == e,
            },
    {
        let ghost toks = self@;
        if self.word_is(0, "return") {
            return Err(self.fail(0, "MATCH, OPTIONAL MATCH, UNWIND or WITH"));
        }
        let mut clauses: Vec<Clause> = Vec::new();
        let mut k: usize = 0;
        proof {
            assert(clause_models(clauses@) =~= Seq::empty());
            lemma_ahead_nothing(clause_models(clauses@), clauses_at(toks, 0));
        }
        while k < self.tokens.len() && !self.word_is(k, "return")
            invariant
                toks == self@,
                !is_word(toks, 0, "return"@),
                clauses_at(toks, 0) == ahead(clause_models(clauses@), clauses_at(toks, k as nat)),
            decreases left(toks.len(), k as nat),
        {
            match self.parse_clause(k) {
                Ok((clause, a)) => {
                    proof {
                        lemma_ahead_push(
                            clause_models(clauses@),
                            clause@,
                            clauses_at(toks, a as nat),
                        );
                        lemma_clause_models_push(clauses@, clause);
                    }
                    clauses.push(clause);
                    k = a;
                },
                Err(e) => {
                    return Err(e);
                },
            }
        }
        proof {
            lemma_ahead_none(clause_models(clauses@), k as nat);
        }
        let b = match self.expect_word(k, "return", "RETURN") {
            Ok(b) => b,
            Err(e) => {
                return Err(e);
            },
        };
        let (result, c) = match self.parse_projection(b) {
            Ok(read) => read,
            Err(e) => {
                return Err(e);
            },
        };
        if self.at_end(c) {
            Ok(Query { clauses, result })
        } else {
            Err(self.fail(c, "the end of the query"))
        }
    }

    /// Whether the tokens end at a position.
    fn at_end(&self, i: usize) -> (r: bool)
        ensures
            r == (kind_at(self@, i as nat) is End),
    {
        if i < self.tokens.len() {
            assert(self@[i as int] == self.tokens@[i as int]@);
            match &self.tokens[i].kind {
                TokenKind::End => true,
                _ => false,
            }
        } else {
            true
        }
    }
}

/// Parses a Cypher query string into a [`Query`].
///
/// # Errors
///
/// Returns a [`CypherError::Lex`] or a [`CypherError::Parse`] with the position of the first
/// character or token that does not fit.
pub fn parse(input: &str) -> (r: Result<Query, CypherError>)
    ensures
        match parsed(input@) {
            Ok(q) => r is Ok && r->Ok_0@ == q,
            Err(e) => r is Err && r->Err_0@ == e,
        },
{
    match tokenize(input) {
        Ok(tokens) => Parser::new(tokens).parse_query(),
        Err(e) => Err(e),
    }
}

} // verus!
