//! The grammar: which query a sequence of tokens stands for.
//!
//! Each function reads from a position and gives what it has read and the position behind it, or
//! the error at the first token that does not fit.

use vstd::prelude::*;

use crate::ast::{
    AggFn, ClauseModel, CmpOp, Direction, ExprModel, ItemModel, LiteralModel, MapEntryModel,
    NodePatternModel, OrderModel, PathModel, ProjectionModel, QueryModel, RelPatternModel,
    VarLength,
};
use crate::error::ErrorModel;
use crate::lexer::{left, past, tokens_of, KindModel, Symbol, TokenModel};
use crate::text::{ascii_lower, Text};

verus! {

/// What has been read, and the position behind it.
pub type Parsed<A> = Result<(A, nat), ErrorModel>;

/// What the token at a position is.
pub open spec fn kind_at(toks: Seq<TokenModel>, i: nat) -> KindModel {
    if i < toks.len() {
        toks[i as int].kind
    } else {
        KindModel::End
    }
}

/// Where the token at a position stands in the text.
pub open spec fn place_at(toks: Seq<TokenModel>, i: nat) -> nat {
    if i < toks.len() {
        toks[i as int].position
    } else {
        0
    }
}

/// Whether the token at a position is the punctuation.
pub open spec fn is_symbol(toks: Seq<TokenModel>, i: nat, symbol: Symbol) -> bool {
    kind_at(toks, i) == KindModel::Symbol(symbol)
}

/// Whether the token at a position is the word, which is given in lower case; the case of the token
/// does not matter.
pub open spec fn is_word(toks: Seq<TokenModel>, i: nat, word: Text) -> bool {
    kind_at(toks, i) matches KindModel::Word(w) && ascii_lower(w) == word
}

/// The error that something else was expected at a position.
pub open spec fn expected(toks: Seq<TokenModel>, i: nat, what: Text) -> ErrorModel {
    ErrorModel::Parse { message: "expected "@ + what, position: place_at(toks, i) }
}

/// The error that a number at a position is too large.
pub open spec fn out_of_range(toks: Seq<TokenModel>, i: nat) -> ErrorModel {
    ErrorModel::Parse { message: "integer literal out of range"@, position: place_at(toks, i) }
}

/// The position behind the punctuation.
pub open spec fn after_symbol(
    toks: Seq<TokenModel>,
    i: nat,
    symbol: Symbol,
    what: Text,
) -> Result<nat, ErrorModel> {
    if is_symbol(toks, i, symbol) {
        Ok(i + 1)
    } else {
        Err(expected(toks, i, what))
    }
}

/// The position behind the word.
pub open spec fn after_word(
    toks: Seq<TokenModel>,
    i: nat,
    word: Text,
    what: Text,
) -> Result<nat, ErrorModel> {
    if is_word(toks, i, word) {
        Ok(i + 1)
    } else {
        Err(expected(toks, i, what))
    }
}

/// Whether a word, in lower case, is a keyword that cannot name a variable.
pub open spec fn reserved(word: Text) -> bool {
    ||| word == "match"@
    ||| word == "optional"@
    ||| word == "where"@
    ||| word == "return"@
    ||| word == "with"@
    ||| word == "unwind"@
    ||| word == "as"@
    ||| word == "distinct"@
    ||| word == "order"@
    ||| word == "by"@
    ||| word == "skip"@
    ||| word == "limit"@
    ||| word == "asc"@
    ||| word == "desc"@
    ||| word == "and"@
    ||| word == "or"@
    ||| word == "not"@
    ||| word == "in"@
    ||| word == "is"@
    ||| word == "null"@
    ||| word == "true"@
    ||| word == "false"@
    ||| word == "contains"@
    ||| word == "starts"@
    ||| word == "ends"@
    ||| word == "case"@
    ||| word == "when"@
    ||| word == "then"@
    ||| word == "else"@
    ||| word == "end"@
    ||| word == "exists"@
}

/// The items with those before them.
pub open spec fn ahead<A>(before: Seq<A>, rest: Parsed<Seq<A>>) -> Parsed<Seq<A>> {
    match rest {
        Ok((items, j)) => Ok((before + items, j)),
        Err(e) => Err(e),
    }
}

// ---- Names and literals ------------------------------------------------------------

/// A name: any word.
pub open spec fn name_at(toks: Seq<TokenModel>, i: nat) -> Parsed<Text> {
    match kind_at(toks, i) {
        KindModel::Word(w) => Ok((w, i + 1)),
        _ => Err(expected(toks, i, "a name"@)),
    }
}

/// A variable: a word that is no keyword.
pub open spec fn var_at(toks: Seq<TokenModel>, i: nat) -> Parsed<Text> {
    match kind_at(toks, i) {
        KindModel::Word(w) => if reserved(ascii_lower(w)) {
            Err(expected(toks, i, "a variable"@))
        } else {
            Ok((w, i + 1))
        },
        _ => Err(expected(toks, i, "a variable"@)),
    }
}

/// A string, an integer with or without a minus, `true`, `false` or `null`.
pub open spec fn literal_at(toks: Seq<TokenModel>, i: nat) -> Parsed<LiteralModel> {
    match kind_at(toks, i) {
        KindModel::Str(s) => Ok((LiteralModel::Str(s), i + 1)),
        KindModel::Int(n) => if n <= i64::MAX {
            Ok((LiteralModel::Int(n as i64), i + 1))
        } else {
            Err(out_of_range(toks, i))
        },
        KindModel::Symbol(Symbol::Minus) => match kind_at(toks, i + 1) {
            KindModel::Int(n) => if -(n as int) >= i64::MIN {
                Ok((LiteralModel::Int((-(n as int)) as i64), i + 2))
            } else {
                Err(out_of_range(toks, i + 1))
            },
            _ => Err(expected(toks, i + 1, "an integer"@)),
        },
        KindModel::Word(w) => if ascii_lower(w) == "true"@ {
            Ok((LiteralModel::Bool(true), i + 1))
        } else if ascii_lower(w) == "false"@ {
            Ok((LiteralModel::Bool(false), i + 1))
        } else if ascii_lower(w) == "null"@ {
            Ok((LiteralModel::Null, i + 1))
        } else {
            Err(expected(toks, i, "a literal"@))
        },
        _ => Err(expected(toks, i, "a literal"@)),
    }
}

// ---- Patterns ----------------------------------------------------------------------

/// A variable, if there is a word.
pub open spec fn opt_var_at(toks: Seq<TokenModel>, i: nat) -> Parsed<Option<Text>> {
    if kind_at(toks, i) is Word {
        match var_at(toks, i) {
            Ok((name, j)) => Ok((Some(name), j)),
            Err(e) => Err(e),
        }
    } else {
        Ok((None, i))
    }
}

/// Alternative names: `A|B`, where a colon may stand behind the bar.
pub open spec fn names_at(toks: Seq<TokenModel>, i: nat) -> Parsed<Seq<Text>>
    decreases left(toks.len(), i),
{
    match kind_at(toks, i) {
        KindModel::Word(w) => if is_symbol(toks, i + 1, Symbol::Pipe) {
            let next = if is_symbol(toks, i + 2, Symbol::Colon) {
                i + 3
            } else {
                i + 2
            };
            ahead(seq![w], names_at(toks, next))
        } else {
            Ok((seq![w], i + 1))
        },
        _ => Err(expected(toks, i, "a name"@)),
    }
}

/// Names behind a colon, if there is one.
pub open spec fn opt_names_at(toks: Seq<TokenModel>, i: nat) -> Parsed<Seq<Text>> {
    if is_symbol(toks, i, Symbol::Colon) {
        names_at(toks, i + 1)
    } else {
        Ok((Seq::empty(), i))
    }
}

/// Properties `key: literal, ...` up to the closing brace.
pub open spec fn props_at(toks: Seq<TokenModel>, i: nat) -> Parsed<Seq<(Text, LiteralModel)>>
    decreases left(toks.len(), i),
{
    match name_at(toks, i) {
        Err(e) => Err(e),
        Ok((key, _)) => match after_symbol(toks, i + 1, Symbol::Colon, "`:`"@) {
            Err(e) => Err(e),
            Ok(_) => match literal_at(toks, i + 2) {
                Err(e) => Err(e),
                Ok((value, j)) => if is_symbol(toks, j, Symbol::Comma) {
                    ahead(seq![(key, value)], props_at(toks, past(i, j + 1)))
                } else if is_symbol(toks, j, Symbol::RBrace) {
                    Ok((seq![(key, value)], j + 1))
                } else {
                    Err(expected(toks, j, "`,` or `}`"@))
                },
            },
        },
    }
}

/// A property map, if there is an opening brace.
pub open spec fn opt_props_at(toks: Seq<TokenModel>, i: nat) -> Parsed<
    Seq<(Text, LiteralModel)>,
> {
    if is_symbol(toks, i, Symbol::LBrace) {
        if is_symbol(toks, i + 1, Symbol::RBrace) {
            Ok((Seq::empty(), i + 2))
        } else {
            props_at(toks, i + 1)
        }
    } else {
        Ok((Seq::empty(), i))
    }
}

/// A node pattern `(var:Label|Label {key: literal})`.
pub open spec fn node_at(toks: Seq<TokenModel>, i: nat) -> Parsed<NodePatternModel> {
    match after_symbol(toks, i, Symbol::LParen, "`(`"@) {
        Err(e) => Err(e),
        Ok(a) => match opt_var_at(toks, a) {
            Err(e) => Err(e),
            Ok((var, b)) => match opt_names_at(toks, b) {
                Err(e) => Err(e),
                Ok((labels, c)) => match opt_props_at(toks, c) {
                    Err(e) => Err(e),
                    Ok((props, d)) => match after_symbol(toks, d, Symbol::RParen, "`)`"@) {
                        Err(e) => Err(e),
                        Ok(j) => Ok((NodePatternModel { var, labels, props }, j)),
                    },
                },
            },
        },
    }
}

/// A bound of a variable-length relationship, if there is a number.
pub open spec fn bound_at(toks: Seq<TokenModel>, i: nat) -> Parsed<Option<u32>> {
    match kind_at(toks, i) {
        KindModel::Int(n) => if n <= u32::MAX {
            Ok((Some(n as u32), i + 1))
        } else {
            Err(out_of_range(toks, i))
        },
        _ => Ok((None, i)),
    }
}

/// The length of a relationship: `*`, `*n`, `*min..max`, where either bound may be missing.
pub open spec fn opt_length_at(toks: Seq<TokenModel>, i: nat) -> Parsed<Option<VarLength>> {
    if !is_symbol(toks, i, Symbol::Star) {
        Ok((None, i))
    } else {
        match bound_at(toks, i + 1) {
            Err(e) => Err(e),
            Ok((low, a)) => if is_symbol(toks, a, Symbol::DotDot) {
                match bound_at(toks, a + 1) {
                    Err(e) => Err(e),
                    Ok((high, b)) => Ok(
                        (
                            Some(
                                VarLength {
                                    min: match low {
                                        Some(n) => n,
                                        None => 1,
                                    },
                                    max: high,
                                },
                            ),
                            b,
                        ),
                    ),
                }
            } else {
                Ok(
                    (
                        Some(
                            match low {
                                Some(n) => VarLength { min: n, max: Some(n) },
                                None => VarLength { min: 1, max: None },
                            },
                        ),
                        a,
                    ),
                )
            },
        }
    }
}

/// What stands in the brackets of a relationship: `[var:TYPE|TYPE *min..max]`.
pub open spec fn rel_body_at(toks: Seq<TokenModel>, i: nat) -> Parsed<
    (Option<Text>, Seq<Text>, Option<VarLength>),
> {
    if !is_symbol(toks, i, Symbol::LBracket) {
        Ok(((None, Seq::empty(), None), i))
    } else {
        match opt_var_at(toks, i + 1) {
            Err(e) => Err(e),
            Ok((var, b)) => match opt_names_at(toks, b) {
                Err(e) => Err(e),
                Ok((types, c)) => match opt_length_at(toks, c) {
                    Err(e) => Err(e),
                    Ok((length, d)) => match after_symbol(toks, d, Symbol::RBracket, "`]`"@) {
                        Err(e) => Err(e),
                        Ok(j) => Ok(((var, types, length), j)),
                    },
                },
            },
        }
    }
}

/// A relationship pattern: `-[...]->`, `<-[...]-`, `-[...]-`, or one of these without brackets.
pub open spec fn rel_at(toks: Seq<TokenModel>, i: nat) -> Parsed<RelPatternModel> {
    let backward = is_symbol(toks, i, Symbol::Less);
    let a = if backward {
        i + 1
    } else {
        i
    };
    match after_symbol(toks, a, Symbol::Minus, "`-`"@) {
        Err(e) => Err(e),
        Ok(b) => match rel_body_at(toks, b) {
            Err(e) => Err(e),
            Ok(((var, types, length), c)) => match after_symbol(toks, c, Symbol::Minus, "`-`"@) {
                Err(e) => Err(e),
                Ok(d) => if is_symbol(toks, d, Symbol::Greater) {
                    if backward {
                        Err(expected(toks, d, "`(`"@))
                    } else {
                        Ok(
                            (
                                RelPatternModel {
                                    var,
                                    types,
                                    direction: Direction::Outgoing,
                                    length,
                                },
                                d + 1,
                            ),
                        )
                    }
                } else {
                    Ok(
                        (
                            RelPatternModel {
                                var,
                                types,
                                direction: if backward {
                                    Direction::Incoming
                                } else {
                                    Direction::Both
                                },
                                length,
                            },
                            d,
                        ),
                    )
                },
            },
        },
    }
}

/// The hops of a path.
pub open spec fn hops_at(toks: Seq<TokenModel>, i: nat) -> Parsed<
    Seq<(RelPatternModel, NodePatternModel)>,
>
    decreases left(toks.len(), i),
{
    if is_symbol(toks, i, Symbol::Minus) || is_symbol(toks, i, Symbol::Less) {
        match rel_at(toks, i) {
            Err(e) => Err(e),
            Ok((rel, a)) => match node_at(toks, a) {
                Err(e) => Err(e),
                Ok((node, b)) => ahead(seq![(rel, node)], hops_at(toks, past(i, b))),
            },
        }
    } else {
        Ok((Seq::empty(), i))
    }
}

/// A path pattern.
pub open spec fn path_at(toks: Seq<TokenModel>, i: nat) -> Parsed<PathModel> {
    match node_at(toks, i) {
        Err(e) => Err(e),
        Ok((start, a)) => match hops_at(toks, a) {
            Err(e) => Err(e),
            Ok((rest, b)) => Ok((PathModel { start, rest }, b)),
        },
    }
}

/// Path patterns separated by commas.
pub open spec fn paths_at(toks: Seq<TokenModel>, i: nat) -> Parsed<Seq<PathModel>>
    decreases left(toks.len(), i),
{
    match path_at(toks, i) {
        Err(e) => Err(e),
        Ok((path, j)) => if i < toks.len() && is_symbol(toks, j, Symbol::Comma) {
            ahead(seq![path], paths_at(toks, past(i, j + 1)))
        } else {
            Ok((seq![path], j))
        },
    }
}

// ---- Expressions -------------------------------------------------------------------

/// The aggregate function of a name in lower case.
pub open spec fn agg_of(word: Text) -> Option<AggFn> {
    if word == "count"@ {
        Some(AggFn::Count)
    } else if word == "collect"@ {
        Some(AggFn::Collect)
    } else if word == "min"@ {
        Some(AggFn::Min)
    } else if word == "max"@ {
        Some(AggFn::Max)
    } else if word == "sum"@ {
        Some(AggFn::Sum)
    } else if word == "avg"@ {
        Some(AggFn::Avg)
    } else {
        None
    }
}

/// The comparison operator at a position, with the position behind it.
pub open spec fn operator_at(toks: Seq<TokenModel>, i: nat) -> Option<(CmpOp, nat)> {
    match kind_at(toks, i) {
        KindModel::Symbol(Symbol::Equal) => Some((CmpOp::Eq, i + 1)),
        KindModel::Symbol(Symbol::NotEqual) => Some((CmpOp::Neq, i + 1)),
        KindModel::Symbol(Symbol::Less) => Some((CmpOp::Lt, i + 1)),
        KindModel::Symbol(Symbol::LessEqual) => Some((CmpOp::Lte, i + 1)),
        KindModel::Symbol(Symbol::Greater) => Some((CmpOp::Gt, i + 1)),
        KindModel::Symbol(Symbol::GreaterEqual) => Some((CmpOp::Gte, i + 1)),
        KindModel::Word(w) => if ascii_lower(w) == "contains"@ {
            Some((CmpOp::Contains, i + 1))
        } else if ascii_lower(w) == "in"@ {
            Some((CmpOp::In, i + 1))
        } else if ascii_lower(w) == "starts"@ && is_word(toks, i + 1, "with"@) {
            Some((CmpOp::StartsWith, i + 2))
        } else if ascii_lower(w) == "ends"@ && is_word(toks, i + 1, "with"@) {
            Some((CmpOp::EndsWith, i + 2))
        } else {
            None
        },
        _ => None,
    }
}

/// An expression: operands of `OR`.
pub open spec fn expr_at(toks: Seq<TokenModel>, i: nat) -> Parsed<ExprModel>
    decreases left(toks.len(), i), 9nat,
{
    match conjunction_at(toks, i) {
        Err(e) => Err(e),
        Ok((x, j)) => or_rest_at(toks, x, past(i, j)),
    }
}

/// The further operands of `OR`, which groups to the left.
pub open spec fn or_rest_at(toks: Seq<TokenModel>, x: ExprModel, i: nat) -> Parsed<ExprModel>
    decreases left(toks.len(), i), 0nat,
{
    if is_word(toks, i, "or"@) {
        match conjunction_at(toks, i + 1) {
            Err(e) => Err(e),
            Ok((y, j)) => or_rest_at(
                toks,
                ExprModel::Or(Box::new(x), Box::new(y)),
                past(i, j),
            ),
        }
    } else {
        Ok((x, i))
    }
}

/// Operands of `AND`.
pub open spec fn conjunction_at(toks: Seq<TokenModel>, i: nat) -> Parsed<ExprModel>
    decreases left(toks.len(), i), 8nat,
{
    match negation_at(toks, i) {
        Err(e) => Err(e),
        Ok((x, j)) => and_rest_at(toks, x, past(i, j)),
    }
}

/// The further operands of `AND`, which groups to the left.
pub open spec fn and_rest_at(toks: Seq<TokenModel>, x: ExprModel, i: nat) -> Parsed<ExprModel>
    decreases left(toks.len(), i), 0nat,
{
    if is_word(toks, i, "and"@) {
        match negation_at(toks, i + 1) {
            Err(e) => Err(e),
            Ok((y, j)) => and_rest_at(
                toks,
                ExprModel::And(Box::new(x), Box::new(y)),
                past(i, j),
            ),
        }
    } else {
        Ok((x, i))
    }
}

/// A comparison, or the negation of one.
pub open spec fn negation_at(toks: Seq<TokenModel>, i: nat) -> Parsed<ExprModel>
    decreases left(toks.len(), i), 7nat,
{
    if is_word(toks, i, "not"@) {
        match negation_at(toks, i + 1) {
            Err(e) => Err(e),
            Ok((x, j)) => Ok((ExprModel::Not(Box::new(x)), j)),
        }
    } else {
        comparison_at(toks, i)
    }
}

/// One operand, two operands with a comparison operator, or a test for null.
pub open spec fn comparison_at(toks: Seq<TokenModel>, i: nat) -> Parsed<ExprModel>
    decreases left(toks.len(), i), 6nat,
{
    match primary_at(toks, i) {
        Err(e) => Err(e),
        Ok((x, k)) => {
            let j = past(i, k);
            match operator_at(toks, j) {
                Some((op, a)) => match primary_at(toks, a) {
                    Err(e) => Err(e),
                    Ok((y, b)) => Ok((ExprModel::Compare(Box::new(x), op, Box::new(y)), b)),
                },
                None => if is_word(toks, j, "is"@) {
                    if is_word(toks, j + 1, "null"@) {
                        Ok((ExprModel::IsNull(Box::new(x), false), j + 2))
                    } else if is_word(toks, j + 1, "not"@) && is_word(toks, j + 2, "null"@) {
                        Ok((ExprModel::IsNull(Box::new(x), true), j + 3))
                    } else {
                        Err(expected(toks, j + 1, "NULL or NOT NULL"@))
                    }
                } else {
                    Ok((x, j))
                },
            }
        },
    }
}

/// An operand: a literal, a list, an expression in parentheses, a `CASE`, an `EXISTS`, a call, a
/// property, a map projection or a variable.
pub open spec fn primary_at(toks: Seq<TokenModel>, i: nat) -> Parsed<ExprModel>
    decreases left(toks.len(), i), 5nat,
{
    match kind_at(toks, i) {
        KindModel::Symbol(Symbol::LBracket) => if is_symbol(toks, i + 1, Symbol::RBracket) {
            Ok((ExprModel::List(Seq::empty()), i + 2))
        } else {
            match exprs_at(toks, i + 1) {
                Err(e) => Err(e),
                Ok((items, a)) => match after_symbol(toks, a, Symbol::RBracket, "`]`"@) {
                    Err(e) => Err(e),
                    Ok(j) => Ok((ExprModel::List(items), j)),
                },
            }
        },
        KindModel::Symbol(Symbol::LParen) => match expr_at(toks, i + 1) {
            Err(e) => Err(e),
            Ok((x, a)) => match after_symbol(toks, a, Symbol::RParen, "`)`"@) {
                Err(e) => Err(e),
                Ok(j) => Ok((x, j)),
            },
        },
        KindModel::Word(w) => word_operand_at(toks, w, i),
        KindModel::End => Err(expected(toks, i, "an expression"@)),
        KindModel::Symbol(symbol) => if symbol is Minus {
            literal_operand_at(toks, i)
        } else {
            Err(expected(toks, i, "an expression"@))
        },
        _ => literal_operand_at(toks, i),
    }
}

/// A literal as an operand.
pub open spec fn literal_operand_at(toks: Seq<TokenModel>, i: nat) -> Parsed<ExprModel> {
    match literal_at(toks, i) {
        Err(e) => Err(e),
        Ok((l, j)) => Ok((ExprModel::Literal(l), j)),
    }
}

/// An operand that begins with the word `w`.
pub open spec fn word_operand_at(toks: Seq<TokenModel>, w: Text, i: nat) -> Parsed<ExprModel>
    decreases left(toks.len(), i), 4nat,
{
    let lower = ascii_lower(w);
    if i >= toks.len() {
        Err(expected(toks, i, "an expression"@))
    } else if lower == "true"@ || lower == "false"@ || lower == "null"@ {
        literal_operand_at(toks, i)
    } else if lower == "case"@ {
        case_at(toks, i + 1)
    } else if lower == "exists"@ {
        match after_symbol(toks, i + 1, Symbol::LBrace, "`{`"@) {
            Err(e) => Err(e),
            Ok(a) => exists_at(toks, a),
        }
    } else if reserved(lower) {
        Err(expected(toks, i, "an expression"@))
    } else if is_symbol(toks, i + 1, Symbol::LParen) {
        call_at(toks, w, i + 2)
    } else if is_symbol(toks, i + 1, Symbol::Dot) {
        match name_at(toks, i + 2) {
            Err(e) => Err(e),
            Ok((prop, j)) => Ok((ExprModel::Property(w, prop), j)),
        }
    } else if is_symbol(toks, i + 1, Symbol::LBrace) {
        if is_symbol(toks, i + 2, Symbol::RBrace) {
            Ok((ExprModel::MapProjection { var: w, entries: Seq::empty() }, i + 3))
        } else {
            match entries_at(toks, i + 2) {
                Err(e) => Err(e),
                Ok((entries, j)) => Ok((ExprModel::MapProjection { var: w, entries }, j)),
            }
        }
    } else {
        Ok((ExprModel::Var(w), i + 1))
    }
}

/// Expressions separated by commas.
pub open spec fn exprs_at(toks: Seq<TokenModel>, i: nat) -> Parsed<Seq<ExprModel>>
    decreases left(toks.len(), i), 10nat,
{
    match expr_at(toks, i) {
        Err(e) => Err(e),
        Ok((x, j)) => if i < toks.len() && is_symbol(toks, j, Symbol::Comma) {
            ahead(seq![x], exprs_at(toks, past(i, j + 1)))
        } else {
            Ok((seq![x], j))
        },
    }
}

/// A call of the function `name`, behind its opening parenthesis.
pub open spec fn call_at(toks: Seq<TokenModel>, name: Text, i: nat) -> Parsed<ExprModel>
    decreases left(toks.len(), i), 11nat,
{
    match agg_of(ascii_lower(name)) {
        Some(func) => if func is Count && is_symbol(toks, i, Symbol::Star) {
            match after_symbol(toks, i + 1, Symbol::RParen, "`)`"@) {
                Err(e) => Err(e),
                Ok(j) => Ok((ExprModel::Aggregate { func, arg: None, distinct: false }, j)),
            }
        } else {
            let distinct = is_word(toks, i, "distinct"@);
            let a = if distinct {
                i + 1
            } else {
                i
            };
            match expr_at(toks, a) {
                Err(e) => Err(e),
                Ok((x, b)) => match after_symbol(toks, b, Symbol::RParen, "`)`"@) {
                    Err(e) => Err(e),
                    Ok(j) => Ok(
                        (ExprModel::Aggregate { func, arg: Some(Box::new(x)), distinct }, j),
                    ),
                },
            }
        },
        None => if is_symbol(toks, i, Symbol::RParen) {
            Ok((ExprModel::Function { name, args: Seq::empty() }, i + 1))
        } else {
            match exprs_at(toks, i) {
                Err(e) => Err(e),
                Ok((args, a)) => match after_symbol(toks, a, Symbol::RParen, "`)`"@) {
                    Err(e) => Err(e),
                    Ok(j) => Ok((ExprModel::Function { name, args }, j)),
                },
            }
        },
    }
}

/// The entries of a map projection, up to the closing brace.
pub open spec fn entries_at(toks: Seq<TokenModel>, i: nat) -> Parsed<Seq<MapEntryModel>>
    decreases left(toks.len(), i), 12nat,
{
    match entry_at(toks, i) {
        Err(e) => Err(e),
        Ok((entry, j)) => if i < toks.len() && is_symbol(toks, j, Symbol::Comma) {
            ahead(seq![entry], entries_at(toks, past(i, j + 1)))
        } else if is_symbol(toks, j, Symbol::RBrace) {
            Ok((seq![entry], j + 1))
        } else {
            Err(expected(toks, j, "`,` or `}`"@))
        },
    }
}

/// An entry of a map projection: `.prop` or `key: expr`.
pub open spec fn entry_at(toks: Seq<TokenModel>, i: nat) -> Parsed<MapEntryModel>
    decreases left(toks.len(), i), 11nat,
{
    if is_symbol(toks, i, Symbol::Dot) {
        match name_at(toks, i + 1) {
            Err(e) => Err(e),
            Ok((prop, j)) => Ok((MapEntryModel::Property(prop), j)),
        }
    } else {
        match name_at(toks, i) {
            Err(e) => Err(e),
            Ok((key, _)) => match after_symbol(toks, i + 1, Symbol::Colon, "`:`"@) {
                Err(e) => Err(e),
                Ok(_) => match expr_at(toks, i + 2) {
                    Err(e) => Err(e),
                    Ok((x, j)) => Ok((MapEntryModel::Literal(key, x), j)),
                },
            },
        }
    }
}

/// An `EXISTS` subquery, behind its opening brace.
pub open spec fn exists_at(toks: Seq<TokenModel>, i: nat) -> Parsed<ExprModel>
    decreases left(toks.len(), i), 11nat,
{
    let a = if is_word(toks, i, "match"@) {
        i + 1
    } else {
        i
    };
    match paths_at(toks, a) {
        Err(e) => Err(e),
        Ok((patterns, k)) => {
            let b = past(i, k);
            if is_word(toks, b, "where"@) {
                match expr_at(toks, b + 1) {
                    Err(e) => Err(e),
                    Ok((x, c)) => match after_symbol(toks, c, Symbol::RBrace, "`}`"@) {
                        Err(e) => Err(e),
                        Ok(j) => Ok(
                            (
                                ExprModel::Exists {
                                    patterns,
                                    where_clause: Some(Box::new(x)),
                                },
                                j,
                            ),
                        ),
                    },
                }
            } else {
                match after_symbol(toks, b, Symbol::RBrace, "`}`"@) {
                    Err(e) => Err(e),
                    Ok(j) => Ok((ExprModel::Exists { patterns, where_clause: None }, j)),
                }
            }
        },
    }
}

/// A `CASE`, behind the word.
pub open spec fn case_at(toks: Seq<TokenModel>, i: nat) -> Parsed<ExprModel>
    decreases left(toks.len(), i), 11nat,
{
    if is_word(toks, i, "when"@) {
        case_rest_at(toks, None, i)
    } else {
        match expr_at(toks, i) {
            Err(e) => Err(e),
            Ok((x, j)) => case_rest_at(toks, Some(Box::new(x)), past(i, j)),
        }
    }
}

/// The branches of a `CASE`, its `ELSE` and its `END`.
pub open spec fn case_rest_at(
    toks: Seq<TokenModel>,
    operand: Option<Box<ExprModel>>,
    i: nat,
) -> Parsed<ExprModel>
    decreases left(toks.len(), i), 2nat,
{
    if !is_word(toks, i, "when"@) {
        Err(expected(toks, i, "WHEN"@))
    } else {
        match branches_at(toks, i) {
            Err(e) => Err(e),
            Ok((branches, k)) => {
                match case_end_at(toks, past(i, k)) {
                    Err(e) => Err(e),
                    Ok((default, j)) => Ok((ExprModel::Case { operand, branches, default }, j)),
                }
            },
        }
    }
}

/// The `ELSE` of a `CASE`, if it is there, and its `END`.
pub open spec fn case_end_at(toks: Seq<TokenModel>, i: nat) -> Parsed<Option<Box<ExprModel>>>
    decreases left(toks.len(), i), 0nat,
{
    if is_word(toks, i, "else"@) {
        match expr_at(toks, i + 1) {
            Err(e) => Err(e),
            Ok((x, a)) => match after_word(toks, a, "end"@, "END"@) {
                Err(e) => Err(e),
                Ok(j) => Ok((Some(Box::new(x)), j)),
            },
        }
    } else {
        match after_word(toks, i, "end"@, "END"@) {
            Err(e) => Err(e),
            Ok(j) => Ok((None, j)),
        }
    }
}

/// The branches `WHEN expr THEN expr` of a `CASE`.
pub open spec fn branches_at(toks: Seq<TokenModel>, i: nat) -> Parsed<Seq<(ExprModel, ExprModel)>>
    decreases left(toks.len(), i), 1nat,
{
    if is_word(toks, i, "when"@) {
        match expr_at(toks, i + 1) {
            Err(e) => Err(e),
            Ok((x, k)) => {
                let a = past(i, k);
                match after_word(toks, a, "then"@, "THEN"@) {
                    Err(e) => Err(e),
                    Ok(b) => match expr_at(toks, b) {
                        Err(e) => Err(e),
                        Ok((y, j)) => ahead(seq![(x, y)], branches_at(toks, past(i, j))),
                    },
                }
            },
        }
    } else {
        Ok((Seq::empty(), i))
    }
}

// ---- Projections -------------------------------------------------------------------

/// An item of a projection, with or without an alias.
pub open spec fn item_at(toks: Seq<TokenModel>, i: nat) -> Parsed<ItemModel> {
    match expr_at(toks, i) {
        Err(e) => Err(e),
        Ok((expr, a)) => if is_word(toks, a, "as"@) {
            match var_at(toks, a + 1) {
                Err(e) => Err(e),
                Ok((name, j)) => Ok((ItemModel { expr, alias: Some(name) }, j)),
            }
        } else {
            Ok((ItemModel { expr, alias: None }, a))
        },
    }
}

/// Items separated by commas.
pub open spec fn items_at(toks: Seq<TokenModel>, i: nat) -> Parsed<Seq<ItemModel>>
    decreases left(toks.len(), i),
{
    match item_at(toks, i) {
        Err(e) => Err(e),
        Ok((item, j)) => if i < toks.len() && is_symbol(toks, j, Symbol::Comma) {
            ahead(seq![item], items_at(toks, past(i, j + 1)))
        } else {
            Ok((seq![item], j))
        },
    }
}

/// An expression to sort by, with or without `ASC` or `DESC`.
pub open spec fn order_at(toks: Seq<TokenModel>, i: nat) -> Parsed<OrderModel> {
    match expr_at(toks, i) {
        Err(e) => Err(e),
        Ok((expr, a)) => if is_word(toks, a, "desc"@) {
            Ok((OrderModel { expr, descending: true }, a + 1))
        } else if is_word(toks, a, "asc"@) {
            Ok((OrderModel { expr, descending: false }, a + 1))
        } else {
            Ok((OrderModel { expr, descending: false }, a))
        },
    }
}

/// Expressions to sort by, separated by commas.
pub open spec fn orders_at(toks: Seq<TokenModel>, i: nat) -> Parsed<Seq<OrderModel>>
    decreases left(toks.len(), i),
{
    match order_at(toks, i) {
        Err(e) => Err(e),
        Ok((order, j)) => if i < toks.len() && is_symbol(toks, j, Symbol::Comma) {
            ahead(seq![order], orders_at(toks, past(i, j + 1)))
        } else {
            Ok((seq![order], j))
        },
    }
}

/// `ORDER BY`, if it is there.
pub open spec fn opt_order_at(toks: Seq<TokenModel>, i: nat) -> Parsed<Seq<OrderModel>> {
    if is_word(toks, i, "order"@) {
        match after_word(toks, i + 1, "by"@, "BY"@) {
            Err(e) => Err(e),
            Ok(a) => orders_at(toks, a),
        }
    } else {
        Ok((Seq::empty(), i))
    }
}

/// The number behind a word, if the word is there.
pub open spec fn opt_count_at(toks: Seq<TokenModel>, word: Text, i: nat) -> Parsed<Option<nat>> {
    if is_word(toks, i, word) {
        match kind_at(toks, i + 1) {
            KindModel::Int(n) => if n <= usize::MAX {
                Ok((Some(n as nat), i + 2))
            } else {
                Err(out_of_range(toks, i + 1))
            },
            _ => Err(expected(toks, i + 1, "an integer"@)),
        }
    } else {
        Ok((None, i))
    }
}

/// What is projected: a star, or items.
pub open spec fn columns_at(toks: Seq<TokenModel>, i: nat) -> Parsed<(bool, Seq<ItemModel>)> {
    if is_symbol(toks, i, Symbol::Star) {
        Ok(((true, Seq::empty()), i + 1))
    } else {
        match items_at(toks, i) {
            Err(e) => Err(e),
            Ok((items, j)) => Ok(((false, items), j)),
        }
    }
}

/// A projection, behind `WITH` or `RETURN`.
pub open spec fn projection_at(toks: Seq<TokenModel>, i: nat) -> Parsed<ProjectionModel> {
    let distinct = is_word(toks, i, "distinct"@);
    let a = if distinct {
        i + 1
    } else {
        i
    };
    match columns_at(toks, a) {
        Err(e) => Err(e),
        Ok(((star, items), b)) => match opt_order_at(toks, b) {
            Err(e) => Err(e),
            Ok((order_by, c)) => match opt_count_at(toks, "skip"@, c) {
                Err(e) => Err(e),
                Ok((skip, d)) => match opt_count_at(toks, "limit"@, d) {
                    Err(e) => Err(e),
                    Ok((limit, j)) => Ok(
                        (
                            ProjectionModel { distinct, star, items, order_by, skip, limit },
                            j,
                        ),
                    ),
                },
            },
        },
    }
}

// ---- Clauses -----------------------------------------------------------------------

/// A `WHERE`, if it is there.
pub open spec fn opt_where_at(toks: Seq<TokenModel>, i: nat) -> Parsed<Option<ExprModel>> {
    if is_word(toks, i, "where"@) {
        match expr_at(toks, i + 1) {
            Err(e) => Err(e),
            Ok((x, j)) => Ok((Some(x), j)),
        }
    } else {
        Ok((None, i))
    }
}

/// The patterns and the `WHERE` of a `MATCH`.
pub open spec fn match_at(toks: Seq<TokenModel>, optional: bool, i: nat) -> Parsed<ClauseModel> {
    match paths_at(toks, i) {
        Err(e) => Err(e),
        Ok((patterns, a)) => match opt_where_at(toks, a) {
            Err(e) => Err(e),
            Ok((where_clause, j)) => Ok(
                (ClauseModel::Match { optional, patterns, where_clause }, j),
            ),
        },
    }
}

/// A clause.
pub open spec fn clause_at(toks: Seq<TokenModel>, i: nat) -> Parsed<ClauseModel> {
    if is_word(toks, i, "match"@) {
        match_at(toks, false, i + 1)
    } else if is_word(toks, i, "optional"@) {
        match after_word(toks, i + 1, "match"@, "MATCH"@) {
            Err(e) => Err(e),
            Ok(a) => match_at(toks, true, a),
        }
    } else if is_word(toks, i, "unwind"@) {
        match expr_at(toks, i + 1) {
            Err(e) => Err(e),
            Ok((expr, a)) => match after_word(toks, a, "as"@, "AS"@) {
                Err(e) => Err(e),
                Ok(b) => match var_at(toks, b) {
                    Err(e) => Err(e),
                    Ok((var, j)) => Ok((ClauseModel::Unwind { expr, var }, j)),
                },
            },
        }
    } else if is_word(toks, i, "with"@) {
        match projection_at(toks, i + 1) {
            Err(e) => Err(e),
            Ok((projection, a)) => match opt_where_at(toks, a) {
                Err(e) => Err(e),
                Ok((where_clause, j)) => Ok((ClauseModel::With { projection, where_clause }, j)),
            },
        }
    } else {
        Err(expected(toks, i, "MATCH, OPTIONAL MATCH, UNWIND, WITH or RETURN"@))
    }
}

/// The clauses before `RETURN`.
pub open spec fn clauses_at(toks: Seq<TokenModel>, i: nat) -> Parsed<Seq<ClauseModel>>
    decreases left(toks.len(), i),
{
    if is_word(toks, i, "return"@) || i >= toks.len() {
        Ok((Seq::empty(), i))
    } else {
        match clause_at(toks, i) {
            Err(e) => Err(e),
            Ok((clause, j)) => ahead(seq![clause], clauses_at(toks, past(i, j))),
        }
    }
}

/// The query that tokens stand for: at least one clause, then `RETURN`, and nothing behind it.
pub open spec fn query_of(toks: Seq<TokenModel>) -> Result<QueryModel, ErrorModel> {
    if is_word(toks, 0, "return"@) {
        Err(expected(toks, 0, "MATCH, OPTIONAL MATCH, UNWIND or WITH"@))
    } else {
        match clauses_at(toks, 0) {
            Err(e) => Err(e),
            Ok((clauses, a)) => match after_word(toks, a, "return"@, "RETURN"@) {
                Err(e) => Err(e),
                Ok(b) => match projection_at(toks, b) {
                    Err(e) => Err(e),
                    Ok((result, c)) => if kind_at(toks, c) is End {
                        Ok(QueryModel { clauses, result })
                    } else {
                        Err(expected(toks, c, "the end of the query"@))
                    },
                },
            },
        }
    }
}

/// The query that a text stands for.
pub open spec fn parsed(s: Text) -> Result<QueryModel, ErrorModel> {
    match tokens_of(s) {
        Err(e) => Err(e),
        Ok(toks) => query_of(toks),
    }
}

} // verus!
