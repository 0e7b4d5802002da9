//! How queries are written: the tokens of each pattern, expression and clause. Reading what was
//! written gives back what it was written for.

use vstd::prelude::*;

use crate::ast::{
    AggFn, ClauseModel, CmpOp, Direction, ExprModel, ItemModel, LiteralModel, MapEntryModel,
    NodePatternModel, OrderModel, PathModel, ProjectionModel, QueryModel, RelPatternModel,
    VarLength,
};
use crate::lexer::{KindModel, Symbol, TokenModel};
use crate::text::{ascii_lower, Text};

verus! {

/// A token to be written: a keyword, given in lower case, whose case is free, or a given token.
pub enum Sign {
    Key(Text),
    Kind(KindModel),
}

/// Whether a token can stand for a sign.
pub open spec fn stands(kind: KindModel, sign: Sign) -> bool {
    match sign {
        Sign::Key(word) => kind matches KindModel::Word(w) && ascii_lower(w) == word,
        Sign::Kind(k) => kind == k,
    }
}

/// Whether the tokens from a position on stand for the signs.
#[verifier::opaque]
pub open spec fn shown(toks: Seq<TokenModel>, i: nat, signs: Seq<Sign>) -> bool {
    &&& i + signs.len() <= toks.len()
    &&& forall|k: int| 0 <= k < signs.len() ==> stands(toks[i + k].kind, #[trigger] signs[k])
}

/// A piece of punctuation.
pub open spec fn mark(symbol: Symbol) -> Seq<Sign> {
    seq![Sign::Kind(KindModel::Symbol(symbol))]
}

/// A keyword.
pub open spec fn key(word: Text) -> Seq<Sign> {
    seq![Sign::Key(word)]
}

/// A name.
pub open spec fn name(text: Text) -> Seq<Sign> {
    seq![Sign::Kind(KindModel::Word(text))]
}

/// A number.
pub open spec fn count(n: nat) -> Seq<Sign> {
    seq![Sign::Kind(KindModel::Int(n as u64))]
}

// ---- Patterns ----------------------------------------------------------------------

/// A name, if there is one.
pub open spec fn opt_name(text: Option<Text>) -> Seq<Sign> {
    match text {
        Some(t) => name(t),
        None => Seq::empty(),
    }
}

/// The names from position `i` on, with bars between them.
pub open spec fn names(texts: Seq<Text>, i: int) -> Seq<Sign>
    decreases texts.len() - i,
{
    if i < 0 || i >= texts.len() {
        Seq::empty()
    } else if i + 1 == texts.len() {
        name(texts[i])
    } else {
        name(texts[i]) + mark(Symbol::Pipe) + names(texts, i + 1)
    }
}

/// Names behind a colon, if there are any.
pub open spec fn opt_names(texts: Seq<Text>) -> Seq<Sign> {
    if texts.len() == 0 {
        Seq::empty()
    } else {
        mark(Symbol::Colon) + names(texts, 0)
    }
}

/// A literal.
pub open spec fn literal(l: LiteralModel) -> Seq<Sign> {
    match l {
        LiteralModel::Str(s) => seq![Sign::Kind(KindModel::Str(s))],
        LiteralModel::Int(i) => if i >= 0 {
            count(i as nat)
        } else {
            mark(Symbol::Minus) + count((-(i as int)) as nat)
        },
        LiteralModel::Bool(b) => if b {
            key("true"@)
        } else {
            key("false"@)
        },
        LiteralModel::Null => key("null"@),
    }
}

/// The properties from position `i` on, with commas between them and a brace behind them.
pub open spec fn props(entries: Seq<(Text, LiteralModel)>, i: int) -> Seq<Sign>
    decreases entries.len() - i,
{
    if i < 0 || i >= entries.len() {
        Seq::empty()
    } else {
        name(entries[i].0) + mark(Symbol::Colon) + literal(entries[i].1) + if i + 1
            == entries.len() {
            mark(Symbol::RBrace)
        } else {
            mark(Symbol::Comma) + props(entries, i + 1)
        }
    }
}

/// A property map, if there are properties.
pub open spec fn opt_props(entries: Seq<(Text, LiteralModel)>) -> Seq<Sign> {
    if entries.len() == 0 {
        Seq::empty()
    } else {
        mark(Symbol::LBrace) + props(entries, 0)
    }
}

/// A node pattern.
pub open spec fn node(p: NodePatternModel) -> Seq<Sign> {
    mark(Symbol::LParen) + opt_name(p.var) + opt_names(p.labels) + opt_props(p.props) + mark(
        Symbol::RParen,
    )
}

/// A number, if there is one.
pub open spec fn opt_count(n: Option<u32>) -> Seq<Sign> {
    match n {
        Some(m) => count(m as nat),
        None => Seq::empty(),
    }
}

/// A length, if there is one: `*min..` or `*min..max`.
pub open spec fn opt_length(length: Option<VarLength>) -> Seq<Sign> {
    match length {
        None => Seq::empty(),
        Some(l) => mark(Symbol::Star) + count(l.min as nat) + mark(Symbol::DotDot) + opt_count(
            l.max,
        ),
    }
}

/// What stands in the brackets of a relationship.
pub open spec fn rel_body(rel: RelPatternModel) -> Seq<Sign> {
    mark(Symbol::LBracket) + opt_name(rel.var) + opt_names(rel.types) + opt_length(rel.length)
        + mark(Symbol::RBracket)
}

/// A relationship pattern.
pub open spec fn rel(r: RelPatternModel) -> Seq<Sign> {
    match r.direction {
        Direction::Outgoing => mark(Symbol::Minus) + rel_body(r) + mark(Symbol::Minus) + mark(
            Symbol::Greater,
        ),
        Direction::Incoming => mark(Symbol::Less) + mark(Symbol::Minus) + rel_body(r) + mark(
            Symbol::Minus,
        ),
        Direction::Both => mark(Symbol::Minus) + rel_body(r) + mark(Symbol::Minus),
    }
}

/// The hops from position `i` on.
pub open spec fn hops(rest: Seq<(RelPatternModel, NodePatternModel)>, i: int) -> Seq<Sign>
    decreases rest.len() - i,
{
    if i < 0 || i >= rest.len() {
        Seq::empty()
    } else {
        rel(rest[i].0) + node(rest[i].1) + hops(rest, i + 1)
    }
}

/// A path.
pub open spec fn path(p: PathModel) -> Seq<Sign> {
    node(p.start) + hops(p.rest, 0)
}

/// The paths from position `i` on, with commas between them.
pub open spec fn paths(ps: Seq<PathModel>, i: int) -> Seq<Sign>
    decreases ps.len() - i,
{
    if i < 0 || i >= ps.len() {
        Seq::empty()
    } else if i + 1 == ps.len() {
        path(ps[i])
    } else {
        path(ps[i]) + mark(Symbol::Comma) + paths(ps, i + 1)
    }
}

// ---- Expressions -------------------------------------------------------------------

/// A comparison operator.
pub open spec fn operator(op: CmpOp) -> Seq<Sign> {
    match op {
        CmpOp::Eq => mark(Symbol::Equal),
        CmpOp::Neq => mark(Symbol::NotEqual),
        CmpOp::Lt => mark(Symbol::Less),
        CmpOp::Lte => mark(Symbol::LessEqual),
        CmpOp::Gt => mark(Symbol::Greater),
        CmpOp::Gte => mark(Symbol::GreaterEqual),
        CmpOp::Contains => key("contains"@),
        CmpOp::StartsWith => key("starts"@) + key("with"@),
        CmpOp::EndsWith => key("ends"@) + key("with"@),
        CmpOp::In => key("in"@),
    }
}

/// The name of an aggregate function.
pub open spec fn function(func: AggFn) -> Text {
    match func {
        AggFn::Count => "count"@,
        AggFn::Collect => "collect"@,
        AggFn::Min => "min"@,
        AggFn::Max => "max"@,
        AggFn::Sum => "sum"@,
        AggFn::Avg => "avg"@,
    }
}

/// How tightly an expression holds together: `OR` the least, then `AND`, `NOT`, comparisons, and
/// everything else.
pub open spec fn strength(e: ExprModel) -> int {
    match e {
        ExprModel::Or(_, _) => 0,
        ExprModel::And(_, _) => 1,
        ExprModel::Not(_) => 2,
        ExprModel::Compare(_, _, _) => 3,
        ExprModel::IsNull(_, _) => 3,
        _ => 4,
    }
}

/// The steps that it takes to write an expression where one of some strength is wanted.
pub open spec fn steps(e: ExprModel, least: int) -> int {
    if strength(e) < least {
        1
    } else {
        0
    }
}

/// An expression where one of at least some strength is wanted: in parentheses if it is weaker.
pub open spec fn expr(e: ExprModel, least: int) -> Seq<Sign>
    decreases e, steps(e, least), 1nat,
{
    if strength(e) < least {
        mark(Symbol::LParen) + expr(e, 0) + mark(Symbol::RParen)
    } else {
        bare(e)
    }
}

/// An expression without parentheses around it. `AND` and `OR` group to the left.
#[verifier::opaque]
pub open spec fn bare(e: ExprModel) -> Seq<Sign>
    decreases e, 0int, 0nat,
{
    match e {
        ExprModel::Var(v) => name(v),
        ExprModel::Property(v, p) => name(v) + mark(Symbol::Dot) + name(p),
        ExprModel::Literal(l) => literal(l),
        ExprModel::List(items) => mark(Symbol::LBracket) + exprs(items, 0) + mark(
            Symbol::RBracket,
        ),
        ExprModel::Or(x, y) => expr(*x, 0) + key("or"@) + expr(*y, 1),
        ExprModel::And(x, y) => expr(*x, 1) + key("and"@) + expr(*y, 2),
        ExprModel::Not(x) => key("not"@) + expr(*x, 2),
        ExprModel::Compare(x, op, y) => expr(*x, 4) + operator(op) + expr(*y, 4),
        ExprModel::IsNull(x, negated) => expr(*x, 4) + key("is"@) + (if negated {
            key("not"@)
        } else {
            Seq::empty()
        }) + key("null"@),
        ExprModel::Function { name: f, args } => name(f) + mark(Symbol::LParen) + exprs(args, 0)
            + mark(Symbol::RParen),
        ExprModel::Aggregate { func, arg, distinct } => key(function(func)) + mark(Symbol::LParen)
            + (match arg {
            None => mark(Symbol::Star),
            Some(x) => (if distinct {
                key("distinct"@)
            } else {
                Seq::empty()
            }) + expr(*x, 0),
        }) + mark(Symbol::RParen),
        ExprModel::Exists { patterns, where_clause } => key("exists"@) + mark(Symbol::LBrace)
            + paths(patterns, 0) + (match where_clause {
            None => Seq::empty(),
            Some(x) => key("where"@) + expr(*x, 0),
        }) + mark(Symbol::RBrace),
        ExprModel::Case { operand, branches, default } => key("case"@) + (match operand {
            None => Seq::empty(),
            Some(x) => expr(*x, 0),
        }) + cases(branches, 0) + (match default {
            None => Seq::empty(),
            Some(x) => key("else"@) + expr(*x, 0),
        }) + key("end"@),
        ExprModel::MapProjection { var, entries: es } => name(var) + mark(Symbol::LBrace)
            + entries(es, 0) + mark(Symbol::RBrace),
    }
}

/// The expressions from position `i` on, with commas between them.
pub open spec fn exprs(items: Seq<ExprModel>, i: int) -> Seq<Sign>
    decreases items, items.len() - i, 0nat,
{
    if i < 0 || i >= items.len() {
        Seq::empty()
    } else if i + 1 == items.len() {
        expr(items[i], 0)
    } else {
        expr(items[i], 0) + mark(Symbol::Comma) + exprs(items, i + 1)
    }
}

/// The branches of a `CASE` from position `i` on.
pub open spec fn cases(branches: Seq<(ExprModel, ExprModel)>, i: int) -> Seq<Sign>
    decreases branches, branches.len() - i, 0nat,
{
    if i < 0 || i >= branches.len() {
        Seq::empty()
    } else {
        key("when"@) + expr(branches[i].0, 0) + key("then"@) + expr(branches[i].1, 0) + cases(
            branches,
            i + 1,
        )
    }
}

/// The entries of a map projection from position `i` on, with commas between them.
pub open spec fn entries(es: Seq<MapEntryModel>, i: int) -> Seq<Sign>
    decreases es, es.len() - i, 0nat,
{
    if i < 0 || i >= es.len() {
        Seq::empty()
    } else if i + 1 == es.len() {
        entry(es[i])
    } else {
        entry(es[i]) + mark(Symbol::Comma) + entries(es, i + 1)
    }
}

/// An entry of a map projection.
pub open spec fn entry(e: MapEntryModel) -> Seq<Sign>
    decreases e, 0int, 0nat,
{
    match e {
        MapEntryModel::Property(p) => mark(Symbol::Dot) + name(p),
        MapEntryModel::Literal(k, x) => name(k) + mark(Symbol::Colon) + expr(x, 0),
    }
}

// ---- Clauses -----------------------------------------------------------------------

/// The items of a projection from position `i` on, with commas between them.
pub open spec fn items(its: Seq<ItemModel>, i: int) -> Seq<Sign>
    decreases its.len() - i,
{
    if i < 0 || i >= its.len() {
        Seq::empty()
    } else if i + 1 == its.len() {
        item(its[i])
    } else {
        item(its[i]) + mark(Symbol::Comma) + items(its, i + 1)
    }
}

/// An item of a projection.
pub open spec fn item(it: ItemModel) -> Seq<Sign> {
    expr(it.expr, 0) + match it.alias {
        None => Seq::empty(),
        Some(a) => key("as"@) + name(a),
    }
}

/// The expressions to sort by from position `i` on, with commas between them.
pub open spec fn orders(os: Seq<OrderModel>, i: int) -> Seq<Sign>
    decreases os.len() - i,
{
    if i < 0 || i >= os.len() {
        Seq::empty()
    } else if i + 1 == os.len() {
        order(os[i])
    } else {
        order(os[i]) + mark(Symbol::Comma) + orders(os, i + 1)
    }
}

/// An expression to sort by.
pub open spec fn order(o: OrderModel) -> Seq<Sign> {
    expr(o.expr, 0) + if o.descending {
        key("desc"@)
    } else {
        Seq::empty()
    }
}

/// A number behind a word, if there is one.
pub open spec fn opt_number(word: Text, n: Option<nat>) -> Seq<Sign> {
    match n {
        None => Seq::empty(),
        Some(m) => key(word) + count(m),
    }
}

/// A projection.
pub open spec fn projection(p: ProjectionModel) -> Seq<Sign> {
    (if p.distinct {
        key("distinct"@)
    } else {
        Seq::empty()
    }) + (if p.star {
        mark(Symbol::Star)
    } else {
        items(p.items, 0)
    }) + (if p.order_by.len() == 0 {
        Seq::empty()
    } else {
        key("order"@) + key("by"@) + orders(p.order_by, 0)
    }) + opt_number("skip"@, p.skip) + opt_number("limit"@, p.limit)
}

/// A `WHERE`, if there is one.
pub open spec fn opt_where(e: Option<ExprModel>) -> Seq<Sign> {
    match e {
        None => Seq::empty(),
        Some(x) => key("where"@) + expr(x, 0),
    }
}

/// A clause.
pub open spec fn clause(c: ClauseModel) -> Seq<Sign> {
    match c {
        ClauseModel::Match { optional, patterns, where_clause } => (if optional {
            key("optional"@)
        } else {
            Seq::empty()
        }) + key("match"@) + paths(patterns, 0) + opt_where(where_clause),
        ClauseModel::Unwind { expr: e, var } => key("unwind"@) + expr(e, 0) + key("as"@) + name(var),
        ClauseModel::With { projection: p, where_clause } => key("with"@) + projection(p)
            + opt_where(where_clause),
    }
}

/// The clauses from position `i` on.
pub open spec fn clauses(cs: Seq<ClauseModel>, i: int) -> Seq<Sign>
    decreases cs.len() - i,
{
    if i < 0 || i >= cs.len() {
        Seq::empty()
    } else {
        clause(cs[i]) + clauses(cs, i + 1)
    }
}

/// A query.
pub open spec fn query(q: QueryModel) -> Seq<Sign> {
    clauses(q.clauses, 0) + key("return"@) + projection(q.result)
}

// ---- What can be written -------------------------------------------------------------

/// The keywords, in lower case, which cannot name a variable.
#[verifier::opaque]
pub open spec fn keyword(word: Text) -> bool {
    seq![
        "match"@, "optional"@, "where"@, "return"@, "with"@, "unwind"@, "as"@, "distinct"@,
        "order"@, "by"@, "skip"@, "limit"@, "asc"@, "desc"@, "and"@, "or"@, "not"@, "in"@, "is"@,
        "null"@, "true"@, "false"@, "contains"@, "starts"@, "ends"@, "case"@, "when"@, "then"@,
        "else"@, "end"@, "exists"@,
    ].contains(word)
}

/// Whether a word can name a variable: it is no keyword, whatever its case.
pub open spec fn free(word: Text) -> bool {
    !keyword(ascii_lower(word))
}

/// Whether a variable, if there is one, has a free name.
pub open spec fn opt_free(word: Option<Text>) -> bool {
    word matches Some(w) ==> free(w)
}

/// Whether a path can be written.
pub open spec fn path_ok(p: PathModel) -> bool {
    &&& opt_free(p.start.var)
    &&& forall|i: int|
        #![trigger p.rest[i]]
        0 <= i < p.rest.len() ==> opt_free(p.rest[i].0.var) && opt_free(p.rest[i].1.var)
}

/// Whether paths can be written: there is at least one.
pub open spec fn paths_ok(ps: Seq<PathModel>) -> bool {
    &&& ps.len() > 0
    &&& forall|i: int| 0 <= i < ps.len() ==> path_ok(#[trigger] ps[i])
}

/// Whether an expression can be written: its variables and functions have free names, only `count`
/// has no argument, a `CASE` has a branch and a subquery a pattern.
pub open spec fn expr_ok(e: ExprModel) -> bool
    decreases e, 0int,
{
    match e {
        ExprModel::Var(v) => free(v),
        ExprModel::Property(v, p) => free(v),
        ExprModel::Literal(l) => true,
        ExprModel::List(its) => exprs_ok(its),
        ExprModel::Or(x, y) => expr_ok(*x) && expr_ok(*y),
        ExprModel::And(x, y) => expr_ok(*x) && expr_ok(*y),
        ExprModel::Not(x) => expr_ok(*x),
        ExprModel::Compare(x, op, y) => expr_ok(*x) && expr_ok(*y),
        ExprModel::IsNull(x, negated) => expr_ok(*x),
        ExprModel::Function { name: f, args } => free(f) && !aggregate_name(ascii_lower(f))
            && exprs_ok(args),
        ExprModel::Aggregate { func, arg, distinct } => match arg {
            None => func is Count && !distinct,
            Some(x) => expr_ok(*x),
        },
        ExprModel::Exists { patterns, where_clause } => paths_ok(patterns) && (
        where_clause matches Some(x) ==> expr_ok(*x)),
        ExprModel::Case { operand, branches, default } => branches.len() > 0 && cases_ok(branches)
            && (operand matches Some(x) ==> expr_ok(*x)) && (default matches Some(x) ==> expr_ok(
            *x,
        )),
        ExprModel::MapProjection { var, entries: es } => free(var) && entries_ok(es),
    }
}

/// Whether a name in lower case is that of an aggregate function.
#[verifier::opaque]
pub open spec fn aggregate_name(word: Text) -> bool {
    seq!["count"@, "collect"@, "min"@, "max"@, "sum"@, "avg"@].contains(word)
}

/// Whether expressions can be written.
pub open spec fn exprs_ok(its: Seq<ExprModel>) -> bool
    decreases its, 0int,
{
    forall|i: int| 0 <= i < its.len() ==> expr_ok(#[trigger] its[i])
}

/// Whether the branches of a `CASE` can be written.
pub open spec fn cases_ok(branches: Seq<(ExprModel, ExprModel)>) -> bool
    decreases branches, 0int,
{
    forall|i: int|
        0 <= i < branches.len() ==> expr_ok((#[trigger] branches[i]).0) && expr_ok(branches[i].1)
}

/// Whether the entries of a map projection can be written.
pub open spec fn entries_ok(es: Seq<MapEntryModel>) -> bool
    decreases es, 0int,
{
    forall|i: int| 0 <= i < es.len() ==> entry_ok(#[trigger] es[i])
}

/// Whether an entry of a map projection can be written.
pub open spec fn entry_ok(e: MapEntryModel) -> bool
    decreases e, 0int,
{
    match e {
        MapEntryModel::Property(p) => true,
        MapEntryModel::Literal(k, x) => expr_ok(x),
    }
}

/// Whether a number of rows fits a machine word.
pub open spec fn count_ok(n: Option<nat>) -> bool {
    n matches Some(m) ==> m <= usize::MAX
}

/// Whether a projection can be written: it has either a star or items.
pub open spec fn projection_ok(p: ProjectionModel) -> bool {
    &&& p.star <==> p.items.len() == 0
    &&& forall|i: int|
        0 <= i < p.items.len() ==> expr_ok((#[trigger] p.items[i]).expr) && opt_free(
            p.items[i].alias,
        )
    &&& forall|i: int| 0 <= i < p.order_by.len() ==> expr_ok((#[trigger] p.order_by[i]).expr)
    &&& count_ok(p.skip)
    &&& count_ok(p.limit)
}

/// Whether a condition, if there is one, can be written.
pub open spec fn where_ok(e: Option<ExprModel>) -> bool {
    e matches Some(x) ==> expr_ok(x)
}

/// Whether a clause can be written.
pub open spec fn clause_ok(c: ClauseModel) -> bool {
    match c {
        ClauseModel::Match { optional, patterns, where_clause } => paths_ok(patterns) && where_ok(
            where_clause,
        ),
        ClauseModel::Unwind { expr: e, var } => expr_ok(e) && free(var),
        ClauseModel::With { projection: p, where_clause } => projection_ok(p) && where_ok(
            where_clause,
        ),
    }
}

/// Whether a query can be written: it has a clause before its `RETURN`.
pub open spec fn query_ok(q: QueryModel) -> bool {
    &&& q.clauses.len() > 0
    &&& forall|i: int| 0 <= i < q.clauses.len() ==> clause_ok(#[trigger] q.clauses[i])
    &&& projection_ok(q.result)
}

} // verus!
