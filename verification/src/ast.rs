//! Abstract syntax tree for the supported subset of Cypher, with the mathematical model of each
//! node of the tree.

use vstd::prelude::*;

use crate::text::{lemma_texts_push, opt_text, texts, Text};

verus! {

/// A complete parsed query: reading clauses, then the terminal `RETURN`.
#[derive(Debug, Clone, PartialEq)]
pub struct Query {
    pub clauses: Vec<Clause>,
    pub result: Return,
}

/// A reading clause.
#[derive(Debug, Clone, PartialEq)]
pub enum Clause {
    Match(MatchClause),
    Unwind(UnwindClause),
    With(WithClause),
}

/// `MATCH` or `OPTIONAL MATCH` with one or more comma-separated path patterns.
#[derive(Debug, Clone, PartialEq)]
pub struct MatchClause {
    pub optional: bool,
    pub patterns: Vec<PathPattern>,
    pub where_clause: Option<Expr>,
}

/// `UNWIND expr AS var`.
#[derive(Debug, Clone, PartialEq)]
pub struct UnwindClause {
    pub expr: Expr,
    pub var: String,
}

/// `WITH projection [WHERE ...]`.
#[derive(Debug, Clone, PartialEq)]
pub struct WithClause {
    pub projection: Projection,
    pub where_clause: Option<Expr>,
}

/// What `WITH` and `RETURN` project, and how the projected rows are finished.
#[derive(Debug, Clone, PartialEq)]
pub struct Projection {
    pub distinct: bool,
    /// `*`: project every variable in scope. When set, `items` is empty.
    pub star: bool,
    pub items: Vec<ReturnItem>,
    pub order_by: Vec<OrderItem>,
    pub skip: Option<usize>,
    pub limit: Option<usize>,
}

/// The projection of the terminal `RETURN`.
pub type Return = Projection;

/// A path pattern: a starting node followed by zero or more relationship/node hops.
#[derive(Debug, PartialEq)]
pub struct PathPattern {
    pub start: NodePattern,
    pub rest: Vec<(RelPattern, NodePattern)>,
}

/// A node pattern such as `(c:Class {name: 'Foo'})` or `(c:Class|Module)`.
#[derive(Debug, PartialEq)]
pub struct NodePattern {
    pub var: Option<String>,
    /// Labels in a disjunction: a node matches if it has **any** of these labels. Empty means
    /// "any node".
    pub labels: Vec<String>,
    pub props: Vec<(String, Literal)>,
}

/// A relationship pattern such as `-[:INHERITS*1..3]->`.
#[derive(Debug, PartialEq)]
pub struct RelPattern {
    pub var: Option<String>,
    /// Relationship types; empty means "any type".
    pub types: Vec<String>,
    pub direction: Direction,
    /// Variable-length specification, if the pattern used `*`.
    pub length: Option<VarLength>,
}

/// The direction of a relationship pattern, seen from the node written before it.
#[derive(Debug, Clone, Copy, PartialEq, Eq, Structural)]
pub enum Direction {
    /// `-[]->`
    Outgoing,
    /// `<-[]-`
    Incoming,
    /// `-[]-`
    Both,
}

/// A variable-length relationship bound, from `*`, `*n`, `*min..`, `*..max`, or `*min..max`.
#[derive(Debug, Clone, Copy, PartialEq, Eq)]
pub struct VarLength {
    pub min: u32,
    pub max: Option<u32>,
}

/// A literal value.
#[derive(Debug, PartialEq)]
pub enum Literal {
    Str(String),
    Int(i64),
    Bool(bool),
    Null,
}

/// One item of a projection, with its alias if it has one.
#[derive(Debug, Clone, PartialEq)]
pub struct ReturnItem {
    pub expr: Expr,
    pub alias: Option<String>,
}

/// An expression.
#[derive(Debug, PartialEq)]
pub enum Expr {
    Var(String),
    Property(String, String),
    Literal(Literal),
    /// A list literal such as `['a', 'b']`.
    List(Vec<Expr>),
    Not(Box<Expr>),
    And(Box<Expr>, Box<Expr>),
    Or(Box<Expr>, Box<Expr>),
    Compare(Box<Expr>, CmpOp, Box<Expr>),
    /// `expr IS NULL` / `expr IS NOT NULL`; the bool is `true` when negated (`IS NOT NULL`).
    IsNull(Box<Expr>, bool),
    /// A scalar function call such as `toLower(c.name)` or `coalesce(a, b)`.
    Function { name: String, args: Vec<Expr> },
    Aggregate { func: AggFn, arg: Option<Box<Expr>>, distinct: bool },
    /// `EXISTS { [MATCH] pattern [WHERE ...] }`.
    Exists { patterns: Vec<PathPattern>, where_clause: Option<Box<Expr>> },
    /// `CASE x WHEN v THEN ...` (with an operand) or `CASE WHEN cond THEN ...` (without).
    Case { operand: Option<Box<Expr>>, branches: Vec<(Expr, Expr)>, default: Option<Box<Expr>> },
    /// A map projection `n { .prop, key: expr }`.
    MapProjection { var: String, entries: Vec<MapEntry> },
}

/// One entry of a map projection.
#[derive(Debug, PartialEq)]
pub enum MapEntry {
    /// `.prop`
    Property(String),
    /// `key: expr`
    Literal(String, Expr),
}

/// A comparison operator.
#[derive(Debug, Clone, Copy, PartialEq, Eq, Structural)]
pub enum CmpOp {
    Eq,
    Neq,
    Lt,
    Lte,
    Gt,
    Gte,
    Contains,
    StartsWith,
    EndsWith,
    In,
}

/// An aggregate function.
#[derive(Debug, Clone, Copy, PartialEq, Eq, Structural)]
pub enum AggFn {
    Count,
    Collect,
    Min,
    Max,
    Sum,
    Avg,
}

/// One expression to sort by, with its direction.
#[derive(Debug, Clone, PartialEq)]
pub struct OrderItem {
    pub expr: Expr,
    pub descending: bool,
}

// ---- Models ----------------------------------------------------------------

/// The model of a [`Literal`].
pub enum LiteralModel {
    Str(Text),
    Int(i64),
    Bool(bool),
    Null,
}

/// The model of a [`NodePattern`].
#[verifier::ext_equal]
pub struct NodePatternModel {
    pub var: Option<Text>,
    pub labels: Seq<Text>,
    pub props: Seq<(Text, LiteralModel)>,
}

/// The model of a [`RelPattern`].
#[verifier::ext_equal]
pub struct RelPatternModel {
    pub var: Option<Text>,
    pub types: Seq<Text>,
    pub direction: Direction,
    pub length: Option<VarLength>,
}

/// The model of a [`PathPattern`].
#[verifier::ext_equal]
pub struct PathModel {
    pub start: NodePatternModel,
    pub rest: Seq<(RelPatternModel, NodePatternModel)>,
}

/// The model of an [`Expr`].
pub enum ExprModel {
    Var(Text),
    Property(Text, Text),
    Literal(LiteralModel),
    List(Seq<ExprModel>),
    Not(Box<ExprModel>),
    And(Box<ExprModel>, Box<ExprModel>),
    Or(Box<ExprModel>, Box<ExprModel>),
    Compare(Box<ExprModel>, CmpOp, Box<ExprModel>),
    IsNull(Box<ExprModel>, bool),
    Function { name: Text, args: Seq<ExprModel> },
    Aggregate { func: AggFn, arg: Option<Box<ExprModel>>, distinct: bool },
    Exists { patterns: Seq<PathModel>, where_clause: Option<Box<ExprModel>> },
    Case {
        operand: Option<Box<ExprModel>>,
        branches: Seq<(ExprModel, ExprModel)>,
        default: Option<Box<ExprModel>>,
    },
    MapProjection { var: Text, entries: Seq<MapEntryModel> },
}

/// The model of a [`MapEntry`].
pub enum MapEntryModel {
    Property(Text),
    Literal(Text, ExprModel),
}

/// The model of a [`ReturnItem`].
pub struct ItemModel {
    pub expr: ExprModel,
    pub alias: Option<Text>,
}

/// The model of an [`OrderItem`].
pub struct OrderModel {
    pub expr: ExprModel,
    pub descending: bool,
}

/// The model of a [`Projection`].
#[verifier::ext_equal]
pub struct ProjectionModel {
    pub distinct: bool,
    pub star: bool,
    pub items: Seq<ItemModel>,
    pub order_by: Seq<OrderModel>,
    pub skip: Option<nat>,
    pub limit: Option<nat>,
}

/// The model of a [`Clause`].
pub enum ClauseModel {
    Match { optional: bool, patterns: Seq<PathModel>, where_clause: Option<ExprModel> },
    Unwind { expr: ExprModel, var: Text },
    With { projection: ProjectionModel, where_clause: Option<ExprModel> },
}

/// The model of a [`Query`].
#[verifier::ext_equal]
pub struct QueryModel {
    pub clauses: Seq<ClauseModel>,
    pub result: ProjectionModel,
}

impl Literal {
    /// The model of the literal.
    pub open spec fn view(&self) -> LiteralModel {
        match self {
            Literal::Str(s) => LiteralModel::Str(s@),
            Literal::Int(i) => LiteralModel::Int(*i),
            Literal::Bool(b) => LiteralModel::Bool(*b),
            Literal::Null => LiteralModel::Null,
        }
    }
}

/// The models of the property map of a node pattern.
pub open spec fn prop_models(props: Seq<(String, Literal)>) -> Seq<(Text, LiteralModel)> {
    Seq::new(props.len(), |i: int| (props[i].0@, props[i].1@))
}

impl NodePattern {
    /// The model of the node pattern.
    pub open spec fn view(&self) -> NodePatternModel {
        NodePatternModel {
            var: opt_text(self.var),
            labels: texts(self.labels@),
            props: prop_models(self.props@),
        }
    }
}

impl RelPattern {
    /// The model of the relationship pattern.
    pub open spec fn view(&self) -> RelPatternModel {
        RelPatternModel {
            var: opt_text(self.var),
            types: texts(self.types@),
            direction: self.direction,
            length: self.length,
        }
    }
}

/// The models of the hops of a path.
pub open spec fn hop_models(rest: Seq<(RelPattern, NodePattern)>) -> Seq<
    (RelPatternModel, NodePatternModel),
> {
    Seq::new(rest.len(), |i: int| (rest[i].0@, rest[i].1@))
}

impl PathPattern {
    /// The model of the path pattern.
    pub open spec fn view(&self) -> PathModel {
        PathModel { start: self.start@, rest: hop_models(self.rest@) }
    }
}

/// The models of a sequence of path patterns.
pub open spec fn path_models(paths: Seq<PathPattern>) -> Seq<PathModel> {
    Seq::new(paths.len(), |i: int| paths[i]@)
}

/// The models of a sequence of expressions.
pub open spec fn expr_models(exprs: Seq<Expr>) -> Seq<ExprModel>
    decreases exprs,
{
    Seq::new(
        exprs.len(),
        |i: int|
            if 0 <= i < exprs.len() {
                exprs[i].view()
            } else {
                ExprModel::Literal(LiteralModel::Null)
            },
    )
}

/// The model of an optional expression.
pub open spec fn opt_expr_model(e: Option<Box<Expr>>) -> Option<Box<ExprModel>>
    decreases e,
{
    match e {
        Some(b) => Some(Box::new((*b).view())),
        None => None,
    }
}

/// The models of the branches of a `CASE`.
pub open spec fn branch_models(branches: Seq<(Expr, Expr)>) -> Seq<(ExprModel, ExprModel)>
    decreases branches,
{
    Seq::new(
        branches.len(),
        |i: int|
            if 0 <= i < branches.len() {
                (branches[i].0.view(), branches[i].1.view())
            } else {
                (
                    ExprModel::Literal(LiteralModel::Null),
                    ExprModel::Literal(LiteralModel::Null),
                )
            },
    )
}

/// The models of the entries of a map projection.
pub open spec fn map_entry_models(entries: Seq<MapEntry>) -> Seq<MapEntryModel>
    decreases entries,
{
    Seq::new(
        entries.len(),
        |i: int|
            if 0 <= i < entries.len() {
                entries[i].view()
            } else {
                MapEntryModel::Property(Seq::empty())
            },
    )
}

impl MapEntry {
    /// The model of the entry.
    pub open spec fn view(&self) -> MapEntryModel
        decreases self,
    {
        match self {
            MapEntry::Property(p) => MapEntryModel::Property(p@),
            MapEntry::Literal(k, e) => MapEntryModel::Literal(k@, e.view()),
        }
    }
}

impl Expr {
    /// The model of the expression.
    pub open spec fn view(&self) -> ExprModel
        decreases self,
    {
        match self {
            Expr::Var(v) => ExprModel::Var(v@),
            Expr::Property(v, p) => ExprModel::Property(v@, p@),
            Expr::Literal(l) => ExprModel::Literal(l@),
            Expr::List(items) => ExprModel::List(expr_models(items@)),
            Expr::Not(e) => ExprModel::Not(Box::new(e.view())),
            Expr::And(a, b) => ExprModel::And(Box::new(a.view()), Box::new(b.view())),
            Expr::Or(a, b) => ExprModel::Or(Box::new(a.view()), Box::new(b.view())),
            Expr::Compare(a, op, b) => ExprModel::Compare(
                Box::new(a.view()),
                *op,
                Box::new(b.view()),
            ),
            Expr::IsNull(e, negated) => ExprModel::IsNull(Box::new(e.view()), *negated),
            Expr::Function { name, args } => ExprModel::Function {
                name: name@,
                args: expr_models(args@),
            },
            Expr::Aggregate { func, arg, distinct } => ExprModel::Aggregate {
                func: *func,
                arg: opt_expr_model(*arg),
                distinct: *distinct,
            },
            Expr::Exists { patterns, where_clause } => ExprModel::Exists {
                patterns: path_models(patterns@),
                where_clause: opt_expr_model(*where_clause),
            },
            Expr::Case { operand, branches, default } => ExprModel::Case {
                operand: opt_expr_model(*operand),
                branches: branch_models(branches@),
                default: opt_expr_model(*default),
            },
            Expr::MapProjection { var, entries } => ExprModel::MapProjection {
                var: var@,
                entries: map_entry_models(entries@),
            },
        }
    }
}

impl ReturnItem {
    /// The model of the item.
    pub open spec fn view(&self) -> ItemModel {
        ItemModel { expr: self.expr@, alias: opt_text(self.alias) }
    }
}

impl OrderItem {
    /// The model of the item.
    pub open spec fn view(&self) -> OrderModel {
        OrderModel { expr: self.expr@, descending: self.descending }
    }
}

/// The models of a sequence of projection items.
pub open spec fn item_models(items: Seq<ReturnItem>) -> Seq<ItemModel> {
    Seq::new(items.len(), |i: int| items[i]@)
}

/// The models of a sequence of ordering items.
pub open spec fn order_models(items: Seq<OrderItem>) -> Seq<OrderModel> {
    Seq::new(items.len(), |i: int| items[i]@)
}

/// The model of an optional count.
pub open spec fn opt_nat(n: Option<usize>) -> Option<nat> {
    match n {
        Some(k) => Some(k as nat),
        None => None,
    }
}

/// The model of an optional predicate.
pub open spec fn opt_model(e: Option<Expr>) -> Option<ExprModel> {
    match e {
        Some(x) => Some(x@),
        None => None,
    }
}

impl Projection {
    /// The model of the projection.
    pub open spec fn view(&self) -> ProjectionModel {
        ProjectionModel {
            distinct: self.distinct,
            star: self.star,
            items: item_models(self.items@),
            order_by: order_models(self.order_by@),
            skip: opt_nat(self.skip),
            limit: opt_nat(self.limit),
        }
    }
}

impl MatchClause {
    /// The model of the clause.
    pub open spec fn view(&self) -> ClauseModel {
        ClauseModel::Match {
            optional: self.optional,
            patterns: path_models(self.patterns@),
            where_clause: opt_model(self.where_clause),
        }
    }
}

impl UnwindClause {
    /// The model of the clause.
    pub open spec fn view(&self) -> ClauseModel {
        ClauseModel::Unwind { expr: self.expr@, var: self.var@ }
    }
}

impl WithClause {
    /// The model of the clause.
    pub open spec fn view(&self) -> ClauseModel {
        ClauseModel::With {
            projection: self.projection@,
            where_clause: opt_model(self.where_clause),
        }
    }
}

impl Clause {
    /// The model of the clause.
    pub open spec fn view(&self) -> ClauseModel {
        match self {
            Clause::Match(m) => m@,
            Clause::Unwind(u) => u@,
            Clause::With(w) => w@,
        }
    }
}

/// The models of a sequence of clauses.
pub open spec fn clause_models(clauses: Seq<Clause>) -> Seq<ClauseModel> {
    Seq::new(clauses.len(), |i: int| clauses[i]@)
}

impl Query {
    /// The model of the query.
    pub open spec fn view(&self) -> QueryModel {
        QueryModel { clauses: clause_models(self.clauses@), result: self.result@ }
    }
}


/// The models grow with the property map.
pub proof fn lemma_prop_models_push(s: Seq<(String, Literal)>, x: (String, Literal))
    ensures
        prop_models(s.push(x)) == prop_models(s).push((x.0@, x.1@)),
{
    assert forall|k: int| 0 <= k < s.len() implies prop_models(s.push(x))[k]
        == #[trigger] prop_models(s)[k] by {
        assert(s.push(x)[k] == s[k]);
    }
    assert(prop_models(s.push(x)) =~= prop_models(s).push((x.0@, x.1@)));
}

/// The models grow with the path.
pub proof fn lemma_hop_models_push(s: Seq<(RelPattern, NodePattern)>, x: (RelPattern, NodePattern))
    ensures
        hop_models(s.push(x)) == hop_models(s).push((x.0@, x.1@)),
{
    assert forall|k: int| 0 <= k < s.len() implies hop_models(s.push(x))[k]
        == #[trigger] hop_models(s)[k] by {
        assert(s.push(x)[k] == s[k]);
    }
    assert(hop_models(s.push(x)) =~= hop_models(s).push((x.0@, x.1@)));
}

/// The models grow with the list of paths.
pub proof fn lemma_path_models_push(s: Seq<PathPattern>, x: PathPattern)
    ensures
        path_models(s.push(x)) == path_models(s).push(x@),
{
    assert forall|k: int| 0 <= k < s.len() implies path_models(s.push(x))[k]
        == #[trigger] path_models(s)[k] by {
        assert(s.push(x)[k] == s[k]);
    }
    assert(path_models(s.push(x)) =~= path_models(s).push(x@));
}

/// The models grow with the list of items.
pub proof fn lemma_item_models_push(s: Seq<ReturnItem>, x: ReturnItem)
    ensures
        item_models(s.push(x)) == item_models(s).push(x@),
{
    assert forall|k: int| 0 <= k < s.len() implies item_models(s.push(x))[k]
        == #[trigger] item_models(s)[k] by {
        assert(s.push(x)[k] == s[k]);
    }
    assert(item_models(s.push(x)) =~= item_models(s).push(x@));
}

/// The models grow with the list of items.
pub proof fn lemma_order_models_push(s: Seq<OrderItem>, x: OrderItem)
    ensures
        order_models(s.push(x)) == order_models(s).push(x@),
{
    assert forall|k: int| 0 <= k < s.len() implies order_models(s.push(x))[k]
        == #[trigger] order_models(s)[k] by {
        assert(s.push(x)[k] == s[k]);
    }
    assert(order_models(s.push(x)) =~= order_models(s).push(x@));
}

/// The models grow with the list of clauses.
pub proof fn lemma_clause_models_push(s: Seq<Clause>, x: Clause)
    ensures
        clause_models(s.push(x)) == clause_models(s).push(x@),
{
    assert forall|k: int| 0 <= k < s.len() implies clause_models(s.push(x))[k]
        == #[trigger] clause_models(s)[k] by {
        assert(s.push(x)[k] == s[k]);
    }
    assert(clause_models(s.push(x)) =~= clause_models(s).push(x@));
}

// ---- Copies ------------------------------------------------------------------

/// A copy of a list of strings.
pub fn clone_strings(names: &Vec<String>) -> (r: Vec<String>)
    ensures
        texts(r@) == texts(names@),
{
    let mut out: Vec<String> = Vec::new();
    let mut i: usize = 0;
    while i < names.len()
        invariant
            i <= names@.len(),
            texts(out@) == texts(names@).take(i as int),
        decreases names@.len() - i,
    {
        let name = names[i].clone();
        proof {
            lemma_texts_push(out@, name);
        }
        out.push(name);
        i += 1;
        assert(texts(out@) =~= texts(names@).take(i as int));
    }
    assert(texts(names@).take(i as int) =~= texts(names@));
    out
}

/// A copy of an optional string.
pub fn clone_opt_string(name: &Option<String>) -> (r: Option<String>)
    ensures
        opt_text(r) == opt_text(*name),
{
    match name {
        Some(s) => Some(s.clone()),
        None => None,
    }
}

impl Clone for Literal {
    fn clone(&self) -> (r: Self)
        ensures
            r@ == self@,
    {
        match self {
            Literal::Str(s) => Literal::Str(s.clone()),
            Literal::Int(i) => Literal::Int(*i),
            Literal::Bool(b) => Literal::Bool(*b),
            Literal::Null => Literal::Null,
        }
    }
}

impl Clone for NodePattern {
    fn clone(&self) -> (r: Self)
        ensures
            r@ == self@,
    {
        let mut props: Vec<(String, Literal)> = Vec::new();
        let mut i: usize = 0;
        while i < self.props.len()
            invariant
                i <= self.props@.len(),
                prop_models(props@) == prop_models(self.props@).take(i as int),
            decreases self.props@.len() - i,
        {
            let prop = (self.props[i].0.clone(), self.props[i].1.clone());
            proof {
                lemma_prop_models_push(props@, prop);
            }
            props.push(prop);
            i += 1;
            assert(prop_models(props@) =~= prop_models(self.props@).take(i as int));
        }
        assert(prop_models(self.props@).take(i as int) =~= prop_models(self.props@));
        NodePattern {
            var: clone_opt_string(&self.var),
            labels: clone_strings(&self.labels),
            props,
        }
    }
}

impl Clone for RelPattern {
    fn clone(&self) -> (r: Self)
        ensures
            r@ == self@,
    {
        RelPattern {
            var: clone_opt_string(&self.var),
            types: clone_strings(&self.types),
            direction: self.direction,
            length: self.length,
        }
    }
}

impl Clone for PathPattern {
    fn clone(&self) -> (r: Self)
        ensures
            r@ == self@,
    {
        let mut rest: Vec<(RelPattern, NodePattern)> = Vec::new();
        let mut i: usize = 0;
        while i < self.rest.len()
            invariant
                i <= self.rest@.len(),
                hop_models(rest@) == hop_models(self.rest@).take(i as int),
            decreases self.rest@.len() - i,
        {
            let hop = (self.rest[i].0.clone(), self.rest[i].1.clone());
            proof {
                lemma_hop_models_push(rest@, hop);
            }
            rest.push(hop);
            i += 1;
            assert(hop_models(rest@) =~= hop_models(self.rest@).take(i as int));
        }
        assert(hop_models(self.rest@).take(i as int) =~= hop_models(self.rest@));
        PathPattern { start: self.start.clone(), rest }
    }
}

/// A list's model grows with the list.
pub proof fn lemma_expr_models_push(exprs: Seq<Expr>, e: Expr)
    ensures
        expr_models(exprs.push(e)) == expr_models(exprs).push(e@),
{
    assert forall|k: int| 0 <= k < exprs.len() implies expr_models(exprs.push(e))[k]
        == #[trigger] expr_models(exprs)[k] by {
        assert(exprs.push(e)[k] == exprs[k]);
    }
    assert(expr_models(exprs.push(e)) =~= expr_models(exprs).push(e@));
}

/// The model of the branches grows with the branches.
pub proof fn lemma_branch_models_push(branches: Seq<(Expr, Expr)>, b: (Expr, Expr))
    ensures
        branch_models(branches.push(b)) == branch_models(branches).push((b.0@, b.1@)),
{
    assert forall|k: int| 0 <= k < branches.len() implies branch_models(branches.push(b))[k]
        == #[trigger] branch_models(branches)[k] by {
        assert(branches.push(b)[k] == branches[k]);
    }
    assert(branch_models(branches.push(b)) =~= branch_models(branches).push((b.0@, b.1@)));
}

/// The model of the entries grows with the entries.
pub proof fn lemma_map_entry_models_push(entries: Seq<MapEntry>, e: MapEntry)
    ensures
        map_entry_models(entries.push(e)) == map_entry_models(entries).push(e@),
{
    assert forall|k: int| 0 <= k < entries.len() implies map_entry_models(entries.push(e))[k]
        == #[trigger] map_entry_models(entries)[k] by {
        assert(entries.push(e)[k] == entries[k]);
    }
    assert(map_entry_models(entries.push(e)) =~= map_entry_models(entries).push(e@));
}

/// A copy of a list of expressions.
fn copy_exprs(exprs: &Vec<Expr>) -> (r: Vec<Expr>)
    ensures
        expr_models(r@) == expr_models(exprs@),
    decreases exprs, 0int,
{
    let mut out: Vec<Expr> = Vec::new();
    let mut i: usize = 0;
    while i < exprs.len()
        invariant
            i <= exprs@.len(),
            expr_models(out@) == expr_models(exprs@).take(i as int),
        decreases exprs@.len() - i,
    {
        let e = exprs[i].copy();
        proof {
            lemma_expr_models_push(out@, e);
        }
        out.push(e);
        i += 1;
        assert(expr_models(out@) =~= expr_models(exprs@).take(i as int));
    }
    assert(expr_models(exprs@).take(i as int) =~= expr_models(exprs@));
    out
}

/// A copy of an optional expression.
fn copy_opt_expr(e: &Option<Box<Expr>>) -> (r: Option<Box<Expr>>)
    ensures
        opt_expr_model(r) == opt_expr_model(*e),
    decreases e, 0int,
{
    match e {
        Some(x) => Some(Box::new(x.copy())),
        None => None,
    }
}

impl MapEntry {
    /// A copy of the entry.
    fn copy(&self) -> (r: MapEntry)
        ensures
            r@ == self@,
        decreases self, 1int,
    {
        match self {
            MapEntry::Property(p) => MapEntry::Property(p.clone()),
            MapEntry::Literal(k, e) => MapEntry::Literal(k.clone(), e.copy()),
        }
    }
}

impl Expr {
    /// A copy of the expression.
    fn copy(&self) -> (r: Expr)
        ensures
            r@ == self@,
        decreases self, 1int,
    {
        match self {
            Expr::Var(v) => Expr::Var(v.clone()),
            Expr::Property(v, p) => Expr::Property(v.clone(), p.clone()),
            Expr::Literal(l) => Expr::Literal(l.clone()),
            Expr::List(items) => Expr::List(copy_exprs(items)),
            Expr::Not(e) => Expr::Not(Box::new(e.copy())),
            Expr::And(a, b) => Expr::And(Box::new(a.copy()), Box::new(b.copy())),
            Expr::Or(a, b) => Expr::Or(Box::new(a.copy()), Box::new(b.copy())),
            Expr::Compare(a, op, b) => Expr::Compare(
                Box::new(a.copy()),
                *op,
                Box::new(b.copy()),
            ),
            Expr::IsNull(e, negated) => Expr::IsNull(Box::new(e.copy()), *negated),
            Expr::Function { name, args } => Expr::Function {
                name: name.clone(),
                args: copy_exprs(args),
            },
            Expr::Aggregate { func, arg, distinct } => Expr::Aggregate {
                func: *func,
                arg: copy_opt_expr(arg),
                distinct: *distinct,
            },
            Expr::Exists { patterns, where_clause } => {
                let mut copied: Vec<PathPattern> = Vec::new();
                let mut i: usize = 0;
                while i < patterns.len()
                    invariant
                        i <= patterns@.len(),
                        path_models(copied@) == path_models(patterns@).take(i as int),
                    decreases patterns@.len() - i,
                {
                    let path = patterns[i].clone();
                    proof {
                        lemma_path_models_push(copied@, path);
                    }
                    copied.push(path);
                    i += 1;
                    assert(path_models(copied@) =~= path_models(patterns@).take(i as int));
                }
                assert(path_models(patterns@).take(i as int) =~= path_models(patterns@));
                Expr::Exists { patterns: copied, where_clause: copy_opt_expr(where_clause) }
            },
            Expr::Case { operand, branches, default } => {
                let mut copied: Vec<(Expr, Expr)> = Vec::new();
                let mut i: usize = 0;
                while i < branches.len()
                    invariant
                        i <= branches@.len(),
                        self is Case,
                        self->branches == *branches,
                        branch_models(copied@) == branch_models(branches@).take(i as int),
                    decreases branches@.len() - i,
                {
                    proof {
                        assert(decreases_to!(self => self->branches));
                    }
                    let b = (branches[i].0.copy(), branches[i].1.copy());
                    proof {
                        lemma_branch_models_push(copied@, b);
                    }
                    copied.push(b);
                    i += 1;
                    assert(branch_models(copied@) =~= branch_models(branches@).take(i as int));
                }
                assert(branch_models(branches@).take(i as int) =~= branch_models(branches@));
                Expr::Case {
                    operand: copy_opt_expr(operand),
                    branches: copied,
                    default: copy_opt_expr(default),
                }
            },
            Expr::MapProjection { var, entries } => {
                let mut copied: Vec<MapEntry> = Vec::new();
                let mut i: usize = 0;
                while i < entries.len()
                    invariant
                        i <= entries@.len(),
                        self is MapProjection,
                        self->entries == *entries,
                        map_entry_models(copied@) == map_entry_models(entries@).take(i as int),
                    decreases entries@.len() - i,
                {
                    proof {
                        assert(decreases_to!(self => self->entries));
                    }
                    let e = entries[i].copy();
                    proof {
                        lemma_map_entry_models_push(copied@, e);
                    }
                    copied.push(e);
                    i += 1;
                    assert(map_entry_models(copied@) =~= map_entry_models(entries@).take(
                        i as int,
                    ));
                }
                assert(map_entry_models(entries@).take(i as int) =~= map_entry_models(entries@));
                Expr::MapProjection { var: var.clone(), entries: copied }
            },
        }
    }
}

impl Clone for MapEntry {
    fn clone(&self) -> (r: Self)
        ensures
            r@ == self@,
    {
        self.copy()
    }
}

impl Clone for Expr {
    fn clone(&self) -> (r: Self)
        ensures
            r@ == self@,
    {
        self.copy()
    }
}

// ---- Equality ----------------------------------------------------------------

/// Whether two lists of strings are equal.
fn same_strings(a: &Vec<String>, b: &Vec<String>) -> (r: bool)
    ensures
        r == (texts(a@) == texts(b@)),
{
    if a.len() != b.len() {
        assert(texts(a@).len() != texts(b@).len());
        return false;
    }
    let mut i: usize = 0;
    while i < a.len()
        invariant
            i <= a@.len(),
            a@.len() == b@.len(),
            forall|k: int| 0 <= k < i ==> #[trigger] texts(a@)[k] == texts(b@)[k],
        decreases a@.len() - i,
    {
        if a[i] != b[i] {
            assert(texts(a@)[i as int] != texts(b@)[i as int]);
            return false;
        }
        i += 1;
    }
    assert(texts(a@) =~= texts(b@));
    true
}

/// Whether two optional strings are equal.
fn same_opt_string(a: &Option<String>, b: &Option<String>) -> (r: bool)
    ensures
        r == (opt_text(*a) == opt_text(*b)),
{
    match (a, b) {
        (Some(x), Some(y)) => *x == *y,
        (None, None) => true,
        _ => false,
    }
}

impl Literal {
    /// Whether two literals are equal.
    pub fn same(&self, other: &Literal) -> (r: bool)
        ensures
            r == (self@ == other@),
    {
        match (self, other) {
            (Literal::Str(a), Literal::Str(b)) => *a == *b,
            (Literal::Int(a), Literal::Int(b)) => *a == *b,
            (Literal::Bool(a), Literal::Bool(b)) => *a == *b,
            (Literal::Null, Literal::Null) => true,
            _ => false,
        }
    }
}

impl NodePattern {
    /// Whether two node patterns are equal.
    pub fn same(&self, other: &NodePattern) -> (r: bool)
        ensures
            r == (self@ == other@),
    {
        if !same_opt_string(&self.var, &other.var) || !same_strings(&self.labels, &other.labels) {
            return false;
        }
        if self.props.len() != other.props.len() {
            assert(prop_models(self.props@).len() != prop_models(other.props@).len());
            return false;
        }
        let mut i: usize = 0;
        while i < self.props.len()
            invariant
                i <= self.props@.len(),
                self.props@.len() == other.props@.len(),
                forall|k: int|
                    0 <= k < i ==> #[trigger] prop_models(self.props@)[k] == prop_models(
                        other.props@,
                    )[k],
            decreases self.props@.len() - i,
        {
            if self.props[i].0 != other.props[i].0 || !self.props[i].1.same(&other.props[i].1) {
                assert(prop_models(self.props@)[i as int] != prop_models(other.props@)[i as int]);
                return false;
            }
            i += 1;
        }
        assert(prop_models(self.props@) =~= prop_models(other.props@));
        true
    }
}

impl VarLength {
    /// Whether two bounds are equal.
    pub fn same(&self, other: &VarLength) -> (r: bool)
        ensures
            r == (*self == *other),
    {
        self.min == other.min && match (self.max, other.max) {
            (Some(a), Some(b)) => a == b,
            (None, None) => true,
            _ => false,
        }
    }
}

impl RelPattern {
    /// Whether two relationship patterns are equal.
    pub fn same(&self, other: &RelPattern) -> (r: bool)
        ensures
            r == (self@ == other@),
    {
        same_opt_string(&self.var, &other.var) && same_strings(&self.types, &other.types)
            && self.direction == other.direction && match (&self.length, &other.length) {
            (Some(a), Some(b)) => a.same(b),
            (None, None) => true,
            _ => false,
        }
    }
}

impl PathPattern {
    /// Whether two path patterns are equal.
    pub fn same(&self, other: &PathPattern) -> (r: bool)
        ensures
            r == (self@ == other@),
    {
        if !self.start.same(&other.start) {
            return false;
        }
        if self.rest.len() != other.rest.len() {
            assert(hop_models(self.rest@).len() != hop_models(other.rest@).len());
            return false;
        }
        let mut i: usize = 0;
        while i < self.rest.len()
            invariant
                i <= self.rest@.len(),
                self.rest@.len() == other.rest@.len(),
                forall|k: int|
                    0 <= k < i ==> #[trigger] hop_models(self.rest@)[k] == hop_models(
                        other.rest@,
                    )[k],
            decreases self.rest@.len() - i,
        {
            if !self.rest[i].0.same(&other.rest[i].0) || !self.rest[i].1.same(&other.rest[i].1) {
                assert(hop_models(self.rest@)[i as int] != hop_models(other.rest@)[i as int]);
                return false;
            }
            i += 1;
        }
        assert(hop_models(self.rest@) =~= hop_models(other.rest@));
        true
    }
}

/// Whether two lists of path patterns are equal.
fn same_paths(a: &Vec<PathPattern>, b: &Vec<PathPattern>) -> (r: bool)
    ensures
        r == (path_models(a@) == path_models(b@)),
{
    if a.len() != b.len() {
        assert(path_models(a@).len() != path_models(b@).len());
        return false;
    }
    let mut i: usize = 0;
    while i < a.len()
        invariant
            i <= a@.len(),
            a@.len() == b@.len(),
            forall|k: int| 0 <= k < i ==> #[trigger] path_models(a@)[k] == path_models(b@)[k],
        decreases a@.len() - i,
    {
        if !a[i].same(&b[i]) {
            assert(path_models(a@)[i as int] != path_models(b@)[i as int]);
            return false;
        }
        i += 1;
    }
    assert(path_models(a@) =~= path_models(b@));
    true
}

/// Whether two optional expressions are equal.
fn same_opt_expr(a: &Option<Box<Expr>>, b: &Option<Box<Expr>>) -> (r: bool)
    ensures
        r == (opt_expr_model(*a) == opt_expr_model(*b)),
    decreases a, 0int,
{
    match (a, b) {
        (Some(x), Some(y)) => x.same(y),
        (None, None) => true,
        _ => false,
    }
}

/// Whether two lists of expressions are equal.
fn same_exprs(a: &Vec<Expr>, b: &Vec<Expr>) -> (r: bool)
    ensures
        r == (expr_models(a@) == expr_models(b@)),
    decreases a, 0int,
{
    if a.len() != b.len() {
        assert(expr_models(a@).len() != expr_models(b@).len());
        return false;
    }
    let mut i: usize = 0;
    while i < a.len()
        invariant
            i <= a@.len(),
            a@.len() == b@.len(),
            forall|k: int| 0 <= k < i ==> #[trigger] expr_models(a@)[k] == expr_models(b@)[k],
        decreases a@.len() - i,
    {
        if !a[i].same(&b[i]) {
            assert(expr_models(a@)[i as int] != expr_models(b@)[i as int]);
            return false;
        }
        i += 1;
    }
    assert(expr_models(a@) =~= expr_models(b@));
    true
}

/// Whether the branches of two `CASE` expressions are equal.
fn same_branches(a: &Vec<(Expr, Expr)>, b: &Vec<(Expr, Expr)>) -> (r: bool)
    ensures
        r == (branch_models(a@) == branch_models(b@)),
    decreases a, 0int,
{
    if a.len() != b.len() {
        assert(branch_models(a@).len() != branch_models(b@).len());
        return false;
    }
    let mut i: usize = 0;
    while i < a.len()
        invariant
            i <= a@.len(),
            a@.len() == b@.len(),
            forall|k: int| 0 <= k < i ==> #[trigger] branch_models(a@)[k] == branch_models(b@)[k],
        decreases a@.len() - i,
    {
        if !a[i].0.same(&b[i].0) || !a[i].1.same(&b[i].1) {
            assert(branch_models(a@)[i as int] != branch_models(b@)[i as int]);
            return false;
        }
        i += 1;
    }
    assert(branch_models(a@) =~= branch_models(b@));
    true
}

/// Whether the entries of two map projections are equal.
fn same_entries(a: &Vec<MapEntry>, b: &Vec<MapEntry>) -> (r: bool)
    ensures
        r == (map_entry_models(a@) == map_entry_models(b@)),
    decreases a, 0int,
{
    if a.len() != b.len() {
        assert(map_entry_models(a@).len() != map_entry_models(b@).len());
        return false;
    }
    let mut i: usize = 0;
    while i < a.len()
        invariant
            i <= a@.len(),
            a@.len() == b@.len(),
            forall|k: int|
                0 <= k < i ==> #[trigger] map_entry_models(a@)[k] == map_entry_models(b@)[k],
        decreases a@.len() - i,
    {
        if !a[i].same(&b[i]) {
            assert(map_entry_models(a@)[i as int] != map_entry_models(b@)[i as int]);
            return false;
        }
        i += 1;
    }
    assert(map_entry_models(a@) =~= map_entry_models(b@));
    true
}

impl MapEntry {
    /// Whether two entries are equal.
    pub fn same(&self, other: &MapEntry) -> (r: bool)
        ensures
            r == (self@ == other@),
        decreases self, 1int,
    {
        match (self, other) {
            (MapEntry::Property(a), MapEntry::Property(b)) => *a == *b,
            (MapEntry::Literal(k, a), MapEntry::Literal(l, b)) => *k == *l && a.same(b),
            _ => false,
        }
    }
}

impl Expr {
    /// Whether two expressions are the same tree.
    pub fn same(&self, other: &Expr) -> (r: bool)
        ensures
            r == (self@ == other@),
        decreases self, 1int,
    {
        match (self, other) {
            (Expr::Var(a), Expr::Var(b)) => *a == *b,
            (Expr::Property(a, p), Expr::Property(b, q)) => *a == *b && *p == *q,
            (Expr::Literal(a), Expr::Literal(b)) => a.same(b),
            (Expr::List(a), Expr::List(b)) => same_exprs(a, b),
            (Expr::Not(a), Expr::Not(b)) => a.same(b),
            (Expr::And(a, c), Expr::And(b, d)) => a.same(b) && c.same(d),
            (Expr::Or(a, c), Expr::Or(b, d)) => a.same(b) && c.same(d),
            (Expr::Compare(a, op, c), Expr::Compare(b, oq, d)) => *op == *oq && a.same(b)
                && c.same(d),
            (Expr::IsNull(a, m), Expr::IsNull(b, n)) => *m == *n && a.same(b),
            (Expr::Function { name: m, args: a }, Expr::Function { name: n, args: b }) => *m == *n
                && same_exprs(a, b),
            (
                Expr::Aggregate { func: f, arg: a, distinct: m },
                Expr::Aggregate { func: g, arg: b, distinct: n },
            ) => *f == *g && *m == *n && same_opt_expr(a, b),
            (
                Expr::Exists { patterns: p, where_clause: a },
                Expr::Exists { patterns: q, where_clause: b },
            ) => same_paths(p, q) && same_opt_expr(a, b),
            (
                Expr::Case { operand: a, branches: p, default: c },
                Expr::Case { operand: b, branches: q, default: d },
            ) => same_opt_expr(a, b) && same_branches(p, q) && same_opt_expr(c, d),
            (
                Expr::MapProjection { var: v, entries: a },
                Expr::MapProjection { var: w, entries: b },
            ) => *v == *w && same_entries(a, b),
            _ => false,
        }
    }
}

} // verus!
