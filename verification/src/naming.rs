//! Column names and the search for aggregates: what a projection is called and whether it groups.

use vstd::prelude::*;

use crate::ast::{
    branch_models, expr_models, item_models, map_entry_models, opt_expr_model, AggFn, CmpOp, Expr,
    ExprModel, ItemModel, Literal, LiteralModel, MapEntry, MapEntryModel, Projection, ReturnItem,
};
use crate::text::{
    bool_text, int_text, join, lemma_join_push, lemma_texts_push, push_bool, push_int, push_text,
    texts, Text,
};

verus! {

/// The source form of a comparison operator.
pub open spec fn op_text(op: CmpOp) -> Text {
    match op {
        CmpOp::Eq => "="@,
        CmpOp::Neq => "<>"@,
        CmpOp::Lt => "<"@,
        CmpOp::Lte => "<="@,
        CmpOp::Gt => ">"@,
        CmpOp::Gte => ">="@,
        CmpOp::Contains => "CONTAINS"@,
        CmpOp::StartsWith => "STARTS WITH"@,
        CmpOp::EndsWith => "ENDS WITH"@,
        CmpOp::In => "IN"@,
    }
}

/// The source form of an aggregate function.
pub open spec fn agg_text(func: AggFn) -> Text {
    match func {
        AggFn::Count => "count"@,
        AggFn::Collect => "collect"@,
        AggFn::Min => "min"@,
        AggFn::Max => "max"@,
        AggFn::Sum => "sum"@,
        AggFn::Avg => "avg"@,
    }
}

/// The source form of a literal.
pub open spec fn literal_text(l: LiteralModel) -> Text {
    match l {
        LiteralModel::Str(s) => "'"@ + s + "'"@,
        LiteralModel::Int(i) => int_text(i as int),
        LiteralModel::Bool(b) => bool_text(b),
        LiteralModel::Null => "null"@,
    }
}

/// The name of an expression: its source form, with the body of a subquery left out.
pub open spec fn name_of(e: ExprModel) -> Text
    decreases e,
{
    match e {
        ExprModel::Var(v) => v,
        ExprModel::Property(v, p) => v + "."@ + p,
        ExprModel::Literal(l) => literal_text(l),
        ExprModel::List(items) => "["@ + join(names_of(items), ", "@) + "]"@,
        ExprModel::IsNull(inner, negated) => name_of(*inner) + (if negated {
            " IS NOT NULL"@
        } else {
            " IS NULL"@
        }),
        ExprModel::Function { name, args } => name + "("@ + join(names_of(args), ", "@) + ")"@,
        ExprModel::Not(inner) => "NOT "@ + name_of(*inner),
        ExprModel::And(a, b) => name_of(*a) + " AND "@ + name_of(*b),
        ExprModel::Or(a, b) => name_of(*a) + " OR "@ + name_of(*b),
        ExprModel::Compare(a, op, b) => name_of(*a) + " "@ + op_text(op) + " "@ + name_of(*b),
        ExprModel::Aggregate { func, arg, distinct } => agg_text(func) + "("@ + (if distinct {
            "DISTINCT "@
        } else {
            Seq::empty()
        }) + (match arg {
            Some(x) => name_of(*x),
            None => "*"@,
        }) + ")"@,
        ExprModel::Exists { .. } => "EXISTS { ... }"@,
        ExprModel::Case { operand, branches, default } => "CASE"@ + (match operand {
            Some(x) => " "@ + name_of(*x),
            None => Seq::empty(),
        }) + join(branch_names(branches), Seq::empty()) + (match default {
            Some(x) => " ELSE "@ + name_of(*x),
            None => Seq::empty(),
        }) + " END"@,
        ExprModel::MapProjection { var, entries } => var + " { "@ + join(
            entry_names(entries),
            ", "@,
        ) + " }"@,
    }
}

/// The names of a sequence of expressions.
pub open spec fn names_of(items: Seq<ExprModel>) -> Seq<Text>
    decreases items,
{
    Seq::new(
        items.len(),
        |i: int|
            if 0 <= i < items.len() {
                name_of(items[i])
            } else {
                Seq::empty()
            },
    )
}

/// The names of the branches of a `CASE`.
pub open spec fn branch_names(branches: Seq<(ExprModel, ExprModel)>) -> Seq<Text>
    decreases branches,
{
    Seq::new(
        branches.len(),
        |i: int|
            if 0 <= i < branches.len() {
                " WHEN "@ + name_of(branches[i].0) + " THEN "@ + name_of(branches[i].1)
            } else {
                Seq::empty()
            },
    )
}

/// The names of the entries of a map projection.
pub open spec fn entry_names(entries: Seq<MapEntryModel>) -> Seq<Text>
    decreases entries,
{
    Seq::new(
        entries.len(),
        |i: int|
            if 0 <= i < entries.len() {
                entry_name(entries[i])
            } else {
                Seq::empty()
            },
    )
}

/// The name of one entry of a map projection.
pub open spec fn entry_name(entry: MapEntryModel) -> Text
    decreases entry,
{
    match entry {
        MapEntryModel::Property(p) => "."@ + p,
        MapEntryModel::Literal(k, e) => k + ": "@ + name_of(e),
    }
}

/// Whether an expression holds an aggregate call. A subquery is closed: what stands inside it does
/// not make the expression around it an aggregate.
pub open spec fn has_aggregate(e: ExprModel) -> bool
    decreases e,
{
    match e {
        ExprModel::Aggregate { .. } => true,
        ExprModel::Not(inner) => has_aggregate(*inner),
        ExprModel::IsNull(inner, _) => has_aggregate(*inner),
        ExprModel::And(a, b) => has_aggregate(*a) || has_aggregate(*b),
        ExprModel::Or(a, b) => has_aggregate(*a) || has_aggregate(*b),
        ExprModel::Compare(a, _, b) => has_aggregate(*a) || has_aggregate(*b),
        ExprModel::List(items) => some_aggregate(items),
        ExprModel::Function { args, .. } => some_aggregate(args),
        ExprModel::Case { operand, branches, default } => {
            ||| (operand matches Some(x) && has_aggregate(*x))
            ||| branch_aggregate(branches)
            ||| (default matches Some(x) && has_aggregate(*x))
        },
        ExprModel::MapProjection { entries, .. } => entry_aggregate(entries),
        ExprModel::Var(_) => false,
        ExprModel::Property(_, _) => false,
        ExprModel::Literal(_) => false,
        ExprModel::Exists { .. } => false,
    }
}

/// Whether one of the expressions holds an aggregate call.
pub open spec fn some_aggregate(items: Seq<ExprModel>) -> bool
    decreases items,
{
    exists|i: int| 0 <= i < items.len() && has_aggregate(#[trigger] items[i])
}

/// Whether one of the branches of a `CASE` holds an aggregate call.
pub open spec fn branch_aggregate(branches: Seq<(ExprModel, ExprModel)>) -> bool
    decreases branches,
{
    exists|i: int|
        0 <= i < branches.len() && (has_aggregate((#[trigger] branches[i]).0) || has_aggregate(
            branches[i].1,
        ))
}

/// Whether one of the entries of a map projection holds an aggregate call.
pub open spec fn entry_aggregate(entries: Seq<MapEntryModel>) -> bool
    decreases entries,
{
    exists|i: int|
        0 <= i < entries.len() && ((#[trigger] entries[i]) matches MapEntryModel::Literal(_, x)
            && has_aggregate(x))
}

/// The output column of an item: its alias, or else the name of its expression.
pub open spec fn column_of(item: ItemModel) -> Text {
    match item.alias {
        Some(a) => a,
        None => name_of(item.expr),
    }
}

/// The output columns of the items of a projection.
pub open spec fn columns_of(items: Seq<ItemModel>) -> Seq<Text> {
    Seq::new(items.len(), |i: int| column_of(items[i]))
}

/// Whether a projection holds an aggregate and therefore groups its rows.
pub open spec fn aggregates(items: Seq<ItemModel>) -> bool {
    exists|i: int| 0 <= i < items.len() && has_aggregate((#[trigger] items[i]).expr)
}

impl CmpOp {
    /// The operator as it is written in a query.
    #[must_use]
    pub fn as_str(self) -> (r: &'static str)
        ensures
            r@ == op_text(self),
    {
        match self {
            CmpOp::Eq => "=",
            CmpOp::Neq => "<>",
            CmpOp::Lt => "<",
            CmpOp::Lte => "<=",
            CmpOp::Gt => ">",
            CmpOp::Gte => ">=",
            CmpOp::Contains => "CONTAINS",
            CmpOp::StartsWith => "STARTS WITH",
            CmpOp::EndsWith => "ENDS WITH",
            CmpOp::In => "IN",
        }
    }
}

impl AggFn {
    /// The function as it is written in a query.
    #[must_use]
    pub fn as_str(self) -> (r: &'static str)
        ensures
            r@ == agg_text(self),
    {
        match self {
            AggFn::Count => "count",
            AggFn::Collect => "collect",
            AggFn::Min => "min",
            AggFn::Max => "max",
            AggFn::Sum => "sum",
            AggFn::Avg => "avg",
        }
    }
}

impl Literal {
    /// Appends the source form of the literal.
    fn push_name(&self, out: &mut String)
        ensures
            final(out)@ == old(out)@ + literal_text(self@),
    {
        let ghost start = out@;
        match self {
            Literal::Str(s) => {
                push_text(out, "'");
                push_text(out, s.as_str());
                push_text(out, "'");
                assert(out@ =~= start + literal_text(self@));
            },
            Literal::Int(i) => push_int(out, *i),
            Literal::Bool(b) => push_bool(out, *b),
            Literal::Null => push_text(out, "null"),
        }
    }
}

/// Appends the names of a list of expressions, separated by commas.
fn push_names(items: &Vec<Expr>, out: &mut String)
    ensures
        final(out)@ == old(out)@ + join(names_of(expr_models(items@)), ", "@),
    decreases items, 0int,
{
    let ghost start = out@;
    let ghost parts = names_of(expr_models(items@));
    let mut i: usize = 0;
    assert(out@ =~= start + join(parts.take(0), ", "@));
    while i < items.len()
        invariant
            i <= items@.len(),
            parts == names_of(expr_models(items@)),
            out@ == start + join(parts.take(i as int), ", "@),
        decreases items@.len() - i,
    {
        proof {
            lemma_join_push(parts.take(i as int), parts[i as int], ", "@);
            assert(parts.take(i + 1) =~= parts.take(i as int).push(parts[i as int]));
        }
        if i > 0 {
            push_text(out, ", ");
        }
        items[i].push_name(out);
        assert(out@ =~= start + join(parts.take(i + 1), ", "@));
        i += 1;
    }
    assert(parts.take(i as int) =~= parts);
}

/// Appends the branches of a `CASE`.
fn push_branches(branches: &Vec<(Expr, Expr)>, out: &mut String)
    ensures
        final(out)@ == old(out)@ + join(branch_names(branch_models(branches@)), Seq::empty()),
    decreases branches, 0int,
{
    let ghost start = out@;
    let ghost parts = branch_names(branch_models(branches@));
    let ghost none: Text = Seq::empty();
    let mut i: usize = 0;
    assert(out@ =~= start + join(parts.take(0), none));
    while i < branches.len()
        invariant
            i <= branches@.len(),
            none == Seq::<char>::empty(),
            parts == branch_names(branch_models(branches@)),
            out@ == start + join(parts.take(i as int), none),
        decreases branches@.len() - i,
    {
        proof {
            lemma_join_push(parts.take(i as int), parts[i as int], none);
            assert(parts.take(i + 1) =~= parts.take(i as int).push(parts[i as int]));
        }
        push_text(out, " WHEN ");
        branches[i].0.push_name(out);
        push_text(out, " THEN ");
        branches[i].1.push_name(out);
        assert(out@ =~= start + join(parts.take(i as int), none) + parts[i as int]);
        assert(out@ =~= start + join(parts.take(i + 1), none));
        i += 1;
    }
    assert(parts.take(i as int) =~= parts);
}

/// Appends the entries of a map projection.
fn push_entries(entries: &Vec<MapEntry>, out: &mut String)
    ensures
        final(out)@ == old(out)@ + join(entry_names(map_entry_models(entries@)), ", "@),
    decreases entries, 0int,
{
    let ghost start = out@;
    let ghost parts = entry_names(map_entry_models(entries@));
    let mut i: usize = 0;
    assert(out@ =~= start + join(parts.take(0), ", "@));
    while i < entries.len()
        invariant
            i <= entries@.len(),
            parts == entry_names(map_entry_models(entries@)),
            out@ == start + join(parts.take(i as int), ", "@),
        decreases entries@.len() - i,
    {
        proof {
            lemma_join_push(parts.take(i as int), parts[i as int], ", "@);
            assert(parts.take(i + 1) =~= parts.take(i as int).push(parts[i as int]));
        }
        if i > 0 {
            push_text(out, ", ");
        }
        match &entries[i] {
            MapEntry::Property(p) => {
                push_text(out, ".");
                push_text(out, p.as_str());
            },
            MapEntry::Literal(k, e) => {
                push_text(out, k.as_str());
                push_text(out, ": ");
                e.push_name(out);
            },
        }
        assert(out@ =~= start + join(parts.take(i + 1), ", "@));
        i += 1;
    }
    assert(parts.take(i as int) =~= parts);
}

/// Whether one of the expressions holds an aggregate call.
fn any_aggregate(items: &Vec<Expr>) -> (r: bool)
    ensures
        r == some_aggregate(expr_models(items@)),
    decreases items, 0int,
{
    let mut i: usize = 0;
    while i < items.len()
        invariant
            i <= items@.len(),
            forall|k: int| 0 <= k < i ==> !has_aggregate(#[trigger] expr_models(items@)[k]),
        decreases items@.len() - i,
    {
        if items[i].contains_aggregate() {
            assert(has_aggregate(expr_models(items@)[i as int]));
            return true;
        }
        i += 1;
    }
    false
}

/// Whether one of the branches holds an aggregate call.
fn any_branch_aggregate(branches: &Vec<(Expr, Expr)>) -> (r: bool)
    ensures
        r == branch_aggregate(branch_models(branches@)),
    decreases branches, 0int,
{
    let mut i: usize = 0;
    while i < branches.len()
        invariant
            i <= branches@.len(),
            forall|k: int|
                0 <= k < i ==> !has_aggregate((#[trigger] branch_models(branches@)[k]).0)
                    && !has_aggregate(branch_models(branches@)[k].1),
        decreases branches@.len() - i,
    {
        if branches[i].0.contains_aggregate() || branches[i].1.contains_aggregate() {
            assert(has_aggregate(branch_models(branches@)[i as int].0) || has_aggregate(
                branch_models(branches@)[i as int].1,
            ));
            return true;
        }
        i += 1;
    }
    false
}

/// Whether one of the entries holds an aggregate call.
fn any_entry_aggregate(entries: &Vec<MapEntry>) -> (r: bool)
    ensures
        r == entry_aggregate(map_entry_models(entries@)),
    decreases entries, 0int,
{
    let mut i: usize = 0;
    while i < entries.len()
        invariant
            i <= entries@.len(),
            forall|k: int|
                0 <= k < i ==> !((#[trigger] map_entry_models(entries@)[k]) matches
                    MapEntryModel::Literal(_, x) && has_aggregate(x)),
        decreases entries@.len() - i,
    {
        if let MapEntry::Literal(_, x) = &entries[i] {
            if x.contains_aggregate() {
                assert(map_entry_models(entries@)[i as int] matches MapEntryModel::Literal(_, x)
                    && has_aggregate(x));
                return true;
            }
        }
        i += 1;
    }
    false
}

/// Whether an optional expression holds an aggregate call.
fn opt_aggregate(e: &Option<Box<Expr>>) -> (r: bool)
    ensures
        r == (opt_expr_model(*e) matches Some(x) && has_aggregate(*x)),
    decreases e, 0int,
{
    match e {
        Some(x) => x.contains_aggregate(),
        None => false,
    }
}

impl Expr {
    /// Whether this expression tree contains an aggregate function call.
    #[must_use]
    pub fn contains_aggregate(&self) -> (r: bool)
        ensures
            r == has_aggregate(self@),
        decreases self, 1int,
    {
        match self {
            Expr::Aggregate { .. } => true,
            Expr::Not(inner) => inner.contains_aggregate(),
            Expr::IsNull(inner, _) => inner.contains_aggregate(),
            Expr::And(a, b) => a.contains_aggregate() || b.contains_aggregate(),
            Expr::Or(a, b) => a.contains_aggregate() || b.contains_aggregate(),
            Expr::Compare(a, _, b) => a.contains_aggregate() || b.contains_aggregate(),
            Expr::List(items) => any_aggregate(items),
            Expr::Function { args, .. } => any_aggregate(args),
            Expr::Case { operand, branches, default } => opt_aggregate(operand)
                || any_branch_aggregate(branches) || opt_aggregate(default),
            Expr::MapProjection { entries, .. } => any_entry_aggregate(entries),
            Expr::Var(_) => false,
            Expr::Property(_, _) => false,
            Expr::Literal(_) => false,
            Expr::Exists { .. } => false,
        }
    }

    /// Appends the name of the expression.
    #[verifier::rlimit(60)]
    fn push_name(&self, out: &mut String)
        ensures
            final(out)@ == old(out)@ + name_of(self@),
        decreases self, 1int,
    {
        let ghost start = out@;
        match self {
            Expr::Var(v) => push_text(out, v.as_str()),
            Expr::Property(v, p) => {
                push_text(out, v.as_str());
                push_text(out, ".");
                push_text(out, p.as_str());
            },
            Expr::Literal(l) => l.push_name(out),
            Expr::List(items) => {
                push_text(out, "[");
                push_names(items, out);
                push_text(out, "]");
            },
            Expr::IsNull(inner, negated) => {
                inner.push_name(out);
                if *negated {
                    push_text(out, " IS NOT NULL");
                } else {
                    push_text(out, " IS NULL");
                }
            },
            Expr::Function { name, args } => {
                push_text(out, name.as_str());
                push_text(out, "(");
                push_names(args, out);
                push_text(out, ")");
            },
            Expr::Not(inner) => {
                push_text(out, "NOT ");
                inner.push_name(out);
            },
            Expr::And(a, b) => {
                a.push_name(out);
                push_text(out, " AND ");
                b.push_name(out);
            },
            Expr::Or(a, b) => {
                a.push_name(out);
                push_text(out, " OR ");
                b.push_name(out);
            },
            Expr::Compare(a, op, b) => {
                a.push_name(out);
                push_text(out, " ");
                push_text(out, op.as_str());
                push_text(out, " ");
                b.push_name(out);
            },
            Expr::Aggregate { func, arg, distinct } => {
                push_text(out, func.as_str());
                push_text(out, "(");
                if *distinct {
                    push_text(out, "DISTINCT ");
                }
                assert(self@->arg == opt_expr_model(*arg));
                match arg {
                    Some(x) => x.push_name(out),
                    None => push_text(out, "*"),
                }
                push_text(out, ")");
            },
            Expr::Exists { .. } => push_text(out, "EXISTS { ... }"),
            Expr::Case { operand, branches, default } => {
                push_text(out, "CASE");
                assert(self@->operand == opt_expr_model(*operand));
                assert(self@->default == opt_expr_model(*default));
                if let Some(x) = operand {
                    push_text(out, " ");
                    x.push_name(out);
                }
                push_branches(branches, out);
                if let Some(x) = default {
                    push_text(out, " ELSE ");
                    x.push_name(out);
                }
                push_text(out, " END");
            },
            Expr::MapProjection { var, entries } => {
                push_text(out, var.as_str());
                push_text(out, " { ");
                push_entries(entries, out);
                push_text(out, " }");
            },
        }
        assert(out@ =~= start + name_of(self@));
    }

    /// A human-readable name for the expression, used as a default column header.
    #[must_use]
    pub fn display_name(&self) -> (r: String)
        ensures
            r@ == name_of(self@),
    {
        let mut out = String::new();
        self.push_name(&mut out);
        assert(out@ =~= name_of(self@));
        out
    }
}

impl ReturnItem {
    /// The output column name: the explicit alias, or a name derived from the expression.
    #[must_use]
    pub fn column_name(&self) -> (r: String)
        ensures
            r@ == column_of(self@),
    {
        match &self.alias {
            Some(a) => a.clone(),
            None => self.expr.display_name(),
        }
    }
}

impl Projection {
    /// The output column names of the items, in order.
    #[must_use]
    pub fn column_names(&self) -> (r: Vec<String>)
        ensures
            texts(r@) == columns_of(self@.items),
    {
        let mut out: Vec<String> = Vec::new();
        let mut i: usize = 0;
        while i < self.items.len()
            invariant
                i <= self.items@.len(),
                texts(out@) == columns_of(self@.items).take(i as int),
            decreases self.items@.len() - i,
        {
            let name = self.items[i].column_name();
            proof {
                lemma_texts_push(out@, name);
            }
            out.push(name);
            i += 1;
            assert(texts(out@) =~= columns_of(self@.items).take(i as int));
        }
        assert(columns_of(self@.items).take(i as int) =~= columns_of(self@.items));
        out
    }

    /// Whether one of the items contains an aggregate function call.
    #[must_use]
    pub fn has_aggregate(&self) -> (r: bool)
        ensures
            r == aggregates(self@.items),
    {
        let mut i: usize = 0;
        while i < self.items.len()
            invariant
                i <= self.items@.len(),
                forall|k: int|
                    0 <= k < i ==> !has_aggregate((#[trigger] item_models(self.items@)[k]).expr),
            decreases self.items@.len() - i,
        {
            if self.items[i].expr.contains_aggregate() {
                assert(has_aggregate(self@.items[i as int].expr));
                return true;
            }
            i += 1;
        }
        false
    }
}

} // verus!
