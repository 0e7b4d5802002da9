//! Laws of the names of columns: an item without an alias is named by its source form.

use vstd::prelude::*;

use crate::ast::{AggFn, CmpOp, ExprModel, LiteralModel, MapEntryModel};
use crate::naming::{branch_names, entry_name, entry_names, name_of, names_of};
use crate::text::{int_text, join, Text};

verus! {

/// Texts with a separator between neighbours, from position `i` on.
pub open spec fn listed(parts: Seq<Text>, sep: Text, i: int) -> Text
    decreases parts.len() - i,
{
    if i < 0 || i >= parts.len() {
        Seq::empty()
    } else if i + 1 == parts.len() {
        parts[i]
    } else {
        parts[i] + sep + listed(parts, sep, i + 1)
    }
}

proof fn lemma_listed_push(parts: Seq<Text>, part: Text, sep: Text, i: int)
    requires
        0 <= i < parts.len(),
    ensures
        listed(parts.push(part), sep, i) == listed(parts, sep, i) + sep + part,
    decreases parts.len() - i,
{
    let all = parts.push(part);
    assert(all[i] == parts[i]);
    if i + 1 < parts.len() {
        lemma_listed_push(parts, part, sep, i + 1);
        assert(listed(all, sep, i) =~= listed(parts, sep, i) + sep + part);
    } else {
        assert(listed(all, sep, i + 1) == part);
    }
}

/// Joined texts are those texts with the separator between neighbours.
pub proof fn lemma_join(parts: Seq<Text>, sep: Text)
    ensures
        join(parts, sep) == listed(parts, sep, 0),
    decreases parts.len(),
{
    if parts.len() > 1 {
        let init = parts.drop_last();
        lemma_join(init, sep);
        lemma_listed_push(init, parts.last(), sep, 0);
        assert(init.push(parts.last()) =~= parts);
    }
}

/// The names of variables, properties and literals.
pub proof fn lemma_operand_names(v: Text, p: Text, i: i64)
    ensures
        name_of(ExprModel::Var(v)) == v,
        name_of(ExprModel::Property(v, p)) == v + "."@ + p,
        name_of(ExprModel::Literal(LiteralModel::Str(v))) == "'"@ + v + "'"@,
        name_of(ExprModel::Literal(LiteralModel::Int(i))) == int_text(i as int),
        name_of(ExprModel::Literal(LiteralModel::Bool(true))) == "true"@,
        name_of(ExprModel::Literal(LiteralModel::Bool(false))) == "false"@,
        name_of(ExprModel::Literal(LiteralModel::Null)) == "null"@,
{
}

/// The names of conditions.
pub proof fn lemma_condition_names(x: ExprModel, y: ExprModel)
    ensures
        name_of(ExprModel::Not(Box::new(x))) == "NOT "@ + name_of(x),
        name_of(ExprModel::And(Box::new(x), Box::new(y))) == name_of(x) + " AND "@ + name_of(y),
        name_of(ExprModel::Or(Box::new(x), Box::new(y))) == name_of(x) + " OR "@ + name_of(y),
        name_of(ExprModel::IsNull(Box::new(x), false)) == name_of(x) + " IS NULL"@,
        name_of(ExprModel::IsNull(Box::new(x), true)) == name_of(x) + " IS NOT NULL"@,
{
}

/// The comparison operators as they are written.
pub open spec fn operator_text(op: CmpOp) -> Text {
    match op {
        CmpOp::Eq => "="@,
        CmpOp::Neq => "<>"@,
        CmpOp::Lt => "<"@,
        CmpOp::Lte => "<="@,
        CmpOp::Gt => ">"@,
        CmpOp::Gte => ">="@,
        CmpOp::Contains => "CONTAINS"@,
        CmpOp::StartsWith => "STARTS WITH"@,
        CmpOp::EndsWith => "ENDS WITH"@,
        CmpOp::In => "IN"@,
    }
}

/// The names of comparisons.
pub proof fn lemma_comparison_names(x: ExprModel, op: CmpOp, y: ExprModel)
    ensures
        name_of(ExprModel::Compare(Box::new(x), op, Box::new(y))) == name_of(x) + " "@
            + operator_text(op) + " "@ + name_of(y),
{
}

/// The aggregate functions as they are written.
pub open spec fn function_text(func: AggFn) -> Text {
    match func {
        AggFn::Count => "count"@,
        AggFn::Collect => "collect"@,
        AggFn::Min => "min"@,
        AggFn::Max => "max"@,
        AggFn::Sum => "sum"@,
        AggFn::Avg => "avg"@,
    }
}

/// The names of aggregates.
pub proof fn lemma_aggregate_names(func: AggFn, x: ExprModel)
    ensures
        name_of(
            (ExprModel::Aggregate { func, arg: None, distinct: false }),
        ) == function_text(func) + "(*)"@,
        name_of(
            (ExprModel::Aggregate { func, arg: Some(Box::new(x)), distinct: false }),
        ) == function_text(func) + "("@ + name_of(x) + ")"@,
        name_of(
            (ExprModel::Aggregate { func, arg: Some(Box::new(x)), distinct: true }),
        ) == function_text(func) + "(DISTINCT "@ + name_of(x) + ")"@,
{
    reveal_strlit("(*)");
    reveal_strlit("(");
    reveal_strlit("*");
    reveal_strlit(")");
    reveal_strlit("DISTINCT ");
    reveal_strlit("(DISTINCT ");
    let f = function_text(func);
    let none = Seq::<char>::empty();
    assert(f + "("@ + none + "*"@ + ")"@ =~= f + "(*)"@);
    assert(f + "("@ + none + name_of(x) + ")"@ =~= f + "("@ + name_of(x) + ")"@);
    assert(f + "("@ + "DISTINCT "@ + name_of(x) + ")"@ =~= f + "(DISTINCT "@ + name_of(x) + ")"@);
}

/// The names of lists and calls list those of their parts in order.
pub proof fn lemma_list_names(items: Seq<ExprModel>, f: Text)
    ensures
        name_of(ExprModel::List(items)) == "["@ + listed(
            items.map_values(|x: ExprModel| name_of(x)),
            ", "@,
            0,
        ) + "]"@,
        name_of((ExprModel::Function { name: f, args: items })) == f + "("@ + listed(
            items.map_values(|x: ExprModel| name_of(x)),
            ", "@,
            0,
        ) + ")"@,
{
    assert(names_of(items) =~= items.map_values(|x: ExprModel| name_of(x)));
    lemma_join(names_of(items), ", "@);
}

/// The name of a map projection lists its entries in order: `.prop` and `key: expr`.
pub proof fn lemma_map_names(var: Text, entries: Seq<MapEntryModel>)
    ensures
        name_of((ExprModel::MapProjection { var, entries })) == var + " { "@ + listed(
            entries.map_values(
                |e: MapEntryModel|
                    match e {
                        MapEntryModel::Property(p) => "."@ + p,
                        MapEntryModel::Literal(k, x) => k + ": "@ + name_of(x),
                    },
            ),
            ", "@,
            0,
        ) + " }"@,
{
    let parts = entries.map_values(
        |e: MapEntryModel|
            match e {
                MapEntryModel::Property(p) => "."@ + p,
                MapEntryModel::Literal(k, x) => k + ": "@ + name_of(x),
            },
    );
    assert forall|i: int| 0 <= i < entries.len() implies entry_names(entries)[i] == parts[i] by {
        assert(entry_names(entries)[i] == entry_name(entries[i]));
    }
    assert(entry_names(entries) =~= parts);
    lemma_join(entry_names(entries), ", "@);
}

/// A part of a name that may be missing.
pub open spec fn opt_part(before: Text, x: Option<Box<ExprModel>>) -> Text {
    match x {
        Some(e) => before + name_of(*e),
        None => Seq::empty(),
    }
}

/// The name of a `CASE` holds its operand, its branches in order, and its `ELSE`; that of a
/// subquery leaves its body out.
pub proof fn lemma_case_names(
    operand: Option<Box<ExprModel>>,
    branches: Seq<(ExprModel, ExprModel)>,
    default: Option<Box<ExprModel>>,
    e: ExprModel,
)
    ensures
        name_of((ExprModel::Case { operand, branches, default })) == "CASE"@ + opt_part(
            " "@,
            operand,
        ) + listed(
            branches.map_values(
                |b: (ExprModel, ExprModel)| " WHEN "@ + name_of(b.0) + " THEN "@ + name_of(b.1),
            ),
            Seq::empty(),
            0,
        ) + opt_part(" ELSE "@, default) + " END"@,
        e is Exists ==> name_of(e) == "EXISTS { ... }"@,
{
    let parts = branches.map_values(
        |b: (ExprModel, ExprModel)| " WHEN "@ + name_of(b.0) + " THEN "@ + name_of(b.1),
    );
    assert(branch_names(branches) =~= parts);
    lemma_join(branch_names(branches), Seq::empty());
}

} // verus!
