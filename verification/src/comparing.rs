//! Laws of comparisons: what the operators say of numbers, truth values, texts, nodes and lists,
//! and how they belong together.

use vstd::prelude::*;

use crate::ast::{CmpOp, ExprModel};
use crate::compare::equals;
use crate::error::ErrorModel;
use crate::eval::eval;
use crate::order::{lemma_order_flips, lemma_order_reflexive};
use crate::provider::GraphProvider;
use crate::row::RowModel;
use crate::text::{begins_with, finishes_with, occurs, occurs_at, text_order, text_order_from, Text};
use crate::value::{entry_order_from, list_order_from, value_order, ValueModel};

verus! {

/// Whether an expression has the value in a row.
pub open spec fn gives<G: GraphProvider>(
    g: &G,
    row: RowModel<G::NodeId>,
    e: ExprModel,
    v: ValueModel,
) -> bool {
    eval(g, row, e) == Ok::<ValueModel, ErrorModel>(v)
}

/// Whether an expression is true or false in a row, as `b` says.
pub open spec fn tells<G: GraphProvider>(
    g: &G,
    row: RowModel<G::NodeId>,
    e: ExprModel,
    b: bool,
) -> bool {
    eval(g, row, e) == Ok::<ValueModel, ErrorModel>(ValueModel::Bool(b))
}

/// The expression `x op y`.
pub open spec fn compare(x: ExprModel, op: CmpOp, y: ExprModel) -> ExprModel {
    ExprModel::Compare(Box::new(x), op, Box::new(y))
}

/// Integers are compared as numbers; they hold no text and no items.
pub proof fn lemma_compare_integers<G: GraphProvider>(
    g: &G,
    row: RowModel<G::NodeId>,
    x: ExprModel,
    y: ExprModel,
    a: i64,
    b: i64,
)
    requires
        gives(g, row, x, ValueModel::Int(a)),
        gives(g, row, y, ValueModel::Int(b)),
    ensures
        tells(g, row, compare(x, CmpOp::Eq, y), a == b),
        tells(g, row, compare(x, CmpOp::Neq, y), a != b),
        tells(g, row, compare(x, CmpOp::Lt, y), a < b),
        tells(g, row, compare(x, CmpOp::Lte, y), a <= b),
        tells(g, row, compare(x, CmpOp::Gt, y), a > b),
        tells(g, row, compare(x, CmpOp::Gte, y), a >= b),
        tells(g, row, compare(x, CmpOp::Contains, y), false),
        tells(g, row, compare(x, CmpOp::StartsWith, y), false),
        tells(g, row, compare(x, CmpOp::EndsWith, y), false),
        tells(g, row, compare(x, CmpOp::In, y), false),
{
}

/// Of truth values, `false` is the less.
pub proof fn lemma_compare_truth_values<G: GraphProvider>(
    g: &G,
    row: RowModel<G::NodeId>,
    x: ExprModel,
    y: ExprModel,
    a: bool,
    b: bool,
)
    requires
        gives(g, row, x, ValueModel::Bool(a)),
        gives(g, row, y, ValueModel::Bool(b)),
    ensures
        tells(g, row, compare(x, CmpOp::Eq, y), a == b),
        tells(g, row, compare(x, CmpOp::Neq, y), a != b),
        tells(g, row, compare(x, CmpOp::Lt, y), !a && b),
        tells(g, row, compare(x, CmpOp::Lte, y), !a || b),
        tells(g, row, compare(x, CmpOp::Gt, y), a && !b),
        tells(g, row, compare(x, CmpOp::Gte, y), a || !b),
        tells(g, row, compare(x, CmpOp::Contains, y), false),
        tells(g, row, compare(x, CmpOp::StartsWith, y), false),
        tells(g, row, compare(x, CmpOp::EndsWith, y), false),
        tells(g, row, compare(x, CmpOp::In, y), false),
{
}

/// Whether `a` stands before `b` in a dictionary: it is the beginning of `b`, or has the lesser
/// character where they first differ.
pub open spec fn before_text(a: Text, b: Text) -> bool {
    exists|k: int|
        0 <= k <= a.len() && k < b.len() && #[trigger] a.take(k) == b.take(k) && (k == a.len()
            || a[k] < b[k])
}

/// The order of texts is that of a dictionary.
pub proof fn lemma_text_order(a: Text, b: Text)
    ensures
        text_order(a, b) < 0 <==> before_text(a, b),
        text_order(a, b) > 0 <==> before_text(b, a),
        text_order(a, b) == 0 <==> a == b,
{
    assert(a.take(0) =~= b.take(0));
    lemma_text_order_from(a, b, 0);
}

proof fn lemma_text_order_from(a: Text, b: Text, i: int)
    requires
        0 <= i <= a.len(),
        i <= b.len(),
        a.take(i) == b.take(i),
    ensures
        text_order_from(a, b, i) < 0 <==> before_text(a, b),
        text_order_from(a, b, i) > 0 <==> before_text(b, a),
        text_order_from(a, b, i) == 0 <==> a == b,
    decreases a.len() - i,
{
    if i < a.len() && i < b.len() && a[i] == b[i] {
        assert(a.take(i + 1) =~= a.take(i).push(a[i]));
        assert(b.take(i + 1) =~= b.take(i).push(b[i]));
        lemma_text_order_from(a, b, i + 1);
    } else {
        assert(b.take(i) == a.take(i));
        if i == a.len() && i == b.len() {
            assert(a.take(i) =~= a);
            assert(b.take(i) =~= b);
        }
        if before_text(a, b) {
            lemma_first_difference(a, b, i);
        }
        if before_text(b, a) {
            lemma_first_difference(b, a, i);
        }
    }
}

/// The place that makes a text stand before another is the first at which they differ.
proof fn lemma_first_difference(a: Text, b: Text, i: int)
    requires
        0 <= i <= a.len(),
        i <= b.len(),
        a.take(i) == b.take(i),
        i == a.len() || i == b.len() || a[i] != b[i],
        before_text(a, b),
    ensures
        i < b.len(),
        i == a.len() || a[i] < b[i],
{
    let k = choose|k: int|
        0 <= k <= a.len() && k < b.len() && #[trigger] a.take(k) == b.take(k) && (k == a.len()
            || a[k] < b[k]);
    if k < i {
        assert(a.take(i)[k] == a[k]);
        assert(b.take(i)[k] == b[k]);
    } else if i < k {
        assert(a.take(k)[i] == a[i]);
        assert(b.take(k)[i] == b[i]);
    }
}

/// A text stands in another if the other is made of it with something before and behind it.
proof fn lemma_occurs(a: Text, b: Text)
    ensures
        occurs(a, b) <==> exists|p: Text, q: Text| a == #[trigger] (p + b + q),
{
    if exists|p: Text, q: Text| a == #[trigger] (p + b + q) {
        let (p, q) = choose|p: Text, q: Text| a == #[trigger] (p + b + q);
        assert(a.subrange(p.len() as int, (p.len() + b.len()) as int) =~= b);
        assert(occurs_at(a, b, p.len() as int));
    }
    if occurs(a, b) {
        let i = choose|i: int| occurs_at(a, b, i);
        lemma_around(a, b, i);
    }
}

/// A text begins with another if it is made of the other with something behind it.
proof fn lemma_begins(a: Text, b: Text)
    ensures
        begins_with(a, b) <==> exists|q: Text| a == #[trigger] (b + q),
{
    if exists|q: Text| a == #[trigger] (b + q) {
        let q = choose|q: Text| a == #[trigger] (b + q);
        assert(a.subrange(0, b.len() as int) =~= b);
    }
    if begins_with(a, b) {
        lemma_around(a, b, 0);
        assert(a =~= b + a.skip(b.len() as int));
    }
}

/// A text ends with another if it is made of the other with something before it.
proof fn lemma_finishes(a: Text, b: Text)
    ensures
        finishes_with(a, b) <==> exists|p: Text| a == #[trigger] (p + b),
{
    if exists|p: Text| a == #[trigger] (p + b) {
        let p = choose|p: Text| a == #[trigger] (p + b);
        assert(a.subrange(p.len() as int, (p.len() + b.len()) as int) =~= b);
    }
    if finishes_with(a, b) {
        let e = a.len() - b.len();
        lemma_around(a, b, e);
        assert(a =~= a.take(e) + b);
    }
}

proof fn lemma_around(a: Text, b: Text, i: int)
    requires
        occurs_at(a, b, i),
    ensures
        a == a.take(i) + b + a.skip(i + b.len()),
{
    assert forall|k: int| 0 <= k < b.len() implies a[i + k] == b[k] by {
        assert(a.subrange(i, i + b.len())[k] == b[k]);
    }
    let all = a.take(i) + b + a.skip(i + b.len());
    assert forall|k: int| 0 <= k < a.len() implies a[k] == all[k] by {
        if i <= k < i + b.len() {
            assert(a[i + (k - i)] == b[k - i]);
        }
    }
    assert(a =~= all);
}

/// Texts are compared as in a dictionary; a text contains another if it is made of the other with
/// something before and behind it.
pub proof fn lemma_compare_texts<G: GraphProvider>(
    g: &G,
    row: RowModel<G::NodeId>,
    x: ExprModel,
    y: ExprModel,
    a: Text,
    b: Text,
)
    requires
        gives(g, row, x, ValueModel::Str(a)),
        gives(g, row, y, ValueModel::Str(b)),
    ensures
        tells(g, row, compare(x, CmpOp::Eq, y), a == b),
        tells(g, row, compare(x, CmpOp::Neq, y), a != b),
        tells(g, row, compare(x, CmpOp::Lt, y), before_text(a, b)),
        tells(g, row, compare(x, CmpOp::Lte, y), !before_text(b, a)),
        tells(g, row, compare(x, CmpOp::Gt, y), before_text(b, a)),
        tells(g, row, compare(x, CmpOp::Gte, y), !before_text(a, b)),
        tells(
            g,
            row,
            compare(x, CmpOp::Contains, y),
            exists|p: Text, q: Text| a == #[trigger] (p + b + q),
        ),
        tells(g, row, compare(x, CmpOp::StartsWith, y), exists|q: Text| a == #[trigger] (b + q)),
        tells(g, row, compare(x, CmpOp::EndsWith, y), exists|p: Text| a == #[trigger] (p + b)),
        tells(g, row, compare(x, CmpOp::In, y), false),
{
    lemma_text_order(a, b);
    lemma_occurs(a, b);
    lemma_begins(a, b);
    lemma_finishes(a, b);
}

/// A comparison with null is never true.
pub proof fn lemma_compare_null<G: GraphProvider>(
    g: &G,
    row: RowModel<G::NodeId>,
    x: ExprModel,
    op: CmpOp,
    y: ExprModel,
    a: ValueModel,
    b: ValueModel,
)
    requires
        gives(g, row, x, a),
        gives(g, row, y, b),
        a == ValueModel::Null || b == ValueModel::Null,
    ensures
        tells(g, row, compare(x, op, y), false),
{
}

/// Whether two values are of one type.
pub open spec fn one_type(a: ValueModel, b: ValueModel) -> bool {
    ||| a is Bool && b is Bool
    ||| a is Int && b is Int
    ||| a is Str && b is Str
    ||| a is Node && b is Node
    ||| a is List && b is List
    ||| a is Mapping && b is Mapping
}

/// Values of different types are not equal and have no order.
pub proof fn lemma_compare_types<G: GraphProvider>(
    g: &G,
    row: RowModel<G::NodeId>,
    x: ExprModel,
    y: ExprModel,
    a: ValueModel,
    b: ValueModel,
)
    requires
        gives(g, row, x, a),
        gives(g, row, y, b),
        !(a is Null),
        !(b is Null),
        !one_type(a, b),
    ensures
        tells(g, row, compare(x, CmpOp::Eq, y), false),
        tells(g, row, compare(x, CmpOp::Neq, y), true),
        tells(g, row, compare(x, CmpOp::Lt, y), false),
        tells(g, row, compare(x, CmpOp::Lte, y), false),
        tells(g, row, compare(x, CmpOp::Gt, y), false),
        tells(g, row, compare(x, CmpOp::Gte, y), false),
        tells(g, row, compare(x, CmpOp::Contains, y), false),
        tells(g, row, compare(x, CmpOp::StartsWith, y), false),
        tells(g, row, compare(x, CmpOp::EndsWith, y), false),
{
}

/// Of values of one type: `=` is equality and `<>` its negation; `>=` is the negation of `<` and
/// `<=` that of `>`; `>` is `<` with its sides exchanged; and a value is neither less nor greater
/// than itself.
pub proof fn lemma_compare_one_type<G: GraphProvider>(
    g: &G,
    row: RowModel<G::NodeId>,
    x: ExprModel,
    y: ExprModel,
    a: ValueModel,
    b: ValueModel,
)
    requires
        gives(g, row, x, a),
        gives(g, row, y, b),
        one_type(a, b),
    ensures
        tells(g, row, compare(x, CmpOp::Eq, y), a == b),
        tells(g, row, compare(x, CmpOp::Neq, y), a != b),
        tells(g, row, compare(x, CmpOp::Lt, y), true) || tells(
            g,
            row,
            compare(x, CmpOp::Lt, y),
            false,
        ),
        tells(g, row, compare(x, CmpOp::Gte, y), true) <==> tells(
            g,
            row,
            compare(x, CmpOp::Lt, y),
            false,
        ),
        tells(g, row, compare(x, CmpOp::Lte, y), true) <==> tells(
            g,
            row,
            compare(x, CmpOp::Gt, y),
            false,
        ),
        eval(g, row, compare(x, CmpOp::Gt, y)) == eval(g, row, compare(y, CmpOp::Lt, x)),
        eval(g, row, compare(x, CmpOp::Gte, y)) == eval(g, row, compare(y, CmpOp::Lte, x)),
        a == b ==> tells(g, row, compare(x, CmpOp::Gte, y), true) && tells(
            g,
            row,
            compare(x, CmpOp::Lte, y),
            true,
        ),
        !(a is Str) ==> tells(g, row, compare(x, CmpOp::Contains, y), false) && tells(
            g,
            row,
            compare(x, CmpOp::StartsWith, y),
            false,
        ) && tells(g, row, compare(x, CmpOp::EndsWith, y), false),
{
    lemma_order_flips(a, b);
    lemma_order_reflexive(a);
}

/// Nodes are ordered by their names.
pub proof fn lemma_compare_nodes<G: GraphProvider>(
    g: &G,
    row: RowModel<G::NodeId>,
    x: ExprModel,
    y: ExprModel,
    a: ValueModel,
    b: ValueModel,
)
    requires
        gives(g, row, x, a),
        gives(g, row, y, b),
        a is Node,
        b is Node,
    ensures
        tells(g, row, compare(x, CmpOp::Lt, y), before_text(a->name, b->name)),
        tells(g, row, compare(x, CmpOp::Gt, y), before_text(b->name, a->name)),
{
    lemma_text_order(a->name, b->name);
}

/// Whether a sign of an order is that of the first difference of two lists, or of their lengths if
/// they do not differ where both go on.
pub open spec fn first_decides(a: Seq<ValueModel>, b: Seq<ValueModel>, o: int) -> bool {
    exists|k: int|
        0 <= k <= a.len() && k <= b.len() && (forall|j: int|
            0 <= j < k ==> #[trigger] value_order(a[j], b[j]) == 0) && (if k < a.len() && k
            < b.len() {
            value_order(#[trigger] a[k], b[k]) == o && o != 0
        } else {
            (o < 0 <==> a.len() < b.len()) && (o > 0 <==> a.len() > b.len())
        })
}

/// Lists are ordered by their first items that differ, and then by their lengths.
pub proof fn lemma_list_order(a: Seq<ValueModel>, b: Seq<ValueModel>)
    ensures
        first_decides(a, b, value_order(ValueModel::List(a), ValueModel::List(b))),
{
    lemma_list_order_from(a, b, 0);
}

proof fn lemma_list_order_from(a: Seq<ValueModel>, b: Seq<ValueModel>, i: int)
    requires
        0 <= i <= a.len(),
        i <= b.len(),
        forall|j: int| 0 <= j < i ==> #[trigger] value_order(a[j], b[j]) == 0,
    ensures
        first_decides(a, b, list_order_from(a, b, i)),
    decreases a.len() - i,
{
    if i < a.len() && i < b.len() && value_order(a[i], b[i]) == 0 {
        lemma_list_order_from(a, b, i + 1);
    } else {
        let x = a[i];
        assert(first_decides(a, b, list_order_from(a, b, i)));
    }
}

/// Maps are ordered by their first entries that differ, in the key or else in the value, and then
/// by the number of their entries.
pub proof fn lemma_map_order(
    a: Seq<(Text, ValueModel)>,
    b: Seq<(Text, ValueModel)>,
    k: int,
)
    requires
        0 <= k <= a.len(),
        k <= b.len(),
        forall|j: int|
            0 <= j < k ==> (#[trigger] a[j]).0 == b[j].0 && value_order(a[j].1, b[j].1) == 0,
    ensures
        k < a.len() && k < b.len() && before_text(a[k].0, b[k].0) ==> value_order(
            ValueModel::Mapping(a),
            ValueModel::Mapping(b),
        ) < 0,
        k < a.len() && k < b.len() && a[k].0 == b[k].0 && value_order(a[k].1, b[k].1) != 0
            ==> value_order(ValueModel::Mapping(a), ValueModel::Mapping(b)) == value_order(
            a[k].1,
            b[k].1,
        ),
        k == a.len() && k < b.len() ==> value_order(
            ValueModel::Mapping(a),
            ValueModel::Mapping(b),
        ) < 0,
        k == a.len() && k == b.len() ==> value_order(
            ValueModel::Mapping(a),
            ValueModel::Mapping(b),
        ) == 0,
{
    lemma_map_order_from(a, b, 0, k);
    if k < a.len() && k < b.len() {
        lemma_text_order(a[k].0, b[k].0);
    }
}

proof fn lemma_map_order_from(
    a: Seq<(Text, ValueModel)>,
    b: Seq<(Text, ValueModel)>,
    i: int,
    k: int,
)
    requires
        0 <= i <= k <= a.len(),
        k <= b.len(),
        forall|j: int|
            0 <= j < k ==> (#[trigger] a[j]).0 == b[j].0 && value_order(a[j].1, b[j].1) == 0,
    ensures
        entry_order_from(a, b, i) == entry_order_from(a, b, k),
    decreases k - i,
{
    if i < k {
        lemma_text_order(a[i].0, b[i].0);
        lemma_map_order_from(a, b, i + 1, k);
    }
}

/// Where values of different types meet in a sorted column, maps come first, and then nodes, lists,
/// texts, truth values and numbers; null comes last.
pub proof fn lemma_order_of_types(a: ValueModel, b: ValueModel)
    ensures
        a is Mapping && (b is Node || b is List || b is Str || b is Bool || b is Int || b is Null)
            ==> value_order(a, b) < 0,
        a is Node && (b is List || b is Str || b is Bool || b is Int || b is Null) ==> value_order(
            a,
            b,
        ) < 0,
        a is List && (b is Str || b is Bool || b is Int || b is Null) ==> value_order(a, b) < 0,
        a is Str && (b is Bool || b is Int || b is Null) ==> value_order(a, b) < 0,
        a is Bool && (b is Int || b is Null) ==> value_order(a, b) < 0,
        a is Int && b is Null ==> value_order(a, b) < 0,
{
}

/// The order of numbers, truth values and texts in a sorted column.
pub proof fn lemma_order_of_values(a: ValueModel, b: ValueModel)
    ensures
        a is Int && b is Int ==> (value_order(a, b) < 0 <==> a->Int_0 < b->Int_0),
        a is Int && b is Int ==> (value_order(a, b) == 0 <==> a == b),
        a is Bool && b is Bool ==> (value_order(a, b) < 0 <==> !a->Bool_0 && b->Bool_0),
        a is Bool && b is Bool ==> (value_order(a, b) == 0 <==> a == b),
        a is Str && b is Str ==> (value_order(a, b) < 0 <==> before_text(a->Str_0, b->Str_0)),
        a is Str && b is Str ==> (value_order(a, b) == 0 <==> a == b),
        a is Node && b is Node ==> (value_order(a, b) < 0 <==> before_text(a->name, b->name)),
        a is Node && b is Node ==> (value_order(a, b) == 0 <==> a->name == b->name),
        value_order(a, b) == -value_order(b, a),
{
    lemma_order_flips(a, b);
    if a is Str && b is Str {
        lemma_text_order(a->Str_0, b->Str_0);
    }
    if a is Node && b is Node {
        lemma_text_order(a->name, b->name);
    }
}

/// `x IN list` is true just if `x` equals an item of the list; null equals nothing.
pub proof fn lemma_in_list<G: GraphProvider>(
    g: &G,
    row: RowModel<G::NodeId>,
    x: ExprModel,
    y: ExprModel,
    a: ValueModel,
    items: Seq<ValueModel>,
)
    requires
        gives(g, row, x, a),
        gives(g, row, y, ValueModel::List(items)),
    ensures
        tells(g, row, compare(x, CmpOp::In, y), !(a is Null) && items.contains(a)),
{
    if !(a is Null) && items.contains(a) {
        let k = choose|k: int| 0 <= k < items.len() && items[k] == a;
        assert(equals(a, items[k]));
    }
}

/// An operand that cannot be evaluated makes the comparison fail; that of the left comes first.
pub proof fn lemma_compare_fails<G: GraphProvider>(
    g: &G,
    row: RowModel<G::NodeId>,
    x: ExprModel,
    op: CmpOp,
    y: ExprModel,
)
    ensures
        eval(g, row, x) is Err ==> eval(g, row, compare(x, op, y)) == eval(g, row, x),
        eval(g, row, x) is Ok && eval(g, row, y) is Err ==> eval(g, row, compare(x, op, y))
            == eval(g, row, y),
        eval(g, row, x) is Ok && eval(g, row, y) is Ok ==> eval(
            g,
            row,
            compare(x, op, y),
        ) matches Ok(ValueModel::Bool(_)),
{
}

} // verus!
