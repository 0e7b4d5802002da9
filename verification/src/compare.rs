//! The comparison operators on values.

use vstd::prelude::*;

use crate::ast::CmpOp;
use crate::text::{
    begins_with, contains_text, ends_with_text, finishes_with, occurs, starts_with_text,
};
use crate::value::{value_models, value_order, CypherValue, ValueModel};

verus! {

/// Whether two values have the same type; `null` has none.
pub open spec fn same_kind(a: ValueModel, b: ValueModel) -> bool {
    match (a, b) {
        (ValueModel::Bool(_), ValueModel::Bool(_)) => true,
        (ValueModel::Int(_), ValueModel::Int(_)) => true,
        (ValueModel::Str(_), ValueModel::Str(_)) => true,
        (ValueModel::Node { .. }, ValueModel::Node { .. }) => true,
        (ValueModel::List(_), ValueModel::List(_)) => true,
        (ValueModel::Mapping(_), ValueModel::Mapping(_)) => true,
        _ => false,
    }
}

/// Whether two values are equal; `null` equals nothing.
pub open spec fn equals(a: ValueModel, b: ValueModel) -> bool {
    same_kind(a, b) && a == b
}

/// Whether one of the items from position `i` on equals the value.
pub open spec fn among(v: ValueModel, items: Seq<ValueModel>) -> bool {
    exists|i: int| 0 <= i < items.len() && equals(v, #[trigger] items[i])
}

/// The outcome of a comparison. A comparison with `null` is false, and so are an inequality
/// between types, a text operator on anything but strings, and `IN` on anything but a list.
pub open spec fn compares(a: ValueModel, op: CmpOp, b: ValueModel) -> bool {
    if a is Null || b is Null {
        false
    } else {
        match op {
            CmpOp::Eq => equals(a, b),
            CmpOp::Neq => !equals(a, b),
            CmpOp::Lt => same_kind(a, b) && value_order(a, b) < 0,
            CmpOp::Lte => same_kind(a, b) && value_order(a, b) <= 0,
            CmpOp::Gt => same_kind(a, b) && value_order(a, b) > 0,
            CmpOp::Gte => same_kind(a, b) && value_order(a, b) >= 0,
            CmpOp::Contains => a is Str && b is Str && occurs(a->Str_0, b->Str_0),
            CmpOp::StartsWith => a is Str && b is Str && begins_with(a->Str_0, b->Str_0),
            CmpOp::EndsWith => a is Str && b is Str && finishes_with(a->Str_0, b->Str_0),
            CmpOp::In => b is List && among(a, b->List_0),
        }
    }
}

/// Whether two values have the same type.
pub fn same_type(left: &CypherValue, right: &CypherValue) -> (r: bool)
    ensures
        r == same_kind(left@, right@),
{
    match (left, right) {
        (CypherValue::Bool(_), CypherValue::Bool(_)) => true,
        (CypherValue::Int(_), CypherValue::Int(_)) => true,
        (CypherValue::Str(_), CypherValue::Str(_)) => true,
        (CypherValue::Node { .. }, CypherValue::Node { .. }) => true,
        (CypherValue::List(_), CypherValue::List(_)) => true,
        (CypherValue::Mapping(_), CypherValue::Mapping(_)) => true,
        _ => false,
    }
}

/// Whether two values are equal; `null` equals nothing.
pub fn values_equal(left: &CypherValue, right: &CypherValue) -> (r: bool)
    ensures
        r == equals(left@, right@),
{
    same_type(left, right) && left.same(right)
}

/// Whether one of the items equals the value.
fn is_among(value: &CypherValue, items: &Vec<CypherValue>) -> (r: bool)
    ensures
        r == among(value@, value_models(items@)),
{
    let mut i: usize = 0;
    while i < items.len()
        invariant
            i <= items@.len(),
            forall|k: int| 0 <= k < i ==> !equals(value@, #[trigger] value_models(items@)[k]),
        decreases items@.len() - i,
    {
        if values_equal(value, &items[i]) {
            assert(equals(value@, value_models(items@)[i as int]));
            return true;
        }
        i += 1;
    }
    false
}

/// Applies one of the text operators to two strings; anything else gives `false`.
fn string_op(left: &CypherValue, op: CmpOp, right: &CypherValue) -> (r: bool)
    requires
        op is Contains || op is StartsWith || op is EndsWith,
    ensures
        r == (!(left@ is Null) && !(right@ is Null) && compares(left@, op, right@)),
{
    match (left, right) {
        (CypherValue::Str(haystack), CypherValue::Str(needle)) => match op {
            CmpOp::Contains => contains_text(haystack.as_str(), needle.as_str()),
            CmpOp::StartsWith => starts_with_text(haystack.as_str(), needle.as_str()),
            _ => ends_with_text(haystack.as_str(), needle.as_str()),
        },
        _ => false,
    }
}

/// Compares two values.
pub fn compare_values(left: &CypherValue, op: CmpOp, right: &CypherValue) -> (r: bool)
    ensures
        r == compares(left@, op, right@),
{
    if left.is_null() || right.is_null() {
        return false;
    }
    match op {
        CmpOp::Eq => values_equal(left, right),
        CmpOp::Neq => !values_equal(left, right),
        CmpOp::Lt => same_type(left, right) && left.order(right) < 0,
        CmpOp::Lte => same_type(left, right) && left.order(right) <= 0,
        CmpOp::Gt => same_type(left, right) && left.order(right) > 0,
        CmpOp::Gte => same_type(left, right) && left.order(right) >= 0,
        CmpOp::Contains => string_op(left, op, right),
        CmpOp::StartsWith => string_op(left, op, right),
        CmpOp::EndsWith => string_op(left, op, right),
        CmpOp::In => match right {
            CypherValue::List(items) => is_among(left, items),
            _ => false,
        },
    }
}

} // verus!
