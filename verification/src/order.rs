//! The laws of the order of values: it is total, reflexive and transitive, and puts null last.

use vstd::prelude::*;

use crate::text::{text_order, text_order_from, Text};
use crate::value::{entry_order_from, list_order_from, rank, value_order, ValueModel};

verus! {

// ---- The order of texts ----------------------------------------------------------

proof fn lemma_text_flip(a: Text, b: Text, i: int)
    requires
        0 <= i,
    ensures
        text_order_from(a, b, i) == -text_order_from(b, a, i),
        -1 <= text_order_from(a, b, i) <= 1,
    decreases a.len() - i,
{
    if i < a.len() && i < b.len() && a[i] == b[i] {
        lemma_text_flip(a, b, i + 1);
    }
}

proof fn lemma_text_trans(a: Text, b: Text, c: Text, i: int)
    requires
        0 <= i,
        text_order_from(a, b, i) <= 0,
        text_order_from(b, c, i) <= 0,
    ensures
        text_order_from(a, c, i) <= 0,
        text_order_from(a, c, i) == 0 <==> text_order_from(a, b, i) == 0 && text_order_from(b, c, i)
            == 0,
    decreases a.len() - i,
{
    if i < a.len() && i < b.len() && i < c.len() && a[i] == b[i] && b[i] == c[i] {
        lemma_text_trans(a, b, c, i + 1);
    }
}

proof fn lemma_text_same(a: Text, b: Text, i: int)
    requires
        0 <= i <= a.len(),
        i <= b.len(),
        text_order_from(a, b, i) == 0,
        forall|k: int| 0 <= k < i ==> a[k] == b[k],
    ensures
        a == b,
    decreases a.len() - i,
{
    if i < a.len() && i < b.len() {
        lemma_text_same(a, b, i + 1);
    } else {
        assert(a =~= b);
    }
}

// ---- The order of values ---------------------------------------------------------

/// The comparison turns round when its sides are exchanged.
pub proof fn lemma_order_flips(a: ValueModel, b: ValueModel)
    ensures
        value_order(a, b) == -value_order(b, a),
        -1 <= value_order(a, b) <= 1,
    decreases a, 0int,
{
    match (a, b) {
        (ValueModel::Str(x), ValueModel::Str(y)) => {
            lemma_text_flip(x, y, 0);
        },
        (ValueModel::Node { name: x, .. }, ValueModel::Node { name: y, .. }) => {
            lemma_text_flip(x, y, 0);
        },
        (ValueModel::List(x), ValueModel::List(y)) => {
            lemma_list_flip(x, y, 0);
        },
        (ValueModel::Mapping(x), ValueModel::Mapping(y)) => {
            lemma_entry_flip(x, y, 0);
        },
        _ => {},
    }
}

proof fn lemma_list_flip(a: Seq<ValueModel>, b: Seq<ValueModel>, i: int)
    requires
        0 <= i,
    ensures
        list_order_from(a, b, i) == -list_order_from(b, a, i),
        -1 <= list_order_from(a, b, i) <= 1,
    decreases a, a.len() - i,
{
    if i < a.len() && i < b.len() {
        lemma_order_flips(a[i], b[i]);
        lemma_list_flip(a, b, i + 1);
    }
}

proof fn lemma_entry_flip(a: Seq<(Text, ValueModel)>, b: Seq<(Text, ValueModel)>, i: int)
    requires
        0 <= i,
    ensures
        entry_order_from(a, b, i) == -entry_order_from(b, a, i),
        -1 <= entry_order_from(a, b, i) <= 1,
    decreases a, a.len() - i,
{
    if i < a.len() && i < b.len() {
        lemma_text_flip(a[i].0, b[i].0, 0);
        lemma_order_flips(a[i].1, b[i].1);
        lemma_entry_flip(a, b, i + 1);
    }
}

/// The comparison is transitive: what is less than or equal stays so, and it is equal just if both
/// comparisons on the way are.
pub proof fn lemma_order_transitive(a: ValueModel, b: ValueModel, c: ValueModel)
    requires
        value_order(a, b) <= 0,
        value_order(b, c) <= 0,
    ensures
        value_order(a, c) <= 0,
        value_order(a, c) == 0 <==> value_order(a, b) == 0 && value_order(b, c) == 0,
    decreases a, 0int,
{
    match (a, b, c) {
        (ValueModel::Str(x), ValueModel::Str(y), ValueModel::Str(z)) => {
            lemma_text_trans(x, y, z, 0);
        },
        (
            ValueModel::Node { name: x, .. },
            ValueModel::Node { name: y, .. },
            ValueModel::Node { name: z, .. },
        ) => {
            lemma_text_trans(x, y, z, 0);
        },
        (ValueModel::List(x), ValueModel::List(y), ValueModel::List(z)) => {
            lemma_list_trans(x, y, z, 0);
        },
        (ValueModel::Mapping(x), ValueModel::Mapping(y), ValueModel::Mapping(z)) => {
            lemma_entry_trans(x, y, z, 0);
        },
        _ => {
            assert(value_order(a, b) <= 0 ==> rank(a) <= rank(b));
            assert(value_order(b, c) <= 0 ==> rank(b) <= rank(c));
        },
    }
}

proof fn lemma_list_trans(
    a: Seq<ValueModel>,
    b: Seq<ValueModel>,
    c: Seq<ValueModel>,
    i: int,
)
    requires
        0 <= i,
        list_order_from(a, b, i) <= 0,
        list_order_from(b, c, i) <= 0,
    ensures
        list_order_from(a, c, i) <= 0,
        list_order_from(a, c, i) == 0 <==> list_order_from(a, b, i) == 0 && list_order_from(b, c, i)
            == 0,
    decreases a, a.len() - i,
{
    if i < a.len() && i < b.len() && i < c.len() {
        lemma_order_transitive(a[i], b[i], c[i]);
        if value_order(a[i], b[i]) == 0 && value_order(b[i], c[i]) == 0 {
            lemma_list_trans(a, b, c, i + 1);
        }
    }
}

proof fn lemma_entry_trans(
    a: Seq<(Text, ValueModel)>,
    b: Seq<(Text, ValueModel)>,
    c: Seq<(Text, ValueModel)>,
    i: int,
)
    requires
        0 <= i,
        entry_order_from(a, b, i) <= 0,
        entry_order_from(b, c, i) <= 0,
    ensures
        entry_order_from(a, c, i) <= 0,
        entry_order_from(a, c, i) == 0 <==> entry_order_from(a, b, i) == 0 && entry_order_from(
            b,
            c,
            i,
        ) == 0,
    decreases a, a.len() - i,
{
    if i < a.len() && i < b.len() && i < c.len() {
        lemma_text_trans(a[i].0, b[i].0, c[i].0, 0);
        if text_order(a[i].0, b[i].0) == 0 && text_order(b[i].0, c[i].0) == 0 {
            lemma_text_same(a[i].0, b[i].0, 0);
            lemma_text_same(b[i].0, c[i].0, 0);
            lemma_order_transitive(a[i].1, b[i].1, c[i].1);
            if value_order(a[i].1, b[i].1) == 0 && value_order(b[i].1, c[i].1) == 0 {
                lemma_entry_trans(a, b, c, i + 1);
            }
        }
    }
}

/// A value compares equal to itself.
pub proof fn lemma_order_reflexive(a: ValueModel)
    ensures
        value_order(a, a) == 0,
{
    lemma_order_flips(a, a);
}

/// Of two values, one comes first or they compare equal; values of different types compare by the
/// rank of their types, so that null comes last.
pub proof fn lemma_order_by_rank(a: ValueModel, b: ValueModel)
    ensures
        rank(a) < rank(b) ==> value_order(a, b) < 0,
        a is Null && !(b is Null) ==> value_order(b, a) < 0,
{
}

} // verus!
