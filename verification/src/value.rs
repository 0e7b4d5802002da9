//! The values that expressions evaluate to and that results hold.

use std::cmp::Ordering;

use vstd::prelude::*;

use crate::text::{
    bool_text, int_text, join, lemma_join_push, order_texts, push_bool, push_int, push_text,
    text_order, Text,
};

verus! {

/// The mathematical model of a [`CypherValue`]: vectors and strings become sequences.
pub enum ValueModel {
    Null,
    Bool(bool),
    Int(i64),
    Str(Text),
    Node { id: Text, label: Text, name: Text },
    List(Seq<ValueModel>),
    Mapping(Seq<(Text, ValueModel)>),
}

/// A scalar or composite value produced by evaluating a Cypher expression or projecting a result.
#[derive(Debug, PartialEq, Eq, Hash)]
pub enum CypherValue {
    Null,
    Bool(bool),
    Int(i64),
    Str(String),
    /// A graph node. `id` is the provider's stable, opaque identity for the node (used for equality
    /// and grouping, never displayed); `label` and `name` are what gets rendered.
    Node { id: String, label: String, name: String },
    List(Vec<CypherValue>),
    /// An ordered map, e.g. from a map projection `n { .name, k: expr }`.
    Mapping(Vec<(String, CypherValue)>),
}

/// The models of a sequence of values.
pub open spec fn value_models(values: Seq<CypherValue>) -> Seq<ValueModel>
    decreases values,
{
    Seq::new(
        values.len(),
        |i: int|
            if 0 <= i < values.len() {
                values[i].view()
            } else {
                ValueModel::Null
            },
    )
}

/// The models of the entries of a map value.
pub open spec fn entry_models(entries: Seq<(String, CypherValue)>) -> Seq<(Text, ValueModel)>
    decreases entries,
{
    Seq::new(
        entries.len(),
        |i: int|
            if 0 <= i < entries.len() {
                (entries[i].0@, entries[i].1.view())
            } else {
                (Seq::empty(), ValueModel::Null)
            },
    )
}

impl CypherValue {
    /// The model of the value.
    pub open spec fn view(&self) -> ValueModel
        decreases self,
    {
        match self {
            CypherValue::Null => ValueModel::Null,
            CypherValue::Bool(b) => ValueModel::Bool(*b),
            CypherValue::Int(i) => ValueModel::Int(*i),
            CypherValue::Str(s) => ValueModel::Str(s@),
            CypherValue::Node { id, label, name } => ValueModel::Node {
                id: id@,
                label: label@,
                name: name@,
            },
            CypherValue::List(items) => ValueModel::List(value_models(items@)),
            CypherValue::Mapping(entries) => ValueModel::Mapping(entry_models(entries@)),
        }
    }
}

/// A list's model grows with the list.
pub proof fn lemma_value_models_push(values: Seq<CypherValue>, value: CypherValue)
    ensures
        value_models(values.push(value)) == value_models(values).push(value@),
{
    assert forall|k: int| 0 <= k < values.len() implies value_models(values.push(value))[k]
        == #[trigger] value_models(values)[k] by {
        assert(values.push(value)[k] == values[k]);
    }
    assert(value_models(values.push(value)) =~= value_models(values).push(value@));
}

/// A map's model grows with the map.
pub proof fn lemma_entry_models_push(
    entries: Seq<(String, CypherValue)>,
    entry: (String, CypherValue),
)
    ensures
        entry_models(entries.push(entry)) == entry_models(entries).push((entry.0@, entry.1@)),
{
    assert forall|k: int| 0 <= k < entries.len() implies entry_models(entries.push(entry))[k]
        == #[trigger] entry_models(entries)[k] by {
        assert(entries.push(entry)[k] == entries[k]);
    }
    assert(entry_models(entries.push(entry)) =~= entry_models(entries).push(
        (entry.0@, entry.1@),
    ));
}

impl Clone for CypherValue {
    fn clone(&self) -> (r: Self)
        ensures
            r@ == self@,
        decreases self,
    {
        match self {
            CypherValue::Null => CypherValue::Null,
            CypherValue::Bool(b) => CypherValue::Bool(*b),
            CypherValue::Int(i) => CypherValue::Int(*i),
            CypherValue::Str(s) => CypherValue::Str(s.clone()),
            CypherValue::Node { id, label, name } => CypherValue::Node {
                id: id.clone(),
                label: label.clone(),
                name: name.clone(),
            },
            CypherValue::List(items) => {
                let mut out: Vec<CypherValue> = Vec::new();
                let mut i: usize = 0;
                while i < items.len()
                    invariant
                        i <= items@.len(),
                        self is List,
                        self->List_0 == *items,
                        value_models(out@) == value_models(items@).take(i as int),
                    decreases items@.len() - i,
                {
                    proof {
                        assert(decreases_to!(self => self->List_0));
                    }
                    let item = items[i].clone();
                    proof {
                        lemma_value_models_push(out@, item);
                    }
                    out.push(item);
                    i += 1;
                    assert(value_models(out@) =~= value_models(items@).take(i as int));
                }
                assert(value_models(items@).take(i as int) =~= value_models(items@));
                CypherValue::List(out)
            },
            CypherValue::Mapping(entries) => {
                let mut out: Vec<(String, CypherValue)> = Vec::new();
                let mut i: usize = 0;
                while i < entries.len()
                    invariant
                        i <= entries@.len(),
                        self is Mapping,
                        self->Mapping_0 == *entries,
                        entry_models(out@) == entry_models(entries@).take(i as int),
                    decreases entries@.len() - i,
                {
                    proof {
                        assert(decreases_to!(self => self->Mapping_0));
                    }
                    let entry = (entries[i].0.clone(), entries[i].1.clone());
                    proof {
                        lemma_entry_models_push(out@, entry);
                    }
                    out.push(entry);
                    i += 1;
                    assert(entry_models(out@) =~= entry_models(entries@).take(i as int));
                }
                assert(entry_models(entries@).take(i as int) =~= entry_models(entries@));
                CypherValue::Mapping(out)
            },
        }
    }
}

/// A copy of a list of values.
pub fn clone_values(values: &Vec<CypherValue>) -> (r: Vec<CypherValue>)
    ensures
        value_models(r@) == value_models(values@),
{
    let mut out: Vec<CypherValue> = Vec::new();
    let mut i: usize = 0;
    while i < values.len()
        invariant
            i <= values@.len(),
            value_models(out@) == value_models(values@).take(i as int),
        decreases values@.len() - i,
    {
        let value = values[i].clone();
        proof {
            lemma_value_models_push(out@, value);
        }
        out.push(value);
        i += 1;
        assert(value_models(out@) =~= value_models(values@).take(i as int));
    }
    assert(value_models(values@).take(i as int) =~= value_models(values@));
    out
}

/// Whether a value counts as true in a filter: `NULL` and `false` do not, everything else does.
pub open spec fn truthy(v: ValueModel) -> bool {
    match v {
        ValueModel::Null => false,
        ValueModel::Bool(b) => b,
        _ => true,
    }
}

/// Rank of a value's type for cross-type ordering:
/// `Map < Node < List < String < Boolean < Number < null`.
pub open spec fn rank(v: ValueModel) -> int {
    match v {
        ValueModel::Mapping(_) => 0,
        ValueModel::Node { .. } => 1,
        ValueModel::List(_) => 2,
        ValueModel::Str(_) => 3,
        ValueModel::Bool(_) => 4,
        ValueModel::Int(_) => 5,
        ValueModel::Null => 6,
    }
}

/// The sign of `a - b`.
pub open spec fn sign(a: int, b: int) -> int {
    if a < b {
        -1
    } else if a > b {
        1
    } else {
        0
    }
}

/// The sign of the comparison of two truth values: `false` comes first.
pub open spec fn bool_order(a: bool, b: bool) -> int {
    if a == b {
        0
    } else if b {
        -1
    } else {
        1
    }
}

/// The sign of the comparison of two values: values of one type by value (nodes by name, lists and
/// maps entry by entry and then by length), values of different types by [`rank`].
pub open spec fn value_order(a: ValueModel, b: ValueModel) -> int
    decreases a, 0int,
{
    match (a, b) {
        (ValueModel::Bool(x), ValueModel::Bool(y)) => bool_order(x, y),
        (ValueModel::Int(x), ValueModel::Int(y)) => sign(x as int, y as int),
        (ValueModel::Str(x), ValueModel::Str(y)) => text_order(x, y),
        (ValueModel::Node { name: x, .. }, ValueModel::Node { name: y, .. }) => text_order(x, y),
        (ValueModel::List(x), ValueModel::List(y)) => list_order_from(x, y, 0),
        (ValueModel::Mapping(x), ValueModel::Mapping(y)) => entry_order_from(x, y, 0),
        _ => sign(rank(a), rank(b)),
    }
}

/// The comparison of two lists from position `i` on: the first difference decides, then the length.
pub open spec fn list_order_from(a: Seq<ValueModel>, b: Seq<ValueModel>, i: int) -> int
    decreases a, a.len() - i,
{
    if i < 0 || i >= a.len() || i >= b.len() {
        sign(a.len() as int, b.len() as int)
    } else {
        let o = value_order(a[i], b[i]);
        if o != 0 {
            o
        } else {
            list_order_from(a, b, i + 1)
        }
    }
}

/// The comparison of two maps from entry `i` on: key, then value, then the number of entries.
pub open spec fn entry_order_from(
    a: Seq<(Text, ValueModel)>,
    b: Seq<(Text, ValueModel)>,
    i: int,
) -> int
    decreases a, a.len() - i,
{
    if i < 0 || i >= a.len() || i >= b.len() {
        sign(a.len() as int, b.len() as int)
    } else {
        let k = text_order(a[i].0, b[i].0);
        let o = if k != 0 {
            k
        } else {
            value_order(a[i].1, b[i].1)
        };
        if o != 0 {
            o
        } else {
            entry_order_from(a, b, i + 1)
        }
    }
}

/// The `Ordering` of a sign.
pub open spec fn ordering_of(sign: int) -> Ordering {
    if sign < 0 {
        Ordering::Less
    } else if sign > 0 {
        Ordering::Greater
    } else {
        Ordering::Equal
    }
}

/// The plain-text rendering of a value.
pub open spec fn display(v: ValueModel) -> Text
    decreases v,
{
    match v {
        ValueModel::Null => Seq::empty(),
        ValueModel::Bool(b) => bool_text(b),
        ValueModel::Int(i) => int_text(i as int),
        ValueModel::Str(s) => s,
        ValueModel::Node { name, .. } => name,
        ValueModel::List(items) => "["@ + join(display_items(items), ", "@) + "]"@,
        ValueModel::Mapping(entries) => "{"@ + join(display_entries(entries), ", "@) + "}"@,
    }
}

/// The plain-text renderings of the elements of a list.
pub open spec fn display_items(items: Seq<ValueModel>) -> Seq<Text>
    decreases items,
{
    Seq::new(
        items.len(),
        |i: int|
            if 0 <= i < items.len() {
                display(items[i])
            } else {
                Seq::empty()
            },
    )
}

/// The plain-text renderings `key: value` of the entries of a map.
pub open spec fn display_entries(entries: Seq<(Text, ValueModel)>) -> Seq<Text>
    decreases entries,
{
    Seq::new(
        entries.len(),
        |i: int|
            if 0 <= i < entries.len() {
                entries[i].0 + ": "@ + display(entries[i].1)
            } else {
                Seq::empty()
            },
    )
}

/// The lower-case hexadecimal digit of a number below 16.
pub open spec fn hex_digit(d: int) -> char {
    if d == 0 {
        '0'
    } else if d == 1 {
        '1'
    } else if d == 2 {
        '2'
    } else if d == 3 {
        '3'
    } else if d == 4 {
        '4'
    } else if d == 5 {
        '5'
    } else if d == 6 {
        '6'
    } else if d == 7 {
        '7'
    } else if d == 8 {
        '8'
    } else if d == 9 {
        '9'
    } else if d == 10 {
        'a'
    } else if d == 11 {
        'b'
    } else if d == 12 {
        'c'
    } else if d == 13 {
        'd'
    } else if d == 14 {
        'e'
    } else {
        'f'
    }
}

/// The JSON escape of one character: quotes, backslashes and control characters are escaped, every
/// other character stands for itself.
pub open spec fn json_char(c: char) -> Text {
    if c == '"' {
        "\\\""@
    } else if c == '\\' {
        "\\\\"@
    } else if c == '\n' {
        "\\n"@
    } else if c == '\r' {
        "\\r"@
    } else if c == '\t' {
        "\\t"@
    } else if (c as u32) < 0x20 {
        "\\u00"@.push(hex_digit((c as u32) as int / 16)).push(hex_digit((c as u32) as int % 16))
    } else {
        seq![c]
    }
}

/// The JSON escapes of the characters of a text, one after the other.
pub open spec fn json_chars(s: Text) -> Text
    decreases s.len(),
{
    if s.len() == 0 {
        Seq::empty()
    } else {
        json_chars(s.drop_last()) + json_char(s.last())
    }
}

/// A text as a JSON string literal.
pub open spec fn json_text(s: Text) -> Text {
    "\""@ + json_chars(s) + "\""@
}

/// The JSON rendering of a value. A node shows its label and name, never its id.
pub open spec fn json(v: ValueModel) -> Text
    decreases v,
{
    match v {
        ValueModel::Null => "null"@,
        ValueModel::Bool(b) => bool_text(b),
        ValueModel::Int(i) => int_text(i as int),
        ValueModel::Str(s) => json_text(s),
        ValueModel::Node { label, name, .. } => "{\"label\":"@ + json_text(label) + ",\"name\":"@
            + json_text(name) + "}"@,
        ValueModel::List(items) => "["@ + join(json_items(items), ","@) + "]"@,
        ValueModel::Mapping(entries) => "{"@ + join(json_entries(entries), ","@) + "}"@,
    }
}

/// The JSON renderings of the elements of a list.
pub open spec fn json_items(items: Seq<ValueModel>) -> Seq<Text>
    decreases items,
{
    Seq::new(
        items.len(),
        |i: int|
            if 0 <= i < items.len() {
                json(items[i])
            } else {
                Seq::empty()
            },
    )
}

/// The JSON renderings `"key":value` of the entries of a map.
pub open spec fn json_entries(entries: Seq<(Text, ValueModel)>) -> Seq<Text>
    decreases entries,
{
    Seq::new(
        entries.len(),
        |i: int|
            if 0 <= i < entries.len() {
                json_text(entries[i].0) + ":"@ + json(entries[i].1)
            } else {
                Seq::empty()
            },
    )
}

/// The integer that a value holds, if it is an integer.
pub open spec fn int_of(v: ValueModel) -> Option<i64> {
    match v {
        ValueModel::Int(i) => Some(i),
        _ => None,
    }
}

impl CypherValue {
    /// Returns the truthiness of a value for use in `WHERE` filtering.
    /// `NULL` and `false` are falsy; everything else (including bound nodes) is truthy.
    #[must_use]
    pub fn is_truthy(&self) -> (r: bool)
        ensures
            r == truthy(self@),
    {
        match self {
            CypherValue::Null => false,
            CypherValue::Bool(b) => *b,
            _ => true,
        }
    }

    /// Returns a numeric view of the value if it is an integer.
    #[must_use]
    pub fn as_int(&self) -> (r: Option<i64>)
        ensures
            r == int_of(self@),
    {
        match self {
            CypherValue::Int(i) => Some(*i),
            _ => None,
        }
    }

    /// Returns a string view of the value if it is a string.
    #[must_use]
    pub fn as_str(&self) -> (r: Option<&str>)
        ensures
            r is Some <==> self@ is Str,
            r matches Some(s) ==> self@ == ValueModel::Str(s@),
    {
        match self {
            CypherValue::Str(s) => Some(s.as_str()),
            _ => None,
        }
    }

    /// Whether the value is `NULL`.
    pub fn is_null(&self) -> (r: bool)
        ensures
            r == (self@ is Null),
    {
        match self {
            CypherValue::Null => true,
            _ => false,
        }
    }

    /// Rank of each variant for cross-type ordering.
    fn type_rank(&self) -> (r: u8)
        ensures
            r == rank(self@),
    {
        match self {
            CypherValue::Mapping(_) => 0,
            CypherValue::Node { .. } => 1,
            CypherValue::List(_) => 2,
            CypherValue::Str(_) => 3,
            CypherValue::Bool(_) => 4,
            CypherValue::Int(_) => 5,
            CypherValue::Null => 6,
        }
    }

    /// Whether two values are equal: the same type and the same contents, nodes by their id, label
    /// and name.
    pub fn same(&self, other: &CypherValue) -> (r: bool)
        ensures
            r == (self@ == other@),
        decreases self,
    {
        match (self, other) {
            (CypherValue::Null, CypherValue::Null) => true,
            (CypherValue::Bool(a), CypherValue::Bool(b)) => *a == *b,
            (CypherValue::Int(a), CypherValue::Int(b)) => *a == *b,
            (CypherValue::Str(a), CypherValue::Str(b)) => *a == *b,
            (
                CypherValue::Node { id: ai, label: al, name: an },
                CypherValue::Node { id: bi, label: bl, name: bn },
            ) => *ai == *bi && *al == *bl && *an == *bn,
            (CypherValue::List(a), CypherValue::List(b)) => {
                if a.len() != b.len() {
                    assert(value_models(a@).len() != value_models(b@).len());
                    return false;
                }
                let mut i: usize = 0;
                while i < a.len()
                    invariant
                        i <= a@.len(),
                        a@.len() == b@.len(),
                        self is List,
                        self->List_0 == *a,
                        other@ == ValueModel::List(value_models(b@)),
                        forall|k: int|
                            0 <= k < i ==> #[trigger] value_models(a@)[k] == value_models(b@)[k],
                    decreases a@.len() - i,
                {
                    proof {
                        assert(decreases_to!(self => self->List_0));
                    }
                    if !a[i].same(&b[i]) {
                        assert(value_models(a@)[i as int] != value_models(b@)[i as int]);
                        return false;
                    }
                    i += 1;
                }
                assert(value_models(a@) =~= value_models(b@));
                true
            },
            (CypherValue::Mapping(a), CypherValue::Mapping(b)) => {
                if a.len() != b.len() {
                    assert(entry_models(a@).len() != entry_models(b@).len());
                    return false;
                }
                let mut i: usize = 0;
                while i < a.len()
                    invariant
                        i <= a@.len(),
                        a@.len() == b@.len(),
                        self is Mapping,
                        self->Mapping_0 == *a,
                        other@ == ValueModel::Mapping(entry_models(b@)),
                        forall|k: int|
                            0 <= k < i ==> #[trigger] entry_models(a@)[k] == entry_models(b@)[k],
                    decreases a@.len() - i,
                {
                    proof {
                        assert(decreases_to!(self => self->Mapping_0));
                    }
                    if a[i].0 != b[i].0 || !a[i].1.same(&b[i].1) {
                        assert(entry_models(a@)[i as int] != entry_models(b@)[i as int]);
                        return false;
                    }
                    i += 1;
                }
                assert(entry_models(a@) =~= entry_models(b@));
                true
            },
            _ => false,
        }
    }

    /// The sign of the comparison of two values.
    pub fn order(&self, other: &CypherValue) -> (r: i8)
        ensures
            r == value_order(self@, other@),
        decreases self,
    {
        match (self, other) {
            (CypherValue::Bool(a), CypherValue::Bool(b)) => if *a == *b {
                0
            } else if *b {
                -1
            } else {
                1
            },
            (CypherValue::Int(a), CypherValue::Int(b)) => if *a < *b {
                -1
            } else if *a > *b {
                1
            } else {
                0
            },
            (CypherValue::Str(a), CypherValue::Str(b)) => order_texts(a.as_str(), b.as_str()),
            (CypherValue::Node { name: a, .. }, CypherValue::Node { name: b, .. }) => order_texts(
                a.as_str(),
                b.as_str(),
            ),
            (CypherValue::List(a), CypherValue::List(b)) => {
                let mut i: usize = 0;
                while i < a.len() && i < b.len()
                    invariant
                        i <= a@.len(),
                        i <= b@.len(),
                        self is List,
                        self->List_0 == *a,
                        value_order(self@, other@) == list_order_from(
                            value_models(a@),
                            value_models(b@),
                            i as int,
                        ),
                    decreases a@.len() - i,
                {
                    proof {
                        assert(decreases_to!(self => self->List_0));
                    }
                    let o = a[i].order(&b[i]);
                    if o != 0 {
                        return o;
                    }
                    i += 1;
                }
                if a.len() < b.len() {
                    -1
                } else if a.len() > b.len() {
                    1
                } else {
                    0
                }
            },
            (CypherValue::Mapping(a), CypherValue::Mapping(b)) => {
                let mut i: usize = 0;
                while i < a.len() && i < b.len()
                    invariant
                        i <= a@.len(),
                        i <= b@.len(),
                        self is Mapping,
                        self->Mapping_0 == *a,
                        value_order(self@, other@) == entry_order_from(
                            entry_models(a@),
                            entry_models(b@),
                            i as int,
                        ),
                    decreases a@.len() - i,
                {
                    proof {
                        assert(decreases_to!(self => self->Mapping_0));
                    }
                    let k = order_texts(a[i].0.as_str(), b[i].0.as_str());
                    if k != 0 {
                        return k;
                    }
                    let o = a[i].1.order(&b[i].1);
                    if o != 0 {
                        return o;
                    }
                    i += 1;
                }
                if a.len() < b.len() {
                    -1
                } else if a.len() > b.len() {
                    1
                } else {
                    0
                }
            },
            _ => {
                let x = self.type_rank();
                let y = other.type_rank();
                if x < y {
                    -1
                } else if x > y {
                    1
                } else {
                    0
                }
            },
        }
    }

    /// Total ordering across all value types, following openCypher orderability. Values of the same
    /// type are ordered by value; values of differing types by rank, so `null` sorts last and
    /// strings sort before numbers. (Nodes are ordered by name rather than identity.)
    #[must_use]
    pub fn total_cmp(&self, other: &CypherValue) -> (r: Ordering)
        ensures
            r == ordering_of(value_order(self@, other@)),
    {
        let o = self.order(other);
        if o < 0 {
            Ordering::Less
        } else if o > 0 {
            Ordering::Greater
        } else {
            Ordering::Equal
        }
    }

    /// Appends the plain-text rendering of the value.
    pub fn push_display(&self, out: &mut String)
        ensures
            final(out)@ == old(out)@ + display(self@),
        decreases self,
    {
        let ghost start = out@;
        match self {
            CypherValue::Null => {
                assert(start + display(self@) =~= start);
            },
            CypherValue::Bool(b) => push_bool(out, *b),
            CypherValue::Int(i) => push_int(out, *i),
            CypherValue::Str(s) => push_text(out, s.as_str()),
            CypherValue::Node { name, .. } => push_text(out, name.as_str()),
            CypherValue::List(items) => {
                push_text(out, "[");
                let ghost parts = display_items(value_models(items@));
                let mut i: usize = 0;
                assert(out@ =~= start + "["@ + join(parts.take(0), ", "@));
                while i < items.len()
                    invariant
                        i <= items@.len(),
                        self is List,
                        self->List_0 == *items,
                        parts == display_items(value_models(items@)),
                        out@ == start + "["@ + join(parts.take(i as int), ", "@),
                    decreases items@.len() - i,
                {
                    proof {
                        assert(decreases_to!(self => self->List_0));
                        lemma_join_push(parts.take(i as int), parts[i as int], ", "@);
                        assert(parts.take(i + 1) =~= parts.take(i as int).push(parts[i as int]));
                    }
                    if i > 0 {
                        push_text(out, ", ");
                    }
                    items[i].push_display(out);
                    assert(out@ =~= start + "["@ + join(parts.take(i + 1), ", "@));
                    i += 1;
                }
                assert(parts.take(i as int) =~= parts);
                push_text(out, "]");
                assert(out@ =~= start + display(self@));
            },
            CypherValue::Mapping(entries) => {
                push_text(out, "{");
                let ghost parts = display_entries(entry_models(entries@));
                let mut i: usize = 0;
                assert(out@ =~= start + "{"@ + join(parts.take(0), ", "@));
                while i < entries.len()
                    invariant
                        i <= entries@.len(),
                        self is Mapping,
                        self->Mapping_0 == *entries,
                        parts == display_entries(entry_models(entries@)),
                        out@ == start + "{"@ + join(parts.take(i as int), ", "@),
                    decreases entries@.len() - i,
                {
                    proof {
                        assert(decreases_to!(self => self->Mapping_0));
                        lemma_join_push(parts.take(i as int), parts[i as int], ", "@);
                        assert(parts.take(i + 1) =~= parts.take(i as int).push(parts[i as int]));
                    }
                    if i > 0 {
                        push_text(out, ", ");
                    }
                    push_text(out, entries[i].0.as_str());
                    push_text(out, ": ");
                    entries[i].1.push_display(out);
                    assert(out@ =~= start + "{"@ + join(parts.take(i + 1), ", "@));
                    i += 1;
                }
                assert(parts.take(i as int) =~= parts);
                push_text(out, "}");
                assert(out@ =~= start + display(self@));
            },
        }
    }

    /// Renders the value for display in a plain-text table cell.
    #[must_use]
    pub fn to_display_string(&self) -> (r: String)
        ensures
            r@ == display(self@),
    {
        let mut out = String::new();
        self.push_display(&mut out);
        assert(out@ =~= display(self@));
        out
    }

    /// Renders the value as a JSON fragment, appending to `out`.
    pub fn write_json(&self, out: &mut String)
        ensures
            final(out)@ == old(out)@ + json(self@),
        decreases self,
    {
        let ghost start = out@;
        match self {
            CypherValue::Null => push_text(out, "null"),
            CypherValue::Bool(b) => push_bool(out, *b),
            CypherValue::Int(i) => push_int(out, *i),
            CypherValue::Str(s) => write_json_string(out, s.as_str()),
            CypherValue::Node { label, name, .. } => {
                push_text(out, "{\"label\":");
                write_json_string(out, label.as_str());
                push_text(out, ",\"name\":");
                write_json_string(out, name.as_str());
                push_text(out, "}");
                assert(out@ =~= start + json(self@));
            },
            CypherValue::List(items) => {
                push_text(out, "[");
                let ghost parts = json_items(value_models(items@));
                let mut i: usize = 0;
                assert(out@ =~= start + "["@ + join(parts.take(0), ","@));
                while i < items.len()
                    invariant
                        i <= items@.len(),
                        self is List,
                        self->List_0 == *items,
                        parts == json_items(value_models(items@)),
                        out@ == start + "["@ + join(parts.take(i as int), ","@),
                    decreases items@.len() - i,
                {
                    proof {
                        assert(decreases_to!(self => self->List_0));
                        lemma_join_push(parts.take(i as int), parts[i as int], ","@);
                        assert(parts.take(i + 1) =~= parts.take(i as int).push(parts[i as int]));
                    }
                    if i > 0 {
                        push_text(out, ",");
                    }
                    items[i].write_json(out);
                    assert(out@ =~= start + "["@ + join(parts.take(i + 1), ","@));
                    i += 1;
                }
                assert(parts.take(i as int) =~= parts);
                push_text(out, "]");
                assert(out@ =~= start + json(self@));
            },
            CypherValue::Mapping(entries) => {
                push_text(out, "{");
                let ghost parts = json_entries(entry_models(entries@));
                let mut i: usize = 0;
                assert(out@ =~= start + "{"@ + join(parts.take(0), ","@));
                while i < entries.len()
                    invariant
                        i <= entries@.len(),
                        self is Mapping,
                        self->Mapping_0 == *entries,
                        parts == json_entries(entry_models(entries@)),
                        out@ == start + "{"@ + join(parts.take(i as int), ","@),
                    decreases entries@.len() - i,
                {
                    proof {
                        assert(decreases_to!(self => self->Mapping_0));
                        lemma_join_push(parts.take(i as int), parts[i as int], ","@);
                        assert(parts.take(i + 1) =~= parts.take(i as int).push(parts[i as int]));
                    }
                    if i > 0 {
                        push_text(out, ",");
                    }
                    write_json_string(out, entries[i].0.as_str());
                    push_text(out, ":");
                    entries[i].1.write_json(out);
                    assert(out@ =~= start + "{"@ + join(parts.take(i + 1), ","@));
                    i += 1;
                }
                assert(parts.take(i as int) =~= parts);
                push_text(out, "}");
                assert(out@ =~= start + json(self@));
            },
        }
    }
}

/// The lower-case hexadecimal digit of a number below 16.
fn hex(d: u32) -> (r: char)
    requires
        d < 16,
    ensures
        r == hex_digit(d as int),
{
    if d == 0 {
        '0'
    } else if d == 1 {
        '1'
    } else if d == 2 {
        '2'
    } else if d == 3 {
        '3'
    } else if d == 4 {
        '4'
    } else if d == 5 {
        '5'
    } else if d == 6 {
        '6'
    } else if d == 7 {
        '7'
    } else if d == 8 {
        '8'
    } else if d == 9 {
        '9'
    } else if d == 10 {
        'a'
    } else if d == 11 {
        'b'
    } else if d == 12 {
        'c'
    } else if d == 13 {
        'd'
    } else if d == 14 {
        'e'
    } else {
        'f'
    }
}

/// Appends the JSON escape of one character.
fn push_json_char(out: &mut String, c: char)
    ensures
        final(out)@ == old(out)@ + json_char(c),
{
    let ghost start = out@;
    if c == '"' {
        push_text(out, "\\\"");
    } else if c == '\\' {
        push_text(out, "\\\\");
    } else if c == '\n' {
        push_text(out, "\\n");
    } else if c == '\r' {
        push_text(out, "\\r");
    } else if c == '\t' {
        push_text(out, "\\t");
    } else if (c as u32) < 0x20 {
        let code: u32 = c as u32;
        push_text(out, "\\u00");
        out.push(hex(code / 16));
        out.push(hex(code % 16));
        assert(out@ =~= start + json_char(c));
    } else {
        out.push(c);
        assert(out@ =~= start + json_char(c));
    }
}

/// Escapes and quotes a string as a JSON string literal.
pub fn write_json_string(out: &mut String, value: &str)
    ensures
        final(out)@ == old(out)@ + json_text(value@),
{
    let ghost start = out@;
    push_text(out, "\"");
    assert(out@ =~= start + "\""@ + json_chars(value@.take(0)));
    for c in it: value.chars()
        invariant
            it.seq() == value@,
            out@ == start + "\""@ + json_chars(value@.take(it.index() as int)),
    {
        push_json_char(out, c);
        assert(value@.take(it.index() + 1).drop_last() =~= value@.take(it.index() as int));
        assert(out@ =~= start + "\""@ + json_chars(value@.take(it.index() + 1)));
    }
    assert(value@.take(value@.len() as int) =~= value@);
    push_text(out, "\"");
    assert(out@ =~= start + json_text(value@));
}

// ---- Node ids stay out of the output ---------------------------------------------

/// The value with the ids of its nodes taken out.
pub open spec fn without_ids(v: ValueModel) -> ValueModel
    decreases v,
{
    match v {
        ValueModel::Node { id, label, name } => ValueModel::Node { id: Seq::empty(), label, name },
        ValueModel::List(items) => ValueModel::List(items_without_ids(items)),
        ValueModel::Mapping(entries) => ValueModel::Mapping(entries_without_ids(entries)),
        _ => v,
    }
}

/// The items with the ids of their nodes taken out.
pub open spec fn items_without_ids(items: Seq<ValueModel>) -> Seq<ValueModel>
    decreases items,
{
    Seq::new(
        items.len(),
        |i: int|
            if 0 <= i < items.len() {
                without_ids(items[i])
            } else {
                ValueModel::Null
            },
    )
}

/// The entries with the ids of their nodes taken out.
pub open spec fn entries_without_ids(entries: Seq<(Text, ValueModel)>) -> Seq<(Text, ValueModel)>
    decreases entries,
{
    Seq::new(
        entries.len(),
        |i: int|
            if 0 <= i < entries.len() {
                (entries[i].0, without_ids(entries[i].1))
            } else {
                (Seq::empty(), ValueModel::Null)
            },
    )
}

/// The id of a node has no part in how a value is rendered.
pub proof fn lemma_rendering_ignores_ids(v: ValueModel)
    ensures
        json(without_ids(v)) == json(v),
        display(without_ids(v)) == display(v),
    decreases v,
{
    match v {
        ValueModel::List(items) => {
            let bare = items_without_ids(items);
            assert forall|i: int| 0 <= i < items.len() implies json(#[trigger] bare[i]) == json(
                items[i],
            ) && display(bare[i]) == display(items[i]) by {
                lemma_rendering_ignores_ids(items[i]);
            }
            assert(json_items(bare) =~= json_items(items));
            assert(display_items(bare) =~= display_items(items));
        },
        ValueModel::Mapping(entries) => {
            let bare = entries_without_ids(entries);
            assert forall|i: int| 0 <= i < entries.len() implies json((#[trigger] bare[i]).1)
                == json(entries[i].1) && display(bare[i].1) == display(entries[i].1) by {
                lemma_rendering_ignores_ids(entries[i].1);
            }
            assert(json_entries(bare) =~= json_entries(entries));
            assert(display_entries(bare) =~= display_entries(entries));
        },
        _ => {},
    }
}

} // verus!
