//! The law of the JSON rendering: what is written is a JSON text, and its strings can be read back.

use vstd::prelude::*;

use crate::executor::ResultModel;
use crate::format::result_value;
use crate::lexer::{char_at, digits_end, is_digit, left, past};
use crate::text::{digits, int_text, join, occurs_at, Text};
use crate::value::{
    hex_digit, json, json_char, json_chars, json_entries, json_items, json_text,
    lemma_rendering_ignores_ids, without_ids, ValueModel,
};

verus! {

// ---- JSON texts ------------------------------------------------------------------

/// The number that a hexadecimal digit stands for.
pub open spec fn hex_value(c: char) -> Option<nat> {
    if '0' <= c && c <= '9' {
        Some((c as nat - '0' as nat) as nat)
    } else if 'a' <= c && c <= 'f' {
        Some((c as nat - 'a' as nat + 10) as nat)
    } else if 'A' <= c && c <= 'F' {
        Some((c as nat - 'A' as nat + 10) as nat)
    } else {
        None
    }
}

/// The code that the four hexadecimal digits at a position stand for.
pub open spec fn code_at(s: Text, i: nat) -> Option<nat> {
    match (
        hex_value(char_at(s, i)),
        hex_value(char_at(s, i + 1)),
        hex_value(char_at(s, i + 2)),
        hex_value(char_at(s, i + 3)),
    ) {
        (Some(a), Some(b), Some(c), Some(d)) => Some(a * 4096 + b * 256 + c * 16 + d),
        _ => None,
    }
}

/// The character that the escape sequence behind the backslash at a position stands for, and the
/// position behind it. A code that is half of a surrogate pair is refused.
pub open spec fn escape_at(s: Text, i: nat) -> Option<(char, nat)> {
    let c = char_at(s, i + 1);
    if c == '"' || c == '\\' || c == '/' {
        Some((c, i + 2))
    } else if c == 'b' {
        Some(('\u{8}', i + 2))
    } else if c == 'f' {
        Some(('\u{c}', i + 2))
    } else if c == 'n' {
        Some(('\n', i + 2))
    } else if c == 'r' {
        Some(('\r', i + 2))
    } else if c == 't' {
        Some(('\t', i + 2))
    } else if c == 'u' {
        match code_at(s, i + 2) {
            Some(code) => if code < 0xD800 || code > 0xDFFF {
                Some((code as char, i + 6))
            } else {
                None
            },
            None => None,
        }
    } else {
        None
    }
}

/// The text of the string literal that goes on at position `i`, and the position behind its closing
/// quote. Control characters must be escaped.
pub open spec fn chars_at(s: Text, i: nat) -> Option<(Text, nat)>
    decreases left(s.len(), i),
{
    if i >= s.len() {
        None
    } else if s[i as int] == '"' {
        Some((Seq::empty(), i + 1))
    } else if s[i as int] == '\\' {
        match escape_at(s, i) {
            Some((c, j)) => match chars_at(s, past(i, j)) {
                Some((rest, k)) => Some((seq![c] + rest, k)),
                None => None,
            },
            None => None,
        }
    } else if (s[i as int] as u32) < 0x20 {
        None
    } else {
        match chars_at(s, i + 1) {
            Some((rest, k)) => Some((seq![s[i as int]] + rest, k)),
            None => None,
        }
    }
}

/// The text of the string literal at a position, and the position behind it.
pub open spec fn string_at(s: Text, i: nat) -> Option<(Text, nat)> {
    if char_at(s, i) == '"' {
        chars_at(s, i + 1)
    } else {
        None
    }
}

/// The position behind the integer at a position: a minus or none, then digits without a leading
/// zero.
pub open spec fn number_at(s: Text, i: nat) -> Option<nat> {
    let a = if char_at(s, i) == '-' {
        i + 1
    } else {
        i
    };
    let j = digits_end(s, a);
    if j <= a || (char_at(s, a) == '0' && j > a + 1) {
        None
    } else {
        Some(j)
    }
}

/// The position behind the JSON value at a position. What it accepts is a value as RFC 8259 has it;
/// white space, fractions and exponents are refused.
pub open spec fn value_at(s: Text, i: nat) -> Option<nat>
    decreases left(s.len(), i), 0nat,
{
    let c = char_at(s, i);
    if i >= s.len() {
        None
    } else if c == '"' {
        match string_at(s, i) {
            Some((_, j)) => Some(j),
            None => None,
        }
    } else if c == '[' {
        if char_at(s, i + 1) == ']' {
            Some(i + 2)
        } else {
            items_at(s, i + 1)
        }
    } else if c == '{' {
        if char_at(s, i + 1) == '}' {
            Some(i + 2)
        } else {
            members_at(s, i + 1)
        }
    } else if occurs_at(s, "null"@, i as int) || occurs_at(s, "true"@, i as int) {
        Some(i + 4)
    } else if occurs_at(s, "false"@, i as int) {
        Some(i + 5)
    } else {
        number_at(s, i)
    }
}

/// The position behind the closing bracket of an array whose next element stands at a position.
pub open spec fn items_at(s: Text, i: nat) -> Option<nat>
    decreases left(s.len(), i), 1nat,
{
    match value_at(s, i) {
        None => None,
        Some(j) => if i < s.len() && char_at(s, j) == ',' {
            items_at(s, past(i, j + 1))
        } else if char_at(s, j) == ']' {
            Some(j + 1)
        } else {
            None
        },
    }
}

/// The position behind the closing brace of an object whose next member stands at a position.
pub open spec fn members_at(s: Text, i: nat) -> Option<nat>
    decreases left(s.len(), i), 1nat,
{
    match string_at(s, i) {
        None => None,
        Some((_, j)) => if i >= s.len() || char_at(s, j) != ':' {
            None
        } else {
            match value_at(s, past(i, j + 1)) {
                None => None,
                Some(k) => if char_at(s, k) == ',' {
                    members_at(s, past(i, k + 1))
                } else if char_at(s, k) == '}' {
                    Some(k + 1)
                } else {
                    None
                },
            }
        },
    }
}

/// Whether a text is a JSON text.
pub open spec fn is_json(s: Text) -> bool {
    value_at(s, 0) == Some(s.len())
}

// ---- Parts of a text -------------------------------------------------------------

proof fn lemma_occurs_parts(s: Text, a: Text, b: Text, i: int)
    requires
        occurs_at(s, a + b, i),
    ensures
        occurs_at(s, a, i),
        occurs_at(s, b, i + a.len()),
{
    assert(s.subrange(i, i + (a + b).len()).subrange(0, a.len() as int) =~= s.subrange(
        i,
        i + a.len(),
    ));
    assert((a + b).subrange(0, a.len() as int) =~= a);
    assert(s.subrange(i, i + (a + b).len()).subrange(a.len() as int, (a + b).len() as int)
        =~= s.subrange(i + a.len(), i + a.len() + b.len()));
    assert((a + b).subrange(a.len() as int, (a + b).len() as int) =~= b);
}

proof fn lemma_occurs_char(s: Text, t: Text, i: int, k: int)
    requires
        occurs_at(s, t, i),
        0 <= k < t.len(),
    ensures
        i + k < s.len(),
        char_at(s, (i + k) as nat) == t[k],
        s[i + k] == t[k],
{
    assert(s.subrange(i, i + t.len())[k] == s[i + k]);
}

/// The rendering of a text, from its front.
proof fn lemma_chars_front(t: Text)
    requires
        t.len() > 0,
    ensures
        json_chars(t) == json_char(t[0]) + json_chars(t.drop_first()),
    decreases t.len(),
{
    if t.len() == 1 {
        assert(t.drop_last() =~= Seq::empty());
        assert(t.drop_first() =~= Seq::empty());
        assert(json_chars(t.drop_last()) == Seq::<char>::empty());
        assert(json_chars(t.drop_first()) == Seq::<char>::empty());
        assert(json_chars(t) =~= json_char(t[0]));
        assert(json_char(t[0]) + json_chars(t.drop_first()) =~= json_char(t[0]));
    } else {
        let init = t.drop_last();
        let tail = t.drop_first();
        lemma_chars_front(init);
        assert(init[0] == t[0]);
        assert(tail.drop_last() =~= init.drop_first());
        assert(tail.last() == t.last());
        assert(json_chars(t) =~= json_char(t[0]) + json_chars(tail));
    }
}

/// Joined parts, from their front.
proof fn lemma_join_front(parts: Seq<Text>, sep: Text)
    requires
        parts.len() >= 2,
    ensures
        join(parts, sep) == parts[0] + sep + join(parts.drop_first(), sep),
    decreases parts.len(),
{
    let tail = parts.drop_first();
    if parts.len() == 2 {
        assert(parts.drop_last()[0] == parts[0]);
        assert(tail[0] == parts[1]);
        assert(join(parts.drop_last(), sep) == parts[0]);
        assert(join(tail, sep) == parts[1]);
    } else {
        let init = parts.drop_last();
        lemma_join_front(init, sep);
        assert(tail.drop_last() =~= init.drop_first());
        assert(tail.last() == parts.last());
        assert(join(parts, sep) =~= parts[0] + sep + join(tail, sep));
    }
}

// ---- Strings ---------------------------------------------------------------------

proof fn lemma_hex(d: int)
    requires
        0 <= d < 16,
    ensures
        hex_value(hex_digit(d)) == Some(d as nat),
{
}

/// The escape of one character is read back as the character.
proof fn lemma_char_read(s: Text, i: nat, c: char)
    requires
        occurs_at(s, json_char(c), i as int),
    ensures
        json_char(c).len() > 0,
        json_char(c)[0] == '\\' ==> char_at(s, i) == '\\' && escape_at(s, i) == Some(
            (c, i + json_char(c).len()),
        ),
        json_char(c)[0] != '\\' ==> json_char(c) == seq![c] && c != '"' && c != '\\' && (c as u32)
            >= 0x20,
{
    let t = json_char(c);
    reveal_strlit("\\\"");
    reveal_strlit("\\\\");
    reveal_strlit("\\n");
    reveal_strlit("\\r");
    reveal_strlit("\\t");
    reveal_strlit("\\u00");
    lemma_occurs_char(s, t, i as int, 0);
    if t.len() > 1 {
        lemma_occurs_char(s, t, i as int, 1);
    }
    if t.len() > 5 {
        lemma_occurs_char(s, t, i as int, 2);
        lemma_occurs_char(s, t, i as int, 3);
        lemma_occurs_char(s, t, i as int, 4);
        lemma_occurs_char(s, t, i as int, 5);
        let n = (c as u32) as int;
        lemma_hex(n / 16);
        lemma_hex(n % 16);
        assert(code_at(s, i + 2) == Some(n as nat));
        assert(n as nat as char == c);
    }
}

/// The rendering of a text, with its closing quote, is read back as the text.
proof fn lemma_chars_read(s: Text, i: nat, t: Text)
    requires
        occurs_at(s, json_chars(t).push('"'), i as int),
    ensures
        chars_at(s, i) == Some((t, i + json_chars(t).len() + 1)),
    decreases t.len(),
{
    if t.len() == 0 {
        lemma_occurs_char(s, json_chars(t).push('"'), i as int, 0);
        assert(t =~= Seq::empty());
    } else {
        let c = t[0];
        let tail = t.drop_first();
        lemma_chars_front(t);
        assert(json_chars(t).push('"') =~= json_char(c) + json_chars(tail).push('"'));
        lemma_occurs_parts(s, json_char(c), json_chars(tail).push('"'), i as int);
        lemma_char_read(s, i, c);
        lemma_occurs_char(s, json_char(c), i as int, 0);
        let j = i + json_char(c).len();
        lemma_chars_read(s, j, tail);
        assert(t =~= seq![c] + tail);
    }
}

/// A text that stands as a JSON string literal is read back.
proof fn lemma_string_read(s: Text, i: nat, t: Text)
    requires
        occurs_at(s, json_text(t), i as int),
    ensures
        char_at(s, i) == '"',
        string_at(s, i) == Some((t, i + json_text(t).len())),
{
    reveal_strlit("\"");
    assert(json_text(t) =~= seq!['"'] + json_chars(t).push('"'));
    lemma_occurs_parts(s, seq!['"'], json_chars(t).push('"'), i as int);
    lemma_occurs_char(s, seq!['"'], i as int, 0);
    lemma_chars_read(s, i + 1, t);
}

/// A JSON string literal stands for the text that it was made of.
pub proof fn lemma_string_decodes(t: Text)
    ensures
        string_at(json_text(t), 0) == Some((t, json_text(t).len())),
{
    assert(json_text(t).subrange(0, json_text(t).len() as int) =~= json_text(t));
    lemma_string_read(json_text(t), 0, t);
}

// ---- Values ----------------------------------------------------------------------

/// Whether a text is read as a value wherever it stands, unless a digit follows.
pub open spec fn reads(t: Text) -> bool {
    forall|s: Text, i: nat|
        occurs_at(s, t, i as int) && !is_digit(char_at(s, i + t.len())) ==> #[trigger] value_at(
            s,
            i,
        ) == Some(i + t.len())
}

proof fn lemma_reads_string(t: Text)
    ensures
        reads(json_text(t)),
{
    let u = json_text(t);
    assert forall|s: Text, i: nat|
        occurs_at(s, u, i as int) && !is_digit(char_at(s, i + u.len())) implies #[trigger] value_at(
        s,
        i,
    ) == Some(i + u.len()) by {
        lemma_string_read(s, i, t);
        reveal_strlit("\"");
        lemma_occurs_char(s, u, i as int, 0);
    }
}

proof fn lemma_reads_words()
    ensures
        reads("null"@),
        reads("true"@),
        reads("false"@),
{
    reveal_strlit("null");
    reveal_strlit("true");
    reveal_strlit("false");
    assert forall|s: Text, i: nat|
        occurs_at(s, "null"@, i as int) && !is_digit(char_at(s, i + "null"@.len())) implies
        #[trigger] value_at(s, i) == Some(i + "null"@.len()) by {
        lemma_occurs_char(s, "null"@, i as int, 0);
    }
    assert forall|s: Text, i: nat|
        occurs_at(s, "true"@, i as int) && !is_digit(char_at(s, i + "true"@.len())) implies
        #[trigger] value_at(s, i) == Some(i + "true"@.len()) by {
        lemma_occurs_char(s, "true"@, i as int, 0);
    }
    assert forall|s: Text, i: nat|
        occurs_at(s, "false"@, i as int) && !is_digit(char_at(s, i + "false"@.len())) implies
        #[trigger] value_at(s, i) == Some(i + "false"@.len()) by {
        lemma_occurs_char(s, "false"@, i as int, 0);
        if occurs_at(s, "null"@, i as int) {
            lemma_occurs_char(s, "null"@, i as int, 0);
        }
        if occurs_at(s, "true"@, i as int) {
            lemma_occurs_char(s, "true"@, i as int, 0);
        }
    }
}

/// Decimal notation is made of digits, without a leading zero.
proof fn lemma_digits_shape(n: nat)
    ensures
        digits(n).len() > 0,
        forall|k: int| 0 <= k < digits(n).len() ==> is_digit(#[trigger] digits(n)[k]),
        digits(n)[0] == '0' ==> n == 0,
        n < 10 ==> digits(n).len() == 1,
    decreases n,
{
    if n >= 10 {
        lemma_digits_shape(n / 10);
        assert(digits(n)[0] == digits(n / 10)[0]);
    }
}

/// Digits are read to their end.
proof fn lemma_digits_read(s: Text, i: nat, t: Text, k: nat)
    requires
        occurs_at(s, t, i as int),
        forall|k: int| 0 <= k < t.len() ==> is_digit(#[trigger] t[k]),
        !is_digit(char_at(s, i + t.len())),
        k <= t.len(),
    ensures
        digits_end(s, i + k) == i + t.len(),
    decreases t.len() - k,
{
    if k < t.len() {
        lemma_occurs_char(s, t, i as int, k as int);
        lemma_digits_read(s, i, t, k + 1);
    } else {
        assert(i + t.len() <= s.len());
    }
}

proof fn lemma_reads_int(n: int)
    ensures
        reads(int_text(n)),
{
    let u = int_text(n);
    reveal_strlit("null");
    reveal_strlit("true");
    reveal_strlit("false");
    assert forall|s: Text, i: nat|
        occurs_at(s, u, i as int) && !is_digit(char_at(s, i + u.len())) implies #[trigger] value_at(
        s,
        i,
    ) == Some(i + u.len()) by {
        let m = if n < 0 {
            (-n) as nat
        } else {
            n as nat
        };
        let d = digits(m);
        lemma_digits_shape(m);
        let a = if n < 0 {
            i + 1
        } else {
            i
        };
        if n < 0 {
            lemma_occurs_parts(s, seq!['-'], d, i as int);
            lemma_occurs_char(s, seq!['-'], i as int, 0);
        }
        lemma_occurs_char(s, d, a as int, 0);
        assert(is_digit(d[0]));
        lemma_digits_read(s, a, d, 0);
        assert(i < s.len());
        assert(char_at(s, i) == '-' || is_digit(char_at(s, i)));
        assert(s[i as int] == char_at(s, i));
        if occurs_at(s, "null"@, i as int) {
            lemma_occurs_char(s, "null"@, i as int, 0);
        }
        if occurs_at(s, "true"@, i as int) {
            lemma_occurs_char(s, "true"@, i as int, 0);
        }
        if occurs_at(s, "false"@, i as int) {
            lemma_occurs_char(s, "false"@, i as int, 0);
        }
        assert(number_at(s, i) == Some(i + u.len()));
    }
}

/// The first character of what is read as a value closes nothing.
proof fn lemma_reads_first(t: Text)
    requires
        reads(t),
        t.len() > 0,
    ensures
        t[0] != ']',
{
    if t[0] == ']' {
        assert(t.subrange(0, t.len() as int) =~= t);
        assert(occurs_at(t, t, 0));
        assert(value_at(t, 0) == Some(t.len()));
        reveal_strlit("null");
        reveal_strlit("true");
        reveal_strlit("false");
        if occurs_at(t, "null"@, 0) {
            lemma_occurs_char(t, "null"@, 0, 0);
        }
        if occurs_at(t, "true"@, 0) {
            lemma_occurs_char(t, "true"@, 0, 0);
        }
        if occurs_at(t, "false"@, 0) {
            lemma_occurs_char(t, "false"@, 0, 0);
        }
        assert(digits_end(t, 0) == 0);
    }
}

/// Whether all of the texts are read as values, and none is empty.
spec fn all_read(parts: Seq<Text>) -> bool {
    forall|k: int| 0 <= k < parts.len() ==> reads(#[trigger] parts[k]) && parts[k].len() > 0
}

/// The elements of an array are read up to its closing bracket.
proof fn lemma_items_read(s: Text, i: nat, parts: Seq<Text>)
    requires
        parts.len() > 0,
        all_read(parts),
        occurs_at(s, join(parts, ","@).push(']'), i as int),
    ensures
        items_at(s, i) == Some(i + join(parts, ","@).len() + 1),
    decreases parts.len(),
{
    reveal_strlit(",");
    let first = parts[0];
    let whole = join(parts, ","@).push(']');
    assert(reads(first) && first.len() > 0);
    if parts.len() == 1 {
        assert(whole =~= first + seq![']']);
        lemma_occurs_parts(s, first, seq![']'], i as int);
        lemma_occurs_char(s, seq![']'], (i + first.len()) as int, 0);
        assert(value_at(s, i) == Some(i + first.len()));
    } else {
        let tail = parts.drop_first();
        lemma_join_front(parts, ","@);
        let rest = join(tail, ","@).push(']');
        assert(whole =~= first + (seq![','] + rest));
        lemma_occurs_parts(s, first, seq![','] + rest, i as int);
        lemma_occurs_parts(s, seq![','], rest, (i + first.len()) as int);
        lemma_occurs_char(s, seq![','], (i + first.len()) as int, 0);
        assert(value_at(s, i) == Some(i + first.len()));
        assert forall|k: int| 0 <= k < tail.len() implies reads(#[trigger] tail[k])
            && tail[k].len() > 0 by {
            assert(tail[k] == parts[k + 1]);
        }
        lemma_items_read(s, i + first.len() + 1, tail);
        assert(past(i, i + first.len() + 1) == i + first.len() + 1);
        assert(join(parts, ","@).len() == first.len() + 1 + join(tail, ","@).len());
    }
}

/// An array of values is read as a value.
proof fn lemma_reads_array(parts: Seq<Text>)
    requires
        all_read(parts),
    ensures
        reads("["@ + join(parts, ","@) + "]"@),
{
    reveal_strlit("[");
    reveal_strlit("]");
    let u = "["@ + join(parts, ","@) + "]"@;
    let rest = join(parts, ","@).push(']');
    assert(u =~= seq!['['] + rest);
    assert forall|s: Text, i: nat|
        occurs_at(s, u, i as int) && !is_digit(char_at(s, i + u.len())) implies #[trigger] value_at(
        s,
        i,
    ) == Some(i + u.len()) by {
        lemma_occurs_parts(s, seq!['['], rest, i as int);
        lemma_occurs_char(s, seq!['['], i as int, 0);
        lemma_occurs_char(s, rest, i as int + 1, 0);
        if parts.len() > 0 {
            let first = parts[0];
            assert(reads(first) && first.len() > 0);
            lemma_reads_first(first);
            if parts.len() > 1 {
                lemma_join_front(parts, ","@);
            }
            assert(rest[0] == first[0]);
            lemma_items_read(s, i + 1, parts);
        }
    }
}

/// The members of an object, from keys and the texts of their values.
spec fn members(keys: Seq<Text>, values: Seq<Text>) -> Seq<Text> {
    Seq::new(keys.len(), |k: int| json_text(keys[k]) + ":"@ + values[k])
}

/// The members of an object are read up to its closing brace.
proof fn lemma_members_read(s: Text, i: nat, keys: Seq<Text>, values: Seq<Text>)
    requires
        keys.len() > 0,
        keys.len() == values.len(),
        all_read(values),
        occurs_at(s, join(members(keys, values), ","@).push('}'), i as int),
    ensures
        members_at(s, i) == Some(i + join(members(keys, values), ","@).len() + 1),
    decreases keys.len(),
{
    reveal_strlit(",");
    reveal_strlit(":");
    let parts = members(keys, values);
    let key = json_text(keys[0]);
    let value = values[0];
    let whole = join(parts, ","@).push('}');
    assert(reads(value) && value.len() > 0);
    assert(parts[0] == key + ":"@ + value);
    let tail = parts.drop_first();
    let rest = if parts.len() == 1 {
        seq!['}']
    } else {
        seq![','] + join(tail, ","@).push('}')
    };
    assert(whole =~= key + (seq![':'] + (value + rest))) by {
        if parts.len() > 1 {
            lemma_join_front(parts, ","@);
        }
    }
    lemma_occurs_parts(s, key, seq![':'] + (value + rest), i as int);
    let a = i + key.len();
    lemma_occurs_parts(s, seq![':'], value + rest, a as int);
    lemma_occurs_char(s, seq![':'], a as int, 0);
    lemma_occurs_parts(s, value, rest, (a + 1) as int);
    let b = a + 1 + value.len();
    lemma_occurs_char(s, rest, b as int, 0);
    lemma_string_read(s, i, keys[0]);
    assert(value_at(s, (a + 1) as nat) == Some(b));
    assert(past(i, a + 1) == a + 1);
    if parts.len() == 1 {
        assert(whole.len() == key.len() + 1 + value.len() + 1);
    } else {
        let more = join(tail, ","@).push('}');
        lemma_occurs_parts(s, seq![','], more, b as int);
        let ks = keys.drop_first();
        let vs = values.drop_first();
        assert(members(ks, vs) =~= tail);
        assert forall|k: int| 0 <= k < vs.len() implies reads(#[trigger] vs[k]) && vs[k].len()
            > 0 by {
            assert(vs[k] == values[k + 1]);
        }
        lemma_members_read(s, b + 1, ks, vs);
        assert(past(i, b + 1) == b + 1);
        assert(whole.len() == key.len() + 1 + value.len() + 1 + more.len());
    }
}

/// An object of values is read as a value.
proof fn lemma_reads_object(keys: Seq<Text>, values: Seq<Text>)
    requires
        keys.len() == values.len(),
        all_read(values),
    ensures
        reads("{"@ + join(members(keys, values), ","@) + "}"@),
{
    reveal_strlit("{");
    reveal_strlit("}");
    reveal_strlit("\"");
    let parts = members(keys, values);
    let u = "{"@ + join(parts, ","@) + "}"@;
    let rest = join(parts, ","@).push('}');
    assert(u =~= seq!['{'] + rest);
    assert forall|s: Text, i: nat|
        occurs_at(s, u, i as int) && !is_digit(char_at(s, i + u.len())) implies #[trigger] value_at(
        s,
        i,
    ) == Some(i + u.len()) by {
        lemma_occurs_parts(s, seq!['{'], rest, i as int);
        lemma_occurs_char(s, seq!['{'], i as int, 0);
        lemma_occurs_char(s, rest, i as int + 1, 0);
        if keys.len() > 0 {
            if parts.len() > 1 {
                lemma_join_front(parts, ","@);
            }
            assert(parts[0][0] == json_text(keys[0])[0]);
            assert(rest[0] == '"');
            lemma_members_read(s, i + 1, keys, values);
        }
    }
}

/// Texts without anything to escape are rendered as they are.
proof fn lemma_plain_chars(t: Text)
    requires
        forall|k: int| 0 <= k < t.len() ==> json_char(#[trigger] t[k]) == seq![t[k]],
    ensures
        json_chars(t) == t,
    decreases t.len(),
{
    if t.len() > 0 {
        let init = t.drop_last();
        assert forall|k: int| 0 <= k < init.len() implies json_char(#[trigger] init[k])
            == seq![init[k]] by {
            assert(init[k] == t[k]);
        }
        lemma_plain_chars(init);
        assert(t[t.len() - 1] == t.last());
        assert(t =~= init + seq![t.last()]);
    } else {
        assert(t =~= Seq::empty());
    }
}

/// A node is rendered as an object with its label and its name.
proof fn lemma_node_members(label: Text, name: Text)
    ensures
        "{\"label\":"@ + json_text(label) + ",\"name\":"@ + json_text(name) + "}"@ == "{"@ + join(
            members(seq!["label"@, "name"@], seq![json_text(label), json_text(name)]),
            ","@,
        ) + "}"@,
{
    reveal_strlit("label");
    reveal_strlit("name");
    reveal_strlit("{");
    reveal_strlit(",");
    reveal_strlit(":");
    reveal_strlit("\"");
    reveal_strlit("{\"label\":");
    reveal_strlit(",\"name\":");
    lemma_plain_chars("label"@);
    lemma_plain_chars("name"@);
    let parts = members(seq!["label"@, "name"@], seq![json_text(label), json_text(name)]);
    lemma_join_front(parts, ","@);
    assert(parts.drop_first()[0] == parts[1]);
    assert(parts[0] == json_text("label"@) + ":"@ + json_text(label));
    assert(parts[1] == json_text("name"@) + ":"@ + json_text(name));
    assert("{\"label\":"@ =~= "{"@ + (json_text("label"@) + ":"@));
    assert(",\"name\":"@ =~= ","@ + (json_text("name"@) + ":"@));
    assert("{\"label\":"@ + json_text(label) + ",\"name\":"@ + json_text(name) + "}"@ =~= "{"@
        + join(parts, ","@) + "}"@);
}

/// The rendering of a value is read as a value wherever it stands.
proof fn lemma_reads_value(v: ValueModel)
    ensures
        reads(json(v)),
        json(v).len() > 0,
    decreases v,
{
    reveal_strlit("null");
    reveal_strlit("true");
    reveal_strlit("false");
    reveal_strlit("[");
    reveal_strlit("{");
    reveal_strlit("\"");
    match v {
        ValueModel::Null => lemma_reads_words(),
        ValueModel::Bool(_) => lemma_reads_words(),
        ValueModel::Int(n) => {
            lemma_reads_int(n as int);
            lemma_digits_shape(if n < 0 {
                (-n) as nat
            } else {
                n as nat
            });
        },
        ValueModel::Str(s) => lemma_reads_string(s),
        ValueModel::Node { id, label, name } => {
            lemma_node_members(label, name);
            let values = seq![json_text(label), json_text(name)];
            lemma_reads_string(label);
            lemma_reads_string(name);
            assert forall|k: int| 0 <= k < values.len() implies reads(#[trigger] values[k])
                && values[k].len() > 0 by {
                assert(k == 0 || k == 1);
            }
            lemma_reads_object(seq!["label"@, "name"@], values);
        },
        ValueModel::List(items) => {
            let parts = json_items(items);
            assert forall|k: int| 0 <= k < parts.len() implies reads(#[trigger] parts[k])
                && parts[k].len() > 0 by {
                lemma_reads_value(items[k]);
            }
            lemma_reads_array(parts);
        },
        ValueModel::Mapping(entries) => {
            let keys = Seq::new(entries.len(), |k: int| entries[k].0);
            let values = Seq::new(entries.len(), |k: int| json(entries[k].1));
            assert forall|k: int| 0 <= k < values.len() implies reads(#[trigger] values[k])
                && values[k].len() > 0 by {
                assert(decreases_to!(entries => entries[k]));
                assert(decreases_to!(entries[k] => entries[k].1));
                lemma_reads_value(entries[k].1);
            }
            lemma_reads_object(keys, values);
            assert(members(keys, values) =~= json_entries(entries));
        },
    }
}

/// The rendering of every value is a JSON text.
pub proof fn lemma_json_is_valid(v: ValueModel)
    ensures
        is_json(json(v)),
{
    lemma_reads_value(v);
    let t = json(v);
    assert(t.subrange(0, t.len() as int) =~= t);
    assert(occurs_at(t, t, 0));
    assert(value_at(t, 0) == Some(t.len()));
}

/// Values that are the same up to the ids of their nodes have one rendering, and it is a JSON text.
pub proof fn lemma_same_up_to_ids(v: ValueModel, w: ValueModel)
    requires
        without_ids(v) == without_ids(w),
    ensures
        json(v) == json(w),
        is_json(json(v)),
{
    lemma_rendering_ignores_ids(v);
    lemma_rendering_ignores_ids(w);
    lemma_json_is_valid(v);
}

/// A result rendered as JSON is a JSON text.
pub proof fn lemma_output_is_json(r: ResultModel)
    ensures
        is_json(json(result_value(r))),
{
    lemma_json_is_valid(result_value(r));
}

} // verus!
