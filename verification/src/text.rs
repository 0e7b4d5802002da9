//! Text as sequences of characters: the small string operations that the rest of the library is
//! stated over, each with the executable function that computes it.

use vstd::prelude::*;
use vstd::std_specs::iter::IteratorSpec;
use vstd::string::StringExecFns;

verus! {

/// The mathematical model of a string: its characters in order.
pub type Text = Seq<char>;

/// `String::push` appends one character.
pub assume_specification[ String::push ](s: &mut String, c: char)
    ensures
        final(s)@ == old(s)@.push(c),
;

/// The lower-case mapping of `str::to_lowercase`, character by character and by context, as the
/// Unicode tables of the standard library give it.
pub uninterp spec fn lowercase(s: Seq<char>) -> Seq<char>;

/// The upper-case mapping of `str::to_uppercase`, as the Unicode tables of the standard library
/// give it.
pub uninterp spec fn uppercase(s: Seq<char>) -> Seq<char>;

/// `str::to_lowercase`: the result is the lower-case mapping of the argument.
#[verifier::external_body]
pub(crate) fn to_lowercase(s: &str) -> (r: String)
    ensures
        r@ == lowercase(s@),
{
    s.to_lowercase()
}

/// `str::to_uppercase`: the result is the upper-case mapping of the argument.
#[verifier::external_body]
pub(crate) fn to_uppercase(s: &str) -> (r: String)
    ensures
        r@ == uppercase(s@),
{
    s.to_uppercase()
}

/// The models of a sequence of strings.
pub open spec fn texts(s: Seq<String>) -> Seq<Text> {
    Seq::new(s.len(), |i: int| s[i]@)
}

/// The models grow with the sequence.
pub proof fn lemma_texts_push(s: Seq<String>, t: String)
    ensures
        texts(s.push(t)) == texts(s).push(t@),
{
    assert forall|k: int| 0 <= k < s.len() implies texts(s.push(t))[k]
        == #[trigger] texts(s)[k] by {
        assert(s.push(t)[k] == s[k]);
    }
    assert(texts(s.push(t)) =~= texts(s).push(t@));
}

/// The model of an optional string.
pub open spec fn opt_text(s: Option<String>) -> Option<Text> {
    match s {
        Some(t) => Some(t@),
        None => None,
    }
}

/// The parts in order with `sep` between neighbours.
pub open spec fn join(parts: Seq<Text>, sep: Text) -> Text
    decreases parts.len(),
{
    if parts.len() == 0 {
        Seq::empty()
    } else if parts.len() == 1 {
        parts[0]
    } else {
        join(parts.drop_last(), sep) + sep + parts.last()
    }
}

/// One more part is appended behind a separator, or alone when it is the first.
pub proof fn lemma_join_push(parts: Seq<Text>, part: Text, sep: Text)
    ensures
        join(parts.push(part), sep) == if parts.len() == 0 {
            part
        } else {
            join(parts, sep) + sep + part
        },
{
    assert(parts.push(part).drop_last() =~= parts);
}

/// The character of a decimal digit.
pub open spec fn digit_char(d: int) -> char {
    if d == 0 {
        '0'
    } else if d == 1 {
        '1'
    } else if d == 2 {
        '2'
    } else if d == 3 {
        '3'
    } else if d == 4 {
        '4'
    } else if d == 5 {
        '5'
    } else if d == 6 {
        '6'
    } else if d == 7 {
        '7'
    } else if d == 8 {
        '8'
    } else {
        '9'
    }
}

/// The decimal digits of a natural number, without leading zeros.
pub open spec fn digits(n: nat) -> Text
    decreases n,
{
    if n < 10 {
        seq![digit_char(n as int)]
    } else {
        digits(n / 10).push(digit_char((n % 10) as int))
    }
}

/// The decimal notation of an integer.
pub open spec fn int_text(i: int) -> Text {
    if i < 0 {
        seq!['-'] + digits((-i) as nat)
    } else {
        digits(i as nat)
    }
}

/// `true` or `false`.
pub open spec fn bool_text(b: bool) -> Text {
    if b {
        "true"@
    } else {
        "false"@
    }
}

/// Whether `needle` stands in `haystack` at position `i`.
pub open spec fn occurs_at(haystack: Text, needle: Text, i: int) -> bool {
    &&& 0 <= i <= haystack.len() - needle.len()
    &&& haystack.subrange(i, i + needle.len()) == needle
}

/// Whether `needle` stands somewhere in `haystack`.
pub open spec fn occurs(haystack: Text, needle: Text) -> bool {
    exists|i: int| occurs_at(haystack, needle, i)
}

/// Whether `haystack` begins with `needle`.
pub open spec fn begins_with(haystack: Text, needle: Text) -> bool {
    occurs_at(haystack, needle, 0)
}

/// Whether `haystack` ends with `needle`.
pub open spec fn finishes_with(haystack: Text, needle: Text) -> bool {
    occurs_at(haystack, needle, haystack.len() - needle.len())
}

/// The sign of the lexicographic comparison of `a` and `b` from position `i` on, by code points;
/// a proper prefix comes first.
pub open spec fn text_order_from(a: Text, b: Text, i: int) -> int
    decreases a.len() - i,
{
    if i < 0 || i >= a.len() || i >= b.len() {
        if a.len() < b.len() {
            -1
        } else if a.len() > b.len() {
            1
        } else {
            0
        }
    } else if a[i] < b[i] {
        -1
    } else if a[i] > b[i] {
        1
    } else {
        text_order_from(a, b, i + 1)
    }
}

/// The sign of the lexicographic comparison of two texts by code points.
pub open spec fn text_order(a: Text, b: Text) -> int {
    text_order_from(a, b, 0)
}

/// The lower-case form of an ASCII letter; every other character is kept.
pub open spec fn ascii_lower_char(c: char) -> char {
    if 'A' <= c && c <= 'Z' {
        ((c as u32) + 32) as char
    } else {
        c
    }
}

/// A text with its ASCII letters in lower case.
pub open spec fn ascii_lower(s: Text) -> Text {
    Seq::new(s.len(), |i: int| ascii_lower_char(s[i]))
}

/// The characters of a string.
pub fn chars_of(s: &str) -> (r: Vec<char>)
    ensures
        r@ == s@,
{
    let mut out: Vec<char> = Vec::new();
    for c in it: s.chars()
        invariant
            out@ == s@.take(it.index() as int),
            it.seq() == s@,
    {
        assert(s@.take(it.index() + 1) =~= s@.take(it.index() as int).push(c));
        out.push(c);
    }
    assert(s@.take(s@.len() as int) =~= s@);
    out
}

/// Appends the characters of `chars` from `from` up to `to`.
pub fn push_chars(out: &mut String, chars: &Vec<char>, from: usize, to: usize)
    requires
        from <= to <= chars@.len(),
    ensures
        final(out)@ == old(out)@ + chars@.subrange(from as int, to as int),
{
    let ghost start = out@;
    let mut i: usize = from;
    assert(out@ =~= start + chars@.subrange(from as int, i as int));
    while i < to
        invariant
            from <= i <= to <= chars@.len(),
            out@ == start + chars@.subrange(from as int, i as int),
        decreases to - i,
    {
        out.push(chars[i]);
        assert(out@ =~= start + chars@.subrange(from as int, i + 1));
        i += 1;
    }
}

/// Appends `part` to `out`.
pub fn push_text(out: &mut String, part: &str)
    ensures
        final(out)@ == old(out)@ + part@,
{
    out.append(part);
}

/// Whether two strings hold the same characters.
pub fn same_text(a: &str, b: &str) -> (r: bool)
    ensures
        r == (a@ == b@),
{
    let mut x = a.chars();
    let mut y = b.chars();
    let ghost mut k: int = 0;
    assert(x.remaining() =~= a@.skip(0));
    assert(y.remaining() =~= b@.skip(0));
    loop
        invariant
            0 <= k <= a@.len(),
            k <= b@.len(),
            x.obeys_prophetic_iter_laws(),
            y.obeys_prophetic_iter_laws(),
            x.remaining() == a@.skip(k),
            y.remaining() == b@.skip(k),
            a@.take(k) == b@.take(k),
        decreases a@.len() - k,
    {
        match (x.next(), y.next()) {
            (Some(c), Some(d)) => {
                if c != d {
                    assert(a@[k] == c && b@[k] == d);
                    return false;
                }
                assert(a@[k] == c && b@[k] == d);
                assert(a@.take(k + 1) =~= a@.take(k).push(c));
                assert(b@.take(k + 1) =~= b@.take(k).push(d));
                assert(a@.skip(k).drop_first() =~= a@.skip(k + 1));
                assert(b@.skip(k).drop_first() =~= b@.skip(k + 1));
                proof {
                    k = k + 1;
                }
            },
            (None, None) => {
                assert(a@ =~= a@.take(k) + a@.skip(k));
                assert(b@ =~= b@.take(k) + b@.skip(k));
                assert(a@ =~= b@);
                return true;
            },
            (Some(c), None) => {
                assert(a@.skip(k).len() > 0 && b@.skip(k).len() == 0);
                return false;
            },
            (None, Some(d)) => {
                assert(a@.skip(k).len() == 0 && b@.skip(k).len() > 0);
                return false;
            },
        }
    }
}

/// Whether `needle` stands in `haystack` at position `at`.
fn stands_at(haystack: &Vec<char>, needle: &Vec<char>, at: usize) -> (r: bool)
    requires
        at + needle@.len() <= haystack@.len(),
    ensures
        r == occurs_at(haystack@, needle@, at as int),
{
    let mut k: usize = 0;
    let end: usize = haystack.len();
    let ghost window = haystack@.subrange(at as int, at + needle@.len());
    while k < needle.len()
        invariant
            k <= needle@.len(),
            at + needle@.len() <= haystack@.len(),
            haystack@.len() == end,
            window == haystack@.subrange(at as int, at + needle@.len()),
            forall|j: int| 0 <= j < k ==> window[j] == #[trigger] needle@[j],
        decreases needle@.len() - k,
    {
        if haystack[at + k] != needle[k] {
            assert(window[k as int] != needle@[k as int]);
            return false;
        }
        assert(window[k as int] == needle@[k as int]);
        k += 1;
    }
    assert(window =~= needle@);
    true
}

/// Whether `needle` stands somewhere in `haystack`.
pub fn contains_text(haystack: &str, needle: &str) -> (r: bool)
    ensures
        r == occurs(haystack@, needle@),
{
    let h = chars_of(haystack);
    let n = chars_of(needle);
    if n.len() > h.len() {
        return false;
    }
    let last: usize = h.len() - n.len();
    let mut i: usize = 0;
    loop
        invariant
            h@ == haystack@,
            n@ == needle@,
            last == h@.len() - n@.len(),
            i <= last,
            forall|j: int| 0 <= j < i ==> !occurs_at(h@, n@, j),
        decreases last - i,
    {
        if stands_at(&h, &n, i) {
            return true;
        }
        if i == last {
            return false;
        }
        i += 1;
    }
}

/// Whether `haystack` begins with `needle`.
pub fn starts_with_text(haystack: &str, needle: &str) -> (r: bool)
    ensures
        r == begins_with(haystack@, needle@),
{
    let h = chars_of(haystack);
    let n = chars_of(needle);
    n.len() <= h.len() && stands_at(&h, &n, 0)
}

/// Whether `haystack` ends with `needle`.
pub fn ends_with_text(haystack: &str, needle: &str) -> (r: bool)
    ensures
        r == finishes_with(haystack@, needle@),
{
    let h = chars_of(haystack);
    let n = chars_of(needle);
    n.len() <= h.len() && stands_at(&h, &n, h.len() - n.len())
}

/// The sign of the lexicographic comparison of two strings.
pub fn order_texts(a: &str, b: &str) -> (r: i8)
    ensures
        r == text_order(a@, b@),
{
    let x = chars_of(a);
    let y = chars_of(b);
    let mut i: usize = 0;
    while i < x.len() && i < y.len()
        invariant
            i <= x@.len(),
            i <= y@.len(),
            x@ == a@,
            y@ == b@,
            text_order(x@, y@) == text_order_from(x@, y@, i as int),
        decreases x@.len() - i,
    {
        if x[i] < y[i] {
            return -1;
        }
        if x[i] > y[i] {
            return 1;
        }
        i += 1;
    }
    if x.len() < y.len() {
        -1
    } else if x.len() > y.len() {
        1
    } else {
        0
    }
}

/// The lower-case form of an ASCII letter; every other character is kept.
pub fn lower_char(c: char) -> (r: char)
    ensures
        r == ascii_lower_char(c),
{
    if 'A' <= c && c <= 'Z' {
        ((c as u8) + 32) as char
    } else {
        c
    }
}

/// A copy of `s` with its ASCII letters in lower case.
pub fn lower_ascii(s: &str) -> (r: String)
    ensures
        r@ == ascii_lower(s@),
{
    let chars = chars_of(s);
    let mut out = String::new();
    let mut i: usize = 0;
    while i < chars.len()
        invariant
            chars@ == s@,
            i <= chars@.len(),
            out@ == ascii_lower(s@).take(i as int),
        decreases chars@.len() - i,
    {
        out.push(lower_char(chars[i]));
        assert(out@ =~= ascii_lower(s@).take(i + 1));
        i += 1;
    }
    assert(ascii_lower(s@).take(i as int) =~= ascii_lower(s@));
    out
}

/// Appends the decimal digits of `n`.
fn push_digits(out: &mut String, n: u64)
    ensures
        final(out)@ == old(out)@ + digits(n as nat),
    decreases n,
{
    let ghost start = out@;
    if n >= 10 {
        push_digits(out, n / 10);
    }
    let d: u64 = n % 10;
    out.push(
        if d == 0 {
            '0'
        } else if d == 1 {
            '1'
        } else if d == 2 {
            '2'
        } else if d == 3 {
            '3'
        } else if d == 4 {
            '4'
        } else if d == 5 {
            '5'
        } else if d == 6 {
            '6'
        } else if d == 7 {
            '7'
        } else if d == 8 {
            '8'
        } else {
            '9'
        },
    );
    assert(out@ =~= start + digits(n as nat));
}

/// Appends the decimal notation of `i`.
pub fn push_int(out: &mut String, i: i64)
    ensures
        final(out)@ == old(out)@ + int_text(i as int),
{
    let ghost start = out@;
    if i < 0 {
        out.push('-');
        let below: u64 = ((-(i + 1)) as u64) + 1;
        push_digits(out, below);
        assert(out@ =~= start + int_text(i as int));
    } else {
        push_digits(out, i as u64);
    }
}

/// Appends `true` or `false`.
pub fn push_bool(out: &mut String, b: bool)
    ensures
        final(out)@ == old(out)@ + bool_text(b),
{
    if b {
        out.append("true");
    } else {
        out.append("false");
    }
}

/// Whether `name` is among `names`.
pub fn has_name(names: &Vec<String>, name: &String) -> (r: bool)
    ensures
        r == texts(names@).contains(name@),
{
    let mut i: usize = 0;
    while i < names.len()
        invariant
            i <= names@.len(),
            forall|j: int| 0 <= j < i ==> (#[trigger] texts(names@)[j]) != name@,
        decreases names@.len() - i,
    {
        if names[i] == *name {
            assert(texts(names@)[i as int] == name@);
            return true;
        }
        i += 1;
    }
    false
}

} // verus!
