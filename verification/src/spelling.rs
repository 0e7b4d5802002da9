//! How tokens are spelled. Reading the text of a query gives back the query.

use vstd::prelude::*;

use crate::ast::QueryModel;
use crate::error::ErrorModel;
use crate::grammar::parsed;
use crate::lexer::{
    comment_end, digits_end, escaped, is_digit, is_word_part, line_end, number, piece_at,
    string_from, tokens_from, tokens_of, word_end, KindModel, Piece, Symbol, TokenModel,
};
use crate::sentences::lemma_query_read_back;
use crate::text::{digit_char, digits, Text};
use crate::writing::{query, query_ok, shown, stands};

verus! {

/// Whether a word can begin with a character: an ASCII letter, an underscore, or anything outside
/// ASCII.
pub open spec fn letter(c: char) -> bool {
    ('a' <= c && c <= 'z') || ('A' <= c && c <= 'Z') || c == '_' || c as u32 >= 128
}

/// Whether a text is a word: it begins with a letter and goes on with letters and digits.
pub open spec fn is_name(w: Text) -> bool {
    &&& w.len() > 0
    &&& letter(w[0])
    &&& forall|i: int|
        0 <= i < w.len() ==> letter(#[trigger] w[i]) || ('0' <= w[i] && w[i] <= '9')
}

/// The characters of punctuation.
pub open spec fn symbol_text(symbol: Symbol) -> Text {
    match symbol {
        Symbol::LParen => seq!['('],
        Symbol::RParen => seq![')'],
        Symbol::LBracket => seq!['['],
        Symbol::RBracket => seq![']'],
        Symbol::LBrace => seq!['{'],
        Symbol::RBrace => seq!['}'],
        Symbol::Comma => seq![','],
        Symbol::Colon => seq![':'],
        Symbol::Dot => seq!['.'],
        Symbol::DotDot => seq!['.', '.'],
        Symbol::Pipe => seq!['|'],
        Symbol::Star => seq!['*'],
        Symbol::Minus => seq!['-'],
        Symbol::Equal => seq!['='],
        Symbol::NotEqual => seq!['<', '>'],
        Symbol::Less => seq!['<'],
        Symbol::LessEqual => seq!['<', '='],
        Symbol::Greater => seq!['>'],
        Symbol::GreaterEqual => seq!['>', '='],
    }
}

/// A character in a string literal: quotes and backslashes stand behind a backslash.
pub open spec fn quoted_char(c: char) -> Text {
    if c == '\'' || c == '\\' {
        seq!['\\', c]
    } else {
        seq![c]
    }
}

/// The characters of a string literal from position `k` on, with its closing quote.
pub open spec fn quoted(s: Text, k: int) -> Text
    decreases s.len() - k,
{
    if k < 0 || k >= s.len() {
        seq!['\'']
    } else {
        quoted_char(s[k]) + quoted(s, k + 1)
    }
}

/// The text of a token.
pub open spec fn spelled(kind: KindModel) -> Text {
    match kind {
        KindModel::Word(w) => w,
        KindModel::Str(s) => seq!['\''] + quoted(s, 0),
        KindModel::Int(n) => digits(n as nat),
        KindModel::Symbol(symbol) => symbol_text(symbol),
        KindModel::End => Seq::empty(),
    }
}

/// Whether a token can be spelled: a word has the characters of one, and a number is no greater
/// than the greatest magnitude of an integer.
pub open spec fn spellable(kind: KindModel) -> bool {
    match kind {
        KindModel::Word(w) => is_name(w),
        KindModel::Str(s) => true,
        KindModel::Int(n) => n <= 0x8000_0000_0000_0000,
        KindModel::Symbol(symbol) => true,
        KindModel::End => false,
    }
}

/// The text of the tokens from position `k` on, with a blank behind each.
pub open spec fn text_of(kinds: Seq<KindModel>, k: int) -> Text
    decreases kinds.len() - k,
{
    if k < 0 || k >= kinds.len() {
        Seq::empty()
    } else {
        spelled(kinds[k]) + seq![' '] + text_of(kinds, k + 1)
    }
}

// ---- Proof -----------------------------------------------------------------------------

/// Whether a text stands in another at a position.
pub open spec fn stands_at(s: Text, i: nat, part: Text) -> bool {
    i + part.len() <= s.len() && s.subrange(i as int, (i + part.len()) as int) == part
}

proof fn lemma_at(s: Text, i: nat, part: Text, k: int)
    requires
        stands_at(s, i, part),
        0 <= k < part.len(),
    ensures
        s[i + k] == part[k],
{
    assert(s.subrange(i as int, (i + part.len()) as int)[k] == part[k]);
}

proof fn lemma_at_split(s: Text, i: nat, a: Text, b: Text)
    requires
        stands_at(s, i, a + b),
    ensures
        stands_at(s, i, a),
        stands_at(s, i + a.len(), b),
{
    let all = s.subrange(i as int, (i + (a + b).len()) as int);
    assert(s.subrange(i as int, (i + a.len()) as int) =~= all.take(a.len() as int));
    assert((a + b).take(a.len() as int) =~= a);
    assert(s.subrange((i + a.len()) as int, (i + a.len() + b.len()) as int) =~= all.skip(a.len() as int));
    assert((a + b).skip(a.len() as int) =~= b);
}

proof fn lemma_word_end(s: Text, i: nat, j: nat)
    requires
        i <= j < s.len(),
        forall|k: int| i <= k < j ==> is_word_part(#[trigger] s[k]),
        !is_word_part(s[j as int]),
    ensures
        word_end(s, i) == j,
    decreases j - i,
{
    if i < j {
        lemma_word_end(s, i + 1, j);
    }
}

proof fn lemma_digits_end(s: Text, i: nat, j: nat)
    requires
        i <= j < s.len(),
        forall|k: int| i <= k < j ==> is_digit(#[trigger] s[k]),
        !is_digit(s[j as int]),
    ensures
        digits_end(s, i) == j,
    decreases j - i,
{
    if i < j {
        lemma_digits_end(s, i + 1, j);
    }
}

/// Reading the digits of a number gives the number.
pub proof fn lemma_digits(n: nat)
    ensures
        number(digits(n)) == n,
        digits(n).len() > 0,
        forall|k: int| 0 <= k < digits(n).len() ==> is_digit(#[trigger] digits(n)[k]),
        n >= 10 ==> digits(n)[0] != '0',
        n > 0 ==> digits(n)[0] != '0',
    decreases n,
{
    reveal_with_fuel(number, 2);
    let d = digit_char((n % 10) as int);
    assert('0' <= d <= '9' && d as nat - '0' as nat == n % 10);
    if n < 10 {
        assert(digits(n).drop_last() =~= Seq::empty());
    } else {
        lemma_digits(n / 10);
        assert(digits(n).drop_last() =~= digits(n / 10));
        assert(digits(n)[0] == digits(n / 10)[0]);
    }
}

proof fn lemma_string(s: Text, i: nat, t: Text, k: int)
    requires
        0 <= k <= t.len(),
        stands_at(s, i, quoted(t, k)),
    ensures
        string_from(s, '\'', i) == Some((t.skip(k), i + quoted(t, k).len())),
    decreases t.len() - k,
{
    if k < t.len() {
        let a = quoted_char(t[k]);
        let b = quoted(t, k + 1);
        lemma_at_split(s, i, a, b);
        lemma_at(s, i, a, 0);
        lemma_string(s, i + a.len(), t, k + 1);
        if t[k] == '\'' || t[k] == '\\' {
            lemma_at(s, i, a, 1);
            assert(escaped(t[k]) == t[k]);
        }
        assert(seq![t[k]] + t.skip(k + 1) =~= t.skip(k));
    } else {
        lemma_at(s, i, quoted(t, k), 0);
        assert(t.skip(k) =~= Seq::empty());
    }
}

/// A token with a blank behind it is read as that token.
pub proof fn lemma_token_read(s: Text, i: nat, kind: KindModel)
    requires
        spellable(kind),
        stands_at(s, i, spelled(kind) + seq![' ']),
    ensures
        piece_at(s, i) == Piece::Item(kind, i + spelled(kind).len()),
        spelled(kind).len() > 0,
        i < s.len(),
{
    let t = spelled(kind);
    let j = i + t.len();
    lemma_at_split(s, i, t, seq![' ']);
    lemma_at(s, j, seq![' '], 0);
    match kind {
        KindModel::Word(w) => {
            lemma_at(s, i, t, 0);
            assert forall|k: int| i + 1 <= k < j implies is_word_part(#[trigger] s[k]) by {
                lemma_at(s, i, t, k - i);
            }
            lemma_word_end(s, i + 1, j);
        },
        KindModel::Int(n) => {
            lemma_digits(n as nat);
            lemma_at(s, i, t, 0);
            assert forall|k: int| i + 1 <= k < j implies is_digit(#[trigger] s[k]) by {
                lemma_at(s, i, t, k - i);
            }
            lemma_digits_end(s, i + 1, j);
        },
        KindModel::Str(text) => {
            lemma_at_split(s, i, seq!['\''], quoted(text, 0));
            lemma_at(s, i, seq!['\''], 0);
            lemma_string(s, i + 1, text, 0);
            assert(text.skip(0) =~= text);
        },
        KindModel::Symbol(symbol) => {
            lemma_at(s, i, t, 0);
            if t.len() == 2 {
                lemma_at(s, i, t, 1);
            }
        },
        KindModel::End => {},
    }
}

/// The tokens of a text are those that it spells.
spec fn tokens_are(toks: Seq<TokenModel>, kinds: Seq<KindModel>) -> bool {
    &&& toks.len() == kinds.len() + 1
    &&& forall|k: int| 0 <= k < kinds.len() ==> (#[trigger] toks[k]).kind == kinds[k]
    &&& toks.last().kind == KindModel::End
}

proof fn lemma_tokens_from(s: Text, i: nat, kinds: Seq<KindModel>, k: int)
    requires
        0 <= k <= kinds.len(),
        forall|m: int| 0 <= m < kinds.len() ==> spellable(#[trigger] kinds[m]),
        i <= s.len(),
        s.skip(i as int) == text_of(kinds, k),
    ensures
        tokens_from(s, i) is Ok,
        tokens_are(tokens_from(s, i)->Ok_0, kinds.skip(k)),
    decreases kinds.len() - k,
{
    let rest = text_of(kinds, k + 1);
    if k < kinds.len() {
        let t = spelled(kinds[k]);
        assert(spellable(kinds[k]));
        let part = t + seq![' '];
        assert(s.skip(i as int) == part + rest);
        assert(i + part.len() <= s.len());
        assert(s.subrange(i as int, (i + part.len()) as int) =~= (part + rest).take(part.len() as int));
        assert((part + rest).take(part.len() as int) =~= part);
        lemma_token_read(s, i, kinds[k]);
        let j = i + t.len();
        lemma_at_split(s, i, t, seq![' ']);
        lemma_at(s, j, seq![' '], 0);
        assert(piece_at(s, j) == Piece::Gap(j + 1));
        assert(s.skip(j as int + 1) =~= (part + rest).skip(part.len() as int));
        assert((part + rest).skip(part.len() as int) =~= rest);
        lemma_tokens_from(s, j + 1, kinds, k + 1);
        let after = tokens_from(s, j + 1)->Ok_0;
        assert(tokens_from(s, j) == Ok::<Seq<TokenModel>, ErrorModel>(after));
        let first = TokenModel { kind: kinds[k], position: i };
        let toks = seq![first] + after;
        assert(tokens_from(s, i) == Ok::<Seq<TokenModel>, ErrorModel>(toks));
        let left = kinds.skip(k);
        assert(left.len() == kinds.skip(k + 1).len() + 1);
        assert forall|m: int| 0 <= m < left.len() implies (#[trigger] toks[m]).kind == left[m] by {
            if m > 0 {
                assert(toks[m] == after[m - 1]);
                assert(kinds.skip(k + 1)[m - 1] == left[m]);
            }
        }
        assert(toks.last() == after.last());
    } else {
        assert(s.skip(i as int).len() == 0);
        assert(kinds.skip(k) =~= Seq::empty());
    }
}

/// The tokens of a text that was spelled from tokens are those tokens.
pub proof fn lemma_tokens_read_back(kinds: Seq<KindModel>)
    requires
        forall|m: int| 0 <= m < kinds.len() ==> spellable(#[trigger] kinds[m]),
    ensures
        tokens_of(text_of(kinds, 0)) matches Ok(toks) && toks.len() == kinds.len() + 1 && (forall|
            k: int,
        |
            0 <= k < kinds.len() ==> (#[trigger] toks[k]).kind == kinds[k]) && toks.last().kind
            == KindModel::End,
{
    let s = text_of(kinds, 0);
    assert(s.skip(0) =~= s);
    lemma_tokens_from(s, 0, kinds, 0);
    assert(kinds.skip(0) =~= kinds);
}

/// Reading the text of a query gives back the query: any query that can be written, from any
/// spelling of its tokens.
pub proof fn lemma_text_read_back(q: QueryModel, kinds: Seq<KindModel>)
    requires
        query_ok(q),
        kinds.len() == query(q).len(),
        forall|k: int| 0 <= k < kinds.len() ==> stands(#[trigger] kinds[k], query(q)[k]),
        forall|k: int| 0 <= k < kinds.len() ==> spellable(#[trigger] kinds[k]),
    ensures
        parsed(text_of(kinds, 0)) == Ok::<QueryModel, ErrorModel>(q),
{
    lemma_tokens_read_back(kinds);
    let toks = tokens_of(text_of(kinds, 0))->Ok_0;
    assert(shown(toks, 0, query(q))) by {
        reveal(shown);
        assert forall|k: int| 0 <= k < query(q).len() implies stands(
            toks[0 + k].kind,
            #[trigger] query(q)[k],
        ) by {
            assert(toks[k].kind == kinds[k]);
        }
    }
    lemma_query_read_back(toks, q);
}

/// Strings stand in single or double quotes, and the other quote is a plain character in them.
pub proof fn lemma_quotes(s: Text, i: nat)
    requires
        i < s.len(),
        s[i as int] == '\'' || s[i as int] == '"',
    ensures
        match string_from(s, s[i as int], i + 1) {
            Some((text, j)) => piece_at(s, i) == Piece::Item(KindModel::Str(text), j),
            None => piece_at(s, i) is Fault,
        },
        i + 1 < s.len() && s[i as int + 1] == s[i as int] ==> piece_at(s, i) == Piece::Item(
            KindModel::Str(Seq::empty()),
            i + 2,
        ),
{
}

/// In a string, `\n`, `\t` and `\r` stand for a line feed, a tab and a carriage return; any other
/// character behind a backslash stands for itself.
pub proof fn lemma_escapes(s: Text, quote: char, i: nat)
    requires
        quote != '\\',
        i + 1 < s.len(),
        s[i as int] == '\\',
    ensures
        match string_from(s, quote, i + 2) {
            None => string_from(s, quote, i) is None,
            Some((rest, j)) => string_from(s, quote, i) matches Some((text, k)) && k == j
                && text.len() == rest.len() + 1 && text.skip(1) == rest && text[0] == (if s[i as int + 1]
                == 'n' {
                '\n'
            } else if s[i as int + 1] == 't' {
                '\t'
            } else if s[i as int + 1] == 'r' {
                '\r'
            } else {
                s[i as int + 1]
            }),
        },
{
    if let Some((rest, j)) = string_from(s, quote, i + 2) {
        let text = string_from(s, quote, i)->Some_0.0;
        assert(text.skip(1) =~= rest);
    }
}

/// Numbers that are too great for an integer, and characters that the language does not know, are
/// errors.
pub proof fn lemma_faults(s: Text, i: nat, j: nat)
    requires
        i < j < s.len(),
    ensures
        (forall|k: int| i <= k < j ==> is_digit(#[trigger] s[k])) && !is_digit(s[j as int])
            && number(s.subrange(i as int, j as int)) > 0x8000_0000_0000_0000 ==> piece_at(
            s,
            i,
        ) is Fault,
        s[i as int] == '!' || s[i as int] == '%' || s[i as int] == '&' || s[i as int] == '+'
            || s[i as int] == ';' || s[i as int] == '?' || s[i as int] == '@' || s[i as int] == '^'
            || s[i as int] == '`' || s[i as int] == '~' || s[i as int] == '#' || s[i as int] == '$'
            ==> piece_at(s, i) is Fault,
{
    if (forall|k: int| i <= k < j ==> is_digit(#[trigger] s[k])) && !is_digit(s[j as int]) {
        assert(is_digit(s[i as int]));
        lemma_digits_end(s, i + 1, j);
    }
}

/// Blanks, tabs and the ends of lines separate tokens.
pub proof fn lemma_blanks(s: Text, i: nat)
    requires
        i < s.len(),
        s[i as int] == ' ' || s[i as int] == '\t' || s[i as int] == '\n' || s[i as int] == '\r',
    ensures
        piece_at(s, i) == Piece::Gap(i + 1),
{
}

/// A comment behind two slashes goes up to the end of its line.
pub proof fn lemma_line_comment(s: Text, i: nat, j: nat)
    requires
        i + 2 <= j <= s.len(),
        s[i as int] == '/',
        s[i as int + 1] == '/',
        forall|k: int| i + 2 <= k < j ==> #[trigger] s[k] != '\n',
        j == s.len() || s[j as int] == '\n',
    ensures
        piece_at(s, i) == Piece::Gap(j),
{
    lemma_line_end(s, i + 2, j);
}

proof fn lemma_line_end(s: Text, i: nat, j: nat)
    requires
        i <= j <= s.len(),
        forall|k: int| i <= k < j ==> #[trigger] s[k] != '\n',
        j == s.len() || s[j as int] == '\n',
    ensures
        line_end(s, i) == j,
    decreases j - i,
{
    if i < j {
        lemma_line_end(s, i + 1, j);
    }
}

/// Whether a comment ends at a position.
pub open spec fn closes(s: Text, k: int) -> bool {
    k + 1 < s.len() && s[k] == '*' && s[k + 1] == '/'
}

/// A comment behind a slash and a star goes up to the first star and slash, and one without them is
/// an error.
pub proof fn lemma_block_comment(s: Text, i: nat, j: nat)
    requires
        i + 2 <= j <= s.len(),
        s[i as int] == '/',
        s[i as int + 1] == '*',
        forall|k: int| i + 2 <= k < j ==> !#[trigger] closes(s, k),
        j == s.len() || closes(s, j as int),
    ensures
        j < s.len() ==> piece_at(s, i) == Piece::Gap(j + 2),
        j == s.len() ==> piece_at(s, i) is Fault,
{
    lemma_comment_end(s, i + 2, j);
}

proof fn lemma_comment_end(s: Text, i: nat, j: nat)
    requires
        i <= j <= s.len(),
        forall|k: int| i <= k < j ==> !#[trigger] closes(s, k),
        j == s.len() || closes(s, j as int),
    ensures
        j < s.len() ==> comment_end(s, i) == Some(j + 2),
        j == s.len() ==> comment_end(s, i) is None,
    decreases j - i,
{
    if i < j {
        assert(!closes(s, i as int));
        lemma_comment_end(s, i + 1, j);
    }
}

} // verus!
