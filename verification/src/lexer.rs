//! The lexer: turns a query text into tokens.

use vstd::prelude::*;

use crate::error::{
    lemma_prepend_nothing, lemma_prepend_push, prepend, CypherError, ErrorModel,
};
use crate::text::{chars_of, push_chars, Text};

verus! {

/// A token made of punctuation.
#[derive(Debug, Clone, Copy, PartialEq, Eq, Structural)]
pub enum Symbol {
    LParen,
    RParen,
    LBracket,
    RBracket,
    LBrace,
    RBrace,
    Comma,
    Colon,
    Dot,
    DotDot,
    Pipe,
    Star,
    Minus,
    Equal,
    NotEqual,
    Less,
    LessEqual,
    Greater,
    GreaterEqual,
}

/// What a token is.
#[derive(Debug, Clone, PartialEq, Eq)]
pub enum TokenKind {
    /// A keyword or a name.
    Word(String),
    /// A string literal, without its quotes.
    Str(String),
    /// An integer literal, without a sign.
    Int(u64),
    /// Punctuation.
    Symbol(Symbol),
    /// The end of the text.
    End,
}

/// A token with the number of characters before it.
#[derive(Debug, Clone, PartialEq, Eq)]
pub struct Token {
    pub kind: TokenKind,
    pub position: usize,
}

/// The model of a [`TokenKind`].
pub enum KindModel {
    Word(Text),
    Str(Text),
    Int(u64),
    Symbol(Symbol),
    End,
}

/// The model of a [`Token`].
pub struct TokenModel {
    pub kind: KindModel,
    pub position: nat,
}

impl Token {
    /// The model of the token.
    pub open spec fn view(&self) -> TokenModel {
        TokenModel { kind: self.kind@, position: self.position as nat }
    }
}

impl TokenKind {
    /// The model of the kind.
    pub open spec fn view(&self) -> KindModel {
        match self {
            TokenKind::Word(s) => KindModel::Word(s@),
            TokenKind::Str(s) => KindModel::Str(s@),
            TokenKind::Int(n) => KindModel::Int(*n),
            TokenKind::Symbol(s) => KindModel::Symbol(*s),
            TokenKind::End => KindModel::End,
        }
    }
}

/// The models of tokens.
pub open spec fn token_models(tokens: Seq<Token>) -> Seq<TokenModel> {
    Seq::new(tokens.len(), |i: int| tokens[i]@)
}

/// The models grow with the sequence.
proof fn lemma_token_models_push(tokens: Seq<Token>, token: Token)
    ensures
        token_models(tokens.push(token)) == token_models(tokens).push(token@),
{
    assert(token_models(tokens.push(token)) =~= token_models(tokens).push(token@));
}

// ---- Characters ----------------------------------------------------------------

/// Whether a character separates tokens.
pub open spec fn is_space(c: char) -> bool {
    c == ' ' || c == '\t' || c == '\n' || c == '\r'
}

/// Whether a character is a decimal digit.
pub open spec fn is_digit(c: char) -> bool {
    '0' <= c && c <= '9'
}

/// Whether a word can begin with a character: an ASCII letter, an underscore, or anything outside
/// ASCII.
pub open spec fn is_word_start(c: char) -> bool {
    ('a' <= c && c <= 'z') || ('A' <= c && c <= 'Z') || c == '_' || c as u32 >= 128
}

/// Whether a word can go on with a character.
pub open spec fn is_word_part(c: char) -> bool {
    is_word_start(c) || is_digit(c)
}

// ---- Parts of the text -----------------------------------------------------------

/// The end of the line that goes on at position `i`.
pub open spec fn line_end(s: Text, i: nat) -> nat
    decreases s.len() - i,
{
    if i >= s.len() || s[i as int] == '\n' {
        i
    } else {
        line_end(s, i + 1)
    }
}

/// The position behind the first `*/` from position `i` on.
pub open spec fn comment_end(s: Text, i: nat) -> Option<nat>
    decreases s.len() - i,
{
    if i + 1 >= s.len() {
        None
    } else if s[i as int] == '*' && s[i as int + 1] == '/' {
        Some(i + 2)
    } else {
        comment_end(s, i + 1)
    }
}

/// The end of the word that goes on at position `i`.
pub open spec fn word_end(s: Text, i: nat) -> nat
    decreases s.len() - i,
{
    if i < s.len() && is_word_part(s[i as int]) {
        word_end(s, i + 1)
    } else {
        i
    }
}

/// The end of the digits that go on at position `i`.
pub open spec fn digits_end(s: Text, i: nat) -> nat
    decreases s.len() - i,
{
    if i < s.len() && is_digit(s[i as int]) {
        digits_end(s, i + 1)
    } else {
        i
    }
}

/// The number that decimal digits stand for.
pub open spec fn number(s: Text) -> nat
    decreases s.len(),
{
    if s.len() == 0 {
        0
    } else {
        number(s.drop_last()) * 10 + (s.last() as nat - '0' as nat) as nat
    }
}

/// The greatest magnitude of an integer: that of the least one.
pub open spec fn max_magnitude() -> nat {
    0x8000_0000_0000_0000
}

/// The character that an escape sequence stands for.
pub open spec fn escaped(c: char) -> char {
    if c == 'n' {
        '\n'
    } else if c == 't' {
        '\t'
    } else if c == 'r' {
        '\r'
    } else {
        c
    }
}

/// The contents of the string literal that goes on at position `i`, and the position behind its
/// closing quote. A backslash takes the next character for what it is, or for a line feed, a tab
/// or a carriage return.
pub open spec fn string_from(s: Text, quote: char, i: nat) -> Option<(Text, nat)>
    decreases s.len() - i,
{
    if i >= s.len() {
        None
    } else if s[i as int] == quote {
        Some((Seq::empty(), i + 1))
    } else if s[i as int] == '\\' {
        if i + 1 >= s.len() {
            None
        } else {
            match string_from(s, quote, i + 2) {
                Some((rest, j)) => Some((seq![escaped(s[i as int + 1])] + rest, j)),
                None => None,
            }
        }
    } else {
        match string_from(s, quote, i + 1) {
            Some((rest, j)) => Some((seq![s[i as int]] + rest, j)),
            None => None,
        }
    }
}

/// The character at a position, or a blank behind the end.
pub open spec fn char_at(s: Text, i: nat) -> char {
    if i < s.len() {
        s[i as int]
    } else {
        ' '
    }
}

/// The punctuation that begins with `c`, with its length, if `d` comes next.
pub open spec fn symbol_of(c: char, d: char) -> Option<(Symbol, nat)> {
    if c == '(' {
        Some((Symbol::LParen, 1))
    } else if c == ')' {
        Some((Symbol::RParen, 1))
    } else if c == '[' {
        Some((Symbol::LBracket, 1))
    } else if c == ']' {
        Some((Symbol::RBracket, 1))
    } else if c == '{' {
        Some((Symbol::LBrace, 1))
    } else if c == '}' {
        Some((Symbol::RBrace, 1))
    } else if c == ',' {
        Some((Symbol::Comma, 1))
    } else if c == ':' {
        Some((Symbol::Colon, 1))
    } else if c == '|' {
        Some((Symbol::Pipe, 1))
    } else if c == '*' {
        Some((Symbol::Star, 1))
    } else if c == '-' {
        Some((Symbol::Minus, 1))
    } else if c == '=' {
        Some((Symbol::Equal, 1))
    } else if c == '.' {
        if d == '.' {
            Some((Symbol::DotDot, 2))
        } else {
            Some((Symbol::Dot, 1))
        }
    } else if c == '<' {
        if d == '>' {
            Some((Symbol::NotEqual, 2))
        } else if d == '=' {
            Some((Symbol::LessEqual, 2))
        } else {
            Some((Symbol::Less, 1))
        }
    } else if c == '>' {
        if d == '=' {
            Some((Symbol::GreaterEqual, 2))
        } else {
            Some((Symbol::Greater, 1))
        }
    } else {
        None
    }
}

/// What stands at a position of the text.
pub enum Piece {
    /// Blanks or a comment, up to a position.
    Gap(nat),
    /// A token, up to a position.
    Item(KindModel, nat),
    /// Nothing that the language knows.
    Fault(Text),
}

/// What stands at position `i`.
pub open spec fn piece_at(s: Text, i: nat) -> Piece {
    let c = s[i as int];
    if is_space(c) {
        Piece::Gap(i + 1)
    } else if c == '/' && char_at(s, i + 1) == '/' {
        Piece::Gap(line_end(s, i + 2))
    } else if c == '/' && char_at(s, i + 1) == '*' {
        match comment_end(s, i + 2) {
            Some(j) => Piece::Gap(j),
            None => Piece::Fault("unterminated comment"@),
        }
    } else if is_word_start(c) {
        let j = word_end(s, i + 1);
        Piece::Item(KindModel::Word(s.subrange(i as int, j as int)), j)
    } else if is_digit(c) {
        let j = digits_end(s, i + 1);
        let n = number(s.subrange(i as int, j as int));
        if n <= max_magnitude() {
            Piece::Item(KindModel::Int(n as u64), j)
        } else {
            Piece::Fault("integer literal out of range"@)
        }
    } else if c == '\'' || c == '"' {
        match string_from(s, c, i + 1) {
            Some((text, j)) => Piece::Item(KindModel::Str(text), j),
            None => Piece::Fault("unterminated string literal"@),
        }
    } else {
        match symbol_of(c, char_at(s, i + 1)) {
            Some((symbol, n)) => Piece::Item(KindModel::Symbol(symbol), i + n),
            None => Piece::Fault("unexpected character"@),
        }
    }
}

/// A position behind `i`: `j`, if it is one.
pub open spec fn past(i: nat, j: nat) -> nat {
    if j > i {
        j
    } else {
        i + 1
    }
}

/// How many of `n` places there are from position `i` on.
pub open spec fn left(n: nat, i: nat) -> nat {
    if i < n {
        (n - i) as nat
    } else {
        0
    }
}

/// The tokens of the text from position `i` on.
pub open spec fn tokens_from(s: Text, i: nat) -> Result<Seq<TokenModel>, ErrorModel>
    decreases left(s.len(), i),
{
    if i >= s.len() {
        Ok(seq![TokenModel { kind: KindModel::End, position: s.len() }])
    } else {
        match piece_at(s, i) {
            Piece::Gap(j) => tokens_from(s, past(i, j)),
            Piece::Item(kind, j) => prepend(
                seq![TokenModel { kind, position: i }],
                tokens_from(s, past(i, j)),
            ),
            Piece::Fault(message) => Err(ErrorModel::Lex { message, position: i }),
        }
    }
}

/// The tokens of a text.
pub open spec fn tokens_of(s: Text) -> Result<Seq<TokenModel>, ErrorModel> {
    tokens_from(s, 0)
}

// ---- The lexer -------------------------------------------------------------------

/// Whether a character separates tokens.
fn space(c: char) -> (r: bool)
    ensures
        r == is_space(c),
{
    c == ' ' || c == '\t' || c == '\n' || c == '\r'
}

/// Whether a character is a decimal digit.
fn digit(c: char) -> (r: bool)
    ensures
        r == is_digit(c),
{
    '0' <= c && c <= '9'
}

/// Whether a word can begin with a character.
fn word_start(c: char) -> (r: bool)
    ensures
        r == is_word_start(c),
{
    ('a' <= c && c <= 'z') || ('A' <= c && c <= 'Z') || c == '_' || c as u32 >= 128
}

/// The character at a position, or a blank behind the end.
fn at(s: &Vec<char>, i: usize) -> (r: char)
    ensures
        r == char_at(s@, i as nat),
{
    if i < s.len() {
        s[i]
    } else {
        ' '
    }
}

/// The end of the line that goes on at position `i`.
fn skip_line(s: &Vec<char>, i: usize) -> (r: usize)
    requires
        i <= s@.len(),
    ensures
        r == line_end(s@, i as nat),
        i <= r <= s@.len(),
{
    let mut j: usize = i;
    while j < s.len() && s[j] != '\n'
        invariant
            i <= j <= s@.len(),
            line_end(s@, i as nat) == line_end(s@, j as nat),
        decreases s@.len() - j,
    {
        j += 1;
    }
    j
}

/// The position behind the first `*/` from position `i` on.
fn skip_comment(s: &Vec<char>, i: usize) -> (r: Option<usize>)
    requires
        i <= s@.len(),
    ensures
        match r {
            Some(j) => comment_end(s@, i as nat) == Some(j as nat) && i < j <= s@.len(),
            None => comment_end(s@, i as nat) is None,
        },
{
    let n: usize = s.len();
    let mut j: usize = i;
    while j < n && j + 1 < n
        invariant
            n == s@.len(),
            i <= j <= n,
            comment_end(s@, i as nat) == comment_end(s@, j as nat),
        decreases n - j,
    {
        if s[j] == '*' && s[j + 1] == '/' {
            return Some(j + 2);
        }
        j += 1;
    }
    None
}

/// The end of the word that goes on at position `i`.
fn skip_word(s: &Vec<char>, i: usize) -> (r: usize)
    requires
        i <= s@.len(),
    ensures
        r == word_end(s@, i as nat),
        i <= r <= s@.len(),
{
    let mut j: usize = i;
    while j < s.len() && (word_start(s[j]) || digit(s[j]))
        invariant
            i <= j <= s@.len(),
            word_end(s@, i as nat) == word_end(s@, j as nat),
        decreases s@.len() - j,
    {
        j += 1;
    }
    j
}

/// The end of the digits that go on at position `i`: there are nothing but digits up to it.
proof fn lemma_digits_end(s: Text, i: nat)
    requires
        i <= s.len(),
    ensures
        i <= digits_end(s, i) <= s.len(),
        forall|k: int| i <= k < digits_end(s, i) ==> is_digit(#[trigger] s[k]),
    decreases s.len() - i,
{
    if i < s.len() && is_digit(s[i as int]) {
        lemma_digits_end(s, i + 1);
    }
}

/// The number that stands at position `i`, or nothing if it is out of range, and its end.
fn read_number(s: &Vec<char>, i: usize) -> (r: (Option<u64>, usize))
    requires
        i < s@.len(),
        is_digit(s@[i as int]),
    ensures
        r.1 == digits_end(s@, i as nat + 1),
        i < r.1 <= s@.len(),
        ({
            let n = number(s@.subrange(i as int, r.1 as int));
            match r.0 {
                Some(v) => v == n && n <= max_magnitude(),
                None => n > max_magnitude(),
            }
        }),
{
    let ghost end = digits_end(s@, i as nat + 1);
    proof {
        lemma_digits_end(s@, i as nat + 1);
    }
    let ghost all = s@.subrange(i as int, end as int);
    let mut value: Option<u64> = Some(0);
    let mut j: usize = i;
    assert(all.take(0) =~= Seq::empty());
    while j < s.len() && digit(s[j])
        invariant
            i <= j <= end <= s@.len(),
            i < end,
            is_digit(s@[i as int]),
            i < s@.len(),
            all == s@.subrange(i as int, end as int),
            end == digits_end(s@, i as nat + 1),
            j == i || digits_end(s@, i as nat + 1) == digits_end(s@, j as nat),
            forall|k: int| i + 1 <= k < end ==> is_digit(#[trigger] s@[k]),
            match value {
                Some(v) => v == number(all.take(j - i)) && v <= max_magnitude(),
                None => number(all.take(j - i)) > max_magnitude(),
            },
        decreases s@.len() - j,
    {
        let d: u64 = (s[j] as u64) - ('0' as u64);
        let ghost k = j - i;
        proof {
            if j > i {
                assert(digits_end(s@, j as nat) == digits_end(s@, j as nat + 1));
                lemma_digits_end(s@, j as nat + 1);
            }
            assert(all.take(k + 1).drop_last() =~= all.take(k));
            assert(all.take(k + 1).last() == s@[j as int]);
        }
        value = match value {
            Some(v) => {
                let next: u128 = (v as u128) * 10 + (d as u128);
                if next <= 0x8000_0000_0000_0000 {
                    Some(next as u64)
                } else {
                    None
                }
            },
            None => None,
        };
        j += 1;
    }
    proof {
        assert(j == end);
        assert(all.take(j - i) =~= all);
    }
    (value, j)
}

/// The contents before the rest of a string literal.
spec fn with_before(before: Text, rest: Option<(Text, nat)>) -> Option<(Text, nat)> {
    match rest {
        Some((text, j)) => Some((before + text, j)),
        None => None,
    }
}

proof fn lemma_with_before(before: Text, c: char, rest: Option<(Text, nat)>)
    ensures
        with_before(
            before,
            match rest {
                Some((text, j)) => Some((seq![c] + text, j)),
                None => None,
            },
        ) == with_before(before.push(c), rest),
{
    if let Some((text, j)) = rest {
        assert(before + (seq![c] + text) =~= before.push(c) + text);
    }
}

/// The contents of the string literal that goes on at position `i`, and the position behind it.
fn read_string(s: &Vec<char>, quote: char, i: usize) -> (r: Option<(String, usize)>)
    requires
        i <= s@.len(),
    ensures
        match r {
            Some((text, j)) => string_from(s@, quote, i as nat) == Some((text@, j as nat)) && i < j
                <= s@.len(),
            None => string_from(s@, quote, i as nat) is None,
        },
{
    let n: usize = s.len();
    let mut out = String::new();
    let mut j: usize = i;
    assert(with_before(out@, string_from(s@, quote, i as nat)) == string_from(
        s@,
        quote,
        i as nat,
    )) by {
        if let Some((text, k)) = string_from(s@, quote, i as nat) {
            assert(out@ + text =~= text);
        }
    }
    while j < n
        invariant
            n == s@.len(),
            i <= j <= n,
            string_from(s@, quote, i as nat) == with_before(
                out@,
                string_from(s@, quote, j as nat),
            ),
        decreases n - j,
    {
        let c = s[j];
        if c == quote {
            assert(out@ + Seq::<char>::empty() =~= out@);
            return Some((out, j + 1));
        }
        if c == '\\' {
            if n - j < 2 {
                return None;
            }
            let d = s[j + 1];
            let e = if d == 'n' {
                '\n'
            } else if d == 't' {
                '\t'
            } else if d == 'r' {
                '\r'
            } else {
                d
            };
            proof {
                lemma_with_before(out@, e, string_from(s@, quote, j as nat + 2));
            }
            out.push(e);
            j += 2;
        } else {
            proof {
                lemma_with_before(out@, c, string_from(s@, quote, j as nat + 1));
            }
            out.push(c);
            j += 1;
        }
    }
    None
}

/// The punctuation that begins with `c`, with its length, if `d` comes next.
fn read_symbol(c: char, d: char) -> (r: Option<(Symbol, usize)>)
    ensures
        match r {
            Some((symbol, n)) => symbol_of(c, d) == Some((symbol, n as nat)) && 1 <= n <= 2 && (n
                == 2 ==> d != ' '),
            None => symbol_of(c, d) is None,
        },
{
    if c == '(' {
        Some((Symbol::LParen, 1))
    } else if c == ')' {
        Some((Symbol::RParen, 1))
    } else if c == '[' {
        Some((Symbol::LBracket, 1))
    } else if c == ']' {
        Some((Symbol::RBracket, 1))
    } else if c == '{' {
        Some((Symbol::LBrace, 1))
    } else if c == '}' {
        Some((Symbol::RBrace, 1))
    } else if c == ',' {
        Some((Symbol::Comma, 1))
    } else if c == ':' {
        Some((Symbol::Colon, 1))
    } else if c == '|' {
        Some((Symbol::Pipe, 1))
    } else if c == '*' {
        Some((Symbol::Star, 1))
    } else if c == '-' {
        Some((Symbol::Minus, 1))
    } else if c == '=' {
        Some((Symbol::Equal, 1))
    } else if c == '.' {
        if d == '.' {
            Some((Symbol::DotDot, 2))
        } else {
            Some((Symbol::Dot, 1))
        }
    } else if c == '<' {
        if d == '>' {
            Some((Symbol::NotEqual, 2))
        } else if d == '=' {
            Some((Symbol::LessEqual, 2))
        } else {
            Some((Symbol::Less, 1))
        }
    } else if c == '>' {
        if d == '=' {
            Some((Symbol::GreaterEqual, 2))
        } else {
            Some((Symbol::Greater, 1))
        }
    } else {
        None
    }
}

/// What the lexer finds at a position.
enum Found {
    Gap(usize),
    Item(TokenKind, usize),
    Fault(&'static str),
}

impl Found {
    /// Whether this is what stands there.
    spec fn is_piece(&self, piece: Piece) -> bool {
        match self {
            Found::Gap(j) => piece == Piece::Gap(*j as nat),
            Found::Item(kind, j) => piece == Piece::Item(kind@, *j as nat),
            Found::Fault(message) => piece == Piece::Fault(message@),
        }
    }
}

/// What stands at position `i`.
fn next_piece(s: &Vec<char>, n: usize, i: usize) -> (r: Found)
    requires
        i < n == s@.len(),
    ensures
        r.is_piece(piece_at(s@, i as nat)),
        r matches Found::Gap(j) ==> i < j <= s@.len(),
        r matches Found::Item(_, j) ==> i < j <= s@.len(),
{
    let c = s[i];
    if space(c) {
        return Found::Gap(i + 1);
    }
    let d = at(s, i + 1);
    if c == '/' && d == '/' {
        return Found::Gap(skip_line(s, i + 2));
    }
    if c == '/' && d == '*' {
        return match skip_comment(s, i + 2) {
            Some(j) => Found::Gap(j),
            None => Found::Fault("unterminated comment"),
        };
    }
    if word_start(c) {
        let j = skip_word(s, i + 1);
        let mut word = String::new();
        push_chars(&mut word, s, i, j);
        assert(word@ =~= s@.subrange(i as int, j as int));
        return Found::Item(TokenKind::Word(word), j);
    }
    if digit(c) {
        let (value, j) = read_number(s, i);
        return match value {
            Some(n) => Found::Item(TokenKind::Int(n), j),
            None => Found::Fault("integer literal out of range"),
        };
    }
    if c == '\'' || c == '"' {
        return match read_string(s, c, i + 1) {
            Some((text, j)) => Found::Item(TokenKind::Str(text), j),
            None => Found::Fault("unterminated string literal"),
        };
    }
    match read_symbol(c, d) {
        Some((symbol, length)) => Found::Item(TokenKind::Symbol(symbol), i + length),
        None => Found::Fault("unexpected character"),
    }
}

/// Turns a query text into tokens, the last of which is [`TokenKind::End`].
///
/// # Errors
///
/// Returns a [`CypherError::Lex`] for a character outside the language, a comment or a string
/// literal that does not end, and an integer literal out of range.
pub fn tokenize(input: &str) -> (r: Result<Vec<Token>, CypherError>)
    ensures
        match tokens_of(input@) {
            Ok(tokens) => r is Ok && token_models(r->Ok_0@) == tokens,
            Err(e) => r is Err && r->Err_0@ == e,
        },
{
    let s = chars_of(input);
    let n: usize = s.len();
    let mut tokens: Vec<Token> = Vec::new();
    let mut i: usize = 0;
    proof {
        lemma_prepend_nothing(token_models(tokens@), tokens_from(s@, 0));
    }
    while i < n
        invariant
            n == s@.len(),
            s@ == input@,
            i <= n,
            tokens_of(s@) == prepend(token_models(tokens@), tokens_from(s@, i as nat)),
        decreases n - i,
    {
        match next_piece(&s, n, i) {
            Found::Gap(j) => {
                i = j;
            },
            Found::Item(kind, j) => {
                let token = Token { kind, position: i };
                proof {
                    lemma_token_models_push(tokens@, token);
                    lemma_prepend_push(
                        token_models(tokens@),
                        token@,
                        tokens_from(s@, j as nat),
                    );
                }
                tokens.push(token);
                i = j;
            },
            Found::Fault(message) => {
                return Err(CypherError::Lex { message: message.to_owned(), position: i });
            },
        }
    }
    let end = Token { kind: TokenKind::End, position: n };
    proof {
        lemma_token_models_push(tokens@, end);
        assert(token_models(tokens@).push(end@) =~= token_models(tokens@) + seq![end@]);
    }
    tokens.push(end);
    Ok(tokens)
}

} // verus!
