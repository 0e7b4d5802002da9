//! Reading what was written: a query that can be written is the query that its tokens stand for.

use vstd::prelude::*;

use crate::ast::{Direction, LiteralModel, NodePatternModel, PathModel, RelPatternModel, VarLength};
use crate::error::ErrorModel;
use crate::grammar::{
    hops_at, is_symbol, is_word, kind_at, literal_at, names_at, node_at, opt_length_at,
    opt_names_at, opt_props_at, opt_var_at, path_at, paths_at, props_at, rel_at, rel_body_at,
    reserved, var_at,
};
use crate::lexer::{KindModel, Symbol, TokenModel};
use crate::text::{ascii_lower, Text};
use crate::writing::{
    count, free, hops, key, keyword, literal, mark, name, names, node, opt_count, opt_free,
    opt_length, opt_name, opt_names, opt_props, path, path_ok, paths, paths_ok, props, rel,
    rel_body, shown, stands, Sign,
};

verus! {

// ---- Words ---------------------------------------------------------------------------

/// What tells the words of the language apart: their lengths and their first two letters.
pub proof fn lemma_words()
    ensures
        "match"@.len() == 5 && "match"@[0] == 'm' && "match"@[1] == 'a',
        "optional"@.len() == 8 && "optional"@[0] == 'o' && "optional"@[1] == 'p',
        "where"@.len() == 5 && "where"@[0] == 'w' && "where"@[1] == 'h',
        "return"@.len() == 6 && "return"@[0] == 'r' && "return"@[1] == 'e',
        "with"@.len() == 4 && "with"@[0] == 'w' && "with"@[1] == 'i',
        "unwind"@.len() == 6 && "unwind"@[0] == 'u' && "unwind"@[1] == 'n',
        "as"@.len() == 2 && "as"@[0] == 'a' && "as"@[1] == 's',
        "distinct"@.len() == 8 && "distinct"@[0] == 'd' && "distinct"@[1] == 'i',
        "order"@.len() == 5 && "order"@[0] == 'o' && "order"@[1] == 'r',
        "by"@.len() == 2 && "by"@[0] == 'b' && "by"@[1] == 'y',
        "skip"@.len() == 4 && "skip"@[0] == 's' && "skip"@[1] == 'k',
        "limit"@.len() == 5 && "limit"@[0] == 'l' && "limit"@[1] == 'i',
        "asc"@.len() == 3 && "asc"@[0] == 'a' && "asc"@[1] == 's',
        "desc"@.len() == 4 && "desc"@[0] == 'd' && "desc"@[1] == 'e',
        "and"@.len() == 3 && "and"@[0] == 'a' && "and"@[1] == 'n',
        "or"@.len() == 2 && "or"@[0] == 'o' && "or"@[1] == 'r',
        "not"@.len() == 3 && "not"@[0] == 'n' && "not"@[1] == 'o',
        "in"@.len() == 2 && "in"@[0] == 'i' && "in"@[1] == 'n',
        "is"@.len() == 2 && "is"@[0] == 'i' && "is"@[1] == 's',
        "null"@.len() == 4 && "null"@[0] == 'n' && "null"@[1] == 'u',
        "true"@.len() == 4 && "true"@[0] == 't' && "true"@[1] == 'r',
        "false"@.len() == 5 && "false"@[0] == 'f' && "false"@[1] == 'a',
        "contains"@.len() == 8 && "contains"@[0] == 'c' && "contains"@[1] == 'o',
        "starts"@.len() == 6 && "starts"@[0] == 's' && "starts"@[1] == 't',
        "ends"@.len() == 4 && "ends"@[0] == 'e' && "ends"@[1] == 'n',
        "case"@.len() == 4 && "case"@[0] == 'c' && "case"@[1] == 'a',
        "when"@.len() == 4 && "when"@[0] == 'w' && "when"@[1] == 'h',
        "then"@.len() == 4 && "then"@[0] == 't' && "then"@[1] == 'h',
        "else"@.len() == 4 && "else"@[0] == 'e' && "else"@[1] == 'l',
        "end"@.len() == 3 && "end"@[0] == 'e' && "end"@[1] == 'n',
        "exists"@.len() == 6 && "exists"@[0] == 'e' && "exists"@[1] == 'x',
        "count"@.len() == 5 && "count"@[0] == 'c' && "count"@[1] == 'o',
        "collect"@.len() == 7 && "collect"@[0] == 'c' && "collect"@[1] == 'o',
        "min"@.len() == 3 && "min"@[0] == 'm' && "min"@[1] == 'i',
        "max"@.len() == 3 && "max"@[0] == 'm' && "max"@[1] == 'a',
        "sum"@.len() == 3 && "sum"@[0] == 's' && "sum"@[1] == 'u',
        "avg"@.len() == 3 && "avg"@[0] == 'a' && "avg"@[1] == 'v',
{
    reveal_strlit("match");
    reveal_strlit("optional");
    reveal_strlit("where");
    reveal_strlit("return");
    reveal_strlit("with");
    reveal_strlit("unwind");
    reveal_strlit("as");
    reveal_strlit("distinct");
    reveal_strlit("order");
    reveal_strlit("by");
    reveal_strlit("skip");
    reveal_strlit("limit");
    reveal_strlit("asc");
    reveal_strlit("desc");
    reveal_strlit("and");
    reveal_strlit("or");
    reveal_strlit("not");
    reveal_strlit("in");
    reveal_strlit("is");
    reveal_strlit("null");
    reveal_strlit("true");
    reveal_strlit("false");
    reveal_strlit("contains");
    reveal_strlit("starts");
    reveal_strlit("ends");
    reveal_strlit("case");
    reveal_strlit("when");
    reveal_strlit("then");
    reveal_strlit("else");
    reveal_strlit("end");
    reveal_strlit("exists");
    reveal_strlit("count");
    reveal_strlit("collect");
    reveal_strlit("min");
    reveal_strlit("max");
    reveal_strlit("sum");
    reveal_strlit("avg");
}

/// The words that cannot name a variable are the keywords.
pub proof fn lemma_reserved(word: Text)
    ensures
        reserved(word) <==> keyword(word),
{
    reveal(keyword);
    let all = seq![
        "match"@, "optional"@, "where"@, "return"@, "with"@, "unwind"@, "as"@, "distinct"@,
        "order"@, "by"@, "skip"@, "limit"@, "asc"@, "desc"@, "and"@, "or"@, "not"@, "in"@, "is"@,
        "null"@, "true"@, "false"@, "contains"@, "starts"@, "ends"@, "case"@, "when"@, "then"@,
        "else"@, "end"@, "exists"@,
    ];
    assert(all[0] == "match"@ && all[1] == "optional"@ && all[2] == "where"@ && all[3] == "return"@
        && all[4] == "with"@ && all[5] == "unwind"@ && all[6] == "as"@ && all[7] == "distinct"@
        && all[8] == "order"@ && all[9] == "by"@ && all[10] == "skip"@ && all[11] == "limit"@
        && all[12] == "asc"@ && all[13] == "desc"@ && all[14] == "and"@ && all[15] == "or"@
        && all[16] == "not"@ && all[17] == "in"@ && all[18] == "is"@ && all[19] == "null"@
        && all[20] == "true"@ && all[21] == "false"@ && all[22] == "contains"@ && all[23]
        == "starts"@ && all[24] == "ends"@ && all[25] == "case"@ && all[26] == "when"@ && all[27]
        == "then"@ && all[28] == "else"@ && all[29] == "end"@ && all[30] == "exists"@);
    assert(keyword(word) <==> all.contains(word));
    if keyword(word) {
        let k = choose|k: int| 0 <= k < all.len() && all[k] == word;
        assert(0 <= k < 31);
    }
}

/// Keywords cannot name a variable, and every other word can, whatever the case of its letters.
pub proof fn lemma_variable_names(toks: Seq<TokenModel>, i: nat, w: Text)
    requires
        kind_at(toks, i) == KindModel::Word(w),
    ensures
        free(w) ==> var_at(toks, i) == Ok::<(Text, nat), ErrorModel>((w, i + 1)),
        !free(w) ==> var_at(toks, i) is Err,
{
    lemma_reserved(ascii_lower(w));
}

// ---- Signs ---------------------------------------------------------------------------

/// Signs in a row are shown one after the other.
pub proof fn lemma_split(toks: Seq<TokenModel>, i: nat, a: Seq<Sign>, b: Seq<Sign>)
    requires
        shown(toks, i, a + b),
    ensures
        shown(toks, i, a),
        shown(toks, i + a.len(), b),
{
    reveal(shown);
    let all = a + b;
    assert forall|k: int| 0 <= k < a.len() implies stands(toks[i + k].kind, #[trigger] a[k]) by {
        assert(all[k] == a[k]);
    }
    assert forall|k: int| 0 <= k < b.len() implies stands(
        toks[i + a.len() + k].kind,
        #[trigger] b[k],
    ) by {
        assert(all[a.len() + k] == b[k]);
        assert(i + (a.len() + k) == i + a.len() + k);
    }
}

pub proof fn lemma_mark(toks: Seq<TokenModel>, i: nat, symbol: Symbol)
    requires
        shown(toks, i, mark(symbol)),
    ensures
        is_symbol(toks, i, symbol),
        kind_at(toks, i) == KindModel::Symbol(symbol),
        i < toks.len(),
{
    reveal(shown);
    assert(stands(toks[i + 0int].kind, mark(symbol)[0]));
}

pub proof fn lemma_key(toks: Seq<TokenModel>, i: nat, word: Text)
    requires
        shown(toks, i, key(word)),
    ensures
        is_word(toks, i, word),
        i < toks.len(),
{
    reveal(shown);
    assert(stands(toks[i + 0int].kind, key(word)[0]));
}

pub proof fn lemma_name(toks: Seq<TokenModel>, i: nat, text: Text)
    requires
        shown(toks, i, name(text)),
    ensures
        kind_at(toks, i) == KindModel::Word(text),
        i < toks.len(),
{
    reveal(shown);
    assert(stands(toks[i + 0int].kind, name(text)[0]));
}

pub proof fn lemma_number(toks: Seq<TokenModel>, i: nat, n: nat)
    requires
        shown(toks, i, count(n)),
    ensures
        kind_at(toks, i) == KindModel::Int(n as u64),
        i < toks.len(),
{
    reveal(shown);
    assert(stands(toks[i + 0int].kind, count(n)[0]));
}

// ---- Patterns ------------------------------------------------------------------------

pub proof fn lemma_literal(toks: Seq<TokenModel>, i: nat, l: LiteralModel)
    requires
        shown(toks, i, literal(l)),
    ensures
        literal_at(toks, i) == Ok::<(LiteralModel, nat), ErrorModel>(
            (l, i + literal(l).len()),
        ),
        literal(l).len() > 0,
{
    match l {
        LiteralModel::Str(s) => {
            reveal(shown);
            assert(stands(toks[i + 0int].kind, literal(l)[0]));
        },
        LiteralModel::Int(n) => {
            if n >= 0 {
                lemma_number(toks, i, n as nat);
            } else {
                let m = (-(n as int)) as nat;
                lemma_split(toks, i, mark(Symbol::Minus), count(m));
                lemma_mark(toks, i, Symbol::Minus);
                lemma_number(toks, i + 1, m);
            }
        },
        LiteralModel::Bool(b) => {
            lemma_words();
            lemma_key(
                toks,
                i,
                if b {
                    "true"@
                } else {
                    "false"@
                },
            );
        },
        LiteralModel::Null => {
            lemma_words();
            lemma_key(toks, i, "null"@);
        },
    }
}

/// An optional name is read if something else than a word stands behind it.
pub proof fn lemma_opt_name(toks: Seq<TokenModel>, i: nat, text: Option<Text>)
    requires
        shown(toks, i, opt_name(text)),
        opt_free(text),
        !(kind_at(toks, i + opt_name(text).len()) is Word),
    ensures
        opt_var_at(toks, i) == Ok::<(Option<Text>, nat), ErrorModel>(
            (text, i + opt_name(text).len()),
        ),
{
    if let Some(t) = text {
        lemma_name(toks, i, t);
        lemma_variable_names(toks, i, t);
    }
}

pub proof fn lemma_names(toks: Seq<TokenModel>, i: nat, texts: Seq<Text>, k: int)
    requires
        0 <= k < texts.len(),
        shown(toks, i, names(texts, k)),
        !is_symbol(toks, i + names(texts, k).len(), Symbol::Pipe),
    ensures
        names_at(toks, i) == Ok::<(Seq<Text>, nat), ErrorModel>(
            (texts.skip(k), i + names(texts, k).len()),
        ),
    decreases texts.len() - k,
{
    if k + 1 == texts.len() {
        lemma_name(toks, i, texts[k]);
        assert(texts.skip(k) =~= seq![texts[k]]);
    } else {
        let rest = names(texts, k + 1);
        lemma_split(toks, i, name(texts[k]) + mark(Symbol::Pipe), rest);
        lemma_split(toks, i, name(texts[k]), mark(Symbol::Pipe));
        lemma_name(toks, i, texts[k]);
        lemma_mark(toks, i + 1, Symbol::Pipe);
        lemma_names_begin(toks, i + 2, texts, k + 1);
        assert(i + 2 + rest.len() == i + names(texts, k).len());
        lemma_names(toks, i + 2, texts, k + 1);
        assert(seq![texts[k]] + texts.skip(k + 1) =~= texts.skip(k));
    }
}

pub proof fn lemma_names_begin(toks: Seq<TokenModel>, i: nat, texts: Seq<Text>, k: int)
    requires
        0 <= k < texts.len(),
        shown(toks, i, names(texts, k)),
    ensures
        kind_at(toks, i) is Word,
{
    if k + 1 == texts.len() {
        lemma_name(toks, i, texts[k]);
    } else {
        lemma_split(toks, i, name(texts[k]) + mark(Symbol::Pipe), names(texts, k + 1));
        lemma_split(toks, i, name(texts[k]), mark(Symbol::Pipe));
        lemma_name(toks, i, texts[k]);
    }
}

pub proof fn lemma_opt_names(toks: Seq<TokenModel>, i: nat, texts: Seq<Text>)
    requires
        shown(toks, i, opt_names(texts)),
        !is_symbol(toks, i + opt_names(texts).len(), Symbol::Pipe),
        !is_symbol(toks, i + opt_names(texts).len(), Symbol::Colon),
    ensures
        opt_names_at(toks, i) == Ok::<(Seq<Text>, nat), ErrorModel>(
            (texts, i + opt_names(texts).len()),
        ),
{
    if texts.len() > 0 {
        lemma_split(toks, i, mark(Symbol::Colon), names(texts, 0));
        lemma_mark(toks, i, Symbol::Colon);
        lemma_names(toks, i + 1, texts, 0);
        assert(texts.skip(0) =~= texts);
    } else {
        assert(texts =~= Seq::empty());
    }
}

pub proof fn lemma_props(
    toks: Seq<TokenModel>,
    i: nat,
    entries: Seq<(Text, LiteralModel)>,
    k: int,
)
    requires
        0 <= k < entries.len(),
        shown(toks, i, props(entries, k)),
    ensures
        props_at(toks, i) == Ok::<(Seq<(Text, LiteralModel)>, nat), ErrorModel>(
            (entries.skip(k), i + props(entries, k).len()),
        ),
        kind_at(toks, i) is Word,
    decreases entries.len() - k,
{
    let head = name(entries[k].0) + mark(Symbol::Colon);
    let l = literal(entries[k].1);
    let tail = if k + 1 == entries.len() {
        mark(Symbol::RBrace)
    } else {
        mark(Symbol::Comma) + props(entries, k + 1)
    };
    lemma_split(toks, i, head + l, tail);
    lemma_split(toks, i, head, l);
    lemma_split(toks, i, name(entries[k].0), mark(Symbol::Colon));
    lemma_name(toks, i, entries[k].0);
    lemma_mark(toks, i + 1, Symbol::Colon);
    lemma_literal(toks, i + 2, entries[k].1);
    let j = i + 2 + l.len();
    if k + 1 == entries.len() {
        lemma_mark(toks, j, Symbol::RBrace);
        assert(entries.skip(k) =~= seq![entries[k]]);
    } else {
        lemma_split(toks, j, mark(Symbol::Comma), props(entries, k + 1));
        lemma_mark(toks, j, Symbol::Comma);
        lemma_props(toks, j + 1, entries, k + 1);
        assert(seq![entries[k]] + entries.skip(k + 1) =~= entries.skip(k));
    }
}

pub proof fn lemma_opt_props(toks: Seq<TokenModel>, i: nat, entries: Seq<(Text, LiteralModel)>)
    requires
        shown(toks, i, opt_props(entries)),
        !is_symbol(toks, i + opt_props(entries).len(), Symbol::LBrace),
    ensures
        opt_props_at(toks, i) == Ok::<(Seq<(Text, LiteralModel)>, nat), ErrorModel>(
            (entries, i + opt_props(entries).len()),
        ),
{
    if entries.len() > 0 {
        lemma_split(toks, i, mark(Symbol::LBrace), props(entries, 0));
        lemma_mark(toks, i, Symbol::LBrace);
        lemma_props(toks, i + 1, entries, 0);
        assert(entries.skip(0) =~= entries);
    } else {
        assert(entries =~= Seq::empty());
    }
}

/// What an optional part begins with, or what stands behind it.
pub proof fn lemma_opt_props_begin(
    toks: Seq<TokenModel>,
    i: nat,
    entries: Seq<(Text, LiteralModel)>,
    next: Symbol,
)
    requires
        shown(toks, i, opt_props(entries)),
        is_symbol(toks, i + opt_props(entries).len(), next),
    ensures
        is_symbol(toks, i, Symbol::LBrace) || is_symbol(toks, i, next),
{
    if entries.len() > 0 {
        lemma_split(toks, i, mark(Symbol::LBrace), props(entries, 0));
        lemma_mark(toks, i, Symbol::LBrace);
    }
}

pub proof fn lemma_opt_names_begin(toks: Seq<TokenModel>, i: nat, texts: Seq<Text>)
    requires
        shown(toks, i, opt_names(texts)),
        kind_at(toks, i + opt_names(texts).len()) is Symbol,
    ensures
        kind_at(toks, i) is Symbol,
{
    if texts.len() > 0 {
        lemma_split(toks, i, mark(Symbol::Colon), names(texts, 0));
        lemma_mark(toks, i, Symbol::Colon);
    }
}

pub proof fn lemma_node(toks: Seq<TokenModel>, i: nat, p: NodePatternModel)
    requires
        shown(toks, i, node(p)),
        opt_free(p.var),
    ensures
        node_at(toks, i) == Ok::<(NodePatternModel, nat), ErrorModel>((p, i + node(p).len())),
        is_symbol(toks, i, Symbol::LParen),
        node(p).len() > 0,
{
    let a = mark(Symbol::LParen);
    let b = opt_name(p.var);
    let c = opt_names(p.labels);
    let d = opt_props(p.props);
    lemma_split(toks, i, a + b + c + d, mark(Symbol::RParen));
    lemma_split(toks, i, a + b + c, d);
    lemma_split(toks, i, a + b, c);
    lemma_split(toks, i, a, b);
    lemma_mark(toks, i, Symbol::LParen);
    let j = i + 1 + b.len();
    let k = j + c.len();
    let m = k + d.len();
    lemma_mark(toks, m, Symbol::RParen);
    lemma_opt_props(toks, k, p.props);
    lemma_opt_props_begin(toks, k, p.props, Symbol::RParen);
    lemma_opt_names(toks, j, p.labels);
    lemma_opt_names_begin(toks, j, p.labels);
    lemma_opt_name(toks, i + 1, p.var);
}

/// A length is read by its bounds, if no number and no dots stand behind it.
pub proof fn lemma_opt_length(toks: Seq<TokenModel>, i: nat, length: Option<VarLength>)
    requires
        shown(toks, i, opt_length(length)),
        is_symbol(toks, i + opt_length(length).len(), Symbol::RBracket),
    ensures
        opt_length_at(toks, i) == Ok::<(Option<VarLength>, nat), ErrorModel>(
            (length, i + opt_length(length).len()),
        ),
        kind_at(toks, i) is Symbol,
        !is_symbol(toks, i, Symbol::Pipe),
        !is_symbol(toks, i, Symbol::Colon),
{
    if let Some(l) = length {
        let a = mark(Symbol::Star);
        let b = count(l.min as nat);
        let c = mark(Symbol::DotDot);
        let d = opt_count(l.max);
        lemma_split(toks, i, a + b + c, d);
        lemma_split(toks, i, a + b, c);
        lemma_split(toks, i, a, b);
        lemma_mark(toks, i, Symbol::Star);
        lemma_number(toks, i + 1, l.min as nat);
        lemma_mark(toks, i + 2, Symbol::DotDot);
        if let Some(n) = l.max {
            lemma_number(toks, i + 3, n as nat);
        }
    }
}

/// The forms of a length: `*` is any length from one on, `*n` exactly `n`, `*n..` any from `n` on,
/// `*..m` any up to `m`, and `*n..m` any from `n` up to `m`.
pub proof fn lemma_length_forms(toks: Seq<TokenModel>, i: nat, n: u32, m: u32)
    requires
        kind_at(toks, i) == KindModel::Symbol(Symbol::Star),
    ensures
        !(kind_at(toks, i + 1) is Int) && kind_at(toks, i + 1) != KindModel::Symbol(Symbol::DotDot)
            ==> opt_length_at(toks, i) == Ok::<(Option<VarLength>, nat), ErrorModel>(
            (Some(VarLength { min: 1, max: None }), i + 1),
        ),
        kind_at(toks, i + 1) == KindModel::Int(n as u64) && kind_at(toks, i + 2)
            != KindModel::Symbol(Symbol::DotDot) ==> opt_length_at(toks, i) == Ok::<
            (Option<VarLength>, nat),
            ErrorModel,
        >((Some(VarLength { min: n, max: Some(n) }), i + 2)),
        kind_at(toks, i + 1) == KindModel::Int(n as u64) && kind_at(toks, i + 2)
            == KindModel::Symbol(Symbol::DotDot) && !(kind_at(toks, i + 3) is Int)
            ==> opt_length_at(toks, i) == Ok::<(Option<VarLength>, nat), ErrorModel>(
            (Some(VarLength { min: n, max: None }), i + 3),
        ),
        kind_at(toks, i + 1) == KindModel::Symbol(Symbol::DotDot) && kind_at(toks, i + 2)
            == KindModel::Int(m as u64) ==> opt_length_at(toks, i) == Ok::<
            (Option<VarLength>, nat),
            ErrorModel,
        >((Some(VarLength { min: 1, max: Some(m) }), i + 3)),
        kind_at(toks, i + 1) == KindModel::Int(n as u64) && kind_at(toks, i + 2)
            == KindModel::Symbol(Symbol::DotDot) && kind_at(toks, i + 3) == KindModel::Int(m as u64)
            ==> opt_length_at(toks, i) == Ok::<(Option<VarLength>, nat), ErrorModel>(
            (Some(VarLength { min: n, max: Some(m) }), i + 4),
        ),
{
}

pub proof fn lemma_rel_body(toks: Seq<TokenModel>, i: nat, r: RelPatternModel)
    requires
        shown(toks, i, rel_body(r)),
        opt_free(r.var),
    ensures
        rel_body_at(toks, i) == Ok::<
            ((Option<Text>, Seq<Text>, Option<VarLength>), nat),
            ErrorModel,
        >(((r.var, r.types, r.length), i + rel_body(r).len())),
{
    let a = mark(Symbol::LBracket);
    let b = opt_name(r.var);
    let c = opt_names(r.types);
    let d = opt_length(r.length);
    lemma_split(toks, i, a + b + c + d, mark(Symbol::RBracket));
    lemma_split(toks, i, a + b + c, d);
    lemma_split(toks, i, a + b, c);
    lemma_split(toks, i, a, b);
    lemma_mark(toks, i, Symbol::LBracket);
    let j = i + 1 + b.len();
    let k = j + c.len();
    let m = k + d.len();
    lemma_mark(toks, m, Symbol::RBracket);
    lemma_opt_length(toks, k, r.length);
    lemma_opt_names(toks, j, r.types);
    lemma_opt_names_begin(toks, j, r.types);
    lemma_opt_name(toks, i + 1, r.var);
}

pub proof fn lemma_rel(toks: Seq<TokenModel>, i: nat, r: RelPatternModel)
    requires
        shown(toks, i, rel(r)),
        opt_free(r.var),
        !is_symbol(toks, i + rel(r).len(), Symbol::Greater),
    ensures
        rel_at(toks, i) == Ok::<(RelPatternModel, nat), ErrorModel>((r, i + rel(r).len())),
        is_symbol(toks, i, Symbol::Minus) || is_symbol(toks, i, Symbol::Less),
        rel(r).len() > 0,
{
    let a = mark(Symbol::Minus);
    let b = rel_body(r);
    match r.direction {
        Direction::Outgoing => {
            lemma_split(toks, i, a + b + a, mark(Symbol::Greater));
            lemma_split(toks, i, a + b, a);
            lemma_split(toks, i, a, b);
            lemma_mark(toks, i, Symbol::Minus);
            lemma_rel_body(toks, i + 1, r);
            lemma_mark(toks, i + 1 + b.len(), Symbol::Minus);
            lemma_mark(toks, i + 2 + b.len(), Symbol::Greater);
        },
        Direction::Incoming => {
            let c = mark(Symbol::Less);
            lemma_split(toks, i, c + a + b, a);
            lemma_split(toks, i, c + a, b);
            lemma_split(toks, i, c, a);
            lemma_mark(toks, i, Symbol::Less);
            lemma_mark(toks, i + 1, Symbol::Minus);
            lemma_rel_body(toks, i + 2, r);
            lemma_mark(toks, i + 2 + b.len(), Symbol::Minus);
        },
        Direction::Both => {
            lemma_split(toks, i, a + b, a);
            lemma_split(toks, i, a, b);
            lemma_mark(toks, i, Symbol::Minus);
            lemma_rel_body(toks, i + 1, r);
            lemma_mark(toks, i + 1 + b.len(), Symbol::Minus);
        },
    }
}

pub proof fn lemma_hops(
    toks: Seq<TokenModel>,
    i: nat,
    rest: Seq<(RelPatternModel, NodePatternModel)>,
    k: int,
)
    requires
        0 <= k <= rest.len(),
        shown(toks, i, hops(rest, k)),
        forall|m: int|
            #![trigger rest[m]]
            0 <= m < rest.len() ==> opt_free(rest[m].0.var) && opt_free(rest[m].1.var),
        !is_symbol(toks, i + hops(rest, k).len(), Symbol::Minus),
        !is_symbol(toks, i + hops(rest, k).len(), Symbol::Less),
    ensures
        hops_at(toks, i) == Ok::<(Seq<(RelPatternModel, NodePatternModel)>, nat), ErrorModel>(
            (rest.skip(k), i + hops(rest, k).len()),
        ),
    decreases rest.len() - k,
{
    if k < rest.len() {
        let a = rel(rest[k].0);
        let b = node(rest[k].1);
        let c = hops(rest, k + 1);
        lemma_split(toks, i, a + b, c);
        lemma_split(toks, i, a, b);
        assert(opt_free(rest[k].0.var) && opt_free(rest[k].1.var));
        lemma_node(toks, i + a.len(), rest[k].1);
        lemma_rel(toks, i, rest[k].0);
        lemma_hops(toks, i + a.len() + b.len(), rest, k + 1);
        assert(seq![rest[k]] + rest.skip(k + 1) =~= rest.skip(k));
    } else {
        assert(rest.skip(k) =~= Seq::empty());
    }
}

pub proof fn lemma_path(toks: Seq<TokenModel>, i: nat, p: PathModel)
    requires
        shown(toks, i, path(p)),
        path_ok(p),
        !is_symbol(toks, i + path(p).len(), Symbol::Minus),
        !is_symbol(toks, i + path(p).len(), Symbol::Less),
    ensures
        path_at(toks, i) == Ok::<(PathModel, nat), ErrorModel>((p, i + path(p).len())),
        is_symbol(toks, i, Symbol::LParen),
        path(p).len() > 0,
        i < toks.len(),
{
    lemma_split(toks, i, node(p.start), hops(p.rest, 0));
    lemma_node(toks, i, p.start);
    lemma_hops(toks, i + node(p.start).len(), p.rest, 0);
    assert(p.rest.skip(0) =~= p.rest);
}

pub proof fn lemma_paths(toks: Seq<TokenModel>, i: nat, ps: Seq<PathModel>, k: int)
    requires
        0 <= k < ps.len(),
        shown(toks, i, paths(ps, k)),
        paths_ok(ps),
        !is_symbol(toks, i + paths(ps, k).len(), Symbol::Minus),
        !is_symbol(toks, i + paths(ps, k).len(), Symbol::Less),
        !is_symbol(toks, i + paths(ps, k).len(), Symbol::Comma),
    ensures
        paths_at(toks, i) == Ok::<(Seq<PathModel>, nat), ErrorModel>(
            (ps.skip(k), i + paths(ps, k).len()),
        ),
        is_symbol(toks, i, Symbol::LParen),
        paths(ps, k).len() > 0,
    decreases ps.len() - k,
{
    let a = path(ps[k]);
    if k + 1 == ps.len() {
        lemma_path(toks, i, ps[k]);
        assert(ps.skip(k) =~= seq![ps[k]]);
    } else {
        let c = paths(ps, k + 1);
        lemma_split(toks, i, a + mark(Symbol::Comma), c);
        lemma_split(toks, i, a, mark(Symbol::Comma));
        let j = i + a.len();
        lemma_mark(toks, j, Symbol::Comma);
        lemma_path(toks, i, ps[k]);
        lemma_paths(toks, j + 1, ps, k + 1);
        assert(seq![ps[k]] + ps.skip(k + 1) =~= ps.skip(k));
    }
}

} // verus!
