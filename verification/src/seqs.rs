//! Sequences whose elements are taken once each, in the order of their first occurrence.

use vstd::prelude::*;

verus! {

/// The elements of `s` outside `known`, in the order of their first occurrence, each once.
pub open spec fn fresh<A>(s: Seq<A>, known: Set<A>) -> Seq<A>
    decreases s.len(),
{
    if s.len() == 0 {
        s
    } else {
        let before = fresh(s.drop_last(), known);
        if known.contains(s.last()) || s.drop_last().contains(s.last()) {
            before
        } else {
            before.push(s.last())
        }
    }
}

/// The elements of `s` in the order of their first occurrence, each once.
pub open spec fn distinct<A>(s: Seq<A>) -> Seq<A> {
    fresh(s, Set::empty())
}

/// Exactly the elements outside `known` are fresh, and none of them occurs twice.
pub proof fn lemma_fresh_elements<A>(s: Seq<A>, known: Set<A>)
    ensures
        forall|a: A| #[trigger]
            fresh(s, known).contains(a) <==> s.contains(a) && !known.contains(a),
        fresh(s, known).no_duplicates(),
        fresh(s, known).len() <= s.len(),
    decreases s.len(),
{
    if s.len() > 0 {
        let init = s.drop_last();
        lemma_fresh_elements(init, known);
        let before = fresh(init, known);
        assert(s == init.push(s.last()));
        assert forall|a: A| #[trigger]
            fresh(s, known).contains(a) <==> s.contains(a) && !known.contains(a) by {
            lemma_push_contains(init, s.last(), a);
            lemma_push_contains(before, s.last(), a);
        }
        if !known.contains(s.last()) && !init.contains(s.last()) {
            assert(!before.contains(s.last()));
        }
    }
}

/// What a sequence contains after a push.
pub proof fn lemma_push_contains<A>(s: Seq<A>, x: A, a: A)
    ensures
        s.push(x).contains(a) <==> s.contains(a) || a == x,
{
    if s.contains(a) {
        let i = choose|i: int| 0 <= i < s.len() && s[i] == a;
        assert(s.push(x)[i] == a);
    }
    if a == x {
        assert(s.push(x)[s.len() as int] == a);
    }
    if s.push(x).contains(a) && a != x {
        let i = choose|i: int| 0 <= i < s.push(x).len() && s.push(x)[i] == a;
        assert(s[i] == a);
    }
}

/// What a concatenation contains.
pub proof fn lemma_concat_contains<A>(s: Seq<A>, t: Seq<A>, a: A)
    ensures
        (s + t).contains(a) <==> s.contains(a) || t.contains(a),
{
    if s.contains(a) {
        let i = choose|i: int| 0 <= i < s.len() && s[i] == a;
        assert((s + t)[i] == a);
    }
    if t.contains(a) {
        let i = choose|i: int| 0 <= i < t.len() && t[i] == a;
        assert((s + t)[s.len() + i] == a);
    }
    if (s + t).contains(a) {
        let i = choose|i: int| 0 <= i < (s + t).len() && (s + t)[i] == a;
        if i < s.len() {
            assert(s[i] == a);
        } else {
            assert(t[i - s.len()] == a);
        }
    }
}

/// The set of a concatenation.
pub proof fn lemma_concat_set<A>(s: Seq<A>, t: Seq<A>)
    ensures
        (s + t).to_set() == s.to_set().union(t.to_set()),
{
    assert forall|a: A| (s + t).to_set().contains(a) <==> s.to_set().union(
        t.to_set(),
    ).contains(a) by {
        lemma_concat_contains(s, t, a);
    }
    assert((s + t).to_set() =~= s.to_set().union(t.to_set()));
}

/// What is fresh in a concatenation.
pub proof fn lemma_fresh_concat<A>(s: Seq<A>, t: Seq<A>, known: Set<A>)
    ensures
        fresh(s + t, known) == fresh(s, known) + fresh(t, known.union(s.to_set())),
    decreases t.len(),
{
    if t.len() == 0 {
        assert(s + t =~= s);
    } else {
        lemma_fresh_concat(s, t.drop_last(), known);
        assert((s + t).drop_last() =~= s + t.drop_last());
        assert((s + t).last() == t.last());
        lemma_concat_contains(s, t.drop_last(), t.last());
        assert(fresh(s + t, known) =~= fresh(s, known) + fresh(t, known.union(s.to_set())));
    }
}

/// Taking the elements once beforehand changes nothing.
pub proof fn lemma_fresh_distinct<A>(s: Seq<A>, known: Set<A>)
    ensures
        fresh(distinct(s), known) == fresh(s, known),
    decreases s.len(),
{
    if s.len() > 0 {
        let init = s.drop_last();
        lemma_fresh_distinct(init, known);
        lemma_fresh_elements(init, Set::empty());
        if !init.contains(s.last()) {
            assert(distinct(s).drop_last() =~= distinct(init));
        }
    }
}

/// The elements of `distinct(s)` are those of `s`.
pub proof fn lemma_distinct_set<A>(s: Seq<A>)
    ensures
        distinct(s).to_set() == s.to_set(),
{
    lemma_fresh_elements(s, Set::empty());
    assert(distinct(s).to_set() =~= s.to_set());
}

} // verus!
