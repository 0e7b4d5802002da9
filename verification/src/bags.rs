//! Sequences that hold the same elements equally often, in whatever order.

use vstd::prelude::*;


verus! {

broadcast use vstd::multiset::group_multiset_axioms;

/// Whether two sequences hold the same elements, each equally often.
pub open spec fn same_bag<A>(s: Seq<A>, t: Seq<A>) -> bool {
    s.to_multiset() == t.to_multiset()
}

/// What a function makes of the elements, one after the other.
pub open spec fn flat<A, B>(s: Seq<A>, f: spec_fn(A) -> Seq<B>) -> Seq<B>
    decreases s.len(),
{
    if s.len() == 0 {
        Seq::empty()
    } else {
        flat(s.drop_last(), f) + f(s.last())
    }
}

/// Concatenations of the same elements hold the same elements.
pub proof fn lemma_bag_concat<A>(a: Seq<A>, b: Seq<A>, c: Seq<A>, d: Seq<A>)
    requires
        same_bag(a, c),
        same_bag(b, d),
    ensures
        same_bag(a + b, c + d),
{
    vstd::seq_lib::lemma_multiset_commutative(a, b);
    vstd::seq_lib::lemma_multiset_commutative(c, d);
}

/// An element may be taken out and handled last.
proof fn lemma_flat_remove<A, B>(s: Seq<A>, f: spec_fn(A) -> Seq<B>, k: int)
    requires
        0 <= k < s.len(),
    ensures
        same_bag(flat(s, f), flat(s.remove(k), f) + f(s[k])),
    decreases s.len(),
{
    let init = s.drop_last();
    let last = s.last();
    if k == s.len() - 1 {
        assert(s.remove(k) =~= init);
    } else {
        lemma_flat_remove(init, f, k);
        let rest = s.remove(k);
        assert(rest.drop_last() =~= init.remove(k));
        assert(rest.last() == last);
        let a = flat(init.remove(k), f);
        vstd::seq_lib::lemma_multiset_commutative(flat(init, f), f(last));
        vstd::seq_lib::lemma_multiset_commutative(a, f(s[k]));
        vstd::seq_lib::lemma_multiset_commutative(a, f(last));
        vstd::seq_lib::lemma_multiset_commutative(a + f(last), f(s[k]));
        assert(flat(s, f).to_multiset() =~= (flat(rest, f) + f(s[k])).to_multiset());
    }
}

/// The order of the elements has no part in what comes out, but for its order.
pub proof fn lemma_flat_permutes<A, B>(s: Seq<A>, t: Seq<A>, f: spec_fn(A) -> Seq<B>)
    requires
        same_bag(s, t),
    ensures
        same_bag(flat(s, f), flat(t, f)),
    decreases s.len(),
{
    s.to_multiset_ensures();
    t.to_multiset_ensures();
    assert(s.len() == t.len());
    if s.len() > 0 {
        let x = s.last();
        assert(s[s.len() - 1] == x);
        assert(s.contains(x));
        assert(t.to_multiset().count(x) > 0);
        assert(t.contains(x));
        let k = choose|k: int| 0 <= k < t.len() && t[k] == x;
        let rest = t.remove(k);
        assert(s.remove(s.len() - 1) =~= s.drop_last());
        assert(s.drop_last().to_multiset() == s.to_multiset().remove(x));
        assert(rest.to_multiset() == t.to_multiset().remove(x));
        lemma_flat_permutes(s.drop_last(), rest, f);
        lemma_flat_remove(t, f, k);
        lemma_bag_concat(flat(s.drop_last(), f), f(x), flat(rest, f), f(x));
    }
}

/// Functions that make the same of each element, but for its order, make the same of all.
pub proof fn lemma_flat_alike<A, B>(
    s: Seq<A>,
    f: spec_fn(A) -> Seq<B>,
    h: spec_fn(A) -> Seq<B>,
)
    requires
        forall|k: int| 0 <= k < s.len() ==> same_bag(f(#[trigger] s[k]), h(s[k])),
    ensures
        same_bag(flat(s, f), flat(s, h)),
    decreases s.len(),
{
    if s.len() > 0 {
        let init = s.drop_last();
        assert forall|k: int| 0 <= k < init.len() implies same_bag(
            f(#[trigger] init[k]),
            h(init[k]),
        ) by {
            assert(init[k] == s[k]);
        }
        lemma_flat_alike(init, f, h);
        assert(s[s.len() - 1] == s.last());
        lemma_bag_concat(flat(init, f), f(s.last()), flat(init, h), h(s.last()));
    }
}

/// Sequences without repetitions that hold the same elements hold them equally often.
pub proof fn lemma_unique_same_bag<A>(s: Seq<A>, t: Seq<A>)
    requires
        s.no_duplicates(),
        t.no_duplicates(),
        forall|a: A| s.contains(a) <==> #[trigger] t.contains(a),
    ensures
        same_bag(s, t),
{
    s.to_multiset_ensures();
    t.to_multiset_ensures();
    s.lemma_multiset_has_no_duplicates();
    t.lemma_multiset_has_no_duplicates();
    assert forall|a: A| s.to_multiset().count(a) == #[trigger] t.to_multiset().count(a) by {
        assert(s.contains(a) <==> t.contains(a));
        assert(s.contains(a) <==> s.to_multiset().count(a) > 0);
        assert(t.contains(a) <==> t.to_multiset().count(a) > 0);
        if s.contains(a) {
            assert(s.to_multiset().contains(a));
            assert(t.to_multiset().contains(a));
        }
    }
    assert(s.to_multiset() =~= t.to_multiset());
}

/// Bags of the same elements hold the same elements.
pub proof fn lemma_same_bag_contains<A>(s: Seq<A>, t: Seq<A>, a: A)
    requires
        same_bag(s, t),
    ensures
        s.contains(a) <==> t.contains(a),
{
    s.to_multiset_ensures();
    t.to_multiset_ensures();
    assert(s.contains(a) <==> s.to_multiset().count(a) > 0);
    assert(t.contains(a) <==> t.to_multiset().count(a) > 0);
}

} // verus!
