//! A table of values: each value is held once and found by a fingerprint of its contents.

use std::collections::HashMap;

use vstd::prelude::*;

use crate::seqs::{distinct, lemma_distinct_set, lemma_push_contains};
use crate::text::{chars_of, Text};
use crate::value::{entry_models, lemma_value_models_push, value_models, CypherValue, ValueModel};

verus! {

broadcast use vstd::std_specs::hash::group_hash_axioms;

/// Folds one number into a fingerprint.
pub open spec fn mixed(h: u64, x: u64) -> u64 {
    h.wrapping_mul(0x100000001b3).wrapping_add(x)
}

/// Folds the first `n` characters of a text into a fingerprint.
pub open spec fn text_mark(h: u64, s: Text, n: nat) -> u64
    decreases n,
{
    if n == 0 || n > s.len() {
        h
    } else {
        mixed(text_mark(h, s, (n - 1) as nat), s[n - 1] as u64)
    }
}

/// Folds a value into a fingerprint.
pub open spec fn value_mark(h: u64, v: ValueModel) -> u64
    decreases v, 0nat,
{
    match v {
        ValueModel::Null => mixed(h, 1),
        ValueModel::Bool(b) => mixed(h, if b {
            2
        } else {
            3
        }),
        ValueModel::Int(i) => mixed(mixed(h, 4), i as u64),
        ValueModel::Str(s) => text_mark(mixed(h, 5), s, s.len()),
        ValueModel::Node { id, label, name } => text_mark(mixed(h, 6), id, id.len()),
        ValueModel::List(items) => list_mark(mixed(h, 7), items, items.len()),
        ValueModel::Mapping(entries) => mapping_mark(mixed(h, 8), entries, entries.len()),
    }
}

/// Folds the first `n` items of a list into a fingerprint.
pub open spec fn list_mark(h: u64, items: Seq<ValueModel>, n: nat) -> u64
    decreases items, n,
{
    if n == 0 || n > items.len() {
        h
    } else {
        value_mark(list_mark(h, items, (n - 1) as nat), items[n - 1])
    }
}

/// Folds the first `n` entries of a map into a fingerprint.
pub open spec fn mapping_mark(h: u64, entries: Seq<(Text, ValueModel)>, n: nat) -> u64
    decreases entries, n,
{
    if n == 0 || n > entries.len() {
        h
    } else {
        value_mark(mapping_mark(h, entries, (n - 1) as nat), entries[n - 1].1)
    }
}

/// Folds one number into a fingerprint.
fn mix(h: u64, x: u64) -> (r: u64)
    ensures
        r == mixed(h, x),
{
    h.wrapping_mul(0x100000001b3).wrapping_add(x)
}

/// Folds a text into a fingerprint.
fn mark_text(h: u64, s: &str) -> (r: u64)
    ensures
        r == text_mark(h, s@, s@.len()),
{
    let chars = chars_of(s);
    let mut mark: u64 = h;
    let mut i: usize = 0;
    while i < chars.len()
        invariant
            i <= chars@.len(),
            mark == text_mark(h, chars@, i as nat),
        decreases chars@.len() - i,
    {
        mark = mix(mark, chars[i] as u64);
        i += 1;
    }
    mark
}

impl CypherValue {
    /// Folds the value into a fingerprint.
    fn mark(&self, h: u64) -> (r: u64)
        ensures
            r == value_mark(h, self@),
        decreases self,
    {
        match self {
            CypherValue::Null => mix(h, 1),
            CypherValue::Bool(b) => mix(h, if *b {
                2
            } else {
                3
            }),
            CypherValue::Int(i) => mix(
                mix(h, 4),
                #[verifier::truncate]
                (*i as u64),
            ),
            CypherValue::Str(s) => mark_text(mix(h, 5), s.as_str()),
            CypherValue::Node { id, label, name } => mark_text(mix(h, 6), id.as_str()),
            CypherValue::List(items) => {
                let start: u64 = mix(h, 7);
                let mut mark: u64 = start;
                let mut i: usize = 0;
                while i < items.len()
                    invariant
                        i <= items@.len(),
                        self is List,
                        self->List_0 == *items,
                        mark == list_mark(start, value_models(items@), i as nat),
                    decreases items@.len() - i,
                {
                    proof {
                        assert(decreases_to!(self => self->List_0));
                    }
                    mark = items[i].mark(mark);
                    i += 1;
                }
                mark
            },
            CypherValue::Mapping(entries) => {
                let start: u64 = mix(h, 8);
                let mut mark: u64 = start;
                let mut i: usize = 0;
                while i < entries.len()
                    invariant
                        i <= entries@.len(),
                        self is Mapping,
                        self->Mapping_0 == *entries,
                        mark == mapping_mark(start, entry_models(entries@), i as nat),
                    decreases entries@.len() - i,
                {
                    proof {
                        assert(decreases_to!(self => self->Mapping_0));
                    }
                    mark = entries[i].1.mark(mark);
                    i += 1;
                }
                mark
            },
        }
    }
}

/// A table of values in which each value is held once, in the order in which they were added.
pub struct ValueIndex {
    values: Vec<CypherValue>,
    buckets: HashMap<u64, Vec<usize>>,
}

impl ValueIndex {
    /// The values, in the order in which they were added.
    pub closed spec fn view(&self) -> Seq<ValueModel> {
        value_models(self.values@)
    }

    /// Whether the buckets hold the positions of the values by their fingerprints.
    pub closed spec fn ok(&self) -> bool {
        &&& self@.no_duplicates()
        &&& forall|h: u64, k: int|
            self.buckets@.contains_key(h) && 0 <= k < self.buckets@[h]@.len() ==> (
            #[trigger] self.buckets@[h]@[k]) < self.values@.len()
        &&& forall|i: int|
            0 <= i < self.values@.len() ==> {
                let h = value_mark(0, #[trigger] self@[i]);
                self.buckets@.contains_key(h) && self.buckets@[h]@.contains(i as usize)
            }
    }

    /// The table without values.
    pub fn new() -> (r: ValueIndex)
        ensures
            r.ok(),
            r@ == Seq::<ValueModel>::empty(),
    {
        let r = ValueIndex { values: Vec::new(), buckets: HashMap::new() };
        assert(r@ =~= Seq::<ValueModel>::empty());
        r
    }

    /// The position of a value.
    pub fn position(&self, value: &CypherValue) -> (r: Option<usize>)
        requires
            self.ok(),
        ensures
            match r {
                Some(i) => i < self@.len() && self@[i as int] == value@,
                None => !self@.contains(value@),
            },
    {
        if self.values.len() == 0 {
            return None;
        }
        let h = value.mark(0);
        match self.buckets.get(&h) {
            Some(bucket) => {
                let mut k: usize = 0;
                while k < bucket.len()
                    invariant
                        self.ok(),
                        k <= bucket@.len(),
                        self.buckets@.contains_key(h),
                        self.buckets@[h] == *bucket,
                        forall|j: int|
                            0 <= j < k ==> self@[(#[trigger] bucket@[j]) as int] != value@,
                    decreases bucket@.len() - k,
                {
                    let at = bucket[k];
                    assert(self.buckets@[h]@[k as int] < self.values@.len());
                    if self.values[at].same(value) {
                        return Some(at);
                    }
                    k += 1;
                }
                proof {
                    if self@.contains(value@) {
                        let i = choose|i: int| 0 <= i < self@.len() && self@[i] == value@;
                        assert(self.buckets@[h]@.contains(i as usize));
                        let j = choose|j: int| 0 <= j < bucket@.len() && bucket@[j] == i as usize;
                        assert(self@[bucket@[j] as int] == value@);
                    }
                }
                None
            },
            None => {
                proof {
                    if self@.contains(value@) {
                        let i = choose|i: int| 0 <= i < self@.len() && self@[i] == value@;
                        assert(self.buckets@.contains_key(value_mark(0, self@[i])));
                    }
                }
                None
            },
        }
    }

    /// Adds a value, unless it is there already, and returns its position.
    pub fn add_value(&mut self, value: CypherValue) -> (r: usize)
        requires
            old(self).ok(),
        ensures
            final(self).ok(),
            r < final(self)@.len(),
            final(self)@[r as int] == value@,
            final(self)@ == if old(self)@.contains(value@) {
                old(self)@
            } else {
                old(self)@.push(value@)
            },
            !old(self)@.contains(value@) ==> r == old(self)@.len(),
    {
        if let Some(at) = self.position(&value) {
            assert(self@[at as int] == value@);
            return at;
        }
        let ghost before = *self;
        let at: usize = self.values.len();
        let h = value.mark(0);
        let mut bucket = match self.buckets.remove(&h) {
            Some(bucket) => bucket,
            None => Vec::new(),
        };
        let ghost old_bucket = bucket@;
        bucket.push(at);
        self.buckets.insert(h, bucket);
        proof {
            lemma_value_models_push(self.values@, value);
        }
        self.values.push(value);
        proof {
            assert(self@ == before@.push(value@));
            assert forall|h2: u64, k: int|
                self.buckets@.contains_key(h2) && 0 <= k < self.buckets@[h2]@.len() implies (
            #[trigger] self.buckets@[h2]@[k]) < self.values@.len() by {
                if h2 == h {
                    if k < old_bucket.len() {
                        assert(before.buckets@[h]@[k] < before.values@.len());
                    }
                } else {
                    assert(before.buckets@[h2]@[k] < before.values@.len());
                }
            }
            assert forall|i: int| 0 <= i < self.values@.len() implies {
                let h2 = value_mark(0, #[trigger] self@[i]);
                self.buckets@.contains_key(h2) && self.buckets@[h2]@.contains(i as usize)
            } by {
                let h2 = value_mark(0, self@[i]);
                if i < before.values@.len() {
                    assert(self@[i] == before@[i]);
                    assert(before.buckets@[h2]@.contains(i as usize));
                    if h2 == h {
                        lemma_push_contains(old_bucket, at, i as usize);
                    }
                } else {
                    lemma_push_contains(old_bucket, at, at);
                }
            }
        }
        at
    }

    /// The values of the table.
    pub fn into_values(self) -> (r: Vec<CypherValue>)
        ensures
            value_models(r@) == self@,
    {
        self.values
    }
}

/// The table of the values.
pub fn index_values(values: Vec<CypherValue>) -> (r: ValueIndex)
    ensures
        r.ok(),
        r@ == distinct(value_models(values@)),
{
    let ghost all = value_models(values@);
    let ghost items = values@;
    let mut index = ValueIndex::new();
    assert(all.take(0) =~= Seq::empty());
    for value in it: values
        invariant
            it.seq() == items,
            all == value_models(items),
            index.ok(),
            index@ == distinct(all.take(it.index() as int)),
    {
        let ghost n = it.index() as int;
        let ghost before = all.take(n);
        let ghost after = all.take(n + 1);
        assert(after.drop_last() =~= before);
        proof {
            assert(value == items[n]);
            assert(after.last() == value@);
            lemma_distinct_set(before);
            assert(distinct(before).to_set().contains(value@) <==> before.to_set().contains(
                value@,
            ));
        }
        index.add_value(value);
    }
    assert(all.take(all.len() as int) =~= all);
    index
}

/// The values in the order of their first occurrence, each once.
pub fn dedupe_values(values: Vec<CypherValue>) -> (r: Vec<CypherValue>)
    ensures
        value_models(r@) == distinct(value_models(values@)),
{
    index_values(values).into_values()
}

} // verus!
