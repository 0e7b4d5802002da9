//! Binding rows: what the variables of a query stand for at one point of its execution.

use vstd::prelude::*;

use crate::text::{texts, Text};
use crate::value::{CypherValue, ValueModel};

verus! {

/// A bound variable: either a graph node (which keeps its identity for pattern chaining) or a
/// scalar/computed value (produced by a `WITH` projection).
pub enum Binding<N> {
    Node(N),
    Value(CypherValue),
}

/// The model of a [`Binding`].
pub enum BindingModel<N> {
    Node(N),
    Value(ValueModel),
}

/// The model of a [`Row`]: the bound variables with their bindings.
pub type RowModel<N> = Map<Text, BindingModel<N>>;

impl<N> Binding<N> {
    /// The model of the binding.
    pub open spec fn view(&self) -> BindingModel<N> {
        match self {
            Binding::Node(n) => BindingModel::Node(*n),
            Binding::Value(v) => BindingModel::Value(v@),
        }
    }
}

impl<N: Copy> Binding<N> {
    /// A copy of the binding.
    pub fn copy(&self) -> (r: Binding<N>)
        ensures
            r@ == self@,
    {
        match self {
            Binding::Node(n) => Binding::Node(*n),
            Binding::Value(v) => Binding::Value(v.clone()),
        }
    }
}

/// A single binding row: maps variable names to their bindings.
pub struct Row<N> {
    entries: Vec<(String, Binding<N>)>,
}

/// Whether the entries bind `name`.
pub open spec fn binds<N>(entries: Seq<(String, Binding<N>)>, name: Text) -> bool {
    exists|i: int| 0 <= i < entries.len() && (#[trigger] entries[i]).0@ == name
}

/// The position of the entry for `name`.
pub open spec fn entry_of<N>(entries: Seq<(String, Binding<N>)>, name: Text) -> int {
    choose|i: int| 0 <= i < entries.len() && (#[trigger] entries[i]).0@ == name
}

/// The map that the entries stand for.
pub open spec fn entries_map<N>(entries: Seq<(String, Binding<N>)>) -> RowModel<N> {
    Map::new(
        |name: Text| binds(entries, name),
        |name: Text| entries[entry_of(entries, name)].1@,
    )
}

/// Whether no variable has two entries.
pub open spec fn names_unique<N>(entries: Seq<(String, Binding<N>)>) -> bool {
    forall|i: int, j: int|
        0 <= i < entries.len() && 0 <= j < entries.len() && (#[trigger] entries[i]).0@ == (
        #[trigger] entries[j]).0@ ==> i == j
}

/// What an entry says is what the map says.
proof fn lemma_entry<N>(entries: Seq<(String, Binding<N>)>, i: int)
    requires
        names_unique(entries),
        0 <= i < entries.len(),
    ensures
        entries_map(entries).contains_key(entries[i].0@),
        entries_map(entries)[entries[i].0@] == entries[i].1@,
{
    let name = entries[i].0@;
    assert(binds(entries, name));
    let j = entry_of(entries, name);
    assert(0 <= j < entries.len() && entries[j].0@ == name);
    assert(entries[i].0@ == entries[j].0@);
}

impl<N> Row<N> {
    /// The model of the row.
    pub closed spec fn view(&self) -> RowModel<N> {
        entries_map(self.entries@)
    }

    #[verifier::type_invariant]
    spec fn unique(&self) -> bool {
        names_unique(self.entries@)
    }

    /// The row that binds nothing.
    pub fn new() -> (r: Row<N>)
        ensures
            r@ == Map::<Text, BindingModel<N>>::empty(),
    {
        let entries: Vec<(String, Binding<N>)> = Vec::new();
        assert(entries_map(entries@) =~= Map::<Text, BindingModel<N>>::empty());
        Row { entries }
    }

    /// The position of the entry for `name`, or the number of entries.
    fn position(&self, name: &String) -> (r: usize)
        ensures
            r <= self.entries@.len(),
            r < self.entries@.len() ==> self.entries@[r as int].0@ == name@,
            r == self.entries@.len() ==> !binds(self.entries@, name@),
    {
        let mut i: usize = 0;
        while i < self.entries.len()
            invariant
                i <= self.entries@.len(),
                forall|k: int| 0 <= k < i ==> (#[trigger] self.entries@[k]).0@ != name@,
            decreases self.entries@.len() - i,
        {
            if self.entries[i].0 == *name {
                return i;
            }
            i += 1;
        }
        i
    }

    /// The binding of a variable.
    pub fn get(&self, name: &String) -> (r: Option<&Binding<N>>)
        ensures
            r is Some <==> self@.contains_key(name@),
            r matches Some(b) ==> b@ == self@[name@],
    {
        proof {
            use_type_invariant(self);
        }
        let i = self.position(name);
        if i < self.entries.len() {
            proof {
                lemma_entry(self.entries@, i as int);
            }
            Some(&self.entries[i].1)
        } else {
            None
        }
    }

    /// The row with `name` bound to `binding`, in place of what it was bound to.
    pub fn with(self, name: &String, binding: Binding<N>) -> (r: Row<N>)
        ensures
            r@ == self@.insert(name@, binding@),
    {
        proof {
            use_type_invariant(&self);
        }
        let i = self.position(name);
        let mut entries = self.entries;
        let ghost before = entries@;
        if i < entries.len() {
            entries[i] = (name.clone(), binding);
            let ghost after = entries@;
            proof {
                assert forall|a: int, b: int|
                    0 <= a < after.len() && 0 <= b < after.len() && (#[trigger] after[a]).0@ == (
                    #[trigger] after[b]).0@ implies a == b by {
                    assert(after[a].0@ == before[a].0@);
                    assert(after[b].0@ == before[b].0@);
                }
                lemma_same_map(before, after, name@, binding@, i as int);
            }
        } else {
            entries.push((name.clone(), binding));
            let ghost after = entries@;
            proof {
                assert forall|a: int, b: int|
                    0 <= a < after.len() && 0 <= b < after.len() && (#[trigger] after[a]).0@ == (
                    #[trigger] after[b]).0@ implies a == b by {
                    if a < before.len() {
                        assert(after[a] == before[a]);
                    }
                    if b < before.len() {
                        assert(after[b] == before[b]);
                    }
                }
                lemma_same_map(before, after, name@, binding@, i as int);
            }
        }
        Row { entries }
    }

    /// The names of the bound variables.
    pub fn names(&self) -> (r: Vec<String>)
        ensures
            forall|name: Text| texts(r@).contains(name) <==> self@.contains_key(name),
    {
        let mut out: Vec<String> = Vec::new();
        let mut i: usize = 0;
        while i < self.entries.len()
            invariant
                i <= self.entries@.len(),
                out@.len() == i,
                forall|k: int| 0 <= k < i ==> (#[trigger] out@[k])@ == self.entries@[k].0@,
            decreases self.entries@.len() - i,
        {
            out.push(self.entries[i].0.clone());
            i += 1;
        }
        assert forall|name: Text| texts(out@).contains(name) <==> self@.contains_key(name) by {
            if texts(out@).contains(name) {
                let k = choose|k: int| 0 <= k < texts(out@).len() && texts(out@)[k] == name;
                assert(out@[k]@ == self.entries@[k].0@);
                assert(binds(self.entries@, name));
            }
            if self@.contains_key(name) {
                let k = entry_of(self.entries@, name);
                assert(out@[k]@ == self.entries@[k].0@);
                assert(texts(out@)[k] == name);
            }
        }
        out
    }
}

/// The effect of writing one entry on the map.
proof fn lemma_same_map<N>(
    before: Seq<(String, Binding<N>)>,
    after: Seq<(String, Binding<N>)>,
    name: Text,
    binding: BindingModel<N>,
    i: int,
)
    requires
        names_unique(before),
        names_unique(after),
        0 <= i < after.len(),
        after[i].0@ == name,
        after[i].1@ == binding,
        before.len() <= after.len(),
        forall|k: int| 0 <= k < after.len() && k != i ==> k < before.len() && after[k] == before[k],
        i < before.len() ==> before[i].0@ == name,
    ensures
        entries_map(after) == entries_map(before).insert(name, binding),
{
    let m = entries_map(before).insert(name, binding);
    let n = entries_map(after);
    lemma_entry(after, i);
    assert forall|key: Text| n.contains_key(key) <==> m.contains_key(key) by {
        if key != name {
            if n.contains_key(key) {
                let k = entry_of(after, key);
                assert(before[k] == after[k]);
                assert(binds(before, key));
            }
            if m.contains_key(key) {
                let k = entry_of(before, key);
                assert(before[k].0@ == key);
                assert(after[k] == before[k]);
                assert(binds(after, key));
            }
        }
    }
    assert forall|key: Text| n.contains_key(key) implies n[key] == m[key] by {
        if key != name {
            let k = entry_of(after, key);
            assert(before[k] == after[k]);
            lemma_entry(before, k);
            lemma_entry(after, k);
        }
    }
    assert(n =~= m);
}

impl<N: Copy> Row<N> {
    /// A copy of the row.
    pub fn copy(&self) -> (r: Row<N>)
        ensures
            r@ == self@,
    {
        proof {
            use_type_invariant(self);
        }
        let mut entries: Vec<(String, Binding<N>)> = Vec::new();
        let mut i: usize = 0;
        while i < self.entries.len()
            invariant
                i <= self.entries@.len(),
                entries@.len() == i,
                forall|k: int|
                    0 <= k < i ==> (#[trigger] entries@[k]).0@ == self.entries@[k].0@
                        && entries@[k].1@
                        == self.entries@[k].1@,
            decreases self.entries@.len() - i,
        {
            entries.push((self.entries[i].0.clone(), self.entries[i].1.copy()));
            i += 1;
        }
        proof {
            let old_entries = self.entries@;
            let new_entries = entries@;
            assert forall|a: int, b: int|
                0 <= a < new_entries.len() && 0 <= b < new_entries.len() && (
                #[trigger] new_entries[a]).0@ == (#[trigger] new_entries[b]).0@ implies a == b by {
                assert(old_entries[a].0@ == old_entries[b].0@);
            }
            let m = entries_map(old_entries);
            let n = entries_map(new_entries);
            assert forall|key: Text| n.contains_key(key) <==> m.contains_key(key) by {
                if n.contains_key(key) {
                    let k = entry_of(new_entries, key);
                    assert(new_entries[k].0@ == old_entries[k].0@);
                    assert(binds(old_entries, key));
                }
                if m.contains_key(key) {
                    let k = entry_of(old_entries, key);
                    assert(new_entries[k].0@ == old_entries[k].0@);
                    assert(binds(new_entries, key));
                }
            }
            assert forall|key: Text| n.contains_key(key) implies n[key] == m[key] by {
                let k = entry_of(new_entries, key);
                assert(new_entries[k].0@ == old_entries[k].0@);
                lemma_entry(old_entries, k);
                lemma_entry(new_entries, k);
            }
            assert(n =~= m);
        }
        Row { entries }
    }
}

/// The models of a sequence of rows.
pub open spec fn row_models<N>(rows: Seq<Row<N>>) -> Seq<RowModel<N>> {
    Seq::new(rows.len(), |i: int| rows[i]@)
}

/// The models grow with the sequence.
pub proof fn lemma_row_models_push<N>(rows: Seq<Row<N>>, row: Row<N>)
    ensures
        row_models(rows.push(row)) == row_models(rows).push(row@),
{
    assert forall|k: int| 0 <= k < rows.len() implies row_models(rows.push(row))[k]
        == #[trigger] row_models(rows)[k] by {
        assert(rows.push(row)[k] == rows[k]);
    }
    assert(row_models(rows.push(row)) =~= row_models(rows).push(row@));
}

} // verus!
