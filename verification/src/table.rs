//! A small map from names to values.
use vstd::prelude::*;

verus! {

broadcast use vstd::string::group_string_axioms;

/// A map from strings to values, kept as a list of pairs in which no name occurs twice.
#[derive(Debug)]
pub struct Table<V> {
    entries: Vec<(String, V)>,
}

/// No two entries have the same name.
pub open spec fn names_distinct<V>(entries: Seq<(String, V)>) -> bool {
    forall|i: int, j: int|
        0 <= i < entries.len() && 0 <= j < entries.len() && #[trigger] entries[i].0@
            == #[trigger] entries[j].0@ ==> i == j
}

/// Whether the entry at `i` has this name.
pub open spec fn named<V>(entries: Seq<(String, V)>, i: int, name: Seq<char>) -> bool {
    0 <= i < entries.len() && entries[i].0@ == name
}

/// The map that a list of entries stands for.
pub open spec fn entries_map<V: View>(entries: Seq<(String, V)>) -> Map<Seq<char>, V::V> {
    Map::new(
        |name: Seq<char>| exists|i: int| named(entries, i, name),
        |name: Seq<char>| entries[choose|i: int| named(entries, i, name)].1@,
    )
}

impl<V: View> View for Table<V> {
    type V = Map<Seq<char>, V::V>;

    closed spec fn view(&self) -> Map<Seq<char>, V::V> {
        entries_map(self.entries@)
    }
}

proof fn lemma_entry<V: View>(entries: Seq<(String, V)>, i: int)
    requires
        names_distinct(entries),
        0 <= i < entries.len(),
    ensures
        entries_map(entries).contains_key(entries[i].0@),
        entries_map(entries)[entries[i].0@] == entries[i].1@,
{
    let name = entries[i].0@;
    assert(named(entries, i, name));
    let k = choose|k: int| named(entries, k, name);
    assert(named(entries, k, name));
    assert(entries[k].0@ == entries[i].0@);
}

impl<V> Table<V> {
    #[verifier::type_invariant]
    spec fn inv(self) -> bool {
        names_distinct(self.entries@)
    }
}

impl<V: View> Table<V> {
    /// The table without entries.
    pub fn new() -> (table: Table<V>)
        ensures
            table@ == Map::<Seq<char>, V::V>::empty(),
    {
        let table = Table { entries: Vec::new() };
        assert(table@ =~= Map::<Seq<char>, V::V>::empty()) by {
            assert forall|name: Seq<char>| !table@.contains_key(name) by {
                assert forall|i: int| !named(table.entries@, i, name) by {}
            }
        }
        table
    }

    fn find(&self, name: &String) -> (at: Option<usize>)
        ensures
            match at {
                Some(i) => named(self.entries@, i as int, name@),
                None => forall|i: int| !named(self.entries@, i, name@),
            },
    {
        let mut i: usize = 0;
        while i < self.entries.len()
            invariant
                i <= self.entries.len(),
                forall|j: int| 0 <= j < i ==> !#[trigger] named(self.entries@, j, name@),
            decreases self.entries.len() - i,
        {
            if self.entries[i].0 == *name {
                return Some(i);
            }
            i = i + 1;
        }
        None
    }

    /// The value under a name.
    pub fn get(&self, name: &String) -> (value: Option<&V>)
        ensures
            value is Some <==> self@.contains_key(name@),
            value matches Some(v) ==> v@ == self@[name@],
    {
        proof {
            use_type_invariant(self);
        }
        match self.find(name) {
            Some(i) => {
                proof {
                    lemma_entry(self.entries@, i as int);
                }
                Some(&self.entries[i].1)
            },
            None => None,
        }
    }

    /// The entries, each name once.
    pub fn entries(&self) -> (entries: &Vec<(String, V)>)
        ensures
            names_distinct(entries@),
            entries_map(entries@) == self@,
    {
        proof {
            use_type_invariant(self);
        }
        &self.entries
    }

    /// The table with `value` under `name`, in place of what was there.
    pub fn insert(self, name: String, value: V) -> (table: Table<V>)
        ensures
            table@ == self@.insert(name@, value@),
    {
        proof {
            use_type_invariant(&self);
        }
        let at = self.find(&name);
        let mut entries = self.entries;
        let ghost before = entries@;
        let ghost key = name@;
        match at {
            Some(i) => {
                entries[i] = (name, value);
                assert(entries@ == before.update(i as int, (name, value)));
                assert(before[i as int].0@ == key);
                assert forall|j: int| 0 <= j < entries@.len() implies #[trigger] entries@[j].0@
                    == before[j].0@ by {}
            },
            None => {
                entries.push((name, value));
                assert forall|j: int| 0 <= j < before.len() implies #[trigger] before[j].0@
                    != key by {
                    assert(!named(before, j, key));
                }
            },
        }
        assert(names_distinct(entries@));
        assert(entries_map(entries@) =~= entries_map(before).insert(key, value@)) by {
            let after = entries@;
            let at_key: int = match at {
                Some(i) => i as int,
                None => before.len() as int,
            };
            lemma_entry(after, at_key);
            assert forall|n: Seq<char>|
                entries_map(after).contains_key(n) == #[trigger] entries_map(before).insert(
                    key,
                    value@,
                ).contains_key(n) by {
                if n != key {
                    if entries_map(after).contains_key(n) {
                        let j = choose|j: int| named(after, j, n);
                        assert(named(before, j, n));
                    }
                    if entries_map(before).contains_key(n) {
                        let j = choose|j: int| named(before, j, n);
                        assert(named(after, j, n));
                    }
                }
            }
            assert forall|n: Seq<char>|
                entries_map(after).contains_key(n) implies #[trigger] entries_map(after)[n]
                == entries_map(before).insert(key, value@)[n] by {
                if n != key {
                    let j = choose|j: int| named(after, j, n);
                    assert(named(before, j, n));
                    lemma_entry(after, j);
                    lemma_entry(before, j);
                }
            }
        }
        Table { entries }
    }
}

} // verus!
