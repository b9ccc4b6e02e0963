//! The key-value store that requests act on.

use vstd::prelude::*;
use crate::text::same_text;
use crate::value::{RESPValue, ValueView};

verus! {

/// A map from text keys to values.
///
/// The entries are kept in a vector in which no key occurs twice.
pub struct Store {
    entries: Vec<(String, RESPValue)>,
}

/// No key occurs twice among `entries`.
spec fn distinct_keys(entries: Seq<(String, RESPValue)>) -> bool {
    forall|i: int, j: int|
        0 <= i < j < entries.len() ==> (#[trigger] entries[i]).0@ != (#[trigger] entries[j]).0@
}

/// `key` is the key of the entry at `at`.
spec fn key_at(entries: Seq<(String, RESPValue)>, key: Seq<char>, at: int) -> bool {
    0 <= at < entries.len() && entries[at].0@ == key
}

/// The mapping that `entries` spell out.
spec fn mapping_of(entries: Seq<(String, RESPValue)>) -> Map<Seq<char>, ValueView> {
    Map::new(
        |key: Seq<char>| exists|at: int| key_at(entries, key, at),
        |key: Seq<char>| entries[choose|at: int| key_at(entries, key, at)].1@,
    )
}

/// With distinct keys, the entry that holds a key is the one that the
/// mapping reads.
proof fn lemma_mapping_reads(entries: Seq<(String, RESPValue)>, key: Seq<char>, at: int)
    requires
        distinct_keys(entries),
        key_at(entries, key, at),
    ensures
        mapping_of(entries).contains_key(key),
        mapping_of(entries)[key] == entries[at].1@,
{
    let chosen = choose|c: int| key_at(entries, key, c);
    assert(chosen == at);
}

/// Appending an entry under a key that is not there yet inserts it.
proof fn lemma_mapping_push(entries: Seq<(String, RESPValue)>, entry: (String, RESPValue))
    requires
        distinct_keys(entries),
        forall|at: int| !key_at(entries, entry.0@, at),
    ensures
        distinct_keys(entries.push(entry)),
        mapping_of(entries.push(entry)) == mapping_of(entries).insert(entry.0@, entry.1@),
{
    let after = entries.push(entry);
    assert forall|i: int, j: int| 0 <= i < j < after.len() implies (#[trigger] after[i]).0@ != (
    #[trigger] after[j]).0@ by {
        if j == entries.len() {
            assert(!key_at(entries, entry.0@, i));
        } else {
            assert(after[i] == entries[i] && after[j] == entries[j]);
        }
    }
    let grown = mapping_of(entries).insert(entry.0@, entry.1@);
    assert forall|k: Seq<char>| mapping_of(after).contains_key(k) == grown.contains_key(k) by {
        if k == entry.0@ {
            assert(key_at(after, k, entries.len() as int));
        } else if mapping_of(entries).contains_key(k) {
            let at = choose|c: int| key_at(entries, k, c);
            assert(key_at(after, k, at));
        } else if mapping_of(after).contains_key(k) {
            let at = choose|c: int| key_at(after, k, c);
            assert(key_at(entries, k, at));
        }
    }
    assert forall|k: Seq<char>| mapping_of(after).contains_key(k) implies mapping_of(after)[k]
        == grown[k] by {
        if k == entry.0@ {
            lemma_mapping_reads(after, k, entries.len() as int);
        } else {
            let at = choose|c: int| key_at(after, k, c);
            assert(key_at(entries, k, at));
            lemma_mapping_reads(after, k, at);
            lemma_mapping_reads(entries, k, at);
        }
    }
    assert(mapping_of(after) =~= grown);
}

/// Moving the last entry into the place of another removes that other's key.
proof fn lemma_mapping_swap_remove(entries: Seq<(String, RESPValue)>, at: int)
    requires
        distinct_keys(entries),
        0 <= at < entries.len(),
    ensures
        distinct_keys(entries.update(at, entries.last()).drop_last()),
        mapping_of(entries.update(at, entries.last()).drop_last()) == mapping_of(entries).remove(
            entries[at].0@,
        ),
{
    let after = entries.update(at, entries.last()).drop_last();
    let last = entries.len() - 1;
    let gone = entries[at].0@;
    // Where each entry of `after` stood in `entries`.
    let origin = |i: int| if i == at { last } else { i };
    assert forall|i: int| 0 <= i < after.len() implies #[trigger] after[i] == entries[origin(
        i,
    )] by {}
    assert forall|i: int, j: int| 0 <= i < j < after.len() implies (#[trigger] after[i]).0@ != (
    #[trigger] after[j]).0@ by {
        let a = origin(i);
        let b = origin(j);
        assert(after[i] == entries[a] && after[j] == entries[b]);
        if a < b {
            assert(entries[a].0@ != entries[b].0@);
        } else {
            assert(entries[b].0@ != entries[a].0@);
        }
    }
    let shrunk = mapping_of(entries).remove(gone);
    assert forall|k: Seq<char>| mapping_of(after).contains_key(k) == shrunk.contains_key(k) by {
        if mapping_of(after).contains_key(k) {
            let i = choose|c: int| key_at(after, k, c);
            let a = origin(i);
            assert(after[i] == entries[a]);
            assert(key_at(entries, k, a));
            if a < at {
                assert(entries[a].0@ != entries[at].0@);
            } else if at < a {
                assert(entries[at].0@ != entries[a].0@);
            }
        }
        if shrunk.contains_key(k) {
            let a = choose|c: int| key_at(entries, k, c);
            let i = if a == last { at } else { a };
            assert(a != at);
            assert(after[i] == entries[origin(i)]);
            assert(key_at(after, k, i));
        }
    }
    assert forall|k: Seq<char>| mapping_of(after).contains_key(k) implies mapping_of(after)[k]
        == shrunk[k] by {
        let i = choose|c: int| key_at(after, k, c);
        let a = origin(i);
        assert(after[i] == entries[a]);
        assert(key_at(entries, k, a));
        lemma_mapping_reads(entries, k, a);
        lemma_mapping_reads(after, k, i);
    }
    assert(mapping_of(after) =~= shrunk);
}

impl View for Store {
    type V = Map<Seq<char>, ValueView>;

    /// The mapping that the store holds.
    closed spec fn view(&self) -> Map<Seq<char>, ValueView> {
        mapping_of(self.entries@)
    }
}

impl Store {
    /// The invariant of the representation: no key is held twice.  Every
    /// store that this module hands out satisfies it.
    pub closed spec fn well_formed(&self) -> bool {
        distinct_keys(self.entries@)
    }

    /// An empty store.
    pub fn new() -> (store: Store)
        ensures
            store.well_formed(),
            store@ == Map::<Seq<char>, ValueView>::empty(),
    {
        let store = Store { entries: Vec::new() };
        assert(store@ =~= Map::<Seq<char>, ValueView>::empty());
        store
    }

    /// The position of `key` among the entries.
    fn position(&self, key: &str) -> (found: Option<usize>)
        ensures
            match found {
                Some(at) => key_at(self.entries@, key@, at as int),
                None => forall|at: int| !key_at(self.entries@, key@, at),
            },
    {
        let mut i: usize = 0;
        while i < self.entries.len()
            invariant
                i <= self.entries@.len(),
                forall|at: int| 0 <= at < i ==> !key_at(self.entries@, key@, at),
            decreases self.entries@.len() - i,
        {
            if same_text(self.entries[i].0.as_str(), key) {
                return Some(i);
            }
            i = i + 1;
        }
        None
    }

    /// The value stored under `key`, if there is one.
    pub fn get(&self, key: &str) -> (value: Option<&RESPValue>)
        requires
            self.well_formed(),
        ensures
            match value {
                Some(v) => self@.contains_key(key@) && self@[key@] == v@,
                None => !self@.contains_key(key@),
            },
    {
        match self.position(key) {
            Some(at) => {
                proof {
                    lemma_mapping_reads(self.entries@, key@, at as int);
                }
                Some(&self.entries[at].1)
            },
            None => None,
        }
    }

    /// Stores `value` under `key` and returns the value that was there
    /// before, if there was one.  No other key is touched.
    pub fn set(&mut self, key: String, value: RESPValue) -> (previous: Option<RESPValue>)
        requires
            old(self).well_formed(),
        ensures
            final(self).well_formed(),
            final(self)@ == old(self)@.insert(key@, value@),
            match previous {
                Some(v) => old(self)@.contains_key(key@) && old(self)@[key@] == v@,
                None => !old(self)@.contains_key(key@),
            },
    {
        let ghost before = self.entries@;
        let found = self.position(key.as_str());
        let previous = match found {
            Some(at) => {
                proof {
                    lemma_mapping_reads(before, key@, at as int);
                    lemma_mapping_swap_remove(before, at as int);
                }
                let removed = self.entries.swap_remove(at);
                Some(removed.1)
            },
            None => {
                assert(mapping_of(before).remove(key@) =~= mapping_of(before));
                None
            },
        };
        let ghost kept = self.entries@;
        proof {
            assert(mapping_of(kept) == mapping_of(before).remove(key@));
            assert forall|at: int| !key_at(kept, key@, at) by {
                if key_at(kept, key@, at) {
                    assert(mapping_of(kept).contains_key(key@));
                }
            }
            lemma_mapping_push(kept, (key, value));
            assert(mapping_of(before).remove(key@).insert(key@, value@) =~= mapping_of(
                before,
            ).insert(key@, value@));
        }
        self.entries.push((key, value));
        previous
    }
}

} // verus!
