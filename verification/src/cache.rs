//! Stale-while-revalidate page cache: the last result per key, kept in
//! memory, at most `MAX_ENTRIES` of them, the oldest dropped first.

use vstd::prelude::*;
use vstd::string::StringExecFns;

verus! {

/// Entries beyond this are dropped, oldest first.
pub const MAX_ENTRIES: usize = 300;

/// Cached values by key, in the order the keys were first stored.
pub struct Cache<V> {
    entries: Vec<(String, V)>,
}

/// The entries with `key` stored as `value`: a known key keeps its place
/// and takes the new value; a new key goes last, and when that makes more
/// than `MAX_ENTRIES` the first (oldest) entry is dropped.
pub open spec fn stored<V>(entries: Seq<(Seq<char>, V)>, key: Seq<char>, value: V) -> Seq<(Seq<char>, V)> {
    if exists|i: int| 0 <= i < entries.len() && (#[trigger] entries[i]).0 == key {
        let i = choose|i: int| 0 <= i < entries.len() && (#[trigger] entries[i]).0 == key;
        entries.update(i, (key, value))
    } else {
        let grown = entries.push((key, value));
        if grown.len() > MAX_ENTRIES { grown.drop_first() } else { grown }
    }
}

/// The value stored under `key`, if any.
pub open spec fn lookup<V>(entries: Seq<(Seq<char>, V)>, key: Seq<char>) -> Option<V> {
    if exists|i: int| 0 <= i < entries.len() && (#[trigger] entries[i]).0 == key {
        let i = choose|i: int| 0 <= i < entries.len() && (#[trigger] entries[i]).0 == key;
        Some(entries[i].1)
    } else {
        None
    }
}

/// No key twice, and no more than `MAX_ENTRIES` entries.
pub open spec fn cache_wf<V>(entries: Seq<(Seq<char>, V)>) -> bool {
    &&& entries.len() <= MAX_ENTRIES
    &&& forall|i: int, j: int| 0 <= i < j < entries.len() ==> (#[trigger] entries[i]).0 != (#[trigger] entries[j]).0
}

impl<V> Cache<V> {
    /// The entries as (key, value), oldest first.
    pub closed spec fn entries_view(&self) -> Seq<(Seq<char>, V)> {
        self.entries@.map_values(|e: (String, V)| (e.0@, e.1))
    }
}

impl<V> Cache<V> {
    /// Every cache is well formed ([`cache_wf`]).
    #[verifier::type_invariant]
    spec fn well_formed(self) -> bool {
        cache_wf(self.entries_view())
    }
}

impl<V> View for Cache<V> {
    type V = Seq<(Seq<char>, V)>;

    open spec fn view(&self) -> Seq<(Seq<char>, V)> {
        self.entries_view()
    }
}

impl<V> Cache<V> {
    /// An empty cache.
    pub fn new() -> (r: Cache<V>)
        ensures
            r@ == Seq::<(Seq<char>, V)>::empty(),
            cache_wf(r@),
    {
        let r = Cache { entries: Vec::new() };
        proof {
            assert(r@ =~= Seq::<(Seq<char>, V)>::empty());
        }
        r
    }

    fn find(&self, key: &String) -> (r: Option<usize>)
        requires
            cache_wf(self@),
        ensures
            match r {
                Some(i) => i < self@.len() && self@[i as int].0 == key@,
                None => forall|i: int| 0 <= i < self@.len() ==> (#[trigger] self@[i]).0 != key@,
            },
    {
        let mut i: usize = 0;
        while i < self.entries.len()
            invariant
                i <= self.entries.len(),
                self@ == self.entries@.map_values(|e: (String, V)| (e.0@, e.1)),
                forall|j: int| 0 <= j < i ==> (#[trigger] self@[j]).0 != key@,
            decreases self.entries.len() - i,
        {
            if self.entries[i].0 == *key {
                return Some(i);
            }
            i = i + 1;
        }
        None
    }

    /// The cached value for `key`, if any.
    pub fn get(&self, key: &str) -> (r: Option<&V>)
        ensures
            cache_wf(self@),
            match lookup(self@, key@) {
                Some(v) => r matches Some(x) && *x == v,
                None => r is None,
            },
    {
        proof {
            use_type_invariant(self);
        }
        let k = String::from_str(key);
        match self.find(&k) {
            Some(i) => {
                proof {
                    lemma_unique_index(self@, key@, i as int);
                }
                Some(&self.entries[i].1)
            },
            None => None,
        }
    }

    /// Stores `value` under `key`; a new key past `MAX_ENTRIES` drops the
    /// oldest entry.
    pub fn put(&mut self, key: String, value: V)
        ensures
            final(self)@ == stored(old(self)@, key@, value),
            cache_wf(final(self)@),
    {
        proof {
            use_type_invariant(&*self);
        }
        let ghost before = self@;
        let found = self.find(&key);
        let mut entries: Vec<(String, V)> = Vec::new();
        std::mem::swap(&mut entries, &mut self.entries);
        let ghost view = |e: (String, V)| (e.0@, e.1);
        assert(entries@.map_values(view) == before);
        match found {
            Some(i) => {
                proof {
                    lemma_unique_index(before, key@, i as int);
                }
                entries.set(i, (key, value));
                proof {
                    assert(entries@.map_values(view) =~= before.update(i as int, (key@, value)));
                    let now = entries@.map_values(view);
                    assert forall|a: int, b: int| 0 <= a < b < now.len() implies (#[trigger] now[a]).0 != (#[trigger] now[b]).0 by {
                        assert(before[a].0 != before[b].0);
                    }
                }
            },
            None => {
                entries.push((key, value));
                proof {
                    assert(entries@.map_values(view) =~= before.push((key@, value)));
                }
                if entries.len() > MAX_ENTRIES {
                    entries.remove(0);
                    proof {
                        assert(entries@.map_values(view) =~= before.push((key@, value)).drop_first());
                    }
                }
                proof {
                    let now = entries@.map_values(view);
                    let grown = before.push((key@, value));
                    assert forall|a: int, b: int| 0 <= a < b < grown.len() implies (#[trigger] grown[a]).0 != (#[trigger] grown[b]).0 by {
                        if b < before.len() {
                            assert(before[a].0 != before[b].0);
                        }
                    }
                    assert forall|a: int, b: int| 0 <= a < b < now.len() implies (#[trigger] now[a]).0 != (#[trigger] now[b]).0 by {
                        if grown.len() > MAX_ENTRIES {
                            assert(now[a] == grown[a + 1]);
                            assert(now[b] == grown[b + 1]);
                        } else {
                            assert(now[a] == grown[a]);
                            assert(now[b] == grown[b]);
                        }
                    }
                }
            },
        }
        self.entries = entries;
    }

    /// How many entries are cached.
    pub fn len(&self) -> (r: usize)
        ensures
            r == self@.len(),
    {
        self.entries.len()
    }
}

/// With no key twice, the entry holding `key` is the one `choose` finds.
proof fn lemma_unique_index<V>(entries: Seq<(Seq<char>, V)>, key: Seq<char>, i: int)
    requires
        cache_wf(entries),
        0 <= i < entries.len(),
        entries[i].0 == key,
    ensures
        (choose|j: int| 0 <= j < entries.len() && (#[trigger] entries[j]).0 == key) == i,
{
    let j = choose|j: int| 0 <= j < entries.len() && (#[trigger] entries[j]).0 == key;
    assert(0 <= j < entries.len() && entries[j].0 == key);
    if j < i {
        assert(entries[j].0 != entries[i].0);
    } else if i < j {
        assert(entries[i].0 != entries[j].0);
    }
}

/// A read after a write gives back what was written: storing `value`
/// under `key` in a well-formed cache keeps it well formed, and a lookup
/// of `key` then finds `value`.
pub proof fn lemma_read_after_write<V>(entries: Seq<(Seq<char>, V)>, key: Seq<char>, value: V)
    requires
        cache_wf(entries),
    ensures
        lookup(stored(entries, key, value), key) == Some(value),
{
    let s = stored(entries, key, value);
    if exists|i: int| 0 <= i < entries.len() && (#[trigger] entries[i]).0 == key {
        let i = choose|i: int| 0 <= i < entries.len() && (#[trigger] entries[i]).0 == key;
        assert(s[i].0 == key);
        assert forall|a: int, b: int| 0 <= a < b < s.len() implies (#[trigger] s[a]).0 != (#[trigger] s[b]).0 by {
            assert(entries[a].0 != entries[b].0);
        }
        lemma_unique_index(s, key, i);
    } else {
        let grown = entries.push((key, value));
        let last = s.len() - 1;
        if grown.len() > MAX_ENTRIES {
            assert(s[last] == grown[grown.len() - 1]);
        }
        assert(s[last].0 == key);
        assert forall|a: int, b: int| 0 <= a < b < s.len() implies (#[trigger] s[a]).0 != (#[trigger] s[b]).0 by {
            let off: int = if grown.len() > MAX_ENTRIES { 1 } else { 0 };
            assert(s[a] == grown[a + off]);
            assert(s[b] == grown[b + off]);
            if b + off < entries.len() {
                assert(entries[a + off].0 != entries[b + off].0);
            }
        }
        lemma_unique_index(s, key, last);
    }
}

/// Storing under one key leaves every other key's value alone, but for
/// the oldest entry that a new key pushes out.
pub proof fn lemma_other_keys_kept<V>(entries: Seq<(Seq<char>, V)>, key: Seq<char>, value: V, other: Seq<char>)
    requires
        cache_wf(entries),
        other != key,
        lookup(entries, other) is Some,
        !(entries.len() == MAX_ENTRIES && entries[0].0 == other
            && forall|i: int| 0 <= i < entries.len() ==> (#[trigger] entries[i]).0 != key),
    ensures
        lookup(stored(entries, key, value), other) == lookup(entries, other),
{
    let s = stored(entries, key, value);
    let j = choose|j: int| 0 <= j < entries.len() && (#[trigger] entries[j]).0 == other;
    if exists|i: int| 0 <= i < entries.len() && (#[trigger] entries[i]).0 == key {
        let i = choose|i: int| 0 <= i < entries.len() && (#[trigger] entries[i]).0 == key;
        assert(s[j] == entries[j]);
        assert forall|a: int, b: int| 0 <= a < b < s.len() implies (#[trigger] s[a]).0 != (#[trigger] s[b]).0 by {
            assert(entries[a].0 != entries[b].0);
        }
        lemma_unique_index(s, other, j);
    } else {
        let grown = entries.push((key, value));
        assert forall|a: int, b: int| 0 <= a < b < s.len() implies (#[trigger] s[a]).0 != (#[trigger] s[b]).0 by {
            let off: int = if grown.len() > MAX_ENTRIES { 1 } else { 0 };
            assert(s[a] == grown[a + off]);
            assert(s[b] == grown[b + off]);
            if b + off < entries.len() {
                assert(entries[a + off].0 != entries[b + off].0);
            }
        }
        if grown.len() > MAX_ENTRIES {
            assert(j > 0);
            assert(s[j - 1] == entries[j]);
            lemma_unique_index(s, other, j - 1);
        } else {
            assert(s[j] == entries[j]);
            lemma_unique_index(s, other, j);
        }
    }
}

} // verus!
