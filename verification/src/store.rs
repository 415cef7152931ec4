//! The key-value store. Time is a count of milliseconds on a clock that
//! never runs backwards; the caller reads the clock and passes the count.

use crate::parser::copy_bytes;
use crate::text::eq_bytes;
use vstd::prelude::*;

verus! {

/// What the store holds for a key: the value's bytes and, where the entry
/// expires, the instant at which it is last alive.
pub struct Stored {
    pub value: Seq<u8>,
    pub expires_at: Option<u64>,
}

/// An entry without a deadline is always alive; one with a deadline is
/// alive until the clock has gone past it.
pub open spec fn live(e: Stored, now: u64) -> bool {
    e.expires_at matches Some(t) ==> now <= t
}

/// The part of a store's contents that is alive at `now`.
pub open spec fn live_part(m: Map<Seq<u8>, Stored>, now: u64) -> Map<Seq<u8>, Stored> {
    Map::new(|k: Seq<u8>| m.contains_key(k) && live(m[k], now), |k: Seq<u8>| m[k])
}

/// Adding the time to live to the clock leaves 64 bits.
pub open spec fn overflows(ttl: Option<u64>, now: u64) -> bool {
    ttl matches Some(t) && now + t > u64::MAX
}

/// The deadline of an entry written at `now` with this time to live.
pub open spec fn deadline(ttl: Option<u64>, now: u64) -> Option<u64> {
    match ttl {
        Some(t) => Some((now + t) as u64),
        None => None,
    }
}

/// Why the store refused a write.
#[derive(Debug, Clone, Copy, PartialEq, Eq, Structural)]
pub enum StoreError {
    /// The deadline, clock plus time to live, does not fit in 64 bits.
    Overflow,
}

struct Entry {
    key: Vec<u8>,
    value: Vec<u8>,
    expires_at: Option<u64>,
}

impl Entry {
    /// What the entry holds for its key.
    spec fn stored(self) -> Stored {
        Stored { value: self.value@, expires_at: self.expires_at }
    }
}

/// No key occurs twice.
spec fn distinct(es: Seq<Entry>) -> bool {
    forall|i: int, j: int| 0 <= i < j < es.len() ==> es[i].key@ != es[j].key@
}

/// Some entry has the key `k`.
spec fn has_key(es: Seq<Entry>, k: Seq<u8>) -> bool {
    exists|i: int| 0 <= i < es.len() && es[i].key@ == k
}

/// The place of an entry with the key `k`.
spec fn index_of(es: Seq<Entry>, k: Seq<u8>) -> int {
    choose|i: int| 0 <= i < es.len() && es[i].key@ == k
}

/// The entries as a map from key to what is held for it.
spec fn as_map(es: Seq<Entry>) -> Map<Seq<u8>, Stored> {
    Map::new(|k: Seq<u8>| has_key(es, k), |k: Seq<u8>| es[index_of(es, k)].stored())
}

/// The map holds for the key of the entry at `i` what that entry holds.
proof fn lemma_at(es: Seq<Entry>, i: int)
    requires
        distinct(es),
        0 <= i < es.len(),
    ensures
        has_key(es, es[i].key@),
        index_of(es, es[i].key@) == i,
        as_map(es).contains_key(es[i].key@),
        as_map(es)[es[i].key@] == es[i].stored(),
{
    let k = es[i].key@;
    let j = index_of(es, k);
    assert(0 <= j < es.len() && es[j].key@ == k);
}

/// An entry with a new key, added at the end, is an insertion.
proof fn lemma_push(es: Seq<Entry>, e: Entry)
    requires
        distinct(es),
        !has_key(es, e.key@),
    ensures
        distinct(es.push(e)),
        as_map(es.push(e)) == as_map(es).insert(e.key@, e.stored()),
{
    let es2 = es.push(e);
    assert(distinct(es2)) by {
        assert forall|i: int, j: int| 0 <= i < j < es2.len() implies es2[i].key@
            != es2[j].key@ by {
            if j == es.len() {
                assert(es[i].key@ == es2[i].key@);
            }
        }
    }
    let m2 = as_map(es2);
    let m = as_map(es).insert(e.key@, e.stored());
    assert forall|k: Seq<u8>| m2.contains_key(k) <==> m.contains_key(k) by {
        if has_key(es2, k) {
            let j = index_of(es2, k);
            if j < es.len() {
                assert(es[j].key@ == k);
            }
        }
        if has_key(es, k) {
            let j = index_of(es, k);
            assert(es2[j].key@ == k);
        }
        if k == e.key@ {
            assert(es2[es.len() as int].key@ == k);
        }
    }
    assert forall|k: Seq<u8>| m2.contains_key(k) implies m2[k] == m[k] by {
        let j = index_of(es2, k);
        lemma_at(es2, j);
        if j < es.len() {
            lemma_at(es, j);
        }
    }
    assert(m2 =~= m);
}

/// An entry put in the place of one with the same key is an insertion.
proof fn lemma_update(es: Seq<Entry>, i: int, e: Entry)
    requires
        distinct(es),
        0 <= i < es.len(),
        e.key@ == es[i].key@,
    ensures
        distinct(es.update(i, e)),
        as_map(es.update(i, e)) == as_map(es).insert(e.key@, e.stored()),
{
    let es2 = es.update(i, e);
    assert(distinct(es2)) by {
        assert forall|a: int, b: int| 0 <= a < b < es2.len() implies es2[a].key@
            != es2[b].key@ by {
            assert(es2[a].key@ == es[a].key@);
            assert(es2[b].key@ == es[b].key@);
        }
    }
    let m2 = as_map(es2);
    let m = as_map(es).insert(e.key@, e.stored());
    assert forall|k: Seq<u8>| m2.contains_key(k) <==> m.contains_key(k) by {
        if has_key(es2, k) {
            let j = index_of(es2, k);
            assert(es[j].key@ == k);
        }
        if has_key(es, k) {
            let j = index_of(es, k);
            assert(es2[j].key@ == k);
        }
        if k == e.key@ {
            assert(es2[i].key@ == k);
        }
    }
    assert forall|k: Seq<u8>| m2.contains_key(k) implies m2[k] == m[k] by {
        let j = index_of(es2, k);
        lemma_at(es2, j);
        if j != i {
            assert(es[j].key@ == k);
            lemma_at(es, j);
        }
    }
    assert(m2 =~= m);
}

/// An entry taken out is its key removed.
proof fn lemma_remove(es: Seq<Entry>, i: int)
    requires
        distinct(es),
        0 <= i < es.len(),
    ensures
        distinct(es.remove(i)),
        as_map(es.remove(i)) == as_map(es).remove(es[i].key@),
{
    let es2 = es.remove(i);
    assert forall|a: int| 0 <= a < es2.len() implies es2[a] == es[if a < i {
        a
    } else {
        a + 1
    }] by {}
    assert(distinct(es2)) by {
        assert forall|a: int, b: int| 0 <= a < b < es2.len() implies es2[a].key@
            != es2[b].key@ by {
            let a1 = if a < i { a } else { a + 1 };
            let b1 = if b < i { b } else { b + 1 };
            assert(es2[a] == es[a1]);
            assert(es2[b] == es[b1]);
        }
    }
    let m2 = as_map(es2);
    let m = as_map(es).remove(es[i].key@);
    assert forall|k: Seq<u8>| m2.contains_key(k) <==> m.contains_key(k) by {
        if has_key(es2, k) {
            let j = index_of(es2, k);
            let j1 = if j < i { j } else { j + 1 };
            assert(es2[j] == es[j1]);
            assert(es[j1].key@ == k);
        }
        if has_key(es, k) && k != es[i].key@ {
            let j = index_of(es, k);
            let j2 = if j < i { j } else { j - 1 };
            assert(es2[j2] == es[j]);
            assert(es2[j2].key@ == k);
        }
    }
    assert forall|k: Seq<u8>| m2.contains_key(k) implies m2[k] == m[k] by {
        let j = index_of(es2, k);
        lemma_at(es2, j);
        let j1 = if j < i { j } else { j + 1 };
        assert(es2[j] == es[j1]);
        lemma_at(es, j1);
    }
    assert(m2 =~= m);
}

/// The store: for each key at most one entry.
pub struct Store {
    entries: Vec<Entry>,
}

impl View for Store {
    type V = Map<Seq<u8>, Stored>;

    /// The store's contents: what it holds for each key, expired or not.
    closed spec fn view(&self) -> Map<Seq<u8>, Stored> {
        as_map(self.entries@)
    }
}

impl Store {
    /// No key occurs twice.
    pub closed spec fn wf(&self) -> bool {
        distinct(self.entries@)
    }

    /// An empty store.
    pub fn new() -> (s: Store)
        ensures
            s.wf(),
            s@ == Map::<Seq<u8>, Stored>::empty(),
    {
        let s = Store { entries: Vec::new() };
        proof {
            assert(s@ =~= Map::<Seq<u8>, Stored>::empty());
        }
        s
    }

    /// The place of the entry for `key`, where there is one.
    fn find(&self, key: &[u8]) -> (r: Option<usize>)
        ensures
            match r {
                Some(i) => i < self.entries@.len() && self.entries@[i as int].key@ == key@,
                None => !has_key(self.entries@, key@),
            },
    {
        let mut i: usize = 0;
        while i < self.entries.len()
            invariant
                i <= self.entries@.len(),
                forall|k: int| 0 <= k < i ==> self.entries@[k].key@ != key@,
            decreases self.entries@.len() - i,
        {
            if eq_bytes(self.entries[i].key.as_slice(), key) {
                return Some(i);
            }
            i = i + 1;
        }
        None
    }

    /// Writes the entry for `key`, over whatever was there. With a time to
    /// live the entry expires once the clock has gone past `now + ttl`;
    /// without one it never does. The write is refused, and nothing
    /// changes, exactly where `now + ttl` does not fit in 64 bits.
    pub fn set(&mut self, key: Vec<u8>, value: Vec<u8>, ttl: Option<u64>, now: u64) -> (r: Result<
        (),
        StoreError,
    >)
        requires
            old(self).wf(),
        ensures
            final(self).wf(),
            r is Err <==> overflows(ttl, now),
            r is Err ==> final(self)@ == old(self)@,
            r is Ok ==> final(self)@ == old(self)@.insert(
                key@,
                Stored { value: value@, expires_at: deadline(ttl, now) },
            ),
    {
        let expires_at: Option<u64> = match ttl {
            None => None,
            Some(t) => {
                if t > u64::MAX - now {
                    return Err(StoreError::Overflow);
                }
                Some(now + t)
            },
        };
        let found = self.find(key.as_slice());
        let entry = Entry { key, value, expires_at };
        match found {
            Some(i) => {
                proof {
                    lemma_update(self.entries@, i as int, entry);
                }
                self.entries.set(i, entry);
            },
            None => {
                proof {
                    lemma_push(self.entries@, entry);
                }
                self.entries.push(entry);
            },
        }
        Ok(())
    }

    /// The value of `key`, where the store holds an entry for it that is
    /// alive at `now`. An expired entry for `key` is removed; nothing else
    /// changes.
    pub fn get(&mut self, key: &[u8], now: u64) -> (r: Option<Vec<u8>>)
        requires
            old(self).wf(),
        ensures
            final(self).wf(),
            match r {
                Some(v) => old(self)@.contains_key(key@) && live(old(self)@[key@], now) && v@
                    == old(self)@[key@].value && final(self)@ == old(self)@,
                None => !(old(self)@.contains_key(key@) && live(old(self)@[key@], now))
                    && final(self)@ == old(self)@.remove(key@),
            },
    {
        match self.find(key) {
            None => {
                proof {
                    assert(self@.remove(key@) =~= self@);
                }
                None
            },
            Some(i) => {
                proof {
                    lemma_at(self.entries@, i as int);
                }
                let expired: bool = match self.entries[i].expires_at {
                    Some(t) => now > t,
                    None => false,
                };
                if expired {
                    proof {
                        lemma_remove(self.entries@, i as int);
                    }
                    self.entries.remove(i);
                    None
                } else {
                    Some(copy_bytes(self.entries[i].value.as_slice()))
                }
            },
        }
    }

    /// Removes every entry that has expired at `now`.
    pub fn sweep(&mut self, now: u64)
        requires
            old(self).wf(),
        ensures
            final(self).wf(),
            final(self)@ == live_part(old(self)@, now),
    {
        let mut i: usize = 0;
        while i < self.entries.len()
            invariant
                self.wf(),
                i <= self.entries@.len(),
                live_part(self@, now) == live_part(old(self)@, now),
                forall|k: int| 0 <= k < i ==> live(self.entries@[k].stored(), now),
            decreases self.entries@.len() - i,
        {
            let expired: bool = match self.entries[i].expires_at {
                Some(t) => now > t,
                None => false,
            };
            if expired {
                proof {
                    lemma_at(self.entries@, i as int);
                    lemma_remove(self.entries@, i as int);
                    assert(live_part(self@.remove(self.entries@[i as int].key@), now) =~= live_part(
                        self@,
                        now,
                    ));
                }
                self.entries.remove(i);
            } else {
                i = i + 1;
            }
        }
        proof {
            assert(self@ =~= live_part(self@, now)) by {
                assert forall|k: Seq<u8>| self@.contains_key(k) implies live(self@[k], now) by {
                    let j = index_of(self.entries@, k);
                    lemma_at(self.entries@, j);
                }
            }
        }
    }
}

} // verus!
