//! The key-value store: each key holds a value and, optionally, the time in
//! milliseconds from which it no longer does.
use vstd::prelude::*;

use crate::text::text_of;

verus! {

/// What the store holds: for each key, its value and the time it expires at.
pub type Contents = Map<Seq<char>, (Seq<char>, Option<u64>)>;

/// The value of `key` at time `now`: nothing once its expiry time has come.
pub open spec fn live(m: Contents, key: Seq<char>, now: u64) -> Option<Seq<char>> {
    if m.contains_key(key) && !expired(m, key, now) {
        Some(m[key].0)
    } else {
        None
    }
}

/// `key` is present with an expiry time no later than `now`.
pub open spec fn expired(m: Contents, key: Seq<char>, now: u64) -> bool {
    m.contains_key(key) && match m[key].1 {
        Some(t) => t <= now,
        None => false,
    }
}

/// The expiry time of a write at `now` that lives `ttl` milliseconds; a time
/// past the last `u64` means the entry never expires.
pub open spec fn deadline(now: u64, ttl: Option<u64>) -> Option<u64> {
    match ttl {
        Some(t) => if now + t <= u64::MAX {
            Some((now + t) as u64)
        } else {
            None
        },
        None => None,
    }
}

pub fn expiry_time(now: u64, ttl: Option<u64>) -> (r: Option<u64>)
    ensures
        r == deadline(now, ttl),
{
    match ttl {
        Some(t) => now.checked_add(t),
        None => None,
    }
}

struct Entry {
    key: String,
    value: String,
    expires_at: Option<u64>,
}

/// A map from text keys to text values, each key at most once.
pub struct Store {
    entries: Vec<Entry>,
    contents: Ghost<Contents>,
}

impl View for Store {
    type V = Contents;

    closed spec fn view(&self) -> Contents {
        self.contents@
    }
}

impl Store {
    spec fn key_at(&self, i: int) -> Seq<char> {
        self.entries@[i].key@
    }

    /// Keys are unique, and the entries are exactly the contents.
    pub closed spec fn wf(&self) -> bool {
        &&& forall|i: int, j: int|
            0 <= i < j < self.entries@.len() ==> self.key_at(i) != self.key_at(j)
        &&& forall|i: int|
            0 <= i < self.entries@.len() ==> self.contents@.contains_key(#[trigger] self.key_at(i))
                && self.contents@[self.key_at(i)] == (
                self.entries@[i].value@,
                self.entries@[i].expires_at,
            )
        &&& forall|k: Seq<char>|
            #[trigger] self.contents@.contains_key(k) ==> exists|i: int|
                0 <= i < self.entries@.len() && self.key_at(i) == k
    }

    pub fn new() -> (r: Store)
        ensures
            r.wf(),
            r@ == Contents::empty(),
    {
        Store { entries: Vec::new(), contents: Ghost(Map::empty()) }
    }

    fn find(&self, key: &String) -> (r: Option<usize>)
        requires
            self.wf(),
        ensures
            match r {
                Some(i) => i < self.entries@.len() && self.key_at(i as int) == key@,
                None => !self@.contains_key(key@),
            },
    {
        let mut i: usize = 0;
        while i < self.entries.len()
            invariant
                self.wf(),
                i <= self.entries@.len(),
                forall|j: int| 0 <= j < i ==> self.key_at(j) != key@,
            decreases self.entries@.len() - i,
        {
            if self.entries[i].key == *key {
                return Some(i);
            }
            i = i + 1;
        }
        None
    }

    /// The value of `key` at time `now`.
    pub fn get(&self, key: &String, now: u64) -> (r: Option<String>)
        requires
            self.wf(),
        ensures
            text_of(r) == live(self@, key@, now),
    {
        match self.find(key) {
            Some(i) => {
                let entry = &self.entries[i];
                match entry.expires_at {
                    Some(t) => if t <= now {
                        return None;
                    },
                    None => {},
                }
                Some(entry.value.clone())
            },
            None => None,
        }
    }

    /// Makes `key` hold `value` until `expires_at`, or for good, in place of
    /// whatever it held.
    pub fn set(&mut self, key: String, value: String, expires_at: Option<u64>)
        requires
            old(self).wf(),
        ensures
            final(self).wf(),
            final(self)@ == old(self)@.insert(key@, (value@, expires_at)),
    {
        let ghost k = key@;
        let ghost stored = (value@, expires_at);
        let ghost contents = self.contents@.insert(k, stored);
        match self.find(&key) {
            Some(i) => {
                let ghost before = self.entries@;
                self.entries.set(i, Entry { key, value, expires_at });
                self.contents = Ghost(contents);
                assert forall|j: int| 0 <= j < self.entries@.len() && j != i implies self.key_at(j)
                    != k && #[trigger] self.entries@[j] == before[j] by {
                    assert(old(self).key_at(j) != old(self).key_at(i as int));
                }
                assert forall|j1: int, j2: int|
                    0 <= j1 < j2 < self.entries@.len() implies self.key_at(j1) != self.key_at(j2) by {
                    assert(old(self).key_at(j1) != old(self).key_at(j2));
                    assert(self.key_at(j1) == old(self).key_at(j1));
                    assert(self.key_at(j2) == old(self).key_at(j2));
                }
                assert forall|j: int| 0 <= j < self.entries@.len() implies #[trigger] self.contents@.contains_key(
                    self.key_at(j),
                ) && self.contents@[self.key_at(j)] == (
                    self.entries@[j].value@,
                    self.entries@[j].expires_at,
                ) by {
                    if j != i {
                        assert(old(self).contents@.contains_key(old(self).key_at(j)));
                    }
                }
                assert forall|k2: Seq<char>| #[trigger] self.contents@.contains_key(k2) implies exists|
                    j: int,
                | 0 <= j < self.entries@.len() && self.key_at(j) == k2 by {
                    if k2 != k {
                        let j = choose|j: int| 0 <= j < old(self).entries@.len() && old(self).key_at(j) == k2;
                        assert(self.key_at(j) == k2);
                    } else {
                        assert(self.key_at(i as int) == k2);
                    }
                }
            },
            None => {
                let ghost n = self.entries@.len();
                let ghost before = self.entries@;
                self.entries.push(Entry { key, value, expires_at });
                self.contents = Ghost(contents);
                assert(self.key_at(n as int) == k);
                assert forall|j: int| 0 <= j < n implies self.key_at(j) != k && #[trigger] self.entries@[j]
                    == before[j] by {
                    assert(old(self).contents@.contains_key(old(self).key_at(j)));
                }
                assert forall|j1: int, j2: int|
                    0 <= j1 < j2 < self.entries@.len() implies self.key_at(j1) != self.key_at(j2) by {
                    if j2 < n {
                        assert(old(self).key_at(j1) != old(self).key_at(j2));
                    }
                    assert(self.entries@[j1] == before[j1]);
                }
                assert forall|j: int| 0 <= j < self.entries@.len() implies #[trigger] self.contents@.contains_key(
                    self.key_at(j),
                ) && self.contents@[self.key_at(j)] == (
                    self.entries@[j].value@,
                    self.entries@[j].expires_at,
                ) by {
                    if j < n {
                        assert(self.entries@[j] == before[j]);
                        assert(old(self).contents@.contains_key(old(self).key_at(j)));
                    }
                }
                assert forall|k2: Seq<char>| #[trigger] self.contents@.contains_key(k2) implies exists|
                    j: int,
                | 0 <= j < self.entries@.len() && self.key_at(j) == k2 by {
                    if k2 != k {
                        let j = choose|j: int| 0 <= j < old(self).entries@.len() && old(self).key_at(j) == k2;
                        assert(self.key_at(j) == k2);
                    } else {
                        assert(self.key_at(n as int) == k2);
                    }
                }
            },
        }
    }

    /// Removes `key` if its expiry time has come by `now`, and tells whether it did.
    /// A key written again since, with a later expiry time or none, stays.
    pub fn expire(&mut self, key: &String, now: u64) -> (r: bool)
        requires
            old(self).wf(),
        ensures
            final(self).wf(),
            r == expired(old(self)@, key@, now),
            final(self)@ == if r {
                old(self)@.remove(key@)
            } else {
                old(self)@
            },
    {
        match self.find(key) {
            Some(i) => {
                let due = match self.entries[i].expires_at {
                    Some(t) => t <= now,
                    None => false,
                };
                if !due {
                    return false;
                }
                let ghost k = key@;
                let ghost before = self.entries@;
                let ghost contents = self.contents@.remove(k);
                self.entries.remove(i);
                self.contents = Ghost(contents);
                assert forall|j: int| 0 <= j < self.entries@.len() implies #[trigger] self.contents@.contains_key(
                    self.key_at(j),
                ) && self.contents@[self.key_at(j)] == (
                    self.entries@[j].value@,
                    self.entries@[j].expires_at,
                ) by {
                    let o = if j < i {
                        j
                    } else {
                        j + 1
                    };
                    assert(self.entries@[j] == before[o]);
                    assert(o != i);
                    assert(old(self).key_at(o) != old(self).key_at(i as int));
                    assert(old(self).contents@.contains_key(old(self).key_at(o)));
                }
                assert forall|j1: int, j2: int|
                    0 <= j1 < j2 < self.entries@.len() implies self.key_at(j1) != self.key_at(j2) by {
                    let o1 = if j1 < i {
                        j1
                    } else {
                        j1 + 1
                    };
                    let o2 = if j2 < i {
                        j2
                    } else {
                        j2 + 1
                    };
                    assert(self.entries@[j1] == before[o1]);
                    assert(self.entries@[j2] == before[o2]);
                    assert(old(self).key_at(o1) != old(self).key_at(o2));
                }
                assert forall|k2: Seq<char>| #[trigger] self.contents@.contains_key(k2) implies exists|
                    j: int,
                | 0 <= j < self.entries@.len() && self.key_at(j) == k2 by {
                    assert(old(self).contents@.contains_key(k2));
                    let o = choose|o: int| 0 <= o < before.len() && old(self).key_at(o) == k2;
                    assert(o != i);
                    let j = if o < i {
                        o
                    } else {
                        o - 1
                    };
                    assert(self.entries@[j] == before[o]);
                    assert(self.key_at(j) == k2);
                }
                true
            },
            None => false,
        }
    }
}

} // verus!
