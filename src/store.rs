//! The key-value store that commands read and write: byte-string keys,
//! byte-string values, the latest write to a key wins.

use vstd::prelude::*;
use vstd::slice::slice_to_vec;
use crate::frame::bytes_eq;

verus! {

pub struct Entry {
    pub key: Vec<u8>,
    pub value: Vec<u8>,
}

pub struct Store {
    entries: Vec<Entry>,
}

/// The value of `k` in a list of writes: the latest one for that key.
pub open spec fn lookup(s: Seq<(Seq<u8>, Seq<u8>)>, k: Seq<u8>) -> Option<Seq<u8>>
    decreases s.len(),
{
    if s.len() == 0 {
        None
    } else if s.last().0 == k {
        Some(s.last().1)
    } else {
        lookup(s.drop_last(), k)
    }
}

impl View for Store {
    type V = Seq<(Seq<u8>, Seq<u8>)>;

    closed spec fn view(&self) -> Seq<(Seq<u8>, Seq<u8>)> {
        self.entries@.map_values(|e: Entry| (e.key@, e.value@))
    }
}

proof fn lemma_lookup_update(s: Seq<(Seq<u8>, Seq<u8>)>, i: int, v: Seq<u8>, k: Seq<u8>)
    requires
        0 <= i < s.len(),
        forall|j: int| i < j < s.len() ==> s[j].0 != s[i].0,
    ensures
        lookup(s.update(i, (s[i].0, v)), k) == if k == s[i].0 {
            Some(v)
        } else {
            lookup(s, k)
        },
    decreases s.len(),
{
    let t = s.update(i, (s[i].0, v));
    if i < s.len() - 1 {
        assert(t.drop_last() =~= s.drop_last().update(i, (s[i].0, v)));
        lemma_lookup_update(s.drop_last(), i, v, k);
    } else {
        assert(t.drop_last() =~= s.drop_last());
    }
}

impl Store {
    /// The map that the writes so far define.
    pub open spec fn contents(&self) -> Map<Seq<u8>, Seq<u8>> {
        Map::new(|k: Seq<u8>| lookup(self@, k) is Some, |k: Seq<u8>| lookup(self@, k)->Some_0)
    }

    /// An empty store.
    pub fn new() -> (r: Store)
        ensures
            r.contents() == Map::<Seq<u8>, Seq<u8>>::empty(),
    {
        let r = Store { entries: Vec::new() };
        assert(r.contents() =~= Map::<Seq<u8>, Seq<u8>>::empty());
        r
    }

    /// The value stored under `key`, if any.
    pub fn get(&self, key: &[u8]) -> (r: Option<Vec<u8>>)
        ensures
            match r {
                Some(v) => self.contents().contains_key(key@) && v@ == self.contents()[key@],
                None => !self.contents().contains_key(key@),
            },
    {
        let mut i: usize = self.entries.len();
        assert(self@.subrange(0, i as int) =~= self@);
        while i > 0
            invariant
                i <= self.entries@.len(),
                lookup(self@, key@) == lookup(self@.subrange(0, i as int), key@),
            decreases i,
        {
            let e = &self.entries[i - 1];
            proof {
                let s = self@.subrange(0, i as int);
                assert(s.drop_last() =~= self@.subrange(0, i - 1));
                assert(s.last() == (e.key@, e.value@));
            }
            if bytes_eq(e.key.as_slice(), key) {
                return Some(slice_to_vec(e.value.as_slice()));
            }
            i = i - 1;
        }
        None
    }

    /// Stores `value` under `key`, replacing what was there.
    pub fn set(&mut self, key: Vec<u8>, value: Vec<u8>)
        ensures
            final(self).contents() == old(self).contents().insert(key@, value@),
    {
        let mut i: usize = self.entries.len();
        while i > 0
            invariant
                i <= self.entries@.len(),
                self.entries@ == old(self).entries@,
                forall|j: int| i <= j < self@.len() ==> self@[j].0 != key@,
            decreases i,
        {
            if bytes_eq(self.entries[i - 1].key.as_slice(), key.as_slice()) {
                let ghost s = self@;
                let ghost idx = i - 1;
                proof {
                    lemma_set_at(s, idx as int, value@, key@);
                }
                self.entries.set(i - 1, Entry { key, value });
                assert(self@ =~= s.update(idx as int, (s[idx as int].0, value@)));
                assert(final(self).contents() =~= old(self).contents().insert(key@, value@));
                return;
            }
            i = i - 1;
        }
        let ghost s = self@;
        self.entries.push(Entry { key, value });
        proof {
            assert(self@ =~= s.push((key@, value@)));
            assert(self@.drop_last() =~= s);
            assert forall|k: Seq<u8>| lookup(self@, k) == (if k == key@ { Some(value@) } else { lookup(s, k) }) by {}
            assert(self.contents() =~= old(self).contents().insert(key@, value@));
        }
    }
}

proof fn lemma_set_at(s: Seq<(Seq<u8>, Seq<u8>)>, i: int, v: Seq<u8>, k: Seq<u8>)
    requires
        0 <= i < s.len(),
        s[i].0 == k,
        forall|j: int| i < j < s.len() ==> s[j].0 != k,
    ensures
        forall|k2: Seq<u8>| lookup(#[trigger] s.update(i, (s[i].0, v)), k2) == if k2 == k {
            Some(v)
        } else {
            lookup(s, k2)
        },
{
    assert forall|k2: Seq<u8>| lookup(#[trigger] s.update(i, (s[i].0, v)), k2) == if k2 == k {
        Some(v)
    } else {
        lookup(s, k2)
    } by {
        lemma_lookup_update(s, i, v, k2);
    }
}

} // verus!
