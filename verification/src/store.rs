//! The byte-addressable key-value store.
//!
//! The store is the persistence substrate of every collection: an opaque
//! map from byte keys to byte values with get/set/remove/has primitives and
//! immediate visibility of writes.  Its contents are modeled as a
//! `Map<Seq<u8>, Seq<u8>>`.

use vstd::prelude::*;
use vstd::map::*;

verus! {

/// No two records share a key.
pub open spec fn distinct_keys(s: Seq<(Vec<u8>, Vec<u8>)>) -> bool {
    forall|i: int, j: int| 0 <= i < j < s.len() ==> s[i].0@ != s[j].0@
}

/// The map held by a sequence of records, later records winning.
pub open spec fn assoc_map(s: Seq<(Vec<u8>, Vec<u8>)>) -> Map<Seq<u8>, Seq<u8>>
    decreases s.len(),
{
    if s.len() == 0 {
        Map::empty()
    } else {
        assoc_map(s.drop_last()).insert(s.last().0@, s.last().1@)
    }
}

/// A key is in the map exactly when some record holds it.
proof fn lemma_assoc_contains(s: Seq<(Vec<u8>, Vec<u8>)>, k: Seq<u8>)
    ensures
        assoc_map(s).contains_key(k) <==> exists|i: int| 0 <= i < s.len() && s[i].0@ == k,
    decreases s.len(),
{
    if s.len() > 0 {
        lemma_assoc_contains(s.drop_last(), k);
        if s.last().0@ == k {
            assert(s[s.len() - 1].0@ == k);
        } else if assoc_map(s).contains_key(k) {
            let i = choose|i: int| 0 <= i < s.drop_last().len() && s.drop_last()[i].0@ == k;
            assert(s[i].0@ == k);
        } else {
            if exists|i: int| 0 <= i < s.len() && s[i].0@ == k {
                let i = choose|i: int| 0 <= i < s.len() && s[i].0@ == k;
                assert(i < s.len() - 1);
                assert(s.drop_last()[i].0@ == k);
            }
        }
    }
}

/// The record holding a key gives the key's value in the map.
proof fn lemma_assoc_get(s: Seq<(Vec<u8>, Vec<u8>)>, i: int)
    requires
        distinct_keys(s),
        0 <= i < s.len(),
    ensures
        assoc_map(s).contains_key(s[i].0@),
        assoc_map(s)[s[i].0@] == s[i].1@,
    decreases s.len(),
{
    if i == s.len() - 1 {
    } else {
        assert(distinct_keys(s.drop_last()));
        assert(s.drop_last()[i] == s[i]);
        lemma_assoc_get(s.drop_last(), i);
        assert(s[i].0@ != s.last().0@);
    }
}

/// Taking a record out takes exactly its key out of the map.
proof fn lemma_assoc_remove(s: Seq<(Vec<u8>, Vec<u8>)>, i: int)
    requires
        distinct_keys(s),
        0 <= i < s.len(),
    ensures
        assoc_map(s.remove(i)) == assoc_map(s).remove(s[i].0@),
    decreases s.len(),
{
    if i == s.len() - 1 {
        assert(s.remove(i) =~= s.drop_last());
        lemma_assoc_contains(s.drop_last(), s[i].0@);
        assert_maps_equal!(assoc_map(s).remove(s[i].0@), assoc_map(s.drop_last()));
    } else {
        assert(distinct_keys(s.drop_last()));
        assert(s.drop_last()[i] == s[i]);
        lemma_assoc_remove(s.drop_last(), i);
        assert(s.remove(i).drop_last() =~= s.drop_last().remove(i));
        assert(s.remove(i).last() == s.last());
        assert(s[i].0@ != s.last().0@);
        assert_maps_equal!(
            assoc_map(s.drop_last()).remove(s[i].0@).insert(s.last().0@, s.last().1@),
            assoc_map(s).remove(s[i].0@)
        );
    }
}

/// With distinct keys the map has one entry per record.
proof fn lemma_assoc_count(s: Seq<(Vec<u8>, Vec<u8>)>)
    requires
        distinct_keys(s),
    ensures
        assoc_map(s).dom().finite(),
        assoc_map(s).dom().len() == s.len(),
    decreases s.len(),
{
    if s.len() > 0 {
        assert(distinct_keys(s.drop_last()));
        lemma_assoc_count(s.drop_last());
        lemma_assoc_contains(s.drop_last(), s.last().0@);
    }
}

/// Compares two byte strings.
pub fn slice_eq(a: &[u8], b: &[u8]) -> (r: bool)
    ensures
        r == (a@ == b@),
{
    if a.len() != b.len() {
        proof {
            assert(a@ != b@);
        }
        return false;
    }
    let n = a.len();
    let mut i: usize = 0;
    while i < n
        invariant
            n == a@.len() == b@.len(),
            i <= n,
            forall|j: int| 0 <= j < i ==> a@[j] == b@[j],
        decreases n - i,
    {
        if a[i] != b[i] {
            return false;
        }
        i = i + 1;
    }
    proof {
        assert(a@ =~= b@);
    }
    true
}

/// The store: a set of records, each one byte key with its byte value.
pub struct Store {
    entries: Vec<(Vec<u8>, Vec<u8>)>,
}

impl Store {
    /// The records are well formed: one record per key.
    pub closed spec fn wf(self) -> bool {
        distinct_keys(self.entries@)
    }

    /// The contents: which value lies under which key.
    pub closed spec fn contents(self) -> Map<Seq<u8>, Seq<u8>> {
        assoc_map(self.entries@)
    }

    /// An empty store.
    pub fn new() -> (r: Store)
        ensures
            r.wf(),
            r.contents() == Map::<Seq<u8>, Seq<u8>>::empty(),
    {
        Store { entries: Vec::new() }
    }

    /// The index of the record holding `key`, if one does.
    fn find(&self, key: &[u8]) -> (r: Option<usize>)
        ensures
            (match r {
                Option::Some(i) => i < self.entries@.len() && self.entries@[i as int].0@ == key@,
                Option::None => forall|j: int|
                    0 <= j < self.entries@.len() ==> self.entries@[j].0@ != key@,
            }),
    {
        let n = self.entries.len();
        let mut i: usize = 0;
        while i < n
            invariant
                n == self.entries@.len(),
                i <= n,
                forall|j: int| 0 <= j < i ==> self.entries@[j].0@ != key@,
            decreases n - i,
        {
            if slice_eq(self.entries[i].0.as_slice(), key) {
                return Option::Some(i);
            }
            i = i + 1;
        }
        Option::None
    }

    /// Reads the value under `key`, if any.
    pub fn get(&self, key: &[u8]) -> (r: Option<Vec<u8>>)
        requires
            self.wf(),
        ensures
            (match r {
                Option::Some(v) => self.contents().contains_key(key@) && self.contents()[key@]
                    == v@,
                Option::None => !self.contents().contains_key(key@),
            }),
    {
        match self.find(key) {
            Option::Some(i) => {
                proof {
                    lemma_assoc_get(self.entries@, i as int);
                }
                let mut v: Vec<u8> = Vec::new();
                v.extend_from_slice(self.entries[i].1.as_slice());
                Option::Some(v)
            },
            Option::None => {
                proof {
                    lemma_assoc_contains(self.entries@, key@);
                }
                Option::None
            },
        }
    }

    /// Whether a value lies under `key`.
    pub fn has(&self, key: &[u8]) -> (r: bool)
        requires
            self.wf(),
        ensures
            r == self.contents().contains_key(key@),
    {
        match self.find(key) {
            Option::Some(i) => {
                proof {
                    lemma_assoc_get(self.entries@, i as int);
                }
                true
            },
            Option::None => {
                proof {
                    lemma_assoc_contains(self.entries@, key@);
                }
                false
            },
        }
    }

    /// Takes the value under `key` out, handing it back.
    pub fn remove(&mut self, key: &[u8]) -> (prev: Option<Vec<u8>>)
        requires
            old(self).wf(),
        ensures
            final(self).wf(),
            final(self).contents() == old(self).contents().remove(key@),
            (match prev {
                Option::Some(v) => old(self).contents().contains_key(key@) && old(
                    self,
                ).contents()[key@] == v@,
                Option::None => !old(self).contents().contains_key(key@),
            }),
    {
        match self.find(key) {
            Option::Some(i) => {
                proof {
                    lemma_assoc_get(self.entries@, i as int);
                    lemma_assoc_remove(self.entries@, i as int);
                }
                let pair = self.entries.remove(i);
                proof {
                    assert(distinct_keys(self.entries@)) by {
                        assert(forall|x: int, y: int|
                            0 <= x < y < self.entries@.len() ==> (#[trigger] self.entries@[x],
                            #[trigger] self.entries@[y]) == (old(self).entries@.remove(i as int)[x],
                            old(self).entries@.remove(i as int)[y]));
                    }
                }
                Option::Some(pair.1)
            },
            Option::None => {
                proof {
                    lemma_assoc_contains(self.entries@, key@);
                    assert_maps_equal!(self.contents().remove(key@), self.contents());
                }
                Option::None
            },
        }
    }

    /// Lays `value` under `key`, handing back what lay there before.
    pub fn set(&mut self, key: &[u8], value: &[u8]) -> (prev: Option<Vec<u8>>)
        requires
            old(self).wf(),
        ensures
            final(self).wf(),
            final(self).contents() == old(self).contents().insert(key@, value@),
            (match prev {
                Option::Some(v) => old(self).contents().contains_key(key@) && old(
                    self,
                ).contents()[key@] == v@,
                Option::None => !old(self).contents().contains_key(key@),
            }),
    {
        let prev = self.remove(key);
        let mut k: Vec<u8> = Vec::new();
        k.extend_from_slice(key);
        let mut v: Vec<u8> = Vec::new();
        v.extend_from_slice(value);
        proof {
            assert(k@ =~= key@);
            assert(v@ =~= value@);
        }
        let ghost before = self.entries@;
        self.entries.push((k, v));
        proof {
            assert(self.entries@.drop_last() =~= before);
            assert(self.entries@.last().0@ == key@);
            assert(self.entries@.last().1@ == value@);
            lemma_assoc_contains(before, key@);
            assert(distinct_keys(self.entries@)) by {
                assert(forall|x: int|
                    0 <= x < before.len() ==> #[trigger] self.entries@[x] == before[x]);
            }
            assert_maps_equal!(
                old(self).contents().remove(key@).insert(key@, value@),
                old(self).contents().insert(key@, value@)
            );
        }
        prev
    }

    /// How many keys hold a value.
    pub fn key_count(&self) -> (n: usize)
        requires
            self.wf(),
        ensures
            n == self.contents().dom().len(),
    {
        proof {
            lemma_assoc_count(self.entries@);
        }
        self.entries.len()
    }
}

} // verus!
