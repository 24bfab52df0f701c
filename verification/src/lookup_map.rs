//! The lookup map: a direct key-to-value projection onto the store.
//!
//! Each entry is one independently addressable record; there is no
//! iteration and no ordering, by design, so every operation costs exactly
//! one storage access.

use vstd::prelude::*;
use vstd::map::*;
use crate::store::Store;
use crate::keys::{is_under, agrees_except_under, append_slice};
use crate::codec::{le8, enc_str, encode_u64, encode_str, decode_u64, lemma_u64_round_trip,
    lemma_enc_str_injective};

verus! {

/// Tag byte of an entry record.
pub const ENTRY_TAG: u8 = 0;

/// A persisted map from texts to integers, one record per key.
pub struct LookupMap {
    prefix: Vec<u8>,
    model: Ghost<Map<Seq<char>, u64>>,
}

impl View for LookupMap {
    type V = Map<Seq<char>, u64>;

    closed spec fn view(&self) -> Map<Seq<char>, u64> {
        self.model@
    }
}

impl LookupMap {
    /// The namespace this map owns.
    pub closed spec fn prefix_spec(self) -> Seq<u8> {
        self.prefix@
    }

    /// The key of the record holding `k`.
    pub closed spec fn entry_key(self, k: Seq<char>) -> Seq<u8> {
        self.prefix@ + (seq![ENTRY_TAG] + enc_str(k))
    }

    /// The map's records in `store` carry exactly its model: one record
    /// under the derived key of each live key, and none under any other.
    pub closed spec fn wf(self, store: Store) -> bool {
        &&& store.wf()
        &&& forall|k: Seq<char>|
            store.contents().contains_key(#[trigger] self.entry_key(k))
                == self.model@.contains_key(k)
        &&& forall|k: Seq<char>|
            self.model@.contains_key(k) ==> store.contents()[#[trigger] self.entry_key(k)] == le8(
                self.model@[k],
            )
    }

    /// Every record key lies under the prefix, and distinct keys give
    /// distinct record keys.
    proof fn lemma_keys(self)
        ensures
            forall|k: Seq<char>| is_under(self.prefix_spec(), #[trigger] self.entry_key(k)),
            forall|k1: Seq<char>, k2: Seq<char>|
                k1 != k2 ==> #[trigger] self.entry_key(k1) != #[trigger] self.entry_key(k2),
    {
        assert forall|k: Seq<char>| is_under(self.prefix_spec(), #[trigger] self.entry_key(k)) by {
            crate::keys::lemma_derived_is_under(self.prefix@, seq![ENTRY_TAG] + enc_str(k));
        }
        assert forall|k1: Seq<char>, k2: Seq<char>| k1 != k2 implies #[trigger] self.entry_key(k1)
            != #[trigger] self.entry_key(k2) by {
            if self.entry_key(k1) == self.entry_key(k2) {
                let p = self.prefix@;
                let s1 = seq![ENTRY_TAG] + enc_str(k1);
                let s2 = seq![ENTRY_TAG] + enc_str(k2);
                assert(s1 =~= (p + s1).subrange(p.len() as int, (p + s1).len() as int));
                assert(s2 =~= (p + s2).subrange(p.len() as int, (p + s2).len() as int));
                assert(enc_str(k1) =~= s1.subrange(1, s1.len() as int));
                assert(enc_str(k2) =~= s2.subrange(1, s2.len() as int));
                lemma_enc_str_injective(k1, k2);
            }
        }
    }

    /// A well-formed map stands in a well-formed store.
    pub proof fn lemma_wf_store(self, store: Store)
        requires
            self.wf(store),
        ensures
            store.wf(),
    {
    }

    /// A step of another collection leaves this map's records alone: its
    /// namespace is a sibling of the same length.
    pub proof fn lemma_wf_frame(self, s1: Store, s2: Store, q: Seq<u8>)
        requires
            self.wf(s1),
            s2.wf(),
            agrees_except_under(s1.contents(), s2.contents(), q),
            q.len() == self.prefix_spec().len(),
            q != self.prefix_spec(),
        ensures
            self.wf(s2),
    {
        self.lemma_keys();
        assert forall|k: Seq<char>| s2.contents().contains_key(#[trigger] self.entry_key(k))
            == self.model@.contains_key(k) && (self.model@.contains_key(k)
            ==> s2.contents()[self.entry_key(k)] == le8(self.model@[k])) by {
            crate::keys::lemma_equal_len_prefixes_disjoint(q, self.prefix_spec(), self.entry_key(k));
        }
    }

    /// The record key of `k`, executable form.
    fn entry_key_exec(&self, k: &str) -> (r: Vec<u8>)
        ensures
            r@ == self.entry_key(k@),
    {
        let mut suffix: Vec<u8> = Vec::new();
        suffix.push(ENTRY_TAG);
        let body = encode_str(k);
        suffix.extend_from_slice(body.as_slice());
        let r = append_slice(self.prefix.as_slice(), suffix.as_slice());
        proof {
            assert(suffix@ =~= seq![ENTRY_TAG] + enc_str(k@));
        }
        r
    }

    /// An empty map owning the fresh namespace `prefix`.
    pub fn new(prefix: Vec<u8>, store: &Store) -> (r: LookupMap)
        requires
            store.wf(),
            forall|k: Seq<u8>|
                #[trigger] is_under(prefix@, k) ==> !store.contents().contains_key(k),
        ensures
            r.wf(*store),
            r@ == Map::<Seq<char>, u64>::empty(),
            r.prefix_spec() == prefix@,
    {
        let r = LookupMap { prefix, model: Ghost(Map::empty()) };
        proof {
            r.lemma_keys();
        }
        r
    }

    /// Reads the value under `key`, if any.
    pub fn get(&self, store: &Store, key: &str) -> (r: Option<u64>)
        requires
            self.wf(*store),
        ensures
            (match r {
                Option::Some(v) => self@.contains_key(key@) && self@[key@] == v,
                Option::None => !self@.contains_key(key@),
            }),
    {
        let ek = self.entry_key_exec(key);
        match store.get(ek.as_slice()) {
            Option::Some(bytes) => {
                proof {
                    lemma_u64_round_trip(self@[key@]);
                }
                match decode_u64(&bytes) {
                    Option::Some(v) => Option::Some(v),
                    Option::None => {
                        proof {
                            assert(false);
                        }
                        Option::None
                    },
                }
            },
            Option::None => Option::None,
        }
    }

    /// Whether a value lies under `key`.
    pub fn contains(&self, store: &Store, key: &str) -> (r: bool)
        requires
            self.wf(*store),
        ensures
            r == self@.contains_key(key@),
    {
        let ek = self.entry_key_exec(key);
        store.has(ek.as_slice())
    }

    /// Lays `value` under `key`, handing back what lay there before.
    pub fn insert(&mut self, store: &mut Store, key: &str, value: u64) -> (prev: Option<u64>)
        requires
            old(self).wf(*old(store)),
        ensures
            final(self).wf(*final(store)),
            final(self)@ == old(self)@.insert(key@, value),
            final(self).prefix_spec() == old(self).prefix_spec(),
            agrees_except_under(
                old(store).contents(),
                final(store).contents(),
                old(self).prefix_spec(),
            ),
            (match prev {
                Option::Some(v) => old(self)@.contains_key(key@) && old(self)@[key@] == v,
                Option::None => !old(self)@.contains_key(key@),
            }),
    {
        let prev = self.get(store, key);
        let ek = self.entry_key_exec(key);
        let body = encode_u64(value);
        store.set(ek.as_slice(), body.as_slice());
        proof {
            self.model@ = self.model@.insert(key@, value);
            self.lemma_keys();
            assert(forall|k: Seq<char>| old(self).entry_key(k) == #[trigger] self.entry_key(k));
            assert forall|k: Seq<char>| store.contents().contains_key(#[trigger] self.entry_key(k))
                == self.model@.contains_key(k) && (self.model@.contains_key(k)
                ==> store.contents()[self.entry_key(k)] == le8(self.model@[k])) by {
                if k != key@ {
                    assert(self.entry_key(k) != self.entry_key(key@));
                }
            }
            assert forall|k: Seq<u8>| !(#[trigger] is_under(old(self).prefix_spec(), k)) implies ((
            old(store).contents().contains_key(k) <==> store.contents().contains_key(k)) && (old(
                store,
            ).contents().contains_key(k) ==> old(store).contents()[k] == store.contents()[k])) by {
                assert(k != self.entry_key(key@));
            }
        }
        prev
    }

    /// Takes the value under `key` out; on an absent key nothing changes.
    pub fn remove(&mut self, store: &mut Store, key: &str) -> (prev: Option<u64>)
        requires
            old(self).wf(*old(store)),
        ensures
            final(self).wf(*final(store)),
            final(self)@ == old(self)@.remove(key@),
            final(self).prefix_spec() == old(self).prefix_spec(),
            agrees_except_under(
                old(store).contents(),
                final(store).contents(),
                old(self).prefix_spec(),
            ),
            (match prev {
                Option::Some(v) => old(self)@.contains_key(key@) && old(self)@[key@] == v,
                Option::None => !old(self)@.contains_key(key@) && final(store).contents() == old(
                    store,
                ).contents(),
            }),
    {
        let prev = self.get(store, key);
        let ek = self.entry_key_exec(key);
        store.remove(ek.as_slice());
        proof {
            if !self.model@.contains_key(key@) {
                assert_maps_equal!(
                    old(store).contents().remove(old(self).entry_key(key@)),
                    old(store).contents()
                );
                assert_maps_equal!(self.model@.remove(key@), self.model@);
            }
            self.model@ = self.model@.remove(key@);
            self.lemma_keys();
            assert(forall|k: Seq<char>| old(self).entry_key(k) == #[trigger] self.entry_key(k));
            assert forall|k: Seq<char>| store.contents().contains_key(#[trigger] self.entry_key(k))
                == self.model@.contains_key(k) && (self.model@.contains_key(k)
                ==> store.contents()[self.entry_key(k)] == le8(self.model@[k])) by {
                if k != key@ {
                    assert(self.entry_key(k) != self.entry_key(key@));
                }
            }
            assert forall|k: Seq<u8>| !(#[trigger] is_under(old(self).prefix_spec(), k)) implies ((
            old(store).contents().contains_key(k) <==> store.contents().contains_key(k)) && (old(
                store,
            ).contents().contains_key(k) ==> old(store).contents()[k] == store.contents()[k])) by {
                assert(k != self.entry_key(key@));
            }
        }
        prev
    }
}

} // verus!
