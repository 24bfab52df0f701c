//! The unordered map: a vector of live keys joined with an index lookup.
//!
//! The key list gives iteration; the index map gives constant-cost lookup;
//! a third namespace holds the values.  The two sides form a bijection —
//! the record of every live key points at the slot that holds that key —
//! and keeping that bijection across swap-based removal is the type's
//! central obligation.

use vstd::prelude::*;
use vstd::map::*;
use crate::store::Store;
use crate::keys::{is_under, agrees_except_under, append, lemma_agrees_trans, lemma_agrees_widen,
    lemma_under_extension};
use crate::vector::Vector;
use crate::lookup_map::LookupMap;

verus! {

/// Sub-namespace byte of the key list.
pub const KEYS_SUB: u8 = 0;

/// Sub-namespace byte of the index lookup.
pub const INDEX_SUB: u8 = 1;

/// Sub-namespace byte of the value records.
pub const VALUES_SUB: u8 = 2;

/// The three sub-namespaces have equal length and are pairwise distinct.
proof fn lemma_sub_prefixes(p: Seq<u8>)
    ensures
        (p + seq![KEYS_SUB]).len() == p.len() + 1,
        (p + seq![INDEX_SUB]).len() == p.len() + 1,
        (p + seq![VALUES_SUB]).len() == p.len() + 1,
        p + seq![KEYS_SUB] != p + seq![INDEX_SUB],
        p + seq![KEYS_SUB] != p + seq![VALUES_SUB],
        p + seq![INDEX_SUB] != p + seq![VALUES_SUB],
{
    assert((p + seq![KEYS_SUB])[p.len() as int] == KEYS_SUB);
    assert((p + seq![INDEX_SUB])[p.len() as int] == INDEX_SUB);
    assert((p + seq![VALUES_SUB])[p.len() as int] == VALUES_SUB);
}

/// A persisted map from texts to integers with iteration over its keys.
pub struct UnorderedMap {
    prefix: Vec<u8>,
    keys: Vector,
    index_of: LookupMap,
    values: LookupMap,
}

impl View for UnorderedMap {
    type V = Map<Seq<char>, u64>;

    closed spec fn view(&self) -> Map<Seq<char>, u64> {
        self.values@
    }
}

impl UnorderedMap {
    /// The namespace this map owns.
    pub closed spec fn prefix_spec(self) -> Seq<u8> {
        self.prefix@
    }

    /// The live keys, in slot order.
    pub closed spec fn order(self) -> Seq<Seq<char>> {
        self.keys@
    }

    /// Which slot each live key lives in.
    pub closed spec fn index_spec(self) -> Map<Seq<char>, u64> {
        self.index_of@
    }

    /// The records of the three sides carry the map, and key list and
    /// index lookup form a bijection: the recorded slot of every live key
    /// holds that key, and every slot's key is recorded at that slot.
    pub closed spec fn wf(self, store: Store) -> bool {
        &&& store.wf()
        &&& self.keys.wf(store)
        &&& self.index_of.wf(store)
        &&& self.values.wf(store)
        &&& self.keys.prefix_spec() == self.prefix@ + seq![KEYS_SUB]
        &&& self.index_of.prefix_spec() == self.prefix@ + seq![INDEX_SUB]
        &&& self.values.prefix_spec() == self.prefix@ + seq![VALUES_SUB]
        &&& self.index_of@.dom() == self.values@.dom()
        &&& forall|k: Seq<char>|
            #[trigger] self.index_of@.contains_key(k) ==> self.index_of@[k] < self.keys@.len()
                && self.keys@[self.index_of@[k] as int] == k
        &&& forall|i: int|
            0 <= i < self.keys@.len() ==> self.index_of@.contains_key(#[trigger] self.keys@[i])
                && self.index_of@[self.keys@[i]] == i as u64
    }

    /// An empty map owning the fresh namespace `prefix`.
    pub fn new(prefix: Vec<u8>, store: &mut Store) -> (r: UnorderedMap)
        requires
            old(store).wf(),
            forall|k: Seq<u8>|
                #[trigger] is_under(prefix@, k) ==> !old(store).contents().contains_key(k),
        ensures
            r.wf(*final(store)),
            r@ == Map::<Seq<char>, u64>::empty(),
            r.order() == Seq::<Seq<char>>::empty(),
            r.prefix_spec() == prefix@,
            agrees_except_under(old(store).contents(), final(store).contents(), prefix@),
    {
        let kp = append(prefix.as_slice(), KEYS_SUB);
        let ip = append(prefix.as_slice(), INDEX_SUB);
        let vp = append(prefix.as_slice(), VALUES_SUB);
        proof {
            lemma_sub_prefixes(prefix@);
            assert(kp@ =~= prefix@ + seq![KEYS_SUB]);
            assert(ip@ =~= prefix@ + seq![INDEX_SUB]);
            assert(vp@ =~= prefix@ + seq![VALUES_SUB]);
            assert forall|k: Seq<u8>| #[trigger] is_under(kp@, k) implies !old(
                store,
            ).contents().contains_key(k) by {
                lemma_under_extension(prefix@, seq![KEYS_SUB], k);
            }
        }
        let keys = Vector::new(kp, store);
        proof {
            keys.lemma_wf_parts(*store);
            assert forall|k: Seq<u8>| #[trigger] is_under(ip@, k) implies !store
                .contents().contains_key(k) by {
                lemma_under_extension(prefix@, seq![INDEX_SUB], k);
                crate::keys::lemma_equal_len_prefixes_disjoint(
                    prefix@ + seq![KEYS_SUB],
                    ip@,
                    k,
                );
            }
            assert forall|k: Seq<u8>| #[trigger] is_under(vp@, k) implies !store
                .contents().contains_key(k) by {
                lemma_under_extension(prefix@, seq![VALUES_SUB], k);
                crate::keys::lemma_equal_len_prefixes_disjoint(
                    prefix@ + seq![KEYS_SUB],
                    vp@,
                    k,
                );
            }
        }
        let index_of = LookupMap::new(ip, store);
        let values = LookupMap::new(vp, store);
        let r = UnorderedMap { prefix, keys, index_of, values };
        proof {
            assert(r.index_of@.dom() =~= r.values@.dom());
            lemma_agrees_widen(
                old(store).contents(),
                store.contents(),
                r.prefix@,
                seq![KEYS_SUB],
            );
        }
        r
    }

    /// How many keys are live.
    pub fn len(&self, store: &Store) -> (n: u64)
        requires
            self.wf(*store),
        ensures
            n as nat == self.order().len(),
    {
        proof {
            self.keys.lemma_wf_parts(*store);
        }
        self.keys.len()
    }

    /// Reads the value under `key`, if any.
    pub fn get(&self, store: &Store, key: &str) -> (r: Option<u64>)
        requires
            self.wf(*store),
        ensures
            (match r {
                Option::Some(v) => self@.contains_key(key@) && self@[key@] == v,
                Option::None => !self@.contains_key(key@),
            }),
    {
        self.values.get(store, key)
    }

    /// Whether a value lies under `key`.
    pub fn contains(&self, store: &Store, key: &str) -> (r: bool)
        requires
            self.wf(*store),
        ensures
            r == self@.contains_key(key@),
    {
        self.values.contains(store, key)
    }

    /// Lays `value` under `key`: an existing key keeps its slot, a fresh
    /// key takes the next one.
    pub fn insert(&mut self, store: &mut Store, key: &str, value: u64) -> (prev: Option<u64>)
        requires
            old(self).wf(*old(store)),
            old(self).order().len() < 0xffff_ffff_ffff_ffff,
        ensures
            final(self).wf(*final(store)),
            final(self)@ == old(self)@.insert(key@, value),
            final(self).prefix_spec() == old(self).prefix_spec(),
            final(self).order() == (if old(self)@.contains_key(key@) {
                old(self).order()
            } else {
                old(self).order().push(key@)
            }),
            agrees_except_under(
                old(store).contents(),
                final(store).contents(),
                old(self).prefix_spec(),
            ),
            (match prev {
                Option::Some(v) => old(self)@.contains_key(key@) && old(self)@[key@] == v,
                Option::None => !old(self)@.contains_key(key@),
            }),
    {
        let ghost p = self.prefix@;
        match self.index_of.get(store, key) {
            Option::Some(_) => {
                let ghost s0 = *store;
                let prev = self.values.insert(store, key, value);
                proof {
                    lemma_sub_prefixes(p);
                    self.values.lemma_wf_store(*store);
                    self.keys.lemma_wf_frame(s0, *store, p + seq![VALUES_SUB]);
                    self.index_of.lemma_wf_frame(s0, *store, p + seq![VALUES_SUB]);
                    assert(self.values@.dom() =~= self.index_of@.dom());
                    lemma_agrees_widen(s0.contents(), store.contents(), p, seq![VALUES_SUB]);
                }
                prev
            },
            Option::None => {
                let ghost s0 = *store;
                proof {
                    self.keys.lemma_wf_parts(s0);
                }
                let idx = self.keys.len();
                self.keys.push(store, key);
                let ghost s1 = *store;
                proof {
                    lemma_sub_prefixes(p);
                    self.keys.lemma_wf_parts(s1);
                    self.index_of.lemma_wf_frame(s0, s1, p + seq![KEYS_SUB]);
                    self.values.lemma_wf_frame(s0, s1, p + seq![KEYS_SUB]);
                }
                self.index_of.insert(store, key, idx);
                let ghost s2 = *store;
                proof {
                    self.index_of.lemma_wf_store(s2);
                    self.keys.lemma_wf_frame(s1, s2, p + seq![INDEX_SUB]);
                    self.values.lemma_wf_frame(s1, s2, p + seq![INDEX_SUB]);
                }
                let prev = self.values.insert(store, key, value);
                proof {
                    self.values.lemma_wf_store(*store);
                    self.keys.lemma_wf_frame(s2, *store, p + seq![VALUES_SUB]);
                    self.index_of.lemma_wf_frame(s2, *store, p + seq![VALUES_SUB]);
                    assert(self.values@.dom() =~= self.index_of@.dom());
                    assert forall|k: Seq<char>| #[trigger] self.index_of@.contains_key(k) implies
                        self.index_of@[k] < self.keys@.len()
                        && self.keys@[self.index_of@[k] as int] == k by {
                        if k != key@ {
                            assert(old(self).index_of@.contains_key(k));
                        }
                    }
                    assert forall|i: int| 0 <= i < self.keys@.len() implies self
                        .index_of@.contains_key(#[trigger] self.keys@[i]) && self.index_of@[self
                        .keys@[i]] == i as u64 by {
                        if i < self.keys@.len() - 1 {
                            assert(self.keys@[i] == old(self).keys@[i]);
                            assert(old(self).index_of@.contains_key(self.keys@[i]));
                            assert(self.keys@[i] != key@);
                        }
                    }
                    lemma_agrees_widen(s0.contents(), s1.contents(), p, seq![KEYS_SUB]);
                    lemma_agrees_widen(s1.contents(), s2.contents(), p, seq![INDEX_SUB]);
                    lemma_agrees_widen(s2.contents(), store.contents(), p, seq![VALUES_SUB]);
                    lemma_agrees_trans(s0.contents(), s1.contents(), s2.contents(), p);
                    lemma_agrees_trans(s0.contents(), s2.contents(), store.contents(), p);
                }
                prev
            },
        }
    }

    /// Takes the value under `key` out.  The last slot's key moves into
    /// the freed slot and its record is repointed before anything else is
    /// forgotten; an absent key changes nothing.
    pub fn remove(&mut self, store: &mut Store, key: &str) -> (prev: Option<u64>)
        requires
            old(self).wf(*old(store)),
        ensures
            final(self).wf(*final(store)),
            final(self).prefix_spec() == old(self).prefix_spec(),
            agrees_except_under(
                old(store).contents(),
                final(store).contents(),
                old(self).prefix_spec(),
            ),
            (match prev {
                Option::Some(v) => old(self)@.contains_key(key@) && old(self)@[key@] == v
                    && final(self)@ == old(self)@.remove(key@) && final(self).order() == (if old(self).index_spec()[key@] as int + 1 == old(self).order().len() {
                    old(self).order().drop_last()
                } else {
                    old(self).order().update(
                        old(self).index_spec()[key@] as int,
                        old(self).order().last(),
                    ).drop_last()
                }),
                Option::None => !old(self)@.contains_key(key@) && final(self)@ == old(self)@
                    && final(self).order() == old(self).order() && final(store).contents() == old(
                    store,
                ).contents(),
            }),
    {
        let ghost p = self.prefix@;
        let i = match self.index_of.get(store, key) {
            Option::Some(i) => i,
            Option::None => {
                proof {
                    assert(!self.values@.contains_key(key@));
                }
                return Option::None;
            },
        };
        let ghost s0 = *store;
        self.keys.swap_remove(store, i);
        let ghost s1 = *store;
        proof {
            lemma_sub_prefixes(p);
            self.keys.lemma_wf_parts(s1);
            self.index_of.lemma_wf_frame(s0, s1, p + seq![KEYS_SUB]);
            self.values.lemma_wf_frame(s0, s1, p + seq![KEYS_SUB]);
        }
        let len_after = self.keys.len();
        let ghost s_mid = *store;
        if i < len_after {
            let moved = match self.keys.get(store, i) {
                Option::Some(m) => m,
                Option::None => {
                    proof {
                        assert(false);
                    }
                    return Option::None;
                },
            };
            self.index_of.insert(store, moved.as_str(), i);
            proof {
                self.index_of.lemma_wf_store(*store);
                self.keys.lemma_wf_frame(s1, *store, p + seq![INDEX_SUB]);
                self.values.lemma_wf_frame(s1, *store, p + seq![INDEX_SUB]);
            }
        }
        let ghost s2 = *store;
        self.index_of.remove(store, key);
        let ghost s3 = *store;
        proof {
            self.index_of.lemma_wf_store(s3);
            self.keys.lemma_wf_frame(s2, s3, p + seq![INDEX_SUB]);
            self.values.lemma_wf_frame(s2, s3, p + seq![INDEX_SUB]);
        }
        let prev = self.values.remove(store, key);
        proof {
            self.values.lemma_wf_store(*store);
            self.keys.lemma_wf_frame(s3, *store, p + seq![VALUES_SUB]);
            self.index_of.lemma_wf_frame(s3, *store, p + seq![VALUES_SUB]);
            let oldk = old(self).keys@;
            let oldi = old(self).index_of@;
            assert(oldk[i as int] == key@);
            assert(self.values@.dom() =~= self.index_of@.dom());
            assert forall|k: Seq<char>| #[trigger] self.index_of@.contains_key(k) implies self
                .index_of@[k] < self.keys@.len() && self.keys@[self.index_of@[k] as int] == k by {
                if i as int + 1 < oldk.len() && k == oldk.last() {
                } else {
                    assert(oldi.contains_key(k));
                    assert(oldi[k] != i);
                    assert(oldi[k] != oldk.len() - 1 || oldk.last() == k);
                }
            }
            assert forall|j: int| 0 <= j < self.keys@.len() implies self.index_of@.contains_key(
                #[trigger] self.keys@[j],
            ) && self.index_of@[self.keys@[j]] == j as u64 by {
                if j != i {
                    assert(self.keys@[j] == oldk[j]);
                    assert(oldi[oldk[j]] == j as u64);
                    assert(oldk[j] != key@);
                    if i as int + 1 < oldk.len() {
                        assert(oldk[j] != oldk.last());
                    }
                }
            }
            lemma_agrees_widen(s0.contents(), s1.contents(), p, seq![KEYS_SUB]);
            lemma_agrees_widen(s1.contents(), s2.contents(), p, seq![INDEX_SUB]);
            lemma_agrees_widen(s2.contents(), s3.contents(), p, seq![INDEX_SUB]);
            lemma_agrees_widen(s3.contents(), store.contents(), p, seq![VALUES_SUB]);
            lemma_agrees_trans(s0.contents(), s1.contents(), s2.contents(), p);
            lemma_agrees_trans(s0.contents(), s2.contents(), s3.contents(), p);
            lemma_agrees_trans(s0.contents(), s3.contents(), store.contents(), p);
        }
        prev
    }

    /// The live keys form a bijection with their recorded slots: the slot
    /// recorded for every live key holds exactly that key.
    pub proof fn lemma_bijection(self, store: Store)
        requires
            self.wf(store),
        ensures
            self.index_spec().dom() == self@.dom(),
            forall|k: Seq<char>|
                #[trigger] self@.contains_key(k) ==> self.index_spec().contains_key(k)
                    && self.index_spec()[k] < self.order().len()
                    && self.order()[self.index_spec()[k] as int] == k,
            forall|i: int|
                0 <= i < self.order().len() ==> self.index_spec().contains_key(
                    #[trigger] self.order()[i],
                ) && self.index_spec()[self.order()[i]] == i as u64,
    {
    }

    /// The slot list counts the map: it holds each live key exactly once,
    /// so its length is the number of live keys.
    pub proof fn lemma_len_counts(self, store: Store)
        requires
            self.wf(store),
        ensures
            self.order().no_duplicates(),
            self@.dom() == self.order().to_set(),
            self@.dom().len() == self.order().len(),
    {
        self.keys.lemma_wf_parts(store);
        assert forall|i: int, j: int|
            0 <= i < self.order().len() && 0 <= j < self.order().len() && i != j implies self
            .order()[i] != self.order()[j] by {
            assert(self.index_of@[self.keys@[i]] == i as u64);
            assert(self.index_of@[self.keys@[j]] == j as u64);
        }
        assert forall|k: Seq<char>| #[trigger] self@.dom().contains(k) implies self
            .order().to_set().contains(k) by {
            assert(self.index_of@.contains_key(k));
            assert(self.keys@[self.index_of@[k] as int] == k);
            assert(self.keys@.contains(k));
        }
        assert forall|k: Seq<char>| #[trigger] self.order().to_set().contains(k) implies self
            @.dom().contains(k) by {
            let i = choose|i: int| 0 <= i < self.keys@.len() && self.keys@[i] == k;
            assert(self.index_of@.contains_key(self.keys@[i]));
        }
        assert(self@.dom() =~= self.order().to_set());
        self.order().unique_seq_to_set();
    }

    /// Reads every live pair, in slot order.
    pub fn to_vec(&self, store: &Store) -> (r: Vec<(String, u64)>)
        requires
            self.wf(*store),
        ensures
            r@.len() == self.order().len(),
            forall|j: int|
                0 <= j < r@.len() ==> (#[trigger] r@[j]).0@ == self.order()[j] && r@[j].1
                    == self@[self.order()[j]],
    {
        proof {
            self.keys.lemma_wf_parts(*store);
        }
        let mut r: Vec<(String, u64)> = Vec::new();
        let n = self.keys.len();
        let mut j: u64 = 0;
        while j < n
            invariant
                self.wf(*store),
                n as nat == self.order().len(),
                j <= n,
                r@.len() == j as nat,
                forall|t: int|
                    0 <= t < r@.len() ==> (#[trigger] r@[t]).0@ == self.order()[t] && r@[t].1
                        == self@[self.order()[t]],
            decreases n - j,
        {
            let k = match self.keys.get(store, j) {
                Option::Some(k) => k,
                Option::None => {
                    proof {
                        assert(false);
                    }
                    return r;
                },
            };
            let v = match self.values.get(store, k.as_str()) {
                Option::Some(v) => v,
                Option::None => {
                    proof {
                        assert(false);
                    }
                    return r;
                },
            };
            r.push((k, v));
            j = j + 1;
        }
        r
    }
}

} // verus!
