//! The lookup set: direct membership records on the store.
//!
//! Like the lookup map, it offers no iteration: one record per member,
//! one storage access per operation.

use vstd::prelude::*;
use vstd::map::*;
use vstd::assert_sets_equal;
use crate::store::Store;
use crate::keys::{is_under, agrees_except_under, append_slice};
use crate::codec::{enc_str, encode_str, lemma_enc_str_injective};

verus! {

/// Tag byte of a member record.
pub const MEMBER_TAG: u8 = 0;

/// A persisted set of texts, one record per member.
pub struct LookupSet {
    prefix: Vec<u8>,
    model: Ghost<Set<Seq<char>>>,
}

impl View for LookupSet {
    type V = Set<Seq<char>>;

    closed spec fn view(&self) -> Set<Seq<char>> {
        self.model@
    }
}

impl LookupSet {
    /// The namespace this set owns.
    pub closed spec fn prefix_spec(self) -> Seq<u8> {
        self.prefix@
    }

    /// The key of the record holding `k`.
    pub closed spec fn member_key(self, k: Seq<char>) -> Seq<u8> {
        self.prefix@ + (seq![MEMBER_TAG] + enc_str(k))
    }

    /// The set's records in `store` mark exactly its members.
    pub closed spec fn wf(self, store: Store) -> bool {
        &&& store.wf()
        &&& forall|k: Seq<char>|
            store.contents().contains_key(#[trigger] self.member_key(k)) == self.model@.contains(k)
    }

    /// Every member record key lies under the prefix, and distinct members
    /// give distinct record keys.
    proof fn lemma_keys(self)
        ensures
            forall|k: Seq<char>| is_under(self.prefix_spec(), #[trigger] self.member_key(k)),
            forall|k1: Seq<char>, k2: Seq<char>|
                k1 != k2 ==> #[trigger] self.member_key(k1) != #[trigger] self.member_key(k2),
    {
        assert forall|k: Seq<char>| is_under(self.prefix_spec(), #[trigger] self.member_key(k)) by {
            crate::keys::lemma_derived_is_under(self.prefix@, seq![MEMBER_TAG] + enc_str(k));
        }
        assert forall|k1: Seq<char>, k2: Seq<char>| k1 != k2 implies #[trigger] self.member_key(k1)
            != #[trigger] self.member_key(k2) by {
            if self.member_key(k1) == self.member_key(k2) {
                let p = self.prefix@;
                let s1 = seq![MEMBER_TAG] + enc_str(k1);
                let s2 = seq![MEMBER_TAG] + enc_str(k2);
                assert(s1 =~= (p + s1).subrange(p.len() as int, (p + s1).len() as int));
                assert(s2 =~= (p + s2).subrange(p.len() as int, (p + s2).len() as int));
                assert(enc_str(k1) =~= s1.subrange(1, s1.len() as int));
                assert(enc_str(k2) =~= s2.subrange(1, s2.len() as int));
                lemma_enc_str_injective(k1, k2);
            }
        }
    }

    /// The record key of `k`, executable form.
    fn member_key_exec(&self, k: &str) -> (r: Vec<u8>)
        ensures
            r@ == self.member_key(k@),
    {
        let mut suffix: Vec<u8> = Vec::new();
        suffix.push(MEMBER_TAG);
        let body = encode_str(k);
        suffix.extend_from_slice(body.as_slice());
        let r = append_slice(self.prefix.as_slice(), suffix.as_slice());
        proof {
            assert(suffix@ =~= seq![MEMBER_TAG] + enc_str(k@));
        }
        r
    }

    /// An empty set owning the fresh namespace `prefix`.
    pub fn new(prefix: Vec<u8>, store: &Store) -> (r: LookupSet)
        requires
            store.wf(),
            forall|k: Seq<u8>|
                #[trigger] is_under(prefix@, k) ==> !store.contents().contains_key(k),
        ensures
            r.wf(*store),
            r@ == Set::<Seq<char>>::empty(),
            r.prefix_spec() == prefix@,
    {
        let r = LookupSet { prefix, model: Ghost(Set::empty()) };
        proof {
            r.lemma_keys();
        }
        r
    }

    /// Whether `k` is a member.
    pub fn contains(&self, store: &Store, k: &str) -> (r: bool)
        requires
            self.wf(*store),
        ensures
            r == self@.contains(k@),
    {
        let mk = self.member_key_exec(k);
        store.has(mk.as_slice())
    }

    /// Puts `k` in; hands back whether it was new.
    pub fn insert(&mut self, store: &mut Store, k: &str) -> (fresh: bool)
        requires
            old(self).wf(*old(store)),
        ensures
            final(self).wf(*final(store)),
            final(self)@ == old(self)@.insert(k@),
            final(self).prefix_spec() == old(self).prefix_spec(),
            fresh == !old(self)@.contains(k@),
            agrees_except_under(
                old(store).contents(),
                final(store).contents(),
                old(self).prefix_spec(),
            ),
    {
        let fresh = !self.contains(store, k);
        let mk = self.member_key_exec(k);
        let marker: Vec<u8> = Vec::new();
        store.set(mk.as_slice(), marker.as_slice());
        proof {
            self.model@ = self.model@.insert(k@);
            self.lemma_keys();
            assert(forall|x: Seq<char>| old(self).member_key(x) == #[trigger] self.member_key(x));
            assert forall|x: Seq<char>| store.contents().contains_key(#[trigger] self.member_key(x))
                == self.model@.contains(x) by {
                if x != k@ {
                    assert(self.member_key(x) != self.member_key(k@));
                }
            }
            assert forall|sk: Seq<u8>| !(#[trigger] is_under(old(self).prefix_spec(), sk)) implies
                ((old(store).contents().contains_key(sk) <==> store.contents().contains_key(sk))
                && (old(store).contents().contains_key(sk) ==> old(store).contents()[sk]
                == store.contents()[sk])) by {
                assert(sk != self.member_key(k@));
            }
        }
        fresh
    }

    /// Takes `k` out; hands back whether it was there.
    pub fn remove(&mut self, store: &mut Store, k: &str) -> (present: bool)
        requires
            old(self).wf(*old(store)),
        ensures
            final(self).wf(*final(store)),
            final(self)@ == old(self)@.remove(k@),
            final(self).prefix_spec() == old(self).prefix_spec(),
            present == old(self)@.contains(k@),
            !present ==> final(store).contents() == old(store).contents(),
            agrees_except_under(
                old(store).contents(),
                final(store).contents(),
                old(self).prefix_spec(),
            ),
    {
        let present = self.contains(store, k);
        let mk = self.member_key_exec(k);
        store.remove(mk.as_slice());
        proof {
            if !self.model@.contains(k@) {
                assert_maps_equal!(
                    old(store).contents().remove(old(self).member_key(k@)),
                    old(store).contents()
                );
                assert_sets_equal!(self.model@.remove(k@), self.model@);
            }
            self.model@ = self.model@.remove(k@);
            self.lemma_keys();
            assert(forall|x: Seq<char>| old(self).member_key(x) == #[trigger] self.member_key(x));
            assert forall|x: Seq<char>| store.contents().contains_key(#[trigger] self.member_key(x))
                == self.model@.contains(x) by {
                if x != k@ {
                    assert(self.member_key(x) != self.member_key(k@));
                }
            }
            assert forall|sk: Seq<u8>| !(#[trigger] is_under(old(self).prefix_spec(), sk)) implies
                ((old(store).contents().contains_key(sk) <==> store.contents().contains_key(sk))
                && (old(store).contents().contains_key(sk) ==> old(store).contents()[sk]
                == store.contents()[sk])) by {
                assert(sk != self.member_key(k@));
            }
        }
        present
    }
}

} // verus!
