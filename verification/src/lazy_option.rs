//! The lazy option: one optional value under one record.
//!
//! The value is read from storage only when asked for; absence of the
//! record is absence of the value.

use vstd::prelude::*;
use crate::store::Store;
use crate::keys::{is_under, agrees_except_under, append};
use crate::codec::{enc_str, encode_str, decode_str, lemma_str_round_trip};

verus! {

/// Tag byte of the value record.
pub const VALUE_TAG: u8 = 0;

/// A persisted optional text.
pub struct LazyOption {
    prefix: Vec<u8>,
    model: Ghost<Option<Seq<char>>>,
}

impl View for LazyOption {
    type V = Option<Seq<char>>;

    closed spec fn view(&self) -> Option<Seq<char>> {
        self.model@
    }
}

impl LazyOption {
    /// The namespace this value owns.
    pub closed spec fn prefix_spec(self) -> Seq<u8> {
        self.prefix@
    }

    /// The key of the value record.
    pub closed spec fn value_key(self) -> Seq<u8> {
        self.prefix@ + seq![VALUE_TAG]
    }

    /// The record in `store` carries exactly the value, when one is held.
    pub closed spec fn wf(self, store: Store) -> bool {
        &&& store.wf()
        &&& (match self.model@ {
            Option::Some(s) => store.contents().contains_key(self.value_key())
                && store.contents()[self.value_key()] == enc_str(s),
            Option::None => !store.contents().contains_key(self.value_key()),
        })
    }

    /// An empty holder owning the fresh namespace `prefix`.
    pub fn new(prefix: Vec<u8>, store: &Store) -> (r: LazyOption)
        requires
            store.wf(),
            forall|k: Seq<u8>|
                #[trigger] is_under(prefix@, k) ==> !store.contents().contains_key(k),
        ensures
            r.wf(*store),
            r@ == Option::<Seq<char>>::None,
            r.prefix_spec() == prefix@,
    {
        let r = LazyOption { prefix, model: Ghost(Option::None) };
        proof {
            crate::keys::lemma_derived_is_under(r.prefix@, seq![VALUE_TAG]);
        }
        r
    }

    /// Whether a value is held.
    pub fn is_some(&self, store: &Store) -> (r: bool)
        requires
            self.wf(*store),
        ensures
            r == (self@ is Some),
    {
        let vk = append(self.prefix.as_slice(), VALUE_TAG);
        proof {
            assert(vk@ =~= self.value_key());
        }
        store.has(vk.as_slice())
    }

    /// Reads the held value, if any.
    pub fn get(&self, store: &Store) -> (r: Option<String>)
        requires
            self.wf(*store),
        ensures
            (match r {
                Option::Some(s) => self@ == Option::Some(s@),
                Option::None => self@ is None,
            }),
    {
        let vk = append(self.prefix.as_slice(), VALUE_TAG);
        proof {
            assert(vk@ =~= self.value_key());
        }
        match store.get(vk.as_slice()) {
            Option::Some(bytes) => {
                proof {
                    lemma_str_round_trip(self@.unwrap());
                }
                decode_str(&bytes)
            },
            Option::None => Option::None,
        }
    }

    /// Lays a value down, replacing what was held.
    pub fn set(&mut self, store: &mut Store, value: &str)
        requires
            old(self).wf(*old(store)),
        ensures
            final(self).wf(*final(store)),
            final(self)@ == Option::Some(value@),
            final(self).prefix_spec() == old(self).prefix_spec(),
            agrees_except_under(
                old(store).contents(),
                final(store).contents(),
                old(self).prefix_spec(),
            ),
    {
        let vk = append(self.prefix.as_slice(), VALUE_TAG);
        let body = encode_str(value);
        proof {
            assert(vk@ =~= self.value_key());
        }
        store.set(vk.as_slice(), body.as_slice());
        proof {
            self.model@ = Option::Some(value@);
            crate::keys::lemma_derived_is_under(self.prefix@, seq![VALUE_TAG]);
            assert forall|sk: Seq<u8>| !(#[trigger] is_under(old(self).prefix_spec(), sk)) implies
                ((old(store).contents().contains_key(sk) <==> store.contents().contains_key(sk))
                && (old(store).contents().contains_key(sk) ==> old(store).contents()[sk]
                == store.contents()[sk])) by {
                assert(sk != self.value_key());
            }
        }
    }

    /// Takes the held value out, leaving nothing.
    pub fn take(&mut self, store: &mut Store) -> (r: Option<String>)
        requires
            old(self).wf(*old(store)),
        ensures
            final(self).wf(*final(store)),
            final(self)@ == Option::<Seq<char>>::None,
            final(self).prefix_spec() == old(self).prefix_spec(),
            agrees_except_under(
                old(store).contents(),
                final(store).contents(),
                old(self).prefix_spec(),
            ),
            (match r {
                Option::Some(s) => old(self)@ == Option::Some(s@),
                Option::None => old(self)@ is None,
            }),
    {
        let r = self.get(store);
        let vk = append(self.prefix.as_slice(), VALUE_TAG);
        proof {
            assert(vk@ =~= self.value_key());
        }
        store.remove(vk.as_slice());
        proof {
            self.model@ = Option::None;
            crate::keys::lemma_derived_is_under(self.prefix@, seq![VALUE_TAG]);
            assert forall|sk: Seq<u8>| !(#[trigger] is_under(old(self).prefix_spec(), sk)) implies
                ((old(store).contents().contains_key(sk) <==> store.contents().contains_key(sk))
                && (old(store).contents().contains_key(sk) ==> old(store).contents()[sk]
                == store.contents()[sk])) by {
                assert(sk != self.value_key());
            }
        }
        r
    }
}

} // verus!
