//! The persisted vector: a dense, index-addressed sequence.
//!
//! The length lies under a dedicated metadata key; element `i` lies under
//! the key derived from `i` for every `i` below the length, and no entry
//! lies at or above the length.  Removal is swap-based: the last element
//! moves into the freed slot, so one removal costs a constant number of
//! storage accesses.

use vstd::prelude::*;
use crate::store::Store;
use crate::keys::{is_under, agrees_except_under, append, append_slice, lemma_agrees_trans};
use crate::codec::{le8, enc_str, encode_u64, encode_str, decode_str, lemma_le8_injective,
    lemma_str_round_trip};

verus! {

/// Tag byte of the length record.
pub const LEN_TAG: u8 = 0;

/// Tag byte of an element record.
pub const ELEM_TAG: u8 = 1;

/// A persisted vector of texts.
pub struct Vector {
    prefix: Vec<u8>,
    length: u64,
    model: Ghost<Seq<Seq<char>>>,
}

impl View for Vector {
    type V = Seq<Seq<char>>;

    closed spec fn view(&self) -> Seq<Seq<char>> {
        self.model@
    }
}

impl Vector {
    /// The namespace this vector owns.
    pub closed spec fn prefix_spec(self) -> Seq<u8> {
        self.prefix@
    }

    /// The key of the length record.
    pub closed spec fn len_key(self) -> Seq<u8> {
        self.prefix@ + seq![LEN_TAG]
    }

    /// The key of element record `i`.
    pub closed spec fn elem_key(self, i: u64) -> Seq<u8> {
        self.prefix@ + (seq![ELEM_TAG] + le8(i))
    }

    /// The cached length agrees with the model.
    pub closed spec fn ok(self) -> bool {
        self.length as nat == self.model@.len()
    }

    /// The vector's records in `store` carry exactly its model: the length
    /// under the length key, element `i` under its key for `i` below the
    /// length, nothing at or above it.
    pub closed spec fn wf(self, store: Store) -> bool {
        &&& store.wf()
        &&& self.ok()
        &&& store.contents().contains_key(self.len_key())
        &&& store.contents()[self.len_key()] == le8(self.length)
        &&& forall|i: u64|
            i < self.model@.len() ==> store.contents().contains_key(#[trigger] self.elem_key(i))
                && store.contents()[self.elem_key(i)] == enc_str(self.model@[i as int])
        &&& forall|i: u64|
            i >= self.model@.len() ==> !store.contents().contains_key(#[trigger] self.elem_key(i))
    }

    /// Every key this vector reads or writes lies under its prefix, the
    /// length key is no element key, and distinct indices give distinct
    /// keys.
    proof fn lemma_keys(self)
        ensures
            is_under(self.prefix_spec(), self.len_key()),
            forall|i: u64| is_under(self.prefix_spec(), #[trigger] self.elem_key(i)),
            forall|i: u64| self.len_key() != #[trigger] self.elem_key(i),
            forall|i: u64, j: u64| i != j ==> #[trigger] self.elem_key(i) != #[trigger] self.elem_key(j),
    {
        assert forall|i: u64| is_under(self.prefix_spec(), #[trigger] self.elem_key(i)) by {
            crate::keys::lemma_derived_is_under(self.prefix@, seq![ELEM_TAG] + le8(i));
        }
        crate::keys::lemma_derived_is_under(self.prefix@, seq![LEN_TAG]);
        assert forall|i: u64| self.len_key() != #[trigger] self.elem_key(i) by {
            assert(self.len_key().len() == self.prefix@.len() + 1);
            assert(self.elem_key(i).len() == self.prefix@.len() + 9);
        }
        assert forall|i: u64, j: u64| i != j implies #[trigger] self.elem_key(i)
            != #[trigger] self.elem_key(j) by {
            if self.elem_key(i) == self.elem_key(j) {
                let p = self.prefix@;
                let si = seq![ELEM_TAG] + le8(i);
                let sj = seq![ELEM_TAG] + le8(j);
                assert(si =~= (p + si).subrange(p.len() as int, p.len() as int + 9));
                assert(sj =~= (p + sj).subrange(p.len() as int, p.len() as int + 9));
                assert(le8(i) =~= si.subrange(1, 9));
                assert(le8(j) =~= sj.subrange(1, 9));
                lemma_le8_injective(i, j);
            }
        }
    }

    /// The vector is dense: the stored length record counts exactly the
    /// live elements, an element record exists exactly at the indices
    /// below it, and each one decodes to the element it holds.
    pub proof fn lemma_dense(self, store: Store)
        requires
            self.wf(store),
        ensures
            store.contents().contains_key(self.len_key()),
            crate::codec::dec_u64(store.contents()[self.len_key()]) == Option::Some(
                self@.len() as u64,
            ),
            forall|i: u64|
                store.contents().contains_key(#[trigger] self.elem_key(i)) <==> (i as nat)
                    < self@.len(),
            forall|i: u64|
                (i as nat) < self@.len() ==> crate::codec::dec_str(
                    store.contents()[#[trigger] self.elem_key(i)],
                ) == Option::Some(self@[i as int]),
    {
        crate::codec::lemma_u64_round_trip(self.length);
        assert forall|i: u64| (i as nat) < self@.len() implies crate::codec::dec_str(
            store.contents()[#[trigger] self.elem_key(i)],
        ) == Option::Some(self@[i as int]) by {
            lemma_str_round_trip(self@[i as int]);
        }
    }

    /// A well-formed vector stands in a well-formed store, with its cached
    /// length agreeing with its model.
    pub proof fn lemma_wf_parts(self, store: Store)
        requires
            self.wf(store),
        ensures
            store.wf(),
            self.ok(),
            self@.len() <= 0xffff_ffff_ffff_ffff,
    {
    }

    /// A step of another collection leaves this vector's records alone:
    /// its namespace is a sibling of the same length.
    pub proof fn lemma_wf_frame(self, s1: Store, s2: Store, q: Seq<u8>)
        requires
            self.wf(s1),
            s2.wf(),
            agrees_except_under(s1.contents(), s2.contents(), q),
            q.len() == self.prefix_spec().len(),
            q != self.prefix_spec(),
        ensures
            self.wf(s2),
    {
        self.lemma_keys();
        crate::keys::lemma_equal_len_prefixes_disjoint(q, self.prefix_spec(), self.len_key());
        assert forall|i: u64|
            (i < self.model@.len() ==> s2.contents().contains_key(#[trigger] self.elem_key(i))
                && s2.contents()[self.elem_key(i)] == enc_str(self.model@[i as int])) && (i
            >= self.model@.len() ==> !s2.contents().contains_key(self.elem_key(i))) by {
            crate::keys::lemma_equal_len_prefixes_disjoint(q, self.prefix_spec(), self.elem_key(i));
        }
    }

    /// The length key, executable form.
    fn len_key_exec(&self) -> (r: Vec<u8>)
        ensures
            r@ == self.len_key(),
    {
        append(self.prefix.as_slice(), LEN_TAG)
    }

    /// The key of element record `i`, executable form.
    fn elem_key_exec(&self, i: u64) -> (r: Vec<u8>)
        ensures
            r@ == self.elem_key(i),
    {
        let mut suffix: Vec<u8> = Vec::new();
        suffix.push(ELEM_TAG);
        let body = encode_u64(i);
        suffix.extend_from_slice(body.as_slice());
        let r = append_slice(self.prefix.as_slice(), suffix.as_slice());
        proof {
            assert(suffix@ =~= seq![ELEM_TAG] + le8(i));
        }
        r
    }

    /// An empty vector owning the fresh namespace `prefix`.
    pub fn new(prefix: Vec<u8>, store: &mut Store) -> (r: Vector)
        requires
            old(store).wf(),
            forall|k: Seq<u8>|
                #[trigger] is_under(prefix@, k) ==> !old(store).contents().contains_key(k),
        ensures
            r.wf(*final(store)),
            r@ == Seq::<Seq<char>>::empty(),
            r.prefix_spec() == prefix@,
            agrees_except_under(old(store).contents(), final(store).contents(), prefix@),
    {
        let r = Vector { prefix, length: 0, model: Ghost(Seq::empty()) };
        let lk = r.len_key_exec();
        let body = encode_u64(0);
        store.set(lk.as_slice(), body.as_slice());
        proof {
            r.lemma_keys();
        }
        r
    }

    /// How many elements live in the vector.
    pub fn len(&self) -> (n: u64)
        requires
            self.ok(),
        ensures
            n as nat == self@.len(),
    {
        self.length
    }

    /// Reads element `index`; there is one exactly when `index` is below
    /// the length.
    pub fn get(&self, store: &Store, index: u64) -> (r: Option<String>)
        requires
            self.wf(*store),
        ensures
            (match r {
                Option::Some(s) => index < self@.len() && s@ == self@[index as int],
                Option::None => index >= self@.len(),
            }),
    {
        if index >= self.length {
            return Option::None;
        }
        let key = self.elem_key_exec(index);
        match store.get(key.as_slice()) {
            Option::Some(bytes) => {
                proof {
                    lemma_str_round_trip(self@[index as int]);
                }
                match decode_str(&bytes) {
                    Option::Some(s) => Option::Some(s),
                    Option::None => Option::None,
                }
            },
            Option::None => Option::None,
        }
    }

    /// Appends `value`, handing back its index.
    pub fn push(&mut self, store: &mut Store, value: &str) -> (index: u64)
        requires
            old(self).wf(*old(store)),
            old(self)@.len() < 0xffff_ffff_ffff_ffff,
        ensures
            final(self).wf(*final(store)),
            final(self)@ == old(self)@.push(value@),
            final(self).prefix_spec() == old(self).prefix_spec(),
            index as nat == old(self)@.len(),
            agrees_except_under(
                old(store).contents(),
                final(store).contents(),
                old(self).prefix_spec(),
            ),
    {
        let index = self.length;
        let ek = self.elem_key_exec(index);
        let body = encode_str(value);
        store.set(ek.as_slice(), body.as_slice());
        let lk = self.len_key_exec();
        let lbody = encode_u64(index + 1);
        store.set(lk.as_slice(), lbody.as_slice());
        self.length = index + 1;
        proof {
            self.model@ = self.model@.push(value@);
            self.lemma_keys();
            let p = old(self).prefix_spec();
            assert(forall|i: u64| old(self).elem_key(i) == #[trigger] self.elem_key(i));
            assert(old(self).len_key() == self.len_key());
            assert(ek@ == self.elem_key(index));
            assert(lk@ == self.len_key());
            assert(store.contents() == old(store).contents().insert(
                self.elem_key(index),
                enc_str(value@),
            ).insert(self.len_key(), le8(self.length)));
            assert forall|i: u64| i < self.model@.len() implies store.contents().contains_key(
                #[trigger] self.elem_key(i),
            ) && store.contents()[self.elem_key(i)] == enc_str(self.model@[i as int]) by {
                assert(self.elem_key(i) != self.len_key());
                if i < index {
                    assert(self.elem_key(i) != self.elem_key(index));
                }
            }
            assert forall|i: u64| i >= self.model@.len() implies !store.contents().contains_key(
                #[trigger] self.elem_key(i),
            ) by {
                assert(self.elem_key(i) != self.elem_key(index));
                assert(self.elem_key(i) != self.len_key());
            }
            assert forall|k: Seq<u8>| !(#[trigger] is_under(p, k)) implies ((old(
                store,
            ).contents().contains_key(k) <==> store.contents().contains_key(k)) && (old(
                store,
            ).contents().contains_key(k) ==> old(store).contents()[k] == store.contents()[k])) by {
                assert(k != self.elem_key(index));
                assert(k != self.len_key());
            }
        }
        index
    }

    /// Overwrites element `index`, which must exist.
    pub fn set(&mut self, store: &mut Store, index: u64, value: &str)
        requires
            old(self).wf(*old(store)),
            index < old(self)@.len(),
        ensures
            final(self).wf(*final(store)),
            final(self)@ == old(self)@.update(index as int, value@),
            final(self).prefix_spec() == old(self).prefix_spec(),
            agrees_except_under(
                old(store).contents(),
                final(store).contents(),
                old(self).prefix_spec(),
            ),
    {
        let ek = self.elem_key_exec(index);
        let body = encode_str(value);
        store.set(ek.as_slice(), body.as_slice());
        proof {
            self.model@ = self.model@.update(index as int, value@);
            self.lemma_keys();
            let p = old(self).prefix_spec();
            assert(forall|i: u64| old(self).elem_key(i) == #[trigger] self.elem_key(i));
            assert(old(self).len_key() == self.len_key());
            assert(ek@ == self.elem_key(index));
            assert forall|i: u64| i < self.model@.len() implies store.contents().contains_key(
                #[trigger] self.elem_key(i),
            ) && store.contents()[self.elem_key(i)] == enc_str(self.model@[i as int]) by {
                assert(self.elem_key(i) != self.len_key());
                if i != index {
                    assert(self.elem_key(i) != self.elem_key(index));
                }
            }
            assert forall|i: u64| i >= self.model@.len() implies !store.contents().contains_key(
                #[trigger] self.elem_key(i),
            ) by {
                assert(self.elem_key(i) != self.elem_key(index));
            }
            assert forall|k: Seq<u8>| !(#[trigger] is_under(p, k)) implies ((old(
                store,
            ).contents().contains_key(k) <==> store.contents().contains_key(k)) && (old(
                store,
            ).contents().contains_key(k) ==> old(store).contents()[k] == store.contents()[k])) by {
                assert(k != self.elem_key(index));
            }
        }
    }

    /// Takes element `index` out, moving the last element into its slot;
    /// there is one exactly when `index` is below the length.
    pub fn swap_remove(&mut self, store: &mut Store, index: u64) -> (r: Option<String>)
        requires
            old(self).wf(*old(store)),
        ensures
            final(self).wf(*final(store)),
            final(self).prefix_spec() == old(self).prefix_spec(),
            agrees_except_under(
                old(store).contents(),
                final(store).contents(),
                old(self).prefix_spec(),
            ),
            (match r {
                Option::Some(s) => index < old(self)@.len() && s@ == old(self)@[index as int]
                    && final(self)@ == (if index + 1 == old(self)@.len() {
                    old(self)@.drop_last()
                } else {
                    old(self)@.update(index as int, old(self)@.last()).drop_last()
                }),
                Option::None => index >= old(self)@.len() && final(self)@ == old(self)@ && final(store).contents() == old(store).contents(),
            }),
    {
        if index >= self.length {
            return Option::None;
        }
        proof {
            self.lemma_keys();
        }
        let last_index = self.length - 1;
        let last_key = self.elem_key_exec(last_index);
        let last_bytes = match store.remove(last_key.as_slice()) {
            Option::Some(b) => b,
            Option::None => {
                proof {
                    assert(false);
                }
                return Option::None;
            },
        };
        let result;
        if index < last_index {
            let target_key = self.elem_key_exec(index);
            let old_bytes = match store.get(target_key.as_slice()) {
                Option::Some(b) => b,
                Option::None => {
                    proof {
                        assert(false);
                    }
                    return Option::None;
                },
            };
            proof {
                lemma_str_round_trip(self@[index as int]);
            }
            result = match decode_str(&old_bytes) {
                Option::Some(s) => s,
                Option::None => {
                    proof {
                        assert(false);
                    }
                    return Option::None;
                },
            };
            store.set(target_key.as_slice(), last_bytes.as_slice());
        } else {
            proof {
                lemma_str_round_trip(self@[index as int]);
            }
            result = match decode_str(&last_bytes) {
                Option::Some(s) => s,
                Option::None => {
                    proof {
                        assert(false);
                    }
                    return Option::None;
                },
            };
        }
        let lk = self.len_key_exec();
        let lbody = encode_u64(last_index);
        store.set(lk.as_slice(), lbody.as_slice());
        self.length = last_index;
        proof {
            if index == last_index {
                self.model@ = self.model@.drop_last();
            } else {
                self.model@ = self.model@.update(index as int, self.model@.last()).drop_last();
            }
            self.lemma_keys();
            let p = old(self).prefix_spec();
            assert(forall|i: u64| old(self).elem_key(i) == #[trigger] self.elem_key(i));
            assert(old(self).len_key() == self.len_key());
            assert forall|i: u64| i < self.model@.len() implies store.contents().contains_key(
                #[trigger] self.elem_key(i),
            ) && store.contents()[self.elem_key(i)] == enc_str(self.model@[i as int]) by {
                assert(self.elem_key(i) != self.len_key());
                assert(self.elem_key(i) != self.elem_key(last_index));
                if i != index {
                    assert(self.elem_key(i) != self.elem_key(index));
                }
            }
            assert forall|i: u64| i >= self.model@.len() implies !store.contents().contains_key(
                #[trigger] self.elem_key(i),
            ) by {
                assert(self.elem_key(i) != self.len_key());
                if i != last_index {
                    assert(self.elem_key(i) != self.elem_key(last_index));
                }
                if i != index {
                    assert(self.elem_key(i) != self.elem_key(index));
                }
            }
            assert forall|k: Seq<u8>| !(#[trigger] is_under(p, k)) implies ((old(
                store,
            ).contents().contains_key(k) <==> store.contents().contains_key(k)) && (old(
                store,
            ).contents().contains_key(k) ==> old(store).contents()[k] == store.contents()[k])) by {
                assert(k != self.elem_key(index));
                assert(k != self.elem_key(last_index));
                assert(k != self.len_key());
            }
        }
        Option::Some(result)
    }

    /// Takes the last element out; there is one exactly when the vector is
    /// not empty.
    pub fn pop(&mut self, store: &mut Store) -> (r: Option<String>)
        requires
            old(self).wf(*old(store)),
        ensures
            final(self).wf(*final(store)),
            final(self).prefix_spec() == old(self).prefix_spec(),
            agrees_except_under(
                old(store).contents(),
                final(store).contents(),
                old(self).prefix_spec(),
            ),
            (match r {
                Option::Some(s) => old(self)@.len() > 0 && s@ == old(self)@.last() && final(self)@
                    == old(self)@.drop_last(),
                Option::None => old(self)@.len() == 0 && final(self)@ == old(self)@ && final(store).contents() == old(store).contents(),
            }),
    {
        if self.length == 0 {
            return Option::None;
        }
        self.swap_remove(store, self.length - 1)
    }

    /// Takes every element out and resets the length.
    pub fn clear(&mut self, store: &mut Store)
        requires
            old(self).wf(*old(store)),
        ensures
            final(self).wf(*final(store)),
            final(self)@ == Seq::<Seq<char>>::empty(),
            final(self).prefix_spec() == old(self).prefix_spec(),
            agrees_except_under(
                old(store).contents(),
                final(store).contents(),
                old(self).prefix_spec(),
            ),
    {
        while self.length > 0
            invariant
                self.wf(*store),
                self.prefix_spec() == old(self).prefix_spec(),
                agrees_except_under(
                    old(store).contents(),
                    store.contents(),
                    old(self).prefix_spec(),
                ),
            decreases self.length,
        {
            let ghost mid = store.contents();
            self.pop(store);
            proof {
                lemma_agrees_trans(
                    old(store).contents(),
                    mid,
                    store.contents(),
                    old(self).prefix_spec(),
                );
            }
        }
        proof {
            assert(self@ =~= Seq::<Seq<char>>::empty());
        }
    }

    /// Reads every element, in index order.
    pub fn to_vec(&self, store: &Store) -> (r: Vec<String>)
        requires
            self.wf(*store),
        ensures
            r.deep_view() == self@,
    {
        let mut r: Vec<String> = Vec::new();
        let n = self.length;
        let mut i: u64 = 0;
        while i < n
            invariant
                self.wf(*store),
                n == self.length,
                i <= n,
                r.deep_view() == self@.take(i as int),
            decreases n - i,
        {
            let ghost prev = r@;
            let ghost prev_dv = r.deep_view();
            match self.get(store, i) {
                Option::Some(s) => {
                    r.push(s);
                },
                Option::None => {
                    proof {
                        assert(false);
                    }
                },
            }
            proof {
                assert(prev_dv.len() == prev.len());
                assert forall|k: int| 0 <= k < r@.len() implies r.deep_view()[k] == self@.take(
                    i + 1,
                )[k] by {
                    if k < i {
                        assert(prev_dv[k] == prev[k].deep_view());
                        assert(r.deep_view()[k] == r@[k].deep_view());
                        assert(r@[k] == prev[k]);
                    }
                }
                assert(r.deep_view() =~= self@.take(i + 1));
            }
            i = i + 1;
        }
        proof {
            assert(self@.take(n as int) =~= self@);
        }
        r
    }
}

} // verus!
