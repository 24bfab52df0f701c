//! The unordered set: the unordered map's key side, kept as a set.
//!
//! Members live in a slot list with an index lookup, exactly as the
//! unordered map keeps its keys; the bijection between the two sides is
//! the same obligation.

use vstd::prelude::*;
use vstd::assert_sets_equal;
use crate::store::Store;
use crate::keys::{is_under, agrees_except_under};
use crate::unordered_map::UnorderedMap;

verus! {

/// A persisted set of texts with iteration over its members.
pub struct UnorderedSet {
    elements: UnorderedMap,
}

impl View for UnorderedSet {
    type V = Set<Seq<char>>;

    closed spec fn view(&self) -> Set<Seq<char>> {
        self.elements@.dom()
    }
}

impl UnorderedSet {
    /// The namespace this set owns.
    pub closed spec fn prefix_spec(self) -> Seq<u8> {
        self.elements.prefix_spec()
    }

    /// The members, in slot order.
    pub closed spec fn order(self) -> Seq<Seq<char>> {
        self.elements.order()
    }

    /// The records carry the set, with the slot list and the index lookup
    /// in bijection.
    pub closed spec fn wf(self, store: Store) -> bool {
        self.elements.wf(store)
    }

    /// An empty set owning the fresh namespace `prefix`.
    pub fn new(prefix: Vec<u8>, store: &mut Store) -> (r: UnorderedSet)
        requires
            old(store).wf(),
            forall|k: Seq<u8>|
                #[trigger] is_under(prefix@, k) ==> !old(store).contents().contains_key(k),
        ensures
            r.wf(*final(store)),
            r@ == Set::<Seq<char>>::empty(),
            r.order() == Seq::<Seq<char>>::empty(),
            r.prefix_spec() == prefix@,
            agrees_except_under(old(store).contents(), final(store).contents(), prefix@),
    {
        let r = UnorderedSet { elements: UnorderedMap::new(prefix, store) };
        proof {
            assert_sets_equal!(r.elements@.dom(), Set::<Seq<char>>::empty());
        }
        r
    }

    /// How many members are live.
    pub fn len(&self, store: &Store) -> (n: u64)
        requires
            self.wf(*store),
        ensures
            n as nat == self.order().len(),
    {
        self.elements.len(store)
    }

    /// Whether `k` is a member.
    pub fn contains(&self, store: &Store, k: &str) -> (r: bool)
        requires
            self.wf(*store),
        ensures
            r == self@.contains(k@),
    {
        self.elements.contains(store, k)
    }

    /// Puts `k` in; hands back whether it was new.  An existing member
    /// keeps its slot, a fresh one takes the next.
    pub fn insert(&mut self, store: &mut Store, k: &str) -> (fresh: bool)
        requires
            old(self).wf(*old(store)),
            old(self).order().len() < 0xffff_ffff_ffff_ffff,
        ensures
            final(self).wf(*final(store)),
            final(self)@ == old(self)@.insert(k@),
            final(self).prefix_spec() == old(self).prefix_spec(),
            final(self).order() == (if old(self)@.contains(k@) {
                old(self).order()
            } else {
                old(self).order().push(k@)
            }),
            fresh == !old(self)@.contains(k@),
            agrees_except_under(
                old(store).contents(),
                final(store).contents(),
                old(self).prefix_spec(),
            ),
    {
        let prev = self.elements.insert(store, k, 0);
        proof {
            assert_sets_equal!(self.elements@.dom(), old(self).elements@.dom().insert(k@));
        }
        prev.is_none()
    }

    /// Takes `k` out; hands back whether it was there.  The last slot's
    /// member moves into the freed slot.
    pub fn remove(&mut self, store: &mut Store, k: &str) -> (present: bool)
        requires
            old(self).wf(*old(store)),
        ensures
            final(self).wf(*final(store)),
            final(self)@ == old(self)@.remove(k@),
            final(self).prefix_spec() == old(self).prefix_spec(),
            present == old(self)@.contains(k@),
            !present ==> final(store).contents() == old(store).contents(),
            agrees_except_under(
                old(store).contents(),
                final(store).contents(),
                old(self).prefix_spec(),
            ),
    {
        let prev = self.elements.remove(store, k);
        proof {
            assert_sets_equal!(self.elements@.dom(), old(self).elements@.dom().remove(k@));
        }
        prev.is_some()
    }

    /// Reads every member, in slot order.
    pub fn to_vec(&self, store: &Store) -> (r: Vec<String>)
        requires
            self.wf(*store),
        ensures
            r@.len() == self.order().len(),
            forall|j: int| 0 <= j < r@.len() ==> (#[trigger] r@[j])@ == self.order()[j],
    {
        let pairs = self.elements.to_vec(store);
        let mut r: Vec<String> = Vec::new();
        let n = pairs.len();
        let mut j: usize = 0;
        while j < n
            invariant
                n == pairs@.len(),
                pairs@.len() == self.order().len(),
                forall|t: int|
                    0 <= t < pairs@.len() ==> (#[trigger] pairs@[t]).0@ == self.order()[t],
                j <= n,
                r@.len() == j as nat,
                forall|t: int| 0 <= t < r@.len() ==> (#[trigger] r@[t])@ == self.order()[t],
            decreases n - j,
        {
            let pair = &pairs[j];
            r.push(pair.0.clone());
            j = j + 1;
        }
        r
    }
}

} // verus!
