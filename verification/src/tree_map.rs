//! The ordered map: a binary search tree whose nodes are individually
//! persisted records.
//!
//! A node's identity is derived from its own key, so no separate id
//! allocation exists; "no child" is the absence of a pointer, never a
//! sentinel record.  The root identity lies under a dedicated pointer
//! record.  The search-tree order — left subtree keys below the node key,
//! right subtree keys above — is the structural invariant every operation
//! preserves, and it makes the in-order walk strictly ascending.  The tree
//! is not rebalanced: each operation costs one storage access per level,
//! and the depth depends on the insertion order.

use vstd::prelude::*;
use vstd::map::*;
use crate::store::Store;
use crate::keys::{is_under, agrees_except_under, append, append_slice};
use crate::codec::{le8, encode_u64, read_u64_at, lemma_le8_injective, lemma_dec8_le8};

verus! {

/// Tag byte of the root pointer record.
pub const ROOT_TAG: u8 = 0;

/// Tag byte of a node record.
pub const NODE_TAG: u8 = 1;

/// Tag byte of the entry-count record.
pub const COUNT_TAG: u8 = 2;

/// The shape of the persisted tree: which key hangs where.
pub enum TreeShape {
    Leaf,
    Node { key: u64, value: u64, left: Box<TreeShape>, right: Box<TreeShape> },
}

/// The key at the root of a subtree, if it has one.
pub open spec fn root_of(t: TreeShape) -> Option<u64> {
    match t {
        TreeShape::Leaf => Option::None,
        TreeShape::Node { key, .. } => Option::Some(key),
    }
}

/// The key-to-value map a subtree holds.
pub open spec fn map_of(t: TreeShape) -> Map<u64, u64>
    decreases t,
{
    match t {
        TreeShape::Leaf => Map::empty(),
        TreeShape::Node { key, value, left, right } => map_of(*left).union_prefer_right(
            map_of(*right),
        ).insert(key, value),
    }
}

/// The keys of a subtree, in in-order walk order.
pub open spec fn keys_seq(t: TreeShape) -> Seq<u64>
    decreases t,
{
    match t {
        TreeShape::Leaf => Seq::empty(),
        TreeShape::Node { key, left, right, .. } => keys_seq(*left) + seq![key] + keys_seq(*right),
    }
}

/// The pairs of a subtree with keys in `[a, b)`, in ascending key order.
pub open spec fn range_seq(t: TreeShape, a: u64, b: u64) -> Seq<(u64, u64)>
    decreases t,
{
    match t {
        TreeShape::Leaf => Seq::empty(),
        TreeShape::Node { key, value, left, right } => range_seq(*left, a, b) + (if a <= key && key
            < b {
            seq![(key, value)]
        } else {
            Seq::empty()
        }) + range_seq(*right, a, b),
    }
}

/// `k` lies above the lower bound, where one is set.
pub open spec fn above(k: u64, lo: Option<u64>) -> bool {
    match lo {
        Option::None => true,
        Option::Some(l) => l < k,
    }
}

/// `k` lies below the upper bound, where one is set.
pub open spec fn below(k: u64, hi: Option<u64>) -> bool {
    match hi {
        Option::None => true,
        Option::Some(h) => k < h,
    }
}

/// The nine bytes of an optional child pointer: a flag byte and the key.
pub open spec fn opt_bytes(o: Option<u64>) -> Seq<u8> {
    match o {
        Option::None => seq![0u8] + le8(0),
        Option::Some(k) => seq![1u8] + le8(k),
    }
}

/// The record body of one node: key, value, left and right pointers.
pub open spec fn node_bytes(k: u64, v: u64, l: Option<u64>, r: Option<u64>) -> Seq<u8> {
    le8(k) + le8(v) + opt_bytes(l) + opt_bytes(r)
}

/// The storage key of the node whose map key is `k`.
pub open spec fn node_key(prefix: Seq<u8>, k: u64) -> Seq<u8> {
    prefix + (seq![NODE_TAG] + le8(k))
}

/// The subtree's records in the map `m` carry exactly its shape, and every
/// key in it lies strictly between the bounds.
pub open spec fn shape_wf(
    m: Map<Seq<u8>, Seq<u8>>,
    prefix: Seq<u8>,
    t: TreeShape,
    lo: Option<u64>,
    hi: Option<u64>,
) -> bool
    decreases t,
{
    match t {
        TreeShape::Leaf => true,
        TreeShape::Node { key, value, left, right } => {
            &&& above(key, lo)
            &&& below(key, hi)
            &&& m.contains_key(node_key(prefix, key))
            &&& m[node_key(prefix, key)] == node_bytes(key, value, root_of(*left), root_of(*right))
            &&& shape_wf(m, prefix, *left, lo, Option::Some(key))
            &&& shape_wf(m, prefix, *right, Option::Some(key), hi)
        },
    }
}

/// Every key in a well-formed subtree lies strictly between the bounds,
/// and the map holds exactly the keys of the in-order walk.
pub proof fn lemma_shape_bounds(
    m: Map<Seq<u8>, Seq<u8>>,
    prefix: Seq<u8>,
    t: TreeShape,
    lo: Option<u64>,
    hi: Option<u64>,
)
    requires
        shape_wf(m, prefix, t, lo, hi),
    ensures
        forall|k: u64| #[trigger] map_of(t).contains_key(k) ==> above(k, lo) && below(k, hi),
        map_of(t).dom().finite(),
    decreases t,
{
    broadcast use vstd::set::group_set_axioms;

    match t {
        TreeShape::Leaf => {
            assert(map_of(t).dom() =~= Set::<u64>::empty());
        },
        TreeShape::Node { key, value, left, right } => {
            lemma_shape_bounds(m, prefix, *left, lo, Option::Some(key));
            lemma_shape_bounds(m, prefix, *right, Option::Some(key), hi);
            assert(map_of(t).dom() =~= map_of(*left).dom().union(map_of(*right).dom()).insert(
                key,
            ));
            assert forall|k: u64| #[trigger] map_of(t).contains_key(k) implies above(k, lo)
                && below(k, hi) by {
                if map_of(*left).contains_key(k) {
                } else if map_of(*right).contains_key(k) {
                } else {
                    assert(k == key);
                }
            }
        },
    }
}

/// Two node records with the same bytes describe the same node.
proof fn lemma_node_bytes_injective(
    k1: u64,
    v1: u64,
    l1: Option<u64>,
    r1: Option<u64>,
    k2: u64,
    v2: u64,
    l2: Option<u64>,
    r2: Option<u64>,
)
    requires
        node_bytes(k1, v1, l1, r1) == node_bytes(k2, v2, l2, r2),
    ensures
        k1 == k2 && v1 == v2 && l1 == l2 && r1 == r2,
{
    let b1 = node_bytes(k1, v1, l1, r1);
    let b2 = node_bytes(k2, v2, l2, r2);
    assert(le8(k1) =~= b1.subrange(0, 8));
    assert(le8(k2) =~= b2.subrange(0, 8));
    assert(le8(v1) =~= b1.subrange(8, 16));
    assert(le8(v2) =~= b2.subrange(8, 16));
    assert(opt_bytes(l1) =~= b1.subrange(16, 25));
    assert(opt_bytes(l2) =~= b2.subrange(16, 25));
    assert(opt_bytes(r1) =~= b1.subrange(25, 34));
    assert(opt_bytes(r2) =~= b2.subrange(25, 34));
    lemma_le8_injective(k1, k2);
    lemma_le8_injective(v1, v2);
    lemma_opt_bytes_injective(l1, l2);
    lemma_opt_bytes_injective(r1, r2);
}

/// Two pointer encodings with the same bytes point the same way.
proof fn lemma_opt_bytes_injective(o1: Option<u64>, o2: Option<u64>)
    requires
        opt_bytes(o1) == opt_bytes(o2),
    ensures
        o1 == o2,
{
    assert(opt_bytes(o1)[0] == (if o1 is Some {
        1u8
    } else {
        0u8
    }));
    assert(opt_bytes(o2)[0] == (if o2 is Some {
        1u8
    } else {
        0u8
    }));
    if o1 is Some && o2 is Some {
        assert(le8(o1.unwrap()) =~= opt_bytes(o1).subrange(1, 9));
        assert(le8(o2.unwrap()) =~= opt_bytes(o2).subrange(1, 9));
        lemma_le8_injective(o1.unwrap(), o2.unwrap());
    }
}

/// Distinct map keys give distinct node record keys.
proof fn lemma_node_key_injective(prefix: Seq<u8>, k1: u64, k2: u64)
    requires
        node_key(prefix, k1) == node_key(prefix, k2),
    ensures
        k1 == k2,
{
    let s1 = seq![NODE_TAG] + le8(k1);
    let s2 = seq![NODE_TAG] + le8(k2);
    assert(s1 =~= (prefix + s1).subrange(prefix.len() as int, prefix.len() as int + 9));
    assert(s2 =~= (prefix + s2).subrange(prefix.len() as int, prefix.len() as int + 9));
    assert(le8(k1) =~= s1.subrange(1, 9));
    assert(le8(k2) =~= s2.subrange(1, 9));
    lemma_le8_injective(k1, k2);
}

/// A subtree stays well formed when every node record whose key lies
/// between its bounds is left alone.
proof fn lemma_shape_same(
    m1: Map<Seq<u8>, Seq<u8>>,
    m2: Map<Seq<u8>, Seq<u8>>,
    prefix: Seq<u8>,
    t: TreeShape,
    lo: Option<u64>,
    hi: Option<u64>,
)
    requires
        shape_wf(m1, prefix, t, lo, hi),
        forall|k: u64|
            above(k, lo) && below(k, hi) ==> (m1.contains_key(#[trigger] node_key(prefix, k))
                <==> m2.contains_key(node_key(prefix, k))) && (m1.contains_key(
                node_key(prefix, k),
            ) ==> m1[node_key(prefix, k)] == m2[node_key(prefix, k)]),
    ensures
        shape_wf(m2, prefix, t, lo, hi),
    decreases t,
{
    match t {
        TreeShape::Leaf => {},
        TreeShape::Node { key, value, left, right } => {
            lemma_shape_same(m1, m2, prefix, *left, lo, Option::Some(key));
            lemma_shape_same(m1, m2, prefix, *right, Option::Some(key), hi);
        },
    }
}

/// The in-order walk of a well-formed subtree is strictly ascending, its
/// keys lie between the bounds, and it carries one entry per key of the
/// subtree's map.
pub proof fn lemma_in_order_sorted(
    m: Map<Seq<u8>, Seq<u8>>,
    prefix: Seq<u8>,
    t: TreeShape,
    lo: Option<u64>,
    hi: Option<u64>,
)
    requires
        shape_wf(m, prefix, t, lo, hi),
    ensures
        forall|i: int, j: int|
            0 <= i < j < keys_seq(t).len() ==> keys_seq(t)[i] < keys_seq(t)[j],
        forall|i: int|
            0 <= i < keys_seq(t).len() ==> above(#[trigger] keys_seq(t)[i], lo) && below(
                keys_seq(t)[i],
                hi,
            ) && map_of(t).contains_key(keys_seq(t)[i]),
        map_of(t).dom().len() == keys_seq(t).len(),
    decreases t,
{
    broadcast use vstd::set::group_set_axioms;

    lemma_shape_bounds(m, prefix, t, lo, hi);
    match t {
        TreeShape::Leaf => {
            assert(map_of(t).dom() =~= Set::<u64>::empty());
        },
        TreeShape::Node { key, value, left, right } => {
            lemma_in_order_sorted(m, prefix, *left, lo, Option::Some(key));
            lemma_in_order_sorted(m, prefix, *right, Option::Some(key), hi);
            lemma_shape_bounds(m, prefix, *left, lo, Option::Some(key));
            lemma_shape_bounds(m, prefix, *right, Option::Some(key), hi);
            let ks = keys_seq(t);
            let nl = keys_seq(*left).len() as int;
            assert(ks[nl] == key);
            assert(forall|i: int| 0 <= i < nl ==> ks[i] == keys_seq(*left)[i]);
            assert(forall|i: int|
                nl < i < ks.len() ==> ks[i] == keys_seq(*right)[i - nl - 1]);
            let a = map_of(*left).dom();
            let b = map_of(*right).dom();
            let c = b + set![key];
            assert(map_of(t).dom() =~= a + c);
            assert forall|k: u64| a.contains(k) implies !c.contains(k) by {
                assert(map_of(*left).contains_key(k));
            }
            assert forall|k: u64| b.contains(k) implies !set![key].contains(k) by {
                assert(map_of(*right).contains_key(k));
            }
            assert(set![key].len() == 1);
            vstd::set_lib::lemma_set_disjoint_lens(b, set![key]);
            vstd::set_lib::lemma_set_disjoint_lens(a, c);
        },
    }
}

/// A persisted ordered map from integers to integers.
pub struct TreeMap {
    prefix: Vec<u8>,
    root: Option<u64>,
    length: u64,
    shape: Ghost<TreeShape>,
}

impl View for TreeMap {
    type V = Map<u64, u64>;

    closed spec fn view(&self) -> Map<u64, u64> {
        map_of(self.shape@)
    }
}

impl TreeMap {
    /// The namespace this map owns.
    pub closed spec fn prefix_spec(self) -> Seq<u8> {
        self.prefix@
    }

    /// The shape of the persisted tree.
    pub closed spec fn shape_spec(self) -> TreeShape {
        self.shape@
    }

    /// The key of the root pointer record.
    pub closed spec fn root_key(self) -> Seq<u8> {
        self.prefix@ + seq![ROOT_TAG]
    }

    /// The key of the entry-count record.
    pub closed spec fn count_key(self) -> Seq<u8> {
        self.prefix@ + seq![COUNT_TAG]
    }

    /// The tree's records in `store` carry exactly its shape: the root
    /// pointer and entry count under their metadata keys, one record per
    /// node, and search-tree order throughout.
    pub closed spec fn wf(self, store: Store) -> bool {
        &&& store.wf()
        &&& store.contents().contains_key(self.root_key())
        &&& store.contents()[self.root_key()] == opt_bytes(root_of(self.shape@))
        &&& store.contents().contains_key(self.count_key())
        &&& store.contents()[self.count_key()] == le8(self.length)
        &&& self.root == root_of(self.shape@)
        &&& self.length as nat == keys_seq(self.shape@).len()
        &&& shape_wf(store.contents(), self.prefix@, self.shape@, Option::None, Option::None)
    }

    /// Every node record key and metadata key lies under the prefix, and
    /// the metadata keys are no node keys.
    proof fn lemma_keys(self)
        ensures
            is_under(self.prefix_spec(), self.root_key()),
            is_under(self.prefix_spec(), self.count_key()),
            forall|k: u64| is_under(self.prefix_spec(), #[trigger] node_key(self.prefix@, k)),
            forall|k: u64| self.root_key() != #[trigger] node_key(self.prefix@, k),
            forall|k: u64| self.count_key() != #[trigger] node_key(self.prefix@, k),
            self.root_key() != self.count_key(),
    {
        crate::keys::lemma_derived_is_under(self.prefix@, seq![ROOT_TAG]);
        crate::keys::lemma_derived_is_under(self.prefix@, seq![COUNT_TAG]);
        assert forall|k: u64| is_under(self.prefix_spec(), #[trigger] node_key(self.prefix@, k)) by {
            crate::keys::lemma_derived_is_under(self.prefix@, seq![NODE_TAG] + le8(k));
        }
        assert forall|k: u64| self.root_key() != #[trigger] node_key(self.prefix@, k) by {
            assert(self.root_key().len() == self.prefix@.len() + 1);
            assert(node_key(self.prefix@, k).len() == self.prefix@.len() + 9);
        }
        assert forall|k: u64| self.count_key() != #[trigger] node_key(self.prefix@, k) by {
            assert(self.count_key().len() == self.prefix@.len() + 1);
        }
        assert(self.root_key()[self.prefix@.len() as int] == ROOT_TAG);
        assert(self.count_key()[self.prefix@.len() as int] == COUNT_TAG);
    }

    /// The node record key of `k`, executable form.
    fn node_key_exec(&self, k: u64) -> (r: Vec<u8>)
        ensures
            r@ == node_key(self.prefix@, k),
    {
        let mut suffix: Vec<u8> = Vec::new();
        suffix.push(NODE_TAG);
        let body = encode_u64(k);
        suffix.extend_from_slice(body.as_slice());
        let r = append_slice(self.prefix.as_slice(), suffix.as_slice());
        proof {
            assert(suffix@ =~= seq![NODE_TAG] + le8(k));
        }
        r
    }

    /// The record body of one node, executable form.
    fn encode_node(k: u64, v: u64, l: Option<u64>, r: Option<u64>) -> (b: Vec<u8>)
        ensures
            b@ == node_bytes(k, v, l, r),
    {
        let mut b = encode_u64(k);
        let vb = encode_u64(v);
        b.extend_from_slice(vb.as_slice());
        match l {
            Option::Some(lk) => {
                b.push(1);
                let lb = encode_u64(lk);
                b.extend_from_slice(lb.as_slice());
            },
            Option::None => {
                b.push(0);
                let lb = encode_u64(0);
                b.extend_from_slice(lb.as_slice());
            },
        }
        match r {
            Option::Some(rk) => {
                b.push(1);
                let rb = encode_u64(rk);
                b.extend_from_slice(rb.as_slice());
            },
            Option::None => {
                b.push(0);
                let rb = encode_u64(0);
                b.extend_from_slice(rb.as_slice());
            },
        }
        proof {
            assert(b@ =~= node_bytes(k, v, l, r));
        }
        b
    }

    /// The fields read back from a node record.
    #[verifier::rlimit(50)]
    fn decode_node(b: &Vec<u8>) -> (r: Option<(u64, u64, Option<u64>, Option<u64>)>)
        ensures
            (match r {
                Option::Some(t) => b@ == node_bytes(t.0, t.1, t.2, t.3),
                Option::None => true,
            }),
            forall|k: u64, v: u64, l: Option<u64>, rr: Option<u64>|
                b@ == #[trigger] node_bytes(k, v, l, rr) ==> r is Some,
    {
        if b.len() != 34 {
            proof {
                assert forall|k: u64, v: u64, l: Option<u64>, rr: Option<u64>|
                    b@ != #[trigger] node_bytes(k, v, l, rr) by {}
            }
            return Option::None;
        }
        let k = read_u64_at(b, 0);
        let v = read_u64_at(b, 8);
        let lflag = b[16];
        let lraw = read_u64_at(b, 17);
        let rflag = b[25];
        let rraw = read_u64_at(b, 26);
        if (lflag != 0 && lflag != 1) || (rflag != 0 && rflag != 1) || (lflag == 0 && lraw != 0)
            || (rflag == 0 && rraw != 0) {
            proof {
                assert forall|k2: u64, v2: u64, l2: Option<u64>, r2: Option<u64>|
                    b@ != #[trigger] node_bytes(k2, v2, l2, r2) by {
                    if b@ == node_bytes(k2, v2, l2, r2) {
                        assert(b@[16] == opt_bytes(l2)[0]);
                        assert(b@[25] == opt_bytes(r2)[0]);
                        assert(b@.subrange(17, 25) =~= opt_bytes(l2).subrange(1, 9));
                        assert(b@.subrange(26, 34) =~= opt_bytes(r2).subrange(1, 9));
                        crate::codec::lemma_le8_dec8(0);
                        if l2 is None {
                            assert(b@.subrange(17, 25) =~= le8(0));
                        }
                        if r2 is None {
                            assert(b@.subrange(26, 34) =~= le8(0));
                        }
                    }
                }
            }
            return Option::None;
        }
        let l = if lflag == 1 {
            Option::Some(lraw)
        } else {
            Option::None
        };
        let rr = if rflag == 1 {
            Option::Some(rraw)
        } else {
            Option::None
        };
        proof {
            lemma_dec8_le8(b@.subrange(0, 8));
            lemma_dec8_le8(b@.subrange(8, 16));
            lemma_dec8_le8(b@.subrange(17, 25));
            lemma_dec8_le8(b@.subrange(26, 34));
            assert(b@ =~= node_bytes(k, v, l, rr));
        }
        Option::Some((k, v, l, rr))
    }
}

/// The left subtree, where there is one.
pub open spec fn left_of(t: TreeShape) -> TreeShape {
    match t {
        TreeShape::Leaf => TreeShape::Leaf,
        TreeShape::Node { left, .. } => *left,
    }
}

/// The right subtree, where there is one.
pub open spec fn right_of(t: TreeShape) -> TreeShape {
    match t {
        TreeShape::Leaf => TreeShape::Leaf,
        TreeShape::Node { right, .. } => *right,
    }
}

/// The value at the root, where there is one.
pub open spec fn value_of(t: TreeShape) -> u64 {
    match t {
        TreeShape::Leaf => 0,
        TreeShape::Node { value, .. } => value,
    }
}

/// The two states hold the same thing at `sk`.
pub open spec fn same_at(m1: Map<Seq<u8>, Seq<u8>>, m2: Map<Seq<u8>, Seq<u8>>, sk: Seq<u8>) -> bool {
    (m1.contains_key(sk) <==> m2.contains_key(sk)) && (m1.contains_key(sk) ==> m1[sk] == m2[sk])
}

/// The step from `m1` to `m2` wrote only node records whose keys lie
/// strictly between the bounds.
pub open spec fn touched_within(
    m1: Map<Seq<u8>, Seq<u8>>,
    m2: Map<Seq<u8>, Seq<u8>>,
    prefix: Seq<u8>,
    lo: Option<u64>,
    hi: Option<u64>,
) -> bool {
    forall|sk: Seq<u8>|
        #[trigger] same_at(m1, m2, sk) || (exists|k2: u64|
            above(k2, lo) && below(k2, hi) && sk == node_key(prefix, k2))
}

/// A node record whose key lies outside the bounds was left alone.
proof fn lemma_touched_node_outside(
    m1: Map<Seq<u8>, Seq<u8>>,
    m2: Map<Seq<u8>, Seq<u8>>,
    prefix: Seq<u8>,
    lo: Option<u64>,
    hi: Option<u64>,
    k3: u64,
)
    requires
        touched_within(m1, m2, prefix, lo, hi),
        !(above(k3, lo) && below(k3, hi)),
    ensures
        same_at(m1, m2, node_key(prefix, k3)),
{
    if !same_at(m1, m2, node_key(prefix, k3)) {
        let k2 = choose|k2: u64|
            above(k2, lo) && below(k2, hi) && node_key(prefix, k3) == node_key(prefix, k2);
        lemma_node_key_injective(prefix, k2, k3);
    }
}

/// A subtree over bounds disjoint from the touched window stays well
/// formed.
proof fn lemma_shape_untouched(
    m1: Map<Seq<u8>, Seq<u8>>,
    m2: Map<Seq<u8>, Seq<u8>>,
    prefix: Seq<u8>,
    t: TreeShape,
    lo: Option<u64>,
    hi: Option<u64>,
    wlo: Option<u64>,
    whi: Option<u64>,
)
    requires
        shape_wf(m1, prefix, t, lo, hi),
        touched_within(m1, m2, prefix, wlo, whi),
        forall|k: u64| above(k, lo) && below(k, hi) ==> !(above(k, wlo) && below(k, whi)),
    ensures
        shape_wf(m2, prefix, t, lo, hi),
{
    assert forall|k: u64|
        above(k, lo) && below(k, hi) implies (m1.contains_key(#[trigger] node_key(prefix, k))
        <==> m2.contains_key(node_key(prefix, k))) && (m1.contains_key(node_key(prefix, k))
        ==> m1[node_key(prefix, k)] == m2[node_key(prefix, k)]) by {
        lemma_touched_node_outside(m1, m2, prefix, wlo, whi, k);
    }
    lemma_shape_same(m1, m2, prefix, t, lo, hi);
}

/// Touched windows compose: two consecutive steps inside a wider window
/// are one step inside it.
proof fn lemma_touched_compose(
    m1: Map<Seq<u8>, Seq<u8>>,
    m2: Map<Seq<u8>, Seq<u8>>,
    m3: Map<Seq<u8>, Seq<u8>>,
    prefix: Seq<u8>,
    lo1: Option<u64>,
    hi1: Option<u64>,
    lo2: Option<u64>,
    hi2: Option<u64>,
    lo3: Option<u64>,
    hi3: Option<u64>,
)
    requires
        touched_within(m1, m2, prefix, lo1, hi1),
        touched_within(m2, m3, prefix, lo2, hi2),
        forall|k: u64| above(k, lo1) && below(k, hi1) ==> above(k, lo3) && below(k, hi3),
        forall|k: u64| above(k, lo2) && below(k, hi2) ==> above(k, lo3) && below(k, hi3),
    ensures
        touched_within(m1, m3, prefix, lo3, hi3),
{
    assert forall|sk: Seq<u8>|
        #[trigger] same_at(m1, m3, sk) || (exists|k2: u64|
            above(k2, lo3) && below(k2, hi3) && sk == node_key(prefix, k2)) by {
        if !same_at(m1, m3, sk) {
            if !same_at(m1, m2, sk) {
                let k2 = choose|k2: u64|
                    above(k2, lo1) && below(k2, hi1) && sk == node_key(prefix, k2);
                assert(above(k2, lo3) && below(k2, hi3) && sk == node_key(prefix, k2));
            } else {
                assert(!same_at(m2, m3, sk));
                let k2 = choose|k2: u64|
                    above(k2, lo2) && below(k2, hi2) && sk == node_key(prefix, k2);
                assert(above(k2, lo3) && below(k2, hi3) && sk == node_key(prefix, k2));
            }
        }
    }
}

/// One write of a node record inside the window is a step inside it.
proof fn lemma_touched_single(
    m1: Map<Seq<u8>, Seq<u8>>,
    m2: Map<Seq<u8>, Seq<u8>>,
    prefix: Seq<u8>,
    lo: Option<u64>,
    hi: Option<u64>,
    k: u64,
    v: Seq<u8>,
)
    requires
        m2 == m1.insert(node_key(prefix, k), v),
        above(k, lo),
        below(k, hi),
    ensures
        touched_within(m1, m2, prefix, lo, hi),
{
    assert forall|sk: Seq<u8>|
        #[trigger] same_at(m1, m2, sk) || (exists|k2: u64|
            above(k2, lo) && below(k2, hi) && sk == node_key(prefix, k2)) by {
        if sk == node_key(prefix, k) {
            assert(above(k, lo) && below(k, hi) && sk == node_key(prefix, k));
        }
    }
}

/// A subtree stays well formed across one write of a node record whose
/// key lies outside the subtree's bounds.
proof fn lemma_shape_single_other(
    m1: Map<Seq<u8>, Seq<u8>>,
    m2: Map<Seq<u8>, Seq<u8>>,
    prefix: Seq<u8>,
    t: TreeShape,
    lo: Option<u64>,
    hi: Option<u64>,
    wk: u64,
    v: Seq<u8>,
)
    requires
        shape_wf(m1, prefix, t, lo, hi),
        m2 == m1.insert(node_key(prefix, wk), v),
        !(above(wk, lo) && below(wk, hi)),
    ensures
        shape_wf(m2, prefix, t, lo, hi),
{
    assert forall|k: u64|
        above(k, lo) && below(k, hi) implies (m1.contains_key(#[trigger] node_key(prefix, k))
        <==> m2.contains_key(node_key(prefix, k))) && (m1.contains_key(node_key(prefix, k))
        ==> m1[node_key(prefix, k)] == m2[node_key(prefix, k)]) by {
        if node_key(prefix, k) == node_key(prefix, wk) {
            lemma_node_key_injective(prefix, k, wk);
        }
    }
    lemma_shape_same(m1, m2, prefix, t, lo, hi);
}

/// A subtree over bounds inside wider ones is well formed over the wider
/// ones too.
proof fn lemma_shape_widen(
    m: Map<Seq<u8>, Seq<u8>>,
    prefix: Seq<u8>,
    t: TreeShape,
    lo1: Option<u64>,
    hi1: Option<u64>,
    lo: Option<u64>,
    hi: Option<u64>,
)
    requires
        shape_wf(m, prefix, t, lo1, hi1),
        forall|k: u64| above(k, lo1) ==> above(k, lo),
        forall|k: u64| below(k, hi1) ==> below(k, hi),
    ensures
        shape_wf(m, prefix, t, lo, hi),
    decreases t,
{
    match t {
        TreeShape::Leaf => {},
        TreeShape::Node { key, value, left, right } => {
            lemma_shape_widen(m, prefix, *left, lo1, Option::Some(key), lo, Option::Some(key));
            lemma_shape_widen(m, prefix, *right, Option::Some(key), hi1, Option::Some(key), hi);
        },
    }
}

/// A subtree stays well formed when the records of its own keys are left
/// alone, whatever happened elsewhere.
proof fn lemma_shape_same_keys(
    m1: Map<Seq<u8>, Seq<u8>>,
    m2: Map<Seq<u8>, Seq<u8>>,
    prefix: Seq<u8>,
    t: TreeShape,
    lo: Option<u64>,
    hi: Option<u64>,
)
    requires
        shape_wf(m1, prefix, t, lo, hi),
        forall|k: u64|
            map_of(t).contains_key(k) ==> same_at(m1, m2, #[trigger] node_key(prefix, k)),
    ensures
        shape_wf(m2, prefix, t, lo, hi),
    decreases t,
{
    match t {
        TreeShape::Leaf => {},
        TreeShape::Node { key, value, left, right } => {
            lemma_shape_bounds(m1, prefix, *left, lo, Option::Some(key));
            lemma_shape_bounds(m1, prefix, *right, Option::Some(key), hi);
            assert(map_of(t).contains_key(key));
            assert forall|k: u64| map_of(*left).contains_key(k) implies same_at(
                m1,
                m2,
                #[trigger] node_key(prefix, k),
            ) by {
                assert(map_of(t).contains_key(k));
            }
            assert forall|k: u64| map_of(*right).contains_key(k) implies same_at(
                m1,
                m2,
                #[trigger] node_key(prefix, k),
            ) by {
                assert(map_of(t).contains_key(k));
            }
            lemma_shape_same_keys(m1, m2, prefix, *left, lo, Option::Some(key));
            lemma_shape_same_keys(m1, m2, prefix, *right, Option::Some(key), hi);
        },
    }
}

/// Taking one node record out, with its key inside the window, is a step
/// inside the window.
proof fn lemma_touched_single_removed(
    m1: Map<Seq<u8>, Seq<u8>>,
    m2: Map<Seq<u8>, Seq<u8>>,
    prefix: Seq<u8>,
    lo: Option<u64>,
    hi: Option<u64>,
    k: u64,
)
    requires
        m2 == m1.remove(node_key(prefix, k)),
        above(k, lo),
        below(k, hi),
    ensures
        touched_within(m1, m2, prefix, lo, hi),
{
    assert forall|sk: Seq<u8>|
        #[trigger] same_at(m1, m2, sk) || (exists|k2: u64|
            above(k2, lo) && below(k2, hi) && sk == node_key(prefix, k2)) by {
        if sk == node_key(prefix, k) {
            assert(above(k, lo) && below(k, hi) && sk == node_key(prefix, k));
        }
    }
}

/// A subtree whose keys all lie above a tighter lower bound is well
/// formed over that bound.
proof fn lemma_shape_rebound_lo(
    m: Map<Seq<u8>, Seq<u8>>,
    prefix: Seq<u8>,
    t: TreeShape,
    lo1: Option<u64>,
    hi: Option<u64>,
    lo2: Option<u64>,
)
    requires
        shape_wf(m, prefix, t, lo1, hi),
        forall|k: u64| #[trigger] map_of(t).contains_key(k) ==> above(k, lo2),
    ensures
        shape_wf(m, prefix, t, lo2, hi),
    decreases t,
{
    match t {
        TreeShape::Leaf => {},
        TreeShape::Node { key, value, left, right } => {
            lemma_shape_bounds(m, prefix, *left, lo1, Option::Some(key));
            lemma_shape_bounds(m, prefix, *right, Option::Some(key), hi);
            assert(map_of(t).contains_key(key));
            assert forall|k: u64| #[trigger] map_of(*left).contains_key(k) implies above(
                k,
                lo2,
            ) by {
                assert(map_of(t).contains_key(k));
            }
            lemma_shape_rebound_lo(m, prefix, *left, lo1, Option::Some(key), lo2);
        },
    }
}

/// A subtree holds a key exactly when its root holds it or the proper
/// side holds it, and the value stands on that side.
proof fn lemma_map_split(
    m: Map<Seq<u8>, Seq<u8>>,
    prefix: Seq<u8>,
    t: TreeShape,
    lo: Option<u64>,
    hi: Option<u64>,
    key: u64,
)
    requires
        shape_wf(m, prefix, t, lo, hi),
        t is Node,
    ensures
        key == root_of(t).unwrap() ==> map_of(t).contains_key(key) && map_of(t)[key] == value_of(
            t,
        ),
        key < root_of(t).unwrap() ==> (map_of(t).contains_key(key) <==> map_of(
            left_of(t),
        ).contains_key(key)) && (map_of(t).contains_key(key) ==> map_of(t)[key] == map_of(
            left_of(t),
        )[key]),
        key > root_of(t).unwrap() ==> (map_of(t).contains_key(key) <==> map_of(
            right_of(t),
        ).contains_key(key)) && (map_of(t).contains_key(key) ==> map_of(t)[key] == map_of(
            right_of(t),
        )[key]),
{
    match t {
        TreeShape::Leaf => {},
        TreeShape::Node { key: tk, value, left, right } => {
            lemma_shape_bounds(m, prefix, *left, lo, Option::Some(tk));
            lemma_shape_bounds(m, prefix, *right, Option::Some(tk), hi);
        },
    }
}

impl TreeMap {
    /// An empty ordered map owning the fresh namespace `prefix`.
    pub fn new(prefix: Vec<u8>, store: &mut Store) -> (r: TreeMap)
        requires
            old(store).wf(),
            forall|k: Seq<u8>|
                #[trigger] is_under(prefix@, k) ==> !old(store).contents().contains_key(k),
        ensures
            r.wf(*final(store)),
            r@ == Map::<u64, u64>::empty(),
            r.prefix_spec() == prefix@,
            agrees_except_under(old(store).contents(), final(store).contents(), prefix@),
    {
        let r = TreeMap { prefix, root: Option::None, length: 0, shape: Ghost(TreeShape::Leaf) };
        let rk = append(r.prefix.as_slice(), ROOT_TAG);
        let rbody = Self::encode_opt(Option::None);
        store.set(rk.as_slice(), rbody.as_slice());
        let ck = append(r.prefix.as_slice(), COUNT_TAG);
        let cbody = encode_u64(0);
        store.set(ck.as_slice(), cbody.as_slice());
        proof {
            r.lemma_keys();
            assert(rk@ =~= r.root_key());
            assert(ck@ =~= r.count_key());
            assert(map_of(TreeShape::Leaf) =~= Map::<u64, u64>::empty());
        }
        r
    }

    /// An optional pointer record body, executable form.
    fn encode_opt(o: Option<u64>) -> (b: Vec<u8>)
        ensures
            b@ == opt_bytes(o),
    {
        let mut b: Vec<u8> = Vec::new();
        match o {
            Option::Some(k) => {
                b.push(1);
                let kb = encode_u64(k);
                b.extend_from_slice(kb.as_slice());
            },
            Option::None => {
                b.push(0);
                let kb = encode_u64(0);
                b.extend_from_slice(kb.as_slice());
            },
        }
        proof {
            assert(b@ =~= opt_bytes(o));
        }
        b
    }

    /// How many keys are live.
    pub fn len(&self, store: &Store) -> (n: u64)
        requires
            self.wf(*store),
        ensures
            n as nat == self@.dom().len(),
    {
        proof {
            lemma_in_order_sorted(
                store.contents(),
                self.prefix@,
                self.shape@,
                Option::None,
                Option::None,
            );
        }
        self.length
    }

    /// Reads the node record of `rk`, which must exist.
    fn read_node(&self, store: &Store, rk: u64, Ghost(t): Ghost<TreeShape>) -> (r: (
        u64,
        u64,
        Option<u64>,
        Option<u64>,
    ))
        requires
            store.wf(),
            t is Node,
            root_of(t) == Option::Some(rk),
            store.contents().contains_key(node_key(self.prefix@, rk)),
            store.contents()[node_key(self.prefix@, rk)] == node_bytes(
                rk,
                value_of(t),
                root_of(left_of(t)),
                root_of(right_of(t)),
            ),
        ensures
            r.0 == rk,
            r.1 == value_of(t),
            r.2 == root_of(left_of(t)),
            r.3 == root_of(right_of(t)),
    {
        let nk = self.node_key_exec(rk);
        let bytes = match store.get(nk.as_slice()) {
            Option::Some(b) => b,
            Option::None => {
                proof {
                    assert(false);
                }
                return (0, 0, Option::None, Option::None);
            },
        };
        match Self::decode_node(&bytes) {
            Option::Some(f) => {
                proof {
                    lemma_node_bytes_injective(
                        f.0,
                        f.1,
                        f.2,
                        f.3,
                        rk,
                        value_of(t),
                        root_of(left_of(t)),
                        root_of(right_of(t)),
                    );
                }
                f
            },
            Option::None => {
                proof {
                    assert(false);
                }
                (0, 0, Option::None, Option::None)
            },
        }
    }

    /// Looks `key` up below the given root.
    fn get_at(&self, store: &Store, root: Option<u64>, key: u64, Ghost(t): Ghost<TreeShape>, Ghost(
        lo,
    ): Ghost<Option<u64>>, Ghost(hi): Ghost<Option<u64>>) -> (r: Option<u64>)
        requires
            store.wf(),
            shape_wf(store.contents(), self.prefix@, t, lo, hi),
            root == root_of(t),
        ensures
            (match r {
                Option::Some(v) => map_of(t).contains_key(key) && map_of(t)[key] == v,
                Option::None => !map_of(t).contains_key(key),
            }),
        decreases t,
    {
        match root {
            Option::None => {
                proof {
                    assert(t is Leaf);
                    assert(map_of(t) =~= Map::<u64, u64>::empty());
                }
                Option::None
            },
            Option::Some(rk) => {
                proof {
                    assert(t is Node);
                }
                let f = self.read_node(store, rk, Ghost(t));
                proof {
                    lemma_map_split(store.contents(), self.prefix@, t, lo, hi, key);
                }
                if key == f.0 {
                    Option::Some(f.1)
                } else if key < f.0 {
                    self.get_at(store, f.2, key, Ghost(left_of(t)), Ghost(lo), Ghost(
                        Option::Some(rk),
                    ))
                } else {
                    self.get_at(store, f.3, key, Ghost(right_of(t)), Ghost(Option::Some(rk)), Ghost(
                        hi,
                    ))
                }
            },
        }
    }

    /// Reads the value under `key`, if any.
    pub fn get(&self, store: &Store, key: u64) -> (r: Option<u64>)
        requires
            self.wf(*store),
        ensures
            (match r {
                Option::Some(v) => self@.contains_key(key) && self@[key] == v,
                Option::None => !self@.contains_key(key),
            }),
    {
        self.get_at(store, self.root, key, Ghost(self.shape@), Ghost(Option::None), Ghost(
            Option::None,
        ))
    }

    /// The smallest key below the given root, if any.
    fn min_at(&self, store: &Store, root: Option<u64>, Ghost(t): Ghost<TreeShape>, Ghost(lo): Ghost<
        Option<u64>,
    >, Ghost(hi): Ghost<Option<u64>>) -> (r: Option<u64>)
        requires
            store.wf(),
            shape_wf(store.contents(), self.prefix@, t, lo, hi),
            root == root_of(t),
        ensures
            (match r {
                Option::Some(k) => map_of(t).contains_key(k) && (forall|k2: u64|
                    #[trigger] map_of(t).contains_key(k2) ==> k <= k2),
                Option::None => map_of(t) == Map::<u64, u64>::empty(),
            }),
        decreases t,
    {
        match root {
            Option::None => {
                proof {
                    assert(t is Leaf);
                    assert(map_of(t) =~= Map::<u64, u64>::empty());
                }
                Option::None
            },
            Option::Some(rk) => {
                proof {
                    assert(t is Node);
                }
                let f = self.read_node(store, rk, Ghost(t));
                let r = self.min_at(store, f.2, Ghost(left_of(t)), Ghost(lo), Ghost(
                    Option::Some(rk),
                ));
                proof {
                    lemma_shape_bounds(
                        store.contents(),
                        self.prefix@,
                        left_of(t),
                        lo,
                        Option::Some(rk),
                    );
                    lemma_shape_bounds(
                        store.contents(),
                        self.prefix@,
                        right_of(t),
                        Option::Some(rk),
                        hi,
                    );
                    lemma_map_split(store.contents(), self.prefix@, t, lo, hi, rk);
                }
                let out = match r {
                    Option::Some(k) => Option::Some(k),
                    Option::None => Option::Some(rk),
                };
                proof {
                    let k = out.unwrap();
                    if r is Some {
                        lemma_map_split(store.contents(), self.prefix@, t, lo, hi, k);
                    }
                    assert forall|k2: u64| #[trigger] map_of(t).contains_key(k2) implies k
                        <= k2 by {
                        lemma_map_split(store.contents(), self.prefix@, t, lo, hi, k2);
                    }
                }
                out
            },
        }
    }

    /// The largest key below the given root, if any.
    fn max_at(&self, store: &Store, root: Option<u64>, Ghost(t): Ghost<TreeShape>, Ghost(lo): Ghost<
        Option<u64>,
    >, Ghost(hi): Ghost<Option<u64>>) -> (r: Option<u64>)
        requires
            store.wf(),
            shape_wf(store.contents(), self.prefix@, t, lo, hi),
            root == root_of(t),
        ensures
            (match r {
                Option::Some(k) => map_of(t).contains_key(k) && (forall|k2: u64|
                    #[trigger] map_of(t).contains_key(k2) ==> k >= k2),
                Option::None => map_of(t) == Map::<u64, u64>::empty(),
            }),
        decreases t,
    {
        match root {
            Option::None => {
                proof {
                    assert(t is Leaf);
                    assert(map_of(t) =~= Map::<u64, u64>::empty());
                }
                Option::None
            },
            Option::Some(rk) => {
                proof {
                    assert(t is Node);
                }
                let f = self.read_node(store, rk, Ghost(t));
                let r = self.max_at(store, f.3, Ghost(right_of(t)), Ghost(Option::Some(rk)), Ghost(
                    hi,
                ));
                proof {
                    lemma_shape_bounds(
                        store.contents(),
                        self.prefix@,
                        left_of(t),
                        lo,
                        Option::Some(rk),
                    );
                    lemma_shape_bounds(
                        store.contents(),
                        self.prefix@,
                        right_of(t),
                        Option::Some(rk),
                        hi,
                    );
                    lemma_map_split(store.contents(), self.prefix@, t, lo, hi, rk);
                }
                let out = match r {
                    Option::Some(k) => Option::Some(k),
                    Option::None => Option::Some(rk),
                };
                proof {
                    let k = out.unwrap();
                    if r is Some {
                        lemma_map_split(store.contents(), self.prefix@, t, lo, hi, k);
                    }
                    assert forall|k2: u64| #[trigger] map_of(t).contains_key(k2) implies k
                        >= k2 by {
                        lemma_map_split(store.contents(), self.prefix@, t, lo, hi, k2);
                    }
                }
                out
            },
        }
    }

    /// Takes the smallest node out from under the given root, handing
    /// back its key, its value and the subtree's new root.
    fn remove_min_at(
        &self,
        store: &mut Store,
        root: u64,
        Ghost(t): Ghost<TreeShape>,
        Ghost(lo): Ghost<Option<u64>>,
        Ghost(hi): Ghost<Option<u64>>,
    ) -> (res: (u64, u64, Option<u64>, Ghost<TreeShape>))
        requires
            old(store).wf(),
            shape_wf(old(store).contents(), self.prefix@, t, lo, hi),
            t is Node,
            root_of(t) == Option::Some(root),
        ensures
            final(store).wf(),
            shape_wf(final(store).contents(), self.prefix@, res.3@, lo, hi),
            res.2 == root_of(res.3@),
            map_of(t).contains_key(res.0) && map_of(t)[res.0] == res.1,
            forall|k2: u64| #[trigger] map_of(t).contains_key(k2) ==> res.0 <= k2,
            map_of(res.3@) == map_of(t).remove(res.0),
            keys_seq(res.3@).len() == keys_seq(t).len() - 1,
            above(res.0, lo),
            below(res.0, hi),
            touched_within(
                old(store).contents(),
                final(store).contents(),
                self.prefix@,
                lo,
                hi,
            ),
        decreases t,
    {
        let ghost prefix = self.prefix@;
        let f = self.read_node(store, root, Ghost(t));
        match f.2 {
            Option::None => {
                proof {
                    assert(left_of(t) is Leaf);
                    assert(map_of(left_of(t)) =~= Map::<u64, u64>::empty());
                    assert(keys_seq(left_of(t)) =~= Seq::<u64>::empty());
                }
                let nk = self.node_key_exec(root);
                store.remove(nk.as_slice());
                proof {
                    let s0 = old(store).contents();
                    let s1 = store.contents();
                    lemma_shape_bounds(s0, prefix, right_of(t), Option::Some(root), hi);
                    lemma_touched_single_removed(s0, s1, prefix, lo, hi, root);
                    assert forall|k: u64| map_of(right_of(t)).contains_key(k) implies same_at(
                        s0,
                        s1,
                        #[trigger] node_key(prefix, k),
                    ) by {
                        if node_key(prefix, k) == node_key(prefix, root) {
                            lemma_node_key_injective(prefix, k, root);
                        }
                    }
                    lemma_shape_same_keys(s0, s1, prefix, right_of(t), Option::Some(root), hi);
                    lemma_shape_widen(s1, prefix, right_of(t), Option::Some(root), hi, lo, hi);
                    assert forall|k2: u64| #[trigger] map_of(t).contains_key(k2) implies root
                        <= k2 by {
                        lemma_map_split(s0, prefix, t, lo, hi, k2);
                    }
                    lemma_map_split(s0, prefix, t, lo, hi, root);
                    assert forall|k2: u64|
                        #[trigger] map_of(right_of(t)).contains_key(k2) == (map_of(t).remove(
                            root,
                        ).contains_key(k2)) && (map_of(right_of(t)).contains_key(k2) ==> map_of(
                            right_of(t),
                        )[k2] == map_of(t).remove(root)[k2]) by {
                        lemma_map_split(s0, prefix, t, lo, hi, k2);
                    }
                    assert(map_of(right_of(t)) =~= map_of(t).remove(root));
                }
                (root, f.1, f.3, Ghost(right_of(t)))
            },
            Option::Some(lroot) => {
                proof {
                    assert(left_of(t) is Node);
                }
                let sub = self.remove_min_at(store, lroot, Ghost(left_of(t)), Ghost(lo), Ghost(
                    Option::Some(root),
                ));
                let ghost s0 = old(store).contents();
                let ghost s1 = store.contents();
                let nk = self.node_key_exec(root);
                let body = Self::encode_node(root, f.1, sub.2, f.3);
                store.set(nk.as_slice(), body.as_slice());
                let ghost nt = TreeShape::Node {
                    key: root,
                    value: f.1,
                    left: Box::new(sub.3@),
                    right: Box::new(right_of(t)),
                };
                proof {
                    let s2 = store.contents();
                    lemma_touched_single(s1, s2, prefix, lo, hi, root, body@);
                    lemma_shape_untouched(
                        s0,
                        s1,
                        prefix,
                        right_of(t),
                        Option::Some(root),
                        hi,
                        lo,
                        Option::Some(root),
                    );
                    lemma_shape_single_other(
                        s1,
                        s2,
                        prefix,
                        sub.3@,
                        lo,
                        Option::Some(root),
                        root,
                        body@,
                    );
                    lemma_shape_single_other(
                        s1,
                        s2,
                        prefix,
                        right_of(t),
                        Option::Some(root),
                        hi,
                        root,
                        body@,
                    );
                    assert(shape_wf(s2, prefix, nt, lo, hi));
                    lemma_touched_compose(
                        s0,
                        s1,
                        s2,
                        prefix,
                        lo,
                        Option::Some(root),
                        lo,
                        hi,
                        lo,
                        hi,
                    );
                    lemma_shape_bounds(s0, prefix, right_of(t), Option::Some(root), hi);
                    assert forall|k2: u64| #[trigger] map_of(t).contains_key(k2) implies sub.0
                        <= k2 by {
                        lemma_map_split(s0, prefix, t, lo, hi, k2);
                    }
                    lemma_map_split(s0, prefix, t, lo, hi, sub.0);
                    assert forall|k2: u64|
                        #[trigger] map_of(nt).contains_key(k2) == (map_of(t).remove(
                            sub.0,
                        ).contains_key(k2)) && (map_of(nt).contains_key(k2) ==> map_of(nt)[k2]
                        == map_of(t).remove(sub.0)[k2]) by {
                        lemma_map_split(s0, prefix, t, lo, hi, k2);
                        lemma_map_split(s2, prefix, nt, lo, hi, k2);
                    }
                    assert(map_of(nt) =~= map_of(t).remove(sub.0));
                    assert(keys_seq(nt) == keys_seq(sub.3@) + seq![root] + keys_seq(right_of(t)));
                    assert(keys_seq(t) == keys_seq(left_of(t)) + seq![root] + keys_seq(
                        right_of(t),
                    ));
                }
                (sub.0, sub.1, Option::Some(root), Ghost(nt))
            },
        }
    }

    /// Takes the node of `key` out from under the given root; `key` must
    /// be live below it.  A node with two children is replaced by its
    /// in-order successor.
    #[verifier::rlimit(80)]
    fn remove_at(
        &self,
        store: &mut Store,
        root: u64,
        key: u64,
        Ghost(t): Ghost<TreeShape>,
        Ghost(lo): Ghost<Option<u64>>,
        Ghost(hi): Ghost<Option<u64>>,
    ) -> (res: (Option<u64>, Ghost<TreeShape>, u64))
        requires
            old(store).wf(),
            shape_wf(old(store).contents(), self.prefix@, t, lo, hi),
            root_of(t) == Option::Some(root),
            map_of(t).contains_key(key),
        ensures
            final(store).wf(),
            shape_wf(final(store).contents(), self.prefix@, res.1@, lo, hi),
            res.0 == root_of(res.1@),
            map_of(res.1@) == map_of(t).remove(key),
            keys_seq(res.1@).len() == keys_seq(t).len() - 1,
            res.2 == map_of(t)[key],
            touched_within(
                old(store).contents(),
                final(store).contents(),
                self.prefix@,
                lo,
                hi,
            ),
        decreases t,
    {
        let ghost prefix = self.prefix@;
        proof {
            assert(t is Node);
            lemma_shape_bounds(old(store).contents(), prefix, left_of(t), lo, Option::Some(root));
            lemma_shape_bounds(old(store).contents(), prefix, right_of(t), Option::Some(root), hi);
            lemma_map_split(old(store).contents(), prefix, t, lo, hi, key);
        }
        let f = self.read_node(store, root, Ghost(t));
        if key < f.0 {
            let ghost s0 = old(store).contents();
            let lroot = match f.2 {
                Option::Some(l) => l,
                Option::None => {
                    proof {
                        assert(map_of(left_of(t)) =~= Map::<u64, u64>::empty());
                        assert(false);
                    }
                    return (Option::None, Ghost(t), 0);
                },
            };
            let sub = self.remove_at(store, lroot, key, Ghost(left_of(t)), Ghost(lo), Ghost(
                Option::Some(root),
            ));
            let ghost s1 = store.contents();
            let nk = self.node_key_exec(root);
            let body = Self::encode_node(root, f.1, sub.0, f.3);
            store.set(nk.as_slice(), body.as_slice());
            let ghost nt = TreeShape::Node {
                key: root,
                value: f.1,
                left: Box::new(sub.1@),
                right: Box::new(right_of(t)),
            };
            proof {
                let s2 = store.contents();
                lemma_touched_single(s1, s2, prefix, lo, hi, root, body@);
                lemma_shape_untouched(
                    s0,
                    s1,
                    prefix,
                    right_of(t),
                    Option::Some(root),
                    hi,
                    lo,
                    Option::Some(root),
                );
                lemma_shape_single_other(
                    s1,
                    s2,
                    prefix,
                    sub.1@,
                    lo,
                    Option::Some(root),
                    root,
                    body@,
                );
                lemma_shape_single_other(
                    s1,
                    s2,
                    prefix,
                    right_of(t),
                    Option::Some(root),
                    hi,
                    root,
                    body@,
                );
                assert(shape_wf(s2, prefix, nt, lo, hi));
                lemma_touched_compose(
                    s0,
                    s1,
                    s2,
                    prefix,
                    lo,
                    Option::Some(root),
                    lo,
                    hi,
                    lo,
                    hi,
                );
                assert forall|k2: u64|
                    #[trigger] map_of(nt).contains_key(k2) == (map_of(t).remove(key).contains_key(
                        k2,
                    )) && (map_of(nt).contains_key(k2) ==> map_of(nt)[k2] == map_of(t).remove(
                        key,
                    )[k2]) by {
                    lemma_map_split(s0, prefix, t, lo, hi, k2);
                    lemma_map_split(s2, prefix, nt, lo, hi, k2);
                }
                assert(map_of(nt) =~= map_of(t).remove(key));
                assert(keys_seq(nt) == keys_seq(sub.1@) + seq![root] + keys_seq(right_of(t)));
                assert(keys_seq(t) == keys_seq(left_of(t)) + seq![root] + keys_seq(right_of(t)));
            }
            (Option::Some(root), Ghost(nt), sub.2)
        } else if key > f.0 {
            let ghost s0 = old(store).contents();
            let rroot = match f.3 {
                Option::Some(r) => r,
                Option::None => {
                    proof {
                        assert(map_of(right_of(t)) =~= Map::<u64, u64>::empty());
                        assert(false);
                    }
                    return (Option::None, Ghost(t), 0);
                },
            };
            let sub = self.remove_at(store, rroot, key, Ghost(right_of(t)), Ghost(
                Option::Some(root),
            ), Ghost(hi));
            let ghost s1 = store.contents();
            let nk = self.node_key_exec(root);
            let body = Self::encode_node(root, f.1, f.2, sub.0);
            store.set(nk.as_slice(), body.as_slice());
            let ghost nt = TreeShape::Node {
                key: root,
                value: f.1,
                left: Box::new(left_of(t)),
                right: Box::new(sub.1@),
            };
            proof {
                let s2 = store.contents();
                lemma_touched_single(s1, s2, prefix, lo, hi, root, body@);
                lemma_shape_untouched(
                    s0,
                    s1,
                    prefix,
                    left_of(t),
                    lo,
                    Option::Some(root),
                    Option::Some(root),
                    hi,
                );
                lemma_shape_single_other(
                    s1,
                    s2,
                    prefix,
                    left_of(t),
                    lo,
                    Option::Some(root),
                    root,
                    body@,
                );
                lemma_shape_single_other(
                    s1,
                    s2,
                    prefix,
                    sub.1@,
                    Option::Some(root),
                    hi,
                    root,
                    body@,
                );
                assert(shape_wf(s2, prefix, nt, lo, hi));
                lemma_touched_compose(
                    s0,
                    s1,
                    s2,
                    prefix,
                    Option::Some(root),
                    hi,
                    lo,
                    hi,
                    lo,
                    hi,
                );
                assert forall|k2: u64|
                    #[trigger] map_of(nt).contains_key(k2) == (map_of(t).remove(key).contains_key(
                        k2,
                    )) && (map_of(nt).contains_key(k2) ==> map_of(nt)[k2] == map_of(t).remove(
                        key,
                    )[k2]) by {
                    lemma_map_split(s0, prefix, t, lo, hi, k2);
                    lemma_map_split(s2, prefix, nt, lo, hi, k2);
                }
                assert(map_of(nt) =~= map_of(t).remove(key));
                assert(keys_seq(nt) == keys_seq(left_of(t)) + seq![root] + keys_seq(sub.1@));
                assert(keys_seq(t) == keys_seq(left_of(t)) + seq![root] + keys_seq(right_of(t)));
            }
            (Option::Some(root), Ghost(nt), sub.2)
        } else {
            match (f.2, f.3) {
                (Option::None, _) => {
                    proof {
                        assert(left_of(t) is Leaf);
                        assert(map_of(left_of(t)) =~= Map::<u64, u64>::empty());
                        assert(keys_seq(left_of(t)) =~= Seq::<u64>::empty());
                    }
                    let nk = self.node_key_exec(root);
                    store.remove(nk.as_slice());
                    proof {
                        let s0 = old(store).contents();
                        let s1 = store.contents();
                        lemma_touched_single_removed(s0, s1, prefix, lo, hi, root);
                        assert forall|k: u64| map_of(right_of(t)).contains_key(k) implies same_at(
                            s0,
                            s1,
                            #[trigger] node_key(prefix, k),
                        ) by {
                            if node_key(prefix, k) == node_key(prefix, root) {
                                lemma_node_key_injective(prefix, k, root);
                            }
                        }
                        lemma_shape_same_keys(s0, s1, prefix, right_of(t), Option::Some(root), hi);
                        lemma_shape_widen(s1, prefix, right_of(t), Option::Some(root), hi, lo, hi);
                        assert forall|k2: u64|
                            #[trigger] map_of(right_of(t)).contains_key(k2) == (map_of(t).remove(
                                key,
                            ).contains_key(k2)) && (map_of(right_of(t)).contains_key(k2) ==> map_of(
                                right_of(t),
                            )[k2] == map_of(t).remove(key)[k2]) by {
                            lemma_map_split(s0, prefix, t, lo, hi, k2);
                        }
                        assert(map_of(right_of(t)) =~= map_of(t).remove(key));
                    }
                    (f.3, Ghost(right_of(t)), f.1)
                },
                (_, Option::None) => {
                    proof {
                        assert(right_of(t) is Leaf);
                        assert(map_of(right_of(t)) =~= Map::<u64, u64>::empty());
                        assert(keys_seq(right_of(t)) =~= Seq::<u64>::empty());
                    }
                    let nk = self.node_key_exec(root);
                    store.remove(nk.as_slice());
                    proof {
                        let s0 = old(store).contents();
                        let s1 = store.contents();
                        lemma_touched_single_removed(s0, s1, prefix, lo, hi, root);
                        assert forall|k: u64| map_of(left_of(t)).contains_key(k) implies same_at(
                            s0,
                            s1,
                            #[trigger] node_key(prefix, k),
                        ) by {
                            if node_key(prefix, k) == node_key(prefix, root) {
                                lemma_node_key_injective(prefix, k, root);
                            }
                        }
                        lemma_shape_same_keys(s0, s1, prefix, left_of(t), lo, Option::Some(root));
                        assert forall|k: u64| below(k, Option::Some(root)) implies below(k, hi) by {}
                        lemma_shape_widen(s1, prefix, left_of(t), lo, Option::Some(root), lo, hi);
                        assert forall|k2: u64|
                            #[trigger] map_of(left_of(t)).contains_key(k2) == (map_of(t).remove(
                                key,
                            ).contains_key(k2)) && (map_of(left_of(t)).contains_key(k2) ==> map_of(
                                left_of(t),
                            )[k2] == map_of(t).remove(key)[k2]) by {
                            lemma_map_split(s0, prefix, t, lo, hi, k2);
                        }
                        assert(map_of(left_of(t)) =~= map_of(t).remove(key));
                    }
                    (f.2, Ghost(left_of(t)), f.1)
                },
                (Option::Some(_), Option::Some(rroot)) => {
                    proof {
                        assert(right_of(t) is Node);
                    }
                    let sub = self.remove_min_at(store, rroot, Ghost(right_of(t)), Ghost(
                        Option::Some(root),
                    ), Ghost(hi));
                    let ghost s0 = old(store).contents();
                    let ghost s1 = store.contents();
                    let snk = self.node_key_exec(sub.0);
                    let body = Self::encode_node(sub.0, sub.1, f.2, sub.2);
                    store.set(snk.as_slice(), body.as_slice());
                    let ghost s2 = store.contents();
                    let nk = self.node_key_exec(root);
                    store.remove(nk.as_slice());
                    let ghost nt = TreeShape::Node {
                        key: sub.0,
                        value: sub.1,
                        left: Box::new(left_of(t)),
                        right: Box::new(sub.3@),
                    };
                    proof {
                        let s3 = store.contents();
                        // the left subtree survives all three steps
                        lemma_shape_untouched(
                            s0,
                            s1,
                            prefix,
                            left_of(t),
                            lo,
                            Option::Some(root),
                            Option::Some(root),
                            hi,
                        );
                        lemma_shape_single_other(
                            s1,
                            s2,
                            prefix,
                            left_of(t),
                            lo,
                            Option::Some(root),
                            sub.0,
                            body@,
                        );
                        assert forall|k: u64| map_of(left_of(t)).contains_key(k) implies same_at(
                            s2,
                            s3,
                            #[trigger] node_key(prefix, k),
                        ) by {
                            if node_key(prefix, k) == node_key(prefix, root) {
                                lemma_node_key_injective(prefix, k, root);
                            }
                        }
                        lemma_shape_same_keys(s2, s3, prefix, left_of(t), lo, Option::Some(root));
                        assert forall|k: u64| below(k, Option::Some(root)) implies below(
                            k,
                            Option::Some(sub.0),
                        ) by {}
                        lemma_shape_widen(
                            s3,
                            prefix,
                            left_of(t),
                            lo,
                            Option::Some(root),
                            lo,
                            Option::Some(sub.0),
                        );
                        // the spliced-out successor's subtree survives the two writes
                        assert forall|k: u64| map_of(sub.3@).contains_key(k) implies same_at(
                            s1,
                            s2,
                            #[trigger] node_key(prefix, k),
                        ) by {
                            if node_key(prefix, k) == node_key(prefix, sub.0) {
                                lemma_node_key_injective(prefix, k, sub.0);
                            }
                        }
                        lemma_shape_same_keys(s1, s2, prefix, sub.3@, Option::Some(root), hi);
                        assert forall|k: u64| map_of(sub.3@).contains_key(k) implies same_at(
                            s2,
                            s3,
                            #[trigger] node_key(prefix, k),
                        ) by {
                            if node_key(prefix, k) == node_key(prefix, root) {
                                lemma_node_key_injective(prefix, k, root);
                            }
                        }
                        lemma_shape_same_keys(s2, s3, prefix, sub.3@, Option::Some(root), hi);
                        assert forall|k: u64| #[trigger] map_of(sub.3@).contains_key(k) implies
                            above(k, Option::Some(sub.0)) by {
                            assert(map_of(right_of(t)).contains_key(k));
                        }
                        lemma_shape_rebound_lo(
                            s3,
                            prefix,
                            sub.3@,
                            Option::Some(root),
                            hi,
                            Option::Some(sub.0),
                        );
                        // the new root node's record stands
                        assert(node_key(prefix, sub.0) != node_key(prefix, root)) by {
                            if node_key(prefix, sub.0) == node_key(prefix, root) {
                                lemma_node_key_injective(prefix, sub.0, root);
                            }
                        }
                        assert(s3.contains_key(node_key(prefix, sub.0)));
                        assert(s3[node_key(prefix, sub.0)] == node_bytes(
                            sub.0,
                            sub.1,
                            root_of(left_of(t)),
                            root_of(sub.3@),
                        ));
                        assert(shape_wf(s3, prefix, nt, lo, hi));
                        // every touched record lies inside the window
                        lemma_touched_single(s1, s2, prefix, lo, hi, sub.0, body@);
                        lemma_touched_single_removed(s2, s3, prefix, lo, hi, root);
                        lemma_touched_compose(
                            s0,
                            s1,
                            s2,
                            prefix,
                            Option::Some(root),
                            hi,
                            lo,
                            hi,
                            lo,
                            hi,
                        );
                        lemma_touched_compose(s0, s2, s3, prefix, lo, hi, lo, hi, lo, hi);
                        // the held map loses exactly the removed key
                        assert forall|k2: u64|
                            #[trigger] map_of(nt).contains_key(k2) == (map_of(t).remove(
                                key,
                            ).contains_key(k2)) && (map_of(nt).contains_key(k2) ==> map_of(nt)[k2]
                            == map_of(t).remove(key)[k2]) by {
                            lemma_map_split(s0, prefix, t, lo, hi, k2);
                            lemma_map_split(s3, prefix, nt, lo, hi, k2);
                        }
                        assert(map_of(nt) =~= map_of(t).remove(key));
                        assert(keys_seq(nt) == keys_seq(left_of(t)) + seq![sub.0] + keys_seq(
                            sub.3@,
                        ));
                        assert(keys_seq(t) == keys_seq(left_of(t)) + seq![root] + keys_seq(
                            right_of(t),
                        ));
                    }
                    (Option::Some(sub.0), Ghost(nt), f.1)
                },
            }
        }
    }

    /// The largest key at or below `key` under the given root, if any.
    fn floor_at(&self, store: &Store, root: Option<u64>, key: u64, Ghost(t): Ghost<TreeShape>, Ghost(
        lo,
    ): Ghost<Option<u64>>, Ghost(hi): Ghost<Option<u64>>) -> (r: Option<u64>)
        requires
            store.wf(),
            shape_wf(store.contents(), self.prefix@, t, lo, hi),
            root == root_of(t),
        ensures
            (match r {
                Option::Some(fk) => map_of(t).contains_key(fk) && fk <= key && (forall|k2: u64|
                    #[trigger] map_of(t).contains_key(k2) && k2 <= key ==> k2 <= fk),
                Option::None => forall|k2: u64|
                    #[trigger] map_of(t).contains_key(k2) ==> k2 > key,
            }),
        decreases t,
    {
        match root {
            Option::None => {
                proof {
                    assert(t is Leaf);
                    assert(map_of(t) =~= Map::<u64, u64>::empty());
                }
                Option::None
            },
            Option::Some(rk) => {
                proof {
                    assert(t is Node);
                    lemma_shape_bounds(
                        store.contents(),
                        self.prefix@,
                        left_of(t),
                        lo,
                        Option::Some(rk),
                    );
                    lemma_shape_bounds(
                        store.contents(),
                        self.prefix@,
                        right_of(t),
                        Option::Some(rk),
                        hi,
                    );
                    lemma_map_split(store.contents(), self.prefix@, t, lo, hi, rk);
                }
                let f = self.read_node(store, rk, Ghost(t));
                if key == rk {
                    proof {
                        assert forall|k2: u64|
                            #[trigger] map_of(t).contains_key(k2) && k2 <= key implies k2 <= rk by {
                            lemma_map_split(store.contents(), self.prefix@, t, lo, hi, k2);
                        }
                    }
                    Option::Some(rk)
                } else if key < rk {
                    let r = self.floor_at(store, f.2, key, Ghost(left_of(t)), Ghost(lo), Ghost(
                        Option::Some(rk),
                    ));
                    proof {
                        if r is Some {
                            lemma_map_split(
                                store.contents(),
                                self.prefix@,
                                t,
                                lo,
                                hi,
                                r.unwrap(),
                            );
                        }
                        assert forall|k2: u64|
                            #[trigger] map_of(t).contains_key(k2) && k2 <= key implies map_of(
                            left_of(t),
                        ).contains_key(k2) by {
                            lemma_map_split(store.contents(), self.prefix@, t, lo, hi, k2);
                        }
                    }
                    r
                } else {
                    let r = self.floor_at(store, f.3, key, Ghost(right_of(t)), Ghost(
                        Option::Some(rk),
                    ), Ghost(hi));
                    let out = match r {
                        Option::Some(fk) => Option::Some(fk),
                        Option::None => Option::Some(rk),
                    };
                    proof {
                        lemma_map_split(store.contents(), self.prefix@, t, lo, hi, out.unwrap());
                        assert forall|k2: u64|
                            #[trigger] map_of(t).contains_key(k2) && k2 <= key implies k2
                            <= out.unwrap() by {
                            lemma_map_split(store.contents(), self.prefix@, t, lo, hi, k2);
                        }
                    }
                    out
                }
            },
        }
    }

    /// The smallest key at or above `key` under the given root, if any.
    fn ceiling_at(
        &self,
        store: &Store,
        root: Option<u64>,
        key: u64,
        Ghost(t): Ghost<TreeShape>,
        Ghost(lo): Ghost<Option<u64>>,
        Ghost(hi): Ghost<Option<u64>>,
    ) -> (r: Option<u64>)
        requires
            store.wf(),
            shape_wf(store.contents(), self.prefix@, t, lo, hi),
            root == root_of(t),
        ensures
            (match r {
                Option::Some(ck) => map_of(t).contains_key(ck) && ck >= key && (forall|k2: u64|
                    #[trigger] map_of(t).contains_key(k2) && k2 >= key ==> k2 >= ck),
                Option::None => forall|k2: u64|
                    #[trigger] map_of(t).contains_key(k2) ==> k2 < key,
            }),
        decreases t,
    {
        match root {
            Option::None => {
                proof {
                    assert(t is Leaf);
                    assert(map_of(t) =~= Map::<u64, u64>::empty());
                }
                Option::None
            },
            Option::Some(rk) => {
                proof {
                    assert(t is Node);
                    lemma_shape_bounds(
                        store.contents(),
                        self.prefix@,
                        left_of(t),
                        lo,
                        Option::Some(rk),
                    );
                    lemma_shape_bounds(
                        store.contents(),
                        self.prefix@,
                        right_of(t),
                        Option::Some(rk),
                        hi,
                    );
                    lemma_map_split(store.contents(), self.prefix@, t, lo, hi, rk);
                }
                let f = self.read_node(store, rk, Ghost(t));
                if key == rk {
                    proof {
                        assert forall|k2: u64|
                            #[trigger] map_of(t).contains_key(k2) && k2 >= key implies k2 >= rk by {
                            lemma_map_split(store.contents(), self.prefix@, t, lo, hi, k2);
                        }
                    }
                    Option::Some(rk)
                } else if key > rk {
                    let r = self.ceiling_at(store, f.3, key, Ghost(right_of(t)), Ghost(
                        Option::Some(rk),
                    ), Ghost(hi));
                    proof {
                        if r is Some {
                            lemma_map_split(
                                store.contents(),
                                self.prefix@,
                                t,
                                lo,
                                hi,
                                r.unwrap(),
                            );
                        }
                        assert forall|k2: u64|
                            #[trigger] map_of(t).contains_key(k2) && k2 >= key implies map_of(
                            right_of(t),
                        ).contains_key(k2) by {
                            lemma_map_split(store.contents(), self.prefix@, t, lo, hi, k2);
                        }
                    }
                    r
                } else {
                    let r = self.ceiling_at(store, f.2, key, Ghost(left_of(t)), Ghost(lo), Ghost(
                        Option::Some(rk),
                    ));
                    let out = match r {
                        Option::Some(ck) => Option::Some(ck),
                        Option::None => Option::Some(rk),
                    };
                    proof {
                        lemma_map_split(store.contents(), self.prefix@, t, lo, hi, out.unwrap());
                        assert forall|k2: u64|
                            #[trigger] map_of(t).contains_key(k2) && k2 >= key implies k2
                            >= out.unwrap() by {
                            lemma_map_split(store.contents(), self.prefix@, t, lo, hi, k2);
                        }
                    }
                    out
                }
            },
        }
    }

    /// The largest live key at or below `key`, if any.
    pub fn floor(&self, store: &Store, key: u64) -> (r: Option<u64>)
        requires
            self.wf(*store),
        ensures
            (match r {
                Option::Some(fk) => self@.contains_key(fk) && fk <= key && (forall|k2: u64|
                    #[trigger] self@.contains_key(k2) && k2 <= key ==> k2 <= fk),
                Option::None => forall|k2: u64| #[trigger] self@.contains_key(k2) ==> k2 > key,
            }),
    {
        self.floor_at(store, self.root, key, Ghost(self.shape@), Ghost(Option::None), Ghost(
            Option::None,
        ))
    }

    /// The smallest live key at or above `key`, if any.
    pub fn ceiling(&self, store: &Store, key: u64) -> (r: Option<u64>)
        requires
            self.wf(*store),
        ensures
            (match r {
                Option::Some(ck) => self@.contains_key(ck) && ck >= key && (forall|k2: u64|
                    #[trigger] self@.contains_key(k2) && k2 >= key ==> k2 >= ck),
                Option::None => forall|k2: u64| #[trigger] self@.contains_key(k2) ==> k2 < key,
            }),
    {
        self.ceiling_at(store, self.root, key, Ghost(self.shape@), Ghost(Option::None), Ghost(
            Option::None,
        ))
    }

    /// The smallest live key, if any.
    pub fn min(&self, store: &Store) -> (r: Option<u64>)
        requires
            self.wf(*store),
        ensures
            (match r {
                Option::Some(k) => self@.contains_key(k) && (forall|k2: u64|
                    #[trigger] self@.contains_key(k2) ==> k <= k2),
                Option::None => self@ == Map::<u64, u64>::empty(),
            }),
    {
        self.min_at(store, self.root, Ghost(self.shape@), Ghost(Option::None), Ghost(Option::None))
    }

    /// The largest live key, if any.
    pub fn max(&self, store: &Store) -> (r: Option<u64>)
        requires
            self.wf(*store),
        ensures
            (match r {
                Option::Some(k) => self@.contains_key(k) && (forall|k2: u64|
                    #[trigger] self@.contains_key(k2) ==> k >= k2),
                Option::None => self@ == Map::<u64, u64>::empty(),
            }),
    {
        self.max_at(store, self.root, Ghost(self.shape@), Ghost(Option::None), Ghost(Option::None))
    }

    /// Whether a value lies under `key`.
    pub fn contains(&self, store: &Store, key: u64) -> (r: bool)
        requires
            self.wf(*store),
        ensures
            r == self@.contains_key(key),
    {
        self.get(store, key).is_some()
    }

    /// Lays `value` under `key` below the given root, attaching a fresh
    /// leaf where the key is new.
    #[verifier::rlimit(50)]
    fn insert_at(
        &self,
        store: &mut Store,
        root: Option<u64>,
        key: u64,
        value: u64,
        Ghost(t): Ghost<TreeShape>,
        Ghost(lo): Ghost<Option<u64>>,
        Ghost(hi): Ghost<Option<u64>>,
    ) -> (res: (Option<u64>, Ghost<TreeShape>, Option<u64>))
        requires
            old(store).wf(),
            shape_wf(old(store).contents(), self.prefix@, t, lo, hi),
            root == root_of(t),
            above(key, lo),
            below(key, hi),
        ensures
            final(store).wf(),
            shape_wf(final(store).contents(), self.prefix@, res.1@, lo, hi),
            res.0 == root_of(res.1@),
            map_of(res.1@) == map_of(t).insert(key, value),
            keys_seq(res.1@).len() == keys_seq(t).len() + (if map_of(t).contains_key(key) {
                0int
            } else {
                1int
            }),
            touched_within(
                old(store).contents(),
                final(store).contents(),
                self.prefix@,
                lo,
                hi,
            ),
            (match res.2 {
                Option::Some(v) => map_of(t).contains_key(key) && map_of(t)[key] == v,
                Option::None => !map_of(t).contains_key(key),
            }),
        decreases t,
    {
        let ghost prefix = self.prefix@;
        match root {
            Option::None => {
                proof {
                    assert(t is Leaf);
                    assert(map_of(t) =~= Map::<u64, u64>::empty());
                }
                let nk = self.node_key_exec(key);
                let body = Self::encode_node(key, value, Option::None, Option::None);
                store.set(nk.as_slice(), body.as_slice());
                let ghost nt = TreeShape::Node {
                    key,
                    value,
                    left: Box::new(TreeShape::Leaf),
                    right: Box::new(TreeShape::Leaf),
                };
                proof {
                    assert(map_of(nt) =~= map_of(t).insert(key, value));
                    assert(keys_seq(nt) =~= seq![key]);
                    lemma_touched_single(
                        old(store).contents(),
                        store.contents(),
                        prefix,
                        lo,
                        hi,
                        key,
                        body@,
                    );
                    assert(shape_wf(
                        store.contents(),
                        prefix,
                        TreeShape::Leaf,
                        lo,
                        Option::Some(key),
                    ));
                    assert(shape_wf(
                        store.contents(),
                        prefix,
                        TreeShape::Leaf,
                        Option::Some(key),
                        hi,
                    ));
                    assert(shape_wf(store.contents(), prefix, nt, lo, hi));
                }
                (Option::Some(key), Ghost(nt), Option::None)
            },
            Option::Some(rk) => {
                proof {
                    assert(t is Node);
                }
                let f = self.read_node(store, rk, Ghost(t));
                proof {
                    lemma_map_split(old(store).contents(), prefix, t, lo, hi, key);
                    lemma_shape_bounds(
                        old(store).contents(),
                        prefix,
                        left_of(t),
                        lo,
                        Option::Some(rk),
                    );
                    lemma_shape_bounds(
                        old(store).contents(),
                        prefix,
                        right_of(t),
                        Option::Some(rk),
                        hi,
                    );
                }
                if key == f.0 {
                    let nk = self.node_key_exec(rk);
                    let body = Self::encode_node(rk, value, f.2, f.3);
                    store.set(nk.as_slice(), body.as_slice());
                    let ghost nt = TreeShape::Node {
                        key: rk,
                        value,
                        left: Box::new(left_of(t)),
                        right: Box::new(right_of(t)),
                    };
                    proof {
                        lemma_touched_single(
                            old(store).contents(),
                            store.contents(),
                            prefix,
                            lo,
                            hi,
                            rk,
                            body@,
                        );
                        lemma_shape_single_other(
                            old(store).contents(),
                            store.contents(),
                            prefix,
                            left_of(t),
                            lo,
                            Option::Some(rk),
                            rk,
                            body@,
                        );
                        lemma_shape_single_other(
                            old(store).contents(),
                            store.contents(),
                            prefix,
                            right_of(t),
                            Option::Some(rk),
                            hi,
                            rk,
                            body@,
                        );
                        assert(map_of(nt) =~= map_of(t).insert(key, value));
                        assert(keys_seq(nt) =~= keys_seq(t));
                        assert(shape_wf(store.contents(), prefix, nt, lo, hi));
                    }
                    (Option::Some(rk), Ghost(nt), Option::Some(f.1))
                } else if key < f.0 {
                    let ghost s0 = old(store).contents();
                    let sub = self.insert_at(store, f.2, key, value, Ghost(left_of(t)), Ghost(lo), Ghost(
                        Option::Some(rk),
                    ));
                    let ghost s1 = store.contents();
                    let nk = self.node_key_exec(rk);
                    let body = Self::encode_node(rk, f.1, sub.0, f.3);
                    store.set(nk.as_slice(), body.as_slice());
                    let ghost nt = TreeShape::Node {
                        key: rk,
                        value: f.1,
                        left: Box::new(sub.1@),
                        right: Box::new(right_of(t)),
                    };
                    proof {
                        let s2 = store.contents();
                        lemma_touched_single(s1, s2, prefix, lo, hi, rk, body@);
                        // the recursion left the right subtree and this node alone
                        lemma_shape_untouched(
                            s0,
                            s1,
                            prefix,
                            right_of(t),
                            Option::Some(rk),
                            hi,
                            lo,
                            Option::Some(rk),
                        );
                        // the rewrite of this node left both subtrees alone
                        lemma_shape_single_other(
                            s1,
                            s2,
                            prefix,
                            sub.1@,
                            lo,
                            Option::Some(rk),
                            rk,
                            body@,
                        );
                        lemma_shape_single_other(
                            s1,
                            s2,
                            prefix,
                            right_of(t),
                            Option::Some(rk),
                            hi,
                            rk,
                            body@,
                        );
                        assert(shape_wf(s2, prefix, nt, lo, hi));
                        lemma_touched_compose(
                            s0,
                            s1,
                            s2,
                            prefix,
                            lo,
                            Option::Some(rk),
                            lo,
                            hi,
                            lo,
                            hi,
                        );
                        assert(map_of(nt) =~= map_of(t).insert(key, value));
                        assert(keys_seq(nt) == keys_seq(sub.1@) + seq![rk] + keys_seq(right_of(t)));
                        assert(keys_seq(t) == keys_seq(left_of(t)) + seq![rk] + keys_seq(
                            right_of(t),
                        ));
                    }
                    (Option::Some(rk), Ghost(nt), sub.2)
                } else {
                    let ghost s0 = old(store).contents();
                    let sub = self.insert_at(store, f.3, key, value, Ghost(right_of(t)), Ghost(
                        Option::Some(rk),
                    ), Ghost(hi));
                    let ghost s1 = store.contents();
                    let nk = self.node_key_exec(rk);
                    let body = Self::encode_node(rk, f.1, f.2, sub.0);
                    store.set(nk.as_slice(), body.as_slice());
                    let ghost nt = TreeShape::Node {
                        key: rk,
                        value: f.1,
                        left: Box::new(left_of(t)),
                        right: Box::new(sub.1@),
                    };
                    proof {
                        let s2 = store.contents();
                        lemma_touched_single(s1, s2, prefix, lo, hi, rk, body@);
                        lemma_shape_untouched(
                            s0,
                            s1,
                            prefix,
                            left_of(t),
                            lo,
                            Option::Some(rk),
                            Option::Some(rk),
                            hi,
                        );
                        lemma_shape_single_other(
                            s1,
                            s2,
                            prefix,
                            left_of(t),
                            lo,
                            Option::Some(rk),
                            rk,
                            body@,
                        );
                        lemma_shape_single_other(
                            s1,
                            s2,
                            prefix,
                            sub.1@,
                            Option::Some(rk),
                            hi,
                            rk,
                            body@,
                        );
                        assert(shape_wf(s2, prefix, nt, lo, hi));
                        lemma_touched_compose(
                            s0,
                            s1,
                            s2,
                            prefix,
                            Option::Some(rk),
                            hi,
                            lo,
                            hi,
                            lo,
                            hi,
                        );
                        assert(map_of(nt) =~= map_of(t).insert(key, value));
                        assert(keys_seq(nt) == keys_seq(left_of(t)) + seq![rk] + keys_seq(sub.1@));
                        assert(keys_seq(t) == keys_seq(left_of(t)) + seq![rk] + keys_seq(
                            right_of(t),
                        ));
                    }
                    (Option::Some(rk), Ghost(nt), sub.2)
                }
            },
        }
    }

    /// Lays `value` under `key`, handing back what lay there before; an
    /// existing key keeps its node, a fresh key grows a leaf.
    pub fn insert(&mut self, store: &mut Store, key: u64, value: u64) -> (prev: Option<u64>)
        requires
            old(self).wf(*old(store)),
            old(self)@.dom().len() < 0xffff_ffff_ffff_ffff,
        ensures
            final(self).wf(*final(store)),
            final(self)@ == old(self)@.insert(key, value),
            final(self).prefix_spec() == old(self).prefix_spec(),
            agrees_except_under(
                old(store).contents(),
                final(store).contents(),
                old(self).prefix_spec(),
            ),
            (match prev {
                Option::Some(v) => old(self)@.contains_key(key) && old(self)@[key] == v,
                Option::None => !old(self)@.contains_key(key),
            }),
    {
        proof {
            lemma_in_order_sorted(
                old(store).contents(),
                self.prefix@,
                self.shape@,
                Option::None,
                Option::None,
            );
        }
        let sub = self.insert_at(
            store,
            self.root,
            key,
            value,
            Ghost(self.shape@),
            Ghost(Option::None),
            Ghost(Option::None),
        );
        let ghost s1 = store.contents();
        let rk = append(self.prefix.as_slice(), ROOT_TAG);
        let rbody = Self::encode_opt(sub.0);
        store.set(rk.as_slice(), rbody.as_slice());
        let new_len = if sub.2.is_none() {
            self.length + 1
        } else {
            self.length
        };
        let ck = append(self.prefix.as_slice(), COUNT_TAG);
        let cbody = encode_u64(new_len);
        store.set(ck.as_slice(), cbody.as_slice());
        self.root = sub.0;
        self.length = new_len;
        proof {
            self.shape@ = sub.1@;
            self.lemma_keys();
            assert(rk@ =~= self.root_key());
            assert(ck@ =~= self.count_key());
            let p = old(self).prefix_spec();
            let s0 = old(store).contents();
            let s2 = store.contents();
            // the two metadata writes leave every node record alone
            assert forall|k: u64|
                (s1.contains_key(#[trigger] node_key(p, k)) <==> s2.contains_key(node_key(p, k)))
                    && (s1.contains_key(node_key(p, k)) ==> s1[node_key(p, k)] == s2[node_key(
                    p,
                    k,
                )]) by {
                assert(node_key(p, k) != self.root_key());
                assert(node_key(p, k) != self.count_key());
            }
            lemma_shape_same(s1, s2, p, self.shape@, Option::None, Option::None);
            // every touched key lies under the prefix
            assert forall|sk: Seq<u8>| !(#[trigger] is_under(p, sk)) implies ((s0.contains_key(sk)
                <==> s2.contains_key(sk)) && (s0.contains_key(sk) ==> s0[sk] == s2[sk])) by {
                if !same_at(s0, s1, sk) {
                    let k2 = choose|k2: u64|
                        above(k2, Option::None) && below(k2, Option::None) && sk == node_key(p, k2);
                    crate::keys::lemma_derived_is_under(p, seq![NODE_TAG] + le8(k2));
                }
                assert(sk != self.root_key());
                assert(sk != self.count_key());
            }
        }
        sub.2
    }

    /// Takes the value under `key` out, handing it back; an absent key
    /// changes nothing.
    pub fn remove(&mut self, store: &mut Store, key: u64) -> (prev: Option<u64>)
        requires
            old(self).wf(*old(store)),
        ensures
            final(self).wf(*final(store)),
            final(self)@ == old(self)@.remove(key),
            final(self).prefix_spec() == old(self).prefix_spec(),
            agrees_except_under(
                old(store).contents(),
                final(store).contents(),
                old(self).prefix_spec(),
            ),
            (match prev {
                Option::Some(v) => old(self)@.contains_key(key) && old(self)@[key] == v,
                Option::None => !old(self)@.contains_key(key) && final(store).contents() == old(
                    store,
                ).contents(),
            }),
    {
        if !self.contains(store, key) {
            proof {
                vstd::map::assert_maps_equal!(self@.remove(key), self@);
            }
            return Option::None;
        }
        proof {
            lemma_in_order_sorted(
                old(store).contents(),
                self.prefix@,
                self.shape@,
                Option::None,
                Option::None,
            );
        }
        let root = match self.root {
            Option::Some(r) => r,
            Option::None => {
                proof {
                    assert(self.shape@ is Leaf);
                    assert(map_of(self.shape@) =~= Map::<u64, u64>::empty());
                    assert(false);
                }
                return Option::None;
            },
        };
        let sub = self.remove_at(
            store,
            root,
            key,
            Ghost(self.shape@),
            Ghost(Option::None),
            Ghost(Option::None),
        );
        let ghost s1 = store.contents();
        let rk = append(self.prefix.as_slice(), ROOT_TAG);
        let rbody = Self::encode_opt(sub.0);
        store.set(rk.as_slice(), rbody.as_slice());
        let new_len = self.length - 1;
        let ck = append(self.prefix.as_slice(), COUNT_TAG);
        let cbody = encode_u64(new_len);
        store.set(ck.as_slice(), cbody.as_slice());
        self.root = sub.0;
        self.length = new_len;
        proof {
            self.shape@ = sub.1@;
            self.lemma_keys();
            assert(rk@ =~= self.root_key());
            assert(ck@ =~= self.count_key());
            let p = old(self).prefix_spec();
            let s0 = old(store).contents();
            let s2 = store.contents();
            assert forall|k: u64|
                (s1.contains_key(#[trigger] node_key(p, k)) <==> s2.contains_key(node_key(p, k)))
                    && (s1.contains_key(node_key(p, k)) ==> s1[node_key(p, k)] == s2[node_key(
                    p,
                    k,
                )]) by {
                assert(node_key(p, k) != self.root_key());
                assert(node_key(p, k) != self.count_key());
            }
            lemma_shape_same(s1, s2, p, self.shape@, Option::None, Option::None);
            assert forall|sk: Seq<u8>| !(#[trigger] is_under(p, sk)) implies ((s0.contains_key(sk)
                <==> s2.contains_key(sk)) && (s0.contains_key(sk) ==> s0[sk] == s2[sk])) by {
                if !same_at(s0, s1, sk) {
                    let k2 = choose|k2: u64|
                        above(k2, Option::None) && below(k2, Option::None) && sk == node_key(p, k2);
                    crate::keys::lemma_derived_is_under(p, seq![NODE_TAG] + le8(k2));
                }
                assert(sk != self.root_key());
                assert(sk != self.count_key());
            }
        }
        Option::Some(sub.2)
    }

    /// Collects the pairs with keys in `[a, b)` below the given root, in
    /// ascending key order, descending only into subtrees that can hold
    /// such keys.
    fn range_at(
        &self,
        store: &Store,
        root: Option<u64>,
        a: u64,
        b: u64,
        out: &mut Vec<(u64, u64)>,
        Ghost(t): Ghost<TreeShape>,
        Ghost(lo): Ghost<Option<u64>>,
        Ghost(hi): Ghost<Option<u64>>,
    )
        requires
            store.wf(),
            shape_wf(store.contents(), self.prefix@, t, lo, hi),
            root == root_of(t),
        ensures
            final(out)@ == old(out)@ + range_seq(t, a, b),
        decreases t,
    {
        match root {
            Option::None => {
                proof {
                    assert(t is Leaf);
                    assert(old(out)@ + range_seq(t, a, b) =~= old(out)@);
                }
            },
            Option::Some(rk) => {
                proof {
                    assert(t is Node);
                }
                let f = self.read_node(store, rk, Ghost(t));
                if a < f.0 {
                    self.range_at(store, f.2, a, b, out, Ghost(left_of(t)), Ghost(lo), Ghost(
                        Option::Some(rk),
                    ));
                } else {
                    proof {
                        lemma_range_outside(
                            store.contents(),
                            self.prefix@,
                            left_of(t),
                            lo,
                            Option::Some(rk),
                            a,
                            b,
                        );
                    }
                }
                if a <= f.0 && f.0 < b {
                    out.push((f.0, f.1));
                }
                if f.0 < b {
                    self.range_at(store, f.3, a, b, out, Ghost(right_of(t)), Ghost(
                        Option::Some(rk),
                    ), Ghost(hi));
                } else {
                    proof {
                        lemma_range_outside(
                            store.contents(),
                            self.prefix@,
                            right_of(t),
                            Option::Some(rk),
                            hi,
                            a,
                            b,
                        );
                    }
                }
                proof {
                    assert(final(out)@ =~= old(out)@ + range_seq(t, a, b));
                }
            },
        }
    }

    /// Reads every pair with `low <= key < high`, in ascending key order.
    pub fn range(&self, store: &Store, low: u64, high: u64) -> (r: Vec<(u64, u64)>)
        requires
            self.wf(*store),
        ensures
            r@ == range_seq(self.shape_spec(), low, high),
            forall|j: int|
                0 <= j < r@.len() ==> low <= (#[trigger] r@[j]).0 && r@[j].0 < high
                    && self@.contains_key(r@[j].0) && self@[r@[j].0] == r@[j].1,
            forall|i: int, j: int| 0 <= i < j < r@.len() ==> r@[i].0 < r@[j].0,
    {
        let mut r: Vec<(u64, u64)> = Vec::new();
        self.range_at(store, self.root, low, high, &mut r, Ghost(self.shape@), Ghost(
            Option::None,
        ), Ghost(Option::None));
        proof {
            assert(r@ =~= range_seq(self.shape@, low, high));
            lemma_range_members(
                store.contents(),
                self.prefix@,
                self.shape@,
                Option::None,
                Option::None,
                low,
                high,
            );
        }
        r
    }

    /// Reads every pair, in ascending key order.
    pub fn to_vec(&self, store: &Store) -> (r: Vec<(u64, u64)>)
        requires
            self.wf(*store),
        ensures
            r@.len() == self@.dom().len(),
            forall|j: int|
                0 <= j < r@.len() ==> self@.contains_key((#[trigger] r@[j]).0) && self@[r@[j].0]
                    == r@[j].1,
            forall|i: int, j: int| 0 <= i < j < r@.len() ==> r@[i].0 < r@[j].0,
        decreases
    {
        let r = self.range(store, 0, 0xffff_ffff_ffff_ffff);
        let last = match self.get(store, 0xffff_ffff_ffff_ffff) {
            Option::Some(v) => {
                let mut r2 = r;
                r2.push((0xffff_ffff_ffff_ffff, v));
                r2
            },
            Option::None => r,
        };
        proof {
            lemma_range_full(
                store.contents(),
                self.prefix@,
                self.shape@,
                Option::None,
                Option::None,
            );
            lemma_in_order_sorted(
                store.contents(),
                self.prefix@,
                self.shape@,
                Option::None,
                Option::None,
            );
        }
        last
    }

    /// The search-tree order makes every walk ascend: the keys that
    /// `range` and `to_vec` hand out come in strictly ascending order, and
    /// they are exactly the live keys (clipped to the window, for
    /// `range`).
    pub proof fn lemma_in_order(self, store: Store)
        requires
            self.wf(store),
        ensures
            forall|i: int, j: int|
                0 <= i < j < keys_seq(self.shape_spec()).len() ==> keys_seq(self.shape_spec())[i]
                    < keys_seq(self.shape_spec())[j],
            forall|i: int|
                0 <= i < keys_seq(self.shape_spec()).len() ==> self@.contains_key(
                    #[trigger] keys_seq(self.shape_spec())[i],
                ),
            keys_seq(self.shape_spec()).len() == self@.dom().len(),
    {
        lemma_in_order_sorted(
            store.contents(),
            self.prefix@,
            self.shape@,
            Option::None,
            Option::None,
        );
    }
}

/// A subtree whose bounds lie outside the window holds nothing in it.
proof fn lemma_range_outside(
    m: Map<Seq<u8>, Seq<u8>>,
    prefix: Seq<u8>,
    t: TreeShape,
    lo: Option<u64>,
    hi: Option<u64>,
    a: u64,
    b: u64,
)
    requires
        shape_wf(m, prefix, t, lo, hi),
        (match hi {
            Option::Some(h) => h <= a,
            Option::None => false,
        }) || (match lo {
            Option::Some(l) => l >= b,
            Option::None => false,
        }),
    ensures
        range_seq(t, a, b) == Seq::<(u64, u64)>::empty(),
    decreases t,
{
    match t {
        TreeShape::Leaf => {},
        TreeShape::Node { key, value, left, right } => {
            if hi is Some && hi.unwrap() <= a {
                lemma_range_outside(m, prefix, *left, lo, Option::Some(key), a, b);
                lemma_range_outside(m, prefix, *right, Option::Some(key), hi, a, b);
            } else {
                lemma_range_outside(m, prefix, *left, lo, Option::Some(key), a, b);
                lemma_range_outside(m, prefix, *right, Option::Some(key), hi, a, b);
            }
            assert(range_seq(t, a, b) =~= Seq::<(u64, u64)>::empty());
        },
    }
}

/// Every pair of a window walk lies in the window, carries its key's
/// value, and the walk ascends.
proof fn lemma_range_members(
    m: Map<Seq<u8>, Seq<u8>>,
    prefix: Seq<u8>,
    t: TreeShape,
    lo: Option<u64>,
    hi: Option<u64>,
    a: u64,
    b: u64,
)
    requires
        shape_wf(m, prefix, t, lo, hi),
    ensures
        forall|j: int|
            0 <= j < range_seq(t, a, b).len() ==> a <= (#[trigger] range_seq(t, a, b)[j]).0
                && range_seq(t, a, b)[j].0 < b && above(range_seq(t, a, b)[j].0, lo) && below(
                range_seq(t, a, b)[j].0,
                hi,
            ) && map_of(t).contains_key(range_seq(t, a, b)[j].0) && map_of(t)[range_seq(
                t,
                a,
                b,
            )[j].0] == range_seq(t, a, b)[j].1,
        forall|i: int, j: int|
            0 <= i < j < range_seq(t, a, b).len() ==> range_seq(t, a, b)[i].0 < range_seq(
                t,
                a,
                b,
            )[j].0,
    decreases t,
{
    match t {
        TreeShape::Leaf => {},
        TreeShape::Node { key, value, left, right } => {
            lemma_range_members(m, prefix, *left, lo, Option::Some(key), a, b);
            lemma_range_members(m, prefix, *right, Option::Some(key), hi, a, b);
            lemma_shape_bounds(m, prefix, *left, lo, Option::Some(key));
            lemma_shape_bounds(m, prefix, *right, Option::Some(key), hi);
            lemma_map_split(m, prefix, t, lo, hi, key);
            let rs = range_seq(t, a, b);
            let ls = range_seq(*left, a, b);
            let mid: Seq<(u64, u64)> = if a <= key && key < b {
                seq![(key, value)]
            } else {
                Seq::empty()
            };
            let nl = ls.len() as int;
            let nm = mid.len() as int;
            assert(forall|j: int| 0 <= j < nl ==> rs[j] == ls[j]);
            assert(forall|j: int| nl <= j < nl + nm ==> rs[j] == mid[j - nl]);
            assert(forall|j: int|
                nl + nm <= j < rs.len() ==> rs[j] == range_seq(*right, a, b)[j - nl - nm]);
            assert forall|j: int|
                0 <= j < rs.len() implies a <= (#[trigger] rs[j]).0 && rs[j].0 < b && above(
                rs[j].0,
                lo,
            ) && below(rs[j].0, hi) && map_of(t).contains_key(rs[j].0) && map_of(t)[rs[j].0]
                == rs[j].1 by {
                if j < nl {
                    lemma_map_split(m, prefix, t, lo, hi, rs[j].0);
                } else if j < nl + nm {
                } else {
                    lemma_map_split(m, prefix, t, lo, hi, rs[j].0);
                }
            }
        },
    }
}

/// The whole-window walk carries one pair per live key below the largest
/// one; only the largest possible key can lie beyond it.
proof fn lemma_range_full(
    m: Map<Seq<u8>, Seq<u8>>,
    prefix: Seq<u8>,
    t: TreeShape,
    lo: Option<u64>,
    hi: Option<u64>,
)
    requires
        shape_wf(m, prefix, t, lo, hi),
    ensures
        range_seq(t, 0, 0xffff_ffff_ffff_ffff).len() + (if map_of(t).contains_key(
            0xffff_ffff_ffff_ffff,
        ) {
            1int
        } else {
            0int
        }) == keys_seq(t).len(),
    decreases t,
{
    lemma_shape_bounds(m, prefix, t, lo, hi);
    match t {
        TreeShape::Leaf => {
            assert(map_of(t) =~= Map::<u64, u64>::empty());
        },
        TreeShape::Node { key, value, left, right } => {
            lemma_range_full(m, prefix, *left, lo, Option::Some(key));
            lemma_range_full(m, prefix, *right, Option::Some(key), hi);
            lemma_shape_bounds(m, prefix, *left, lo, Option::Some(key));
            lemma_shape_bounds(m, prefix, *right, Option::Some(key), hi);
            lemma_map_split(m, prefix, t, lo, hi, 0xffff_ffff_ffff_ffff);
            if map_of(*left).contains_key(0xffff_ffff_ffff_ffff) {
                assert(false);
            }
        },
    }
}

} // verus!
