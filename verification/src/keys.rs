//! Derivation of storage keys.
//!
//! A collection owns every storage key that starts with its prefix.  A
//! derived key is `prefix ++ tag_byte ++ subkey_bytes`; the tag byte keeps
//! metadata records (length, root pointer) apart from element records.

use vstd::prelude::*;

verus! {

/// `k` lies in the namespace of the collection whose prefix is `p`.
pub open spec fn is_under(p: Seq<u8>, k: Seq<u8>) -> bool {
    p.len() < k.len() && k.subrange(0, p.len() as int) == p
}

/// The two states agree on every key outside the namespace of `p`: an
/// operation of the collection owning `p` touches no other key.
pub open spec fn agrees_except_under(
    m1: Map<Seq<u8>, Seq<u8>>,
    m2: Map<Seq<u8>, Seq<u8>>,
    p: Seq<u8>,
) -> bool {
    forall|k: Seq<u8>|
        !(#[trigger] is_under(p, k)) ==> ((m1.contains_key(k) <==> m2.contains_key(k)) && (
        m1.contains_key(k) ==> m1[k] == m2[k]))
}

/// Agreement outside a child namespace gives agreement outside the parent:
/// whatever lies outside the parent lies outside the child too.
pub proof fn lemma_agrees_widen(
    m1: Map<Seq<u8>, Seq<u8>>,
    m2: Map<Seq<u8>, Seq<u8>>,
    p: Seq<u8>,
    rest: Seq<u8>,
)
    requires
        agrees_except_under(m1, m2, p + rest),
        rest.len() > 0,
    ensures
        agrees_except_under(m1, m2, p),
{
    assert forall|k: Seq<u8>| !(#[trigger] is_under(p, k)) implies ((m1.contains_key(k)
        <==> m2.contains_key(k)) && (m1.contains_key(k) ==> m1[k] == m2[k])) by {
        if is_under(p + rest, k) {
            lemma_under_extension(p, rest, k);
        }
    }
}

/// Agreement outside a namespace carries over consecutive operations.
pub proof fn lemma_agrees_trans(
    m1: Map<Seq<u8>, Seq<u8>>,
    m2: Map<Seq<u8>, Seq<u8>>,
    m3: Map<Seq<u8>, Seq<u8>>,
    p: Seq<u8>,
)
    requires
        agrees_except_under(m1, m2, p),
        agrees_except_under(m2, m3, p),
    ensures
        agrees_except_under(m1, m3, p),
{
}

/// Appends one byte to a key prefix.
pub fn append(id: &[u8], chr: u8) -> (r: Vec<u8>)
    ensures
        r@ == id@.push(chr),
{
    let mut out: Vec<u8> = Vec::new();
    out.extend_from_slice(id);
    out.push(chr);
    proof {
        assert(out@ =~= id@.push(chr));
    }
    out
}

/// Appends a byte slice to a key prefix.
pub fn append_slice(id: &[u8], extra: &[u8]) -> (r: Vec<u8>)
    ensures
        r@ == id@ + extra@,
{
    let mut out: Vec<u8> = Vec::new();
    out.extend_from_slice(id);
    out.extend_from_slice(extra);
    out
}

/// A derived key lies under its own prefix.
pub proof fn lemma_derived_is_under(p: Seq<u8>, rest: Seq<u8>)
    requires
        rest.len() > 0,
    ensures
        is_under(p, p + rest),
{
    assert((p + rest).subrange(0, p.len() as int) =~= p);
}

/// Namespaces of two prefixes of equal length are disjoint unless the
/// prefixes are equal.
pub proof fn lemma_equal_len_prefixes_disjoint(p1: Seq<u8>, p2: Seq<u8>, k: Seq<u8>)
    requires
        p1.len() == p2.len(),
        p1 != p2,
    ensures
        !(is_under(p1, k) && is_under(p2, k)),
{
    if is_under(p1, k) && is_under(p2, k) {
        assert(k.subrange(0, p1.len() as int) == p1);
        assert(k.subrange(0, p2.len() as int) == p2);
    }
}

/// A key under a child namespace `p ++ rest` is also under `p` itself.
pub proof fn lemma_under_extension(p: Seq<u8>, rest: Seq<u8>, k: Seq<u8>)
    requires
        is_under(p + rest, k),
    ensures
        rest.len() == 0 || is_under(p, k),
{
    if rest.len() > 0 {
        assert(k.subrange(0, p.len() as int) =~= (p + rest).subrange(
            0,
            p.len() as int,
        ));
        assert((p + rest).subrange(0, p.len() as int) =~= p);
    }
}

} // verus!
