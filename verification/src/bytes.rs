//! Byte strings: equality, copies and lexicographic order.

use vstd::prelude::*;

verus! {

/// `a` and `b` agree before position `k`, and `a` ends there or holds the smaller byte.
pub open spec fn lex_lt_at(a: Seq<u8>, b: Seq<u8>, k: int) -> bool {
    &&& 0 <= k <= a.len()
    &&& k < b.len()
    &&& forall|j: int| 0 <= j < k ==> a[j] == b[j]
    &&& k == a.len() || a[k] < b[k]
}

/// `a` comes strictly before `b` in lexicographic order.
pub open spec fn lex_lt(a: Seq<u8>, b: Seq<u8>) -> bool {
    exists|k: int| lex_lt_at(a, b, k)
}

/// No byte string comes before itself.
pub proof fn lemma_lex_irreflexive(a: Seq<u8>)
    ensures
        !lex_lt(a, a),
{
}

/// The order is transitive.
pub proof fn lemma_lex_transitive(a: Seq<u8>, b: Seq<u8>, c: Seq<u8>)
    requires
        lex_lt(a, b),
        lex_lt(b, c),
    ensures
        lex_lt(a, c),
{
    let p = choose|k: int| lex_lt_at(a, b, k);
    let q = choose|k: int| lex_lt_at(b, c, k);
    let k = if p <= q { p } else { q };
    assert(lex_lt_at(a, c, k));
}

/// Two byte strings cannot each come before the other.
pub proof fn lemma_lex_asymmetric(a: Seq<u8>, b: Seq<u8>)
    requires
        lex_lt(a, b),
    ensures
        !lex_lt(b, a),
        a != b,
{
    if lex_lt(b, a) {
        lemma_lex_transitive(a, b, a);
        lemma_lex_irreflexive(a);
    }
    lemma_lex_irreflexive(a);
}

/// The three ways in which two byte strings can be ordered.
#[derive(Clone, Copy, PartialEq, Eq, Structural)]
pub enum ByteOrder {
    Before,
    Same,
    After,
}

/// How `a` and `b` are ordered.
pub fn byte_order(a: &[u8], b: &[u8]) -> (order: ByteOrder)
    ensures
        match order {
            ByteOrder::Before => lex_lt(a@, b@),
            ByteOrder::Same => a@ == b@,
            ByteOrder::After => lex_lt(b@, a@),
        },
{
    let mut k: usize = 0;
    while k < a.len() && k < b.len()
        invariant
            k <= a.len(),
            k <= b.len(),
            forall|j: int| 0 <= j < k ==> a@[j] == b@[j],
        decreases a.len() - k,
    {
        if a[k] < b[k] {
            assert(lex_lt_at(a@, b@, k as int));
            return ByteOrder::Before;
        }
        if b[k] < a[k] {
            assert(lex_lt_at(b@, a@, k as int));
            return ByteOrder::After;
        }
        k += 1;
    }
    if k < b.len() {
        assert(lex_lt_at(a@, b@, k as int));
        ByteOrder::Before
    } else if k < a.len() {
        assert(lex_lt_at(b@, a@, k as int));
        ByteOrder::After
    } else {
        assert(a@ =~= b@);
        ByteOrder::Same
    }
}

/// Whether two byte strings are the same.
pub fn bytes_equal(a: &[u8], b: &[u8]) -> (same: bool)
    ensures
        same == (a@ == b@),
{
    if a.len() != b.len() {
        return false;
    }
    let mut k: usize = 0;
    while k < a.len()
        invariant
            k <= a.len(),
            a.len() == b.len(),
            forall|j: int| 0 <= j < k ==> a@[j] == b@[j],
        decreases a.len() - k,
    {
        if a[k] != b[k] {
            return false;
        }
        k += 1;
    }
    assert(a@ =~= b@);
    true
}

/// Whether two arrays hold the same bytes.
pub fn array_equal<const N: usize>(a: &[u8; N], b: &[u8; N]) -> (same: bool)
    ensures
        same == (*a == *b),
        same == (a@ == b@),
{
    let mut k: usize = 0;
    while k < N
        invariant
            k <= N,
            forall|j: int| 0 <= j < k ==> a@[j] == b@[j],
        decreases N - k,
    {
        if a[k] != b[k] {
            return false;
        }
        k += 1;
    }
    assert(a@ =~= b@);
    assert(*a =~= *b);
    true
}

/// A byte string of its own with the same bytes.
pub fn copy_bytes(a: &[u8]) -> (copy: Vec<u8>)
    ensures
        copy@ == a@,
{
    let mut copy: Vec<u8> = Vec::new();
    copy.extend_from_slice(a);
    assert(copy@ =~= a@);
    copy
}

} // verus!
