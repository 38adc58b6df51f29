//! Message digests and their canonical (lexicographic) order.

use vstd::prelude::*;

verus! {

/// Message digest: the cryptographic hash of a message's canonical bytes.
pub type MDigest = [u8; 32];

/// The least index at or after `from` where `a` and `b` differ, or the length
/// of `a` when they agree from `from` on.
pub open spec fn first_difference(a: Seq<u8>, b: Seq<u8>, from: int) -> int
    decreases a.len() - from,
{
    if from < 0 || from >= a.len() || from >= b.len() {
        a.len() as int
    } else if a[from] != b[from] {
        from
    } else {
        first_difference(a, b, from + 1)
    }
}

/// Lexicographic order on digests by raw byte value: `a` comes strictly
/// before `b`.
pub open spec fn digest_lt(a: MDigest, b: MDigest) -> bool {
    let i = first_difference(a@, b@, 0);
    0 <= i < 32 && a@[i] < b@[i]
}

/// `first_difference` lands in range, everything before it agrees, and the
/// bytes at it differ.
pub proof fn lemma_first_difference(a: Seq<u8>, b: Seq<u8>, from: int)
    requires
        a.len() == b.len(),
        0 <= from <= a.len(),
    ensures
        from <= first_difference(a, b, from) <= a.len(),
        forall|j: int| from <= j < first_difference(a, b, from) ==> a[j] == b[j],
        first_difference(a, b, from) < a.len() ==> a[first_difference(a, b, from)]
            != b[first_difference(a, b, from)],
    decreases a.len() - from,
{
    if from < a.len() && a[from] == b[from] {
        lemma_first_difference(a, b, from + 1);
    }
}

/// An index at which two strings differ after agreeing on `from..k` is their
/// first difference.
pub proof fn lemma_first_difference_is(a: Seq<u8>, b: Seq<u8>, from: int, k: int)
    requires
        a.len() == b.len(),
        0 <= from <= k <= a.len(),
        forall|j: int| from <= j < k ==> a[j] == b[j],
        k < a.len() ==> a[k] != b[k],
    ensures
        first_difference(a, b, from) == k,
    decreases k - from,
{
    if from < k {
        lemma_first_difference_is(a, b, from + 1, k);
    }
}

/// No digest comes before itself.
pub proof fn lemma_digest_lt_irreflexive(a: MDigest)
    ensures
        !digest_lt(a, a),
{
    lemma_first_difference_is(a@, a@, 0, 32);
}

/// The order is transitive.
pub proof fn lemma_digest_lt_transitive(a: MDigest, b: MDigest, c: MDigest)
    requires
        digest_lt(a, b),
        digest_lt(b, c),
    ensures
        digest_lt(a, c),
{
    let i = first_difference(a@, b@, 0);
    let j = first_difference(b@, c@, 0);
    lemma_first_difference(a@, b@, 0);
    lemma_first_difference(b@, c@, 0);
    let k = if i <= j { i } else { j };
    lemma_first_difference_is(a@, c@, 0, k);
}

/// Any two digests are equal or ordered one way.
pub proof fn lemma_digest_lt_total(a: MDigest, b: MDigest)
    ensures
        a == b || digest_lt(a, b) || digest_lt(b, a),
        !(digest_lt(a, b) && digest_lt(b, a)),
        digest_lt(a, b) ==> a != b,
{
    let i = first_difference(a@, b@, 0);
    lemma_first_difference(a@, b@, 0);
    lemma_first_difference_is(b@, a@, 0, i);
    if i == 32 {
        assert(a =~= b);
    }
}

/// Whether two byte strings are the same.
pub fn bytes_eq(a: &[u8], b: &[u8]) -> (same: bool)
    ensures
        same == (a@ == b@),
{
    if a.len() != b.len() {
        return false;
    }
    let mut i: usize = 0;
    while i < a.len()
        invariant
            i <= a@.len(),
            a@.len() == b@.len(),
            forall|j: int| 0 <= j < i ==> a@[j] == b@[j],
        decreases a@.len() - i,
    {
        if a[i] != b[i] {
            return false;
        }
        i += 1;
    }
    assert(a@ =~= b@);
    true
}

/// Whether two digests are the same.
pub fn digest_eq(a: &MDigest, b: &MDigest) -> (same: bool)
    ensures
        same == (*a == *b),
{
    let mut i: usize = 0;
    while i < 32
        invariant
            0 <= i <= 32,
            forall|j: int| 0 <= j < i ==> a@[j] == b@[j],
        decreases 32 - i,
    {
        if a[i] != b[i] {
            return false;
        }
        i += 1;
    }
    assert(*a =~= *b);
    true
}

/// Whether `a` comes strictly before `b` in the canonical order.
pub fn digest_before(a: &MDigest, b: &MDigest) -> (before: bool)
    ensures
        before == digest_lt(*a, *b),
{
    let mut i: usize = 0;
    while i < 32 && a[i] == b[i]
        invariant
            0 <= i <= 32,
            forall|j: int| 0 <= j < i ==> a@[j] == b@[j],
        decreases 32 - i,
    {
        i += 1;
    }
    proof {
        lemma_first_difference_is(a@, b@, 0, i as int);
    }
    i < 32 && a[i] < b[i]
}

} // verus!
