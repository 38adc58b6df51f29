//! A finite set of digests, held in canonical (strictly increasing) order.

use crate::digest::{
    digest_before, digest_eq, digest_lt, lemma_digest_lt_irreflexive, lemma_digest_lt_total,
    lemma_digest_lt_transitive, MDigest,
};
use crate::seqs::{lemma_take_ends, lemma_take_step};
use vstd::prelude::*;

verus! {

/// Strictly increasing in the canonical digest order.
pub open spec fn sorted(s: Seq<MDigest>) -> bool {
    forall|i: int, j: int| 0 <= i < j < s.len() ==> digest_lt(s[i], s[j])
}

/// The members of a finite set of digests in canonical order: the one
/// strictly increasing sequence whose elements are exactly the set.
pub open spec fn canonical_order(s: Set<MDigest>) -> Seq<MDigest> {
    choose|q: Seq<MDigest>| sorted(q) && q.to_set() == s
}

/// A strictly increasing sequence repeats no element.
pub proof fn lemma_sorted_no_duplicates(s: Seq<MDigest>)
    requires
        sorted(s),
    ensures
        s.no_duplicates(),
        s.len() == s.to_set().len(),
{
    assert forall|i: int, j: int| 0 <= i < s.len() && 0 <= j < s.len() && i != j implies s[i]
        != s[j] by {
        if i < j {
            lemma_digest_lt_total(s[i], s[j]);
        } else {
            lemma_digest_lt_total(s[j], s[i]);
        }
    }
    s.unique_seq_to_set();
}

/// Two strictly increasing sequences with the same elements are the same
/// sequence.
pub proof fn lemma_sorted_unique(a: Seq<MDigest>, b: Seq<MDigest>)
    requires
        sorted(a),
        sorted(b),
        a.to_set() == b.to_set(),
    ensures
        a == b,
    decreases a.len(),
{
    lemma_sorted_no_duplicates(a);
    lemma_sorted_no_duplicates(b);
    if a.len() > 0 {
        let n = a.len() - 1;
        // the greatest element of each is the greatest element of the set
        assert(a.to_set().contains(a[n]));
        assert(b.contains(a[n]));
        let kb = choose|k: int| 0 <= k < b.len() && b[k] == a[n];
        assert(b.to_set().contains(b[n]));
        assert(a.contains(b[n]));
        let ka = choose|k: int| 0 <= k < a.len() && a[k] == b[n];
        if kb < n {
            // a[n] == b[kb] < b[n] == a[ka] <= a[n]
            assert(digest_lt(b[kb], b[n]));
            if ka < n {
                assert(digest_lt(a[ka], a[n]));
                lemma_digest_lt_total(a[n], b[n]);
            } else {
                lemma_digest_lt_irreflexive(a[n]);
            }
        }
        assert(a[n] == b[n]);
        let a0 = a.drop_last();
        let b0 = b.drop_last();
        assert(sorted(a0));
        assert(sorted(b0));
        assert forall|d: MDigest| a0.to_set().contains(d) <==> b0.to_set().contains(d) by {
            if a0.contains(d) {
                let i = choose|i: int| 0 <= i < a0.len() && a0[i] == d;
                assert(a[i] == d);
                assert(a.to_set().contains(d));
                assert(b.contains(d));
                let j = choose|j: int| 0 <= j < b.len() && b[j] == d;
                assert(j != n);
                assert(b0[j] == d);
            }
            if b0.contains(d) {
                let i = choose|i: int| 0 <= i < b0.len() && b0[i] == d;
                assert(b[i] == d);
                assert(b.to_set().contains(d));
                assert(a.contains(d));
                let j = choose|j: int| 0 <= j < a.len() && a[j] == d;
                assert(j != n);
                assert(a0[j] == d);
            }
        }
        assert(a0.to_set() =~= b0.to_set());
        lemma_sorted_unique(a0, b0);
        assert(a =~= a0.push(a[n]));
        assert(b =~= b0.push(b[n]));
    } else {
        assert(a =~= b);
    }
}

/// A strictly increasing sequence is the canonical order of its own elements.
pub proof fn lemma_sorted_is_canonical(q: Seq<MDigest>)
    requires
        sorted(q),
    ensures
        canonical_order(q.to_set()) == q,
{
    let c = canonical_order(q.to_set());
    assert(sorted(c) && c.to_set() == q.to_set());
    lemma_sorted_unique(c, q);
}

/// The canonical order of the empty set is the empty sequence, and that of a
/// set of one digest is that digest alone.
pub proof fn lemma_canonical_order_of_few(d: MDigest)
    ensures
        canonical_order(Set::<MDigest>::empty()) == Seq::<MDigest>::empty(),
        canonical_order(set![d]) == seq![d],
{
    let none = Seq::<MDigest>::empty();
    assert(sorted(none));
    assert(none.to_set() =~= Set::<MDigest>::empty());
    lemma_sorted_is_canonical(none);
    let one = seq![d];
    assert(sorted(one));
    assert(one[0] == d);
    assert(one.to_set() =~= set![d]);
    lemma_sorted_is_canonical(one);
}

/// What the position `k` of a digest `d` in a strictly increasing sequence
/// tells: with everything before `k` coming before `d` and nothing from `k`
/// on doing so, `d` is in the sequence only if it is at `k`, and everything
/// else from `k` on comes after `d`.
pub proof fn lemma_sorted_rank(s: Seq<MDigest>, k: int, d: MDigest)
    requires
        sorted(s),
        0 <= k <= s.len(),
        forall|j: int| 0 <= j < k ==> digest_lt(s[j], d),
        k < s.len() ==> !digest_lt(s[k], d),
    ensures
        s.contains(d) <==> (k < s.len() && s[k] == d),
        forall|j: int| k <= j < s.len() && s[j] != d ==> digest_lt(d, s[j]),
{
    lemma_digest_lt_irreflexive(d);
    assert forall|j: int| k <= j < s.len() && s[j] != d implies digest_lt(d, s[j]) by {
        lemma_digest_lt_total(s[j], d);
        if j > k && digest_lt(s[j], d) {
            lemma_digest_lt_transitive(s[k], s[j], d);
        }
    }
    if s.contains(d) {
        let j = choose|j: int| 0 <= j < s.len() && s[j] == d;
        if j > k {
            assert(digest_lt(s[k], s[j]));
        }
    }
}

/// A digest put into a strictly increasing sequence at its place leaves the
/// sequence strictly increasing, and adds itself to its elements.
pub proof fn lemma_sorted_insert(s: Seq<MDigest>, k: int, d: MDigest)
    requires
        sorted(s),
        0 <= k <= s.len(),
        forall|j: int| 0 <= j < k ==> digest_lt(s[j], d),
        forall|j: int| k <= j < s.len() ==> digest_lt(d, s[j]),
    ensures
        sorted(s.insert(k, d)),
        s.insert(k, d).to_set() == s.to_set().insert(d),
{
    let t = s.insert(k, d);
    assert forall|i: int, j: int| 0 <= i < j < t.len() implies digest_lt(t[i], t[j]) by {
        let x = if i < k { s[i] } else if i == k { d } else { s[i - 1] };
        let y = if j < k { s[j] } else if j == k { d } else { s[j - 1] };
        assert(t[i] == x && t[j] == y);
        if i < k && j > k {
            lemma_digest_lt_transitive(x, d, y);
        }
    }
    assert forall|x: MDigest| t.to_set().contains(x) <==> s.to_set().insert(d).contains(x) by {
        if t.contains(x) {
            let i = choose|i: int| 0 <= i < t.len() && t[i] == x;
            if i < k {
                assert(s[i] == x);
            } else if i > k {
                assert(s[i - 1] == x);
            }
        }
        if s.contains(x) {
            let i = choose|i: int| 0 <= i < s.len() && s[i] == x;
            if i < k {
                assert(t[i] == x);
            } else {
                assert(t[i + 1] == x);
            }
        }
        if x == d {
            assert(t[k] == x);
        }
    }
    assert(t.to_set() =~= s.to_set().insert(d));
}

/// A digest taken out of a strictly increasing sequence leaves the sequence
/// strictly increasing, and is no longer among its elements.
pub proof fn lemma_sorted_remove(s: Seq<MDigest>, k: int)
    requires
        sorted(s),
        0 <= k < s.len(),
    ensures
        sorted(s.remove(k)),
        s.remove(k).to_set() == s.to_set().remove(s[k]),
{
    let t = s.remove(k);
    lemma_sorted_no_duplicates(s);
    assert forall|i: int, j: int| 0 <= i < j < t.len() implies digest_lt(t[i], t[j]) by {
        let si = if i < k { i } else { i + 1 };
        let sj = if j < k { j } else { j + 1 };
        assert(t[i] == s[si] && t[j] == s[sj]);
    }
    assert forall|x: MDigest| t.to_set().contains(x) <==> s.to_set().remove(s[k]).contains(x) by {
        if t.contains(x) {
            let i = choose|i: int| 0 <= i < t.len() && t[i] == x;
            let si = if i < k { i } else { i + 1 };
            assert(s[si] == x);
        }
        if s.contains(x) && x != s[k] {
            let i = choose|i: int| 0 <= i < s.len() && s[i] == x;
            let ti = if i < k { i } else { i - 1 };
            assert(t[ti] == x);
        }
    }
    assert(t.to_set() =~= s.to_set().remove(s[k]));
}

/// A set of digests. Its members are kept in canonical order, so that two
/// sets with the same members are laid out identically.
#[derive(Debug)]
pub struct DigestSet {
    elems: Vec<MDigest>,
}

impl View for DigestSet {
    type V = Set<MDigest>;

    closed spec fn view(&self) -> Set<MDigest> {
        self.elems@.to_set()
    }
}

impl Clone for DigestSet {
    fn clone(&self) -> (s: Self)
        ensures
            s@ == self@,
            s.order() == self.order(),
            s.wf(),
    {
        self.duplicate()
    }
}

impl DigestSet {
    /// The members in the order in which they are stored and handed out.
    pub closed spec fn order(self) -> Seq<MDigest> {
        self.elems@
    }

    /// The stored order is strictly increasing. Every set that executable code
    /// can hold is well-formed.
    #[verifier::type_invariant]
    pub closed spec fn wf(self) -> bool {
        sorted(self.elems@)
    }

    /// The first `i` members in canonical order.
    pub open spec fn seen(self, i: int) -> Set<MDigest> {
        self.order().take(i).to_set()
    }

    /// The stored order is the canonical order of the members.
    pub proof fn lemma_wf(self)
        requires
            self.wf(),
        ensures
            sorted(self.order()),
            self.order().to_set() == self@,
            self.order() == canonical_order(self@),
            self.order().len() == self@.len(),
            self@.finite(),
    {
        lemma_sorted_is_canonical(self.elems@);
        lemma_sorted_no_duplicates(self.elems@);
        vstd::seq_lib::seq_to_set_is_finite(self.elems@);
    }

    /// A walk through the members in canonical order has seen none at its
    /// start and all at its end.
    pub proof fn lemma_walk_ends(self)
        requires
            self.wf(),
        ensures
            self.seen(0) == Set::<MDigest>::empty(),
            self.seen(self.order().len() as int) == self@,
    {
        lemma_take_ends(self.order());
        assert(self.seen(0) =~= Set::<MDigest>::empty());
    }

    /// The step of a walk through the members from position `i`: the digest
    /// there is a member, comes after all that were seen, and is seen from
    /// now on.
    pub proof fn lemma_walk_step(self, i: int)
        requires
            self.wf(),
            0 <= i < self.order().len(),
        ensures
            self@.contains(self.order()[i]),
            forall|x: MDigest| self.seen(i).contains(x) ==> digest_lt(x, self.order()[i]),
            self.seen(i + 1) == self.seen(i).insert(self.order()[i]),
    {
        lemma_take_step(self.order(), i);
        assert(self.seen(i + 1) =~= self.seen(i).insert(self.order()[i]));
        assert(self.order().to_set().contains(self.order()[i]));
        assert forall|x: MDigest| self.seen(i).contains(x) implies digest_lt(
            x,
            self.order()[i],
        ) by {
            let j = choose|j: int| 0 <= j < i && self.order().take(i)[j] == x;
            assert(digest_lt(self.order()[j], self.order()[i]));
        }
    }

    /// The empty set.
    pub fn new() -> (s: Self)
        ensures
            s@ == Set::<MDigest>::empty(),
            s.wf(),
    {
        let s = DigestSet { elems: Vec::new() };
        assert(s.elems@.to_set() =~= Set::<MDigest>::empty());
        s
    }

    /// The number of members.
    pub fn len(&self) -> (n: usize)
        ensures
            n == self@.len(),
            n == self.order().len(),
            self.wf(),
    {
        proof {
            use_type_invariant(self);
            self.lemma_wf();
        }
        self.elems.len()
    }

    /// Whether the set has no member.
    pub fn is_empty(&self) -> (b: bool)
        ensures
            b == (self@ == Set::<MDigest>::empty()),
            b == (self@.len() == 0),
    {
        proof {
            use_type_invariant(self);
            self.lemma_wf();
            if self.elems@.len() == 0 {
                assert(self.elems@.to_set() =~= Set::<MDigest>::empty());
            } else {
                assert(self.elems@.to_set().contains(self.elems@[0]));
            }
        }
        self.elems.len() == 0
    }

    /// The member at position `i` of the canonical order.
    pub fn nth(&self, i: usize) -> (d: &MDigest)
        requires
            i < self.order().len(),
        ensures
            *d == self.order()[i as int],
            self@.contains(*d),
            self.wf(),
    {
        proof {
            use_type_invariant(self);
            assert(self.elems@.to_set().contains(self.elems@[i as int]));
        }
        &self.elems[i]
    }

    /// The members as a slice, in canonical order.
    pub fn as_slice(&self) -> (s: &[MDigest])
        ensures
            s@ == self.order(),
            self.wf(),
    {
        proof {
            use_type_invariant(self);
        }
        self.elems.as_slice()
    }

    /// The members as a vector, in canonical order.
    pub fn to_vec(&self) -> (v: Vec<MDigest>)
        ensures
            v@ == self.order(),
            v@ == canonical_order(self@),
            self.wf(),
    {
        proof {
            use_type_invariant(self);
            self.lemma_wf();
        }
        let mut v: Vec<MDigest> = Vec::new();
        let mut i: usize = 0;
        assert(v@ =~= self.elems@.take(0));
        while i < self.elems.len()
            invariant
                i <= self.elems@.len(),
                v@ == self.elems@.take(i as int),
            decreases self.elems@.len() - i,
        {
            v.push(self.elems[i]);
            proof {
                lemma_take_step(self.elems@, i as int);
            }
            i += 1;
        }
        proof {
            lemma_take_ends(self.elems@);
        }
        v
    }

    /// A copy of the set.
    pub fn duplicate(&self) -> (s: Self)
        ensures
            s@ == self@,
            s.order() == self.order(),
            s.wf(),
    {
        let v = self.to_vec();
        DigestSet { elems: v }
    }

    /// The number of members that come strictly before `d`, and with it
    /// whether `d` is the member at that position.
    fn rank(&self, d: &MDigest) -> (at: (usize, bool))
        ensures
            self.wf(),
            at.0 <= self.elems@.len(),
            forall|j: int| 0 <= j < at.0 ==> digest_lt(self.elems@[j], *d),
            forall|j: int|
                at.0 <= j < self.elems@.len() && self.elems@[j] != *d ==> digest_lt(
                    *d,
                    self.elems@[j],
                ),
            at.1 == (at.0 < self.elems@.len() && self.elems@[at.0 as int] == *d),
            at.1 == self@.contains(*d),
    {
        proof {
            use_type_invariant(self);
        }
        let mut k: usize = 0;
        while k < self.elems.len() && digest_before(&self.elems[k], d)
            invariant
                k <= self.elems@.len(),
                forall|j: int| 0 <= j < k ==> digest_lt(self.elems@[j], *d),
            decreases self.elems@.len() - k,
        {
            k += 1;
        }
        proof {
            lemma_sorted_rank(self.elems@, k as int, *d);
        }
        (k, k < self.elems.len() && digest_eq(&self.elems[k], d))
    }

    /// Whether `d` is a member.
    pub fn contains(&self, d: &MDigest) -> (b: bool)
        ensures
            b == self@.contains(*d),
    {
        self.rank(d).1
    }

    /// Adds `d`; returns whether it was new.
    pub fn insert(&mut self, d: MDigest) -> (fresh: bool)
        ensures
            final(self)@ == old(self)@.insert(d),
            fresh == !old(self)@.contains(d),
            final(self).wf(),
    {
        let (k, found) = self.rank(&d);
        if found {
            assert(self@ =~= self@.insert(d));
            return false;
        }
        let mut elems: Vec<MDigest> = Vec::new();
        core::mem::swap(&mut elems, &mut self.elems);
        proof {
            lemma_sorted_insert(elems@, k as int, d);
        }
        elems.insert(k, d);
        self.elems = elems;
        true
    }

    /// Removes `d`; returns whether it was a member.
    pub fn remove(&mut self, d: &MDigest) -> (found: bool)
        ensures
            final(self)@ == old(self)@.remove(*d),
            found == old(self)@.contains(*d),
            final(self).wf(),
    {
        let (k, found) = self.rank(d);
        if !found {
            assert(self@ =~= self@.remove(*d));
            return false;
        }
        let mut elems: Vec<MDigest> = Vec::new();
        core::mem::swap(&mut elems, &mut self.elems);
        proof {
            lemma_sorted_remove(elems@, k as int);
        }
        elems.remove(k);
        self.elems = elems;
        true
    }

    /// Removes every member.
    pub fn clear(&mut self)
        ensures
            final(self)@ == Set::<MDigest>::empty(),
            final(self).wf(),
    {
        self.elems = Vec::new();
        assert(self.elems@.to_set() =~= Set::<MDigest>::empty());
    }

    /// Adds every digest listed in `ds`, whatever their order and however
    /// often each occurs.
    pub fn extend_from_slice(&mut self, ds: &[MDigest])
        ensures
            final(self)@ == old(self)@.union(ds@.to_set()),
            final(self).wf(),
    {
        let ghost start = self@;
        let mut i: usize = 0;
        proof {
            use_type_invariant(&*self);
            lemma_take_ends(ds@);
            assert(self@ =~= start.union(ds@.take(0).to_set()));
        }
        while i < ds.len()
            invariant
                i <= ds@.len(),
                self@ == start.union(ds@.take(i as int).to_set()),
                self.wf(),
            decreases ds@.len() - i,
        {
            self.insert(ds[i]);
            proof {
                lemma_take_step(ds@, i as int);
                assert(self@ =~= start.union(ds@.take(i + 1).to_set()));
            }
            i += 1;
        }
        proof {
            lemma_take_ends(ds@);
        }
    }

    /// Removes every digest listed in `ds`.
    pub fn remove_all(&mut self, ds: &[MDigest])
        ensures
            final(self)@ == old(self)@.difference(ds@.to_set()),
            final(self).wf(),
    {
        let ghost start = self@;
        let mut i: usize = 0;
        proof {
            use_type_invariant(&*self);
            lemma_take_ends(ds@);
            assert(self@ =~= start.difference(ds@.take(0).to_set()));
        }
        while i < ds.len()
            invariant
                i <= ds@.len(),
                self@ == start.difference(ds@.take(i as int).to_set()),
                self.wf(),
            decreases ds@.len() - i,
        {
            self.remove(&ds[i]);
            proof {
                lemma_take_step(ds@, i as int);
                assert(self@ =~= start.difference(ds@.take(i + 1).to_set()));
            }
            i += 1;
        }
        proof {
            lemma_take_ends(ds@);
        }
    }

    /// The set of the digests listed in `ds`.
    pub fn from_slice(ds: &[MDigest]) -> (s: Self)
        ensures
            s@ == ds@.to_set(),
            s.wf(),
    {
        let mut s = DigestSet::new();
        s.extend_from_slice(ds);
        assert(s@ =~= ds@.to_set());
        s
    }

    /// The members of `self` that are also members of `other`.
    pub fn intersection(&self, other: &DigestSet) -> (s: Self)
        ensures
            s@ == self@.intersect(other@),
            s.wf(),
    {
        let n = self.len();
        let mut out: Vec<MDigest> = Vec::new();
        let mut i: usize = 0;
        proof {
            self.lemma_walk_ends();
            assert(out@.to_set() =~= self.seen(0).intersect(other@));
        }
        while i < n
            invariant
                i <= n,
                n == self.order().len(),
                self.wf(),
                sorted(out@),
                out@.to_set() == self.seen(i as int).intersect(other@),
            decreases n - i,
        {
            let d = self.nth(i);
            proof {
                self.lemma_walk_step(i as int);
            }
            if other.contains(d) {
                proof {
                    // what was kept so far was seen before `d`, and comes before it
                    assert forall|j: int| 0 <= j < out@.len() implies digest_lt(out@[j], *d) by {
                        assert(out@.to_set().contains(out@[j]));
                    }
                    lemma_sorted_insert(out@, out@.len() as int, *d);
                    assert(out@.insert(out@.len() as int, *d) =~= out@.push(*d));
                }
                out.push(*d);
            }
            assert(out@.to_set() =~= self.seen(i + 1).intersect(other@));
            i += 1;
        }
        proof {
            self.lemma_walk_ends();
        }
        DigestSet { elems: out }
    }

    /// Whether the two sets have the same members.
    pub fn same_as(&self, other: &DigestSet) -> (same: bool)
        ensures
            same == (self@ == other@),
    {
        let n = self.len();
        let m = other.len();
        if n != m {
            return false;
        }
        let mut i: usize = 0;
        while i < n
            invariant
                i <= n,
                n == self.order().len(),
                n == other.order().len(),
                self.wf(),
                other.wf(),
                forall|j: int| 0 <= j < i ==> self.order()[j] == other.order()[j],
            decreases n - i,
        {
            if !digest_eq(self.nth(i), other.nth(i)) {
                proof {
                    self.lemma_wf();
                    other.lemma_wf();
                }
                return false;
            }
            i += 1;
        }
        proof {
            self.lemma_wf();
            other.lemma_wf();
            assert(self.order() =~= other.order());
        }
        true
    }
}

} // verus!
