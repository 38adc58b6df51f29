//! Facts about sequences that the loops of this crate lean on.

use vstd::prelude::*;

verus! {

/// The first `i + 1` elements hold what the first `i` hold, and the element
/// at `i`.
pub proof fn lemma_take_step<A>(s: Seq<A>, i: int)
    requires
        0 <= i < s.len(),
    ensures
        s.take(i + 1) == s.take(i).push(s[i]),
        forall|x: A|
            #![trigger s.take(i + 1).contains(x)]
            s.take(i + 1).contains(x) <==> (s.take(i).contains(x) || x == s[i]),
{
    let a = s.take(i);
    let b = s.take(i + 1);
    assert(b =~= a.push(s[i]));
    assert forall|x: A| b.contains(x) <==> (a.contains(x) || x == s[i]) by {
        if b.contains(x) {
            let j = choose|j: int| 0 <= j < b.len() && b[j] == x;
            if j < i {
                assert(a[j] == x);
            }
        }
        if a.contains(x) {
            let j = choose|j: int| 0 <= j < a.len() && a[j] == x;
            assert(b[j] == x);
        }
        if x == s[i] {
            assert(b[i] == x);
        }
    }
}

/// All of a sequence is its own longest prefix, and its shortest holds
/// nothing.
pub proof fn lemma_take_ends<A>(s: Seq<A>)
    ensures
        s.take(s.len() as int) == s,
        forall|x: A| !s.take(0).contains(x),
{
    assert(s.take(s.len() as int) =~= s);
}

} // verus!
