//! What holds of repositories in general. In whatever order messages come
//! in, the heads cover the frontier. Where they come in causal order, the
//! heads are the frontier, whichever causal order it is, and the messages
//! form no circle. Reconciliation is idempotent, commutative and
//! associative.

use crate::digest::MDigest;
use crate::message::MessageView;
use crate::reconcile::{
    admitted, admitted_messages, anchored_labels, labels_agree, resolved_edges, united,
};
use crate::repo::{
    causally_closed, frontier, lemma_same_messages_same_frontier, same_messages, superseded,
    RepoView,
};
use vstd::prelude::*;

verus! {

/// The repository after the messages of `ms` came in, each under the digest
/// given with it, one after the other.
pub open spec fn inserted_all(r: RepoView, ms: Seq<(MDigest, MessageView)>) -> RepoView
    decreases ms.len(),
{
    if ms.len() == 0 {
        r
    } else {
        inserted_all(r, ms.drop_last()).inserted(ms.last().0, ms.last().1)
    }
}

/// The messages of `ms` come in causal order: when its turn comes, each is
/// new to the repository and declares only predecessors that are there.
pub open spec fn causal_order(r: RepoView, ms: Seq<(MDigest, MessageView)>) -> bool
    decreases ms.len(),
{
    if ms.len() == 0 {
        true
    } else {
        let before = inserted_all(r, ms.drop_last());
        &&& causal_order(r, ms.drop_last())
        &&& !before.messages.dom().contains(ms.last().0)
        &&& ms.last().1.preds.subset_of(before.messages.dom())
    }
}

/// The messages of `ms` come in in any order: all that is asked is that each
/// is new to the repository when its turn comes.
pub open spec fn any_order(r: RepoView, ms: Seq<(MDigest, MessageView)>) -> bool
    decreases ms.len(),
{
    if ms.len() == 0 {
        true
    } else {
        &&& any_order(r, ms.drop_last())
        &&& !inserted_all(r, ms.drop_last()).messages.dom().contains(ms.last().0)
    }
}

/// Each message of `ms` comes in under its own digest.
pub open spec fn filed_by_digest(ms: Seq<(MDigest, MessageView)>) -> bool {
    forall|i: int| 0 <= i < ms.len() ==> (#[trigger] ms[i]).0 == ms[i].1.digest()
}

/// Every label of the repository stands for one of its messages.
pub open spec fn labels_anchored(r: RepoView) -> bool {
    forall|l: Seq<char>|
        #![trigger r.labels[l]]
        r.labels.dom().contains(l) ==> r.messages.dom().contains(r.labels[l])
}

/// Every message of the repository is admitted under `keys`.
pub open spec fn all_admitted(r: RepoView, keys: Set<Seq<u8>>) -> bool {
    forall|d: MDigest|
        #![trigger r.messages[d]]
        r.messages.dom().contains(d) ==> admitted(r.messages[d], keys)
}

/// Under every digest that both repositories hold, they hold messages of
/// the same content: no digest stands for two different messages.
pub open spec fn agree(a: RepoView, b: RepoView) -> bool {
    forall|d: MDigest|
        #![trigger a.messages[d]]
        #![trigger b.messages[d]]
        a.messages.dom().contains(d) && b.messages.dom().contains(d)
            ==> a.messages[d].same_content(b.messages[d])
}

/// The two repositories are equivalent, and have the same heads and edges
/// besides.
pub open spec fn alike(x: RepoView, y: RepoView) -> bool {
    &&& x.equivalent(y)
    &&& x.heads == y.heads
    &&& x.edges == y.edges
}

/// Both attempts failed, or both succeeded with repositories that are
/// alike.
pub open spec fn same_outcome(x: Option<RepoView>, y: Option<RepoView>) -> bool {
    match (x, y) {
        (Some(p), Some(q)) => alike(p, q),
        (None, None) => true,
        _ => false,
    }
}

/// Reconciling `a` with `b`, and the result with `c`.
pub open spec fn reconciled_left(
    a: RepoView,
    b: RepoView,
    c: RepoView,
    keys: Set<Seq<u8>>,
) -> Option<RepoView> {
    match a.reconciled(b, keys) {
        Some(ab) => ab.reconciled(c, keys),
        None => None,
    }
}

/// Reconciling `a` with what the reconciliation of `b` with `c` gave.
pub open spec fn reconciled_right(
    a: RepoView,
    b: RepoView,
    c: RepoView,
    keys: Set<Seq<u8>>,
) -> Option<RepoView> {
    match b.reconciled(c, keys) {
        Some(bc) => a.reconciled(bc, keys),
        None => None,
    }
}

/// If the heads of a causally closed repository are exactly its frontier,
/// they still are after the insertion of a new message that declares only
/// predecessors that are there, and the repository is still causally closed.
pub proof fn lemma_insert_keeps_heads_exact(r: RepoView, d: MDigest, m: MessageView)
    requires
        r.heads_exact(),
        causally_closed(r.messages),
        !r.messages.dom().contains(d),
        m.preds.subset_of(r.messages.dom()),
    ensures
        r.inserted(d, m).heads_exact(),
        causally_closed(r.inserted(d, m).messages),
{
    let after = r.inserted(d, m);
    assert forall|x: MDigest| after.heads.contains(x) <==> frontier(after.messages).contains(
        x,
    ) by {
        if x == d {
            if superseded(after.messages, d) {
                let k = choose|k: MDigest|
                    #![trigger after.messages[k]]
                    after.messages.dom().contains(k) && k != d && after.messages[k].preds.contains(
                        d,
                    );
                assert(r.messages[k].preds.contains(d));
            }
        } else {
            if superseded(r.messages, x) {
                let k = choose|k: MDigest|
                    #![trigger r.messages[k]]
                    r.messages.dom().contains(k) && k != x && r.messages[k].preds.contains(x);
                assert(after.messages.dom().contains(k) && after.messages[k].preds.contains(x));
            }
            if m.preds.contains(x) {
                assert(after.messages.dom().contains(d) && after.messages[d].preds.contains(x));
            }
            if superseded(after.messages, x) {
                let k = choose|k: MDigest|
                    #![trigger after.messages[k]]
                    after.messages.dom().contains(k) && k != x && after.messages[k].preds.contains(
                        x,
                    );
                if k != d {
                    assert(r.messages.dom().contains(k) && r.messages[k].preds.contains(x));
                }
            }
        }
    }
    assert(after.heads =~= frontier(after.messages));
    assert forall|k: MDigest, x: MDigest|
        #![trigger after.messages[k].preds.contains(x)]
        after.messages.dom().contains(k) && after.messages[k].preds.contains(
            x,
        ) implies after.messages.dom().contains(x) by {
        if k != d {
            assert(r.messages[k].preds.contains(x));
        }
    }
}

/// Whatever a new message declares, its insertion loses no message of the
/// frontier: if the heads covered the frontier before, they do so after.
pub proof fn lemma_insert_keeps_heads_covering(r: RepoView, d: MDigest, m: MessageView)
    requires
        r.heads_cover(),
        !r.messages.dom().contains(d),
    ensures
        r.inserted(d, m).heads_cover(),
{
    let after = r.inserted(d, m);
    assert forall|x: MDigest| frontier(after.messages).contains(x) implies after.heads.contains(
        x,
    ) by {
        if x != d {
            if superseded(r.messages, x) {
                let k = choose|k: MDigest|
                    #![trigger r.messages[k]]
                    r.messages.dom().contains(k) && k != x && r.messages[k].preds.contains(x);
                assert(after.messages.dom().contains(k) && after.messages[k].preds.contains(x));
            }
            assert(frontier(r.messages).contains(x));
            if m.preds.contains(x) {
                assert(after.messages.dom().contains(d) && after.messages[d].preds.contains(x));
            }
        }
    }
}

/// In whatever order messages come in, the heads cover the frontier after
/// each of them.
pub proof fn lemma_any_order_keeps_heads_covering(r: RepoView, ms: Seq<(MDigest, MessageView)>)
    requires
        r.heads_cover(),
        any_order(r, ms),
    ensures
        inserted_all(r, ms).heads_cover(),
    decreases ms.len(),
{
    if ms.len() > 0 {
        lemma_any_order_keeps_heads_covering(r, ms.drop_last());
        lemma_insert_keeps_heads_covering(
            inserted_all(r, ms.drop_last()),
            ms.last().0,
            ms.last().1,
        );
    }
}

/// Messages that come in causal order keep the heads exact: after each of
/// them, the heads are the frontier of what the repository holds.
pub proof fn lemma_causal_order_keeps_heads_exact(r: RepoView, ms: Seq<(MDigest, MessageView)>)
    requires
        r.heads_exact(),
        causally_closed(r.messages),
        causal_order(r, ms),
    ensures
        inserted_all(r, ms).heads_exact(),
        causally_closed(inserted_all(r, ms).messages),
    decreases ms.len(),
{
    if ms.len() > 0 {
        lemma_causal_order_keeps_heads_exact(r, ms.drop_last());
        lemma_insert_keeps_heads_exact(inserted_all(r, ms.drop_last()), ms.last().0, ms.last().1);
    }
}

/// The heads do not depend on the order of insertion: two causal orders
/// that leave the same messages in the repository leave the same heads.
pub proof fn lemma_heads_independent_of_order(
    r: RepoView,
    first: Seq<(MDigest, MessageView)>,
    second: Seq<(MDigest, MessageView)>,
)
    requires
        r.heads_exact(),
        causally_closed(r.messages),
        causal_order(r, first),
        causal_order(r, second),
        inserted_all(r, first).messages == inserted_all(r, second).messages,
    ensures
        inserted_all(r, first).heads == inserted_all(r, second).heads,
{
    lemma_causal_order_keeps_heads_exact(r, first);
    lemma_causal_order_keeps_heads_exact(r, second);
}

/// After the messages of `ms` came in, the repository holds the digests it
/// held before and those of `ms`.
pub proof fn lemma_inserted_all_holds(r: RepoView, ms: Seq<(MDigest, MessageView)>)
    ensures
        forall|d: MDigest|
            #![trigger inserted_all(r, ms).messages.dom().contains(d)]
            inserted_all(r, ms).messages.dom().contains(d) <==> (r.messages.dom().contains(d)
                || exists|j: int| 0 <= j < ms.len() && (#[trigger] ms[j]).0 == d),
    decreases ms.len(),
{
    if ms.len() > 0 {
        let front = ms.drop_last();
        lemma_inserted_all_holds(r, front);
        assert forall|d: MDigest|
            #![trigger inserted_all(r, ms).messages.dom().contains(d)]
            inserted_all(r, ms).messages.dom().contains(d) <==> (r.messages.dom().contains(d)
                || exists|j: int| 0 <= j < ms.len() && (#[trigger] ms[j]).0 == d) by {
            if inserted_all(r, front).messages.dom().contains(d) && !r.messages.dom().contains(d) {
                let j = choose|j: int| 0 <= j < front.len() && (#[trigger] front[j]).0 == d;
                assert(ms[j].0 == d);
            }
            if d == ms.last().0 {
                assert(ms[ms.len() - 1].0 == d);
            }
            if exists|j: int| 0 <= j < ms.len() && (#[trigger] ms[j]).0 == d {
                let j = choose|j: int| 0 <= j < ms.len() && (#[trigger] ms[j]).0 == d;
                if j < front.len() {
                    assert(front[j].0 == d);
                }
            }
        }
    }
}

/// Causal order admits no circle: each predecessor that a message declares
/// was in the repository from the start or came in before the message.
pub proof fn lemma_causal_order_is_acyclic(
    r: RepoView,
    ms: Seq<(MDigest, MessageView)>,
    i: int,
    d: MDigest,
)
    requires
        causal_order(r, ms),
        0 <= i < ms.len(),
        ms[i].1.preds.contains(d),
    ensures
        d != ms[i].0,
        r.messages.dom().contains(d) || exists|j: int| 0 <= j < i && (#[trigger] ms[j]).0 == d,
    decreases ms.len(),
{
    let front = ms.drop_last();
    if i == ms.len() - 1 {
        lemma_inserted_all_holds(r, front);
        let before = inserted_all(r, front);
        assert(before.messages.dom().contains(d));
        if !r.messages.dom().contains(d) {
            let j = choose|j: int| 0 <= j < front.len() && (#[trigger] front[j]).0 == d;
            assert(ms[j].0 == d);
        }
    } else {
        assert(front[i] == ms[i]);
        lemma_causal_order_is_acyclic(r, front, i, d);
        if !r.messages.dom().contains(d) {
            let j = choose|j: int| 0 <= j < i && (#[trigger] front[j]).0 == d;
            assert(ms[j].0 == d);
        }
    }
}

/// In causal order each message is new when its turn comes: its digest was
/// not in the repository at the start, and no earlier message came in under
/// it.
pub proof fn lemma_causal_order_is_fresh(r: RepoView, ms: Seq<(MDigest, MessageView)>, j: int)
    requires
        causal_order(r, ms),
        0 <= j < ms.len(),
    ensures
        !r.messages.dom().contains(ms[j].0),
        forall|i: int| 0 <= i < j ==> (#[trigger] ms[i]).0 != ms[j].0,
    decreases ms.len(),
{
    let front = ms.drop_last();
    if j == ms.len() - 1 {
        lemma_inserted_all_holds(r, front);
        assert forall|i: int| 0 <= i < j implies (#[trigger] ms[i]).0 != ms[j].0 by {
            assert(front[i].0 == ms[i].0);
        }
    } else {
        assert(front[j] == ms[j]);
        lemma_causal_order_is_fresh(r, front, j);
        assert forall|i: int| 0 <= i < j implies (#[trigger] ms[i]).0 != ms[j].0 by {
            assert(front[i].0 == ms[i].0);
        }
    }
}

/// No message that came in in causal order under its own digest is a
/// successor or a predecessor of itself.
pub proof fn lemma_causal_order_has_no_self_loop(
    r: RepoView,
    ms: Seq<(MDigest, MessageView)>,
    i: int,
)
    requires
        causal_order(r, ms),
        filed_by_digest(ms),
        0 <= i < ms.len(),
    ensures
        !ms[i].1.is_successor_of(ms[i].1.digest()),
        !ms[i].1.is_predecessor_of(ms[i].1),
{
    if ms[i].1.preds.contains(ms[i].0) {
        lemma_causal_order_is_acyclic(r, ms, i, ms[i].0);
    }
}

/// Of two messages that came in in causal order under their own digests,
/// of which the second declares the first as a predecessor: the first came
/// in earlier; the second is a successor of the first, and the first a
/// predecessor of the second; and neither holds the other way round.
pub proof fn lemma_causal_order_has_no_converse(
    r: RepoView,
    ms: Seq<(MDigest, MessageView)>,
    i: int,
    j: int,
)
    requires
        causal_order(r, ms),
        filed_by_digest(ms),
        0 <= i < ms.len(),
        0 <= j < ms.len(),
        ms[j].1.preds.contains(ms[i].1.digest()),
    ensures
        i < j,
        ms[j].1.is_successor_of(ms[i].1.digest()),
        ms[i].1.is_predecessor_of(ms[j].1),
        !ms[i].1.is_successor_of(ms[j].1.digest()),
        !ms[j].1.is_predecessor_of(ms[i].1),
{
    lemma_causal_order_comes_after(r, ms, j, i);
    if ms[i].1.preds.contains(ms[j].0) {
        lemma_causal_order_comes_after(r, ms, i, j);
    }
}

/// In causal order a message comes in after each message of the sequence
/// whose digest it declares as a predecessor.
pub proof fn lemma_causal_order_comes_after(
    r: RepoView,
    ms: Seq<(MDigest, MessageView)>,
    later: int,
    earlier: int,
)
    requires
        causal_order(r, ms),
        0 <= later < ms.len(),
        0 <= earlier < ms.len(),
        ms[later].1.preds.contains(ms[earlier].0),
    ensures
        earlier < later,
{
    let d = ms[earlier].0;
    lemma_causal_order_is_acyclic(r, ms, later, d);
    lemma_causal_order_is_fresh(r, ms, earlier);
    let k = choose|k: int| 0 <= k < later && (#[trigger] ms[k]).0 == d;
    if earlier > k {
        assert(ms[k].0 != ms[earlier].0);
    } else if earlier < k {
        lemma_causal_order_is_fresh(r, ms, k);
        assert(ms[earlier].0 != ms[k].0);
    }
}

/// An insertion leaves every label standing for a message of the
/// repository, if every label did before.
pub proof fn lemma_insert_keeps_labels_anchored(r: RepoView, d: MDigest, m: MessageView)
    requires
        labels_anchored(r),
    ensures
        labels_anchored(r.inserted(d, m)),
{
    let after = r.inserted(d, m);
    assert forall|l: Seq<char>|
        #![trigger after.labels[l]]
        after.labels.dom().contains(l) implies after.messages.dom().contains(after.labels[l]) by {
        if m.label == Some(l) {
        } else {
            assert(r.labels.dom().contains(l));
            assert(r.messages.dom().contains(r.labels[l]));
        }
    }
}

/// What is retained of a repository holds only admitted messages and
/// anchored labels, and retaining again changes nothing.
pub proof fn lemma_retained_is_clean(r: RepoView, keys: Set<Seq<u8>>)
    ensures
        all_admitted(r.retained(keys), keys),
        labels_anchored(r.retained(keys)),
        r.retained(keys).retained(keys) == r.retained(keys),
{
    let x = r.retained(keys);
    lemma_clean_is_retained(x, keys);
}

/// A repository of admitted messages and anchored labels, with derived
/// heads and edges, is what is retained of itself.
pub proof fn lemma_clean_is_retained(x: RepoView, keys: Set<Seq<u8>>)
    requires
        all_admitted(x, keys),
        labels_anchored(x),
    ensures
        admitted_messages(x.messages, keys) == x.messages,
        anchored_labels(x.labels, x.messages) == x.labels,
        x.retained(keys) == RepoView::derived(x.messages, x.labels),
{
    assert(admitted_messages(x.messages, keys) =~= x.messages);
    assert(anchored_labels(x.labels, x.messages) =~= x.labels);
}

/// The join of two repositories of admitted messages and anchored labels is
/// one again.
pub proof fn lemma_join_is_clean(a: RepoView, b: RepoView, keys: Set<Seq<u8>>)
    requires
        all_admitted(a, keys),
        labels_anchored(a),
        all_admitted(b, keys),
        labels_anchored(b),
    ensures
        all_admitted(a.joined(b), keys),
        labels_anchored(a.joined(b)),
        a.joined(b).retained(keys) == a.joined(b),
{
    let j = a.joined(b);
    assert forall|d: MDigest| #![trigger j.messages[d]] j.messages.dom().contains(d) implies admitted(
        j.messages[d],
        keys,
    ) by {
        if a.messages.dom().contains(d) {
            assert(admitted(a.messages[d], keys));
        } else {
            assert(admitted(b.messages[d], keys));
        }
    }
    assert forall|l: Seq<char>|
        #![trigger j.labels[l]]
        j.labels.dom().contains(l) implies j.messages.dom().contains(j.labels[l]) by {
        if a.labels.dom().contains(l) {
            assert(a.messages.dom().contains(a.labels[l]));
        } else {
            assert(b.messages.dom().contains(b.labels[l]));
        }
    }
    lemma_clean_is_retained(j, keys);
}

/// Joining a repository with itself gives an equivalent repository, and
/// never fails.
pub proof fn lemma_join_idempotent(a: RepoView)
    ensures
        !a.label_conflict(a),
        a.joined(a).equivalent(a),
        a.joined(a) == RepoView::derived(a.messages, a.labels),
{
    assert(united(a.messages, a.messages) =~= a.messages);
    assert(united(a.labels, a.labels) =~= a.labels);
}

/// Whether two label maps agree does not depend on which is taken first.
pub proof fn lemma_labels_agree_symmetric(
    first: Map<Seq<char>, MDigest>,
    second: Map<Seq<char>, MDigest>,
)
    ensures
        labels_agree(first, second) == labels_agree(second, first),
{
    if labels_agree(first, second) {
        assert forall|l: Seq<char>|
            #![trigger second[l]]
            second.dom().contains(l) && first.dom().contains(l) implies second[l] == first[l] by {
            assert(first[l] == second[l]);
        }
    }
    if labels_agree(second, first) {
        assert forall|l: Seq<char>|
            #![trigger first[l]]
            first.dom().contains(l) && second.dom().contains(l) implies first[l] == second[l] by {
            assert(second[l] == first[l]);
        }
    }
}

/// The union of two label maps that agree agrees with a third map exactly
/// when each of the two does.
pub proof fn lemma_labels_agree_with_union(
    a: Map<Seq<char>, MDigest>,
    b: Map<Seq<char>, MDigest>,
    c: Map<Seq<char>, MDigest>,
)
    requires
        labels_agree(a, b),
    ensures
        labels_agree(united(a, b), c) == (labels_agree(a, c) && labels_agree(b, c)),
        labels_agree(c, united(a, b)) == (labels_agree(c, a) && labels_agree(c, b)),
{
    let u = united(a, b);
    if labels_agree(u, c) {
        assert forall|l: Seq<char>|
            #![trigger a[l]]
            a.dom().contains(l) && c.dom().contains(l) implies a[l] == c[l] by {
            assert(u[l] == c[l]);
        }
        assert forall|l: Seq<char>|
            #![trigger b[l]]
            b.dom().contains(l) && c.dom().contains(l) implies b[l] == c[l] by {
            assert(u[l] == c[l]);
            if a.dom().contains(l) {
                assert(a[l] == b[l]);
            }
        }
    }
    if labels_agree(a, c) && labels_agree(b, c) {
        assert forall|l: Seq<char>|
            #![trigger u[l]]
            u.dom().contains(l) && c.dom().contains(l) implies u[l] == c[l] by {
            if a.dom().contains(l) {
                assert(a[l] == c[l]);
            } else {
                assert(b[l] == c[l]);
            }
        }
    }
    lemma_labels_agree_symmetric(u, c);
    lemma_labels_agree_symmetric(a, c);
    lemma_labels_agree_symmetric(b, c);
}

/// The edges that follow from a set of messages depend on the digests and
/// on the predecessors that the messages declare, and on nothing else.
pub proof fn lemma_same_messages_same_edges(
    a: Map<MDigest, MessageView>,
    b: Map<MDigest, MessageView>,
)
    requires
        same_messages(a, b),
    ensures
        resolved_edges(a) == resolved_edges(b),
{
    assert(a.dom() =~= b.dom());
    assert forall|d: MDigest| a.dom().contains(d) implies a[d].preds == b[d].preds by {}
    assert(resolved_edges(a) =~= resolved_edges(b));
}

/// Joining is commutative for repositories that agree on the messages they
/// share: it fails one way round if and only if it fails the other, and
/// gives like repositories either way.
pub proof fn lemma_join_commutative(a: RepoView, b: RepoView)
    requires
        agree(a, b),
    ensures
        a.label_conflict(b) == b.label_conflict(a),
        !a.label_conflict(b) ==> alike(a.joined(b), b.joined(a)),
{
    lemma_labels_agree_symmetric(a.labels, b.labels);
    if !a.label_conflict(b) {
        let x = united(a.messages, b.messages);
        let y = united(b.messages, a.messages);
        assert forall|d: MDigest| #[trigger] x.dom().contains(d) implies y.dom().contains(d)
            && x[d].same_content(y[d]) by {
            if a.messages.dom().contains(d) && b.messages.dom().contains(d) {
                assert(a.messages[d].same_content(b.messages[d]));
            }
        }
        assert forall|d: MDigest| #[trigger] y.dom().contains(d) implies x.dom().contains(d)
            && y[d].same_content(x[d]) by {
            if a.messages.dom().contains(d) && b.messages.dom().contains(d) {
                assert(a.messages[d].same_content(b.messages[d]));
            }
        }
        lemma_same_messages_same_frontier(x, y);
        lemma_same_messages_same_edges(x, y);
        assert forall|l: Seq<char>|
            a.labels.dom().contains(l) && b.labels.dom().contains(l) implies a.labels[l]
            == b.labels[l] by {}
        assert(united(a.labels, b.labels) =~= united(b.labels, a.labels));
    }
}

/// The labels of a join conflict with a third repository exactly when those
/// of one of the two joined do.
pub proof fn lemma_conflict_with_join(a: RepoView, b: RepoView, c: RepoView)
    requires
        !a.label_conflict(b),
    ensures
        a.joined(b).label_conflict(c) == (a.label_conflict(c) || b.label_conflict(c)),
        c.label_conflict(a.joined(b)) == (c.label_conflict(a) || c.label_conflict(b)),
{
    lemma_labels_agree_with_union(a.labels, b.labels, c.labels);
}

/// Joining is associative: where all three joins succeed, the grouping does
/// not matter.
pub proof fn lemma_join_associative(a: RepoView, b: RepoView, c: RepoView)
    ensures
        a.joined(b).joined(c) == a.joined(b.joined(c)),
{
    assert(united(united(a.messages, b.messages), c.messages) =~= united(
        a.messages,
        united(b.messages, c.messages),
    ));
    assert(united(united(a.labels, b.labels), c.labels) =~= united(
        a.labels,
        united(b.labels, c.labels),
    ));
}

/// Reconciling a repository with itself never fails, and gives a repository
/// equivalent to what is retained of it.
pub proof fn lemma_reconcile_with_itself(a: RepoView, keys: Set<Seq<u8>>)
    ensures
        a.reconciled(a, keys) matches Some(r) && r.equivalent(a.retained(keys)),
{
    lemma_join_idempotent(a.retained(keys));
}

/// Reconciliation is idempotent: reconciling a repository whose messages
/// are all admitted, and whose labels all stand for messages of it, with
/// itself gives an equivalent repository.
pub proof fn lemma_reconcile_idempotent(a: RepoView, keys: Set<Seq<u8>>)
    requires
        all_admitted(a, keys),
        labels_anchored(a),
    ensures
        a.reconciled(a, keys) matches Some(r) && r.equivalent(a),
{
    lemma_clean_is_retained(a, keys);
    lemma_join_idempotent(a.retained(keys));
}

/// Reconciliation is commutative for repositories that agree on the
/// messages they share: it fails one way round if and only if it fails the
/// other, and gives like repositories either way.
pub proof fn lemma_reconcile_commutative(a: RepoView, b: RepoView, keys: Set<Seq<u8>>)
    requires
        agree(a, b),
    ensures
        same_outcome(a.reconciled(b, keys), b.reconciled(a, keys)),
{
    let ra = a.retained(keys);
    let rb = b.retained(keys);
    assert forall|d: MDigest|
        #![trigger ra.messages[d]]
        #![trigger rb.messages[d]]
        ra.messages.dom().contains(d) && rb.messages.dom().contains(
            d,
        ) implies ra.messages[d].same_content(rb.messages[d]) by {
        assert(a.messages[d].same_content(b.messages[d]));
    }
    lemma_join_commutative(ra, rb);
}

/// Reconciliation is associative: reconciling three repositories pairwise
/// fails or succeeds whichever two are taken first, and gives the same
/// repository either way.
pub proof fn lemma_reconcile_associative(a: RepoView, b: RepoView, c: RepoView, keys: Set<Seq<u8>>)
    ensures
        reconciled_left(a, b, c, keys) == reconciled_right(a, b, c, keys),
{
    let ra = a.retained(keys);
    let rb = b.retained(keys);
    let rc = c.retained(keys);
    lemma_retained_is_clean(a, keys);
    lemma_retained_is_clean(b, keys);
    lemma_retained_is_clean(c, keys);
    if !ra.label_conflict(rb) {
        lemma_join_is_clean(ra, rb, keys);
        lemma_conflict_with_join(ra, rb, rc);
    }
    if !rb.label_conflict(rc) {
        lemma_join_is_clean(rb, rc, keys);
        lemma_conflict_with_join(rb, rc, ra);
    }
    lemma_join_associative(ra, rb, rc);
}

} // verus!
