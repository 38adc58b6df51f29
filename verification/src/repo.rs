//! The message repository: the messages one replica knows, the edges from
//! each to the heads it superseded, a label index, and the current heads.

use crate::digest::{digest_eq, MDigest};
use crate::digest_set::{canonical_order, DigestSet};
use crate::laws::{lemma_insert_keeps_heads_covering, lemma_insert_keeps_heads_exact};
use crate::message::{Message, MessageView};
use crate::vec_map::VecMap;
use vstd::prelude::*;

verus! {

/// Why a repository turned a message, or a peer, down.
#[derive(Debug, PartialEq, Eq)]
pub enum RepoError {
    /// A message with this digest is already in the repository.
    DuplicateMessage(MDigest),
    /// The label is already in use for a message with another digest.
    DuplicateLabel(String),
    /// The two repositories use one label for messages with different
    /// digests.
    LabelConflict,
}

/// The growing directed acyclic graph of messages that one replica knows.
pub struct MessageRepo {
    /// The digests of the messages that no later message has superseded.
    pub heads: DigestSet,
    /// Every known message, under its digest.
    pub messages: VecMap<MDigest, Message>,
    /// For each message, the heads that it superseded when it came.
    pub edges: VecMap<MDigest, Vec<MDigest>>,
    /// The digest that each label stands for.
    pub labels: VecMap<String, MDigest>,
}

/// A repository as a mathematical value.
pub struct RepoView {
    pub heads: Set<MDigest>,
    pub messages: Map<MDigest, MessageView>,
    pub edges: Map<MDigest, Seq<MDigest>>,
    pub labels: Map<Seq<char>, MDigest>,
}

/// The messages of a map, each as a mathematical value.
pub open spec fn message_views(messages: Map<MDigest, Message>) -> Map<MDigest, MessageView> {
    Map::new(|d: MDigest| messages.dom().contains(d), |d: MDigest| messages[d]@)
}

/// The edge lists of a map, each as a sequence.
pub open spec fn edge_views(edges: Map<MDigest, Vec<MDigest>>) -> Map<MDigest, Seq<MDigest>> {
    Map::new(|d: MDigest| edges.dom().contains(d), |d: MDigest| edges[d]@)
}

impl View for MessageRepo {
    type V = RepoView;

    open spec fn view(&self) -> RepoView {
        RepoView {
            heads: self.heads@,
            messages: message_views(self.messages@),
            edges: edge_views(self.edges@),
            labels: self.labels@,
        }
    }
}

/// Some message other than `d` itself declares `d` as a predecessor.
pub open spec fn superseded(messages: Map<MDigest, MessageView>, d: MDigest) -> bool {
    exists|k: MDigest|
        #![trigger messages[k]]
        messages.dom().contains(k) && k != d && messages[k].preds.contains(d)
}

/// The frontier of a set of messages: the digests in it that no other
/// message in it declares as a predecessor.
pub open spec fn frontier(messages: Map<MDigest, MessageView>) -> Set<MDigest> {
    Set::new(|d: MDigest| messages.dom().contains(d) && !superseded(messages, d))
}

/// Every message of `a` is in `b`, under the same digest and with the same
/// content.
pub open spec fn messages_in(a: Map<MDigest, MessageView>, b: Map<MDigest, MessageView>) -> bool {
    forall|d: MDigest| #[trigger]
        a.dom().contains(d) ==> b.dom().contains(d) && a[d].same_content(b[d])
}

/// The two hold the same messages: the same digests, and under each digest
/// messages of the same content. The labels that the messages carry may
/// differ.
pub open spec fn same_messages(a: Map<MDigest, MessageView>, b: Map<MDigest, MessageView>) -> bool {
    messages_in(a, b) && messages_in(b, a)
}

/// The frontier depends on the digests and on the predecessors that the
/// messages declare, and on nothing else.
pub proof fn lemma_same_messages_same_frontier(
    a: Map<MDigest, MessageView>,
    b: Map<MDigest, MessageView>,
)
    requires
        same_messages(a, b),
    ensures
        a.dom() == b.dom(),
        frontier(a) == frontier(b),
{
    assert(a.dom() =~= b.dom());
    assert forall|d: MDigest| superseded(a, d) == superseded(b, d) by {
        if superseded(a, d) {
            let k = choose|k: MDigest|
                #![trigger a[k]]
                a.dom().contains(k) && k != d && a[k].preds.contains(d);
            assert(b.dom().contains(k) && b[k].preds.contains(d));
        }
        if superseded(b, d) {
            let k = choose|k: MDigest|
                #![trigger b[k]]
                b.dom().contains(k) && k != d && b[k].preds.contains(d);
            assert(a.dom().contains(k) && a[k].preds.contains(d));
        }
    }
    assert(frontier(a) =~= frontier(b));
}

/// Every declared predecessor of every message is itself in the set.
pub open spec fn causally_closed(messages: Map<MDigest, MessageView>) -> bool {
    forall|k: MDigest, d: MDigest|
        #![trigger messages[k].preds.contains(d)]
        messages.dom().contains(k) && messages[k].preds.contains(d) ==> messages.dom().contains(d)
}

impl RepoView {
    /// The empty repository.
    pub open spec fn empty() -> RepoView {
        RepoView {
            heads: Set::empty(),
            messages: Map::empty(),
            edges: Map::empty(),
            labels: Map::empty(),
        }
    }

    /// A message with the digest `d` is already there.
    pub open spec fn duplicate_message(self, d: MDigest) -> bool {
        self.messages.dom().contains(d)
    }

    /// The label of `m` is already in use for another digest than `d`.
    pub open spec fn duplicate_label(self, d: MDigest, m: MessageView) -> bool {
        m.label matches Some(l) && self.labels.dom().contains(l) && self.labels[l] != d
    }

    /// The repository after the message `m` came in under the digest `d`:
    /// the heads that `m` declares as predecessors give way to `d`, and are
    /// recorded, in canonical order, as the edges of `d`.
    pub open spec fn inserted(self, d: MDigest, m: MessageView) -> RepoView {
        RepoView {
            heads: self.heads.difference(m.preds).insert(d),
            messages: self.messages.insert(d, m),
            edges: self.edges.insert(d, canonical_order(self.heads.intersect(m.preds))),
            labels: match m.label {
                Some(l) => self.labels.insert(l, d),
                None => self.labels,
            },
        }
    }

    /// The heads are exactly the frontier of the messages.
    pub open spec fn heads_exact(self) -> bool {
        self.heads == frontier(self.messages)
    }

    /// The heads are messages of the repository, and none of its frontier is
    /// missing among them.
    pub open spec fn heads_cover(self) -> bool {
        frontier(self.messages).subset_of(self.heads) && self.heads.subset_of(self.messages.dom())
    }

    /// The message `m` is in causal order for the repository: its heads are
    /// exactly its frontier, every declared predecessor of its messages is
    /// in it, and so is every predecessor that `m` declares.
    pub open spec fn in_causal_order(self, m: MessageView) -> bool {
        &&& self.heads_exact()
        &&& causally_closed(self.messages)
        &&& m.preds.subset_of(self.messages.dom())
    }

    /// Equivalence of repositories: the same messages, the same frontier
    /// derived from them, and the same labels.
    pub open spec fn equivalent(self, other: RepoView) -> bool {
        &&& same_messages(self.messages, other.messages)
        &&& frontier(self.messages) == frontier(other.messages)
        &&& self.labels == other.labels
    }
}

impl MessageRepo {
    /// An empty repository.
    pub fn new() -> (mr: Self)
        ensures
            mr@ == RepoView::empty(),
    {
        let mr = MessageRepo {
            heads: DigestSet::new(),
            messages: VecMap::new(),
            edges: VecMap::new(),
            labels: VecMap::new(),
        };
        proof {
            assert(mr@.messages =~= Map::<MDigest, MessageView>::empty());
            assert(mr@.edges =~= Map::<MDigest, Seq<MDigest>>::empty());
        }
        mr
    }

    /// Inserts the message under its digest, and returns the digest.
    ///
    /// The message is turned down, and the repository left as it was, if its
    /// digest is already there, or if its label is in use for another
    /// digest. Its predecessors need not be there: those that are not among
    /// the heads leave no edge.
    pub fn insert_message(&mut self, m: Message) -> (r: Result<MDigest, RepoError>)
        ensures
            insert_outcome(*old(self), *final(self), m@.digest(), m@, r),
            r is Ok ==> insert_keeps(old(self)@, final(self)@, m@),
    {
        let d = m.digest();
        self.insert_with_digest(d, m)
    }

    /// Inserts the message `m` under the digest `d`, which the caller has
    /// computed, and returns the digest.
    pub fn insert_with_digest(&mut self, d: MDigest, m: Message) -> (r: Result<MDigest, RepoError>)
        ensures
            insert_outcome(*old(self), *final(self), d, m@, r),
            r is Ok ==> insert_keeps(old(self)@, final(self)@, m@),
    {
        if self.messages.contains_key(&d) {
            return Err(RepoError::DuplicateMessage(d));
        }
        match &m.label {
            Some(label) => {
                match self.labels.get(label) {
                    Some(used) => {
                        if !digest_eq(used, &d) {
                            return Err(RepoError::DuplicateLabel(label.clone()));
                        }
                    },
                    None => {},
                }
            },
            None => {},
        }
        let ghost before = self@;
        let ghost mv = m@;
        // if this message is a successor of one of the heads, remove that head
        // this message becomes a new head
        let resolved = self.heads.intersection(&m.hs);
        let preds = resolved.to_vec();
        self.heads.remove_all(preds.as_slice());
        proof {
            resolved.lemma_wf();
            assert(self.heads@ =~= before.heads.difference(mv.preds));
        }
        self.heads.insert(d);
        match &m.label {
            Some(label) => {
                self.labels.insert(label.clone(), d);
            },
            None => {},
        }
        self.edges.insert(d, preds);
        self.messages.insert(d, m);
        proof {
            assert(self@.messages =~= before.messages.insert(d, mv));
            assert(self@.edges =~= before.edges.insert(
                d,
                canonical_order(before.heads.intersect(mv.preds)),
            ));
            assert(self@ == before.inserted(d, mv));
            if before.heads_cover() {
                lemma_insert_keeps_heads_covering(before, d, mv);
            }
            if before.in_causal_order(mv) {
                lemma_insert_keeps_heads_exact(before, d, mv);
            }
        }
        Ok(d)
    }

    /// Replaces the heads by the digests listed in `ds`.
    pub fn replace_heads(&mut self, ds: Vec<MDigest>)
        ensures
            final(self)@.heads == ds@.to_set(),
            final(self).messages == old(self).messages,
            final(self).edges == old(self).edges,
            final(self).labels == old(self).labels,
    {
        self.heads.clear();
        self.heads.extend_from_slice(ds.as_slice());
        assert(self.heads@ =~= ds@.to_set());
    }

    /// The message with the digest `digest`, if it is known.
    pub fn get_message(&self, digest: &MDigest) -> (m: Option<&Message>)
        ensures
            match m {
                Some(x) => self@.messages.dom().contains(*digest) && x@ == self@.messages[*digest]
                    && *x == self.messages@[*digest],
                None => !self@.messages.dom().contains(*digest),
            },
    {
        self.messages.get(digest)
    }

    /// The digest that `label` stands for, if it is in use.
    pub fn get_digest(&self, label: &str) -> (d: Option<&MDigest>)
        ensures
            match d {
                Some(x) => self@.labels.dom().contains(label@) && *x == self@.labels[label@],
                None => !self@.labels.dom().contains(label@),
            },
    {
        let key = label.to_owned();
        self.labels.get(&key)
    }
}

impl Default for MessageRepo {
    fn default() -> (mr: Self)
        ensures
            mr@ == RepoView::empty(),
    {
        MessageRepo::new()
    }
}

/// What a successful insertion of the message `m` keeps: heads that covered
/// the frontier before still do; and if `m` came in causal order, the heads
/// are still exactly the frontier, and every declared predecessor is still
/// in the repository.
pub open spec fn insert_keeps(before: RepoView, after: RepoView, m: MessageView) -> bool {
    &&& before.heads_cover() ==> after.heads_cover()
    &&& before.in_causal_order(m) ==> after.heads_exact() && causally_closed(after.messages)
}

/// What an insertion of the message `m` under the digest `d` makes of the
/// repository `before`, and what it returns.
pub open spec fn insert_outcome(
    before: MessageRepo,
    after: MessageRepo,
    d: MDigest,
    m: MessageView,
    r: Result<MDigest, RepoError>,
) -> bool {
    if before@.duplicate_message(d) {
        &&& r matches Err(RepoError::DuplicateMessage(x))
        &&& x == d
        &&& after == before
    } else if before@.duplicate_label(d, m) {
        &&& r matches Err(RepoError::DuplicateLabel(l))
        &&& Some(l@) == m.label
        &&& after == before
    } else {
        &&& r == Ok::<MDigest, RepoError>(d)
        &&& after@ == before@.inserted(d, m)
    }
}

/// Every entry of `a` is an entry of `b`.
pub open spec fn within<K, V>(a: Map<K, V>, b: Map<K, V>) -> bool {
    forall|k: K| #[trigger] a.dom().contains(k) ==> b.dom().contains(k) && a[k] == b[k]
}

/// Whether every message of `a` is in `b`, under the same digest and with
/// the same content.
pub fn messages_within(a: &VecMap<MDigest, Message>, b: &VecMap<MDigest, Message>) -> (all: bool)
    ensures
        all == messages_in(message_views(a@), message_views(b@)),
{
    let n = a.len();
    let ghost views = message_views(a@);
    let mut i: usize = 0;
    proof {
        a.lemma_walk_ends();
    }
    while i < n
        invariant
            i <= n,
            n == a.keys().len(),
            a.wf(),
            views == message_views(a@),
            messages_in(views.restrict(a.seen(i as int)), message_views(b@)),
        decreases n - i,
    {
        let same = match b.get(a.key_at(i)) {
            Some(m) => a.value_at(i).same_content(m),
            None => false,
        };
        proof {
            a.lemma_walk_step(i as int);
            assert(views.dom().contains(a.keys()[i as int]));
        }
        if !same {
            return false;
        }
        proof {
            let seen = views.restrict(a.seen(i as int));
            assert forall|k: MDigest| #[trigger]
                views.restrict(a.seen(i + 1)).dom().contains(k) implies message_views(
                b@,
            ).dom().contains(k) && views.restrict(a.seen(i + 1))[k].same_content(
                message_views(b@)[k],
            ) by {
                if k != a.keys()[i as int] {
                    assert(seen.dom().contains(k));
                }
            }
        }
        i += 1;
    }
    proof {
        a.lemma_walk_ends();
        assert(views.restrict(a@.dom()) =~= views);
    }
    true
}

/// Whether every label of `a` is in `b`, and stands for the same digest.
pub fn labels_within(a: &VecMap<String, MDigest>, b: &VecMap<String, MDigest>) -> (all: bool)
    ensures
        all == within(a@, b@),
{
    let n = a.len();
    let mut i: usize = 0;
    proof {
        a.lemma_walk_ends();
    }
    while i < n
        invariant
            i <= n,
            n == a.keys().len(),
            a.wf(),
            within(a@.restrict(a.seen(i as int)), b@),
        decreases n - i,
    {
        let same = match b.get(a.key_at(i)) {
            Some(d) => digest_eq(a.value_at(i), d),
            None => false,
        };
        proof {
            a.lemma_walk_step(i as int);
            assert(a@.dom().contains(a.keys()[i as int]));
        }
        if !same {
            return false;
        }
        proof {
            let seen = a@.restrict(a.seen(i as int));
            assert forall|l: Seq<char>| #[trigger]
                a@.restrict(a.seen(i + 1)).dom().contains(l) implies b@.dom().contains(l)
                && a@.restrict(a.seen(i + 1))[l] == b@[l] by {
                if l != a.keys()[i as int] {
                    assert(seen.dom().contains(l));
                }
            }
        }
        i += 1;
    }
    proof {
        a.lemma_walk_ends();
        assert(a@.restrict(a@.dom()) =~= a@);
    }
    true
}

impl MessageRepo {
    /// Whether the two repositories are equivalent: they hold the same
    /// messages, and with them the same frontier, and the same labels.
    pub fn equivalent(&self, other: &MessageRepo) -> (same: bool)
        ensures
            same == self@.equivalent(other@),
    {
        let same = messages_within(&self.messages, &other.messages) && messages_within(
            &other.messages,
            &self.messages,
        ) && labels_within(&self.labels, &other.labels) && labels_within(
            &other.labels,
            &self.labels,
        );
        proof {
            if same {
                lemma_same_messages_same_frontier(self@.messages, other@.messages);
                assert forall|l: Seq<char>|
                    self@.labels.dom().contains(l) == other@.labels.dom().contains(l) by {}
                assert(self@.labels =~= other@.labels);
            }
        }
        same
    }
}

} // verus!
