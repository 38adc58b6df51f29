//! Reconciliation: the causal join of two repositories that have grown apart.
//!
//! Each side is first reduced to the messages that can be attributed to a
//! known principal. The two are then joined: messages are united by digest,
//! edges and heads are derived afresh from the union, and labels are merged,
//! unless one label stands for two digests.

use crate::digest::{digest_eq, MDigest};
use crate::digest_set::{canonical_order, DigestSet};
use crate::message::{Message, MessageView};
use crate::replica::{registry_keys, PrincipalRegistry};
use crate::repo::{
    edge_views, frontier, message_views, superseded, MessageRepo, RepoError, RepoView,
};
use crate::vec_map::VecMap;
use vstd::prelude::*;

verus! {

/// The message can be attributed to a known principal: its signature
/// verifies under one of the keys. Of the synthetic root no signature is
/// asked.
pub open spec fn admitted(m: MessageView, keys: Set<Seq<u8>>) -> bool {
    m.is_synthetic_root() || exists|k: Seq<u8>| keys.contains(k) && #[trigger] m.verifies_under(k)
}

/// The messages of `messages` that are admitted under `keys`.
pub open spec fn admitted_messages(
    messages: Map<MDigest, MessageView>,
    keys: Set<Seq<u8>>,
) -> Map<MDigest, MessageView> {
    Map::new(
        |d: MDigest| messages.dom().contains(d) && admitted(messages[d], keys),
        |d: MDigest| messages[d],
    )
}

/// The labels of `labels` that stand for a message of `messages`.
pub open spec fn anchored_labels(
    labels: Map<Seq<char>, MDigest>,
    messages: Map<MDigest, MessageView>,
) -> Map<Seq<char>, MDigest> {
    Map::new(
        |l: Seq<char>| labels.dom().contains(l) && messages.dom().contains(labels[l]),
        |l: Seq<char>| labels[l],
    )
}

/// For every message, those of its declared predecessors that are in the
/// set, in canonical order.
pub open spec fn resolved_edges(messages: Map<MDigest, MessageView>) -> Map<MDigest, Seq<MDigest>> {
    Map::new(
        |d: MDigest| messages.dom().contains(d),
        |d: MDigest| canonical_order(messages[d].preds.intersect(messages.dom())),
    )
}

/// The union of two maps in which, where both have a key, the first wins.
pub open spec fn united<K, V>(first: Map<K, V>, second: Map<K, V>) -> Map<K, V> {
    Map::new(
        |k: K| first.dom().contains(k) || second.dom().contains(k),
        |k: K|
            if first.dom().contains(k) {
                first[k]
            } else {
                second[k]
            },
    )
}

/// No label stands for one digest in `first` and for another in `second`.
pub open spec fn labels_agree(
    first: Map<Seq<char>, MDigest>,
    second: Map<Seq<char>, MDigest>,
) -> bool {
    forall|l: Seq<char>|
        #![trigger first[l]]
        first.dom().contains(l) && second.dom().contains(l) ==> first[l] == second[l]
}

impl RepoView {
    /// The repository that holds `messages` and `labels`, with heads and
    /// edges derived from the messages.
    pub open spec fn derived(
        messages: Map<MDigest, MessageView>,
        labels: Map<Seq<char>, MDigest>,
    ) -> RepoView {
        RepoView { heads: frontier(messages), messages, edges: resolved_edges(messages), labels }
    }

    /// What is left of the repository when every message that is not
    /// admitted under `keys` is turned away, and its label with it.
    pub open spec fn retained(self, keys: Set<Seq<u8>>) -> RepoView {
        let messages = admitted_messages(self.messages, keys);
        RepoView::derived(messages, anchored_labels(self.labels, messages))
    }

    /// Some label stands for one digest here and for another in `other`.
    pub open spec fn label_conflict(self, other: RepoView) -> bool {
        !labels_agree(self.labels, other.labels)
    }

    /// The causal join with `other`: the union of the messages and of the
    /// labels, and the heads and edges that follow from the union.
    pub open spec fn joined(self, other: RepoView) -> RepoView {
        RepoView::derived(united(self.messages, other.messages), united(self.labels, other.labels))
    }

    /// The reconciliation with `other` under the verification keys `keys`:
    /// the join of what is retained of either, or nothing where their labels
    /// conflict.
    pub open spec fn reconciled(self, other: RepoView, keys: Set<Seq<u8>>) -> Option<RepoView> {
        let a = self.retained(keys);
        let b = other.retained(keys);
        if a.label_conflict(b) {
            None
        } else {
            Some(a.joined(b))
        }
    }
}

/// Whether the message can be attributed to a principal of the registry.
pub fn is_admitted(m: &Message, registry: &PrincipalRegistry) -> (b: bool)
    ensures
        b == admitted(m@, registry_keys(registry@)),
{
    if m.is_synthetic_root() {
        return true;
    }
    let n = registry.len();
    let mut i: usize = 0;
    while i < n
        invariant
            i <= n,
            n == registry.keys().len(),
            registry.wf(),
            forall|id: usize|
                #![trigger registry@[id]]
                registry.seen(i as int).contains(id) ==> !m@.verifies_under(registry@[id].bytes@),
        decreases n - i,
    {
        let key = registry.value_at(i);
        proof {
            registry.lemma_walk_step(i as int);
        }
        if m.verify(*key).is_ok() {
            assert(registry_keys(registry@).contains(key.bytes@));
            return true;
        }
        i += 1;
    }
    proof {
        registry.lemma_walk_ends();
    }
    false
}

/// Whether some other message of `messages` declares `d` as a predecessor.
pub fn is_superseded(messages: &VecMap<MDigest, Message>, d: &MDigest) -> (b: bool)
    ensures
        b == superseded(message_views(messages@), *d),
{
    let n = messages.len();
    let ghost views = message_views(messages@);
    let mut i: usize = 0;
    while i < n
        invariant
            i <= n,
            n == messages.keys().len(),
            messages.wf(),
            views == message_views(messages@),
            forall|k: MDigest|
                #![trigger views[k]]
                messages.seen(i as int).contains(k) && k != *d ==> !views[k].preds.contains(*d),
        decreases n - i,
    {
        let k = messages.key_at(i);
        let m = messages.value_at(i);
        proof {
            messages.lemma_walk_step(i as int);
            assert(views[*k] == m@);
        }
        if !digest_eq(k, d) && m.is_successor_of(d) {
            return true;
        }
        i += 1;
    }
    proof {
        messages.lemma_walk_ends();
    }
    false
}

/// The frontier of `messages`.
pub fn frontier_of(messages: &VecMap<MDigest, Message>) -> (heads: DigestSet)
    ensures
        heads@ == frontier(message_views(messages@)),
{
    let n = messages.len();
    let ghost views = message_views(messages@);
    let mut heads = DigestSet::new();
    let mut i: usize = 0;
    proof {
        messages.lemma_walk_ends();
        assert(heads@ =~= messages.seen(0).filter(|d: MDigest| !superseded(views, d)));
    }
    while i < n
        invariant
            i <= n,
            n == messages.keys().len(),
            messages.wf(),
            views == message_views(messages@),
            heads@ == messages.seen(i as int).filter(|d: MDigest| !superseded(views, d)),
        decreases n - i,
    {
        let d = messages.key_at(i);
        if !is_superseded(messages, d) {
            heads.insert(*d);
        }
        proof {
            messages.lemma_walk_step(i as int);
            assert(heads@ =~= messages.seen(i + 1).filter(|d: MDigest| !superseded(views, d)));
        }
        i += 1;
    }
    proof {
        messages.lemma_walk_ends();
        assert(heads@ =~= frontier(views));
    }
    heads
}

/// Those of the declared predecessors of `m` that are in `messages`, in
/// canonical order.
pub fn known_predecessors(m: &Message, messages: &VecMap<MDigest, Message>) -> (preds: Vec<MDigest>)
    ensures
        preds@ == canonical_order(m@.preds.intersect(message_views(messages@).dom())),
{
    let n = m.hs.len();
    let mut known = DigestSet::new();
    let mut i: usize = 0;
    proof {
        m.hs.lemma_walk_ends();
        assert(known@ =~= m.hs.seen(0).intersect(messages@.dom()));
    }
    while i < n
        invariant
            i <= n,
            n == m.hs.order().len(),
            m.hs.wf(),
            known@ == m.hs.seen(i as int).intersect(messages@.dom()),
        decreases n - i,
    {
        let h = m.hs.nth(i);
        if messages.contains_key(h) {
            known.insert(*h);
        }
        proof {
            m.hs.lemma_walk_step(i as int);
            assert(known@ =~= m.hs.seen(i + 1).intersect(messages@.dom()));
        }
        i += 1;
    }
    proof {
        m.hs.lemma_walk_ends();
        assert(message_views(messages@).dom() =~= messages@.dom());
    }
    known.to_vec()
}

/// For every message of `messages`, its known predecessors.
pub fn edges_of(messages: &VecMap<MDigest, Message>) -> (edges: VecMap<MDigest, Vec<MDigest>>)
    ensures
        edge_views(edges@) == resolved_edges(message_views(messages@)),
{
    let n = messages.len();
    let ghost target = resolved_edges(message_views(messages@));
    let mut edges: VecMap<MDigest, Vec<MDigest>> = VecMap::new();
    let mut i: usize = 0;
    proof {
        messages.lemma_walk_ends();
        assert(edge_views(edges@) =~= target.restrict(messages.seen(0)));
    }
    while i < n
        invariant
            i <= n,
            n == messages.keys().len(),
            messages.wf(),
            target == resolved_edges(message_views(messages@)),
            edge_views(edges@) == target.restrict(messages.seen(i as int)),
        decreases n - i,
    {
        let d = messages.key_at(i);
        let m = messages.value_at(i);
        let preds = known_predecessors(m, messages);
        let ghost before = edges@;
        edges.insert(*d, preds);
        proof {
            messages.lemma_walk_step(i as int);
            assert(edge_views(edges@) =~= edge_views(before).insert(*d, preds@));
            assert(target.restrict(messages.seen(i + 1)) =~= target.restrict(
                messages.seen(i as int),
            ).insert(*d, preds@));
        }
        i += 1;
    }
    proof {
        messages.lemma_walk_ends();
        assert(target.restrict(messages@.dom()) =~= target);
    }
    edges
}

/// A repository that holds `messages` and `labels`, with heads and edges
/// derived from the messages.
pub fn assemble(
    messages: VecMap<MDigest, Message>,
    labels: VecMap<String, MDigest>,
) -> (mr: MessageRepo)
    ensures
        mr@ == RepoView::derived(message_views(messages@), labels@),
{
    let heads = frontier_of(&messages);
    let edges = edges_of(&messages);
    MessageRepo { heads, messages, edges, labels }
}

/// Copies of the messages of `source` that are admitted under the registry.
pub fn copy_admitted(
    source: &VecMap<MDigest, Message>,
    registry: &PrincipalRegistry,
) -> (out: VecMap<MDigest, Message>)
    ensures
        message_views(out@) == admitted_messages(message_views(source@), registry_keys(registry@)),
{
    let n = source.len();
    let ghost views = message_views(source@);
    let ghost keys = registry_keys(registry@);
    let mut out: VecMap<MDigest, Message> = VecMap::new();
    let mut i: usize = 0;
    proof {
        source.lemma_walk_ends();
        assert(message_views(out@) =~= admitted_messages(views.restrict(source.seen(0)), keys));
    }
    while i < n
        invariant
            i <= n,
            n == source.keys().len(),
            source.wf(),
            views == message_views(source@),
            keys == registry_keys(registry@),
            message_views(out@) == admitted_messages(views.restrict(source.seen(i as int)), keys),
        decreases n - i,
    {
        let d = source.key_at(i);
        let m = source.value_at(i);
        let ghost before = out@;
        let welcome = is_admitted(m, registry);
        if welcome {
            out.insert(*d, m.duplicate());
        }
        proof {
            source.lemma_walk_step(i as int);
            let seen = views.restrict(source.seen(i as int));
            assert(views.restrict(source.seen(i + 1)) =~= seen.insert(*d, m@));
            if welcome {
                assert(message_views(out@) =~= message_views(before).insert(*d, m@));
                assert(admitted_messages(seen.insert(*d, m@), keys) =~= admitted_messages(
                    seen,
                    keys,
                ).insert(*d, m@));
            } else {
                assert(admitted_messages(seen.insert(*d, m@), keys) =~= admitted_messages(
                    seen,
                    keys,
                ));
            }
        }
        i += 1;
    }
    proof {
        source.lemma_walk_ends();
        assert(views.restrict(views.dom()) =~= views);
    }
    out
}

/// Copies of the labels of `source` that stand for a message of `messages`.
pub fn copy_anchored(
    source: &VecMap<String, MDigest>,
    messages: &VecMap<MDigest, Message>,
) -> (out: VecMap<String, MDigest>)
    ensures
        out@ == anchored_labels(source@, message_views(messages@)),
{
    let n = source.len();
    let ghost views = message_views(messages@);
    let mut out: VecMap<String, MDigest> = VecMap::new();
    let mut i: usize = 0;
    proof {
        source.lemma_walk_ends();
        assert(out@ =~= anchored_labels(source@.restrict(source.seen(0)), views));
    }
    while i < n
        invariant
            i <= n,
            n == source.keys().len(),
            source.wf(),
            views == message_views(messages@),
            out@ == anchored_labels(source@.restrict(source.seen(i as int)), views),
        decreases n - i,
    {
        let l = source.key_at(i);
        let d = source.value_at(i);
        if messages.contains_key(d) {
            out.insert(l.clone(), *d);
        }
        proof {
            source.lemma_walk_step(i as int);
            let seen = source@.restrict(source.seen(i as int));
            assert(source@.restrict(source.seen(i + 1)) =~= seen.insert(l@, *d));
            assert(out@ =~= anchored_labels(seen.insert(l@, *d), views));
        }
        i += 1;
    }
    proof {
        source.lemma_walk_ends();
        assert(source@.restrict(source@.dom()) =~= source@);
    }
    out
}

/// Adds to `out` a copy of each message of `source` whose digest `out` does
/// not hold yet.
pub fn absorb_messages(out: &mut VecMap<MDigest, Message>, source: &VecMap<MDigest, Message>)
    ensures
        message_views(final(out)@) == united(message_views(old(out)@), message_views(source@)),
{
    let n = source.len();
    let ghost first = message_views(out@);
    let ghost second = message_views(source@);
    let mut i: usize = 0;
    proof {
        source.lemma_walk_ends();
        assert(message_views(out@) =~= united(first, second.restrict(source.seen(0))));
    }
    while i < n
        invariant
            i <= n,
            n == source.keys().len(),
            source.wf(),
            second == message_views(source@),
            message_views(out@) == united(first, second.restrict(source.seen(i as int))),
        decreases n - i,
    {
        let d = source.key_at(i);
        let m = source.value_at(i);
        let ghost before = out@;
        let known = out.contains_key(d);
        if !known {
            out.insert(*d, m.duplicate());
        }
        proof {
            source.lemma_walk_step(i as int);
            let seen = second.restrict(source.seen(i as int));
            assert(second.restrict(source.seen(i + 1)) =~= seen.insert(*d, m@));
            assert(known == message_views(before).dom().contains(*d));
            if !known {
                assert(message_views(out@) =~= message_views(before).insert(*d, m@));
            }
            assert(message_views(out@) =~= united(first, seen.insert(*d, m@)));
        }
        i += 1;
    }
    proof {
        source.lemma_walk_ends();
        assert(second.restrict(second.dom()) =~= second);
    }
}

/// The union of the two label maps, or nothing if one label stands for
/// different digests in them.
pub fn merge_labels(
    first: &VecMap<String, MDigest>,
    second: &VecMap<String, MDigest>,
) -> (out: Option<VecMap<String, MDigest>>)
    ensures
        match out {
            Some(labels) => labels_agree(first@, second@) && labels@ == united(first@, second@),
            None => !labels_agree(first@, second@),
        },
{
    let mut out = first.duplicate();
    let n = second.len();
    let mut i: usize = 0;
    proof {
        second.lemma_walk_ends();
        assert(out@ =~= united(first@, second@.restrict(second.seen(0))));
    }
    while i < n
        invariant
            i <= n,
            n == second.keys().len(),
            second.wf(),
            labels_agree(first@, second@.restrict(second.seen(i as int))),
            out@ == united(first@, second@.restrict(second.seen(i as int))),
        decreases n - i,
    {
        let l = second.key_at(i);
        let d = second.value_at(i);
        proof {
            second.lemma_walk_step(i as int);
            let seen = second@.restrict(second.seen(i as int));
            assert(second@.restrict(second.seen(i + 1)) =~= seen.insert(l@, *d));
        }
        match first.get(l) {
            Some(used) => {
                if !digest_eq(used, d) {
                    assert(first@.dom().contains(l@) && second@.dom().contains(l@) && first@[l@]
                        != second@[l@]);
                    return None;
                }
            },
            None => {
                out.insert(l.clone(), *d);
            },
        }
        proof {
            let seen = second@.restrict(second.seen(i as int));
            assert(out@ =~= united(first@, seen.insert(l@, *d)));
        }
        i += 1;
    }
    proof {
        second.lemma_walk_ends();
        assert(second@.restrict(second@.dom()) =~= second@);
    }
    Some(out)
}

impl MessageRepo {
    /// A repository of the messages that can be attributed to a principal
    /// of the registry, with the labels that stand for them. Its heads and
    /// edges are derived from those messages.
    pub fn retain_admitted(&self, registry: &PrincipalRegistry) -> (mr: MessageRepo)
        ensures
            mr@ == self@.retained(registry_keys(registry@)),
    {
        let messages = copy_admitted(&self.messages, registry);
        let labels = copy_anchored(&self.labels, &messages);
        assemble(messages, labels)
    }

    /// The causal join of two repositories: a new repository with the
    /// messages of both, and the heads and edges that follow from them.
    /// Where both hold a digest, the message of `self` is kept.
    ///
    /// The join fails with `LabelConflict`, and only then, if one label
    /// stands for different digests in the two.
    pub fn join(&self, other: &MessageRepo) -> (r: Result<MessageRepo, RepoError>)
        ensures
            match r {
                Ok(mr) => !self@.label_conflict(other@) && mr@ == self@.joined(other@),
                Err(e) => self@.label_conflict(other@) && e is LabelConflict,
            },
    {
        match merge_labels(&self.labels, &other.labels) {
            None => Err(RepoError::LabelConflict),
            Some(labels) => {
                let mut messages: VecMap<MDigest, Message> = VecMap::new();
                let ghost nothing = message_views(messages@);
                absorb_messages(&mut messages, &self.messages);
                proof {
                    assert(united(nothing, self@.messages) =~= self@.messages);
                }
                absorb_messages(&mut messages, &other.messages);
                Ok(assemble(messages, labels))
            },
        }
    }

    /// reconcile our repository with some other repository
    /// return a new, combined repository
    ///
    /// Messages that cannot be attributed to a principal of the registry are
    /// left out, on either side; what remains is joined. Neither input is
    /// changed, and on a label conflict nothing is returned but the error.
    pub fn reconcile(
        &self,
        other: &MessageRepo,
        registry: &PrincipalRegistry,
    ) -> (r: Result<MessageRepo, RepoError>)
        ensures
            match r {
                Ok(mr) => self@.reconciled(other@, registry_keys(registry@)) == Some(mr@),
                Err(e) => self@.reconciled(other@, registry_keys(registry@)) is None
                    && e is LabelConflict,
            },
    {
        let ours = self.retain_admitted(registry);
        let theirs = other.retain_admitted(registry);
        ours.join(&theirs)
    }
}

} // verus!
