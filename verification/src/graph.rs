//! Define a graph with a vertex for each message in M, and a directed edge
//! from each message to each of its predecessors. The graph is acyclic as
//! long as the hash function has no known collision.

use crate::digest::MDigest;
use crate::message::{Message, MessageView};
use crate::repo::message_views;
use crate::vec_map::VecMap;
use vstd::prelude::*;

verus! {

/// A vertex: the digest of a message, and the digests of its predecessors.
pub struct Node {
    pub msg: MDigest,
    pub preds: Vec<MDigest>,
}

/// The graph of the messages of a repository, anchored at a root.
pub struct Graph {
    pub heads: Vec<MDigest>,
    pub root: Node,
    pub repo: VecMap<MDigest, Message>,
}

impl Graph {
    /// The graph holds the message `root` under the digest `d`, as its root
    /// and only head and without predecessors, and holds nothing else.
    pub open spec fn only_root(self, d: MDigest, root: MessageView) -> bool {
        &&& self.root.msg == d
        &&& self.root.preds@ == Seq::<MDigest>::empty()
        &&& self.heads@ == seq![d]
        &&& message_views(self.repo@) == Map::<MDigest, MessageView>::empty().insert(d, root)
    }

    /// The graph of the single message `root`, whose digest is `d`.
    pub fn with_root(d: MDigest, root: Message) -> (g: Self)
        ensures
            g.only_root(d, root@),
    {
        let root_node = Node { msg: d, preds: Vec::new() };
        let mut g = Graph { heads: Vec::new(), root: root_node, repo: VecMap::new() };
        g.heads.push(d);
        g.repo.insert(d, root);
        proof {
            assert(g.heads@ =~= seq![d]);
            assert(message_views(g.repo@) =~= Map::<MDigest, MessageView>::empty().insert(
                d,
                root@,
            ));
        }
        g
    }

    /// This creates an "empty" graph - only root defined
    ///
    /// The root is the synthetic root message, under its digest.
    pub fn new() -> (g: Self)
        ensures
            g.only_root(MessageView::synthetic_root().digest(), MessageView::synthetic_root()),
    {
        let root: Message = Default::default();
        let d = root.digest();
        Graph::with_root(d, root)
    }
}

impl Default for Graph {
    fn default() -> (g: Self)
        ensures
            g.only_root(MessageView::synthetic_root().digest(), MessageView::synthetic_root()),
    {
        Graph::new()
    }
}

} // verus!
