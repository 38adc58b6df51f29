//! An outline of a repository: each head, and under it, indented, the
//! messages that its edges lead to.

use crate::digest::MDigest;
use crate::repo::{MessageRepo, RepoView};
use vstd::prelude::*;

verus! {

/// The label under which the message with the digest `d` is shown: its own,
/// or a question mark if it has none or is not known.
pub open spec fn label_of(r: RepoView, d: MDigest) -> Seq<char> {
    if r.messages.dom().contains(d) && r.messages[d].label is Some {
        r.messages[d].label->0
    } else {
        "?"@
    }
}

/// The lines for the messages `ds` at the depth `depth`: for each, its
/// label, and then, one level deeper, the lines of its edges. The outline
/// descends `fuel` levels at most.
pub open spec fn outline_of(
    r: RepoView,
    ds: Seq<MDigest>,
    depth: nat,
    fuel: nat,
) -> Seq<(nat, Seq<char>)>
    decreases fuel, ds.len(),
{
    if ds.len() == 0 {
        Seq::empty()
    } else {
        let d = ds.last();
        let below = if fuel > 0 && r.edges.dom().contains(d) {
            outline_of(r, r.edges[d], depth + 1, (fuel - 1) as nat)
        } else {
            Seq::empty()
        };
        outline_of(r, ds.drop_last(), depth, fuel) + seq![(depth, label_of(r, d))] + below
    }
}

/// Lines as mathematical values: the depth and the characters of each.
pub open spec fn line_views(lines: Seq<(usize, String)>) -> Seq<(nat, Seq<char>)> {
    Seq::new(lines.len(), |i: int| (lines[i].0 as nat, lines[i].1@))
}

/// The label under which the message with the digest `d` is shown.
pub fn get_label(mr: &MessageRepo, d: &MDigest) -> (label: String)
    ensures
        label@ == label_of(mr@, *d),
{
    match mr.messages.get(d) {
        Some(msg) => {
            match &msg.label {
                Some(label) => label.clone(),
                None => "?".to_owned(),
            }
        },
        None => "?".to_owned(),
    }
}

/// Appends to `lines` the outline of the messages `ds` at the depth
/// `depth`.
pub fn outline_below(
    mr: &MessageRepo,
    ds: &[MDigest],
    depth: usize,
    fuel: usize,
    lines: &mut Vec<(usize, String)>,
)
    requires
        depth + fuel <= usize::MAX,
    ensures
        line_views(final(lines)@) == line_views(old(lines)@) + outline_of(
            mr@,
            ds@,
            depth as nat,
            fuel as nat,
        ),
    decreases fuel, ds@.len(),
{
    let ghost start = line_views(lines@);
    let mut i: usize = 0;
    assert(ds@.take(0) =~= Seq::<MDigest>::empty());
    assert(line_views(lines@) =~= start + outline_of(mr@, ds@.take(0), depth as nat, fuel as nat));
    while i < ds.len()
        invariant
            i <= ds@.len(),
            depth + fuel <= usize::MAX,
            line_views(lines@) == start + outline_of(
                mr@,
                ds@.take(i as int),
                depth as nat,
                fuel as nat,
            ),
        decreases ds@.len() - i,
    {
        let d = &ds[i];
        let ghost so_far = line_views(lines@);
        lines.push((depth, get_label(mr, d)));
        proof {
            assert(line_views(lines@) =~= so_far + seq![(depth as nat, label_of(mr@, *d))]);
        }
        if fuel > 0 {
            match mr.edges.get(d) {
                Some(preds) => {
                    outline_below(mr, preds.as_slice(), depth + 1, fuel - 1, lines);
                },
                None => {},
            }
        }
        proof {
            let whole = ds@.take(i + 1);
            assert(whole.drop_last() =~= ds@.take(i as int));
            assert(whole.last() == *d);
            let below = if fuel > 0 && mr@.edges.dom().contains(*d) {
                outline_of(mr@, mr@.edges[*d], (depth + 1) as nat, (fuel - 1) as nat)
            } else {
                Seq::empty()
            };
            assert(line_views(lines@) =~= start + (outline_of(
                mr@,
                ds@.take(i as int),
                depth as nat,
                fuel as nat,
            ) + seq![(depth as nat, label_of(mr@, *d))] + below));
        }
        i += 1;
    }
    assert(ds@.take(ds@.len() as int) =~= ds@);
}

impl MessageRepo {
    /// Whether every head has a list of edges.
    pub fn heads_have_edges(&self) -> (b: bool)
        ensures
            b == self@.heads.subset_of(self@.edges.dom()),
    {
        let n = self.heads.len();
        let mut i: usize = 0;
        proof {
            self.heads.lemma_walk_ends();
        }
        while i < n
            invariant
                i <= n,
                n == self.heads.order().len(),
                self.heads.wf(),
                self.heads.seen(i as int).subset_of(self.edges@.dom()),
            decreases n - i,
        {
            let h = self.heads.nth(i);
            proof {
                self.heads.lemma_walk_step(i as int);
            }
            if !self.edges.contains_key(h) {
                return false;
            }
            i += 1;
        }
        proof {
            self.heads.lemma_walk_ends();
        }
        true
    }

    /// The outline of the repository: a line for each head, in canonical
    /// order, at depth 0, each followed by the lines of its edges, and of
    /// their edges in turn, one level deeper each time.
    ///
    /// The outline descends at most as many levels as the repository has
    /// lists of edges. Where the edges lead in no circle, no path is longer
    /// than that, and the outline is complete.
    pub fn outline(&self) -> (lines: Vec<(usize, String)>)
        requires
            self@.heads.subset_of(self@.edges.dom()),
        ensures
            line_views(lines@) == outline_of(
                self@,
                self.heads.order(),
                0,
                self@.edges.dom().len(),
            ),
    {
        let mut lines: Vec<(usize, String)> = Vec::new();
        let fuel = self.edges.len();
        let heads = self.heads.as_slice();
        assert(line_views(lines@) =~= Seq::<(nat, Seq<char>)>::empty());
        outline_below(self, heads, 0, fuel, &mut lines);
        assert(self@.edges.dom() =~= self.edges@.dom());
        lines
    }
}

} // verus!
