//! A small insertion-ordered map, for keys that can only be compared for
//! equality.

use crate::digest::{digest_eq, MDigest};
use crate::seqs::{lemma_take_ends, lemma_take_step};
use vstd::prelude::*;

verus! {

/// A key of a [`VecMap`]: it has an identity, and two keys can be tested for
/// having the same one.
pub trait Key: Sized {
    /// What identifies the key.
    type Id;

    /// The key's identity.
    spec fn id(&self) -> Self::Id;

    /// Whether two keys have the same identity.
    fn same_key(&self, other: &Self) -> (same: bool)
        ensures
            same == (self.id() == other.id()),
    ;

    /// A second key with the same identity.
    fn copy_key(&self) -> (copy: Self)
        ensures
            copy.id() == self.id(),
    ;
}

impl Key for MDigest {
    type Id = MDigest;

    open spec fn id(&self) -> MDigest {
        *self
    }

    fn same_key(&self, other: &Self) -> (same: bool) {
        digest_eq(self, other)
    }

    fn copy_key(&self) -> (copy: Self) {
        *self
    }
}

impl Key for String {
    type Id = Seq<char>;

    open spec fn id(&self) -> Seq<char> {
        self@
    }

    fn same_key(&self, other: &Self) -> (same: bool) {
        *self == *other
    }

    fn copy_key(&self) -> (copy: Self) {
        self.clone()
    }
}

impl Key for usize {
    type Id = usize;

    open spec fn id(&self) -> usize {
        *self
    }

    fn same_key(&self, other: &Self) -> (same: bool) {
        *self == *other
    }

    fn copy_key(&self) -> (copy: Self) {
        *self
    }
}

/// The identities of the keys of a list of entries, in order.
pub open spec fn key_ids<K: Key, V>(entries: Seq<(K, V)>) -> Seq<K::Id> {
    Seq::new(entries.len(), |i: int| entries[i].0.id())
}

/// The map that a list of entries stands for: each key's identity leads to
/// the value of the entry with that key.
pub open spec fn map_of<K: Key, V>(entries: Seq<(K, V)>) -> Map<K::Id, V> {
    Map::new(
        |id: K::Id| key_ids(entries).contains(id),
        |id: K::Id| entries[key_ids(entries).index_of(id)].1,
    )
}

/// In a list without repeated keys, each entry's key leads to its value.
pub proof fn lemma_map_of_entry<K: Key, V>(entries: Seq<(K, V)>, i: int)
    requires
        key_ids(entries).no_duplicates(),
        0 <= i < entries.len(),
    ensures
        map_of(entries).dom().contains(entries[i].0.id()),
        map_of(entries)[entries[i].0.id()] == entries[i].1,
{
    let ids = key_ids(entries);
    assert(ids[i] == entries[i].0.id());
    let j = ids.index_of(ids[i]);
    assert(0 <= j < ids.len() && ids[j] == ids[i]);
}

/// An entry with a new key, put at the end of a list without repeated keys,
/// adds itself to the map and repeats no key.
pub proof fn lemma_map_of_push<K: Key, V>(entries: Seq<(K, V)>, k: K, v: V)
    requires
        key_ids(entries).no_duplicates(),
        !key_ids(entries).contains(k.id()),
    ensures
        key_ids(entries.push((k, v))).no_duplicates(),
        map_of(entries.push((k, v))) == map_of(entries).insert(k.id(), v),
{
    let longer = entries.push((k, v));
    assert(key_ids(longer) =~= key_ids(entries).push(k.id()));
    assert forall|id: K::Id| #[trigger]
        map_of(longer).dom().contains(id) <==> (map_of(entries).dom().contains(id) || id
            == k.id()) by {
        if key_ids(longer).contains(id) {
            let p = choose|p: int| 0 <= p < longer.len() && key_ids(longer)[p] == id;
            if p < entries.len() {
                assert(key_ids(entries)[p] == id);
            }
        }
        if key_ids(entries).contains(id) {
            let p = choose|p: int| 0 <= p < entries.len() && key_ids(entries)[p] == id;
            assert(key_ids(longer)[p] == id);
        }
        if id == k.id() {
            assert(key_ids(longer)[entries.len() as int] == id);
        }
    }
    assert forall|id: K::Id| #[trigger]
        map_of(longer).dom().contains(id) implies map_of(longer)[id] == map_of(entries).insert(
        k.id(),
        v,
    )[id] by {
        let p = key_ids(longer).index_of(id);
        lemma_map_of_entry(longer, p);
        if p < entries.len() {
            lemma_map_of_entry(entries, p);
        }
    }
    assert(map_of(longer).dom() =~= map_of(entries).insert(k.id(), v).dom());
    assert(map_of(longer) =~= map_of(entries).insert(k.id(), v));
}

/// Taking an entry out of a list without repeated keys takes its key out
/// of the map and repeats no key.
pub proof fn lemma_map_of_remove<K: Key, V>(entries: Seq<(K, V)>, i: int)
    requires
        key_ids(entries).no_duplicates(),
        0 <= i < entries.len(),
    ensures
        key_ids(entries.remove(i)).no_duplicates(),
        map_of(entries.remove(i)) == map_of(entries).remove(entries[i].0.id()),
{
    let shorter = entries.remove(i);
    let ids = key_ids(entries);
    assert(key_ids(shorter) =~= ids.remove(i));
    assert forall|id: K::Id| #[trigger]
        map_of(shorter).dom().contains(id) <==> (map_of(entries).dom().contains(id) && id
            != ids[i]) by {
        if key_ids(shorter).contains(id) {
            let p = choose|p: int| 0 <= p < shorter.len() && key_ids(shorter)[p] == id;
            let q = if p < i { p } else { p + 1 };
            assert(ids[q] == id);
        }
        if ids.contains(id) && id != ids[i] {
            let q = choose|q: int| 0 <= q < ids.len() && ids[q] == id;
            let p = if q < i { q } else { q - 1 };
            assert(key_ids(shorter)[p] == id);
        }
    }
    assert forall|id: K::Id| #[trigger]
        map_of(shorter).dom().contains(id) implies map_of(shorter)[id] == map_of(entries)[id] by {
        let p = key_ids(shorter).index_of(id);
        assert(0 <= p < shorter.len() && key_ids(shorter)[p] == id);
        let q = if p < i { p } else { p + 1 };
        lemma_map_of_entry(shorter, p);
        lemma_map_of_entry(entries, q);
    }
    assert(map_of(shorter).dom() =~= map_of(entries).remove(ids[i]).dom());
    assert(map_of(shorter) =~= map_of(entries).remove(ids[i]));
}

/// A map from keys to values that keeps its entries in the order in which
/// they were last put in. No two entries have keys of the same identity.
#[derive(Debug)]
pub struct VecMap<K: Key, V> {
    entries: Vec<(K, V)>,
}

impl<K: Key, V> View for VecMap<K, V> {
    type V = Map<K::Id, V>;

    closed spec fn view(&self) -> Map<K::Id, V> {
        map_of(self.entries@)
    }
}

impl<K: Key, V> VecMap<K, V> {
    /// No key occurs twice. Every map that executable code can hold is
    /// well-formed.
    #[verifier::type_invariant]
    pub closed spec fn wf(self) -> bool {
        key_ids(self.entries@).no_duplicates()
    }

    /// The identities of the keys, in the order of their entries.
    pub closed spec fn keys(self) -> Seq<K::Id> {
        key_ids(self.entries@)
    }

    /// The identities of the keys of the first `i` entries.
    pub open spec fn seen(self, i: int) -> Set<K::Id> {
        self.keys().take(i).to_set()
    }

    /// The keys of the entries are the keys of the map, each once.
    pub proof fn lemma_wf(self)
        requires
            self.wf(),
        ensures
            self.keys().no_duplicates(),
            self.keys().to_set() == self@.dom(),
            self@.dom().finite(),
            self@.dom().len() == self.keys().len(),
    {
        let ks = key_ids(self.entries@);
        assert(ks.to_set() =~= self@.dom());
        vstd::seq_lib::seq_to_set_is_finite(ks);
        ks.unique_seq_to_set();
    }

    /// A walk through the entries has seen no key at its start and every key
    /// at its end.
    pub proof fn lemma_walk_ends(self)
        requires
            self.wf(),
        ensures
            self.seen(0) == Set::<K::Id>::empty(),
            self.seen(self.keys().len() as int) == self@.dom(),
    {
        self.lemma_wf();
        lemma_take_ends(self.keys());
        assert(self.seen(0) =~= Set::<K::Id>::empty());
    }

    /// The step of a walk through the entries from position `i`: the key
    /// there is one of the map, was not seen before, and is seen from now
    /// on.
    pub proof fn lemma_walk_step(self, i: int)
        requires
            self.wf(),
            0 <= i < self.keys().len(),
        ensures
            self@.dom().contains(self.keys()[i]),
            !self.seen(i).contains(self.keys()[i]),
            self.seen(i + 1) == self.seen(i).insert(self.keys()[i]),
    {
        self.lemma_wf();
        lemma_take_step(self.keys(), i);
        assert(self.seen(i + 1) =~= self.seen(i).insert(self.keys()[i]));
        assert(self.keys().to_set().contains(self.keys()[i]));
        if self.keys().take(i).contains(self.keys()[i]) {
            let j = choose|j: int| 0 <= j < i && self.keys().take(i)[j] == self.keys()[i];
            assert(self.keys()[j] == self.keys()[i]);
        }
    }

    /// The empty map.
    pub fn new() -> (m: Self)
        ensures
            m@ == Map::<K::Id, V>::empty(),
            m.wf(),
    {
        let m = VecMap { entries: Vec::new() };
        assert(m@ =~= Map::<K::Id, V>::empty());
        m
    }

    /// The number of entries.
    pub fn len(&self) -> (n: usize)
        ensures
            n == self@.dom().len(),
            n == self.keys().len(),
            self.wf(),
    {
        proof {
            use_type_invariant(self);
            self.lemma_wf();
        }
        self.entries.len()
    }

    /// Whether the map has no entry.
    pub fn is_empty(&self) -> (b: bool)
        ensures
            b == (self@ == Map::<K::Id, V>::empty()),
            b == (self@.dom().len() == 0),
    {
        proof {
            use_type_invariant(self);
            self.lemma_wf();
            if self.entries@.len() == 0 {
                assert(self@ =~= Map::<K::Id, V>::empty());
            } else {
                lemma_map_of_entry(self.entries@, 0);
            }
        }
        self.entries.len() == 0
    }

    /// The position of the entry with the key `k`, if there is one.
    fn position(&self, k: &K) -> (at: Option<usize>)
        ensures
            self.wf(),
            match at {
                Some(i) => i < self.entries@.len() && self.entries@[i as int].0.id() == k.id(),
                None => !self@.dom().contains(k.id()),
            },
    {
        proof {
            use_type_invariant(self);
        }
        let mut i: usize = 0;
        while i < self.entries.len()
            invariant
                i <= self.entries@.len(),
                self.wf(),
                forall|j: int| 0 <= j < i ==> key_ids(self.entries@)[j] != k.id(),
            decreases self.entries@.len() - i,
        {
            if self.entries[i].0.same_key(k) {
                return Some(i);
            }
            i += 1;
        }
        None
    }

    /// Whether some entry has the key `k`.
    pub fn contains_key(&self, k: &K) -> (b: bool)
        ensures
            b == self@.dom().contains(k.id()),
    {
        match self.position(k) {
            Some(i) => {
                proof {
                    lemma_map_of_entry(self.entries@, i as int);
                }
                true
            },
            None => false,
        }
    }

    /// The value under the key `k`.
    pub fn get(&self, k: &K) -> (v: Option<&V>)
        ensures
            match v {
                Some(x) => self@.dom().contains(k.id()) && *x == self@[k.id()],
                None => !self@.dom().contains(k.id()),
            },
    {
        match self.position(k) {
            Some(i) => {
                proof {
                    lemma_map_of_entry(self.entries@, i as int);
                }
                Some(&self.entries[i].1)
            },
            None => None,
        }
    }

    /// Takes out the entry with the key `k`, and returns its value.
    pub fn remove(&mut self, k: &K) -> (v: Option<V>)
        ensures
            final(self)@ == old(self)@.remove(k.id()),
            final(self).wf(),
            match v {
                Some(x) => old(self)@.dom().contains(k.id()) && x == old(self)@[k.id()],
                None => !old(self)@.dom().contains(k.id()),
            },
    {
        match self.position(k) {
            Some(i) => {
                let mut entries: Vec<(K, V)> = Vec::new();
                core::mem::swap(&mut entries, &mut self.entries);
                proof {
                    lemma_map_of_entry(entries@, i as int);
                    lemma_map_of_remove(entries@, i as int);
                }
                let (_, v) = entries.remove(i);
                self.entries = entries;
                Some(v)
            },
            None => {
                assert(self@ =~= self@.remove(k.id()));
                None
            },
        }
    }

    /// Puts `v` under the key `k`, in place of what was there.
    pub fn insert(&mut self, k: K, v: V)
        ensures
            final(self)@ == old(self)@.insert(k.id(), v),
            final(self).wf(),
    {
        let ghost before = self@;
        self.remove(&k);
        proof {
            use_type_invariant(&*self);
            assert(!self@.dom().contains(k.id()));
        }
        let mut entries: Vec<(K, V)> = Vec::new();
        core::mem::swap(&mut entries, &mut self.entries);
        proof {
            lemma_map_of_push(entries@, k, v);
            assert(before.remove(k.id()).insert(k.id(), v) =~= before.insert(k.id(), v));
        }
        entries.push((k, v));
        self.entries = entries;
    }

    /// The key of the entry at position `i`.
    pub fn key_at(&self, i: usize) -> (k: &K)
        requires
            i < self.keys().len(),
        ensures
            k.id() == self.keys()[i as int],
            self@.dom().contains(k.id()),
            self.wf(),
    {
        proof {
            use_type_invariant(self);
            lemma_map_of_entry(self.entries@, i as int);
        }
        &self.entries[i].0
    }

    /// The value of the entry at position `i`.
    pub fn value_at(&self, i: usize) -> (v: &V)
        requires
            i < self.keys().len(),
        ensures
            *v == self@[self.keys()[i as int]],
            self.wf(),
    {
        proof {
            use_type_invariant(self);
            lemma_map_of_entry(self.entries@, i as int);
        }
        &self.entries[i].1
    }
}

impl<K: Key, V: Copy> VecMap<K, V> {
    /// A copy of the map.
    pub fn duplicate(&self) -> (m: Self)
        ensures
            m@ == self@,
            m.wf(),
    {
        let n = self.len();
        let mut out: VecMap<K, V> = VecMap::new();
        let mut i: usize = 0;
        proof {
            self.lemma_walk_ends();
            assert(out@ =~= self@.restrict(self.seen(0)));
        }
        while i < n
            invariant
                i <= n,
                n == self.keys().len(),
                self.wf(),
                out.wf(),
                out@ == self@.restrict(self.seen(i as int)),
            decreases n - i,
        {
            let k = self.key_at(i);
            let v = self.value_at(i);
            out.insert(k.copy_key(), *v);
            proof {
                self.lemma_walk_step(i as int);
                assert(out@ =~= self@.restrict(self.seen(i + 1)));
            }
            i += 1;
        }
        proof {
            self.lemma_walk_ends();
            assert(self@.restrict(self@.dom()) =~= self@);
        }
        out
    }
}

} // verus!
