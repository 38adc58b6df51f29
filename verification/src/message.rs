//! Messages: signed units of history that name the heads they follow.

use crate::crypto::{
    ed25519_sign, ed25519_signature, ed25519_verifies, ed25519_verify, sha256, sha256_spec,
    Keypair, PublicKey, Signature,
};
use crate::digest::{bytes_eq, MDigest};
use crate::digest_set::{canonical_order, lemma_canonical_order_of_few, DigestSet};
use vstd::prelude::*;

verus! {

/// Why a message was not accepted as authentic.
#[derive(Debug, PartialEq, Eq, Structural)]
pub enum MessageError {
    /// The signature does not verify: the message was altered, the signature
    /// is malformed, or the key is not the signer's.
    InvalidSignature,
}

/// The bytes of the digests of `s`, one digest after the other.
pub open spec fn flatten(s: Seq<MDigest>) -> Seq<u8>
    decreases s.len(),
{
    if s.len() == 0 {
        Seq::empty()
    } else {
        flatten(s.drop_last()) + s.last()@
    }
}

/// What a label is in specifications: its characters.
pub open spec fn label_view(label: Option<String>) -> Option<Seq<char>> {
    match label {
        Some(s) => Some(s@),
        None => None,
    }
}

/// A message as a mathematical value.
pub struct MessageView {
    /// The value that the message carries.
    pub payload: Seq<u8>,
    /// The digests of the messages that it declares as its predecessors.
    pub preds: Set<MDigest>,
    /// The signature over the payload and the predecessors.
    pub sig: Signature,
    /// A tag for lookup. It is neither signed nor hashed.
    pub label: Option<Seq<char>>,
}

impl MessageView {
    /// The bytes that are signed: the payload, then the predecessors'
    /// digests in canonical order.
    pub open spec fn signed_bytes(self) -> Seq<u8> {
        self.payload + flatten(canonical_order(self.preds))
    }

    /// The bytes that are hashed: the signed bytes, then the signature.
    pub open spec fn digest_bytes(self) -> Seq<u8> {
        self.signed_bytes() + self.sig@
    }

    /// The message's digest, its sole identity.
    pub open spec fn digest(self) -> MDigest {
        sha256_spec(self.digest_bytes())
    }

    /// The message declares `d` as a predecessor.
    pub open spec fn is_successor_of(self, d: MDigest) -> bool {
        self.preds.contains(d)
    }

    /// `other` declares this message as a predecessor.
    pub open spec fn is_predecessor_of(self, other: MessageView) -> bool {
        other.is_successor_of(self.digest())
    }

    /// The message declares no predecessor.
    pub open spec fn is_root(self) -> bool {
        self.preds == Set::<MDigest>::empty()
    }

    /// The two messages have the same content: payload, predecessors and
    /// signature. Their labels may differ.
    pub open spec fn same_content(self, other: MessageView) -> bool {
        &&& self.payload == other.payload
        &&& self.preds == other.preds
        &&& self.sig == other.sig
    }

    /// The signature verifies under the key encoded by `public`.
    pub open spec fn verifies_under(self, public: Seq<u8>) -> bool {
        ed25519_verifies(public, self.signed_bytes(), self.sig@)
    }

    /// The synthetic root message: no payload, no predecessor, no label, and
    /// in place of a signature 64 zero bytes.
    pub open spec fn synthetic_root() -> MessageView {
        MessageView {
            payload: Seq::empty(),
            preds: Set::empty(),
            sig: vstd::array::spec_array_fill_for_copy_type::<u8, 64>(0u8),
            label: None,
        }
    }

    /// The message is the synthetic root, whatever its label: it has no
    /// payload and no predecessor, and in place of a signature 64 zero bytes.
    pub open spec fn is_synthetic_root(self) -> bool {
        &&& self.payload == Seq::<u8>::empty()
        &&& self.preds == Set::<MDigest>::empty()
        &&& forall|i: int| 0 <= i < 64 ==> self.sig@[i] == 0
    }
}

/// Message represents a triple (v, hs, sig), with an optional label.
#[derive(Debug)]
pub struct Message {
    /// v is any value
    pub v: Vec<u8>,
    /// hs is the set of digests of the messages that this one follows: the
    /// heads at the time of its creation
    pub hs: DigestSet,
    /// sig is a digital signature over (v, hs) using the sender's private key
    pub sig: Signature,
    /// label is an optional tag that makes it easier to identify the message
    pub label: Option<String>,
}

impl View for Message {
    type V = MessageView;

    open spec fn view(&self) -> MessageView {
        MessageView { payload: self.v@, preds: self.hs@, sig: self.sig, label: label_view(self.label) }
    }
}

/// Appending one digest to a list appends its bytes to the flattened list.
pub proof fn lemma_flatten_push(s: Seq<MDigest>, d: MDigest)
    ensures
        flatten(s.push(d)) == flatten(s) + d@,
{
    assert(s.push(d).drop_last() =~= s);
}

/// Appends the bytes `more` to `data`.
fn append_bytes(data: &mut Vec<u8>, more: &[u8])
    ensures
        final(data)@ == old(data)@ + more@,
{
    let ghost start = data@;
    let mut i: usize = 0;
    assert(data@ =~= start + more@.take(0));
    while i < more.len()
        invariant
            i <= more@.len(),
            data@ == start + more@.take(i as int),
        decreases more@.len() - i,
    {
        data.push(more[i]);
        assert(more@.take(i + 1) =~= more@.take(i as int).push(more@[i as int]));
        assert(data@ =~= start + more@.take(i + 1));
        i += 1;
    }
    assert(more@.take(more@.len() as int) =~= more@);
}

/// The bytes to sign for the payload `v` and the predecessors `hs`: the
/// payload, then each predecessor's digest in canonical order.
pub fn data_to_sign(v: &[u8], hs: &DigestSet) -> (data: Vec<u8>)
    ensures
        data@ == v@ + flatten(canonical_order(hs@)),
{
    let mut data: Vec<u8> = Vec::new();
    append_bytes(&mut data, v);
    let n = hs.len();
    let mut k: usize = 0;
    proof {
        hs.lemma_wf();
        assert(hs.order().take(0) =~= Seq::<MDigest>::empty());
        assert(data@ =~= v@ + flatten(hs.order().take(0)));
    }
    while k < n
        invariant
            k <= n,
            n == hs.order().len(),
            data@ == v@ + flatten(hs.order().take(k as int)),
        decreases n - k,
    {
        let h = hs.nth(k);
        append_bytes(&mut data, h.as_slice());
        proof {
            assert(hs.order().take(k + 1) =~= hs.order().take(k as int).push(*h));
            lemma_flatten_push(hs.order().take(k as int), *h);
            assert(data@ =~= v@ + flatten(hs.order().take(k + 1)));
        }
        k += 1;
    }
    assert(hs.order().take(n as int) =~= hs.order());
    data
}

/// What [`Message::verify`] makes of the signature library's outcome.
pub fn verdict(outcome: Result<(), ed25519_dalek::SignatureError>) -> (r: Result<(), MessageError>)
    ensures
        r is Ok <==> outcome is Ok,
        r is Err ==> r == Err::<(), MessageError>(MessageError::InvalidSignature),
{
    match outcome {
        Ok(_) => Ok(()),
        Err(_) => Err(MessageError::InvalidSignature),
    }
}

impl Message {
    /// create a new message as successor to the local heads
    ///
    /// The heads may come in any order and with repetitions: the message
    /// holds them as a set, and signs them in canonical order.
    pub fn new(
        heads: Vec<MDigest>,
        v: Vec<u8>,
        label: Option<String>,
        keypair: &Keypair,
    ) -> (m: Self)
        ensures
            m@.payload == v@,
            m@.preds == heads@.to_set(),
            m@.label == label_view(label),
            m@.sig == ed25519_signature(keypair.secret.bytes@, m@.signed_bytes()),
            forall|d: MDigest| heads@.contains(d) <==> m@.is_successor_of(d),
    {
        let hs = DigestSet::from_slice(heads.as_slice());
        let data = data_to_sign(v.as_slice(), &hs);
        let sig = ed25519_sign(&keypair.secret, data.as_slice());
        Message { v, hs, sig, label }
    }

    /// self is successor of the message with digest d if self.hs contains d
    pub fn is_successor_of(&self, d: &MDigest) -> (b: bool)
        ensures
            b == self@.is_successor_of(*d),
    {
        self.hs.contains(d)
    }

    /// self is predecessor of other if other names the digest of self among
    /// its predecessors
    pub fn is_predecessor_of(&self, other: &Message) -> (b: bool)
        ensures
            b == self@.is_predecessor_of(other@),
    {
        let d = self.digest();
        other.is_successor_of(&d)
    }

    /// Whether the message declares no predecessor.
    pub fn is_root(&self) -> (b: bool)
        ensures
            b == self@.is_root(),
    {
        self.hs.is_empty()
    }

    /// The bytes that the signature covers.
    pub fn signed_bytes(&self) -> (data: Vec<u8>)
        ensures
            data@ == self@.signed_bytes(),
    {
        data_to_sign(self.v.as_slice(), &self.hs)
    }

    /// The bytes that the digest covers: the signed bytes, then the
    /// signature.
    pub fn digest_bytes(&self) -> (data: Vec<u8>)
        ensures
            data@ == self@.digest_bytes(),
    {
        let mut data = data_to_sign(self.v.as_slice(), &self.hs);
        append_bytes(&mut data, self.sig.as_slice());
        data
    }

    /// compute the digest (cryptographic hash) of this message
    pub fn digest(&self) -> (d: MDigest)
        ensures
            d == self@.digest(),
    {
        let data = self.digest_bytes();
        sha256(data.as_slice())
    }

    /// Checks the signature against the signed bytes, under `public_key`.
    /// Bytes that encode no key verify nothing. Whether the predecessors
    /// exist anywhere is not looked at.
    pub fn verify(&self, public_key: PublicKey) -> (r: Result<(), MessageError>)
        ensures
            r is Ok <==> self@.verifies_under(public_key.bytes@),
            r is Err ==> r == Err::<(), MessageError>(MessageError::InvalidSignature),
    {
        let data = data_to_sign(self.v.as_slice(), &self.hs);
        verdict(ed25519_verify(&public_key, data.as_slice(), &self.sig))
    }

    /// Whether this is the synthetic root: the message that anchors a history
    /// and that nobody signed.
    pub fn is_synthetic_root(&self) -> (b: bool)
        ensures
            b == self@.is_synthetic_root(),
    {
        if self.v.len() != 0 || !self.hs.is_empty() {
            proof {
                if self.v@.len() != 0 {
                    assert(self.v@ != Seq::<u8>::empty());
                }
            }
            return false;
        }
        assert(self.v@ =~= Seq::<u8>::empty());
        let mut j: usize = 0;
        while j < 64
            invariant
                j <= 64,
                forall|i: int| 0 <= i < j ==> self.sig@[i] == 0,
            decreases 64 - j,
        {
            if self.sig[j] != 0 {
                assert(self@.sig@[j as int] != 0);
                return false;
            }
            j += 1;
        }
        true
    }

    /// Whether the two messages have the same content: payload,
    /// predecessors and signature.
    pub fn same_content(&self, other: &Message) -> (same: bool)
        ensures
            same == self@.same_content(other@),
    {
        let sigs = bytes_eq(self.sig.as_slice(), other.sig.as_slice());
        proof {
            if self.sig@ == other.sig@ {
                assert(self.sig =~= other.sig);
            }
        }
        sigs && bytes_eq(self.v.as_slice(), other.v.as_slice()) && self.hs.same_as(&other.hs)
    }

    /// Whether the two messages are the same in every part, the label
    /// included.
    pub fn same_as(&self, other: &Message) -> (same: bool)
        ensures
            same == (self@ == other@),
    {
        let labels = match (&self.label, &other.label) {
            (Some(a), Some(b)) => *a == *b,
            (None, None) => true,
            _ => false,
        };
        labels && self.same_content(other)
    }

    /// A copy of the message.
    pub fn duplicate(&self) -> (m: Self)
        ensures
            m@ == self@,
    {
        let v = self.v.clone();
        let label = match &self.label {
            Some(s) => Some(s.clone()),
            None => None,
        };
        assert(v@ =~= self.v@);
        Message { v, hs: self.hs.duplicate(), sig: self.sig, label }
    }
}

impl Clone for Message {
    fn clone(&self) -> (m: Self)
        ensures
            m@ == self@,
    {
        self.duplicate()
    }
}

impl Default for Message {
    /// The synthetic root.
    fn default() -> (m: Self)
        ensures
            m@ == MessageView::synthetic_root(),
            m@.is_synthetic_root(),
    {
        let m = Message { v: Vec::new(), hs: DigestSet::new(), sig: [0u8; 64], label: None };
        assert(m.v@ =~= Seq::<u8>::empty());
        m
    }
}

/// The synthetic root signs no bytes, and what is hashed for its digest is
/// 64 zero bytes.
pub proof fn lemma_synthetic_root_bytes()
    ensures
        MessageView::synthetic_root().signed_bytes() == Seq::<u8>::empty(),
        MessageView::synthetic_root().digest_bytes() == Seq::new(64, |i: int| 0u8),
        MessageView::synthetic_root().is_synthetic_root(),
        MessageView::synthetic_root().is_root(),
{
    let root = MessageView::synthetic_root();
    lemma_canonical_order_of_few(sha256_spec(Seq::empty()));
    assert(root.signed_bytes() =~= Seq::<u8>::empty());
    assert(root.digest_bytes() =~= Seq::new(64, |i: int| 0u8));
}

/// A message is its own successor exactly when it is its own predecessor:
/// when its digest is among the predecessors it declares. A root is neither.
pub proof fn lemma_self_loop(m: MessageView)
    ensures
        m.is_predecessor_of(m) == m.is_successor_of(m.digest()),
        m.is_root() ==> !m.is_successor_of(m.digest()) && !m.is_predecessor_of(m),
{
}

/// A message that declares the digest of `p` among its predecessors is a
/// successor of `p`, and `p` is a predecessor of it. The converse relations
/// hold only if `p` in turn declares the digest of `m`.
pub proof fn lemma_successor_and_predecessor(p: MessageView, m: MessageView)
    requires
        m.preds.contains(p.digest()),
    ensures
        p.is_predecessor_of(m),
        m.is_successor_of(p.digest()),
        m.is_predecessor_of(p) == p.preds.contains(m.digest()),
        p.is_successor_of(m.digest()) == p.preds.contains(m.digest()),
{
}

/// The signed bytes, the digest and the outcome of verification depend on
/// the payload, the set of predecessors and the signature, and on nothing
/// else: not on the label, nor on the order in which the predecessors were
/// given.
pub proof fn lemma_identity(a: MessageView, b: MessageView)
    requires
        a.same_content(b),
    ensures
        a.signed_bytes() == b.signed_bytes(),
        a.digest() == b.digest(),
        forall|public: Seq<u8>| a.verifies_under(public) == b.verifies_under(public),
{
}

} // verus!
