//! Replicas: the principals that create and sign messages, each with its key
//! pair and the verification keys of all of them.

use crate::crypto::{Keypair, PublicKey, SecretKey};
use crate::vec_map::VecMap;
use vstd::prelude::*;

verus! {

/// What identifies a replica.
pub type ReplicaId = usize;

/// The registry of principals: the verification key of each known replica,
/// under the replica's id.
pub type PrincipalRegistry = VecMap<ReplicaId, PublicKey>;

/// The verification keys that a registry holds, each as its bytes.
pub open spec fn registry_keys(registry: Map<ReplicaId, PublicKey>) -> Set<Seq<u8>> {
    Set::new(
        |k: Seq<u8>|
            exists|id: ReplicaId|
                #![trigger registry[id]]
                registry.dom().contains(id) && registry[id].bytes@ == k,
    )
}

/// A replica: its id, its key pair, and the registry it shares with the
/// other replicas of its group.
pub struct Replica {
    pub id: ReplicaId,
    pub keypair: Keypair,
    pub public_keys: PrincipalRegistry,
}

/// The registry of a group with the key pairs `pairs`: the public key of the
/// first under the id 1, that of the second under the id 2, and so on.
pub open spec fn shared_registry(pairs: Seq<Keypair>) -> Map<ReplicaId, PublicKey> {
    Map::new(|id: ReplicaId| 1 <= id <= pairs.len(), |id: ReplicaId| pairs[id - 1].public)
}

/// The replicas are the group with the key pairs `pairs`: there is one for
/// each pair, in this order, with the ids from 1 up, and every one holds the
/// registry of the group.
pub open spec fn is_group(replicas: Seq<Replica>, pairs: Seq<Keypair>) -> bool {
    &&& replicas.len() == pairs.len()
    &&& forall|i: int|
        #![trigger replicas[i]]
        0 <= i < replicas.len() ==> replicas[i].id == i + 1 && replicas[i].keypair == pairs[i]
            && replicas[i].public_keys@ == shared_registry(pairs)
}

/// The key pairs of the replicas, in order.
pub open spec fn keypairs(replicas: Seq<Replica>) -> Seq<Keypair> {
    Seq::new(replicas.len(), |i: int| replicas[i].keypair)
}

/// create a randomly generated Ed25519 key pair
///
/// Calls `ed25519_dalek::Keypair::generate` on the operating system's
/// random number generator, and hands out the bytes of both halves. The key
/// is random: nothing is promised of it.
#[verifier::external_body]
pub fn create_random_keypair() -> (keypair: Keypair) {
    let mut rand_generator = rand::rngs::OsRng {};
    let pair = ed25519_dalek::Keypair::generate(&mut rand_generator);
    Keypair {
        secret: SecretKey { bytes: pair.secret.to_bytes() },
        public: PublicKey { bytes: pair.public.to_bytes() },
    }
}

/// The group of replicas with the given key pairs.
pub fn group_of(pairs: Vec<Keypair>) -> (replicas: Vec<Replica>)
    ensures
        is_group(replicas@, pairs@),
{
    let n = pairs.len();
    let mut public_keys: PrincipalRegistry = VecMap::new();
    let mut i: usize = 0;
    assert(public_keys@ =~= shared_registry(pairs@.take(0)));
    while i < n
        invariant
            i <= n,
            n == pairs@.len(),
            public_keys@ == shared_registry(pairs@.take(i as int)),
        decreases n - i,
    {
        public_keys.insert(i + 1, pairs[i].public);
        assert(public_keys@ =~= shared_registry(pairs@.take(i + 1)));
        i += 1;
    }
    assert(pairs@.take(n as int) =~= pairs@);
    let mut replicas: Vec<Replica> = Vec::new();
    let mut k: usize = 0;
    while k < n
        invariant
            k <= n,
            n == pairs@.len(),
            public_keys@ == shared_registry(pairs@),
            replicas@.len() == k,
            forall|j: int|
                #![trigger replicas@[j]]
                0 <= j < k ==> replicas@[j].id == j + 1 && replicas@[j].keypair == pairs@[j]
                    && replicas@[j].public_keys@ == shared_registry(pairs@),
        decreases n - k,
    {
        let replica = Replica { id: k + 1, keypair: pairs[k], public_keys: public_keys.duplicate() };
        replicas.push(replica);
        k += 1;
    }
    replicas
}

/// Our system consists of a finite set of replicas, which may vary over time.
/// Any replica may execute transactions.
/// they must all be created at once, so they know each other's public keys
///
/// Each replica gets a key pair of its own, freshly drawn.
pub fn create_replicas(count: usize) -> (replicas: Vec<Replica>)
    ensures
        replicas@.len() == count,
        is_group(replicas@, keypairs(replicas@)),
{
    let mut pairs: Vec<Keypair> = Vec::new();
    let mut i: usize = 0;
    while i < count
        invariant
            i <= count,
            pairs@.len() == i,
        decreases count - i,
    {
        pairs.push(create_random_keypair());
        i += 1;
    }
    let ghost drawn = pairs@;
    let replicas = group_of(pairs);
    assert(keypairs(replicas@) =~= drawn);
    replicas
}

} // verus!
