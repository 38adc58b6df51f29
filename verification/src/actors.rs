//! Actors: another name for replicas.

use crate::replica::{create_replicas, is_group, keypairs, Replica, ReplicaId};
use vstd::prelude::*;

pub use crate::replica::create_random_keypair;

verus! {

/// What identifies an actor.
pub type ActorId = ReplicaId;

/// An actor is a replica.
pub type Actor = Replica;

/// create a group of actors
/// they must all be created at once, so they know each other's public keys
pub fn create_actors(count: usize) -> (actors: Vec<Actor>)
    ensures
        actors@.len() == count,
        is_group(actors@, keypairs(actors@)),
{
    create_replicas(count)
}

} // verus!
