//! Random payloads, for trying the log out.

use vstd::prelude::*;

verus! {

/// Calls `rand::Rng::gen` on the thread's generator for one `usize`. The
/// number is random: nothing is promised of it.
#[verifier::external_body]
fn random_size() -> (size: usize) {
    rand::Rng::gen(&mut rand::thread_rng())
}

/// Calls `rand::Rng::sample_iter` on the thread's generator, with the
/// standard distribution, and collects its first `size` bytes. The bytes are
/// random: only their number is promised.
#[verifier::external_body]
fn random_bytes(size: usize) -> (bytes: Vec<u8>)
    ensures
        bytes@.len() == size,
{
    rand::Rng::sample_iter(rand::thread_rng(), rand::distributions::Standard).take(size).collect()
}

/// The size of a payload under `max` that the random number `raw` stands
/// for.
pub fn bounded_size(raw: usize, max: usize) -> (size: usize)
    requires
        max > 0,
    ensures
        size == raw % max,
        size < max,
{
    raw % max
}

/// generate a random payload for testing, under max size
pub fn generate(max: usize) -> (payload: Vec<u8>)
    requires
        max > 0,
    ensures
        payload@.len() < max,
{
    let size = bounded_size(random_size(), max);
    random_bytes(size)
}

} // verus!
