//! Hash maps that hash their keys with FarmHash: quicker than the standard
//! hasher, and no defence against keys chosen to collide.

use std::collections::HashMap;
use std::hash::{BuildHasherDefault, Hash, Hasher};
use vstd::prelude::*;

verus! {

/// The FarmHash of a run of bytes, as `farmhash::hash64` computes it. It
/// depends on the bytes alone: the function takes no seed and keeps no state.
pub uninterp spec fn farm_hash64(bytes: Seq<u8>) -> u64;

/// Calls `farmhash::hash64`, which hashes the bytes it is given, all of them,
/// to 64 bits. Nothing is claimed of the value but that equal bytes give an
/// equal hash.
#[verifier::external_body]
fn hash64(bytes: &[u8]) -> (hash: u64)
    ensures
        hash == farm_hash64(bytes@),
{
    farmhash::hash64(bytes)
}

/// A hasher that passes for FarmHash. FarmHash does not stream, so this
/// keeps the hash of the bytes written last and forgets what came before
/// them: good enough for keys that are written in one piece.
pub struct FarmHashLie(u64);

impl View for FarmHashLie {
    type V = u64;

    closed spec fn view(&self) -> u64 {
        self.0
    }
}

impl Default for FarmHashLie {
    /// A hasher that has seen nothing; it finishes with zero.
    #[inline]
    fn default() -> (hasher: FarmHashLie)
        ensures
            hasher@ == 0,
    {
        FarmHashLie(0)
    }
}

impl Hasher for FarmHashLie {
    /// The hash of the bytes written last, or zero where none were.
    #[inline]
    fn finish(&self) -> (hash: u64)
        ensures
            hash == self@,
    {
        self.0
    }

    /// Replaces what the hasher holds by the FarmHash of `bytes`.
    #[inline]
    fn write(&mut self, bytes: &[u8])
        ensures
            final(self)@ == farm_hash64(bytes@),
    {
        self.0 = hash64(bytes);
    }
}

/// The builder of hashers that std knows as `BuildHasherDefault`; this
/// library only names it.
#[verifier::external_type_specification]
#[verifier::external_body]
#[verifier::reject_recursive_types(H)]
pub struct ExBuildHasherDefault<H>(BuildHasherDefault<H>);

/// What builds the hashers of a [`FarmMap`].
pub type Farm = BuildHasherDefault<FarmHashLie>;

/// A hash map whose keys are hashed by [`FarmHashLie`].
pub type FarmMap<X, Y> = HashMap<X, Y, Farm>;

/// An empty [`FarmMap`].
pub fn new_farm<X: Hash + Eq, Y>() -> (map: FarmMap<X, Y>)
    ensures
        map@ == Map::<X, Y>::empty(),
{
    Default::default()
}

} // verus!
