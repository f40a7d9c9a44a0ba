//! Identifiers of the things in the game world.

use vstd::prelude::*;

verus! {

/// A thing in the game world (a worker, a job, a tile, a tree), by its number.
#[derive(Clone, Copy, Debug, PartialEq, Eq, Hash, Structural)]
pub struct EntityId(pub u64);

} // verus!
