//! Failures of a route synchronisation exchange.

use vstd::prelude::*;

verus! {

/// Why an exchange with a neighbour was refused.
#[derive(Debug, Clone, Copy, PartialEq, Eq, Structural)]
pub enum Error {
    /// The neighbour sent its own descriptor at a lower version than the one
    /// already held: two nodes use its peer id.
    DuplicatePeerId,
    /// The routing service is gone.
    Stopped,
}

} // verus!
