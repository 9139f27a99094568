//! The failure kinds the engine reports. Every failure is returned to the
//! immediate caller; none is fatal.

use vstd::prelude::*;

verus! {

/// What can go wrong while operating the prize pool.
#[derive(Debug, Clone, Copy, PartialEq, Eq, Structural)]
pub enum GashaponError {
    /// A draw was asked of a pool with no remaining slots.
    Exhausted,
    /// An operation referenced a prize identifier the catalog does not hold.
    UnknownPrizeId,
}

} // verus!
