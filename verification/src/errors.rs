//! The error taxonomy shared by all registry operations.

use vstd::prelude::*;

verus! {

/// Why a registry operation was refused.  Every failure is deterministic in
/// the inputs and the current state, and leaves the registry unchanged.
#[derive(Clone, Copy, Debug, PartialEq, Eq, Structural)]
pub enum LotteryError {
    /// Malformed or out-of-range input; nothing was mutated.
    ValidationError,
    /// The referenced lottery does not exist.
    NotFound,
    /// The caller is not the admin recorded at creation.
    Forbidden,
    /// The lottery has already concluded.
    InactiveLottery,
    /// A draw was attempted with no participants.
    NoParticipants,
    /// A draw was attempted with zero tickets sold in total.
    NoTicketsSold,
    /// An arithmetic bound would have been exceeded.
    Overflow,
}

} // verus!
