//! The request shapes the transport layer hands to the registry.  They
//! carry plain values only; the transport converts its own wire formats
//! into these before calling in.

use vstd::prelude::*;

verus! {

/// A request to open a new lottery.
pub struct CreateLotteryRequest {
    pub admin: String,
    pub ticket_price: u64,
    pub end_time: Option<String>,
}

/// A request to buy tickets in an existing lottery.
pub struct BuyTicketRequest {
    pub wallet_address: String,
    pub tickets: u32,
}

/// A request to draw the winner, naming the admin who asks.
pub struct PickWinnerRequest {
    pub admin: String,
}

} // verus!
