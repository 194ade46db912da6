//! A verified core for ticket-based lotteries.
//!
//! An administrator opens a lottery at a fixed ticket price, participants buy
//! tickets into a prize pool, and the administrator later draws a winner with
//! probability proportional to tickets held.  The registry owns all lottery
//! state; the winner draw is a weighted selection over a secure random value.

pub mod errors;
pub mod laws;
pub mod lottery;
pub mod registry;
pub mod requests;
pub mod selector;
