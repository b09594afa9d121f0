//! Core of a chat-room relay agent: a command-directive parser, a per-channel
//! bounded conversation-context store, and the pure decision logic of the
//! dispatch loop.  Transport, HTTP collaborators and persistence live with the
//! caller; this crate holds the rules and invariants.

pub mod chars;
pub mod dispatch;
pub mod instruction;
pub mod interject;
pub mod message;
pub mod reply;
pub mod store;
pub mod temp;
pub mod wttr;

use vstd::prelude::*;

verus! {

/// Largest temperature the library accepts, in thousandths (2.000).
pub const TEMP_MAX: u32 = 2000;

} // verus!
