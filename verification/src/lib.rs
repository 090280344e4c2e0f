//! Client-side core of a mixnet overlay: traffic shaping and reliability.
//!
//! The crate models and verifies the data-plane engine of an anonymous
//! communication client: outbound messages are fragmented into packet-sized
//! chunks, paced onto the wire, and tracked by per-fragment pending
//! acknowledgements with a bounded retransmission budget; inbound fragments
//! are reassembled in any arrival order; all packet-producing components read
//! a shared network-topology snapshot that is swapped wholesale, never edited
//! in place. Beside the engine stand the small plain-value parameter types of
//! the surrounding network: node reward inputs and vesting schedules.

pub mod acks;
pub mod config;
pub mod controller;
pub mod cover;
pub mod fragment;
pub mod keymap;
pub mod reassembly;
pub mod received;
pub mod reply_keys;
pub mod reward;
pub mod sender;
pub mod topology;
pub mod vesting;
