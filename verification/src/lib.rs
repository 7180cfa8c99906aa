//! Client-side control logic for a desktop sync-status application that
//! drives a background sync daemon over an RPC/signal channel.
//!
//! The crate models the daemon's wire formats (a line-based configuration
//! text and the JSON trees it returns for conflicts and remote folders) and
//! the four stateful controllers built on top of the RPC client: the
//! onboarding wizard, the live conflict store, the hierarchical folder
//! selection model and the debounced settings writer.  All text is handled
//! as raw bytes; the process boundary (the actual bus connection and the
//! event loop) lives outside this crate and exchanges plain values with it.

pub mod bytes;
pub mod conflicts;
pub mod error;
pub mod folder_model;
pub mod json;
pub mod onboarding;
pub mod settings;

use vstd::prelude::*;

verus! {

} // verus!
