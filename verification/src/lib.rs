//! A lightweight microVM orchestrator core: validated service configuration,
//! dependency-ordered reconciliation, process-monitor bookkeeping, path
//! normalization, and a content-addressed block store.
//!
//! Everything here is executable logic with verified contracts. The pieces
//! that touch the outside world (databases, terminals, registries, the VMM)
//! live outside this crate and hand plain values in and out.

pub mod codec;
pub mod error;
pub mod oci;
pub mod monitor;
pub mod orchestrator;
pub mod path;
pub mod server;
pub mod state;
pub mod store;
pub mod vm;

use vstd::prelude::*;

verus! {

} // verus!
