//! A verified rule-compilation and lookup engine for an L3/L4 packet
//! firewall: a compact per-key store of port ranges, CIDR algebra and
//! composite LPM keys, a rule tracker with CIDR inheritance, a source-IP
//! classifier, and the per-packet decision algorithm.
//!
//! The [`firewall::Firewall`] type ties the pieces together: rules added
//! through it are validated, unfolded, compiled and written into the
//! longest-prefix-match table the per-packet decision reads; source
//! addresses are grouped and mirrored into the exact-match source table.
//! Attaching the compiled tables to a network interface is the embedding
//! program's job.
use vstd::prelude::*;

pub mod action_store;
pub mod cidr;
pub mod classifier;
pub mod config;
pub mod dataplane;
pub mod error;
pub mod firewall;
pub mod lpm;
pub mod resolve;
pub mod rule;
pub mod rule_store;
pub mod tracker;

verus! {

} // verus!
