//! The control plane's error taxonomy.
use vstd::prelude::*;
use crate::rule_store::RuleStoreError;

verus! {

/// Why a control-plane operation was refused.  Every refusal leaves all
/// state untouched.
#[derive(Clone, Copy, Debug, PartialEq, Eq, Structural, Hash)]
pub enum FirewallError {
    /// A rule's port range holds 0 together with other ports, or is
    /// inverted.
    InvalidPort,
    /// Group id 0 is reserved for "no group" and cannot be assigned.
    InvalidId,
    /// `remove_by_id` was asked for a group id that holds no addresses.
    NotExistingId,
    /// A lookup key is absent from the data-plane map.
    NotFound,
    /// A compiled rule store would not fit its fixed capacity.
    RuleEntry(RuleStoreError),
    /// A logged event carries an unknown version or action.
    LogFormat,
}

} // verus!
