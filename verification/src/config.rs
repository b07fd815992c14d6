//! The default-action configuration: one recognised option, read by the
//! data plane on every decision.
use vstd::prelude::*;
use crate::error::FirewallError;
use crate::rule_store::Action;

verus! {

/// The configuration table's key space.
#[derive(Clone, Copy, Debug, PartialEq, Eq, Structural, Hash)]
pub enum ConfigOpt {
    DefaultAction,
}

/// Holds the configured default verdict; unset means drop.
#[derive(Clone, Copy, Debug)]
pub struct ConfigHandler {
    action: Option<Action>,
}

impl ConfigHandler {
    pub closed spec fn spec_set(&self) -> Option<Action> {
        self.action
    }

    /// The verdict for packets that match no rule.
    pub open spec fn spec_default_action(&self) -> Action {
        match self.spec_set() {
            Some(a) => a,
            None => Action::Reject,
        }
    }

    /// A fresh configuration with nothing set.
    pub fn fresh() -> (r: ConfigHandler)
        ensures
            r.spec_set() is None,
            r.spec_default_action() == Action::Reject,
    {
        ConfigHandler { action: None }
    }

    pub fn new() -> (r: Result<ConfigHandler, FirewallError>)
        ensures
            r is Ok,
            r->Ok_0.spec_set() is None,
            r->Ok_0.spec_default_action() == Action::Reject,
    {
        Ok(ConfigHandler { action: None })
    }

    /// Sets the verdict applied when no rule matches.
    pub fn set_default_action(&mut self, action: Action)
        ensures
            final(self).spec_set() == Some(action),
            final(self).spec_default_action() == action,
    {
        self.action = Some(action);
    }

    /// Reads the effective default verdict.
    pub fn default_action(&self) -> (r: Action)
        ensures
            r == self.spec_default_action(),
    {
        match self.action {
            Some(a) => a,
            None => Action::Reject,
        }
    }
}

} // verus!
