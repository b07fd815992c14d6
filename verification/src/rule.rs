//! User-facing rules: a destination CIDR, an optional source-group id,
//! and an optional port range with its protocol.
use vstd::prelude::*;
use crate::cidr::Cidr;
use crate::rule_store::GENERIC_PROTO;

verus! {

/// Protocol a port range applies to.  `Generic` is a user-facing
/// convenience that unfolds into one TCP and one UDP rule at ingestion.
#[derive(Clone, Copy, Debug, PartialEq, Eq, Structural, Hash)]
pub enum Protocol {
    TCP,
    UDP,
    Generic,
}

impl Protocol {
    /// The IANA protocol number carried in keys and packets; `Generic`
    /// uses a reserved marker byte.
    pub open spec fn spec_byte(&self) -> u8 {
        match self {
            Protocol::TCP => 0x06u8,
            Protocol::UDP => 0x11u8,
            Protocol::Generic => GENERIC_PROTO,
        }
    }

    pub fn byte(&self) -> (r: u8)
        ensures
            r == self.spec_byte(),
    {
        match self {
            Protocol::TCP => 0x06,
            Protocol::UDP => 0x11,
            Protocol::Generic => GENERIC_PROTO,
        }
    }
}

/// A closed port interval under one protocol.
#[derive(Clone, Copy, Debug, PartialEq, Eq, Structural, Hash)]
pub struct PortRange {
    pub start: u16,
    pub end: u16,
    pub proto: Protocol,
}

impl Default for PortRange {
    /// A rule without an explicit range matches any port on both
    /// protocols.
    fn default() -> (r: Self)
        ensures
            r == (PortRange { start: 0u16, end: 0u16, proto: Protocol::Generic }),
    {
        PortRange { start: 0, end: 0, proto: Protocol::Generic }
    }
}

impl PortRange {
    /// A range is acceptable iff it is not inverted and, when it holds
    /// port 0, holds nothing else: `[0,0]` is the universal range.
    pub open spec fn spec_valid(&self) -> bool {
        self.start <= self.end && (self.start == 0 ==> self.end == 0)
    }

    pub fn valid_range(&self) -> (r: bool)
        ensures
            r == self.spec_valid(),
    {
        self.start <= self.end && (self.start != 0 || self.end == 0)
    }
}

/// A firewall rule: destination block, optional source group, optional
/// port range.
#[derive(Clone, Copy, Debug, PartialEq, Eq, Structural, Hash)]
pub struct Rule {
    pub id: Option<u128>,
    pub dest: Cidr,
    pub port_range: Option<PortRange>,
}

impl Rule {
    /// A rule matching every port of every protocol towards `dest`.
    pub fn new(dest: Cidr) -> (r: Rule)
        ensures
            r == (Rule { id: None::<u128>, dest, port_range: None::<PortRange> }),
    {
        Rule { id: None, dest, port_range: None }
    }

    /// Scopes the rule to sources classified under a group id.
    pub fn with_id(self, id: u128) -> (r: Rule)
        ensures
            r == (Rule { id: Some(id), ..self }),
    {
        Rule { id: Some(id), ..self }
    }

    /// Restricts the rule to one port interval under a protocol.
    pub fn with_range(self, start: u16, end: u16, proto: Protocol) -> (r: Rule)
        ensures
            r == (Rule { port_range: Some(PortRange { start, end, proto }), ..self }),
    {
        Rule { port_range: Some(PortRange { start, end, proto }), ..self }
    }

    /// The ports the rule asks for: the explicit range, or the
    /// universal `[0,0]`.
    pub open spec fn spec_ports(&self) -> (u16, u16) {
        match self.port_range {
            Some(pr) => (pr.start, pr.end),
            None => (0u16, 0u16),
        }
    }

    /// The protocol the rule asks for, `Generic` when unspecified.
    pub open spec fn spec_proto(&self) -> Protocol {
        match self.port_range {
            Some(pr) => pr.proto,
            None => Protocol::Generic,
        }
    }

    /// Does the rule speak of this concrete protocol byte after
    /// unfolding `Generic`?
    pub open spec fn spec_has_proto(&self, proto: u8) -> bool {
        match self.spec_proto() {
            Protocol::TCP => proto == 0x06,
            Protocol::UDP => proto == 0x11,
            Protocol::Generic => proto == 0x06 || proto == 0x11,
        }
    }

    /// The group id the rule is keyed under: 0 stands for "no group".
    pub open spec fn spec_gid(&self) -> u128 {
        match self.id {
            Some(g) => g,
            None => 0,
        }
    }

    /// An acceptable rule: a valid destination and, if a range is
    /// given, a valid range.
    pub open spec fn spec_valid_range(&self) -> bool {
        match self.port_range {
            Some(pr) => pr.spec_valid(),
            None => true,
        }
    }
}

} // verus!
