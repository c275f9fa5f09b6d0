//! Whether a relay's advertised address can be dialed.
//!
//! A relay that advertises an address nobody can dial joins happily and then
//! fails to mesh. The coordinator dials the address and records what came
//! of it. That is advice to the operator and refuses nobody: what cannot be
//! dialed from the coordinator may still be dialed by a peer.

use crate::proto::Role;
use crate::text::str_eq;
use vstd::prelude::*;

verus! {

/// What the coordinator learned about an advertised address.
#[derive(Clone, Copy, PartialEq, Eq, Structural, Debug)]
pub enum Reachability {
    /// Never probed.
    Unknown,
    Reachable,
    /// Dialed, and nothing answered.
    Unreachable,
}

impl Reachability {
    pub open spec fn text(self) -> Seq<char> {
        match self {
            Reachability::Unknown => "unknown"@,
            Reachability::Reachable => "reachable"@,
            Reachability::Unreachable => "unreachable"@,
        }
    }

    pub fn as_str(&self) -> (r: &'static str)
        ensures
            r@ == self.text(),
    {
        match self {
            Reachability::Unknown => "unknown",
            Reachability::Reachable => "reachable",
            Reachability::Unreachable => "unreachable",
        }
    }
}

/// How far a dial got.
#[derive(Clone, Copy, PartialEq, Eq, Structural, Debug)]
pub enum DialOutcome {
    /// The host name does not resolve, or resolves to nothing.
    Unresolved,
    /// The coordinator could not prepare a dial of its own.
    NotAttempted,
    /// The address cannot be dialed at all.
    NotDialable,
    /// The handshake completed.
    Connected,
    /// The transport gave up waiting for an answer.
    TransportTimeout,
    /// The handshake was refused or aborted.
    Refused,
    /// The deadline passed first.
    Deadline,
}

/// What a dial says of the address. A refusal still proves that something is
/// listening; only silence means that nothing is.
pub fn verdict(outcome: DialOutcome) -> (r: Reachability)
    ensures
        r == match outcome {
            DialOutcome::NotAttempted => Reachability::Unknown,
            DialOutcome::Connected | DialOutcome::Refused => Reachability::Reachable,
            _ => Reachability::Unreachable,
        },
{
    match outcome {
        DialOutcome::NotAttempted => Reachability::Unknown,
        DialOutcome::Connected => Reachability::Reachable,
        DialOutcome::Refused => Reachability::Reachable,
        DialOutcome::Unresolved => Reachability::Unreachable,
        DialOutcome::NotDialable => Reachability::Unreachable,
        DialOutcome::TransportTimeout => Reachability::Unreachable,
        DialOutcome::Deadline => Reachability::Unreachable,
    }
}

/// Is the address of a member that joins dialed? Only a relay's, only where
/// the operator configured one, and not where the network does without.
pub fn is_probed(policy: &str, role: Role, addr: &Option<String>) -> (r: bool)
    ensures
        r == (role == Role::Relay && addr is Some && policy@ != "off"@),
{
    role == Role::Relay && addr.is_some() && !str_eq(policy, "off")
}

} // verus!
