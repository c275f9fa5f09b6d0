//! Ways out to the internet. A relay is an exit because the operator says
//! so, and only while its host reports that it can be one.

use vstd::prelude::*;

use crate::config::{NetworkConfig, NetworkView};
use crate::net::{IpAddr, IpNet};
use crate::proto::Role;

verus! {

/// What a designated relay reports of its host.
#[derive(Clone, Copy, PartialEq, Eq, Structural, Debug)]
pub struct ExitReadiness {
    /// The host forwards packets.
    pub ip_forward: bool,
    /// A masquerade rule covers its uplink.
    pub masquerade: bool,
}

impl ExitReadiness {
    /// The host can carry others' traffic to the internet.
    pub open spec fn ready(self) -> bool {
        self.ip_forward && self.masquerade
    }

    pub fn is_ready(&self) -> (r: bool)
        ensures
            r == self.ready(),
    {
        self.ip_forward && self.masquerade
    }
}

/// The routes that an exit is granted: the default of each family.
pub open spec fn default_routes() -> Seq<IpNet> {
    seq![
        IpNet { addr: IpAddr::V4(0), prefix_len: 0 },
        IpNet { addr: IpAddr::V6(0), prefix_len: 0 },
    ]
}

/// The operator made the member an exit.
pub open spec fn designated(cfg: NetworkView, name: Seq<char>) -> bool {
    cfg.member(name) matches Some((m, role)) && role == Role::Relay && m.internet_gateway == Some(
        true,
    )
}

/// The member is an exit that can be used, given what relays reported.
pub open spec fn is_exit(
    cfg: NetworkView,
    reports: Map<Seq<char>, ExitReadiness>,
    name: Seq<char>,
) -> bool {
    designated(cfg, name) && reports.dom().contains(name) && reports[name].ready()
}

/// Did the operator make the member an exit?
pub fn is_designated(cfg: &NetworkConfig, name: &str) -> (r: bool)
    requires
        cfg.wf(),
    ensures
        r == designated(cfg@, name@),
{
    match cfg.member_by_name(name) {
        Some((m, role)) => role == Role::Relay && m.internet_gateway == Some(true),
        None => false,
    }
}

/// How an exit is shown to the operator.
#[derive(Clone, Copy, PartialEq, Eq, Structural, Debug)]
pub enum ExitState {
    /// The member is no exit.
    No,
    /// It is one, and its host was not heard of.
    Unheard,
    /// It is one, and this is what its host can and cannot do.
    Reported(ExitReadiness),
}

/// How a member is shown, `report` being what its host reported last.
pub open spec fn exit_state_of(designated: bool, report: Option<ExitReadiness>) -> ExitState {
    if !designated {
        ExitState::No
    } else {
        match report {
            None => ExitState::Unheard,
            Some(r) => ExitState::Reported(r),
        }
    }
}

pub fn exit_state(designated: bool, report: Option<&ExitReadiness>) -> (r: ExitState)
    ensures
        r == exit_state_of(
            designated,
            match report {
                Some(x) => Some(*x),
                None => None,
            },
        ),
{
    if !designated {
        return ExitState::No;
    }
    match report {
        None => ExitState::Unheard,
        Some(r) => ExitState::Reported(*r),
    }
}

/// What an exit that is not ready is missing.
pub open spec fn missing_of(s: ExitState) -> Seq<Seq<char>> {
    match s {
        ExitState::Reported(r) => {
            let a = if r.ip_forward {
                Seq::empty()
            } else {
                seq!["IP forwarding"@]
            };
            if r.masquerade {
                a
            } else {
                a.push("a masquerade rule for its uplink"@)
            }
        },
        _ => Seq::empty(),
    }
}

impl ExitState {
    /// What an exit that is not ready is missing.
    pub fn missing(&self) -> (r: Vec<&'static str>)
        ensures
            crate::text::texts(r@) == missing_of(*self),
    {
        let mut out: Vec<&'static str> = Vec::new();
        if let ExitState::Reported(x) = self {
            if !x.ip_forward {
                out.push("IP forwarding");
            }
            if !x.masquerade {
                out.push("a masquerade rule for its uplink");
            }
        }
        assert(crate::text::texts(out@) =~= missing_of(*self));
        out
    }
}

/// An exit is ready exactly when it was heard of and nothing is missing.
pub proof fn law_a_ready_exit_misses_nothing(r: ExitReadiness)
    ensures
        r.ready() <==> missing_of(ExitState::Reported(r)).len() == 0,
{
}

/// A member is a way out exactly where the operator made it one and its host
/// forwards and masquerades.
pub proof fn law_a_way_out_is_designated_and_ready(
    cfg: NetworkView,
    reports: Map<Seq<char>, ExitReadiness>,
    name: Seq<char>,
)
    ensures
        is_exit(cfg, reports, name) <==> {
            &&& cfg.member(name) matches Some((m, role)) && role == Role::Relay
                && m.internet_gateway == Some(true)
            &&& reports.dom().contains(name)
            &&& reports[name].ip_forward
            &&& reports[name].masquerade
        },
        exit_state_of(false, None) == ExitState::No,
        exit_state_of(true, None) == ExitState::Unheard,
        reports.dom().contains(name) ==> exit_state_of(false, Some(reports[name])) == ExitState::No
            && exit_state_of(true, Some(reports[name])) == ExitState::Reported(reports[name]),
{
}

} // verus!
