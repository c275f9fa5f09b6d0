//! The operator's requests to the coordinator, each to the network that it
//! names.

use vstd::prelude::*;

use crate::accepted::law_accepted_ranges_are_disjoint;
use crate::admin::{
    about, bare_network, disabling, good_name, lemma_pools_ordered, member_creation, member_removal,
    member_update, name_error, secret_rotation, settings_change, valid_name, Change, MemberSpec,
    NetworkSpec, Token,
};
use crate::config::{NetworkConfig, NetworkView};
use crate::coordinator::AppState;
use crate::error::{error_view, ApiError, ErrorCode};
use crate::namemap::{lemma_name_replaced, lemma_named_entry, NameMap};
use crate::net::{all_valid, IpAddr};
use crate::proto::Role;
use crate::registry::{empty_registry, named, Registry};
use crate::secrets::{generate_secret, url_safe};
use crate::state::{first_generation, gen_room, messages, NetState};
use crate::text::{debug_text, quoted, say, texts};
use crate::validate::{network_problem, resolved_view, validate_network};

verus! {

/// Nothing but the networks differs between the two.
pub open spec fn same_but_networks(a: AppState, b: AppState) -> bool {
    b == (AppState { networks: b.networks, ..a })
}

/// Nothing but the network `id` differs between the two.
pub open spec fn same_but(a: AppState, b: AppState, id: Seq<char>) -> bool {
    &&& same_but_networks(a, b)
    &&& b.networks@ == a.networks@.insert(id, b.networks@[id])
}

/// There is no such network.
pub open spec fn no_network<T>(r: Result<T, ApiError>, id: Seq<char>) -> bool {
    r matches Err(e) && e@ == error_view(ErrorCode::NotFound, about("network "@, id, ""@))
}

fn unknown_network(id: &str) -> (r: ApiError)
    ensures
        r@ == error_view(ErrorCode::NotFound, about("network "@, id@, ""@)),
{
    let q = quoted(id);
    let parts = vec!["network ", q.as_str(), ""];
    assert(texts(parts@) =~= seq!["network "@, debug_text(id@), ""@]);
    ApiError::not_found(say(&parts))
}

pub(crate) proof fn lemma_edited(before: NameMap<NetState>, after: NameMap<NetState>, i: int)
    requires
        before.wf(),
        0 <= i < before.entries@.len(),
        after.entries@.len() == before.entries@.len(),
        after.entries@[i].0 == before.entries@[i].0,
        forall|k: int|
            0 <= k < before.entries@.len() && k != i ==> #[trigger] after.entries@[k]
                == before.entries@[k],
    ensures
        after.wf(),
        after@ == before@.insert(before.entries@[i].0@, after.entries@[i].1),
        after@[before.entries@[i].0@] == after.entries@[i].1,
{
    let e = after.entries@[i];
    assert(after.entries@ =~= before.entries@.update(i, e));
    lemma_name_replaced(before.entries@, i, e);
}

/// A secret as the coordinator makes one.
pub open spec fn fresh_secret(s: Seq<char>) -> bool {
    &&& s.len() == 43
    &&& forall|i: int| 0 <= i < s.len() ==> url_safe(#[trigger] s[i])
}

impl AppState {
    /// The network of this name has room for another generation.
    pub open spec fn roomy(self, id: Seq<char>) -> bool {
        self.networks@.dom().contains(id) ==> {
            &&& gen_room(self.networks@[id].directory.revision)
            &&& self.networks@[id].cfg@.everyone().len() < usize::MAX
        }
    }

    /// Create a network.
    pub fn create_network(
        &mut self,
        spec: NetworkSpec,
        max_lanes: u8,
        resolved: &Vec<(String, Vec<IpAddr>)>,
        now_ms: u64,
    ) -> (r: Result<(), ApiError>)
        requires
            old(self).wf(),
            spec.wf(),
        ensures
            final(self).wf(),
            ({
                let id = spec.network_id@;
                let next = spec.over(bare_network(id));
                if !good_name(id) {
                    r matches Err(e) && e@ == name_error() && *final(self) == *old(self)
                } else if old(self).networks@.dom().contains(id) {
                    &&& r matches Err(e) && e@ == error_view(
                        ErrorCode::BadRequest,
                        about("network "@, id, " already exists"@),
                    )
                    &&& *final(self) == *old(self)
                } else {
                    match (network_problem(next, max_lanes, resolved_view(resolved@)), r) {
                        (Some(p), Err(e)) => {
                            &&& e@ == error_view(ErrorCode::BadRequest, p)
                            &&& *final(self) == *old(self)
                        },
                        (None, Ok(_)) => {
                            let ns = final(self).networks@[id];
                            &&& same_but(*old(self), *final(self), id)
                            &&& ns.cfg@ == next
                            &&& ns.registry@ == empty_registry(ns.registry@.network_uuid)
                            &&& ns.registry@.network_uuid.len() == 36
                            &&& ns.idle()
                            &&& ns.directory.revision == first_generation(0, now_ms)
                            &&& ns.directory.hold_down_secs == spec.settings.hold_down_secs
                        },
                        _ => false,
                    }
                }
            }),
    {
        if let Err(e) = valid_name(spec.network_id.as_str()) {
            return Err(e);
        }
        if self.networks.contains_key(spec.network_id.as_str()) {
            let q = quoted(spec.network_id.as_str());
            let parts = vec!["network ", q.as_str(), " already exists"];
            assert(texts(parts@) =~= seq![
                "network "@,
                debug_text(spec.network_id@),
                " already exists"@,
            ]);
            return Err(ApiError::bad_request(say(&parts)));
        }
        let ghost the_spec = spec;
        let NetworkSpec { network_id, cidrs, pools, settings } = spec;
        let key = network_id.clone();
        let cfg = NetworkConfig {
            network_id,
            cidrs,
            pools,
            settings,
            relays: NameMap::new(),
            clients: NameMap::new(),
        };
        proof {
            lemma_pools_ordered(cfg.pools);
            assert(cfg@.relays =~= Seq::empty());
            assert(cfg@.clients =~= Seq::empty());
            assert(cfg@.everyone() =~= Seq::empty());
            assert(cfg@ =~= the_spec.over(bare_network(the_spec.network_id@)));
        }
        if let Err(e) = validate_network(&cfg, max_lanes, resolved) {
            return Err(ApiError::bad_request(e));
        }
        proof {
            law_accepted_ranges_are_disjoint(cfg@, max_lanes, resolved_view(resolved@));
        }
        let registry = Registry::new();
        let ns = NetState::new(cfg, registry, now_ms);
        let ghost added = ns;
        let ghost before = *self;
        self.add_network(key, ns);
        Ok(())
    }

    /// Hold another network, or another state of one.
    pub fn add_network(&mut self, id: String, ns: NetState)
        requires
            old(self).wf(),
            ns.wf(),
        ensures
            final(self).wf(),
            same_but_networks(*old(self), *final(self)),
            final(self).networks@ == old(self).networks@.insert(id@, ns),
    {
        let ghost before = self.networks;
        self.networks.insert(id, ns);
        proof {
            let s = self.networks.entries@;
            assert forall|i: int| 0 <= i < s.len() implies (#[trigger] s[i]).1.wf() by {
                lemma_named_entry(s, i);
                let k = s[i].0@;
                assert(self.networks@.dom().contains(k));
                if k != id@ {
                    assert(before@.dom().contains(k));
                    let j = crate::namemap::lemma_name_key(before.entries@, k);
                }
            }
        }
    }

    /// Replace a network's address space, pools and settings; members are
    /// untouched. Settings that every member holds make everyone join again.
    pub fn update_network(
        &mut self,
        id: &str,
        spec: NetworkSpec,
        max_lanes: u8,
        resolved: &Vec<(String, Vec<IpAddr>)>,
        now: u64,
    ) -> (r: Result<Change, ApiError>)
        requires
            old(self).wf(),
            spec.wf(),
            old(self).roomy(id@),
        ensures
            final(self).wf(),
            match old(self).networks.at(id@) {
                None => no_network(r, id@) && *final(self) == *old(self),
                Some(ns) => {
                    &&& same_but(*old(self), *final(self), id@)
                    &&& settings_change(
                        ns,
                        final(self).networks@[id@],
                        spec,
                        max_lanes,
                        resolved_view(resolved@),
                        now,
                        r,
                    )
                },
            },
    {
        let ghost before = self.networks;
        match self.networks.position(id) {
            None => Err(unknown_network(id)),
            Some(i) => {
                let r = self.networks.entries[i].1.change_settings(spec, max_lanes, resolved, now);
                proof {
                    lemma_edited(before, self.networks, i as int);
                }
                r
            },
        }
    }

    /// Forget a network. Returns whose sessions are closed.
    pub fn delete_network(&mut self, id: &str) -> (r: Result<Vec<String>, ApiError>)
        requires
            old(self).wf(),
        ensures
            final(self).wf(),
            match old(self).networks.at(id@) {
                None => no_network(r, id@) && *final(self) == *old(self),
                Some(ns) => {
                    &&& r matches Ok(closed) && messages(closed@) == crate::admin::session_names(
                        ns.sessions.entries@,
                    )
                    &&& same_but_networks(*old(self), *final(self))
                    &&& final(self).networks@ == old(self).networks@.remove(id@)
                },
            },
    {
        let ghost before = self.networks;
        let closed = match self.networks.get(id) {
            None => {
                return Err(unknown_network(id));
            },
            Some(ns) => crate::control::recipients(ns, &crate::control::Audience::Everyone),
        };
        proof {
            lemma_everyone_hears(before@[id@].sessions.entries@);
        }
        self.networks.remove(id);
        proof {
            let s = self.networks.entries@;
            assert forall|i: int| 0 <= i < s.len() implies (#[trigger] s[i]).1.wf() by {
                lemma_named_entry(s, i);
                let k = s[i].0@;
                assert(before@.dom().contains(k));
                let j = crate::namemap::lemma_name_key(before.entries@, k);
            }
        }
        Ok(closed)
    }

    /// Declare a member. Returns its secret.
    pub fn create_member(
        &mut self,
        id: &str,
        name: &str,
        role: Role,
        spec: &MemberSpec,
        max_lanes: u8,
        resolved: &Vec<(String, Vec<IpAddr>)>,
    ) -> (r: Result<String, ApiError>)
        requires
            old(self).wf(),
            old(self).roomy(id@),
            all_valid(spec.local_cidrs@),
        ensures
            final(self).wf(),
            if !good_name(name@) {
                r matches Err(e) && e@ == name_error() && *final(self) == *old(self)
            } else {
                match old(self).networks.at(id@) {
                    None => no_network(r, id@) && *final(self) == *old(self),
                    Some(ns) => {
                        &&& same_but(*old(self), *final(self), id@)
                        &&& exists|secret: Seq<char>| #[trigger]
                            fresh_secret(secret) && (r matches Ok(s) ==> s@ == secret)
                                && member_creation(
                                ns,
                                final(self).networks@[id@],
                                name@,
                                role,
                                *spec,
                                secret,
                                max_lanes,
                                resolved_view(resolved@),
                                outcome(r),
                            )
                    },
                }
            },
    {
        if let Err(e) = valid_name(name) {
            return Err(e);
        }
        let ghost before = self.networks;
        match self.networks.position(id) {
            None => Err(unknown_network(id)),
            Some(i) => {
                let secret = generate_secret();
                let ghost s = secret@;
                let r = self.networks.entries[i].1.add_member(
                    name,
                    role,
                    spec,
                    secret.clone(),
                    max_lanes,
                    resolved,
                );
                proof {
                    lemma_edited(before, self.networks, i as int);
                    assert(fresh_secret(s));
                }
                match r {
                    Ok(_) => Ok(secret),
                    Err(e) => Err(e),
                }
            },
        }
    }

    /// Change what is configured of a member. If it is connected it is told
    /// to join again, and comes back with the new facts.
    pub fn update_member(
        &mut self,
        id: &str,
        name: &str,
        spec: &MemberSpec,
        max_lanes: u8,
        resolved: &Vec<(String, Vec<IpAddr>)>,
        now: u64,
    ) -> (r: Result<Change, ApiError>)
        requires
            old(self).wf(),
            old(self).roomy(id@),
            all_valid(spec.local_cidrs@),
        ensures
            final(self).wf(),
            match old(self).networks.at(id@) {
                None => no_network(r, id@) && *final(self) == *old(self),
                Some(ns) => {
                    &&& same_but(*old(self), *final(self), id@)
                    &&& member_update(
                        ns,
                        final(self).networks@[id@],
                        name@,
                        *spec,
                        max_lanes,
                        resolved_view(resolved@),
                        now,
                        r,
                    )
                },
            },
    {
        let ghost before = self.networks;
        match self.networks.position(id) {
            None => Err(unknown_network(id)),
            Some(i) => {
                let r = self.networks.entries[i].1.change_member(
                    name,
                    spec,
                    max_lanes,
                    resolved,
                    now,
                );
                proof {
                    lemma_edited(before, self.networks, i as int);
                }
                r
            },
        }
    }

    /// Give a member another secret; the old one stops working now. Returns
    /// the secret.
    pub fn rotate_member(&mut self, id: &str, name: &str, now: u64) -> (r: Result<
        (String, Change),
        ApiError,
    >)
        requires
            old(self).wf(),
            old(self).roomy(id@),
            old(self).networks.at(id@) matches Some(ns) ==> (named(ns.registry@.members, name@)
                matches Some(rec) ==> rec.login_gen < u64::MAX),
        ensures
            final(self).wf(),
            match old(self).networks.at(id@) {
                None => no_network(r, id@) && *final(self) == *old(self),
                Some(ns) => {
                    &&& same_but(*old(self), *final(self), id@)
                    &&& exists|secret: Seq<char>| #[trigger]
                        fresh_secret(secret) && (r matches Ok((s, _)) ==> s@ == secret)
                            && secret_rotation(
                            ns,
                            final(self).networks@[id@],
                            name@,
                            secret,
                            now,
                            change_part(r),
                        )
                },
            },
    {
        let ghost before = self.networks;
        match self.networks.position(id) {
            None => Err(unknown_network(id)),
            Some(i) => {
                let secret = generate_secret();
                let ghost s = secret@;
                let r = self.networks.entries[i].1.change_secret(name, secret.clone(), now);
                proof {
                    lemma_edited(before, self.networks, i as int);
                    assert(fresh_secret(s));
                }
                match r {
                    Ok(c) => Ok((secret, c)),
                    Err(e) => Err(e),
                }
            },
        }
    }

    /// Forget a member: configuration, record, address, routes.
    pub fn delete_member(&mut self, id: &str, name: &str, now: u64) -> (r: Result<
        Change,
        ApiError,
    >)
        requires
            old(self).wf(),
            old(self).roomy(id@),
        ensures
            final(self).wf(),
            match old(self).networks.at(id@) {
                None => no_network(r, id@) && *final(self) == *old(self),
                Some(ns) => {
                    &&& same_but(*old(self), *final(self), id@)
                    &&& member_removal(ns, final(self).networks@[id@], name@, now, r)
                },
            },
    {
        let ghost before = self.networks;
        match self.networks.position(id) {
            None => Err(unknown_network(id)),
            Some(i) => {
                let r = self.networks.entries[i].1.forget_member(name, now);
                proof {
                    lemma_edited(before, self.networks, i as int);
                }
                r
            },
        }
    }

    /// Disable or enable a member.
    pub fn set_disabled(&mut self, id: &str, name: &str, disabled: bool, now: u64) -> (r: Result<
        Change,
        ApiError,
    >)
        requires
            old(self).wf(),
            old(self).roomy(id@),
        ensures
            final(self).wf(),
            match old(self).networks.at(id@) {
                None => no_network(r, id@) && *final(self) == *old(self),
                Some(ns) => {
                    &&& same_but(*old(self), *final(self), id@)
                    &&& disabling(ns, final(self).networks@[id@], name@, disabled, now, r)
                },
            },
    {
        let ghost before = self.networks;
        match self.networks.position(id) {
            None => Err(unknown_network(id)),
            Some(i) => {
                let r = self.networks.entries[i].1.set_member_disabled(name, disabled, now);
                proof {
                    lemma_edited(before, self.networks, i as int);
                }
                r
            },
        }
    }

    /// A member's token, for an operator to copy.
    pub fn member_token(&self, id: &str, name: &str, endpoint: &str) -> (r: Result<
        (Token, Role),
        ApiError,
    >)
        requires
            self.wf(),
        ensures
            match self.networks.at(id@) {
                None => no_network(r, id@),
                Some(ns) => match ns.cfg@.member(name@) {
                    None => r matches Err(e) && e@ == error_view(
                        ErrorCode::NotFound,
                        about("member "@, name@, ""@),
                    ),
                    Some((m, role)) => match m.secret {
                        None => r matches Err(e) && e@ == error_view(
                            ErrorCode::NotFound,
                            about("member "@, name@, " has no secret; rotate to mint one"@),
                        ),
                        Some(s) => r matches Ok((t, q)) && q == role && t.coordinator@ == endpoint@
                            && t.secret@ == s,
                    },
                },
            },
    {
        match self.networks.position(id) {
            None => Err(unknown_network(id)),
            Some(i) => self.networks.entries[i].1.token_of(name, endpoint),
        }
    }

    /// All configuration, in the order of the networks' names.
    pub fn export(&self) -> (r: Vec<NetworkConfig>)
        requires
            self.wf(),
        ensures
            config_views(r@) == self.configs(),
            forall|i: int| 0 <= i < r@.len() ==> (#[trigger] r@[i]).wf(),
    {
        let ghost s = self.networks.entries@;
        let mut out: Vec<NetworkConfig> = Vec::new();
        let mut i: usize = 0;
        while i < self.networks.entries.len()
            invariant
                i <= s.len(),
                s == self.networks.entries@,
                self.wf(),
                out@.len() == i,
                forall|k: int|
                    0 <= k < i ==> (#[trigger] out@[k])@ == s[k].1.cfg@ && out@[k].wf(),
            decreases s.len() - i,
        {
            out.push(self.networks.entries[i].1.cfg.copy());
            i = i + 1;
        }
        assert(config_views(out@) =~= self.configs());
        out
    }

    /// The configurations of all networks, in the order of their names.
    pub open spec fn configs(self) -> Seq<NetworkView> {
        self.networks.entries@.map_values(|e: (String, NetState)| e.1.cfg@)
    }
}

/// The content of a list of configurations.
pub open spec fn config_views(s: Seq<NetworkConfig>) -> Seq<NetworkView> {
    s.map_values(|c: NetworkConfig| c@)
}

/// Whether a request succeeded, without what it returned.
pub open spec fn outcome(r: Result<String, ApiError>) -> Result<(), ApiError> {
    match r {
        Ok(_) => Ok(()),
        Err(e) => Err(e),
    }
}

/// The change that a request made.
pub open spec fn change_part(r: Result<(String, Change), ApiError>) -> Result<Change, ApiError> {
    match r {
        Ok((_, c)) => Ok(c),
        Err(e) => Err(e),
    }
}

proof fn lemma_everyone_hears(s: Seq<(String, crate::state::SessionInfo)>)
    ensures
        crate::control::audience_of(s, crate::control::Audience::Everyone)
            == crate::admin::session_names(s),
    decreases s.len(),
{
    if s.len() == 0 {
        assert(crate::admin::session_names(s) =~= Seq::empty());
    } else {
        lemma_everyone_hears(s.drop_last());
        assert(crate::admin::session_names(s) =~= crate::admin::session_names(s.drop_last()).push(
            s.last().0@,
        ));
    }
}

} // verus!
