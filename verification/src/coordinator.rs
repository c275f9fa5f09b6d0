//! The coordinator: its networks, its keys, and who may join how often.

use vstd::prelude::*;

use crate::admin::republished;
use crate::auth::Sessions;
use crate::config::{CoordConfig, MemberView};
use crate::error::{error_view, ApiError, ErrorCode};
use crate::join::{
    answers, join_member, join_plan, join_room, keys_problem, reclaim_view, replaced_session,
    valid_fingerprint, valid_pubkey, vouches, JoinRequest, Joined,
};
use crate::namemap::NameMap;
use crate::proto::Role;
use crate::secrets::constant_time_eq;
use crate::signer::Keyring;
use crate::state::NetState;
use crate::text::{opt_text, str_eq};

verus! {

/// How often a key was used from an address, in which minute.
#[derive(Debug)]
pub struct RateEntry {
    pub key: String,
    pub ip: String,
    pub window: u64,
    pub count: u32,
}

/// The coordinator's state.
#[derive(Debug)]
pub struct AppState {
    pub coord: CoordConfig,
    pub admin_token: Option<String>,
    pub networks: NameMap<NetState>,
    pub keyring: Keyring,
    pub join_rate: Vec<RateEntry>,
    pub auth: Sessions,
    /// The control port that members are told to dial.
    pub control_port: u16,
}

/// What is counted for a key and an address.
pub open spec fn rate_of(s: Seq<RateEntry>, key: Seq<char>, ip: Seq<char>) -> Option<(u64, u32)>
    decreases s.len(),
{
    if s.len() == 0 {
        None
    } else if s[0].key@ == key && s[0].ip@ == ip {
        Some((s[0].window, s[0].count))
    } else {
        rate_of(s.drop_first(), key, ip)
    }
}

/// How often a key was used from an address in this minute.
pub open spec fn uses_now(s: Seq<RateEntry>, key: Seq<char>, ip: Seq<char>, now: u64) -> u32 {
    match rate_of(s, key, ip) {
        Some((w, n)) if w == now / 60 => n,
        _ => 0,
    }
}

proof fn lemma_rate_skip(s: Seq<RateEntry>, key: Seq<char>, ip: Seq<char>, i: int)
    requires
        0 <= i <= s.len(),
        forall|k: int| 0 <= k < i ==> !((#[trigger] s[k]).key@ == key && s[k].ip@ == ip),
    ensures
        rate_of(s, key, ip) == rate_of(s.skip(i), key, ip),
    decreases i,
{
    if i == 0 {
        assert(s.skip(0) =~= s);
    } else {
        lemma_rate_skip(s.drop_first(), key, ip, i - 1);
        assert(s.drop_first().skip(i - 1) =~= s.skip(i));
    }
}

/// Setting one entry leaves what is counted for others alone.
proof fn lemma_rate_update(
    s: Seq<RateEntry>,
    t: Seq<RateEntry>,
    i: int,
    key: Seq<char>,
    ip: Seq<char>,
)
    requires
        0 <= i < s.len(),
        t.len() == s.len(),
        forall|k: int| 0 <= k < s.len() && k != i ==> #[trigger] t[k] == s[k],
        t[i].key@ == s[i].key@,
        t[i].ip@ == s[i].ip@,
        !(s[i].key@ == key && s[i].ip@ == ip),
    ensures
        rate_of(t, key, ip) == rate_of(s, key, ip),
    decreases s.len(),
{
    if i == 0 {
        assert(t.drop_first() =~= s.drop_first());
    } else {
        assert(t[0] == s[0]);
        lemma_rate_update(s.drop_first(), t.drop_first(), i - 1, key, ip);
    }
}

proof fn lemma_rate_push(s: Seq<RateEntry>, e: RateEntry, key: Seq<char>, ip: Seq<char>)
    ensures
        rate_of(s.push(e), key, ip) == match rate_of(s, key, ip) {
            Some(x) => Some(x),
            None => if e.key@ == key && e.ip@ == ip {
                Some((e.window, e.count))
            } else {
                None
            },
        },
    decreases s.len(),
{
    reveal_with_fuel(rate_of, 2);
    if s.len() == 0 {
        assert(s.push(e).drop_first() =~= Seq::empty());
    } else {
        lemma_rate_push(s.drop_first(), e, key, ip);
        assert(s.push(e).drop_first() =~= s.drop_first().push(e));
    }
}

/// Count a use of `key` from `ip` in this minute, and refuse it when there
/// were more than `limit`.
pub fn check_rate(rates: &mut Vec<RateEntry>, limit: u32, key: &str, ip: &str, now: u64) -> (r:
    Result<(), ApiError>)
    ensures
        ({
            let before = uses_now(old(rates)@, key@, ip@, now);
            &&& uses_now(final(rates)@, key@, ip@, now) == if before == u32::MAX {
                before as int
            } else {
                before + 1
            }
            &&& r is Ok <==> uses_now(final(rates)@, key@, ip@, now) <= limit
            &&& r matches Err(e) ==> e@ == error_view(ErrorCode::RateLimited, "slow down"@)
        }),
        forall|k: Seq<char>, a: Seq<char>|
            !(k == key@ && a == ip@) ==> #[trigger] rate_of(final(rates)@, k, a) == rate_of(
                old(rates)@,
                k,
                a,
            ),
{
    let window = now / 60;
    let ghost s = rates@;
    let mut i: usize = 0;
    while i < rates.len() && !(str_eq(rates[i].key.as_str(), key) && str_eq(
        rates[i].ip.as_str(),
        ip,
    ))
        invariant
            i <= rates@.len(),
            rates@ == s,
            forall|k: int| 0 <= k < i ==> !((#[trigger] s[k]).key@ == key@ && s[k].ip@ == ip@),
        decreases rates.len() - i,
    {
        i = i + 1;
    }
    proof {
        lemma_rate_skip(s, key@, ip@, i as int);
    }
    let count: u32 = if i < rates.len() {
        let before: u32 = if rates[i].window == window {
            rates[i].count
        } else {
            0
        };
        let n = before.saturating_add(1);
        rates[i].window = window;
        rates[i].count = n;
        proof {
            let t = rates@;
            assert forall|k: Seq<char>, a: Seq<char>| !(k == key@ && a == ip@) implies #[trigger]
                rate_of(t, k, a) == rate_of(s, k, a) by {
                lemma_rate_update(s, t, i as int, k, a);
            }
            assert forall|k: int| 0 <= k < i implies !((#[trigger] t[k]).key@ == key@ && t[k].ip@
                == ip@) by {
                assert(t[k] == s[k]);
            }
            lemma_rate_skip(t, key@, ip@, i as int);
        }
        n
    } else {
        assert(s.skip(i as int) =~= Seq::empty());
        let e = RateEntry { key: key.to_owned(), ip: ip.to_owned(), window, count: 1 };
        proof {
            assert forall|k: Seq<char>, a: Seq<char>| #[trigger]
                rate_of(s.push(e), k, a) == match rate_of(s, k, a) {
                    Some(x) => Some(x),
                    None => if e.key@ == k && e.ip@ == a {
                        Some((e.window, e.count))
                    } else {
                        None
                    },
                } by {
                lemma_rate_push(s, e, k, a);
            }
        }
        rates.push(e);
        1
    };
    if count > limit {
        return Err(ApiError::rate_limited());
    }
    Ok(())
}

/// The position of the first member that has this secret.
pub open spec fn secret_index(all: Seq<(Seq<char>, MemberView, Role)>, secret: Seq<char>) -> Option<
    int,
>
    decreases all.len(),
{
    if all.len() == 0 {
        None
    } else {
        match secret_index(all.drop_last(), secret) {
            Some(i) => Some(i),
            None => if all.last().1.secret == Some(secret) {
                Some(all.len() - 1)
            } else {
                None
            },
        }
    }
}

/// The first network, in the order of their names, with a member that has
/// this secret, and the member's name. The empty secret is nobody's.
pub open spec fn secret_holder(nets: Seq<(String, NetState)>, secret: Seq<char>) -> Option<
    (int, Seq<char>),
>
    decreases nets.len(),
{
    if nets.len() == 0 || secret.len() == 0 {
        None
    } else {
        match secret_holder(nets.drop_last(), secret) {
            Some(h) => Some(h),
            None => {
                let all = nets.last().1.cfg@.everyone();
                match secret_index(all, secret) {
                    Some(k) => Some((nets.len() - 1, all[k].0)),
                    None => None,
                }
            },
        }
    }
}

/// The position that is found has the secret, and none is found only where
/// nobody has it.
pub proof fn lemma_secret_index(all: Seq<(Seq<char>, MemberView, Role)>, secret: Seq<char>)
    ensures
        match secret_index(all, secret) {
            Some(k) => 0 <= k < all.len() && all[k].1.secret == Some(secret),
            None => forall|i: int|
                0 <= i < all.len() ==> (#[trigger] all[i]).1.secret != Some(secret),
        },
    decreases all.len(),
{
    if all.len() > 0 {
        let d = all.drop_last();
        lemma_secret_index(d, secret);
        assert forall|i: int| 0 <= i < d.len() implies #[trigger] all[i] == d[i] by {}
    }
}

/// Who has this secret, in one network.
fn find_in_network(ns: &NetState, secret: &str) -> (r: Option<String>)
    requires
        ns.wf(),
    ensures
        match r {
            Some(name) => secret_index(ns.cfg@.everyone(), secret@) matches Some(k) && ns.cfg@.everyone()[k].0
                == name@ && ns.cfg@.member(name@) is Some,
            None => secret_index(ns.cfg@.everyone(), secret@) is None,
        },
{
    let ghost all = ns.cfg@.everyone();
    assert(ns.cfg@.clients.len() == ns.cfg.clients.entries@.len());
    assert(ns.cfg@.relays.len() == ns.cfg.relays.entries@.len());
    let total = ns.cfg.clients.entries.len() + ns.cfg.relays.entries.len();
    let mut found: Option<String> = None;
    let mut i: usize = 0;
    while i < total
        invariant
            i <= total,
            total == all.len(),
            all == ns.cfg@.everyone(),
            ns.wf(),
            match found {
                Some(name) => secret_index(all.take(i as int), secret@) matches Some(k) && 0 <= k
                    < i && all[k].0 == name@ && ns.cfg@.member(name@) is Some,
                None => secret_index(all.take(i as int), secret@) is None,
            },
        decreases total - i,
    {
        let (name, m, role) = crate::validate::nth_member(&ns.cfg, i);
        assert(all.take(i + 1).drop_last() =~= all.take(i as int));
        assert(all.take(i + 1).last() == all[i as int]);
        if found.is_none() {
            if let Some(s) = &m.secret {
                if constant_time_eq(s.as_str(), secret) {
                    proof {
                        lemma_everyone_is_a_member(ns.cfg@, i as int);
                    }
                    found = Some(name.to_owned());
                }
            }
        }
        i = i + 1;
    }
    assert(all.take(i as int) =~= all);
    found
}

/// Everyone that a configuration lists can be looked up by name.
pub proof fn lemma_everyone_is_a_member(n: crate::config::NetworkView, i: int)
    requires
        n.wf(),
        0 <= i < n.everyone().len(),
    ensures
        n.member(n.everyone()[i].0) is Some,
{
    let c = n.clients.len();
    if i < c {
        assert(n.everyone()[i].0 == n.clients[i].0);
        crate::config::lemma_ordered_assoc(n.clients, i);
    } else {
        assert(n.everyone()[i].0 == n.relays[i - c].0);
        crate::config::lemma_ordered_assoc(n.relays, i - c);
    }
}

/// What a request to join comes to. It is counted; then the rate limit, the
/// secret, the keys and the plan decide, in this order. A refusal leaves the
/// networks as they are.
pub open spec fn joins(
    before: AppState,
    after: AppState,
    req: JoinRequest,
    peer_ip: Seq<char>,
    allow_reclaim: bool,
    now: u64,
    r: Result<Joined, ApiError>,
) -> bool {
    &&& after.keyring == before.keyring
    &&& after.auth == before.auth
    &&& after.coord == before.coord
    &&& after.admin_token == before.admin_token
    &&& after.control_port == before.control_port
    &&& after.networks.entries@.len() == before.networks.entries@.len()
    &&& uses_now(after.join_rate@, req.secret@, peer_ip, now) == ({
        let used = uses_now(before.join_rate@, req.secret@, peer_ip, now);
        if used == u32::MAX {
            used as int
        } else {
            used + 1
        }
    })
    &&& forall|k: Seq<char>, a: Seq<char>|
        !(k == req.secret@ && a == peer_ip) ==> #[trigger] rate_of(
            after.join_rate@,
            k,
            a,
        ) == rate_of(before.join_rate@, k, a)
    &&& ({
        let held = secret_holder(before.networks.entries@, req.secret@);
        let limited = uses_now(after.join_rate@, req.secret@, peer_ip, now)
            > before.coord.limits.join_rate_per_min;
        let a = before.networks.entries@;
        let b = after.networks.entries@;
        if limited {
            &&& r matches Err(e) && e@ == error_view(ErrorCode::RateLimited, "slow down"@)
            &&& b == a
        } else {
            match held {
                None => {
                    &&& r matches Err(e) && e@ == error_view(
                        ErrorCode::BadCredentials,
                        "unknown node id or wrong secret"@,
                    )
                    &&& b == a
                },
                Some((i, name)) => match keys_problem(req.pubkey@, req.cert_fingerprint@) {
                    Some(p) => r matches Err(e) && e@ == p && b == a,
                    None => {
                        &&& forall|k: int|
                            0 <= k < a.len() && k != i ==> #[trigger] b[k] == a[k]
                        &&& b[i].0 == a[i].0
                        &&& b[i].1 == (NetState {
                            registry: b[i].1.registry,
                            directory: b[i].1.directory,
                            ..a[i].1
                        })
                        &&& match (
                            r,
                            join_plan(
                                a[i].1.cfg@,
                                a[i].1.registry@,
                                reclaim_view(a[i].1, allow_reclaim),
                                name,
                                req.pubkey@,
                                req.cert_fingerprint@,
                                peer_ip,
                                now,
                            ),
                        ) {
                            (Ok(j), Ok(p)) => {
                                &&& answers(
                                    j.response,
                                    a[i].1.cfg@,
                                    p,
                                    name,
                                    peer_ip,
                                )
                                &&& vouches(
                                    j.claims,
                                    a[i].1.cfg@,
                                    p,
                                    name,
                                    req.pubkey@,
                                    req.cert_fingerprint@,
                                    now,
                                )
                                &&& opt_text(j.closed) == replaced_session(
                                    a[i].1,
                                    name,
                                    req.pubkey@,
                                    req.cert_fingerprint@,
                                )
                                &&& j.response.control_port == before.control_port
                                &&& before.keyring.told(
                                    j.response.coordinator_signing_keys@,
                                )
                                &&& republished(
                                    p.registry,
                                    a[i].1.directory,
                                    b[i].1,
                                    now,
                                    j.delta,
                                )
                            },
                            (Err(e), Err(p)) => e@ == p && b[i].1.registry@
                                == a[i].1.registry@ && b[i].1.directory
                                == a[i].1.directory,
                            _ => false,
                        }
                    },
                },
            }
        }
    })
}

impl AppState {
    /// Every part is well formed.
    pub open spec fn wf(self) -> bool {
        &&& self.networks.wf()
        &&& forall|i: int|
            0 <= i < self.networks.entries@.len() ==> (#[trigger] self.networks.entries@[i]).1.wf()
        &&& self.keyring.wf()
        &&& self.auth.wf()
    }

    /// Who has this secret: the position of the network, and the name.
    fn find_secret(&self, secret: &str) -> (r: Option<(usize, String)>)
        requires
            self.wf(),
        ensures
            match r {
                Some((i, name)) => i < self.networks.entries@.len() && secret_holder(
                    self.networks.entries@,
                    secret@,
                ) == Some((i as int, name@)) && self.networks.entries@[i as int].1.cfg@.member(
                    name@,
                ) is Some,
                None => secret_holder(self.networks.entries@, secret@) is None,
            },
    {
        let ghost s = self.networks.entries@;
        if secret.is_empty() {
            return None;
        }
        let mut found: Option<(usize, String)> = None;
        let mut i: usize = 0;
        while i < self.networks.entries.len()
            invariant
                i <= s.len(),
                s == self.networks.entries@,
                self.wf(),
                secret@.len() > 0,
                match found {
                    Some((k, name)) => k < i && secret_holder(s.take(i as int), secret@) == Some(
                        (k as int, name@),
                    ) && s[k as int].1.cfg@.member(name@) is Some,
                    None => secret_holder(s.take(i as int), secret@) is None,
                },
            decreases s.len() - i,
        {
            assert(s.take(i + 1).drop_last() =~= s.take(i as int));
            assert(s.take(i + 1).last() == s[i as int]);
            if found.is_none() {
                if let Some(name) = find_in_network(&self.networks.entries[i].1, secret) {
                    found = Some((i, name));
                }
            }
            i = i + 1;
        }
        assert(s.take(i as int) =~= s);
        found
    }

    /// The whole join transaction: the rate limit, the secret, the keys, and
    /// the join itself. The caller commits the registry of the network before
    /// it signs the credential and answers.
    pub fn join(&mut self, req: &JoinRequest, peer_ip: &str, allow_reclaim: bool, now: u64) -> (r:
        Result<Joined, ApiError>)
        requires
            old(self).wf(),
            secret_holder(old(self).networks.entries@, req.secret@) matches Some((i, name))
                ==> join_room(old(self).networks.entries@[i].1, name, now),
        ensures
            final(self).wf(),
            joins(*old(self), *final(self), *req, peer_ip@, allow_reclaim, now, r),
    {
        let limit = self.coord.limits.join_rate_per_min;
        if let Err(e) = check_rate(
            &mut self.join_rate,
            limit,
            req.secret.as_str(),
            peer_ip,
            now,
        ) {
            return Err(e);
        }
        let (i, name) = match self.find_secret(req.secret.as_str()) {
            Some(h) => h,
            None => {
                return Err(ApiError::bad_credentials());
            },
        };
        if !valid_pubkey(req.pubkey.as_str()) {
            return Err(
                ApiError::bad_request("pubkey must be 32 bytes in base64".to_owned()),
            );
        }
        if !valid_fingerprint(req.cert_fingerprint.as_str()) {
            return Err(
                ApiError::bad_request(
                    "cert_fingerprint must be sha256: and 64 hex digits".to_owned(),
                ),
            );
        }
        let keys = self.keyring.key_infos();
        let port = self.control_port;
        let r = join_member(
            &mut self.networks.entries[i].1,
            name.as_str(),
            req,
            peer_ip,
            allow_reclaim,
            now,
            port,
            keys,
        );
        r
    }
}

/// Uses are counted by key and address, and by the minute: what was counted in
/// another minute counts for nothing.
pub proof fn law_uses_are_counted_by_the_minute(
    s: Seq<RateEntry>,
    key: Seq<char>,
    ip: Seq<char>,
    now: u64,
    i: int,
)
    requires
        0 <= i <= s.len(),
        forall|k: int| 0 <= k < i ==> !((#[trigger] s[k]).key@ == key && s[k].ip@ == ip),
        i < s.len() ==> s[i].key@ == key && s[i].ip@ == ip,
    ensures
        i < s.len() && s[i].window == now / 60 ==> uses_now(s, key, ip, now) == s[i].count,
        i < s.len() && s[i].window != now / 60 ==> uses_now(s, key, ip, now) == 0,
        i == s.len() ==> uses_now(s, key, ip, now) == 0,
{
    lemma_rate_skip(s, key, ip, i);
}

} // verus!
