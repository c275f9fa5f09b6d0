//! The join transaction: a secret names the member, the operator's
//! configuration is the declaration, and a join from another machine
//! replaces the previous one.

use vstd::prelude::*;

use crate::admin::republished;
use crate::config::{MemberCfg, MemberView, NetworkConfig, NetworkView};
use crate::error::{error_view, ApiError, ErrorCode, ErrorView};
use crate::exits::{default_routes, designated};
use crate::ipam::{
    allocate_for_join, allocation, granted_view, lemma_allocation_frame, Granted,
};
use crate::leases::LeasesView;
use crate::net::{all_valid, IpAddr, IpNet};
use crate::proto::{relay_views, KeyInfo, MembershipDelta, NodeId, RelayEntry, Role};
use crate::registry::{
    lemma_name_index, lemma_put_wf, named, routes_valid, MemberRecord, RecordView, Registry,
    RegistryView, RouteReg,
};
use crate::secrets::{base64_bytes, decode_base64, KEY_LEN};
use crate::state::{
    dial_addr, gen_room, messages, relay_dial_addr, relay_entries, relay_fleet, NetState, ISS,
};
use crate::text::{behind_prefix, chars_of, copy_opt, opt_text, str_eq, strip_prefix};

verus! {

/// What a joining machine presents: the secret that names it, and the keys
/// of this instance.
#[derive(Debug)]
pub struct JoinRequest {
    pub secret: String,
    pub pubkey: String,
    pub cert_fingerprint: String,
}

/// What a credential says of a member. The audience is added by whoever
/// signs it.
#[derive(Debug)]
pub struct Claims {
    pub iss: String,
    pub network_id: String,
    pub network_uuid: String,
    pub node_id: NodeId,
    pub sub: String,
    pub role: Role,
    pub pubkey: String,
    pub cert_fp: String,
    pub prefixes: Vec<String>,
    pub login_gen: u64,
    pub iat: u64,
    pub exp: u64,
}

/// What a member is told at join, but for the signed credential.
#[derive(Debug)]
pub struct JoinResponse {
    pub network_id: String,
    pub network_uuid: String,
    pub node_id: NodeId,
    pub name: String,
    pub role: Role,
    pub login_gen: u64,
    pub ip4: Option<u32>,
    pub subnet4: Option<IpNet>,
    pub ip6: Option<u128>,
    pub subnet6: Option<IpNet>,
    pub granted_cidrs: Vec<IpNet>,
    pub relays: Vec<RelayEntry>,
    /// Relays: where the fleet dials this member.
    pub relay_addr: Option<String>,
    pub preferred_relay: Option<String>,
    pub max_session_mbps: u32,
    pub mtu: u16,
    pub heartbeat_secs: u16,
    pub transport: String,
    pub lanes: u8,
    pub control_port: u16,
    pub coordinator_signing_keys: Vec<KeyInfo>,
}

/// A join that succeeded.
#[derive(Debug)]
pub struct Joined {
    pub response: JoinResponse,
    pub claims: Claims,
    /// The change of the published view, for the live sessions.
    pub delta: Option<MembershipDelta>,
    /// Whose session is closed: the member's own, where the machine that it
    /// belongs to was replaced by this join.
    pub closed: Option<String>,
}

/// The text is a public key: 32 bytes in base64.
pub open spec fn is_pubkey(s: Seq<char>) -> bool {
    base64_bytes(s) matches Some(b) && b.len() == KEY_LEN
}

/// A hexadecimal digit.
pub open spec fn is_hex(c: char) -> bool {
    ('0' <= c <= '9') || ('a' <= c <= 'f') || ('A' <= c <= 'F')
}

/// The text is a certificate fingerprint: a SHA-256 digest in hexadecimal.
pub open spec fn is_fingerprint(s: Seq<char>) -> bool {
    behind_prefix(s, "sha256:"@) matches Some(h) && h.len() == 64 && forall|i: int|
        0 <= i < h.len() ==> is_hex(#[trigger] h[i])
}

/// Is the text a public key?
pub fn valid_pubkey(s: &str) -> (r: bool)
    ensures
        r == is_pubkey(s@),
{
    match decode_base64(s) {
        Some(b) => b.len() == KEY_LEN,
        None => false,
    }
}

/// Is the text a certificate fingerprint?
pub fn valid_fingerprint(s: &str) -> (r: bool)
    ensures
        r == is_fingerprint(s@),
{
    match strip_prefix(s, "sha256:") {
        None => false,
        Some(h) => {
            let chars = chars_of(h.as_str());
            if chars.len() != 64 {
                return false;
            }
            let mut i: usize = 0;
            while i < chars.len()
                invariant
                    i <= chars@.len(),
                    chars@ == h@,
                    chars@.len() == 64,
                    behind_prefix(s@, "sha256:"@) == Some(h@),
                    forall|k: int| 0 <= k < i ==> is_hex(#[trigger] h@[k]),
                decreases chars.len() - i,
            {
                let c = chars[i];
                if !(('0' <= c && c <= '9') || ('a' <= c && c <= 'f') || ('A' <= c && c <= 'F')) {
                    assert(!is_hex(h@[i as int]));
                    return false;
                }
                i = i + 1;
            }
            true
        },
    }
}

/// Why the keys that a machine presents are refused.
pub open spec fn keys_problem(pubkey: Seq<char>, fp: Seq<char>) -> Option<ErrorView> {
    if !is_pubkey(pubkey) {
        Some(error_view(ErrorCode::BadRequest, "pubkey must be 32 bytes in base64"@))
    } else if !is_fingerprint(fp) {
        Some(
            error_view(
                ErrorCode::BadRequest,
                "cert_fingerprint must be sha256: and 64 hex digits"@,
            ),
        )
    } else {
        None
    }
}

/// One of the prefixes, with its host bits cleared, is `cidr`.
pub open spec fn declares(locals: Seq<IpNet>, cidr: IpNet) -> bool {
    exists|i: int| 0 <= i < locals.len() && (#[trigger] locals[i]).truncated() == cidr
}

/// The registrations that are still declared.
pub open spec fn kept_routes(routes: Seq<RouteReg>, locals: Seq<IpNet>) -> Seq<RouteReg>
    decreases routes.len(),
{
    if routes.len() == 0 {
        Seq::empty()
    } else {
        let p = kept_routes(routes.drop_last(), locals);
        if declares(locals, routes.last().cidr) {
            p.push(routes.last())
        } else {
            p
        }
    }
}

/// `cidr` is registered.
pub open spec fn registers(routes: Seq<RouteReg>, cidr: IpNet) -> bool {
    exists|i: int| 0 <= i < routes.len() && (#[trigger] routes[i]).cidr == cidr
}

/// `acc` with a registration of age `now` for every declared prefix that it
/// does not have.
pub open spec fn with_declared(acc: Seq<RouteReg>, locals: Seq<IpNet>, now: u64) -> Seq<RouteReg>
    decreases locals.len(),
{
    if locals.len() == 0 {
        acc
    } else {
        let p = with_declared(acc, locals.drop_last(), now);
        let c = locals.last().truncated();
        if registers(p, c) {
            p
        } else {
            p.push(RouteReg { cidr: c, first_granted_unix: now })
        }
    }
}

/// The registrations after a join that declares `locals`: those still
/// declared keep their age, new ones start at `now`, others are withdrawn.
pub open spec fn declared_routes(routes: Seq<RouteReg>, locals: Seq<IpNet>, now: u64) -> Seq<
    RouteReg,
> {
    with_declared(kept_routes(routes, locals), locals, now)
}

proof fn lemma_kept_routes(routes: Seq<RouteReg>, locals: Seq<IpNet>)
    ensures
        forall|r: RouteReg| #[trigger]
            kept_routes(routes, locals).contains(r) <==> routes.contains(r) && declares(
                locals,
                r.cidr,
            ),
    decreases routes.len(),
{
    if routes.len() > 0 {
        let d = routes.drop_last();
        lemma_kept_routes(d, locals);
        let p = kept_routes(d, locals);
        let k = kept_routes(routes, locals);
        assert forall|r: RouteReg| #[trigger] k.contains(r) <==> routes.contains(r) && declares(
            locals,
            r.cidr,
        ) by {
            if k.contains(r) {
                let i = choose|i: int| 0 <= i < k.len() && k[i] == r;
                if i < p.len() {
                    assert(p[i] == r);
                    assert(p.contains(r));
                    let m = choose|m: int| 0 <= m < d.len() && d[m] == r;
                    assert(routes[m] == r);
                } else {
                    assert(routes[routes.len() - 1] == r);
                }
            }
            if routes.contains(r) && declares(locals, r.cidr) {
                let m = choose|m: int| 0 <= m < routes.len() && routes[m] == r;
                if m < d.len() {
                    assert(d[m] == r);
                    assert(p.contains(r));
                    let i = choose|i: int| 0 <= i < p.len() && p[i] == r;
                    assert(k[i] == r);
                } else {
                    assert(k[p.len() as int] == r);
                }
            }
        }
    }
}

proof fn lemma_with_declared(acc: Seq<RouteReg>, locals: Seq<IpNet>, now: u64)
    ensures
        ({
            let w = with_declared(acc, locals, now);
            &&& acc.is_prefix_of(w)
            &&& forall|i: int|
                acc.len() <= i < w.len() ==> (#[trigger] w[i]).first_granted_unix == now
                    && declares(locals, w[i].cidr) && !registers(acc, w[i].cidr)
            &&& forall|i: int|
                0 <= i < locals.len() ==> registers(w, (#[trigger] locals[i]).truncated())
        }),
    decreases locals.len(),
{
    if locals.len() > 0 {
        let d = locals.drop_last();
        lemma_with_declared(acc, d, now);
        let p = with_declared(acc, d, now);
        let w = with_declared(acc, locals, now);
        let c = locals.last().truncated();
        assert(acc.is_prefix_of(w)) by {
            assert(acc =~= w.take(acc.len() as int));
        }
        assert forall|i: int| acc.len() <= i < w.len() implies (#[trigger] w[i]).first_granted_unix
            == now && declares(locals, w[i].cidr) && !registers(acc, w[i].cidr) by {
            if i < p.len() {
                assert(w[i] == p[i]);
                let k = choose|k: int| 0 <= k < d.len() && (#[trigger] d[k]).truncated() == p[i].cidr;
                assert(locals[k].truncated() == w[i].cidr);
            } else {
                assert(locals[locals.len() - 1].truncated() == w[i].cidr);
                if registers(acc, c) {
                    let k = choose|k: int| 0 <= k < acc.len() && (#[trigger] acc[k]).cidr == c;
                    assert(p[k] == acc[k]);
                }
            }
        }
        assert forall|i: int| 0 <= i < locals.len() implies registers(
            w,
            (#[trigger] locals[i]).truncated(),
        ) by {
            if i < d.len() {
                assert(d[i] == locals[i]);
                let k = choose|k: int|
                    0 <= k < p.len() && (#[trigger] p[k]).cidr == d[i].truncated();
                assert(w[k] == p[k]);
            } else if registers(p, c) {
                let k = choose|k: int| 0 <= k < p.len() && (#[trigger] p[k]).cidr == c;
                assert(w[k].cidr == c);
            } else {
                assert(w[p.len() as int].cidr == c);
            }
        }
    }
}

/// No prefix is registered twice.
pub open spec fn each_once(routes: Seq<RouteReg>) -> bool {
    forall|i: int, j: int|
        0 <= i < j < routes.len() ==> (#[trigger] routes[i]).cidr != (#[trigger] routes[j]).cidr
}

proof fn lemma_kept_once(routes: Seq<RouteReg>, locals: Seq<IpNet>)
    requires
        each_once(routes),
    ensures
        each_once(kept_routes(routes, locals)),
    decreases routes.len(),
{
    if routes.len() > 0 {
        let d = routes.drop_last();
        assert(each_once(d)) by {
            assert forall|i: int, j: int| 0 <= i < j < d.len() implies (#[trigger] d[i]).cidr != (
            #[trigger] d[j]).cidr by {
                assert(routes[i].cidr != routes[j].cidr);
            }
        }
        lemma_kept_once(d, locals);
        lemma_kept_routes(d, locals);
        let p = kept_routes(d, locals);
        let k = kept_routes(routes, locals);
        assert forall|i: int, j: int| 0 <= i < j < k.len() implies (#[trigger] k[i]).cidr != (
        #[trigger] k[j]).cidr by {
            assert(k[i] == p[i]);
            if j < p.len() {
                assert(k[j] == p[j]);
            } else {
                assert(p.contains(p[i]));
                let m = choose|m: int| 0 <= m < d.len() && d[m] == p[i];
                assert(routes[m].cidr != routes[routes.len() - 1].cidr);
            }
        }
    }
}

proof fn lemma_declared_once(acc: Seq<RouteReg>, locals: Seq<IpNet>, now: u64)
    requires
        each_once(acc),
    ensures
        each_once(with_declared(acc, locals, now)),
    decreases locals.len(),
{
    if locals.len() > 0 {
        lemma_declared_once(acc, locals.drop_last(), now);
        let p = with_declared(acc, locals.drop_last(), now);
        let w = with_declared(acc, locals, now);
        assert forall|i: int, j: int| 0 <= i < j < w.len() implies (#[trigger] w[i]).cidr != (
        #[trigger] w[j]).cidr by {
            assert(w[i] == p[i]);
            if j < p.len() {
                assert(w[j] == p[j]);
            }
        }
    }
}

/// A join registers exactly what is declared. A prefix that was registered
/// and is still declared keeps its age; one that was not starts at `now`.
/// Where no prefix was registered twice, none is afterwards.
pub proof fn law_a_join_applies_the_declaration(
    routes: Seq<RouteReg>,
    locals: Seq<IpNet>,
    now: u64,
    cidr: IpNet,
)
    ensures
        registers(declared_routes(routes, locals, now), cidr) <==> declares(locals, cidr),
        forall|i: int|
            0 <= i < declared_routes(routes, locals, now).len() ==> {
                let r = #[trigger] declared_routes(routes, locals, now)[i];
                if registers(routes, r.cidr) {
                    routes.contains(r)
                } else {
                    r.first_granted_unix == now
                }
            },
        each_once(routes) ==> each_once(declared_routes(routes, locals, now)),
{
    let k = kept_routes(routes, locals);
    if each_once(routes) {
        lemma_kept_once(routes, locals);
        lemma_declared_once(k, locals, now);
    }
    let w = declared_routes(routes, locals, now);
    lemma_kept_routes(routes, locals);
    lemma_with_declared(k, locals, now);
    assert forall|i: int| 0 <= i < w.len() implies declares(locals, (#[trigger] w[i]).cidr) by {
        if i < k.len() {
            assert(w[i] == k[i]);
            assert(k.contains(k[i]));
        }
    }
    if declares(locals, cidr) {
        let i = choose|i: int| 0 <= i < locals.len() && (#[trigger] locals[i]).truncated() == cidr;
        assert(registers(w, locals[i].truncated()));
    }
    assert forall|i: int| 0 <= i < w.len() implies ({
        let r = #[trigger] w[i];
        if registers(routes, r.cidr) {
            routes.contains(r)
        } else {
            r.first_granted_unix == now
        }
    }) by {
        let r = w[i];
        if i < k.len() {
            assert(w[i] == k[i]);
            assert(k.contains(k[i]));
            let m = choose|m: int| 0 <= m < routes.len() && routes[m] == r;
            assert(registers(routes, r.cidr));
        } else if registers(routes, r.cidr) {
            let m = choose|m: int| 0 <= m < routes.len() && (#[trigger] routes[m]).cidr == r.cidr;
            assert(routes.contains(routes[m]));
            assert(k.contains(routes[m]));
            let q = choose|q: int| 0 <= q < k.len() && k[q] == routes[m];
            assert(registers(k, r.cidr));
        }
    }
}

/// Prefixes with host bits cleared are valid if they were.
pub proof fn lemma_declared_valid(routes: Seq<RouteReg>, locals: Seq<IpNet>, now: u64)
    requires
        routes_valid(routes),
        all_valid(locals),
    ensures
        routes_valid(declared_routes(routes, locals, now)),
{
    let k = kept_routes(routes, locals);
    let w = declared_routes(routes, locals, now);
    lemma_kept_routes(routes, locals);
    lemma_with_declared(k, locals, now);
    assert forall|i: int| 0 <= i < w.len() implies (#[trigger] w[i]).cidr.valid() by {
        if i < k.len() {
            assert(w[i] == k[i]);
            assert(k.contains(k[i]));
            let m = choose|m: int| 0 <= m < routes.len() && routes[m] == w[i];
        } else {
            let q = choose|q: int|
                0 <= q < locals.len() && (#[trigger] locals[q]).truncated() == w[i].cidr;
            crate::net::lemma_truncated(locals[q]);
        }
    }
}

fn is_declared(locals: &Vec<IpNet>, cidr: &IpNet) -> (r: bool)
    requires
        all_valid(locals@),
    ensures
        r == declares(locals@, *cidr),
{
    let mut i: usize = 0;
    while i < locals.len()
        invariant
            i <= locals@.len(),
            all_valid(locals@),
            forall|k: int| 0 <= k < i ==> (#[trigger] locals@[k]).truncated() != *cidr,
        decreases locals.len() - i,
    {
        if locals[i].trunc() == *cidr {
            return true;
        }
        i = i + 1;
    }
    false
}

fn is_registered(routes: &Vec<RouteReg>, cidr: &IpNet) -> (r: bool)
    ensures
        r == registers(routes@, *cidr),
{
    let mut i: usize = 0;
    while i < routes.len()
        invariant
            i <= routes@.len(),
            forall|k: int| 0 <= k < i ==> (#[trigger] routes@[k]).cidr != *cidr,
        decreases routes.len() - i,
    {
        if routes[i].cidr == *cidr {
            return true;
        }
        i = i + 1;
    }
    false
}

/// The registrations after a join that declares `locals`.
pub fn declare_routes(routes: &Vec<RouteReg>, locals: &Vec<IpNet>, now: u64) -> (r: Vec<RouteReg>)
    requires
        all_valid(locals@),
    ensures
        r@ == declared_routes(routes@, locals@, now),
{
    let mut out: Vec<RouteReg> = Vec::new();
    let mut i: usize = 0;
    while i < routes.len()
        invariant
            i <= routes@.len(),
            all_valid(locals@),
            out@ == kept_routes(routes@.take(i as int), locals@),
        decreases routes.len() - i,
    {
        assert(routes@.take(i + 1).drop_last() =~= routes@.take(i as int));
        if is_declared(locals, &routes[i].cidr) {
            out.push(routes[i]);
        }
        i = i + 1;
    }
    assert(routes@.take(i as int) =~= routes@);
    let ghost kept = out@;
    let mut k: usize = 0;
    while k < locals.len()
        invariant
            k <= locals@.len(),
            all_valid(locals@),
            out@ == with_declared(kept, locals@.take(k as int), now),
        decreases locals.len() - k,
    {
        assert(locals@.take(k + 1).drop_last() =~= locals@.take(k as int));
        let c = locals[k].trunc();
        if !is_registered(&out, &c) {
            out.push(RouteReg { cidr: c, first_granted_unix: now });
        }
        k = k + 1;
    }
    assert(locals@.take(k as int) =~= locals@);
    out
}

/// Another machine than the one recorded presents these keys.
pub open spec fn replaces(rec: RecordView, pubkey: Seq<char>, fp: Seq<char>) -> bool {
    (rec.pubkey is Some || rec.cert_fp is Some) && (rec.pubkey != Some(pubkey) || rec.cert_fp
        != Some(fp))
}

/// Do these keys replace the machine that is recorded?
fn is_replaced(rec: &MemberRecord, pubkey: &str, fp: &str) -> (r: bool)
    ensures
        r == replaces(rec@, pubkey@, fp@),
{
    let recorded = rec.pubkey.is_some() || rec.cert_fp.is_some();
    let same_key = match &rec.pubkey {
        Some(k) => str_eq(k.as_str(), pubkey),
        None => false,
    };
    let same_fp = match &rec.cert_fp {
        Some(k) => str_eq(k.as_str(), fp),
        None => false,
    };
    recorded && !(same_key && same_fp)
}

/// The session that ends with a join: that of the machine which it replaces.
pub open spec fn replaced_session(
    ns: NetState,
    name: Seq<char>,
    pubkey: Seq<char>,
    fp: Seq<char>,
) -> Option<Seq<char>> {
    match named(ns.registry@.members, name) {
        Some(rec) if replaces(rec, pubkey, fp) && ns.sessions@.dom().contains(name) => Some(name),
        _ => None,
    }
}

/// A member's record after a join. Keys are recorded, never judged; another
/// machine than the one recorded starts a new login generation.
pub open spec fn joined_record(
    rec: RecordView,
    pubkey: Seq<char>,
    fp: Seq<char>,
    from: Seq<char>,
    granted: Granted,
    routes: Seq<RouteReg>,
    now: u64,
) -> RecordView {
    let base = if replaces(rec, pubkey, fp) {
        RecordView {
            login_gen: if rec.login_gen == u64::MAX {
                rec.login_gen
            } else {
                (rec.login_gen + 1) as u64
            },
            replaced_unix: Some(now),
            replaced_from: rec.last_join_from,
            ..rec
        }
    } else {
        rec
    };
    RecordView {
        pubkey: Some(pubkey),
        cert_fp: Some(fp),
        ip4: granted.ip4,
        ip6: granted.ip6,
        routes,
        last_join_unix: Some(now),
        last_join_from: Some(from),
        ..base
    }
}

/// A join from the machine that is recorded changes neither the login
/// generation nor what is known of a replacement; one from another machine
/// raises the generation and records where the previous one had joined from.
pub proof fn law_only_another_machine_replaces(
    rec: RecordView,
    pubkey: Seq<char>,
    fp: Seq<char>,
    from: Seq<char>,
    granted: Granted,
    routes: Seq<RouteReg>,
    now: u64,
)
    requires
        rec.login_gen < u64::MAX,
    ensures
        ({
            let after = joined_record(rec, pubkey, fp, from, granted, routes, now);
            &&& after.node_id == rec.node_id
            &&& after.name == rec.name
            &&& after.pubkey == Some(pubkey)
            &&& after.cert_fp == Some(fp)
            &&& rec.pubkey == Some(pubkey) && rec.cert_fp == Some(fp) ==> after.login_gen
                == rec.login_gen && after.replaced_unix == rec.replaced_unix
            &&& rec.pubkey is Some && rec.pubkey != Some(pubkey) ==> after.login_gen
                == rec.login_gen + 1 && after.replaced_unix == Some(now) && after.replaced_from
                == rec.last_join_from
            &&& rec.cert_fp is Some && rec.cert_fp != Some(fp) ==> after.login_gen == rec.login_gen
                + 1 && after.replaced_unix == Some(now) && after.replaced_from
                == rec.last_join_from
            &&& rec.pubkey is None && rec.cert_fp is None ==> after.login_gen == rec.login_gen
                && after.replaced_unix == rec.replaced_unix && after.replaced_from
                == rec.replaced_from
            &&& after.last_join_unix == Some(now)
            &&& after.last_join_from == Some(from)
            &&& after.ip4 == granted.ip4
            &&& after.ip6 == granted.ip6
            &&& after.routes == routes
        }),
{
}

/// What a join does to a registry.
#[verifier::ext_equal]
pub struct JoinPlan {
    pub id: NodeId,
    pub granted: Granted,
    pub record: RecordView,
    pub registry: RegistryView,
}

/// What a join of a member does, or why it is refused: a disabled member is,
/// and one whose address cannot be granted. A member that wants no address
/// is given none.
pub open spec fn join_plan(
    n: NetworkView,
    r: RegistryView,
    reclaim: Option<LeasesView>,
    name: Seq<char>,
    pubkey: Seq<char>,
    fp: Seq<char>,
    from: Seq<char>,
    now: u64,
) -> Result<JoinPlan, ErrorView> {
    let (m, role) = n.member(name)->0;
    match named(r.members, name) {
        Some(rec) if rec.disabled => Err(
            error_view(ErrorCode::ClientDisabled, "member is administratively disabled"@),
        ),
        _ => {
            let got = if m.want_vpn_ip == Some(false) {
                Ok((None, None, r))
            } else {
                allocation(n, r, reclaim, now, name, None, None)
            };
            match got {
                Err(e) => Err(e),
                Ok((g4, g6, after)) => {
                    let id = after.id_for(name);
                    let entry = after.entry(id, name, role, now);
                    let granted = granted_view(g4, g6);
                    let record = joined_record(
                        entry,
                        pubkey,
                        fp,
                        from,
                        granted,
                        declared_routes(entry.routes, m.local_cidrs, now),
                        now,
                    );
                    Ok(
                        JoinPlan {
                            id,
                            granted,
                            record,
                            registry: after.put(id, record).note_id(id),
                        },
                    )
                },
            }
        },
    }
}

/// The prefixes that a credential claims: the member's addresses and its
/// registrations.
pub open spec fn claimed_prefixes(rec: RecordView) -> Seq<Seq<char>> {
    let a = match rec.ip4 {
        Some(ip) => seq![IpAddr::V4(ip).text() + "/32"@],
        None => Seq::empty(),
    };
    let b = match rec.ip6 {
        Some(ip) => a.push(IpAddr::V6(ip).text() + "/128"@),
        None => a,
    };
    b + rec.routes.map_values(|r: RouteReg| r.cidr.text())
}

fn make_prefixes(granted: &Granted, routes: &Vec<RouteReg>) -> (r: Vec<String>)
    requires
        routes_valid(routes@),
    ensures
        forall|rec: RecordView|
            rec.ip4 == granted.ip4 && rec.ip6 == granted.ip6 && rec.routes == routes@ ==> messages(
                r@,
            ) == #[trigger] claimed_prefixes(rec),
{
    let mut out: Vec<String> = Vec::new();
    let ghost mut goal: Seq<Seq<char>> = Seq::empty();
    assert(messages(out@) =~= goal);
    if let Some(ip) = granted.ip4 {
        let mut t = IpAddr::V4(ip).to_text();
        t.append("/32");
        let ghost tv = t@;
        out.push(t);
        proof {
            goal = goal.push(tv);
        }
        assert(messages(out@) =~= goal);
    }
    if let Some(ip) = granted.ip6 {
        let mut t = IpAddr::V6(ip).to_text();
        t.append("/128");
        let ghost tv = t@;
        let ghost was = messages(out@);
        out.push(t);
        proof {
            goal = goal.push(tv);
        }
        assert(messages(out@) =~= was.push(tv));
    }
    let ghost base = goal;
    let ghost texts_of = routes@.map_values(|r: RouteReg| r.cidr.text());
    let mut i: usize = 0;
    assert(base + texts_of.take(0) =~= base);
    while i < routes.len()
        invariant
            i <= routes@.len(),
            routes_valid(routes@),
            texts_of == routes@.map_values(|r: RouteReg| r.cidr.text()),
            messages(out@) == base + texts_of.take(i as int),
        decreases routes.len() - i,
    {
        let ghost was = messages(out@);
        let t = routes[i].cidr.to_text();
        let ghost tv = t@;
        out.push(t);
        assert(messages(out@) =~= was.push(tv));
        assert(was.push(tv) =~= base + texts_of.take(i + 1));
        i = i + 1;
    }
    assert(texts_of.take(i as int) =~= texts_of);
    proof {
        assert forall|rec: RecordView|
            rec.ip4 == granted.ip4 && rec.ip6 == granted.ip6 && rec.routes == routes@ implies
            messages(out@) == #[trigger] claimed_prefixes(rec) by {
            assert(claimed_prefixes(rec) =~= base + texts_of);
        }
    }
    out
}

fn cidrs_of(routes: &Vec<RouteReg>) -> (r: Vec<IpNet>)
    ensures
        r@ == routes@.map_values(|x: RouteReg| x.cidr),
{
    let mut out: Vec<IpNet> = Vec::new();
    let mut i: usize = 0;
    while i < routes.len()
        invariant
            i <= routes@.len(),
            out@.len() == i,
            forall|k: int| 0 <= k < i ==> out@[k] == (#[trigger] routes@[k]).cidr,
        decreases routes.len() - i,
    {
        out.push(routes[i].cidr);
        i = i + 1;
    }
    assert(out@ =~= routes@.map_values(|x: RouteReg| x.cidr));
    out
}

/// The routes that a member is granted: those that it registered, and the
/// default routes if it is an exit.
pub open spec fn granted_routes(record: RecordView, exit: bool) -> Seq<IpNet> {
    record.routes.map_values(|x: RouteReg| x.cidr) + (if exit {
        default_routes()
    } else {
        Seq::empty()
    })
}

/// The most a relay lets this member send: its own cap, or else the
/// network's.
pub open spec fn session_cap(n: NetworkView, m: MemberView) -> u32 {
    match m.max_session_mbps {
        Some(c) => c,
        None => n.settings.max_session_mbps,
    }
}

/// What a member is told follows from the configuration and the plan.
pub open spec fn answers(
    r: JoinResponse,
    n: NetworkView,
    p: JoinPlan,
    name: Seq<char>,
    from: Seq<char>,
) -> bool {
    let (m, role) = n.member(name)->0;
    &&& r.network_id@ == n.network_id
    &&& r.network_uuid@ == p.registry.network_uuid
    &&& r.node_id == p.id
    &&& r.name@ == name
    &&& r.role == role
    &&& r.login_gen == p.record.login_gen
    &&& r.ip4 == p.granted.ip4
    &&& r.subnet4 == (if p.granted.ip4 is Some {
        n.ipv4()
    } else {
        None
    })
    &&& r.ip6 == p.granted.ip6
    &&& r.subnet6 == (if p.granted.ip6 is Some {
        n.ipv6()
    } else {
        None
    })
    &&& r.granted_cidrs@ == granted_routes(p.record, designated(n, name))
    &&& relay_views(r.relays@) == relay_fleet(n.relays, p.registry.members)
    &&& opt_text(r.relay_addr) == match m.relay_addr {
        Some(a) => dial_addr(a, Some(from)),
        None => None,
    }
    &&& opt_text(r.preferred_relay) == m.preferred_relay
    &&& r.max_session_mbps == session_cap(n, m)
    &&& r.mtu == n.settings.mtu
    &&& r.heartbeat_secs == n.settings.heartbeat_secs
    &&& r.transport@ == n.settings.transport
    &&& r.lanes == n.settings.lanes
}

/// What a credential claims follows from the plan.
pub open spec fn vouches(
    c: Claims,
    n: NetworkView,
    p: JoinPlan,
    name: Seq<char>,
    pubkey: Seq<char>,
    fp: Seq<char>,
    now: u64,
) -> bool {
    &&& c.iss@ == ISS@
    &&& c.network_id@ == n.network_id
    &&& c.network_uuid@ == p.registry.network_uuid
    &&& c.node_id == p.id
    &&& c.sub@ == name
    &&& c.role == (n.member(name)->0).1
    &&& c.pubkey@ == pubkey
    &&& c.cert_fp@ == fp
    &&& messages(c.prefixes@) == claimed_prefixes(p.record)
    &&& c.login_gen == p.record.login_gen
    &&& c.iat == now
    &&& c.exp == now + n.settings.credential_ttl_mins * 60
}

/// The prefixes of a credential are the host prefixes of the addresses that
/// the member holds and the prefixes that it registers: all of them, and
/// nothing else.
pub proof fn law_a_credential_claims_what_the_member_holds(
    c: Claims,
    n: NetworkView,
    p: JoinPlan,
    name: Seq<char>,
    pubkey: Seq<char>,
    fp: Seq<char>,
    now: u64,
    text: Seq<char>,
)
    requires
        vouches(c, n, p, name, pubkey, fp, now),
    ensures
        (exists|x: int| 0 <= x < c.prefixes@.len() && (#[trigger] c.prefixes@[x])@ == text) <==> {
            ||| p.record.ip4 matches Some(ip) && text == IpAddr::V4(ip).text() + "/32"@
            ||| p.record.ip6 matches Some(ip) && text == IpAddr::V6(ip).text() + "/128"@
            ||| exists|k: int|
                0 <= k < p.record.routes.len() && (#[trigger] p.record.routes[k]).cidr.text()
                    == text
        },
{
    let rec = p.record;
    let all = claimed_prefixes(rec);
    let routes = rec.routes.map_values(|r: RouteReg| r.cidr.text());
    let head = (if rec.ip4 is Some {
        1int
    } else {
        0int
    }) + (if rec.ip6 is Some {
        1int
    } else {
        0int
    });
    assert(messages(c.prefixes@) == all);
    assert(all.len() == head + routes.len());
    assert(all.len() == c.prefixes@.len()) by {
        assert(messages(c.prefixes@).len() == c.prefixes@.len());
    }
    if let Some(ip) = rec.ip4 {
        assert(all[0] == IpAddr::V4(ip).text() + "/32"@);
        assert(c.prefixes@[0]@ == all[0]);
    }
    if let Some(ip) = rec.ip6 {
        assert(all[head - 1] == IpAddr::V6(ip).text() + "/128"@);
        assert(c.prefixes@[head - 1]@ == all[head - 1]);
    }
    if exists|k: int| 0 <= k < rec.routes.len() && (#[trigger] rec.routes[k]).cidr.text() == text {
        let k = choose|k: int|
            0 <= k < rec.routes.len() && (#[trigger] rec.routes[k]).cidr.text() == text;
        assert(routes[k] == text);
        assert(all[head + k] == text);
        assert(c.prefixes@[head + k]@ == text);
    }
    if exists|x: int| 0 <= x < c.prefixes@.len() && (#[trigger] c.prefixes@[x])@ == text {
        let x = choose|x: int| 0 <= x < c.prefixes@.len() && (#[trigger] c.prefixes@[x])@ == text;
        assert(all[x] == text);
        if x >= head {
            assert(all[x] == routes[x - head]);
            assert(rec.routes[x - head].cidr.text() == text);
        }
    }
}

/// The routes that a member is granted are those that it registers and, where
/// it is a way out, the default route of each family; no others.
pub proof fn law_granted_routes_are_the_registered_ones(record: RecordView, exit: bool, n: IpNet)
    ensures
        granted_routes(record, exit).contains(n) <==> {
            ||| exists|k: int| 0 <= k < record.routes.len() && (#[trigger] record.routes[k]).cidr == n
            ||| exit && n.prefix_len == 0 && (n.addr == IpAddr::V4(0) || n.addr == IpAddr::V6(0))
        },
{
    let a = record.routes.map_values(|x: RouteReg| x.cidr);
    let all = granted_routes(record, exit);
    if all.contains(n) {
        let k = choose|k: int| 0 <= k < all.len() && all[k] == n;
        if k < a.len() {
            assert(record.routes[k].cidr == n);
        }
    }
    if exists|k: int| 0 <= k < record.routes.len() && (#[trigger] record.routes[k]).cidr == n {
        let k = choose|k: int|
            0 <= k < record.routes.len() && (#[trigger] record.routes[k]).cidr == n;
        assert(all[k] == n);
    }
    if exit {
        assert(all[a.len() as int] == (IpNet { addr: IpAddr::V4(0), prefix_len: 0 }));
        assert(all[a.len() as int + 1] == (IpNet { addr: IpAddr::V6(0), prefix_len: 0 }));
    }
}

/// What the allocator may reclaim from while a member joins.
pub open spec fn reclaim_view(ns: NetState, allow_reclaim: bool) -> Option<LeasesView> {
    if allow_reclaim {
        Some(ns.leases@)
    } else {
        None
    }
}

/// There is room for a join: a generation, an id for a member that is new,
/// and a credential that expires in time.
pub open spec fn join_room(ns: NetState, name: Seq<char>, now: u64) -> bool {
    &&& gen_room(ns.directory.revision)
    &&& named(ns.registry@.members, name) is None ==> ns.registry@.next_node_id < u32::MAX
    &&& now + ns.cfg@.settings.credential_ttl_mins * 60 <= u64::MAX
}

/// What enrolling a member in a registry yields.
struct Enrolled {
    granted: Granted,
    node_id: NodeId,
    login_gen: u64,
    prefixes: Vec<String>,
    granted_cidrs: Vec<IpNet>,
}

/// Record the join of a member, whose configuration is `m`, under the
/// addresses it was granted.
fn record_join(
    reg: &mut Registry,
    m: &MemberCfg,
    role: Role,
    name: &str,
    req: &JoinRequest,
    from: &str,
    granted: Granted,
    now: u64,
) -> (r: Enrolled)
    requires
        old(reg)@.wf(),
        m@.wf(),
        named(old(reg)@.members, name@) is None ==> old(reg)@.next_node_id < u32::MAX,
    ensures
        ({
            let id = old(reg)@.id_for(name@);
            let entry = old(reg)@.entry(id, name@, role, now);
            let record = joined_record(
                entry,
                req.pubkey@,
                req.cert_fingerprint@,
                from@,
                granted,
                declared_routes(entry.routes, m@.local_cidrs, now),
                now,
            );
            &&& final(reg)@ == old(reg)@.put(id, record).note_id(id)
            &&& r.granted == granted
            &&& r.node_id == id
            &&& r.login_gen == record.login_gen
            &&& messages(r.prefixes@) == claimed_prefixes(record)
            &&& r.granted_cidrs@ == granted_routes(
                record,
                role == Role::Relay && m.internet_gateway == Some(true),
            )
        }),
        final(reg)@.wf(),
{
    let ghost r1 = reg@;
    let ghost id = r1.id_for(name@);
    let ghost entry = r1.entry(id, name@, role, now);
    let rec = reg.member_by_name_mut(name, role, now);
    let routes = declare_routes(&rec.routes, &m.local_cidrs, now);
    let ghost rv = routes@;
    proof {
        crate::registry::lemma_id_index(r1.members, id);
        lemma_name_index(r1.members, name@);
        lemma_declared_valid(entry.routes, m.local_cidrs@, now);
    }
    let prefixes = make_prefixes(&granted, &routes);
    let mut granted_cidrs = cidrs_of(&routes);
    if role == Role::Relay && m.internet_gateway == Some(true) {
        granted_cidrs.push(IpNet { addr: IpAddr::V4(0), prefix_len: 0 });
        granted_cidrs.push(IpNet { addr: IpAddr::V6(0), prefix_len: 0 });
    }
    if is_replaced(rec, req.pubkey.as_str(), req.cert_fingerprint.as_str()) {
        rec.login_gen = rec.login_gen.saturating_add(1);
        rec.replaced_unix = Some(now);
        rec.replaced_from = copy_opt(&rec.last_join_from);
    }
    rec.pubkey = Some(req.pubkey.clone());
    rec.cert_fp = Some(req.cert_fingerprint.clone());
    rec.ip4 = granted.ip4;
    rec.ip6 = granted.ip6;
    rec.routes = routes;
    rec.last_join_unix = Some(now);
    rec.last_join_from = Some(from.to_owned());
    let node_id = rec.node_id;
    let login_gen = rec.login_gen;
    let ghost record = joined_record(
        entry,
        req.pubkey@,
        req.cert_fingerprint@,
        from@,
        granted,
        rv,
        now,
    );
    assert(rec@ =~= record);
    assert(granted_cidrs@ =~= granted_routes(
        record,
        role == Role::Relay && m.internet_gateway == Some(true),
    ));
    proof {
        lemma_put_wf(r1, id, record);
    }
    Enrolled { granted, node_id, login_gen, prefixes, granted_cidrs }
}

/// Enroll a member: refuse a disabled one, grant its addresses and record
/// the join.
fn enroll(
    cfg: &NetworkConfig,
    reg: &mut Registry,
    leases: &crate::leases::Leases,
    m: &MemberCfg,
    role: Role,
    name: &str,
    req: &JoinRequest,
    from: &str,
    allow_reclaim: bool,
    now: u64,
) -> (r: Result<Enrolled, ApiError>)
    requires
        cfg.wf(),
        cfg@.everyone().len() <= usize::MAX,
        cfg@.ipv4() is Some,
        cfg@.member(name@) == Some((m@, role)),
        m@.wf(),
        leases.wf(),
        old(reg)@.wf(),
        named(old(reg)@.members, name@) is None ==> old(reg)@.next_node_id < u32::MAX,
    ensures
        final(reg)@.wf(),
        ({
            let plan = join_plan(
                cfg@,
                old(reg)@,
                if allow_reclaim {
                    Some(leases@)
                } else {
                    None
                },
                name@,
                req.pubkey@,
                req.cert_fingerprint@,
                from@,
                now,
            );
            match r {
                Err(e) => plan == Err::<JoinPlan, ErrorView>(e@) && final(reg)@ == old(reg)@,
                Ok(x) => plan matches Ok(p) && final(reg)@ == p.registry && x.granted == p.granted
                    && x.node_id == p.id && x.login_gen == p.record.login_gen && messages(
                    x.prefixes@,
                ) == claimed_prefixes(p.record) && x.granted_cidrs@ == granted_routes(
                    p.record,
                    designated(cfg@, name@),
                ),
            }
        }),
{
    proof {
        lemma_allocation_frame(
            cfg@,
            reg@,
            if allow_reclaim {
                Some(leases@)
            } else {
                None
            },
            now,
            name@,
            None,
            None,
        );
    }
    let disabled = match reg.by_name(name) {
        Some(rec) => rec.disabled,
        None => false,
    };
    if disabled {
        return Err(ApiError::client_disabled());
    }
    let granted = if m.want_vpn_ip == Some(false) {
        Granted { ip4: None, ip6: None }
    } else {
        match allocate_for_join(cfg, reg, leases, allow_reclaim, now, name, None, None) {
            Err(e) => {
                return Err(e);
            },
            Ok(g) => g,
        }
    };
    Ok(record_join(reg, m, role, name, req, from, granted, now))
}

/// The join of a member of a network, whose secret and keys were checked.
pub fn join_member(
    ns: &mut NetState,
    name: &str,
    req: &JoinRequest,
    from: &str,
    allow_reclaim: bool,
    now: u64,
    control_port: u16,
    keys: Vec<KeyInfo>,
) -> (r: Result<Joined, ApiError>)
    requires
        old(ns).wf(),
        old(ns).cfg@.member(name@) is Some,
        join_room(*old(ns), name@, now),
    ensures
        final(ns).wf(),
        *final(ns) == (NetState {
            registry: final(ns).registry,
            directory: final(ns).directory,
            ..*old(ns)
        }),
        ({
            let plan = join_plan(
                old(ns).cfg@,
                old(ns).registry@,
                reclaim_view(*old(ns), allow_reclaim),
                name@,
                req.pubkey@,
                req.cert_fingerprint@,
                from@,
                now,
            );
            match r {
                Err(e) => {
                    &&& plan == Err::<JoinPlan, ErrorView>(e@)
                    &&& final(ns).registry@ == old(ns).registry@
                    &&& final(ns).directory == old(ns).directory
                },
                Ok(j) => {
                    &&& plan matches Ok(p) && answers(
                        j.response,
                        old(ns).cfg@,
                        p,
                        name@,
                        from@,
                    ) && vouches(
                        j.claims,
                        old(ns).cfg@,
                        p,
                        name@,
                        req.pubkey@,
                        req.cert_fingerprint@,
                        now,
                    ) && republished(p.registry, old(ns).directory, *final(ns), now, j.delta)
                    &&& opt_text(j.closed) == replaced_session(
                        *old(ns),
                        name@,
                        req.pubkey@,
                        req.cert_fingerprint@,
                    )
                    &&& j.response.control_port == control_port
                    &&& j.response.coordinator_signing_keys == keys
                },
            }
        }),
{
    let ghost n = ns.cfg@;
    let ghost r0 = ns.registry@;
    let ghost reclaim = reclaim_view(*ns, allow_reclaim);
    let (m, role) = match ns.cfg.member_by_name(name) {
        Some((m, role)) => (m.copy(), role),
        None => {
            return Err(ApiError::bad_credentials());
        },
    };
    let replaced = match ns.registry.by_name(name) {
        Some(rec) => is_replaced(rec, req.pubkey.as_str(), req.cert_fingerprint.as_str()),
        None => false,
    };
    let closed = if replaced && ns.sessions.contains_key(name) {
        Some(name.to_owned())
    } else {
        None
    };
    let enrolled = match enroll(
        &ns.cfg,
        &mut ns.registry,
        &ns.leases,
        &m,
        role,
        name,
        req,
        from,
        allow_reclaim,
        now,
    ) {
        Ok(x) => x,
        Err(e) => {
            return Err(e);
        },
    };
    let ghost plan = join_plan(
        n,
        r0,
        reclaim,
        name@,
        req.pubkey@,
        req.cert_fingerprint@,
        from@,
        now,
    )->Ok_0;
    let Enrolled { granted, node_id, login_gen, prefixes, granted_cidrs } = enrolled;
    let delta = ns.refresh_directory(now);
    let relays = relay_entries(ns);
    let relay_addr = match &m.relay_addr {
        Some(a) => relay_dial_addr(a.as_str(), &Some(from.to_owned())),
        None => None,
    };
    let s = &ns.cfg.settings;
    let exp: u64 = now + s.credential_ttl_mins * 60;
    let claims = Claims {
        iss: ISS.to_owned(),
        network_id: ns.cfg.network_id.clone(),
        network_uuid: ns.registry.network_uuid.clone(),
        node_id,
        sub: name.to_owned(),
        role,
        pubkey: req.pubkey.clone(),
        cert_fp: req.cert_fingerprint.clone(),
        prefixes,
        login_gen,
        iat: now,
        exp,
    };
    let response = JoinResponse {
        network_id: ns.cfg.network_id.clone(),
        network_uuid: ns.registry.network_uuid.clone(),
        node_id,
        name: name.to_owned(),
        role,
        login_gen,
        ip4: granted.ip4,
        subnet4: if granted.ip4.is_some() {
            ns.cfg.ipv4_cidr()
        } else {
            None
        },
        ip6: granted.ip6,
        subnet6: if granted.ip6.is_some() {
            ns.cfg.ipv6_cidr()
        } else {
            None
        },
        granted_cidrs,
        relays,
        relay_addr,
        preferred_relay: copy_opt(&m.preferred_relay),
        max_session_mbps: match m.max_session_mbps {
            Some(c) => c,
            None => s.max_session_mbps,
        },
        mtu: s.mtu,
        heartbeat_secs: s.heartbeat_secs,
        transport: s.transport.clone(),
        lanes: s.lanes,
        control_port,
        coordinator_signing_keys: keys,
    };
    assert(answers(response, n, plan, name@, from@));
    assert(vouches(claims, n, plan, name@, req.pubkey@, req.cert_fingerprint@, now));
    Ok(Joined { response, claims, delta, closed })
}

/// A machine is let in with a key of 32 bytes and the SHA-256 fingerprint of
/// its certificate, and with nothing else.
pub proof fn law_keys_have_their_form(pubkey: Seq<char>, digits: Seq<char>, fp: Seq<char>)
    ensures
        keys_problem(pubkey, fp) is None ==> {
            &&& base64_bytes(pubkey) is Some
            &&& base64_bytes(pubkey)->0.len() == 32
            &&& fp.len() == 71
            &&& fp.take(7) == "sha256:"@
            &&& forall|i: int| 7 <= i < 71 ==> is_hex(#[trigger] fp[i])
        },
        base64_bytes(pubkey) is Some && base64_bytes(pubkey)->0.len() == 32 && digits.len() == 64
            && (forall|i: int| 0 <= i < 64 ==> is_hex(#[trigger] digits[i])) ==> keys_problem(
            pubkey,
            "sha256:"@ + digits,
        ) is None,
        forall|c: char| #[trigger]
            is_hex(c) <==> 0x30 <= c as int <= 0x39 || 0x41 <= c as int <= 0x46 || 0x61 <= c as int
                <= 0x66,
{
    let p = "sha256:"@;
    reveal_strlit("sha256:");
    assert(p.len() == 7);
    if keys_problem(pubkey, fp) is None {
        let h = behind_prefix(fp, p)->0;
        assert(fp.take(7) =~= p);
        assert forall|i: int| 7 <= i < 71 implies is_hex(#[trigger] fp[i]) by {
            assert(h[i - 7] == fp[i]);
        }
    }
    let whole = p + digits;
    assert(whole.take(7) =~= p);
    assert(whole.skip(7) =~= digits);
}

/// A member that joins again keeps the id and the age of its record; one that
/// joins for the first time is recorded from now on, under an id that nobody
/// has. Neither is disabled.
pub proof fn law_a_join_starts_from_the_record(
    n: NetworkView,
    r: RegistryView,
    reclaim: Option<LeasesView>,
    name: Seq<char>,
    pubkey: Seq<char>,
    fp: Seq<char>,
    from: Seq<char>,
    now: u64,
    k: int,
)
    requires
        n.wf(),
        r.wf(),
        n.ipv4() is Some,
        n.member(name) is Some,
        r.next_node_id < u32::MAX,
        join_plan(n, r, reclaim, name, pubkey, fp, from, now) is Ok,
    ensures
        ({
            let p = join_plan(n, r, reclaim, name, pubkey, fp, from, now)->Ok_0;
            &&& p.record.name == name
            &&& p.record.role == (n.member(name)->0).1
            &&& p.record.node_id == p.id
            &&& !p.record.disabled
            &&& 0 <= k < r.members.len() && r.members[k].name == name && (forall|j: int|
                0 <= j < k ==> (#[trigger] r.members[j]).name != name) ==> p.id
                == r.members[k].node_id && p.record.created_unix == r.members[k].created_unix
            &&& (forall|j: int| 0 <= j < r.members.len() ==> (#[trigger] r.members[j]).name != name)
                ==> p.record.created_unix == now && p.record.login_gen == 0 && forall|j: int|
                0 <= j < r.members.len() ==> (#[trigger] r.members[j]).node_id != p.id
        }),
{
    let (m, role) = n.member(name)->0;
    crate::ipam::lemma_allocation_frame(n, r, reclaim, now, name, None, None);
    let after = if m.want_vpn_ip == Some(false) {
        r
    } else {
        (allocation(n, r, reclaim, now, name, None, None)->Ok_0).2
    };
    let id = after.id_for(name);
    crate::registry::lemma_name_index(r.members, name);
    crate::registry::lemma_name_index(after.members, name);
    crate::registry::lemma_id_index(after.members, id);
    if let Some(i) = crate::registry::name_index(after.members, name) {
        crate::registry::lemma_id_index_is(after.members, id, i);
    } else {
        assert forall|j: int| 0 <= j < r.members.len() implies (#[trigger] r.members[j]).node_id
            != id by {
            assert(after.members[j].node_id == r.members[j].node_id);
        }
        assert(crate::registry::with_id(after.members, id) is None) by {
            if let Some(j) = crate::registry::id_index(after.members, id) {
                assert(r.members[j].node_id != id);
                assert(after.members[j].node_id == r.members[j].node_id);
            }
        }
    }
}

} // verus!
