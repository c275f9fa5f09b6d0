//! The published view of a network: registry and liveness in, members with
//! their prefixes out, under a revision that advances only on a change.
//!
//! Routes are bound to liveness, identity is not: an offline member keeps its
//! addresses but its route registrations are withdrawn, so the next oldest
//! living registrant takes over. A returning registrant waits out the
//! hold-down before it reclaims a prefix from a living one.

use vstd::prelude::*;

use crate::config::{NetworkConfig, NetworkView};
use crate::exits::{default_routes, is_designated, is_exit, ExitReadiness};
use crate::history::{History, HISTORY_LIMIT};
use crate::idmap::IdMap;
use crate::namemap::NameMap;
use crate::net::{all_valid, host_of, IpAddr, IpNet};
use crate::nettext::{lemma_sort_by_text_contains, sort_by_text, sorted_by_text};
use crate::owners::{owners_table, table_view, Registrant};
use crate::proto::{
    peer_views, AttachmentEntry, MembershipDelta, NetworkMtu, NodeId, PeerInfo, PeerView,
    TrafficReport,
};
use crate::reach::Reachability;
use crate::registry::{
    ids_ascend, with_id, MemberRecord, RecordView, Registry, RegistryView, RouteReg,
};
use crate::text::{opt_text, str_eq};

verus! {

/// Who owns a prefix.
#[derive(Debug)]
pub struct OwnerEntry {
    pub cidr: IpNet,
    pub owner: String,
}

/// Two consecutive reports of a relay, which is all that a rate needs.
#[derive(Debug)]
pub struct TrafficSample {
    pub at: u64,
    pub report: TrafficReport,
    pub prev_at: u64,
    pub prev: Option<TrafficReport>,
}

/// The derived view of a network.
#[derive(Debug)]
pub struct Directory {
    pub revision: u64,
    /// The last published view, in the order of the node ids.
    pub peers: Vec<PeerInfo>,
    /// The members with a live control connection, and since when.
    pub online_since: NameMap<u64>,
    /// Who owns which prefix; sticky until death or hold-down.
    pub owners: Vec<OwnerEntry>,
    /// client -> relay, as relays announced it.
    pub attachments: IdMap<NodeId>,
    pub attach_revision: u64,
    /// Flap damping window; 0 disables it.
    pub hold_down_secs: u64,
    /// The last reachability verdict per relay.
    pub reachability: NameMap<Reachability>,
    /// The usable inner MTU that each member reported.
    pub reported_mtu: NameMap<u16>,
    /// The last MTU that was published.
    pub published_mtu: Option<NetworkMtu>,
    /// The latest traffic sample per relay.
    pub traffic: NameMap<TrafficSample>,
    /// What each relay last reported of its host as a way out.
    pub exits: NameMap<ExitReadiness>,
    /// The recent changes of the view, for members that missed some.
    pub history: History,
}

/// How long a relay's last report stays after the relay goes quiet.
pub const TRAFFIC_RETENTION_SECS: u64 = 300;

/// Never below the IPv6 minimum: a smaller MTU breaks IPv6 outright.
pub const MIN_TUNNEL_MTU: u16 = 1280;

/// The content of a list of owners.
pub open spec fn owner_views(s: Seq<OwnerEntry>) -> Seq<(IpNet, Seq<char>)> {
    s.map_values(|e: OwnerEntry| (e.cidr, e.owner@))
}

/// Who owns `cidr`.
pub open spec fn owner_of(s: Seq<(IpNet, Seq<char>)>, cidr: IpNet) -> Option<Seq<char>>
    decreases s.len(),
{
    if s.len() == 0 {
        None
    } else {
        match owner_of(s.drop_last(), cidr) {
            Some(o) => Some(o),
            None => if s.last().0 == cidr {
                Some(s.last().1)
            } else {
                None
            },
        }
    }
}

/// The name of the member with this id.
pub open spec fn name_of(members: Seq<RecordView>, id: NodeId) -> Seq<char> {
    match with_id(members, id) {
        Some(rec) => rec.name,
        None => Seq::empty(),
    }
}

/// The oldest registrant that is online.
pub open spec fn oldest_live(
    members: Seq<RecordView>,
    online: Map<Seq<char>, u64>,
    regs: Seq<Registrant>,
) -> Option<Seq<char>>
    decreases regs.len(),
{
    if regs.len() == 0 {
        None
    } else if online.dom().contains(name_of(members, regs[0].0)) {
        Some(name_of(members, regs[0].0))
    } else {
        oldest_live(members, online, regs.drop_first())
    }
}

/// One of the registrants has this name.
pub open spec fn registers(
    members: Seq<RecordView>,
    regs: Seq<Registrant>,
    name: Seq<char>,
) -> bool {
    exists|i: int| 0 <= i < regs.len() && name_of(members, (#[trigger] regs[i]).0) == name
}

/// The present owner, if it still is a registrant.
pub open spec fn standing(
    members: Seq<RecordView>,
    regs: Seq<Registrant>,
    current: Option<Seq<char>>,
) -> Option<Seq<char>> {
    match current {
        Some(o) if registers(members, regs, o) => Some(o),
        _ => None,
    }
}

/// Who owns a prefix next: the present owner while it lives and a better one
/// has not waited out the hold-down; else the oldest living registrant.
pub open spec fn next_owner(
    current: Option<Seq<char>>,
    best: Option<Seq<char>>,
    online: Map<Seq<char>, u64>,
    hold_down: u64,
    now: u64,
) -> Option<Seq<char>> {
    match (current, best) {
        (Some(cur), Some(b)) => if cur != b && online.dom().contains(cur) && !(now - (
        if online.dom().contains(b) {
            online[b]
        } else {
            0
        }) >= hold_down || hold_down == 0) {
            Some(cur)
        } else {
            Some(b)
        },
        (_, best) => best,
    }
}

/// The owners of the prefixes of a table, those without one left out.
pub open spec fn next_owners(
    table: Seq<(IpNet, Seq<Registrant>)>,
    members: Seq<RecordView>,
    current: Seq<(IpNet, Seq<char>)>,
    online: Map<Seq<char>, u64>,
    hold_down: u64,
    now: u64,
) -> Seq<(IpNet, Seq<char>)>
    decreases table.len(),
{
    if table.len() == 0 {
        Seq::empty()
    } else {
        let p = next_owners(table.drop_last(), members, current, online, hold_down, now);
        let (cidr, regs) = table.last();
        match next_owner(
            standing(members, regs, owner_of(current, cidr)),
            oldest_live(members, online, regs),
            online,
            hold_down,
            now,
        ) {
            Some(o) => p.push((cidr, o)),
            None => p,
        }
    }
}

/// The prefixes that a member owns.
pub open spec fn owned_by(s: Seq<(IpNet, Seq<char>)>, name: Seq<char>) -> Seq<IpNet>
    decreases s.len(),
{
    if s.len() == 0 {
        Seq::empty()
    } else {
        let p = owned_by(s.drop_last(), name);
        if s.last().1 == name {
            p.push(s.last().0)
        } else {
            p
        }
    }
}

/// A member's addresses, as host prefixes.
pub open spec fn address_prefixes(rec: RecordView) -> Seq<IpNet> {
    let a = match rec.ip4 {
        Some(ip) => seq![host_of(IpAddr::V4(ip))],
        None => Seq::empty(),
    };
    match rec.ip6 {
        Some(ip) => a.push(host_of(IpAddr::V6(ip))),
        None => a,
    }
}

/// The default routes, for a member that is online and a way out now.
/// Ownership of a default is not exclusive: every exit is told of with it.
pub open spec fn exit_prefixes(
    name: Seq<char>,
    online: Map<Seq<char>, u64>,
    exit: bool,
) -> Seq<IpNet> {
    if exit && online.dom().contains(name) {
        default_routes()
    } else {
        Seq::empty()
    }
}

/// What the network is told of a member: its addresses, which it keeps when
/// it is offline, the prefixes that it owns, and the default routes if it is
/// a way out.
pub open spec fn peer_of(
    rec: RecordView,
    owners: Seq<(IpNet, Seq<char>)>,
    online: Map<Seq<char>, u64>,
    exit: bool,
) -> PeerView {
    PeerView {
        node_id: rec.node_id,
        name: rec.name,
        role: rec.role,
        prefixes: sort_by_text(
            address_prefixes(rec) + owned_by(owners, rec.name) + exit_prefixes(
                rec.name,
                online,
                exit,
            ),
        ),
        pubkey: match rec.pubkey {
            Some(k) => k,
            None => Seq::empty(),
        },
        online: online.dom().contains(rec.name),
        login_gen: rec.login_gen,
    }
}

/// What the network is told of all members. A disabled member is not told of
/// at all.
pub open spec fn peers_of(
    members: Seq<RecordView>,
    owners: Seq<(IpNet, Seq<char>)>,
    online: Map<Seq<char>, u64>,
    cfg: NetworkView,
    reports: Map<Seq<char>, ExitReadiness>,
) -> Seq<PeerView>
    decreases members.len(),
{
    if members.len() == 0 {
        Seq::empty()
    } else {
        let p = peers_of(members.drop_last(), owners, online, cfg, reports);
        let rec = members.last();
        if rec.disabled {
            p
        } else {
            p.push(peer_of(rec, owners, online, is_exit(cfg, reports, rec.name)))
        }
    }
}

/// The record that an entry of the view tells of.
proof fn lemma_told_of(
    members: Seq<RecordView>,
    owners: Seq<(IpNet, Seq<char>)>,
    online: Map<Seq<char>, u64>,
    cfg: NetworkView,
    reports: Map<Seq<char>, ExitReadiness>,
    i: int,
) -> (j: int)
    requires
        0 <= i < peers_of(members, owners, online, cfg, reports).len(),
    ensures
        0 <= j < members.len(),
        !members[j].disabled,
        peers_of(members, owners, online, cfg, reports)[i] == peer_of(
            members[j],
            owners,
            online,
            is_exit(cfg, reports, members[j].name),
        ),
    decreases members.len(),
{
    let d = members.drop_last();
    let p = peers_of(d, owners, online, cfg, reports);
    if i < p.len() {
        lemma_told_of(d, owners, online, cfg, reports, i)
    } else {
        members.len() - 1
    }
}

/// The ids of a view ascend where those of the records do.
proof fn lemma_peers_ascend(
    members: Seq<RecordView>,
    owners: Seq<(IpNet, Seq<char>)>,
    online: Map<Seq<char>, u64>,
    cfg: NetworkView,
    reports: Map<Seq<char>, ExitReadiness>,
)
    requires
        ids_ascend(members),
    ensures
        peers_ascend(peers_of(members, owners, online, cfg, reports)),
    decreases members.len(),
{
    if members.len() > 0 {
        let d = members.drop_last();
        assert(ids_ascend(d)) by {
            assert forall|a: int, b: int| 0 <= a < b < d.len() implies (#[trigger] d[a]).node_id < (
            #[trigger] d[b]).node_id by {
                assert(members[a].node_id < members[b].node_id);
            }
        }
        lemma_peers_ascend(d, owners, online, cfg, reports);
        let p = peers_of(d, owners, online, cfg, reports);
        let all = peers_of(members, owners, online, cfg, reports);
        assert forall|a: int, b: int| 0 <= a < b < all.len() implies (#[trigger] all[a]).node_id < (
        #[trigger] all[b]).node_id by {
            assert(all[a] == p[a]);
            if b < p.len() {
                assert(all[b] == p[b]);
            } else {
                let j = lemma_told_of(d, owners, online, cfg, reports, a);
                assert(members[j].node_id < members[members.len() - 1].node_id);
            }
        }
    }
}

/// A member is told of exactly while it is not disabled, and then with its
/// own record.
pub proof fn law_a_disabled_member_is_not_published(
    members: Seq<RecordView>,
    owners: Seq<(IpNet, Seq<char>)>,
    online: Map<Seq<char>, u64>,
    cfg: NetworkView,
    reports: Map<Seq<char>, ExitReadiness>,
    i: int,
)
    requires
        ids_ascend(members),
        0 <= i < members.len(),
    ensures
        peer_with_id(
            peers_of(members, owners, online, cfg, reports),
            members[i].node_id,
        ) == if members[i].disabled {
            None
        } else {
            Some(
                peer_of(members[i], owners, online, is_exit(cfg, reports, members[i].name)),
            )
        },
    decreases members.len(),
{
    let d = members.drop_last();
    let all = peers_of(members, owners, online, cfg, reports);
    let p = peers_of(d, owners, online, cfg, reports);
    let id = members[i].node_id;
    assert(ids_ascend(d)) by {
        assert forall|a: int, b: int| 0 <= a < b < d.len() implies (#[trigger] d[a]).node_id < (
        #[trigger] d[b]).node_id by {
            assert(members[a].node_id < members[b].node_id);
        }
    }
    if i < d.len() {
        law_a_disabled_member_is_not_published(d, owners, online, cfg, reports, i);
        assert(d[i] == members[i]);
        assert(members[i].node_id < members[members.len() - 1].node_id);
        if !members.last().disabled {
            assert(all.drop_last() =~= p);
        }
    } else {
        lemma_peer_with_id(p, id);
        if let Some(q) = peer_with_id(p, id) {
            let k = choose|k: int| 0 <= k < p.len() && p[k] == q;
            let j = lemma_told_of(d, owners, online, cfg, reports, k);
            assert(members[j].node_id < members[i].node_id);
        }
        if !members.last().disabled {
            assert(all.drop_last() =~= p);
        }
    }
}

/// The entry with this id.
pub open spec fn peer_with_id(s: Seq<PeerView>, id: NodeId) -> Option<PeerView>
    decreases s.len(),
{
    if s.len() == 0 {
        None
    } else {
        match peer_with_id(s.drop_last(), id) {
            Some(p) => Some(p),
            None => if s.last().node_id == id {
                Some(s.last())
            } else {
                None
            },
        }
    }
}

/// The entries of `next` that `prev` does not have like that.
pub open spec fn changed_peers(prev: Seq<PeerView>, next: Seq<PeerView>) -> Seq<PeerView>
    decreases next.len(),
{
    if next.len() == 0 {
        Seq::empty()
    } else {
        let p = changed_peers(prev, next.drop_last());
        if peer_with_id(prev, next.last().node_id) != Some(next.last()) {
            p.push(next.last())
        } else {
            p
        }
    }
}

/// The ids of `prev` that `next` does not have.
pub open spec fn removed_peers(prev: Seq<PeerView>, next: Seq<PeerView>) -> Seq<NodeId>
    decreases prev.len(),
{
    if prev.len() == 0 {
        Seq::empty()
    } else {
        let p = removed_peers(prev.drop_last(), next);
        if peer_with_id(next, prev.last().node_id) is None {
            p.push(prev.last().node_id)
        } else {
            p
        }
    }
}

/// Every id is smaller than those behind it.
pub open spec fn peers_ascend(s: Seq<PeerView>) -> bool {
    forall|i: int, j: int|
        0 <= i < j < s.len() ==> (#[trigger] s[i]).node_id < (#[trigger] s[j]).node_id
}

/// A view as a map from ids.
pub open spec fn peer_map(s: Seq<PeerView>) -> Map<NodeId, PeerView> {
    Map::new(|id: NodeId| peer_with_id(s, id) is Some, |id: NodeId| peer_with_id(s, id)->0)
}

/// A view after a change was applied: what changed replaces what was there,
/// what was removed is forgotten.
pub open spec fn patched(
    view: Map<NodeId, PeerView>,
    changed: Seq<PeerView>,
    removed: Seq<NodeId>,
) -> Map<NodeId, PeerView> {
    Map::new(
        |id: NodeId|
            peer_with_id(changed, id) is Some || (view.dom().contains(id) && !removed.contains(id)),
        |id: NodeId|
            match peer_with_id(changed, id) {
                Some(p) => p,
                None => view[id],
            },
    )
}

proof fn lemma_peer_with_id(s: Seq<PeerView>, id: NodeId)
    ensures
        match peer_with_id(s, id) {
            Some(p) => p.node_id == id && s.contains(p),
            None => forall|i: int| 0 <= i < s.len() ==> (#[trigger] s[i]).node_id != id,
        },
    decreases s.len(),
{
    if s.len() > 0 {
        let d = s.drop_last();
        lemma_peer_with_id(d, id);
        assert forall|i: int| 0 <= i < d.len() implies #[trigger] s[i] == d[i] by {}
        if let Some(p) = peer_with_id(d, id) {
            let k = choose|k: int| 0 <= k < d.len() && d[k] == p;
            assert(s[k] == p);
        }
        assert(s[s.len() - 1] == s.last());
    }
}

proof fn lemma_peer_at(s: Seq<PeerView>, i: int)
    requires
        peers_ascend(s),
        0 <= i < s.len(),
    ensures
        peer_with_id(s, s[i].node_id) == Some(s[i]),
{
    lemma_peer_with_id(s, s[i].node_id);
    let p = peer_with_id(s, s[i].node_id)->0;
    let k = choose|k: int| 0 <= k < s.len() && s[k] == p;
    if k < i {
        assert(s[k].node_id < s[i].node_id);
    } else if i < k {
        assert(s[i].node_id < s[k].node_id);
    }
}

proof fn lemma_changed(prev: Seq<PeerView>, next: Seq<PeerView>)
    requires
        peers_ascend(next),
    ensures
        peers_ascend(changed_peers(prev, next)),
        forall|p: PeerView| #[trigger]
            changed_peers(prev, next).contains(p) <==> next.contains(p) && peer_with_id(
                prev,
                p.node_id,
            ) != Some(p),
    decreases next.len(),
{
    if next.len() > 0 {
        let d = next.drop_last();
        assert(peers_ascend(d)) by {
            assert forall|i: int, j: int| 0 <= i < j < d.len() implies (#[trigger] d[i]).node_id < (
            #[trigger] d[j]).node_id by {
                assert(d[i] == next[i] && d[j] == next[j]);
            }
        }
        lemma_changed(prev, d);
        let c = changed_peers(prev, d);
        let r = changed_peers(prev, next);
        let x = next.last();
        assert forall|p: PeerView| #[trigger] r.contains(p) <==> next.contains(p) && peer_with_id(
            prev,
            p.node_id,
        ) != Some(p) by {
            if r.contains(p) {
                let k = choose|k: int| 0 <= k < r.len() && r[k] == p;
                if k < c.len() {
                    assert(c[k] == p);
                    assert(c.contains(p));
                    let m = choose|m: int| 0 <= m < d.len() && d[m] == p;
                    assert(next[m] == p);
                } else {
                    assert(next[next.len() - 1] == p);
                }
            }
            if next.contains(p) && peer_with_id(prev, p.node_id) != Some(p) {
                let m = choose|m: int| 0 <= m < next.len() && next[m] == p;
                if m < d.len() {
                    assert(d[m] == p);
                    assert(c.contains(p));
                    let k = choose|k: int| 0 <= k < c.len() && c[k] == p;
                    assert(r[k] == p);
                } else {
                    assert(r[c.len() as int] == p);
                }
            }
        }
        assert forall|i: int, j: int| 0 <= i < j < r.len() implies (#[trigger] r[i]).node_id < (
        #[trigger] r[j]).node_id by {
            assert(r[i] == c[i]);
            if j < c.len() {
                assert(r[j] == c[j]);
            } else {
                assert(c.contains(c[i]));
                let m = choose|m: int| 0 <= m < d.len() && d[m] == c[i];
                assert(next[m] == d[m] && next[next.len() - 1] == x);
            }
        }
    }
}

/// What is removed is what was there and is no longer.
pub proof fn lemma_removed(prev: Seq<PeerView>, next: Seq<PeerView>)
    ensures
        forall|id: NodeId| #[trigger]
            removed_peers(prev, next).contains(id) <==> peer_with_id(prev, id) is Some
                && peer_with_id(next, id) is None,
    decreases prev.len(),
{
    if prev.len() > 0 {
        let d = prev.drop_last();
        lemma_removed(d, next);
        let c = removed_peers(d, next);
        let r = removed_peers(prev, next);
        assert forall|id: NodeId| #[trigger] r.contains(id) <==> peer_with_id(prev, id) is Some
            && peer_with_id(next, id) is None by {
            if r.contains(id) {
                let k = choose|k: int| 0 <= k < r.len() && r[k] == id;
                if k < c.len() {
                    assert(c[k] == id);
                    assert(c.contains(id));
                }
            }
            if peer_with_id(prev, id) is Some && peer_with_id(next, id) is None {
                if peer_with_id(d, id) is Some {
                    assert(c.contains(id));
                    let k = choose|k: int| 0 <= k < c.len() && c[k] == id;
                    assert(r[k] == id);
                } else {
                    assert(r[c.len() as int] == id);
                }
            }
        }
    }
}

/// Applying a delta to the view it was made against gives the new view.
pub proof fn law_a_delta_carries_the_old_view_to_the_new_one(
    prev: Seq<PeerView>,
    next: Seq<PeerView>,
)
    requires
        peers_ascend(next),
    ensures
        patched(peer_map(prev), changed_peers(prev, next), removed_peers(prev, next)) == peer_map(
            next,
        ),
{
    let changed = changed_peers(prev, next);
    let removed = removed_peers(prev, next);
    lemma_changed(prev, next);
    lemma_removed(prev, next);
    assert forall|id: NodeId|
        #![trigger peer_with_id(next, id)]
        match peer_with_id(changed, id) {
            Some(p) => peer_with_id(next, id) == Some(p),
            None => if peer_with_id(prev, id) is Some && !removed.contains(id) {
                peer_with_id(next, id) == peer_with_id(prev, id)
            } else {
                peer_with_id(next, id) is None
            },
        } by {
        lemma_peer_with_id(changed, id);
        lemma_peer_with_id(next, id);
        match peer_with_id(changed, id) {
            Some(p) => {
                assert(next.contains(p));
                let k = choose|k: int| 0 <= k < next.len() && next[k] == p;
                lemma_peer_at(next, k);
            },
            None => {
                if let Some(q) = peer_with_id(next, id) {
                    if peer_with_id(prev, id) != Some(q) {
                        assert(changed.contains(q));
                        let k = choose|k: int| 0 <= k < changed.len() && changed[k] == q;
                    }
                }
            },
        }
    }
    assert(patched(peer_map(prev), changed, removed) =~= peer_map(next));
}

/// A view that did not change makes an empty delta, and an empty delta means
/// that the view did not change.
pub proof fn law_an_empty_delta_means_no_change(prev: Seq<PeerView>, next: Seq<PeerView>)
    requires
        peers_ascend(prev),
        peers_ascend(next),
    ensures
        (changed_peers(prev, next).len() == 0 && removed_peers(prev, next).len() == 0) <==> prev
            == next,
{
    let changed = changed_peers(prev, next);
    let removed = removed_peers(prev, next);
    lemma_changed(prev, next);
    lemma_removed(prev, next);
    if prev == next {
        if changed.len() > 0 {
            let p = changed[0];
            assert(changed.contains(p));
            let k = choose|k: int| 0 <= k < next.len() && next[k] == p;
            lemma_peer_at(next, k);
        }
        if removed.len() > 0 {
            assert(removed.contains(removed[0]));
        }
    }
    if changed.len() == 0 && removed.len() == 0 {
        assert forall|i: int| 0 <= i < next.len() implies prev.contains(#[trigger] next[i]) by {
            let p = next[i];
            assert(next.contains(p));
            if peer_with_id(prev, p.node_id) != Some(p) {
                assert(changed.contains(p));
            }
            lemma_peer_with_id(prev, p.node_id);
        }
        assert forall|i: int| 0 <= i < prev.len() implies next.contains(#[trigger] prev[i]) by {
            let p = prev[i];
            lemma_peer_at(prev, i);
            if peer_with_id(next, p.node_id) is None {
                assert(removed.contains(p.node_id));
            }
            lemma_peer_with_id(next, p.node_id);
            let q = peer_with_id(next, p.node_id)->0;
            assert(next.contains(q));
            if Some(q) != peer_with_id(prev, q.node_id) {
                assert(changed.contains(q));
            }
        }
        lemma_same_ascending(prev, next);
    }
}

proof fn lemma_same_ascending(a: Seq<PeerView>, b: Seq<PeerView>)
    requires
        peers_ascend(a),
        peers_ascend(b),
        forall|i: int| 0 <= i < a.len() ==> b.contains(#[trigger] a[i]),
        forall|i: int| 0 <= i < b.len() ==> a.contains(#[trigger] b[i]),
    ensures
        a == b,
    decreases a.len(),
{
    if a.len() == 0 {
        if b.len() > 0 {
            assert(a.contains(b[0]));
        }
        assert(a =~= b);
    } else {
        assert(b.contains(a[0]));
        let x = a.last();
        let y = b.last();
        // The last entries have the highest id of both.
        assert(x == y) by {
            assert(a[a.len() - 1] == x && b[b.len() - 1] == y);
            assert(b.contains(x));
            assert(a.contains(y));
            let i = choose|i: int| 0 <= i < b.len() && b[i] == x;
            let j = choose|j: int| 0 <= j < a.len() && a[j] == y;
            if i < b.len() - 1 {
                assert(b[i].node_id < b[b.len() - 1].node_id);
                if j < a.len() - 1 {
                    assert(a[j].node_id < a[a.len() - 1].node_id);
                }
            }
        }
        let c = a.drop_last();
        let d = b.drop_last();
        assert forall|i: int| 0 <= i < c.len() implies d.contains(#[trigger] c[i]) by {
            assert(c[i] == a[i]);
            assert(b.contains(a[i]));
            let k = choose|k: int| 0 <= k < b.len() && b[k] == a[i];
            assert(a[i].node_id < a[a.len() - 1].node_id);
            assert(d[k] == c[i]);
        }
        assert forall|i: int| 0 <= i < d.len() implies c.contains(#[trigger] d[i]) by {
            assert(d[i] == b[i]);
            assert(a.contains(b[i]));
            let k = choose|k: int| 0 <= k < a.len() && a[k] == b[i];
            assert(b[i].node_id < b[b.len() - 1].node_id);
            assert(c[k] == d[i]);
        }
        lemma_same_ascending(c, d);
        assert(a =~= c.push(x));
        assert(b =~= d.push(y));
    }
}

/// No prefix stands twice in a table.
pub open spec fn distinct_cidrs(table: Seq<(IpNet, Seq<Registrant>)>) -> bool {
    forall|i: int, j: int|
        0 <= i < j < table.len() ==> (#[trigger] table[i]).0 != (#[trigger] table[j]).0
}

/// What [`owner_of`] gives stands in the list; what it does not give stands
/// nowhere.
pub proof fn lemma_owner_of(s: Seq<(IpNet, Seq<char>)>, cidr: IpNet)
    ensures
        match owner_of(s, cidr) {
            Some(o) => exists|i: int| 0 <= i < s.len() && #[trigger] s[i] == (cidr, o),
            None => forall|i: int| 0 <= i < s.len() ==> (#[trigger] s[i]).0 != cidr,
        },
    decreases s.len(),
{
    if s.len() > 0 {
        let d = s.drop_last();
        lemma_owner_of(d, cidr);
        assert forall|i: int| 0 <= i < d.len() implies #[trigger] s[i] == d[i] by {}
        match owner_of(d, cidr) {
            Some(o) => {
                let i = choose|i: int| 0 <= i < d.len() && #[trigger] d[i] == (cidr, o);
                assert(s[i] == (cidr, o));
            },
            None => {
                if s.last().0 == cidr {
                    assert(s[s.len() - 1] == (cidr, s.last().1));
                }
            },
        }
    }
}

proof fn lemma_next_owners(
    table: Seq<(IpNet, Seq<Registrant>)>,
    members: Seq<RecordView>,
    current: Seq<(IpNet, Seq<char>)>,
    online: Map<Seq<char>, u64>,
    hold_down: u64,
    now: u64,
)
    requires
        distinct_cidrs(table),
    ensures
        ({
            let next = next_owners(table, members, current, online, hold_down, now);
            &&& forall|i: int|
                0 <= i < table.len() ==> owner_of(next, (#[trigger] table[i]).0) == next_owner(
                    standing(members, table[i].1, owner_of(current, table[i].0)),
                    oldest_live(members, online, table[i].1),
                    online,
                    hold_down,
                    now,
                )
            &&& forall|k: int|
                0 <= k < next.len() ==> exists|i: int|
                    0 <= i < table.len() && (#[trigger] table[i]).0 == (#[trigger] next[k]).0
            &&& forall|a: int, b: int|
                0 <= a < b < next.len() ==> (#[trigger] next[a]).0 != (#[trigger] next[b]).0
        }),
    decreases table.len(),
{
    if table.len() > 0 {
        let d = table.drop_last();
        assert forall|i: int| 0 <= i < d.len() implies #[trigger] table[i] == d[i] by {}
        lemma_next_owners(d, members, current, online, hold_down, now);
        let p = next_owners(d, members, current, online, hold_down, now);
        let next = next_owners(table, members, current, online, hold_down, now);
        let (cidr, regs) = table.last();
        assert(table[table.len() - 1] == table.last());
        assert forall|k: int| 0 <= k < p.len() implies (#[trigger] p[k]).0 != cidr by {
            let i = choose|i: int| 0 <= i < d.len() && (#[trigger] d[i]).0 == p[k].0;
            assert(table[i] == d[i]);
        }
        lemma_owner_of(p, cidr);
        assert(owner_of(p, cidr) is None) by {
            if let Some(o) = owner_of(p, cidr) {
                let i = choose|i: int| 0 <= i < p.len() && #[trigger] p[i] == (cidr, o);
            }
        }
        if next.len() > p.len() {
            assert(next.drop_last() =~= p);
            assert forall|i: int| 0 <= i < d.len() implies owner_of(next, (#[trigger] table[i]).0)
                == owner_of(p, d[i].0) by {
                assert(table[i].0 != cidr);
            }
        }
        assert forall|k: int| 0 <= k < next.len() implies exists|i: int|
            0 <= i < table.len() && (#[trigger] table[i]).0 == (#[trigger] next[k]).0 by {
            if k < p.len() {
                assert(next[k] == p[k]);
                let i = choose|i: int| 0 <= i < d.len() && (#[trigger] d[i]).0 == p[k].0;
                assert(table[i].0 == next[k].0);
            } else {
                assert(table[table.len() - 1].0 == next[k].0);
            }
        }
        assert forall|a: int, b: int| 0 <= a < b < next.len() implies (#[trigger] next[a]).0 != (
        #[trigger] next[b]).0 by {
            assert(next[a] == p[a]);
            if b < p.len() {
                assert(next[b] == p[b]);
            }
        }
    }
}

proof fn lemma_oldest_live(
    members: Seq<RecordView>,
    online: Map<Seq<char>, u64>,
    regs: Seq<Registrant>,
)
    ensures
        match oldest_live(members, online, regs) {
            Some(n) => online.dom().contains(n) && exists|i: int|
                0 <= i < regs.len() && n == name_of(members, (#[trigger] regs[i]).0) && forall|
                    j: int,
                |
                    0 <= j < i ==> !online.dom().contains(
                        name_of(members, (#[trigger] regs[j]).0),
                    ),
            None => forall|i: int|
                0 <= i < regs.len() ==> !online.dom().contains(
                    name_of(members, (#[trigger] regs[i]).0),
                ),
        },
    decreases regs.len(),
{
    if regs.len() > 0 && !online.dom().contains(name_of(members, regs[0].0)) {
        let d = regs.drop_first();
        lemma_oldest_live(members, online, d);
        assert forall|i: int| 0 < i < regs.len() implies #[trigger] regs[i] == d[i - 1] by {}
        if let Some(n) = oldest_live(members, online, d) {
            let i = choose|i: int|
                0 <= i < d.len() && n == name_of(members, (#[trigger] d[i]).0) && forall|j: int|
                    0 <= j < i ==> !online.dom().contains(name_of(members, (#[trigger] d[j]).0));
            assert(n == name_of(members, regs[i + 1].0));
            assert forall|j: int| 0 <= j < i + 1 implies !online.dom().contains(
                name_of(members, (#[trigger] regs[j]).0),
            ) by {
                if j > 0 {
                    assert(regs[j] == d[j - 1]);
                }
            }
        }
    }
}

/// A prefix is owned by a living member, by one at a time.
pub proof fn law_owners_are_alive_and_single(
    members: Seq<RecordView>,
    current: Seq<(IpNet, Seq<char>)>,
    online: Map<Seq<char>, u64>,
    hold_down: u64,
    now: u64,
)
    ensures
        ({
            let next = next_owners(
                owners_table(members),
                members,
                current,
                online,
                hold_down,
                now,
            );
            &&& forall|k: int|
                0 <= k < next.len() ==> online.dom().contains((#[trigger] next[k]).1)
            &&& forall|a: int, b: int|
                0 <= a < b < next.len() ==> (#[trigger] next[a]).0 != (#[trigger] next[b]).0
        }),
{
    let table = owners_table(members);
    let next = next_owners(table, members, current, online, hold_down, now);
    crate::owners::lemma_table_distinct(members);
    lemma_next_owners(table, members, current, online, hold_down, now);
    assert forall|k: int| 0 <= k < next.len() implies online.dom().contains(
        (#[trigger] next[k]).1,
    ) by {
        let i = choose|i: int| 0 <= i < table.len() && (#[trigger] table[i]).0 == next[k].0;
        lemma_oldest_live(members, online, table[i].1);
        lemma_owner_of(next, next[k].0);
        let o = owner_of(next, next[k].0)->0;
        let m = choose|m: int| 0 <= m < next.len() && #[trigger] next[m] == (next[k].0, o);
        if m < k {
            assert(next[m].0 != next[k].0);
        } else if k < m {
            assert(next[k].0 != next[m].0);
        }
    }
}

/// A member that is online, not disabled and registers the prefix itself.
pub open spec fn live_registrant(
    members: Seq<RecordView>,
    online: Map<Seq<char>, u64>,
    cidr: IpNet,
    name: Seq<char>,
) -> bool {
    online.dom().contains(name) && exists|i: int, j: int|
        0 <= i < members.len() && 0 <= j < members[i].routes.len() && members[i].name == name
            && !members[i].disabled && (#[trigger] members[i].routes[j]).cidr == cidr
}

/// Whoever owns a prefix is online, not disabled and registers the prefix;
/// and a prefix has an owner exactly when there is such a member.
pub proof fn law_owners_are_living_registrants(
    members: Seq<RecordView>,
    current: Seq<(IpNet, Seq<char>)>,
    online: Map<Seq<char>, u64>,
    hold_down: u64,
    now: u64,
    cidr: IpNet,
)
    requires
        ids_ascend(members),
    ensures
        match owner_of(
            next_owners(owners_table(members), members, current, online, hold_down, now),
            cidr,
        ) {
            Some(o) => live_registrant(members, online, cidr, o),
            None => forall|name: Seq<char>| !live_registrant(members, online, cidr, name),
        },
{
    let table = owners_table(members);
    let next = next_owners(table, members, current, online, hold_down, now);
    let regs = crate::owners::registrants(members, cidr);
    crate::owners::lemma_table_distinct(members);
    crate::owners::lemma_registrants(members, cidr);
    lemma_next_owners(table, members, current, online, hold_down, now);
    lemma_owner_of(next, cidr);
    lemma_oldest_live(members, online, regs);
    if let Some(o) = owner_of(next, cidr) {
        let k = choose|k: int| 0 <= k < next.len() && #[trigger] next[k] == (cidr, o);
        let t = choose|t: int| 0 <= t < table.len() && (#[trigger] table[t]).0 == next[k].0;
        assert(table[t] == (cidr, regs));
        assert(registers(members, regs, o));
        let m = choose|m: int|
            0 <= m < regs.len() && name_of(members, (#[trigger] regs[m]).0) == o;
        let y = regs[m];
        assert(regs.contains(y));
        let (i, j) = choose|i: int, j: int|
            0 <= i < members.len() && 0 <= j < members[i].routes.len() && !members[i].disabled
                && members[i].node_id == y.0 && #[trigger] members[i].routes[j] == (RouteReg {
                cidr,
                first_granted_unix: y.1,
            });
        crate::registry::lemma_id_index_is(members, y.0, i);
        assert(members[i].routes[j].cidr == cidr);
    } else {
        assert forall|name: Seq<char>| !live_registrant(members, online, cidr, name) by {
            if live_registrant(members, online, cidr, name) {
                let (i, j) = choose|i: int, j: int|
                    0 <= i < members.len() && 0 <= j < members[i].routes.len() && members[i].name
                        == name && !members[i].disabled && (#[trigger] members[i].routes[j]).cidr
                        == cidr;
                let y = (members[i].node_id, members[i].routes[j].first_granted_unix);
                assert(members[i].routes[j] == (RouteReg { cidr, first_granted_unix: y.1 }));
                assert(crate::owners::is_registered(members, cidr, y));
                assert(regs.contains(y));
                crate::registry::lemma_id_index_is(members, y.0, i);
                let m = choose|m: int| 0 <= m < regs.len() && regs[m] == y;
                assert(name_of(members, regs[m].0) == name);
                crate::owners::lemma_table_holds(members, cidr, y);
                let t = choose|t: int| 0 <= t < table.len() && (#[trigger] table[t]).0 == cidr;
                assert(table[t] == (cidr, regs));
            }
        }
    }
}

/// The registration `(a, b)` is that of a member which is online and not
/// disabled, and none such is older; of two of the same age the lower id
/// counts as older.
pub open spec fn is_oldest_living(
    members: Seq<RecordView>,
    online: Map<Seq<char>, u64>,
    a: int,
    b: int,
) -> bool {
    &&& 0 <= a < members.len()
    &&& 0 <= b < members[a].routes.len()
    &&& !members[a].disabled
    &&& online.dom().contains(members[a].name)
    &&& forall|i: int, j: int|
        0 <= i < members.len() && 0 <= j < members[i].routes.len() && !members[i].disabled
            && online.dom().contains(members[i].name) && (#[trigger] members[i].routes[j]).cidr
            == members[a].routes[b].cidr ==> members[a].routes[b].first_granted_unix
            < members[i].routes[j].first_granted_unix || (
        members[a].routes[b].first_granted_unix == members[i].routes[j].first_granted_unix
            && members[a].node_id <= members[i].node_id)
}

proof fn lemma_oldest_is_first(
    members: Seq<RecordView>,
    online: Map<Seq<char>, u64>,
    a: int,
    b: int,
)
    requires
        ids_ascend(members),
        is_oldest_living(members, online, a, b),
    ensures
        oldest_live(
            members,
            online,
            crate::owners::registrants(members, members[a].routes[b].cidr),
        ) == Some(members[a].name),
{
    let cidr = members[a].routes[b].cidr;
    let regs = crate::owners::registrants(members, cidr);
    let y = (members[a].node_id, members[a].routes[b].first_granted_unix);
    crate::owners::law_registrants_are_age_ordered(members, cidr);
    assert(regs.contains(y));
    let p = choose|p: int| 0 <= p < regs.len() && regs[p] == y;
    crate::registry::lemma_id_index_is(members, y.0, a);
    assert(name_of(members, regs[p].0) == members[a].name);
    lemma_oldest_live(members, online, regs);
    let n = oldest_live(members, online, regs)->0;
    let m = choose|m: int|
        0 <= m < regs.len() && n == name_of(members, (#[trigger] regs[m]).0) && forall|j: int|
            0 <= j < m ==> !online.dom().contains(name_of(members, (#[trigger] regs[j]).0));
    assert(regs.contains(regs[m]));
    let (i, j) = choose|i: int, j: int|
        0 <= i < members.len() && 0 <= j < members[i].routes.len() && !members[i].disabled
            && members[i].node_id == regs[m].0 && (
        #[trigger] members[i].routes[j]).first_granted_unix == regs[m].1
            && members[i].routes[j].cidr == cidr;
    crate::registry::lemma_id_index_is(members, regs[m].0, i);
    assert(members[i].name == n);
    if m < p {
        assert(regs[m].1 <= regs[p].1);
        assert(members[i].routes[j].cidr == cidr);
        assert(members[i].node_id == members[a].node_id);
        if i < a {
            assert(members[i].node_id < members[a].node_id);
        } else if a < i {
            assert(members[a].node_id < members[i].node_id);
        }
    }
}

/// Who owns a prefix that some living member registered. The owner so far
/// keeps it while it lives, still registers it, and the oldest living
/// registration belongs to a member that has not been back for the hold-down;
/// otherwise the oldest living registration takes it. Age is the time of the
/// grant.
pub proof fn law_the_oldest_living_registration_owns(
    before: Directory,
    after: Directory,
    cfg: NetworkView,
    reg: RegistryView,
    now: u64,
    r: Option<MembershipDelta>,
    a: int,
    b: int,
    c: int,
)
    requires
        reg.wf(),
        recomputed(before, after, cfg, reg, now, r),
        is_oldest_living(reg.members, before.online_since@, a, b),
        forall|x: int, y: int|
            0 <= x < y < before.owners@.len() ==> (#[trigger] before.owners@[x]).cidr != (
            #[trigger] before.owners@[y]).cidr,
        if 0 <= c < before.owners@.len() {
            before.owners@[c].cidr == reg.members[a].routes[b].cidr
        } else {
            forall|x: int|
                0 <= x < before.owners@.len() ==> (#[trigger] before.owners@[x]).cidr
                    != reg.members[a].routes[b].cidr
        },
    ensures
        ({
            let cidr = reg.members[a].routes[b].cidr;
            let oldest = reg.members[a].name;
            let online = before.online_since@;
            let kept = 0 <= c < before.owners@.len() && {
                let cur = before.owners@[c].owner@;
                &&& online.dom().contains(cur)
                &&& exists|i: int, j: int|
                    0 <= i < reg.members.len() && 0 <= j < reg.members[i].routes.len()
                        && reg.members[i].name == cur && !reg.members[i].disabled && (
                    #[trigger] reg.members[i].routes[j]).cidr == cidr
                &&& before.hold_down_secs > 0
                &&& now - online[oldest] < before.hold_down_secs
            };
            exists|k: int|
                0 <= k < after.owners@.len() && (#[trigger] after.owners@[k]).cidr == cidr
                    && after.owners@[k].owner@ == if kept {
                    before.owners@[c].owner@
                } else {
                    oldest
                }
        }),
        forall|x: int, y: int|
            0 <= x < y < after.owners@.len() ==> (#[trigger] after.owners@[x]).cidr != (
            #[trigger] after.owners@[y]).cidr,
{
    let members = reg.members;
    let cidr = members[a].routes[b].cidr;
    let online = before.online_since@;
    let current = owner_views(before.owners@);
    let table = owners_table(members);
    let next = next_owners(table, members, current, online, before.hold_down_secs, now);
    let regs = crate::owners::registrants(members, cidr);
    assert(next == owner_views(after.owners@));
    lemma_oldest_is_first(members, online, a, b);
    crate::owners::lemma_table_distinct(members);
    crate::owners::law_the_table_holds_every_registered_prefix(members, cidr);
    lemma_next_owners(table, members, current, online, before.hold_down_secs, now);
    assert(members[a].routes[b].cidr == cidr);
    let t = choose|t: int| 0 <= t < table.len() && (#[trigger] table[t]).0 == cidr;
    assert(table[t] == (cidr, regs));
    lemma_owner_of(current, cidr);
    lemma_owner_of(next, cidr);
    let o = owner_of(next, cidr)->0;
    if 0 <= c < before.owners@.len() {
        assert(current[c] == (cidr, before.owners@[c].owner@));
        let cur = owner_of(current, cidr)->0;
        let x = choose|x: int| 0 <= x < current.len() && #[trigger] current[x] == (cidr, cur);
        assert(before.owners@[x].cidr == cidr);
        assert(x == c);
        crate::owners::law_registrants_are_age_ordered(members, cidr);
        if registers(members, regs, cur) {
            let m = choose|m: int|
                0 <= m < regs.len() && name_of(members, (#[trigger] regs[m]).0) == cur;
            assert(regs.contains(regs[m]));
            let (i, j) = choose|i: int, j: int|
                0 <= i < members.len() && 0 <= j < members[i].routes.len() && !members[i].disabled
                    && members[i].node_id == regs[m].0 && (
                #[trigger] members[i].routes[j]).first_granted_unix == regs[m].1
                    && members[i].routes[j].cidr == cidr;
            crate::registry::lemma_id_index_is(members, regs[m].0, i);
            assert(members[i].name == cur && members[i].routes[j].cidr == cidr);
        }
        if exists|i: int, j: int|
            0 <= i < members.len() && 0 <= j < members[i].routes.len() && members[i].name == cur
                && !members[i].disabled && (#[trigger] members[i].routes[j]).cidr == cidr {
            let (i, j) = choose|i: int, j: int|
                0 <= i < members.len() && 0 <= j < members[i].routes.len() && members[i].name == cur
                    && !members[i].disabled && (#[trigger] members[i].routes[j]).cidr == cidr;
            let y = (members[i].node_id, members[i].routes[j].first_granted_unix);
            assert(regs.contains(y));
            let m = choose|m: int| 0 <= m < regs.len() && regs[m] == y;
            crate::registry::lemma_id_index_is(members, y.0, i);
            assert(name_of(members, regs[m].0) == cur);
        }
    } else if let Some(cur) = owner_of(current, cidr) {
        let x = choose|x: int| 0 <= x < current.len() && #[trigger] current[x] == (cidr, cur);
        assert(before.owners@[x].cidr == cidr);
    }
    let k = choose|k: int| 0 <= k < next.len() && #[trigger] next[k] == (cidr, o);
    assert(after.owners@[k].cidr == cidr && after.owners@[k].owner@ == o);
    assert forall|x: int, y: int| 0 <= x < y < after.owners@.len() implies (
    #[trigger] after.owners@[x]).cidr != (#[trigger] after.owners@[y]).cidr by {
        assert(next[x].0 != next[y].0);
    }
}

/// Nobody else owns a prefix: whoever owns one is online, is not disabled and
/// registers that prefix itself.
pub proof fn law_only_living_registrants_own(
    before: Directory,
    after: Directory,
    cfg: NetworkView,
    reg: RegistryView,
    now: u64,
    r: Option<MembershipDelta>,
    k: int,
)
    requires
        reg.wf(),
        recomputed(before, after, cfg, reg, now, r),
        0 <= k < after.owners@.len(),
    ensures
        before.online_since@.dom().contains(after.owners@[k].owner@),
        exists|i: int, j: int|
            0 <= i < reg.members.len() && 0 <= j < reg.members[i].routes.len()
                && reg.members[i].name == after.owners@[k].owner@ && !reg.members[i].disabled && (
            #[trigger] reg.members[i].routes[j]).cidr == after.owners@[k].cidr,
{
    let online = before.online_since@;
    let current = owner_views(before.owners@);
    let next = next_owners(
        owners_table(reg.members),
        reg.members,
        current,
        online,
        before.hold_down_secs,
        now,
    );
    assert(next == owner_views(after.owners@));
    let cidr = after.owners@[k].cidr;
    assert(next[k] == (cidr, after.owners@[k].owner@));
    law_owners_are_living_registrants(
        reg.members,
        current,
        online,
        before.hold_down_secs,
        now,
        cidr,
    );
    law_owners_are_alive_and_single(reg.members, current, online, before.hold_down_secs, now);
    lemma_owner_of(next, cidr);
    let o = owner_of(next, cidr)->0;
    let m = choose|m: int| 0 <= m < next.len() && #[trigger] next[m] == (cidr, o);
    if m < k {
        assert(next[m].0 != next[k].0);
    } else if k < m {
        assert(next[k].0 != next[m].0);
    }
}

/// When the owner of a prefix is not alive, the oldest living registrant
/// takes over at once, whatever the hold-down.
pub proof fn law_death_fails_over_at_once(
    current: Option<Seq<char>>,
    best: Option<Seq<char>>,
    online: Map<Seq<char>, u64>,
    hold_down: u64,
    now: u64,
)
    requires
        current matches Some(cur) ==> !online.dom().contains(cur),
    ensures
        next_owner(current, best, online, hold_down, now) == best,
{
}

/// A better registrant that came back reclaims the prefix from a living
/// owner exactly when it has been online for the hold-down.
pub proof fn law_a_returning_owner_waits_out_the_hold_down(
    cur: Seq<char>,
    best: Seq<char>,
    online: Map<Seq<char>, u64>,
    hold_down: u64,
    now: u64,
)
    requires
        cur != best,
        online.dom().contains(cur),
        online.dom().contains(best),
        hold_down > 0,
    ensures
        next_owner(Some(cur), Some(best), online, hold_down, now) == Some(best) <==> now
            - online[best] >= hold_down,
        next_owner(Some(cur), Some(best), online, hold_down, now) == Some(cur) <==> now
            - online[best] < hold_down,
{
}

/// Resolving owners again at the same time changes nothing.
pub proof fn law_resolving_twice_changes_nothing(
    members: Seq<RecordView>,
    current: Seq<(IpNet, Seq<char>)>,
    online: Map<Seq<char>, u64>,
    hold_down: u64,
    now: u64,
)
    ensures
        ({
            let t = owners_table(members);
            let once = next_owners(t, members, current, online, hold_down, now);
            next_owners(t, members, once, online, hold_down, now) == once
        }),
{
    let t = owners_table(members);
    let once = next_owners(t, members, current, online, hold_down, now);
    crate::owners::lemma_table_distinct(members);
    lemma_next_owners(t, members, current, online, hold_down, now);
    lemma_resolve_prefix(t, t.len() as int, members, current, once, online, hold_down, now);
    assert(t.take(t.len() as int) =~= t);
}

proof fn lemma_resolve_prefix(
    t: Seq<(IpNet, Seq<Registrant>)>,
    n: int,
    members: Seq<RecordView>,
    current: Seq<(IpNet, Seq<char>)>,
    once: Seq<(IpNet, Seq<char>)>,
    online: Map<Seq<char>, u64>,
    hold_down: u64,
    now: u64,
)
    requires
        0 <= n <= t.len(),
        forall|i: int|
            0 <= i < t.len() ==> owner_of(once, (#[trigger] t[i]).0) == next_owner(
                standing(members, t[i].1, owner_of(current, t[i].0)),
                oldest_live(members, online, t[i].1),
                online,
                hold_down,
                now,
            ),
    ensures
        next_owners(t.take(n), members, once, online, hold_down, now) == next_owners(
            t.take(n),
            members,
            current,
            online,
            hold_down,
            now,
        ),
    decreases n,
{
    if n > 0 {
        lemma_resolve_prefix(t, n - 1, members, current, once, online, hold_down, now);
        assert(t.take(n).drop_last() =~= t.take(n - 1));
        assert(t.take(n).last() == t[n - 1]);
        lemma_oldest_live(members, online, t[n - 1].1);
    }
}

impl Directory {
    /// The maps are in order, the published view is in the order of the ids,
    /// and owned prefixes are valid.
    pub open spec fn wf(self) -> bool {
        &&& self.online_since.wf()
        &&& self.attachments.wf()
        &&& self.reachability.wf()
        &&& self.reported_mtu.wf()
        &&& self.traffic.wf()
        &&& self.exits.wf()
        &&& self.history.wf()
        &&& peers_ascend(peer_views(self.peers@))
        &&& forall|i: int|
            0 <= i < self.owners@.len() ==> (#[trigger] self.owners@[i]).cidr.valid()
    }

    /// A directory of a network that nobody joined.
    pub fn with_hold_down(hold_down_secs: u64) -> (r: Directory)
        ensures
            r.wf(),
            r.revision == 0,
            r.peers@ == Seq::<PeerInfo>::empty(),
            r.online_since@ == Map::<Seq<char>, u64>::empty(),
            r.owners@ == Seq::<OwnerEntry>::empty(),
            r.attachments@ == Map::<NodeId, NodeId>::empty(),
            r.attach_revision == 0,
            r.hold_down_secs == hold_down_secs,
            r.reachability@ == Map::<Seq<char>, Reachability>::empty(),
            r.reported_mtu@ == Map::<Seq<char>, u16>::empty(),
            r.reported_mtu.entries@ == Seq::<(String, u16)>::empty(),
            r.published_mtu is None,
            r.traffic@ == Map::<Seq<char>, TrafficSample>::empty(),
            r.exits@ == Map::<Seq<char>, ExitReadiness>::empty(),
            r.history.deltas@.len() == 0,
            r.history.limit == HISTORY_LIMIT,
    {
        Directory {
            revision: 0,
            peers: Vec::new(),
            online_since: NameMap::new(),
            owners: Vec::new(),
            attachments: IdMap::new(),
            attach_revision: 0,
            hold_down_secs,
            reachability: NameMap::new(),
            reported_mtu: NameMap::new(),
            published_mtu: None,
            traffic: NameMap::new(),
            exits: NameMap::new(),
            history: History::new(HISTORY_LIMIT),
        }
    }

    pub fn set_hold_down(&mut self, secs: u64)
        requires
            old(self).wf(),
        ensures
            final(self).wf(),
            *final(self) == (Directory { hold_down_secs: secs, ..*old(self) }),
    {
        self.hold_down_secs = secs;
    }

    /// A member's control connection opened or closed.
    pub fn set_online(&mut self, name: &str, online: bool, now: u64)
        requires
            old(self).wf(),
        ensures
            final(self).wf(),
            final(self).online_since@ == (if online {
                if old(self).online_since@.dom().contains(name@) {
                    old(self).online_since@
                } else {
                    old(self).online_since@.insert(name@, now)
                }
            } else {
                old(self).online_since@.remove(name@)
            }),
            *final(self) == (Directory {
                online_since: final(self).online_since,
                ..*old(self)
            }),
    {
        if online {
            if !self.online_since.contains_key(name) {
                self.online_since.insert(name.to_owned(), now);
            }
        } else {
            self.online_since.remove(name);
        }
    }

    /// Is the member online?
    pub fn is_online(&self, name: &str) -> (r: bool)
        requires
            self.wf(),
        ensures
            r == self.online_since@.dom().contains(name@),
    {
        self.online_since.contains_key(name)
    }

    /// Who owns a prefix.
    pub fn owner(&self, cidr: &IpNet) -> (r: Option<String>)
        ensures
            opt_text(r) == owner_of(owner_views(self.owners@), *cidr),
    {
        find_owner(&self.owners, cidr)
    }

    /// The first registrant of a list that is online.
    fn first_live(&self, reg: &Registry, regs: &Vec<Registrant>) -> (r: Option<String>)
        requires
            self.wf(),
        ensures
            opt_text(r) == oldest_live(reg@.members, self.online_since@, regs@),
    {
        let mut i: usize = 0;
        assert(regs@.skip(0) =~= regs@);
        while i < regs.len()
            invariant
                i <= regs@.len(),
                self.wf(),
                oldest_live(reg@.members, self.online_since@, regs@) == oldest_live(
                    reg@.members,
                    self.online_since@,
                    regs@.skip(i as int),
                ),
            decreases regs.len() - i,
        {
            let name = match reg.by_id(regs[i].0) {
                Some(rec) => rec.name.clone(),
                None => String::new(),
            };
            assert(name@ =~= name_of(reg@.members, regs@[i as int].0));
            if self.is_online(name.as_str()) {
                return Some(name);
            }
            assert(regs@.skip(i as int).drop_first() =~= regs@.skip(i + 1));
            i = i + 1;
        }
        None
    }

    /// Ownership by age over living registrants, with hold-down.
    fn resolve_owners(&mut self, reg: &Registry, now: u64)
        requires
            old(self).wf(),
            reg@.wf(),
        ensures
            final(self).wf(),
            owner_views(final(self).owners@) == next_owners(
                owners_table(reg@.members),
                reg@.members,
                owner_views(old(self).owners@),
                old(self).online_since@,
                old(self).hold_down_secs,
                now,
            ),
            *final(self) == (Directory { owners: final(self).owners, ..*old(self) }),
    {
        let table = reg.resolve_owners();
        let ghost t = owners_table(reg@.members);
        assert(table_view(table@) == t);
        assert(t.len() == table@.len()) by {
            assert(table_view(table@).len() == table@.len());
        }
        let ghost current = owner_views(self.owners@);
        let mut next: Vec<OwnerEntry> = Vec::new();
        let mut i: usize = 0;
        assert(owner_views(next@) =~= Seq::empty());
        assert(t.take(0) =~= Seq::empty());
        while i < table.len()
            invariant
                i <= table@.len(),
                self.wf(),
                *self == *old(self),
                t.len() == table@.len(),
                t == table_view(table@),
                current == owner_views(self.owners@),
                forall|k: int| 0 <= k < table@.len() ==> (#[trigger] table@[k]).0.valid(),
                forall|k: int| 0 <= k < next@.len() ==> (#[trigger] next@[k]).cidr.valid(),
                owner_views(next@) == next_owners(
                    t.take(i as int),
                    reg@.members,
                    current,
                    self.online_since@,
                    self.hold_down_secs,
                    now,
                ),
            decreases table.len() - i,
        {
            let cidr = table[i].0;
            assert(t[i as int] == (cidr, table@[i as int].1@));
            let best = self.first_live(reg, &table[i].1);
            let cur = self.owner(&cidr);
            let owner = match best {
                None => None,
                Some(b) => match cur {
                    None => Some(b),
                    Some(c) => {
                        let since: u64 = match self.online_since.get(b.as_str()) {
                            Some(s) => *s,
                            None => 0,
                        };
                        if !str_eq(c.as_str(), b.as_str()) && self.is_online(c.as_str())
                            && is_registrant(reg, &table[i].1, c.as_str())
                            && now.saturating_sub(since) < self.hold_down_secs {
                            Some(c)
                        } else {
                            Some(b)
                        }
                    },
                },
            };
            assert(opt_text(owner) == next_owner(
                standing(reg@.members, t[i as int].1, owner_of(current, cidr)),
                oldest_live(reg@.members, self.online_since@, t[i as int].1),
                self.online_since@,
                self.hold_down_secs,
                now,
            ));
            let ghost was = owner_views(next@);
            assert(t.take(i + 1).drop_last() =~= t.take(i as int));
            assert(t.take(i + 1).last() == t[i as int]);
            if let Some(o) = owner {
                let ghost text = o@;
                next.push(OwnerEntry { cidr, owner: o });
                assert(owner_views(next@) =~= was.push((cidr, text)));
            }
            i = i + 1;
        }
        assert(t.take(i as int) =~= t);
        self.owners = next;
    }
}

/// Is one of the registrants of this name?
fn is_registrant(reg: &Registry, regs: &Vec<Registrant>, name: &str) -> (r: bool)
    ensures
        r == registers(reg@.members, regs@, name@),
{
    let mut i: usize = 0;
    while i < regs.len()
        invariant
            i <= regs@.len(),
            forall|k: int|
                0 <= k < i ==> name_of(reg@.members, (#[trigger] regs@[k]).0) != name@,
        decreases regs.len() - i,
    {
        let found = match reg.by_id(regs[i].0) {
            Some(rec) => str_eq(rec.name.as_str(), name),
            None => {
                proof {
                    reveal_strlit("");
                    assert(""@ =~= Seq::<char>::empty());
                }
                str_eq(name, "")
            },
        };
        if found {
            assert(name_of(reg@.members, regs@[i as int].0) == name@);
            return true;
        }
        i = i + 1;
    }
    false
}

fn find_owner(owners: &Vec<OwnerEntry>, cidr: &IpNet) -> (r: Option<String>)
    ensures
        opt_text(r) == owner_of(owner_views(owners@), *cidr),
{
    let ghost v = owner_views(owners@);
    let mut found: Option<String> = None;
    let mut i: usize = 0;
    while i < owners.len()
        invariant
            i <= owners@.len(),
            v == owner_views(owners@),
            v.len() == owners@.len(),
            opt_text(found) == owner_of(v.take(i as int), *cidr),
        decreases owners.len() - i,
    {
        assert(v.take(i + 1).drop_last() =~= v.take(i as int));
        assert(v[i as int] == (owners@[i as int].cidr, owners@[i as int].owner@));
        if found.is_none() && owners[i].cidr == *cidr {
            found = Some(owners[i].owner.clone());
        }
        i = i + 1;
    }
    assert(v.take(i as int) =~= v);
    found
}

/// What the network is told of a member.
fn make_peer(
    rec: &MemberRecord,
    owners: &Vec<OwnerEntry>,
    online: &NameMap<u64>,
    exit: bool,
) -> (r: PeerInfo)
    requires
        online.wf(),
        forall|i: int| 0 <= i < owners@.len() ==> (#[trigger] owners@[i]).cidr.valid(),
    ensures
        r@ == peer_of(rec@, owner_views(owners@), online@, exit),
        all_valid(r.prefixes@),
{
    let mut raw: Vec<IpNet> = Vec::new();
    if let Some(ip) = rec.ip4 {
        raw.push(IpNet::host(IpAddr::V4(ip)));
    }
    if let Some(ip) = rec.ip6 {
        raw.push(IpNet::host(IpAddr::V6(ip)));
    }
    assert(raw@ =~= address_prefixes(rec@));
    let ghost v = owner_views(owners@);
    let ghost base = raw@;
    let mut i: usize = 0;
    while i < owners.len()
        invariant
            i <= owners@.len(),
            v == owner_views(owners@),
            v.len() == owners@.len(),
            forall|k: int| 0 <= k < owners@.len() ==> (#[trigger] owners@[k]).cidr.valid(),
            all_valid(raw@),
            raw@ == base + owned_by(v.take(i as int), rec.name@),
        decreases owners.len() - i,
    {
        assert(v.take(i + 1).drop_last() =~= v.take(i as int));
        assert(v[i as int] == (owners@[i as int].cidr, owners@[i as int].owner@));
        if str_eq(owners[i].owner.as_str(), rec.name.as_str()) {
            raw.push(owners[i].cidr);
        }
        assert(raw@ =~= base + owned_by(v.take(i + 1), rec.name@));
        i = i + 1;
    }
    assert(v.take(i as int) =~= v);
    let online_now = online.contains_key(rec.name.as_str());
    if exit && online_now {
        raw.push(IpNet { addr: IpAddr::V4(0), prefix_len: 0 });
        raw.push(IpNet { addr: IpAddr::V6(0), prefix_len: 0 });
    }
    assert(raw@ =~= base + owned_by(v, rec.name@) + exit_prefixes(rec.name@, online@, exit));
    let prefixes = sorted_by_text(&raw);
    let pubkey = match &rec.pubkey {
        Some(k) => k.clone(),
        None => String::new(),
    };
    PeerInfo {
        node_id: rec.node_id,
        name: rec.name.clone(),
        role: rec.role,
        prefixes,
        pubkey,
        online: online_now,
        login_gen: rec.login_gen,
    }
}

/// The entry with this id.
pub fn find_peer(peers: &Vec<PeerInfo>, id: NodeId) -> (r: Option<&PeerInfo>)
    ensures
        match r {
            Some(p) => peer_with_id(peer_views(peers@), id) == Some(p@),
            None => peer_with_id(peer_views(peers@), id) is None,
        },
{
    let ghost v = peer_views(peers@);
    let mut found: Option<&PeerInfo> = None;
    let mut i: usize = 0;
    while i < peers.len()
        invariant
            i <= peers@.len(),
            v == peer_views(peers@),
            v.len() == peers@.len(),
            match found {
                Some(p) => peer_with_id(v.take(i as int), id) == Some(p@),
                None => peer_with_id(v.take(i as int), id) is None,
            },
        decreases peers.len() - i,
    {
        assert(v.take(i + 1).drop_last() =~= v.take(i as int));
        assert(v[i as int] == peers@[i as int]@);
        if found.is_none() && peers[i].node_id == id {
            found = Some(&peers[i]);
        }
        i = i + 1;
    }
    assert(v.take(i as int) =~= v);
    found
}

impl Directory {
    /// What the network will be told of all members.
    pub open spec fn next_peers(self, cfg: NetworkView, reg: RegistryView, now: u64) -> Seq<
        PeerView,
    > {
        peers_of(
            reg.members,
            next_owners(
                owners_table(reg.members),
                reg.members,
                owner_views(self.owners@),
                self.online_since@,
                self.hold_down_secs,
                now,
            ),
            self.online_since@,
            cfg,
            self.exits@,
        )
    }

    /// Recompute the published view. Returns a delta if anything changed.
    pub fn recompute(&mut self, cfg: &NetworkConfig, reg: &Registry, now: u64) -> (r: Option<
        MembershipDelta,
    >)
        requires
            old(self).wf(),
            cfg.wf(),
            reg@.wf(),
            old(self).revision < u64::MAX,
        ensures
            final(self).wf(),
            recomputed(*old(self), *final(self), cfg@, reg@, now, r),
    {
        self.resolve_owners(reg, now);
        let ghost owners = owner_views(self.owners@);
        let ghost online = self.online_since@;
        let ghost goal = old(self).next_peers(cfg@, reg@, now);
        let ghost prev = peer_views(old(self).peers@);
        let mut next: Vec<PeerInfo> = Vec::new();
        let mut i: usize = 0;
        assert(peer_views(next@) =~= Seq::empty());
        while i < reg.members.len()
            invariant
                i <= reg.members@.len(),
                self.wf(),
                owners == owner_views(self.owners@),
                online == self.online_since@,
                cfg.wf(),
                goal == peers_of(reg@.members, owners, online, cfg@, self.exits@),
                peer_views(next@) == peers_of(
                    reg@.members.take(i as int),
                    owners,
                    online,
                    cfg@,
                    self.exits@,
                ),
            decreases reg.members.len() - i,
        {
            let ghost s = reg@.members;
            assert(s[i as int] == reg.members@[i as int]@);
            assert(s.take(i + 1).drop_last() =~= s.take(i as int));
            assert(s.take(i + 1).last() == s[i as int]);
            if reg.members[i].disabled {
                i = i + 1;
                continue;
            }
            let name = reg.members[i].name.as_str();
            let ready = match self.exits.get(name) {
                Some(x) => x.is_ready(),
                None => false,
            };
            let exit = ready && is_designated(cfg, name);
            let ghost was = peer_views(next@);
            let p = make_peer(&reg.members[i], &self.owners, &self.online_since, exit);
            let ghost pv = p@;
            next.push(p);
            assert(peer_views(next@) =~= was.push(pv));
            i = i + 1;
        }
        assert(reg@.members.take(i as int) =~= reg@.members);
        proof {
            lemma_peers_ascend(reg@.members, owners, online, cfg@, self.exits@);
        }

        let mut changed: Vec<PeerInfo> = Vec::new();
        let mut k: usize = 0;
        assert(peer_views(changed@) =~= Seq::empty());
        assert(goal.take(0) =~= Seq::empty());
        while k < next.len()
            invariant
                k <= next@.len(),
                peer_views(next@) == goal,
                goal.len() == next@.len(),
                prev == peer_views(self.peers@),
                peer_views(changed@) == changed_peers(prev, goal.take(k as int)),
            decreases next.len() - k,
        {
            assert(goal.take(k + 1).drop_last() =~= goal.take(k as int));
            assert(goal[k as int] == next@[k as int]@);
            let same = match find_peer(&self.peers, next[k].node_id) {
                Some(p) => p.same(&next[k]),
                None => false,
            };
            if !same {
                let ghost was = peer_views(changed@);
                let c = next[k].copy();
                let ghost cv = c@;
                changed.push(c);
                assert(peer_views(changed@) =~= was.push(cv));
            }
            k = k + 1;
        }
        assert(goal.take(k as int) =~= goal);

        let mut removed: Vec<NodeId> = Vec::new();
        let mut m: usize = 0;
        assert(prev.take(0) =~= Seq::empty());
        while m < self.peers.len()
            invariant
                m <= self.peers@.len(),
                peer_views(next@) == goal,
                prev == peer_views(self.peers@),
                prev.len() == self.peers@.len(),
                removed@ == removed_peers(prev.take(m as int), goal),
            decreases self.peers.len() - m,
        {
            assert(prev.take(m + 1).drop_last() =~= prev.take(m as int));
            assert(prev[m as int] == self.peers@[m as int]@);
            let id = self.peers[m].node_id;
            if find_peer(&next, id).is_none() {
                removed.push(id);
            }
            m = m + 1;
        }
        assert(prev.take(m as int) =~= prev);
        proof {
            law_an_empty_delta_means_no_change(prev, goal);
            assert(peer_views(changed@).len() == changed@.len());
        }
        if changed.len() == 0 && removed.len() == 0 {
            return None;
        }
        let base_rev = self.revision;
        self.revision = base_rev + 1;
        self.peers = next;
        Some(MembershipDelta { base_rev, new_rev: base_rev + 1, changed, removed })
    }
}

proof fn lemma_owned_by(s: Seq<(IpNet, Seq<char>)>, name: Seq<char>, n: IpNet)
    requires
        owned_by(s, name).contains(n),
    ensures
        exists|i: int| 0 <= i < s.len() && #[trigger] s[i] == (n, name),
    decreases s.len(),
{
    let p = owned_by(s.drop_last(), name);
    let k = choose|k: int| 0 <= k < owned_by(s, name).len() && owned_by(s, name)[k] == n;
    if k < p.len() {
        assert(p[k] == n);
        assert(p.contains(n));
        lemma_owned_by(s.drop_last(), name, n);
        let i = choose|i: int|
            0 <= i < s.drop_last().len() && #[trigger] s.drop_last()[i] == (n, name);
        assert(s[i] == (n, name));
    } else {
        assert(s[s.len() - 1] == (n, name));
    }
}

/// Where no default route is owned like a site, a member is told of with the
/// default routes exactly while it is online, the operator made it an exit
/// and its host reports that it is ready.
pub proof fn law_a_default_is_published_only_while_its_exit_is_ready(
    members: Seq<RecordView>,
    owners: Seq<(IpNet, Seq<char>)>,
    online: Map<Seq<char>, u64>,
    cfg: NetworkView,
    reports: Map<Seq<char>, ExitReadiness>,
    i: int,
    n: IpNet,
)
    requires
        0 <= i < peers_of(members, owners, online, cfg, reports).len(),
        forall|k: int| 0 <= k < owners.len() ==> (#[trigger] owners[k]).0.prefix_len > 0,
        n.prefix_len == 0,
    ensures
        ({
            let p = peers_of(members, owners, online, cfg, reports)[i];
            let exit = p.online && is_exit(cfg, reports, p.name);
            p.prefixes.contains(n) <==> exit && default_routes().contains(n)
        }),
{
    let j = lemma_told_of(members, owners, online, cfg, reports, i);
    let rec = members[j];
    let exit = is_exit(cfg, reports, rec.name);
    let a = address_prefixes(rec);
    let b = owned_by(owners, rec.name);
    let c = exit_prefixes(rec.name, online, exit);
    let all = a + b + c;
    lemma_sort_by_text_contains(all, n);
    if all.contains(n) {
        let k = choose|k: int| 0 <= k < all.len() && all[k] == n;
        if k < a.len() {
            assert(a[k] == n);
        } else if k < a.len() + b.len() {
            assert(b[k - a.len()] == n);
            assert(b.contains(n));
            lemma_owned_by(owners, rec.name, n);
            let j = choose|j: int| 0 <= j < owners.len() && #[trigger] owners[j] == (n, rec.name);
            assert(owners[j].0.prefix_len > 0);
        } else {
            assert(c[k - a.len() - b.len()] == n);
        }
    }
    if c.contains(n) {
        let k = choose|k: int| 0 <= k < c.len() && c[k] == n;
        assert(all[a.len() + b.len() + k] == n);
    }
}

proof fn lemma_owns(s: Seq<(IpNet, Seq<char>)>, name: Seq<char>, i: int)
    requires
        0 <= i < s.len(),
        s[i].1 == name,
    ensures
        owned_by(s, name).contains(s[i].0),
    decreases s.len(),
{
    let d = s.drop_last();
    let p = owned_by(d, name);
    let all = owned_by(s, name);
    if i < d.len() {
        lemma_owns(d, name, i);
        let k = choose|k: int| 0 <= k < p.len() && p[k] == s[i].0;
        assert(all[k] == s[i].0);
    } else {
        assert(all[p.len() as int] == s[i].0);
    }
}

/// Each member that is not disabled is told of once, with its own record: its
/// id, name, role, key and generation, and whether it is online. Its prefixes
/// are the host prefixes of its addresses, the prefixes that it owns and, while
/// it is online, configured as a way out and reported ready, the two default
/// routes; it has no others. A disabled member is not told of.
pub proof fn law_the_view_tells_of_every_member(
    before: Directory,
    after: Directory,
    cfg: NetworkView,
    reg: RegistryView,
    now: u64,
    r: Option<MembershipDelta>,
    i: int,
)
    requires
        reg.wf(),
        cfg.wf(),
        recomputed(before, after, cfg, reg, now, r),
        0 <= i < reg.members.len(),
    ensures
        reg.members[i].disabled ==> forall|k: int|
            0 <= k < after.peers@.len() ==> (#[trigger] after.peers@[k]).node_id
                != reg.members[i].node_id,
        !reg.members[i].disabled ==> exists|k: int|
            0 <= k < after.peers@.len() && {
                let p = #[trigger] after.peers@[k];
                let rec = reg.members[i];
                let online = before.online_since@.dom().contains(rec.name);
                let designated = (exists|x: int|
                    0 <= x < cfg.relays.len() && (#[trigger] cfg.relays[x]).0 == rec.name
                        && cfg.relays[x].1.internet_gateway == Some(true)) && forall|x: int|
                    0 <= x < cfg.clients.len() ==> (#[trigger] cfg.clients[x]).0 != rec.name;
                let ready = before.exits@.dom().contains(rec.name)
                    && before.exits@[rec.name].ip_forward && before.exits@[rec.name].masquerade;
                &&& p.node_id == rec.node_id
                &&& p.name@ == rec.name
                &&& p.role == rec.role
                &&& p.online == online
                &&& p.login_gen == rec.login_gen
                &&& p.pubkey@ == match rec.pubkey {
                    Some(key) => key,
                    None => Seq::empty(),
                }
                &&& forall|n: IpNet| #[trigger]
                    p.prefixes@.contains(n) <==> {
                        ||| rec.ip4 matches Some(ip) && n == (IpNet {
                            addr: IpAddr::V4(ip),
                            prefix_len: 32,
                        })
                        ||| rec.ip6 matches Some(ip) && n == (IpNet {
                            addr: IpAddr::V6(ip),
                            prefix_len: 128,
                        })
                        ||| exists|w: int|
                            0 <= w < after.owners@.len() && (#[trigger] after.owners@[w]).cidr == n
                                && after.owners@[w].owner@ == rec.name
                        ||| online && designated && ready && n.prefix_len == 0 && (n.addr
                            == IpAddr::V4(0) || n.addr == IpAddr::V6(0))
                    }
            },
        forall|x: int, y: int|
            0 <= x < y < after.peers@.len() ==> (#[trigger] after.peers@[x]).node_id < (
            #[trigger] after.peers@[y]).node_id,
        forall|k: int|
            0 <= k < after.peers@.len() ==> exists|j: int|
                0 <= j < reg.members.len() && (#[trigger] reg.members[j]).node_id == (
                #[trigger] after.peers@[k]).node_id && !reg.members[j].disabled,
{
    let members = reg.members;
    let online = before.online_since@;
    let owners = owner_views(after.owners@);
    let rec = members[i];
    let view = peers_of(members, owners, online, cfg, before.exits@);
    assert(view == peer_views(after.peers@));
    law_a_disabled_member_is_not_published(members, owners, online, cfg, before.exits@, i);
    lemma_peer_with_id(view, rec.node_id);
    lemma_peers_ascend(members, owners, online, cfg, before.exits@);
    assert forall|x: int, y: int| 0 <= x < y < after.peers@.len() implies (
    #[trigger] after.peers@[x]).node_id < (#[trigger] after.peers@[y]).node_id by {
        assert(view[x].node_id < view[y].node_id);
    }
    assert forall|k: int| 0 <= k < after.peers@.len() implies exists|j: int|
        0 <= j < members.len() && (#[trigger] members[j]).node_id == (
        #[trigger] after.peers@[k]).node_id && !members[j].disabled by {
        let j = lemma_told_of(members, owners, online, cfg, before.exits@, k);
        assert(view[k].node_id == members[j].node_id);
    }
    if rec.disabled {
        assert forall|k: int| 0 <= k < after.peers@.len() implies (
        #[trigger] after.peers@[k]).node_id != rec.node_id by {
            assert(view[k].node_id != rec.node_id);
        }
    } else {
        let exit = is_exit(cfg, before.exits@, rec.name);
        let told = peer_of(rec, owners, online, exit);
        let k = choose|k: int| 0 <= k < view.len() && view[k] == told;
        let p = after.peers@[k];
        assert(p@ == told);
        let a: Seq<IpNet> = address_prefixes(rec);
        let b = owned_by(owners, rec.name);
        let c = exit_prefixes(rec.name, online, exit);
        let all = a + b + c;
        crate::config::law_a_member_is_found_by_its_name(cfg, rec.name);
        let designated = (exists|x: int|
            0 <= x < cfg.relays.len() && (#[trigger] cfg.relays[x]).0 == rec.name
                && cfg.relays[x].1.internet_gateway == Some(true)) && forall|x: int|
            0 <= x < cfg.clients.len() ==> (#[trigger] cfg.clients[x]).0 != rec.name;
        assert(designated == crate::exits::designated(cfg, rec.name));
        assert forall|n: IpNet| #[trigger] p.prefixes@.contains(n) <==> {
            ||| rec.ip4 matches Some(ip) && n == (IpNet { addr: IpAddr::V4(ip), prefix_len: 32 })
            ||| rec.ip6 matches Some(ip) && n == (IpNet { addr: IpAddr::V6(ip), prefix_len: 128 })
            ||| exists|w: int|
                0 <= w < after.owners@.len() && (#[trigger] after.owners@[w]).cidr == n
                    && after.owners@[w].owner@ == rec.name
            ||| exit && online.dom().contains(rec.name) && n.prefix_len == 0 && (n.addr
                == IpAddr::V4(0) || n.addr == IpAddr::V6(0))
        } by {
            lemma_sort_by_text_contains(all, n);
            if all.contains(n) {
                let k = choose|k: int| 0 <= k < all.len() && all[k] == n;
                if k < a.len() {
                    assert(a[k] == n);
                } else if k < a.len() + b.len() {
                    assert(b[k - a.len()] == n);
                    assert(b.contains(n));
                    lemma_owned_by(owners, rec.name, n);
                    let w = choose|w: int|
                        0 <= w < owners.len() && #[trigger] owners[w] == (n, rec.name);
                    assert(after.owners@[w].cidr == n);
                } else {
                    assert(c[k - a.len() - b.len()] == n);
                }
            }
            if let Some(ip) = rec.ip4 {
                assert(all[0] == (IpNet { addr: IpAddr::V4(ip), prefix_len: 32 }));
            }
            if let Some(ip) = rec.ip6 {
                assert(all[a.len() - 1] == (IpNet { addr: IpAddr::V6(ip), prefix_len: 128 }));
            }
            if exists|w: int|
                0 <= w < after.owners@.len() && (#[trigger] after.owners@[w]).cidr == n
                    && after.owners@[w].owner@ == rec.name {
                let w = choose|w: int|
                    0 <= w < after.owners@.len() && (#[trigger] after.owners@[w]).cidr == n
                        && after.owners@[w].owner@ == rec.name;
                assert(owners[w] == (n, rec.name));
                lemma_owns(owners, rec.name, w);
                let j = choose|j: int| 0 <= j < b.len() && b[j] == n;
                assert(all[a.len() + j] == n);
            }
            if exit && online.dom().contains(rec.name) && n.prefix_len == 0 && (n.addr
                == IpAddr::V4(0) || n.addr == IpAddr::V6(0)) {
                let j: int = if n.addr == IpAddr::V4(0) {
                    0
                } else {
                    1
                };
                assert(c[j] == n);
                assert(all[a.len() + b.len() + j] == n);
            }
        }
        assert(after.peers@[k].node_id == rec.node_id);
    }
}

/// The view was recomputed: the revision moves exactly when the view changed,
/// and the delta says how.
pub open spec fn recomputed(
    before: Directory,
    after: Directory,
    cfg: NetworkView,
    reg: RegistryView,
    now: u64,
    r: Option<MembershipDelta>,
) -> bool {
    let prev = peer_views(before.peers@);
    let next = before.next_peers(cfg, reg, now);
    &&& owner_views(after.owners@) == next_owners(
        owners_table(reg.members),
        reg.members,
        owner_views(before.owners@),
        before.online_since@,
        before.hold_down_secs,
        now,
    )
    &&& peer_views(after.peers@) == next
    &&& after == (Directory {
        owners: after.owners,
        peers: after.peers,
        revision: after.revision,
        ..before
    })
    &&& match r {
        None => prev == next && after.revision == before.revision,
        Some(d) => {
            &&& prev != next
            &&& after.revision == before.revision + 1
            &&& d.base_rev == before.revision
            &&& d.new_rev == before.revision + 1
            &&& peer_views(d.changed@) == changed_peers(prev, next)
            &&& d.removed@ == removed_peers(prev, next)
        },
    }
}

/// The revision advances only on a change. A delta is never empty, every peer
/// in it differs from what was published, and it carries what was published
/// to what is; and recomputing again at the same time changes nothing.
pub proof fn law_the_revision_advances_only_on_change(
    before: Directory,
    once: Directory,
    twice: Directory,
    cfg: NetworkView,
    reg: RegistryView,
    now: u64,
    first: Option<MembershipDelta>,
    second: Option<MembershipDelta>,
)
    requires
        before.wf(),
        once.wf(),
        recomputed(before, once, cfg, reg, now, first),
        recomputed(once, twice, cfg, reg, now, second),
    ensures
        first is None ==> peer_views(once.peers@) == peer_views(before.peers@) && once.revision
            == before.revision,
        first matches Some(d) ==> {
            let prev = peer_views(before.peers@);
            let changed = peer_views(d.changed@);
            &&& d.base_rev == before.revision
            &&& d.new_rev == once.revision
            &&& once.revision == before.revision + 1
            &&& d.changed@.len() > 0 || d.removed@.len() > 0
            &&& forall|i: int|
                0 <= i < changed.len() ==> peer_with_id(prev, (#[trigger] changed[i]).node_id)
                    != Some(changed[i])
            &&& patched(peer_map(prev), changed, d.removed@) == peer_map(peer_views(once.peers@))
        },
        second is None,
        peer_views(twice.peers@) == peer_views(once.peers@),
        twice.revision == once.revision,
{
    let prev = peer_views(before.peers@);
    let next = before.next_peers(cfg, reg, now);
    law_resolving_twice_changes_nothing(
        reg.members,
        owner_views(before.owners@),
        before.online_since@,
        before.hold_down_secs,
        now,
    );
    assert(once.next_peers(cfg, reg, now) == next);
    if let Some(d) = first {
        law_a_delta_carries_the_old_view_to_the_new_one(prev, next);
        law_an_empty_delta_means_no_change(prev, next);
        lemma_changed(prev, next);
        let changed = peer_views(d.changed@);
        assert(changed.len() == d.changed@.len());
        assert forall|i: int| 0 <= i < changed.len() implies peer_with_id(
            prev,
            (#[trigger] changed[i]).node_id,
        ) != Some(changed[i]) by {
            assert(changed_peers(prev, next).contains(changed[i]));
        }
    }
}

/// The smallest MTU of `ceiling` and the reports, and who reported it: the
/// first in the order of names, or the configuration if nobody is below it.
pub open spec fn smallest_mtu(reports: Seq<(Seq<char>, u16)>, ceiling: u16) -> (u16, Seq<char>)
    decreases reports.len(),
{
    if reports.len() == 0 {
        (ceiling, "config"@)
    } else {
        let (best, who) = smallest_mtu(reports.drop_last(), ceiling);
        if reports.last().1 < best {
            (reports.last().1, reports.last().0)
        } else {
            (best, who)
        }
    }
}

/// The content of the reported MTUs.
pub open spec fn mtu_reports(s: Seq<(String, u16)>) -> Seq<(Seq<char>, u16)> {
    s.map_values(|e: (String, u16)| (e.0@, e.1))
}

/// The network's MTU is the smallest that anyone reported, within the
/// configured ceiling and the IPv6 floor.
pub proof fn law_the_network_mtu_is_the_minimum(reports: Seq<(Seq<char>, u16)>, ceiling: u16)
    ensures
        ({
            let (best, who) = smallest_mtu(reports, ceiling);
            &&& best <= ceiling
            &&& forall|i: int| 0 <= i < reports.len() ==> best <= (#[trigger] reports[i]).1
            &&& best == ceiling && who == "config"@ || exists|i: int|
                0 <= i < reports.len() && #[trigger] reports[i] == (who, best)
        }),
    decreases reports.len(),
{
    if reports.len() > 0 {
        let d = reports.drop_last();
        law_the_network_mtu_is_the_minimum(d, ceiling);
        assert forall|i: int| 0 <= i < d.len() implies #[trigger] reports[i] == d[i] by {}
        let (b, w) = smallest_mtu(d, ceiling);
        if !(b == ceiling && w == "config"@) {
            let i = choose|i: int| 0 <= i < d.len() && #[trigger] d[i] == (w, b);
            assert(reports[i] == (w, b));
        }
        assert(reports[reports.len() - 1] == reports.last());
    }
}

impl Directory {
    /// The attachment table, in the order of the clients' ids.
    pub fn attachment_entries(&self) -> (r: Vec<AttachmentEntry>)
        requires
            self.wf(),
        ensures
            r@ == self.attachments.entries@.map_values(
                |e: (NodeId, NodeId)| AttachmentEntry { node_id: e.0, relay_id: e.1 },
            ),
    {
        let mut out: Vec<AttachmentEntry> = Vec::new();
        let mut i: usize = 0;
        while i < self.attachments.entries.len()
            invariant
                i <= self.attachments.entries@.len(),
                out@.len() == i,
                forall|k: int|
                    0 <= k < i ==> #[trigger] out@[k] == (AttachmentEntry {
                        node_id: self.attachments.entries@[k].0,
                        relay_id: self.attachments.entries@[k].1,
                    }),
            decreases self.attachments.entries.len() - i,
        {
            let (node_id, relay_id) = self.attachments.entries[i];
            out.push(AttachmentEntry { node_id, relay_id });
            i = i + 1;
        }
        assert(out@ =~= self.attachments.entries@.map_values(
            |e: (NodeId, NodeId)| AttachmentEntry { node_id: e.0, relay_id: e.1 },
        ));
        out
    }

    /// Record where a client is attached, or that it is not. Returns whether
    /// that changed the table; a change advances its revision.
    pub fn set_attachment(&mut self, node_id: NodeId, relay_id: Option<NodeId>) -> (r: bool)
        requires
            old(self).wf(),
            old(self).attach_revision < u64::MAX,
        ensures
            final(self).wf(),
            r == (crate::leases::lookup(old(self).attachments@, node_id) != relay_id),
            final(self).attachments@ == (match relay_id {
                Some(relay) => old(self).attachments@.insert(node_id, relay),
                None => old(self).attachments@.remove(node_id),
            }),
            final(self).attach_revision == old(self).attach_revision + (if r {
                1int
            } else {
                0int
            }),
            *final(self) == (Directory {
                attachments: final(self).attachments,
                attach_revision: final(self).attach_revision,
                ..*old(self)
            }),
    {
        let changed = match relay_id {
            Some(relay) => match self.attachments.insert(node_id, relay) {
                Some(was) => was != relay,
                None => true,
            },
            None => self.attachments.remove(node_id).is_some(),
        };
        if changed {
            self.attach_revision = self.attach_revision + 1;
        }
        changed
    }

    /// The published view in chunks, for a session that starts. There is
    /// always at least one chunk.
    pub fn snapshot_chunks(&self, chunk_size: usize) -> (r: Vec<Vec<PeerInfo>>)
        requires
            chunk_size > 0,
        ensures
            r@.len() >= 1,
            (r@.len() - 1) * chunk_size <= self.peers@.len() <= r@.len() * chunk_size,
            self.peers@.len() > 0 ==> (r@.len() - 1) * chunk_size < self.peers@.len(),
            self.peers@.len() == 0 ==> r@.len() == 1,
            forall|i: int|
                0 <= i < r@.len() ==> peer_views((#[trigger] r@[i])@) == peer_views(
                    self.peers@,
                ).subrange(
                    i * chunk_size,
                    if (i + 1) * chunk_size < self.peers@.len() {
                        (i + 1) * chunk_size
                    } else {
                        self.peers@.len() as int
                    },
                ),
    {
        let ghost all = peer_views(self.peers@);
        let total = self.peers.len();
        assert(0 * chunk_size == 0 && 1 * chunk_size == chunk_size) by (nonlinear_arith);
        let mut out: Vec<Vec<PeerInfo>> = Vec::new();
        let mut from: usize = 0;
        if total == 0 {
            let one: Vec<PeerInfo> = Vec::new();
            out.push(one);
            assert(peer_views(out@[0]@) =~= all.subrange(0, 0));
            return out;
        }
        while from < total
            invariant
                from <= total,
                total == self.peers@.len(),
                total > 0,
                chunk_size > 0,
                all == peer_views(self.peers@),
                from < total ==> from == out@.len() * chunk_size,
                from == total ==> out@.len() >= 1 && (out@.len() - 1) * chunk_size < total
                    <= out@.len() * chunk_size,
                forall|i: int|
                    0 <= i < out@.len() ==> peer_views((#[trigger] out@[i])@) == all.subrange(
                        i * chunk_size,
                        if (i + 1) * chunk_size < total {
                            (i + 1) * chunk_size
                        } else {
                            total as int
                        },
                    ),
            decreases total - from,
        {
            let to: usize = if total - from > chunk_size {
                from + chunk_size
            } else {
                total
            };
            let mut chunk: Vec<PeerInfo> = Vec::new();
            let mut i: usize = from;
            assert(peer_views(chunk@) =~= all.subrange(from as int, from as int));
            while i < to
                invariant
                    from <= i <= to <= total,
                    total == self.peers@.len(),
                    all == peer_views(self.peers@),
                    peer_views(chunk@) == all.subrange(from as int, i as int),
                decreases to - i,
            {
                let p = self.peers[i].copy();
                let ghost was = peer_views(chunk@);
                let ghost pv = p@;
                chunk.push(p);
                assert(peer_views(chunk@) =~= was.push(pv));
                assert(all.subrange(from as int, i + 1) =~= was.push(all[i as int]));
                i = i + 1;
            }
            let ghost n = out@.len() as int;
            out.push(chunk);
            assert((n + 1) * chunk_size == n * chunk_size + chunk_size) by (nonlinear_arith);
            from = to;
        }
        out
    }

    /// The safe tunnel MTU for the whole network: the smallest usable MTU
    /// that any member reported, within the ceiling and the floor, and the
    /// member that limits it.
    pub fn network_mtu(&self, ceiling: u16) -> (r: NetworkMtu)
        ensures
            ({
                let (best, who) = smallest_mtu(mtu_reports(self.reported_mtu.entries@), ceiling);
                &&& r.mtu == if best < MIN_TUNNEL_MTU {
                    MIN_TUNNEL_MTU
                } else {
                    best
                }
                &&& r.limited_by@ == who
            }),
    {
        let reports = &self.reported_mtu.entries;
        let ghost v = mtu_reports(reports@);
        let mut best = ceiling;
        let mut who = "config".to_owned();
        let mut i: usize = 0;
        while i < reports.len()
            invariant
                i <= reports@.len(),
                v == mtu_reports(reports@),
                v.len() == reports@.len(),
                (best, who@) == smallest_mtu(v.take(i as int), ceiling),
            decreases reports.len() - i,
        {
            assert(v.take(i + 1).drop_last() =~= v.take(i as int));
            assert(v[i as int] == (reports@[i as int].0@, reports@[i as int].1));
            if reports[i].1 < best {
                best = reports[i].1;
                who = reports[i].0.clone();
            }
            i = i + 1;
        }
        assert(v.take(i as int) =~= v);
        NetworkMtu {
            mtu: if best < MIN_TUNNEL_MTU {
                MIN_TUNNEL_MTU
            } else {
                best
            },
            limited_by: who,
        }
    }
}

/// A delta names exactly what became another: the entries of the new view that
/// the old one did not have as they are, and the ids of the old view that the
/// new one does not have.
pub proof fn law_a_delta_names_what_became_another(
    prev: Seq<PeerView>,
    next: Seq<PeerView>,
    p: PeerView,
    id: NodeId,
)
    requires
        peers_ascend(prev),
        peers_ascend(next),
    ensures
        changed_peers(prev, next).contains(p) <==> next.contains(p) && !prev.contains(p),
        removed_peers(prev, next).contains(id) <==> (exists|i: int|
            0 <= i < prev.len() && (#[trigger] prev[i]).node_id == id) && forall|j: int|
            0 <= j < next.len() ==> (#[trigger] next[j]).node_id != id,
{
    lemma_changed(prev, next);
    lemma_removed(prev, next);
    lemma_peer_with_id(prev, p.node_id);
    lemma_peer_with_id(prev, id);
    lemma_peer_with_id(next, id);
    if prev.contains(p) {
        let i = choose|i: int| 0 <= i < prev.len() && prev[i] == p;
        lemma_peer_at(prev, i);
    }
    if let Some(q) = peer_with_id(prev, id) {
        let i = choose|i: int| 0 <= i < prev.len() && prev[i] == q;
        assert(prev[i].node_id == id);
    }
    if let Some(q) = peer_with_id(next, id) {
        let j = choose|j: int| 0 <= j < next.len() && next[j] == q;
        assert(next[j].node_id == id);
    }
}

} // verus!
