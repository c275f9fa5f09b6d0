//! The coordinator's side of a control session, as decisions: what a session
//! that opens is sent, what each upstream message changes, what a session
//! that ends takes with it, and who is told.

use vstd::prelude::*;

use crate::directory::{
    changed_peers, mtu_reports, owner_views, peer_map, removed_peers, smallest_mtu, Directory,
    MIN_TUNNEL_MTU,
};
use crate::exits::ExitReadiness;
use crate::history::{
    catch_up, delta_views, keeps, law_deltas_catch_a_member_up, lemma_ascending, lemma_leading,
    lemma_not_starting, patched_by, spans, CatchUp,
};
use crate::idmap::{lemma_entry, lemma_key, IdMap};
use crate::leases::{lookup, LeasesView};
use crate::namemap::{lemma_name_key, lemma_name_replaced, lemma_named_entry, NameMap};
use crate::proto::{
    copy_relays, peer_views, relay_views, relays_eq, AttachmentDelta, AttachmentEntry, Heartbeat,
    KeyInfo, MembershipDelta, NetworkMtu, NodeId, PeerInfo, PeerView, RelayEntry, RelayView, Role,
    TrafficReport,
};
use crate::registry::named;
use crate::state::{gen_room, relay_entries, relay_fleet, NetState, SessionInfo};
use crate::text::{decimal, decimal_text, said, say, str_eq, texts};
use crate::traffic::{fresh, next_sample};

verus! {

/// Members per chunk of a snapshot.
pub const SNAPSHOT_CHUNK: usize = 256;

/// `s` with `x` placed behind every relay whose id is not above its own.
pub open spec fn insert_by_id(s: Seq<RelayView>, x: RelayView) -> Seq<RelayView>
    decreases s.len(),
{
    if s.len() == 0 || s.last().relay_id <= x.relay_id {
        s.push(x)
    } else {
        insert_by_id(s.drop_last(), x).push(s.last())
    }
}

/// The relays in the order of their ids.
pub open spec fn sort_by_id(s: Seq<RelayView>) -> Seq<RelayView>
    decreases s.len(),
{
    if s.len() == 0 {
        s
    } else {
        insert_by_id(sort_by_id(s.drop_last()), s.last())
    }
}

fn insert_relay(v: &mut Vec<RelayEntry>, x: RelayEntry)
    ensures
        relay_views(final(v)@) == insert_by_id(relay_views(old(v)@), x@),
{
    let ghost s = relay_views(v@);
    let ghost xv = x@;
    let mut i: usize = v.len();
    assert(s.take(i as int) =~= s);
    assert(s.skip(i as int) =~= Seq::empty());
    while i > 0 && v[i - 1].relay_id > x.relay_id
        invariant
            i <= v@.len(),
            v@ == old(v)@,
            s == relay_views(v@),
            s.len() == v@.len(),
            xv == x@,
            insert_by_id(s, xv) == insert_by_id(s.take(i as int), xv) + s.skip(i as int),
        decreases i,
    {
        let ghost t = s.take(i as int);
        assert(t.last() == v@[i - 1]@);
        assert(t.drop_last() =~= s.take(i - 1));
        assert(insert_by_id(t.drop_last(), xv).push(t.last()) + s.skip(i as int) =~= insert_by_id(
            t.drop_last(),
            xv,
        ) + s.skip(i - 1));
        i = i - 1;
    }
    if i > 0 {
        assert(s.take(i as int).last() == v@[i - 1]@);
    }
    v.insert(i, x);
    assert(relay_views(v@) =~= s.take(i as int).push(xv) + s.skip(i as int));
}

/// The dialable relay fleet, in the order of the relays' ids.
pub fn relay_endpoints(ns: &NetState) -> (r: Vec<RelayEntry>)
    requires
        ns.wf(),
    ensures
        relay_views(r@) == sort_by_id(relay_fleet(ns.cfg@.relays, ns.registry@.members)),
{
    let fleet = relay_entries(ns);
    let ghost f = relay_views(fleet@);
    let mut out: Vec<RelayEntry> = Vec::new();
    let mut i: usize = 0;
    assert(relay_views(out@) =~= sort_by_id(f.take(0)));
    while i < fleet.len()
        invariant
            i <= fleet@.len(),
            f == relay_views(fleet@),
            f.len() == fleet@.len(),
            relay_views(out@) == sort_by_id(f.take(i as int)),
        decreases fleet.len() - i,
    {
        assert(f.take(i + 1).drop_last() =~= f.take(i as int));
        assert(f.take(i + 1).last() == fleet@[i as int]@);
        insert_relay(&mut out, fleet[i].copy());
        i = i + 1;
    }
    assert(f.take(i as int) =~= f);
    out
}

/// The content of a published fleet.
pub open spec fn published_view(p: Option<Vec<RelayEntry>>) -> Option<Seq<RelayView>> {
    match p {
        Some(v) => Some(relay_views(v@)),
        None => None,
    }
}

/// Note the relay fleet as published if it changed. Returns what to push.
pub fn publish_relays_if_changed(ns: &mut NetState) -> (r: Option<Vec<RelayEntry>>)
    requires
        old(ns).wf(),
    ensures
        final(ns).wf(),
        ({
            let fleet = sort_by_id(relay_fleet(old(ns).cfg@.relays, old(ns).registry@.members));
            &&& published_view(final(ns).published_relays) == Some(fleet)
            &&& published_view(r) == if published_view(old(ns).published_relays) == Some(fleet) {
                None
            } else {
                Some(fleet)
            }
        }),
        *final(ns) == (NetState { published_relays: final(ns).published_relays, ..*old(ns) }),
{
    let now = relay_endpoints(ns);
    let same = match &ns.published_relays {
        Some(p) => relays_eq(p, &now),
        None => false,
    };
    if same {
        return None;
    }
    ns.published_relays = Some(copy_relays(&now));
    Some(now)
}

/// The MTU that a directory calls for, and who limits it.
pub open spec fn mtu_of(d: Directory, ceiling: u16) -> (u16, Seq<char>) {
    let (best, who) = smallest_mtu(mtu_reports(d.reported_mtu.entries@), ceiling);
    (
        if best < MIN_TUNNEL_MTU {
            MIN_TUNNEL_MTU
        } else {
            best
        },
        who,
    )
}

/// The content of an MTU.
pub open spec fn mtu_view(m: Option<NetworkMtu>) -> Option<(u16, Seq<char>)> {
    match m {
        Some(m) => Some((m.mtu, m.limited_by@)),
        None => None,
    }
}

/// Note the network's MTU as published if it changed. Returns what to push.
pub fn publish_mtu_if_changed(ns: &mut NetState) -> (r: Option<NetworkMtu>)
    requires
        old(ns).wf(),
    ensures
        final(ns).wf(),
        ({
            let m = mtu_of(old(ns).directory, old(ns).cfg.settings.mtu);
            &&& mtu_view(final(ns).directory.published_mtu) == Some(m)
            &&& mtu_view(r) == if mtu_view(old(ns).directory.published_mtu) == Some(m) {
                None
            } else {
                Some(m)
            }
        }),
        *final(ns) == (NetState {
            directory: Directory {
                published_mtu: final(ns).directory.published_mtu,
                ..old(ns).directory
            },
            ..*old(ns)
        }),
{
    let now = ns.directory.network_mtu(ns.cfg.settings.mtu);
    let same = match &ns.directory.published_mtu {
        Some(p) => p.mtu == now.mtu && str_eq(p.limited_by.as_str(), now.limited_by.as_str()),
        None => false,
    };
    if same {
        return None;
    }
    ns.directory.published_mtu = Some(
        NetworkMtu { mtu: now.mtu, limited_by: now.limited_by.clone() },
    );
    Some(now)
}

/// Whom a push goes to.
#[derive(Debug)]
pub enum Audience {
    Everyone,
    /// Everyone but the session that gets an equivalent snapshot.
    Except(String),
    /// The attachment table is for relays only.
    Relays,
}

/// A session is in the audience.
pub open spec fn hears(a: Audience, name: Seq<char>, s: SessionInfo) -> bool {
    match a {
        Audience::Everyone => true,
        Audience::Except(skip) => name != skip@,
        Audience::Relays => s.role == Role::Relay,
    }
}

/// The names of the sessions in the audience, in order.
pub open spec fn audience_of(s: Seq<(String, SessionInfo)>, a: Audience) -> Seq<Seq<char>>
    decreases s.len(),
{
    if s.len() == 0 {
        Seq::empty()
    } else {
        let p = audience_of(s.drop_last(), a);
        if hears(a, s.last().0@, s.last().1) {
            p.push(s.last().0@)
        } else {
            p
        }
    }
}

/// The sessions that a push goes to.
pub fn recipients(ns: &NetState, audience: &Audience) -> (r: Vec<String>)
    ensures
        crate::state::messages(r@) == audience_of(ns.sessions.entries@, *audience),
{
    let ghost s = ns.sessions.entries@;
    let mut out: Vec<String> = Vec::new();
    let mut i: usize = 0;
    assert(crate::state::messages(out@) =~= audience_of(s.take(0), *audience));
    while i < ns.sessions.entries.len()
        invariant
            i <= s.len(),
            s == ns.sessions.entries@,
            crate::state::messages(out@) == audience_of(s.take(i as int), *audience),
        decreases s.len() - i,
    {
        assert(s.take(i + 1).drop_last() =~= s.take(i as int));
        assert(s.take(i + 1).last() == s[i as int]);
        let name = &ns.sessions.entries[i].0;
        let role = ns.sessions.entries[i].1.role;
        let yes = match audience {
            Audience::Everyone => true,
            Audience::Except(skip) => !str_eq(name.as_str(), skip.as_str()),
            Audience::Relays => role == Role::Relay,
        };
        let ghost was = crate::state::messages(out@);
        if yes {
            let n = name.clone();
            let ghost nv = n@;
            out.push(n);
            assert(crate::state::messages(out@) =~= was.push(nv));
        }
        i = i + 1;
    }
    assert(s.take(i as int) =~= s);
    out
}

/// What a session that opens is sent, and whom it replaces.
#[derive(Debug)]
pub struct Opened {
    pub revision: u64,
    /// What brings the member up to date.
    pub catch_up: CatchUp,
    /// The whole view in parts, where that is what does.
    pub snapshot: Vec<Vec<PeerInfo>>,
    /// Relays: the revision and the entries of the attachment table.
    pub attachments: Option<(u64, Vec<AttachmentEntry>)>,
    pub relays: Vec<RelayEntry>,
    pub mtu: NetworkMtu,
    /// The session of the same member that this one supersedes.
    pub superseded: Option<SessionInfo>,
    /// For everyone but the session that opens: its snapshot holds the
    /// change already.
    pub delta: Option<MembershipDelta>,
}

/// The members that are online once `name` is.
pub open spec fn online_with(m: Map<Seq<char>, u64>, name: Seq<char>, now: u64) -> Map<
    Seq<char>,
    u64,
> {
    if m.dom().contains(name) {
        m
    } else {
        m.insert(name, now)
    }
}

/// The view in parts: each full but the last, and one even where there is
/// nobody in it.
pub open spec fn in_parts(parts: Seq<Vec<PeerInfo>>, view: Seq<PeerView>) -> bool {
    &&& forall|i: int|
        0 <= i < parts.len() ==> peer_views((#[trigger] parts[i])@) == view.subrange(
            i * SNAPSHOT_CHUNK,
            if (i + 1) * SNAPSHOT_CHUNK < view.len() {
                (i + 1) * SNAPSHOT_CHUNK
            } else {
                view.len() as int
            },
        )
    &&& parts.len() >= 1
    &&& view.len() <= parts.len() * SNAPSHOT_CHUNK
    &&& view.len() == 0 ==> parts.len() == 1
    &&& view.len() > 0 ==> (parts.len() - 1) * SNAPSHOT_CHUNK < view.len()
}

/// Register a session that authenticated, mark its member online and
/// recompute the view. `exp` is when its credential expires, `have` the
/// generation that the member says it holds, and `grace` whether the
/// coordinator still collects before it publishes.
pub fn open_session(
    ns: &mut NetState,
    id: u64,
    name: &str,
    node_id: NodeId,
    role: Role,
    exp: u64,
    have: u64,
    grace: bool,
    now: u64,
    now_ms: u64,
) -> (r: Opened)
    requires
        old(ns).wf(),
        gen_room(old(ns).directory.revision),
    ensures
        final(ns).wf(),
        final(ns).cfg == old(ns).cfg,
        final(ns).leases@ == old(ns).leases@.after_seen(node_id, now_ms),
        final(ns).last_seen == old(ns).last_seen,
        final(ns).published_relays == old(ns).published_relays,
        final(ns).sessions@.dom() == old(ns).sessions@.dom().insert(name@),
        final(ns).sessions@[name@].id == id,
        final(ns).sessions@[name@].node_id == node_id,
        final(ns).sessions@[name@].role == role,
        final(ns).sessions@[name@].exp == exp,
        final(ns).sessions@[name@].name@ == name@,
        forall|k: Seq<char>|
            k != name@ && old(ns).sessions@.dom().contains(k) ==> #[trigger] final(ns).sessions@[k]
                == old(ns).sessions@[k],
        r.superseded == old(ns).sessions.at(name@),
        final(ns).directory.online_since@ == online_with(
            old(ns).directory.online_since@,
            name@,
            now,
        ),
        final(ns).directory == (Directory {
            online_since: final(ns).directory.online_since,
            owners: final(ns).directory.owners,
            peers: final(ns).directory.peers,
            revision: final(ns).directory.revision,
            history: final(ns).directory.history,
            ..old(ns).directory
        }),
        keeps(old(ns).directory.history, final(ns).directory.history, r.delta),
        ({
            let online = online_with(old(ns).directory.online_since@, name@, now);
            let owners = crate::directory::next_owners(
                crate::owners::owners_table(old(ns).registry@.members),
                old(ns).registry@.members,
                owner_views(old(ns).directory.owners@),
                online,
                old(ns).directory.hold_down_secs,
                now,
            );
            let goal = crate::directory::peers_of(
                old(ns).registry@.members,
                owners,
                online,
                old(ns).cfg@,
                old(ns).directory.exits@,
            );
            let prev = peer_views(old(ns).directory.peers@);
            &&& peer_views(final(ns).directory.peers@) == goal
            &&& owner_views(final(ns).directory.owners@) == owners
            &&& r.delta is Some <==> prev != goal
            &&& r.delta matches Some(d) ==> d.base_rev == old(ns).directory.revision && d.new_rev
                == r.revision && peer_views(d.changed@) == changed_peers(prev, goal) && d.removed@
                == removed_peers(prev, goal)
            &&& r.revision == old(ns).directory.revision + (if prev != goal {
                1int
            } else {
                0int
            })
            &&& if r.catch_up is Snapshot {
                in_parts(r.snapshot@, goal)
            } else {
                r.snapshot@.len() == 0
            }
        }),
        r.revision == final(ns).directory.revision,
        r.catch_up@ == catch_up(
            delta_views(final(ns).directory.history.deltas@),
            r.revision,
            0,
            have,
            None,
            grace,
        ),
        r.attachments is Some <==> role == Role::Relay,
        r.attachments matches Some((rev, entries)) ==> rev == old(ns).directory.attach_revision
            && entries@ == old(ns).directory.attachments.entries@.map_values(
            |e: (NodeId, NodeId)| AttachmentEntry { node_id: e.0, relay_id: e.1 },
        ),
        relay_views(r.relays@) == sort_by_id(
            relay_fleet(old(ns).cfg@.relays, old(ns).registry@.members),
        ),
        (r.mtu.mtu, r.mtu.limited_by@) == mtu_of(old(ns).directory, old(ns).cfg.settings.mtu),
        final(ns).registry@ == old(ns).registry@.noted(final(ns).directory.revision),
        final(ns).registry@.gen_hwm > final(ns).directory.revision,
{
    let ghost before = *ns;
    let superseded = ns.sessions.insert(
        name.to_owned(),
        SessionInfo { id, name: name.to_owned(), node_id, role, exp },
    );
    ns.leases.seen(node_id, now_ms);
    ns.directory.set_online(name, true, now);
    let delta = ns.refresh_directory(now);
    let revision = ns.directory.revision;
    let catch_up = ns.directory.history.answer(revision, 0, have, None, grace);
    let snapshot = match &catch_up {
        CatchUp::Snapshot { .. } => ns.directory.snapshot_chunks(SNAPSHOT_CHUNK),
        _ => Vec::new(),
    };
    assert(peer_views(ns.directory.peers@).len() == ns.directory.peers@.len());
    let attachments = match role {
        Role::Relay => Some((ns.directory.attach_revision, ns.directory.attachment_entries())),
        Role::Client => None,
    };
    let relays = relay_endpoints(ns);
    let mtu = ns.directory.network_mtu(ns.cfg.settings.mtu);
    assert(ns.sessions@.dom() =~= before.sessions@.dom().insert(name@));
    Opened { revision, catch_up, snapshot, attachments, relays, mtu, superseded, delta }
}

/// A message to a member.
#[derive(Debug)]
pub enum Push {
    /// The credential is accepted; the view has this revision.
    HelloAck(u64),
    /// The keys that credentials are signed with.
    Keys(Vec<KeyInfo>),
    /// A part of the view.
    Snapshot { snapshot_rev: u64, chunk_i: u32, chunk_n: u32, peers: Vec<PeerInfo> },
    /// Relays: the whole attachment table.
    Attachments { snapshot_rev: u64, entries: Vec<AttachmentEntry> },
    Relays(Vec<RelayEntry>),
    Mtu(NetworkMtu),
    Membership(MembershipDelta),
    Attachment(AttachmentDelta),
    /// The session ends, and why.
    Close(String),
}

/// The part of the view at a position of the chunks.
pub open spec fn is_chunk(p: Push, o: Opened, i: int) -> bool {
    p matches Push::Snapshot { snapshot_rev, chunk_i, chunk_n, peers } && snapshot_rev == o.revision
        && chunk_i == i && chunk_n == o.snapshot@.len() && peers == o.snapshot@[i]
}

/// The deltas that a member is caught up with.
pub open spec fn deltas_of(c: CatchUp) -> Seq<MembershipDelta> {
    match c {
        CatchUp::Deltas(v) => v@,
        _ => Seq::empty(),
    }
}

/// How many messages bring the member up to date: the deltas that it missed,
/// or the parts of the view.
pub open spec fn update_len(o: Opened) -> int {
    (deltas_of(o.catch_up).len() + o.snapshot@.len()) as int
}

/// A message that brings the member up to date.
pub open spec fn updates(p: Push, o: Opened, i: int) -> bool {
    match o.catch_up {
        CatchUp::Deltas(v) => p == Push::Membership(v@[i]),
        _ => is_chunk(p, o, i),
    }
}

/// What a session that opens is sent, in order: the acknowledgement, what
/// brings the member up to date, and then what builds on it. A relay is told
/// who is attached where. While the coordinator collects, nothing follows the
/// acknowledgement.
pub fn opening(o: Opened, keys: Vec<KeyInfo>) -> (r: Vec<Push>)
    requires
        o.snapshot@.len() <= u32::MAX,
        o.catch_up is Snapshot || o.snapshot@.len() == 0,
    ensures
        r@.len() > 0,
        r@[0] == Push::HelloAck(o.revision),
        o.catch_up is Deferred ==> r@.len() == 1,
        o.catch_up !is Deferred ==> {
            let n = 1 + update_len(o);
            let m = n + (if o.attachments is Some {
                1int
            } else {
                0int
            });
            &&& r@.len() == m + 3
            &&& forall|i: int| 0 <= i < update_len(o) ==> updates(#[trigger] r@[1 + i], o, i)
            &&& o.attachments matches Some((rev, entries)) ==> r@[n] == (Push::Attachments {
                snapshot_rev: rev,
                entries,
            })
            &&& r@[m] == Push::Keys(keys)
            &&& r@[m + 1] == Push::Relays(o.relays)
            &&& r@[m + 2] == Push::Mtu(o.mtu)
        },
{
    let ghost all = o.snapshot@;
    let ghost whole = o;
    let mut out: Vec<Push> = Vec::new();
    out.push(Push::HelloAck(o.revision));
    let Opened { revision, catch_up, snapshot, attachments, relays, mtu, superseded: _, delta: _ } = o;
    let total = snapshot.len();
    match catch_up {
        CatchUp::Deferred => {
            return out;
        },
        CatchUp::Deltas(v) => {
            let ghost ds = v@;
            let mut rest = v;
            let ghost mut k: int = 0;
            assert(ds.skip(0) =~= ds);
            while rest.len() > 0
                invariant
                    0 <= k <= ds.len(),
                    rest@ == ds.skip(k),
                    out@.len() == 1 + k,
                    out@[0] == Push::HelloAck(revision),
                    forall|j: int| 0 <= j < k ==> #[trigger] out@[1 + j] == Push::Membership(ds[j]),
                decreases rest.len(),
            {
                let d = rest.remove(0);
                assert(rest@ =~= ds.skip(k + 1));
                let ghost was = out@;
                out.push(Push::Membership(d));
                assert forall|j: int| 0 <= j < k + 1 implies #[trigger] out@[1 + j]
                    == Push::Membership(ds[j]) by {
                    if j < k {
                        assert(out@[1 + j] == was[1 + j]);
                    }
                }
                proof {
                    k = k + 1;
                }
            }
        },
        CatchUp::Current => {},
        CatchUp::Snapshot { .. } => {
            let mut rest = snapshot;
            let mut i: usize = 0;
            assert(all.skip(0) =~= all);
            while i < total
                invariant
                    i <= total,
                    total == all.len(),
                    total <= u32::MAX,
                    all == whole.snapshot@,
                    revision == whole.revision,
                    rest@ == all.skip(i as int),
                    out@.len() == 1 + i,
                    out@[0] == Push::HelloAck(revision),
                    forall|k: int| 0 <= k < i ==> is_chunk(#[trigger] out@[1 + k], whole, k),
                decreases total - i,
            {
                let peers = rest.remove(0);
                assert(rest@ =~= all.skip(i + 1));
                let ghost was = out@;
                out.push(
                    Push::Snapshot {
                        snapshot_rev: revision,
                        chunk_i: i as u32,
                        chunk_n: total as u32,
                        peers,
                    },
                );
                assert forall|k: int| 0 <= k < i + 1 implies is_chunk(
                    #[trigger] out@[1 + k],
                    whole,
                    k,
                ) by {
                    if k < i {
                        assert(out@[1 + k] == was[1 + k]);
                    }
                }
                i = i + 1;
            }
        },
    }
    let ghost front = out@;
    assert(front.len() == 1 + update_len(whole));
    assert forall|i: int| 0 <= i < update_len(whole) implies updates(
        #[trigger] front[1 + i],
        whole,
        i,
    ) by {}
    if let Some((snapshot_rev, entries)) = attachments {
        out.push(Push::Attachments { snapshot_rev, entries });
    }
    out.push(Push::Keys(keys));
    out.push(Push::Relays(relays));
    out.push(Push::Mtu(mtu));
    assert forall|i: int| 0 <= i < update_len(whole) implies updates(
        #[trigger] out@[1 + i],
        whole,
        i,
    ) by {
        assert(out@[1 + i] == front[1 + i]);
    }
    out
}

/// What the end of a session changes for the others.
#[derive(Debug)]
pub struct Closed {
    pub delta: Option<MembershipDelta>,
    /// A member that left no longer limits the others.
    pub mtu: Option<NetworkMtu>,
}

/// The registered session of this member has this id.
pub open spec fn is_current(ns: NetState, name: Seq<char>, id: u64) -> bool {
    ns.sessions@.dom().contains(name) && ns.sessions@[name].id == id
}

/// A session ended: unless a newer one superseded it, its member goes
/// offline, its routes are withdrawn and what it reported of its host is
/// forgotten. Attachments stay: losing the control link says nothing of the
/// sessions that a relay holds. Returns nothing when the session was
/// superseded.
pub fn close_session(ns: &mut NetState, id: u64, name: &str, node_id: NodeId, now: u64) -> (r: Option<
    Closed,
>)
    requires
        old(ns).wf(),
        gen_room(old(ns).directory.revision),
    ensures
        final(ns).wf(),
        r is Some <==> is_current(*old(ns), name@, id),
        r is None ==> *final(ns) == *old(ns),
        r matches Some(c) ==> {
            let gone = old(ns).directory.online_since@.remove(name@);
            let reports = old(ns).directory.exits@.remove(name@);
            let owners = crate::directory::next_owners(
                crate::owners::owners_table(old(ns).registry@.members),
                old(ns).registry@.members,
                owner_views(old(ns).directory.owners@),
                gone,
                old(ns).directory.hold_down_secs,
                now,
            );
            let goal = crate::directory::peers_of(
                old(ns).registry@.members,
                owners,
                gone,
                old(ns).cfg@,
                reports,
            );
            let prev = peer_views(old(ns).directory.peers@);
            &&& final(ns).sessions@ == old(ns).sessions@.remove(name@)
            &&& final(ns).directory.online_since@ == gone
            &&& final(ns).directory.exits@ == reports
            &&& peer_views(final(ns).directory.peers@) == goal
            &&& owner_views(final(ns).directory.owners@) == owners
            &&& final(ns).directory.revision == old(ns).directory.revision + (if prev != goal {
                1int
            } else {
                0int
            })
            &&& c.delta is Some <==> prev != goal
            &&& c.delta matches Some(d) ==> d.base_rev == old(ns).directory.revision && d.new_rev
                == final(ns).directory.revision && peer_views(d.changed@) == changed_peers(
                prev,
                goal,
            ) && d.removed@ == removed_peers(prev, goal)
            &&& final(ns).directory.reported_mtu@ == old(ns).directory.reported_mtu@.remove(name@)
            &&& mtu_view(final(ns).directory.published_mtu) == if old(
                ns,
            ).directory.reported_mtu@.dom().contains(name@) {
                Some(mtu_of(final(ns).directory, old(ns).cfg.settings.mtu))
            } else {
                mtu_view(old(ns).directory.published_mtu)
            }
            &&& mtu_view(c.mtu) == if old(ns).directory.reported_mtu@.dom().contains(name@)
                && mtu_view(old(ns).directory.published_mtu) != Some(
                mtu_of(final(ns).directory, old(ns).cfg.settings.mtu),
            ) {
                Some(mtu_of(final(ns).directory, old(ns).cfg.settings.mtu))
            } else {
                None
            }
            &&& final(ns).directory == (Directory {
                online_since: final(ns).directory.online_since,
                exits: final(ns).directory.exits,
                owners: final(ns).directory.owners,
                peers: final(ns).directory.peers,
                revision: final(ns).directory.revision,
                history: final(ns).directory.history,
                reported_mtu: final(ns).directory.reported_mtu,
                published_mtu: final(ns).directory.published_mtu,
                ..old(ns).directory
            })
            &&& keeps(old(ns).directory.history, final(ns).directory.history, c.delta)
            &&& final(ns).cfg == old(ns).cfg
            &&& final(ns).published_relays == old(ns).published_relays
            &&& final(ns).leases@ == old(ns).leases@.after_offline(node_id)
            &&& final(ns).last_seen == old(ns).last_seen
            &&& final(ns).registry@ == old(ns).registry@.noted(final(ns).directory.revision)
        },
{
    let mine = match ns.sessions.get(name) {
        Some(s) => s.id == id,
        None => false,
    };
    if !mine {
        return None;
    }
    ns.sessions.remove(name);
    ns.leases.offline(node_id);
    ns.directory.set_online(name, false, now);
    ns.directory.exits.remove(name);
    let delta = ns.refresh_directory(now);
    let mtu = if ns.directory.reported_mtu.remove(name).is_some() {
        publish_mtu_if_changed(ns)
    } else {
        None
    };
    Some(Closed { delta, mtu })
}

/// The table says of every client that a relay declares which relay declared
/// it most recently, and of nobody else.
pub open spec fn derived_from(table: Map<NodeId, NodeId>, l: LeasesView) -> bool {
    &&& forall|c: NodeId| #[trigger]
        table.dom().contains(c) <==> exists|relay: NodeId| #[trigger] l.holds(relay, c)
    &&& forall|c: NodeId| #[trigger] table.dom().contains(c) ==> l.wins(table[c], c)
}

/// The entries of which `before` says something else, or nothing.
pub open spec fn moved_entries(now: Seq<(NodeId, NodeId)>, before: Map<NodeId, NodeId>) -> Seq<
    AttachmentEntry,
>
    decreases now.len(),
{
    if now.len() == 0 {
        Seq::empty()
    } else {
        let p = moved_entries(now.drop_last(), before);
        let (node_id, relay_id) = now.last();
        if lookup(before, node_id) == Some(relay_id) {
            p
        } else {
            p.push(AttachmentEntry { node_id, relay_id })
        }
    }
}

/// Those that `now` does not have any more.
pub open spec fn gone_entries(before: Seq<(NodeId, NodeId)>, now: Map<NodeId, NodeId>) -> Seq<
    NodeId,
>
    decreases before.len(),
{
    if before.len() == 0 {
        Seq::empty()
    } else {
        let p = gone_entries(before.drop_last(), now);
        if now.dom().contains(before.last().0) {
            p
        } else {
            p.push(before.last().0)
        }
    }
}

proof fn lemma_nothing_moved(now: Seq<(NodeId, NodeId)>, before: Map<NodeId, NodeId>)
    ensures
        moved_entries(now, before).len() == 0 <==> forall|i: int|
            0 <= i < now.len() ==> lookup(before, (#[trigger] now[i]).0) == Some(now[i].1),
    decreases now.len(),
{
    if now.len() > 0 {
        let d = now.drop_last();
        lemma_nothing_moved(d, before);
        assert forall|i: int| 0 <= i < d.len() implies d[i] == #[trigger] now[i] by {}
        assert(now[now.len() - 1] == now.last());
        if moved_entries(now, before).len() == 0 {
            assert forall|i: int| 0 <= i < now.len() implies lookup(before, (#[trigger] now[i]).0)
                == Some(now[i].1) by {
                if i < d.len() {
                    assert(d[i] == now[i]);
                }
            }
        }
    }
}

proof fn lemma_nothing_gone(before: Seq<(NodeId, NodeId)>, now: Map<NodeId, NodeId>)
    ensures
        gone_entries(before, now).len() == 0 <==> forall|i: int|
            0 <= i < before.len() ==> now.dom().contains((#[trigger] before[i]).0),
    decreases before.len(),
{
    if before.len() > 0 {
        let d = before.drop_last();
        lemma_nothing_gone(d, now);
        assert forall|i: int| 0 <= i < d.len() implies d[i] == #[trigger] before[i] by {}
        assert(before[before.len() - 1] == before.last());
        if gone_entries(before, now).len() == 0 {
            assert forall|i: int| 0 <= i < before.len() implies now.dom().contains(
                (#[trigger] before[i]).0,
            ) by {
                if i < d.len() {
                    assert(d[i] == before[i]);
                }
            }
        }
    }
}

/// Two tables are the same exactly when nothing moved and nothing is gone.
proof fn lemma_same_table(a: IdMap<NodeId>, b: IdMap<NodeId>)
    requires
        a.wf(),
        b.wf(),
    ensures
        a@ == b@ <==> moved_entries(b.entries@, a@).len() == 0 && gone_entries(
            a.entries@,
            b@,
        ).len() == 0,
{
    lemma_nothing_moved(b.entries@, a@);
    lemma_nothing_gone(a.entries@, b@);
    assert forall|i: int| 0 <= i < a.entries@.len() implies lookup(
        a@,
        (#[trigger] a.entries@[i]).0,
    ) == Some(a.entries@[i].1) by {
        lemma_entry(a.entries@, i);
    }
    assert forall|i: int| 0 <= i < b.entries@.len() implies lookup(
        b@,
        (#[trigger] b.entries@[i]).0,
    ) == Some(b.entries@[i].1) by {
        lemma_entry(b.entries@, i);
    }
    if moved_entries(b.entries@, a@).len() == 0 && gone_entries(a.entries@, b@).len() == 0 {
        assert forall|c: NodeId| #[trigger] a@.dom().contains(c) <==> b@.dom().contains(c) by {
            if a@.dom().contains(c) {
                let i = lemma_key(a.entries@, c);
            }
            if b@.dom().contains(c) {
                let i = lemma_key(b.entries@, c);
            }
        }
        assert forall|c: NodeId| a@.dom().contains(c) implies a@[c] == b@[c] by {
            let i = lemma_key(b.entries@, c);
        }
        assert(a@ =~= b@);
    }
}

/// Take over a table of attachments. Returns the change, if there is one.
fn adopt(d: &mut Directory, table: IdMap<NodeId>) -> (r: Option<AttachmentDelta>)
    requires
        old(d).wf(),
        table.wf(),
        old(d).attach_revision < u64::MAX,
    ensures
        final(d).wf(),
        final(d).attachments@ == table@,
        r is Some <==> old(d).attachments@ != table@,
        final(d).attach_revision == old(d).attach_revision + (if r is Some {
            1int
        } else {
            0int
        }),
        *final(d) == (Directory {
            attachments: final(d).attachments,
            attach_revision: final(d).attach_revision,
            ..*old(d)
        }),
        r matches Some(a) ==> {
            &&& a.new_rev == final(d).attach_revision
            &&& a.base_rev == a.new_rev - 1
            &&& a.changed@ == moved_entries(
                final(d).attachments.entries@,
                old(d).attachments@,
            )
            &&& a.detached@ == gone_entries(old(d).attachments.entries@, table@)
        },
{
    let ghost was = d.attachments;
    let ghost now = table.entries@;
    let ghost before = d.attachments.entries@;
    let mut changed: Vec<AttachmentEntry> = Vec::new();
    let mut i: usize = 0;
    assert(changed@ =~= moved_entries(now.take(0), was@));
    while i < table.entries.len()
        invariant
            i <= now.len(),
            now == table.entries@,
            d.attachments == was,
            d.wf(),
            changed@ == moved_entries(now.take(i as int), was@),
        decreases now.len() - i,
    {
        assert(now.take(i + 1).drop_last() =~= now.take(i as int));
        assert(now.take(i + 1).last() == now[i as int]);
        let (node_id, relay_id) = table.entries[i];
        let same = match d.attachments.get(node_id) {
            Some(r) => *r == relay_id,
            None => false,
        };
        if !same {
            changed.push(AttachmentEntry { node_id, relay_id });
        }
        i = i + 1;
    }
    assert(now.take(i as int) =~= now);
    let mut detached: Vec<NodeId> = Vec::new();
    let mut k: usize = 0;
    assert(detached@ =~= gone_entries(before.take(0), table@));
    while k < d.attachments.entries.len()
        invariant
            k <= before.len(),
            before == d.attachments.entries@,
            table.wf(),
            detached@ == gone_entries(before.take(k as int), table@),
        decreases before.len() - k,
    {
        assert(before.take(k + 1).drop_last() =~= before.take(k as int));
        assert(before.take(k + 1).last() == before[k as int]);
        let c = d.attachments.entries[k].0;
        if !table.contains_key(c) {
            detached.push(c);
        }
        k = k + 1;
    }
    assert(before.take(k as int) =~= before);
    proof {
        lemma_same_table(was, table);
    }
    if changed.len() == 0 && detached.len() == 0 {
        return None;
    }
    d.attachments = table;
    d.attach_revision = d.attach_revision + 1;
    let rev = d.attach_revision;
    Some(AttachmentDelta { base_rev: rev - 1, new_rev: rev, changed, detached })
}

/// Who a verified credential belongs to.
#[derive(Debug)]
pub struct Identity {
    pub network_id: String,
    pub sub: String,
    pub node_id: NodeId,
    pub role: Role,
    pub cert_fp: String,
    /// Counts the machines that joined as this member, one after another.
    pub login_gen: u64,
    /// When the credential expires, in seconds.
    pub exp: u64,
}

/// A message from a member.
#[derive(Debug)]
pub enum Upstream {
    Ping,
    /// What the member holds: the view, and for a relay all of its clients.
    /// `at_ms` is when it came, `digest` that of the published view, and
    /// `grace` whether the coordinator still collects before it publishes.
    Heartbeat { beat: Heartbeat, at_ms: u64, digest: u64, grace: bool },
    /// The member asks to be brought up to date from a generation.
    Resync { have: u64, grace: bool },
    /// Relays: a client attached or detached.
    Attach { node_id: NodeId, attached: bool },
    /// Relays: traffic counters.
    Traffic(TrafficReport),
    /// The usable MTU of the member's uplink.
    Mtu(u16),
    /// Relays: whether the host can be a way out to the internet.
    Exit(ExitReadiness),
    /// A fresh credential, verified.
    Refresh(Identity),
    /// A kind that this version does not know, skipped.
    Unknown,
}

/// What a message makes the coordinator push.
#[derive(Debug)]
pub struct Reaction {
    /// For relays.
    pub attachments: Option<AttachmentDelta>,
    /// For everyone.
    pub mtu: Option<NetworkMtu>,
    /// For everyone.
    pub delta: Option<MembershipDelta>,
    /// For the member itself: what brings it up to date, where it said which
    /// generation it holds.
    pub catch_up: Option<CatchUp>,
}

impl Reaction {
    /// Nothing is pushed.
    pub open spec fn quiet(self) -> bool {
        self.attachments is None && self.mtu is None && self.delta is None && self.catch_up is None
    }

    fn none() -> (r: Reaction)
        ensures
            r.quiet(),
    {
        Reaction { attachments: None, mtu: None, delta: None, catch_up: None }
    }
}

/// A session that another credential was presented for: it lasts until the
/// later of the two expires.
pub open spec fn extended(s: SessionInfo, exp: u64) -> SessionInfo {
    SessionInfo {
        exp: if s.exp < exp {
            exp
        } else {
            s.exp
        },
        ..s
    }
}

/// A credential continues the identity of a session: it may update what the
/// member may do, never who the session belongs to.
pub open spec fn continues(
    network_id: Seq<char>,
    name: Seq<char>,
    node_id: NodeId,
    role: Role,
    fp: Seq<char>,
    c: Identity,
) -> bool {
    &&& c.network_id@ == network_id
    &&& c.sub@ == name
    &&& c.node_id == node_id
    &&& c.role == role
    &&& c.cert_fp@ == fp
}

/// Why a message ends the session.
pub open spec fn message_refusal(
    network_id: Seq<char>,
    name: Seq<char>,
    node_id: NodeId,
    role: Role,
    fp: Seq<char>,
    msg: Upstream,
) -> Option<Seq<char>> {
    match msg {
        Upstream::Attach { .. } if role != Role::Relay => Some("only relays may send Attach"@),
        Upstream::Traffic(_) if role != Role::Relay => Some(
            "only relays may send TrafficReport"@,
        ),
        Upstream::Exit(_) if role != Role::Relay => Some("only relays may send ExitReadiness"@),
        Upstream::Refresh(c) if !continues(network_id, name, node_id, role, fp, c) => Some(
            said(
                seq![
                    "Refresh identity mismatch: session is "@,
                    name,
                    "/"@,
                    decimal(node_id as nat),
                    ", credential is "@,
                    c.sub@,
                    "/"@,
                    decimal(c.node_id as nat),
                ],
            ),
        ),
        _ => None,
    }
}

/// The state after a message that is accepted, and what is pushed.
pub open spec fn message_effect(
    before: NetState,
    after: NetState,
    name: Seq<char>,
    node_id: NodeId,
    role: Role,
    msg: Upstream,
    now: u64,
    r: Reaction,
) -> bool {
    match msg {
        Upstream::Ping => {
            &&& after.last_seen@ == before.last_seen@.insert(name, now)
            &&& after == (NetState { last_seen: after.last_seen, ..before })
            &&& r.quiet()
        },
        Upstream::Refresh(c) => {
            &&& after.last_seen@ == before.last_seen@.insert(name, now)
            &&& after.sessions@ == if before.sessions@.dom().contains(name) {
                before.sessions@.insert(name, extended(before.sessions@[name], c.exp))
            } else {
                before.sessions@
            }
            &&& after == (NetState {
                last_seen: after.last_seen,
                sessions: after.sessions,
                ..before
            })
            &&& r.quiet()
        },
        Upstream::Resync { have, grace } => {
            &&& after == before
            &&& r.attachments is None && r.mtu is None && r.delta is None
            &&& r.catch_up matches Some(c) && c@ == catch_up(
                delta_views(before.directory.history.deltas@),
                before.directory.revision,
                0,
                have,
                None,
                grace,
            )
        },
        Upstream::Heartbeat { beat, at_ms, digest, grace } => {
            let d = before.directory;
            &&& after.last_seen@ == before.last_seen@.insert(name, now)
            &&& after.leases@ == before.leases@.after_heartbeat(node_id, role, beat, at_ms)
            &&& r.mtu is None && r.delta is None
            &&& r.catch_up matches Some(c) && c@ == catch_up(
                delta_views(d.history.deltas@),
                d.revision,
                digest,
                beat.gen,
                Some(beat.digest),
                grace,
            )
            &&& after == (NetState {
                last_seen: after.last_seen,
                leases: after.leases,
                directory: after.directory,
                ..before
            })
            &&& after.directory == (Directory {
                attachments: after.directory.attachments,
                attach_revision: after.directory.attach_revision,
                ..d
            })
            &&& match role {
                Role::Client => after.directory == d && r.attachments is None,
                Role::Relay => {
                    &&& derived_from(after.directory.attachments@, after.leases@)
                    &&& r.attachments is Some <==> d.attachments@ != after.directory.attachments@
                    &&& after.directory.attach_revision == d.attach_revision + (if r.attachments is Some {
                        1int
                    } else {
                        0int
                    })
                    &&& r.attachments matches Some(a) ==> {
                        &&& a.new_rev == after.directory.attach_revision
                        &&& a.base_rev == a.new_rev - 1
                        &&& a.changed@ == moved_entries(
                            after.directory.attachments.entries@,
                            d.attachments@,
                        )
                        &&& a.detached@ == gone_entries(
                            d.attachments.entries@,
                            after.directory.attachments@,
                        )
                    }
                },
            }
        },
        Upstream::Attach { node_id: client, attached } => {
            let relay = if attached {
                Some(node_id)
            } else {
                None
            };
            let d = before.directory;
            let changed = lookup(d.attachments@, client) != relay;
            &&& after.directory.attachments@ == (if attached {
                d.attachments@.insert(client, node_id)
            } else {
                d.attachments@.remove(client)
            })
            &&& after.directory.attach_revision == d.attach_revision + (if changed {
                1int
            } else {
                0int
            })
            &&& after == (NetState {
                directory: Directory {
                    attachments: after.directory.attachments,
                    attach_revision: after.directory.attach_revision,
                    ..d
                },
                ..before
            })
            &&& r.mtu is None && r.delta is None && r.catch_up is None
            &&& r.attachments is Some <==> changed
            &&& r.attachments matches Some(a) ==> {
                &&& a.new_rev == after.directory.attach_revision
                &&& a.base_rev == a.new_rev - 1
                &&& a.changed@ == (if attached {
                    seq![AttachmentEntry { node_id: client, relay_id: node_id }]
                } else {
                    Seq::empty()
                })
                &&& a.detached@ == (if attached {
                    Seq::empty()
                } else {
                    seq![client]
                })
            }
        },
        Upstream::Traffic(report) => {
            &&& after.directory.traffic@ == fresh(
                before.directory.traffic@.insert(
                    name,
                    next_sample(before.directory.traffic@, name, report, now),
                ),
                now,
            )
            &&& after == (NetState {
                directory: Directory { traffic: after.directory.traffic, ..before.directory },
                ..before
            })
            &&& r.quiet()
        },
        Upstream::Mtu(usable) => {
            let known = before.directory.reported_mtu.at(name) == Some(usable);
            let m = mtu_of(after.directory, before.cfg.settings.mtu);
            &&& after.directory.reported_mtu@ == before.directory.reported_mtu@.insert(
                name,
                usable,
            )
            &&& after == (NetState {
                directory: Directory {
                    reported_mtu: after.directory.reported_mtu,
                    published_mtu: after.directory.published_mtu,
                    ..before.directory
                },
                ..before
            })
            &&& r.attachments is None && r.delta is None && r.catch_up is None
            &&& mtu_view(r.mtu) == if known || mtu_view(before.directory.published_mtu) == Some(m) {
                None
            } else {
                Some(m)
            }
            &&& mtu_view(after.directory.published_mtu) == if known {
                mtu_view(before.directory.published_mtu)
            } else {
                Some(m)
            }
        },
        Upstream::Exit(readiness) => {
            let reports = before.directory.exits@.insert(name, readiness);
            let goal = crate::directory::peers_of(
                before.registry@.members,
                before.next_owners(now),
                before.directory.online_since@,
                before.cfg@,
                reports,
            );
            let prev = peer_views(before.directory.peers@);
            &&& after.directory.exits@ == reports
            &&& peer_views(after.directory.peers@) == goal
            &&& owner_views(after.directory.owners@) == before.next_owners(now)
            &&& after.directory == (Directory {
                exits: after.directory.exits,
                owners: after.directory.owners,
                peers: after.directory.peers,
                revision: after.directory.revision,
                history: after.directory.history,
                ..before.directory
            })
            &&& keeps(before.directory.history, after.directory.history, r.delta)
            &&& after.registry@ == before.registry@.noted(after.directory.revision)
            &&& after == (NetState {
                directory: after.directory,
                registry: after.registry,
                ..before
            })
            &&& r.attachments is None && r.mtu is None && r.catch_up is None
            &&& r.delta is Some <==> prev != goal
            &&& r.delta is None ==> after.directory.revision == before.directory.revision
            &&& r.delta matches Some(d) ==> {
                &&& after.directory.revision == before.directory.revision + 1
                &&& d.base_rev == before.directory.revision
                &&& d.new_rev == after.directory.revision
                &&& peer_views(d.changed@) == changed_peers(prev, goal)
                &&& d.removed@ == removed_peers(prev, goal)
            }
        },
        Upstream::Unknown => {
            &&& after == before
            &&& r.quiet()
        },
    }
}

/// Fold in a message of a session. The error ends the session and changes
/// nothing.
pub fn on_message(
    ns: &mut NetState,
    network_id: &str,
    name: &str,
    node_id: NodeId,
    role: Role,
    fp: &str,
    msg: Upstream,
    now: u64,
) -> (r: Result<Reaction, String>)
    requires
        old(ns).wf(),
        old(ns).directory.attach_revision < u64::MAX,
        msg matches Upstream::Heartbeat { beat, .. } ==> old(ns).leases@.next_seq
            + beat.attached@.len() <= u64::MAX,
        msg is Exit ==> gen_room(old(ns).directory.revision),
    ensures
        final(ns).wf(),
        match r {
            Ok(x) => message_refusal(network_id@, name@, node_id, role, fp@, msg) is None
                && message_effect(*old(ns), *final(ns), name@, node_id, role, msg, now, x),
            Err(e) => message_refusal(network_id@, name@, node_id, role, fp@, msg) == Some(e@)
                && *final(ns) == *old(ns),
        },
{
    match msg {
        Upstream::Ping => {
            ns.last_seen.insert(name.to_owned(), now);
            Ok(Reaction::none())
        },
        Upstream::Resync { have, grace } => {
            let c = ns.directory.history.answer(ns.directory.revision, 0, have, None, grace);
            Ok(Reaction { attachments: None, mtu: None, delta: None, catch_up: Some(c) })
        },
        Upstream::Heartbeat { beat, at_ms, digest, grace } => {
            ns.last_seen.insert(name.to_owned(), now);
            ns.leases.heartbeat(node_id, role, &beat, at_ms);
            let c = ns.directory.history.answer(
                ns.directory.revision,
                digest,
                beat.gen,
                Some(beat.digest),
                grace,
            );
            if role != Role::Relay {
                return Ok(
                    Reaction { attachments: None, mtu: None, delta: None, catch_up: Some(c) },
                );
            }
            let table = ns.leases.attachments();
            let attachments = adopt(&mut ns.directory, table);
            Ok(Reaction { attachments, mtu: None, delta: None, catch_up: Some(c) })
        },
        Upstream::Attach { node_id: client, attached } => {
            if role != Role::Relay {
                return Err("only relays may send Attach".to_owned());
            }
            let relay = if attached {
                Some(node_id)
            } else {
                None
            };
            let changed = ns.directory.set_attachment(client, relay);
            if !changed {
                return Ok(Reaction::none());
            }
            let rev = ns.directory.attach_revision;
            let mut entries: Vec<AttachmentEntry> = Vec::new();
            let mut detached: Vec<NodeId> = Vec::new();
            if attached {
                entries.push(AttachmentEntry { node_id: client, relay_id: node_id });
            } else {
                detached.push(client);
            }
            assert(attached ==> entries@ =~= seq![
                AttachmentEntry { node_id: client, relay_id: node_id },
            ]);
            assert(!attached ==> detached@ =~= seq![client]);
            Ok(
                Reaction {
                    attachments: Some(
                        AttachmentDelta {
                            base_rev: rev - 1,
                            new_rev: rev,
                            changed: entries,
                            detached,
                        },
                    ),
                    mtu: None,
                    delta: None,
                    catch_up: None,
                },
            )
        },
        Upstream::Traffic(report) => {
            if role != Role::Relay {
                return Err("only relays may send TrafficReport".to_owned());
            }
            ns.directory.record_traffic(name, report, now);
            Ok(Reaction::none())
        },
        Upstream::Mtu(usable) => {
            let known = match ns.directory.reported_mtu.insert(name.to_owned(), usable) {
                Some(was) => was == usable,
                None => false,
            };
            let mtu = if known {
                None
            } else {
                publish_mtu_if_changed(ns)
            };
            Ok(Reaction { attachments: None, mtu, delta: None, catch_up: None })
        },
        Upstream::Exit(readiness) => {
            if role != Role::Relay {
                return Err("only relays may send ExitReadiness".to_owned());
            }
            ns.directory.exits.insert(name.to_owned(), readiness);
            let delta = ns.refresh_directory(now);
            Ok(Reaction { attachments: None, mtu: None, delta, catch_up: None })
        },
        Upstream::Refresh(c) => {
            if !str_eq(c.network_id.as_str(), network_id) || !str_eq(c.sub.as_str(), name)
                || c.node_id != node_id || c.role != role || !str_eq(c.cert_fp.as_str(), fp) {
                let mine = decimal_text(node_id as u64);
                let theirs = decimal_text(c.node_id as u64);
                let parts = vec![
                    "Refresh identity mismatch: session is ",
                    name,
                    "/",
                    mine.as_str(),
                    ", credential is ",
                    c.sub.as_str(),
                    "/",
                    theirs.as_str(),
                ];
                assert(texts(parts@) =~= seq![
                    "Refresh identity mismatch: session is "@,
                    name@,
                    "/"@,
                    decimal(node_id as nat),
                    ", credential is "@,
                    c.sub@,
                    "/"@,
                    decimal(c.node_id as nat),
                ]);
                return Err(say(&parts));
            }
            ns.last_seen.insert(name.to_owned(), now);
            if let Some(i) = ns.sessions.position(name) {
                let ghost was = ns.sessions.entries@;
                if ns.sessions.entries[i].1.exp < c.exp {
                    ns.sessions.entries[i].1.exp = c.exp;
                }
                proof {
                    let e = (was[i as int].0, extended(was[i as int].1, c.exp));
                    lemma_name_replaced(was, i as int, e);
                    assert(ns.sessions.entries@ =~= was.update(i as int, e));
                }
            }
            Ok(Reaction::none())
        },
        Upstream::Unknown => Ok(Reaction::none()),
    }
}

/// A heartbeat brings a member up to date: one that missed changes which are
/// still kept is sent them, and holds the published view once it has applied
/// them; one that holds the published view needs nothing; one that holds
/// something else under the same generation, or a generation that is not
/// known, is sent the whole view.
pub proof fn law_a_heartbeat_catches_a_member_up(
    before: NetState,
    after: NetState,
    name: Seq<char>,
    node_id: NodeId,
    role: Role,
    beat: Heartbeat,
    at_ms: u64,
    digest: u64,
    now: u64,
    r: Reaction,
    views: Seq<Seq<PeerView>>,
)
    requires
        before.wf(),
        message_effect(
            before,
            after,
            name,
            node_id,
            role,
            Upstream::Heartbeat { beat, at_ms, digest, grace: false },
            now,
            r,
        ),
        spans(views, delta_views(before.directory.history.deltas@)),
        views.last() == peer_views(before.directory.peers@),
    ensures
        ({
            let s = delta_views(before.directory.history.deltas@);
            let gen = before.directory.revision;
            r.catch_up matches Some(c) && {
                &&& beat.gen == gen && beat.digest == digest ==> c is Current
                &&& beat.gen == gen && beat.digest != digest ==> c == (CatchUp::Snapshot {
                    mismatch: true,
                })
                &&& forall|k: int|
                    0 <= k < s.len() && (#[trigger] s[k]).base_rev == beat.gen ==> (
                    c matches CatchUp::Deltas(ds) && patched_by(
                        peer_map(views[k]),
                        delta_views(ds@),
                    ) == peer_map(peer_views(after.directory.peers@)))
                &&& beat.gen != gen && (forall|k: int|
                    0 <= k < s.len() ==> (#[trigger] s[k]).base_rev != beat.gen) ==> c == (
                CatchUp::Snapshot { mismatch: false })
            }
        }),
{
    let h = before.directory.history;
    let s = delta_views(h.deltas@);
    let gen = before.directory.revision;
    assert(s.len() == h.deltas@.len());
    assert(s.len() > 0 ==> s.last() == h.deltas@.last()@);
    assert forall|k: int| 0 <= k < s.len() && (#[trigger] s[k]).base_rev == beat.gen implies ((
    r.catch_up->0) matches CatchUp::Deltas(ds) && patched_by(peer_map(views[k]), delta_views(ds@))
        == peer_map(peer_views(after.directory.peers@))) by {
        lemma_leading(s, k);
        lemma_ascending(s, k);
        law_deltas_catch_a_member_up(views, s, k);
    }
    if forall|k: int| 0 <= k < s.len() ==> (#[trigger] s[k]).base_rev != beat.gen {
        lemma_not_starting(s, beat.gen);
    }
}

/// Why a credential is not accepted. `network` and `subject` are what it
/// says of itself before it is verified; `verified` is what verifying it
/// against the network's keys gave.
pub open spec fn credential_refusal(
    nets: Seq<(String, NetState)>,
    network: Option<Seq<char>>,
    subject: Option<Seq<char>>,
    verified: Result<Identity, Seq<char>>,
    presented_fp: Seq<char>,
) -> Option<Seq<char>> {
    match network {
        None => Some("malformed credential"@),
        Some(id) => match net_index(nets, id) {
            None => Some("unknown network "@ + id),
            Some(i) => match verified {
                Err(e) => Some("credential rejected: "@ + e),
                Ok(c) => {
                    let sub = match subject {
                        Some(s) => s,
                        None => Seq::empty(),
                    };
                    let known = named(nets[i].1.registry@.members, sub);
                    if known is None || known->0.disabled {
                        Some(said(seq!["member "@, c.sub@, " is disabled or unknown"@]))
                    } else if c.login_gen < known->0.login_gen {
                        Some(said(seq!["member "@, c.sub@, " joined again from elsewhere"@]))
                    } else if c.cert_fp@ != presented_fp {
                        Some(
                            said(
                                seq![
                                    "cert_fp mismatch: credential says "@,
                                    c.cert_fp@,
                                    ", TLS presented "@,
                                    presented_fp,
                                ],
                            ),
                        )
                    } else {
                        None
                    }
                },
            },
        },
    }
}

/// The position of the network with this id.
pub open spec fn net_index(nets: Seq<(String, NetState)>, id: Seq<char>) -> Option<int>
    decreases nets.len(),
{
    if nets.len() == 0 {
        None
    } else {
        match net_index(nets.drop_last(), id) {
            Some(i) => Some(i),
            None => if nets.last().0@ == id {
                Some(nets.len() - 1)
            } else {
                None
            },
        }
    }
}

/// The position of the network with this id.
pub fn find_network(nets: &NameMap<NetState>, id: &str) -> (r: Option<usize>)
    ensures
        match r {
            Some(i) => i < nets.entries@.len() && net_index(nets.entries@, id@) == Some(i as int)
                && nets.entries@[i as int].0@ == id@,
            None => net_index(nets.entries@, id@) is None,
        },
{
    let ghost s = nets.entries@;
    let mut found: Option<usize> = None;
    let mut i: usize = 0;
    while i < nets.entries.len()
        invariant
            i <= s.len(),
            s == nets.entries@,
            match found {
                Some(k) => k < i && net_index(s.take(i as int), id@) == Some(k as int) && s[k as int].0@
                    == id@,
                None => net_index(s.take(i as int), id@) is None,
            },
        decreases s.len() - i,
    {
        assert(s.take(i + 1).drop_last() =~= s.take(i as int));
        assert(s.take(i + 1).last() == s[i as int]);
        if found.is_none() && str_eq(nets.entries[i].0.as_str(), id) {
            found = Some(i);
        }
        i = i + 1;
    }
    assert(s.take(i as int) =~= s);
    found
}

/// The content of what verifying a credential gave.
pub open spec fn verified_view(v: Result<Identity, String>) -> Result<Identity, Seq<char>> {
    match v {
        Ok(c) => Ok(c),
        Err(e) => Err(e@),
    }
}

/// Accept a credential that was verified: the network and the member are
/// known, the member is neither disabled nor replaced by a newer join, and
/// the certificate of the connection is the one that the credential names. Returns the network's position.
pub fn verify_credential(
    nets: &NameMap<NetState>,
    network: Option<&str>,
    subject: Option<&str>,
    verified: &Result<Identity, String>,
    presented_fp: &str,
) -> (r: Result<usize, String>)
    ensures
        ({
            let refusal = credential_refusal(
                nets.entries@,
                match network {
                    Some(s) => Some(s@),
                    None => None,
                },
                match subject {
                    Some(s) => Some(s@),
                    None => None,
                },
                verified_view(*verified),
                presented_fp@,
            );
            match r {
                Ok(i) => refusal is None && i < nets.entries@.len() && net_index(
                    nets.entries@,
                    network->0@,
                ) == Some(i as int),
                Err(e) => refusal == Some(e@),
            }
        }),
{
    let id = match network {
        Some(id) => id,
        None => {
            return Err("malformed credential".to_owned());
        },
    };
    let i = match find_network(nets, id) {
        Some(i) => i,
        None => {
            let mut m = "unknown network ".to_owned();
            m.append(id);
            return Err(m);
        },
    };
    let none = String::new();
    let sub = match subject {
        Some(s) => s,
        None => none.as_str(),
    };
    assert(subject is None ==> sub@ =~= Seq::<char>::empty());
    let (barred, newest): (bool, u64) = match nets.entries[i].1.registry.by_name(sub) {
        Some(rec) => (rec.disabled, rec.login_gen),
        None => (true, 0),
    };
    match verified {
        Err(e) => {
            let mut m = "credential rejected: ".to_owned();
            m.append(e.as_str());
            Err(m)
        },
        Ok(c) => {
            if barred {
                let parts = vec!["member ", c.sub.as_str(), " is disabled or unknown"];
                assert(texts(parts@) =~= seq!["member "@, c.sub@, " is disabled or unknown"@]);
                return Err(say(&parts));
            }
            if c.login_gen < newest {
                let parts = vec!["member ", c.sub.as_str(), " joined again from elsewhere"];
                assert(texts(parts@) =~= seq!["member "@, c.sub@, " joined again from elsewhere"@]);
                return Err(say(&parts));
            }
            if !str_eq(c.cert_fp.as_str(), presented_fp) {
                let parts = vec![
                    "cert_fp mismatch: credential says ",
                    c.cert_fp.as_str(),
                    ", TLS presented ",
                    presented_fp,
                ];
                assert(texts(parts@) =~= seq![
                    "cert_fp mismatch: credential says "@,
                    c.cert_fp@,
                    ", TLS presented "@,
                    presented_fp@,
                ]);
                return Err(say(&parts));
            }
            Ok(i)
        },
    }
}

/// An instance that another machine replaced does not get back in: its
/// credential is refused, even before it expires.
pub proof fn law_a_replaced_instance_is_refused(
    nets: Seq<(String, NetState)>,
    network: Seq<char>,
    subject: Seq<char>,
    c: Identity,
    presented_fp: Seq<char>,
)
    requires
        net_index(nets, network) matches Some(i) && (named(
            nets[i].1.registry@.members,
            subject,
        ) matches Some(rec) && c.login_gen < rec.login_gen),
    ensures
        credential_refusal(nets, Some(network), Some(subject), Ok(c), presented_fp) is Some,
{
}

/// A fresh credential never hands a session to another member, role or
/// machine.
pub proof fn law_a_refresh_never_rebinds_a_session(
    network_id: Seq<char>,
    name: Seq<char>,
    node_id: NodeId,
    role: Role,
    fp: Seq<char>,
    c: Identity,
)
    ensures
        message_refusal(network_id, name, node_id, role, fp, Upstream::Refresh(c)) is None
            <==> c.network_id@ == network_id && c.sub@ == name && c.node_id == node_id && c.role
            == role && c.cert_fp@ == fp,
{
}

/// A session has been silent for longer than the window. One that never sent
/// a keepalive is not counted as silent.
pub open spec fn is_silent(last_seen: Map<Seq<char>, u64>, name: Seq<char>, window: nat, now: u64)
    -> bool {
    last_seen.dom().contains(name) && last_seen[name] != 0 && now - last_seen[name] > window
}

/// The names of the silent sessions, in order.
pub open spec fn silent_sessions(
    s: Seq<(String, SessionInfo)>,
    last_seen: Map<Seq<char>, u64>,
    window: nat,
    now: u64,
) -> Seq<Seq<char>>
    decreases s.len(),
{
    if s.len() == 0 {
        Seq::empty()
    } else {
        let p = silent_sessions(s.drop_last(), last_seen, window, now);
        if is_silent(last_seen, s.last().0@, window, now) {
            p.push(s.last().0@)
        } else {
            p
        }
    }
}

/// The names of the sessions whose credential has expired, in order.
pub open spec fn expired_sessions(s: Seq<(String, SessionInfo)>, now: u64) -> Seq<Seq<char>>
    decreases s.len(),
{
    if s.len() == 0 {
        Seq::empty()
    } else {
        let p = expired_sessions(s.drop_last(), now);
        if s.last().1.exp <= now {
            p.push(s.last().0@)
        } else {
            p
        }
    }
}

proof fn lemma_expired(s: Seq<(String, SessionInfo)>, now: u64, name: Seq<char>)
    ensures
        expired_sessions(s, now).contains(name) <==> exists|i: int|
            0 <= i < s.len() && (#[trigger] s[i]).0@ == name && s[i].1.exp <= now,
    decreases s.len(),
{
    if s.len() > 0 {
        let d = s.drop_last();
        lemma_expired(d, now, name);
        let p = expired_sessions(d, now);
        let e = expired_sessions(s, now);
        if e.contains(name) {
            let k = choose|k: int| 0 <= k < e.len() && e[k] == name;
            if k < p.len() {
                assert(p[k] == name);
                let i = choose|i: int|
                    0 <= i < d.len() && (#[trigger] d[i]).0@ == name && d[i].1.exp <= now;
                assert(s[i].0@ == name);
            } else {
                assert(s[s.len() - 1].0@ == name);
            }
        }
        if exists|i: int| 0 <= i < s.len() && (#[trigger] s[i]).0@ == name && s[i].1.exp <= now {
            let i = choose|i: int|
                0 <= i < s.len() && (#[trigger] s[i]).0@ == name && s[i].1.exp <= now;
            if i < d.len() {
                assert(d[i].0@ == name);
                let k = choose|k: int| 0 <= k < p.len() && p[k] == name;
                assert(e[k] == name);
            } else {
                assert(e[p.len() as int] == name);
            }
        }
    }
}

/// A session ends when its credential does: a sweep names exactly those that
/// are registered with a credential that has expired.
pub proof fn law_a_session_ends_at_expiry(sessions: NameMap<SessionInfo>, now: u64, name: Seq<char>)
    requires
        sessions.wf(),
    ensures
        expired_sessions(sessions.entries@, now).contains(name) <==> sessions@.dom().contains(name)
            && sessions@[name].exp <= now,
{
    let s = sessions.entries@;
    lemma_expired(s, now, name);
    if sessions@.dom().contains(name) {
        let i = lemma_name_key(s, name);
    }
    assert forall|i: int| 0 <= i < s.len() && (#[trigger] s[i]).0@ == name implies
        sessions@.dom().contains(name) && sessions@[name] == s[i].1 by {
        lemma_named_entry(s, i);
    }
}

/// A fresh credential extends a session to its own expiry, never shortens it,
/// and changes nothing else of it. Before that expiry the session does not
/// end for its age.
pub proof fn law_a_refresh_extends_the_session(
    before: NetState,
    after: NetState,
    name: Seq<char>,
    node_id: NodeId,
    role: Role,
    c: Identity,
    now: u64,
    r: Reaction,
    later: u64,
)
    requires
        after.sessions.wf(),
        before.sessions@.dom().contains(name),
        message_effect(before, after, name, node_id, role, Upstream::Refresh(c), now, r),
    ensures
        after.sessions@.dom().contains(name),
        after.sessions@[name].exp >= c.exp,
        after.sessions@[name].exp >= before.sessions@[name].exp,
        after.sessions@[name] == (SessionInfo {
            exp: after.sessions@[name].exp,
            ..before.sessions@[name]
        }),
        later < c.exp ==> !expired_sessions(after.sessions.entries@, later).contains(name),
{
    law_a_session_ends_at_expiry(after.sessions, later, name);
}

/// What a sweep finds.
#[derive(Debug)]
pub struct Swept {
    /// Ownership can fall due by the passage of time alone.
    pub delta: Option<MembershipDelta>,
    /// The sessions to close because nothing was heard of them.
    pub stale: Vec<String>,
    /// The sessions to close because their credential has expired.
    pub expired: Vec<String>,
}

/// One sweep of a network: drop the traffic of relays that went quiet,
/// re-evaluate ownership, and find the sessions that have gone silent and
/// those that have come to their end.
pub fn liveness_sweep(ns: &mut NetState, now: u64) -> (r: Swept)
    requires
        old(ns).wf(),
        gen_room(old(ns).directory.revision),
    ensures
        final(ns).wf(),
        final(ns).directory.traffic@ == fresh(old(ns).directory.traffic@, now),
        peer_views(final(ns).directory.peers@) == old(ns).next_view(now),
        owner_views(final(ns).directory.owners@) == old(ns).next_owners(now),
        r.delta is Some <==> peer_views(old(ns).directory.peers@) != old(ns).next_view(now),
        r.delta matches Some(d) ==> d.base_rev == old(ns).directory.revision && d.new_rev
            == final(ns).directory.revision && peer_views(d.changed@) == changed_peers(
            peer_views(old(ns).directory.peers@),
            old(ns).next_view(now),
        ) && d.removed@ == removed_peers(
            peer_views(old(ns).directory.peers@),
            old(ns).next_view(now),
        ),
        crate::state::messages(r.stale@) == silent_sessions(
            old(ns).sessions.entries@,
            old(ns).last_seen@,
            old(ns).cfg@.settings.liveness_window(),
            now,
        ),
        crate::state::messages(r.expired@) == expired_sessions(old(ns).sessions.entries@, now),
        final(ns).sessions == old(ns).sessions,
        final(ns).cfg == old(ns).cfg,
        final(ns).leases == old(ns).leases,
        final(ns).last_seen == old(ns).last_seen,
        final(ns).published_relays == old(ns).published_relays,
        final(ns).registry@ == old(ns).registry@.noted(final(ns).directory.revision),
        final(ns).registry@.gen_hwm > final(ns).directory.revision,
        final(ns).directory.revision == old(ns).directory.revision + (if r.delta is Some {
            1int
        } else {
            0int
        }),
        final(ns).directory == (Directory {
            traffic: final(ns).directory.traffic,
            owners: final(ns).directory.owners,
            peers: final(ns).directory.peers,
            revision: final(ns).directory.revision,
            history: final(ns).directory.history,
            ..old(ns).directory
        }),
        keeps(old(ns).directory.history, final(ns).directory.history, r.delta),
{
    ns.directory.prune_traffic(now);
    let delta = ns.refresh_directory(now);
    let window = ns.cfg.settings.liveness_window_secs();
    let ghost s = ns.sessions.entries@;
    let ghost seen = ns.last_seen@;
    let mut stale: Vec<String> = Vec::new();
    let mut expired: Vec<String> = Vec::new();
    let mut i: usize = 0;
    assert(crate::state::messages(expired@) =~= expired_sessions(s.take(0), now));
    assert(crate::state::messages(stale@) =~= silent_sessions(
        s.take(0),
        seen,
        window as nat,
        now,
    ));
    while i < ns.sessions.entries.len()
        invariant
            i <= s.len(),
            s == ns.sessions.entries@,
            seen == ns.last_seen@,
            ns.wf(),
            crate::state::messages(stale@) == silent_sessions(
                s.take(i as int),
                seen,
                window as nat,
                now,
            ),
            crate::state::messages(expired@) == expired_sessions(s.take(i as int), now),
        decreases s.len() - i,
    {
        assert(s.take(i + 1).drop_last() =~= s.take(i as int));
        assert(s.take(i + 1).last() == s[i as int]);
        let name = &ns.sessions.entries[i].0;
        let silent = match ns.last_seen.get(name.as_str()) {
            Some(last) => *last != 0 && now.saturating_sub(*last) > window,
            None => false,
        };
        let ghost was = crate::state::messages(stale@);
        if silent {
            let n = name.clone();
            let ghost nv = n@;
            stale.push(n);
            assert(crate::state::messages(stale@) =~= was.push(nv));
        }
        if ns.sessions.entries[i].1.exp <= now {
            let ghost was = crate::state::messages(expired@);
            let n = name.clone();
            let ghost nv = n@;
            expired.push(n);
            assert(crate::state::messages(expired@) =~= was.push(nv));
        }
        i = i + 1;
    }
    assert(s.take(i as int) =~= s);
    Swept { delta, stale, expired }
}

/// A push goes to whoever is connected and meant: everyone, everyone but one,
/// or the relays.
pub proof fn law_a_push_reaches_its_audience(
    s: Seq<(String, SessionInfo)>,
    a: Audience,
    name: Seq<char>,
)
    ensures
        audience_of(s, a).contains(name) <==> exists|i: int|
            0 <= i < s.len() && (#[trigger] s[i]).0@ == name && match a {
                Audience::Everyone => true,
                Audience::Except(skip) => name != skip@,
                Audience::Relays => s[i].1.role == Role::Relay,
            },
    decreases s.len(),
{
    let all = audience_of(s, a);
    if s.len() == 0 {
        assert(all =~= Seq::empty());
    } else {
        let d = s.drop_last();
        let p = audience_of(d, a);
        law_a_push_reaches_its_audience(d, a, name);
        assert forall|i: int| 0 <= i < d.len() implies d[i] == #[trigger] s[i] by {}
        assert(s[s.len() - 1] == s.last());
        if all.contains(name) {
            let k = choose|k: int| 0 <= k < all.len() && all[k] == name;
            if k < p.len() {
                assert(p[k] == name);
                assert(p.contains(name));
            }
        }
        if p.contains(name) {
            let k = choose|k: int| 0 <= k < p.len() && p[k] == name;
            assert(all[k] == name);
        }
        if s.last().0@ == name && hears(a, name, s.last().1) {
            assert(all[p.len() as int] == name);
        }
    }
}

/// A sweep finds the sessions that were heard of, and of which nothing was
/// heard for longer than so many heartbeats as the settings allow to be
/// missed.
pub proof fn law_a_silent_session_is_found(
    sessions: NameMap<SessionInfo>,
    last_seen: Map<Seq<char>, u64>,
    settings: crate::config::SettingsView,
    now: u64,
    name: Seq<char>,
)
    requires
        sessions.wf(),
        settings.heartbeat_secs > 0,
        settings.offline_after > 0,
    ensures
        silent_sessions(
            sessions.entries@,
            last_seen,
            settings.liveness_window(),
            now,
        ).contains(name) <==> sessions@.dom().contains(name) && last_seen.dom().contains(name)
            && last_seen[name] != 0 && now - last_seen[name] > settings.heartbeat_secs
            * settings.offline_after,
{
    let s = sessions.entries@;
    let window = settings.liveness_window();
    lemma_silent(s, last_seen, window, now, name);
    if sessions@.dom().contains(name) {
        let i = lemma_name_key(s, name);
        assert(s[i].0@ == name);
    }
    if exists|i: int| 0 <= i < s.len() && (#[trigger] s[i]).0@ == name {
        let i = choose|i: int| 0 <= i < s.len() && (#[trigger] s[i]).0@ == name;
        lemma_named_entry(s, i);
    }
}

proof fn lemma_silent(
    s: Seq<(String, SessionInfo)>,
    last_seen: Map<Seq<char>, u64>,
    window: nat,
    now: u64,
    name: Seq<char>,
)
    ensures
        silent_sessions(s, last_seen, window, now).contains(name) <==> is_silent(
            last_seen,
            name,
            window,
            now,
        ) && exists|i: int| 0 <= i < s.len() && (#[trigger] s[i]).0@ == name,
    decreases s.len(),
{
    let all = silent_sessions(s, last_seen, window, now);
    if s.len() == 0 {
        assert(all =~= Seq::empty());
    } else {
        let d = s.drop_last();
        let p = silent_sessions(d, last_seen, window, now);
        lemma_silent(d, last_seen, window, now, name);
        assert forall|i: int| 0 <= i < d.len() implies d[i] == #[trigger] s[i] by {}
        assert(s[s.len() - 1] == s.last());
        if all.contains(name) {
            let k = choose|k: int| 0 <= k < all.len() && all[k] == name;
            if k < p.len() {
                assert(p[k] == name);
                assert(p.contains(name));
            }
        }
        if p.contains(name) {
            let k = choose|k: int| 0 <= k < p.len() && p[k] == name;
            assert(all[k] == name);
        }
        if s.last().0@ == name && is_silent(last_seen, name, window, now) {
            assert(all[p.len() as int] == name);
        }
    }
}

proof fn lemma_insert_by_id(s: Seq<RelayView>, x: RelayView)
    requires
        forall|i: int, j: int|
            0 <= i < j < s.len() ==> (#[trigger] s[i]).relay_id <= (#[trigger] s[j]).relay_id,
    ensures
        forall|i: int, j: int|
            0 <= i < j < insert_by_id(s, x).len() ==> (
            #[trigger] insert_by_id(s, x)[i]).relay_id <= (#[trigger] insert_by_id(
                s,
                x,
            )[j]).relay_id,
        insert_by_id(s, x).to_multiset() == s.to_multiset().insert(x),
        insert_by_id(s, x).len() == s.len() + 1,
        forall|y: RelayView| #[trigger]
            insert_by_id(s, x).contains(y) <==> s.contains(y) || y == x,
    decreases s.len(),
{
    let r = insert_by_id(s, x);
    broadcast use vstd::seq_lib::group_to_multiset_ensures;

    if s.len() > 0 && s.last().relay_id > x.relay_id {
        let d = s.drop_last();
        lemma_insert_by_id(d, x);
        let q = insert_by_id(d, x);
        assert(s =~= d.push(s.last()));
        assert forall|y: RelayView| #[trigger] r.contains(y) <==> s.contains(y) || y == x by {
            if r.contains(y) {
                let k = choose|k: int| 0 <= k < r.len() && r[k] == y;
                if k < q.len() {
                    assert(q[k] == y);
                    assert(q.contains(y));
                    if d.contains(y) {
                        let m = choose|m: int| 0 <= m < d.len() && d[m] == y;
                        assert(s[m] == y);
                    }
                } else {
                    assert(s[s.len() - 1] == y);
                }
            }
            if s.contains(y) || y == x {
                if y == s.last() {
                    assert(r[q.len() as int] == y);
                } else {
                    if s.contains(y) {
                        let m = choose|m: int| 0 <= m < s.len() && s[m] == y;
                        assert(d[m] == y);
                        assert(d.contains(y));
                    }
                    assert(q.contains(y));
                    let k = choose|k: int| 0 <= k < q.len() && q[k] == y;
                    assert(r[k] == y);
                }
            }
        }
        assert forall|i: int, j: int| 0 <= i < j < r.len() implies (#[trigger] r[i]).relay_id <= (
        #[trigger] r[j]).relay_id by {
            assert(r[i] == q[i]);
            if j < q.len() {
                assert(r[j] == q[j]);
            } else {
                assert(q.contains(q[i]));
                if q[i] != x {
                    let m = choose|m: int| 0 <= m < d.len() && d[m] == q[i];
                    assert(s[m].relay_id <= s[s.len() - 1].relay_id);
                }
            }
        }
    } else {
        assert(r == s.push(x));
        assert forall|y: RelayView| #[trigger] r.contains(y) <==> s.contains(y) || y == x by {
            if s.contains(y) {
                let m = choose|m: int| 0 <= m < s.len() && s[m] == y;
                assert(r[m] == y);
            }
            if y == x {
                assert(r[s.len() as int] == y);
            }
        }
        assert forall|i: int, j: int| 0 <= i < j < r.len() implies (#[trigger] r[i]).relay_id <= (
        #[trigger] r[j]).relay_id by {
            assert(r[i] == s[i]);
            if j < s.len() {
                assert(r[j] == s[j]);
            } else if i < s.len() - 1 {
                assert(s[i].relay_id <= s[s.len() - 1].relay_id);
            }
        }
    }
}

/// The fleet is told in the order of the relays' ids, with every relay that
/// can be dialed and no other.
pub proof fn law_the_fleet_is_told_in_order(s: Seq<RelayView>)
    ensures
        forall|i: int, j: int|
            0 <= i < j < sort_by_id(s).len() ==> (#[trigger] sort_by_id(s)[i]).relay_id <= (
            #[trigger] sort_by_id(s)[j]).relay_id,
        sort_by_id(s).to_multiset() == s.to_multiset(),
        sort_by_id(s).len() == s.len(),
        forall|y: RelayView| #[trigger] sort_by_id(s).contains(y) <==> s.contains(y),
    decreases s.len(),
{
    broadcast use vstd::seq_lib::group_to_multiset_ensures;

    if s.len() > 0 {
        let d = s.drop_last();
        law_the_fleet_is_told_in_order(d);
        lemma_insert_by_id(sort_by_id(d), s.last());
        assert(s =~= d.push(s.last()));
        assert forall|y: RelayView| #[trigger] sort_by_id(s).contains(y) <==> s.contains(y) by {
            if d.contains(y) {
                let m = choose|m: int| 0 <= m < d.len() && d[m] == y;
                assert(s[m] == y);
            }
            if y == s.last() {
                assert(s[s.len() - 1] == y);
            }
            if s.contains(y) && y != s.last() {
                let m = choose|m: int| 0 <= m < s.len() && s[m] == y;
                assert(d[m] == y);
            }
        }
    }
}

/// Only a relay may say who is attached to it, what it carries and whether it
/// is a way out; everything else anybody may send, but for a credential of
/// somebody else.
pub proof fn law_only_relays_speak_for_relays(
    network_id: Seq<char>,
    name: Seq<char>,
    node_id: NodeId,
    role: Role,
    fp: Seq<char>,
    msg: Upstream,
)
    ensures
        msg is Attach || msg is Traffic || msg is Exit ==> (message_refusal(
            network_id,
            name,
            node_id,
            role,
            fp,
            msg,
        ) is None <==> role == Role::Relay),
        msg is Ping || msg is Heartbeat || msg is Resync || msg is Mtu || msg is Unknown
            ==> message_refusal(network_id, name, node_id, role, fp, msg) is None,
{
}

/// A credential is accepted exactly where its network is known, it verified,
/// its member is on record and not disabled, no newer machine joined as that
/// member, and it names the certificate of the connection.
pub proof fn law_a_credential_is_accepted_while_its_member_stands(
    nets: Seq<(String, NetState)>,
    network: Seq<char>,
    subject: Seq<char>,
    verified: Result<Identity, Seq<char>>,
    presented_fp: Seq<char>,
    i: int,
)
    requires
        0 <= i < nets.len(),
        nets[i].0@ == network,
        forall|j: int| 0 <= j < i ==> (#[trigger] nets[j]).0@ != network,
    ensures
        credential_refusal(nets, Some(network), Some(subject), verified, presented_fp) is None
            <==> (verified matches Ok(c) && c.cert_fp@ == presented_fp && exists|k: int|
            0 <= k < nets[i].1.registry@.members.len() && {
                let rec = #[trigger] nets[i].1.registry@.members[k];
                &&& rec.name == subject
                &&& forall|j: int|
                    0 <= j < k ==> (#[trigger] nets[i].1.registry@.members[j]).name != subject
                &&& !rec.disabled
                &&& c.login_gen >= rec.login_gen
            }),
{
    let members = nets[i].1.registry@.members;
    lemma_net_index(nets, network, i);
    crate::registry::lemma_name_index(members, subject);
    if let Some(k) = crate::registry::name_index(members, subject) {
        assert(members[k].name == subject);
    }
}

/// A credential of a network that nobody knows is refused, and so is one that
/// names none.
pub proof fn law_a_credential_of_no_network_is_refused(
    nets: Seq<(String, NetState)>,
    network: Option<Seq<char>>,
    subject: Option<Seq<char>>,
    verified: Result<Identity, Seq<char>>,
    presented_fp: Seq<char>,
)
    requires
        network matches Some(id) ==> forall|j: int|
            0 <= j < nets.len() ==> (#[trigger] nets[j]).0@ != id,
    ensures
        credential_refusal(nets, network, subject, verified, presented_fp) is Some,
{
    if let Some(id) = network {
        lemma_no_net_index(nets, id);
    }
}

proof fn lemma_no_net_index(nets: Seq<(String, NetState)>, id: Seq<char>)
    requires
        forall|j: int| 0 <= j < nets.len() ==> (#[trigger] nets[j]).0@ != id,
    ensures
        net_index(nets, id) is None,
    decreases nets.len(),
{
    if nets.len() > 0 {
        let d = nets.drop_last();
        assert forall|j: int| 0 <= j < d.len() implies (#[trigger] d[j]).0@ != id by {
            assert(d[j] == nets[j]);
        }
        assert(nets[nets.len() - 1] == nets.last());
        lemma_no_net_index(d, id);
    }
}

proof fn lemma_net_index(nets: Seq<(String, NetState)>, id: Seq<char>, i: int)
    requires
        0 <= i < nets.len(),
        nets[i].0@ == id,
        forall|j: int| 0 <= j < i ==> (#[trigger] nets[j]).0@ != id,
    ensures
        net_index(nets, id) == Some(i),
    decreases nets.len(),
{
    let d = nets.drop_last();
    assert forall|j: int| 0 <= j < d.len() implies d[j] == #[trigger] nets[j] by {}
    if i < d.len() {
        lemma_net_index(d, id, i);
    } else {
        lemma_no_net_index(d, id);
    }
}

/// The MTU that a network is told is the smallest that anyone reported and
/// the configuration allows, and never below the least that IPv6 needs.
pub proof fn law_the_published_mtu_fits_everyone(d: Directory, ceiling: u16)
    ensures
        ({
            let m = mtu_of(d, ceiling).0;
            &&& m >= 1280
            &&& m == 1280 || m <= ceiling
            &&& forall|i: int|
                0 <= i < d.reported_mtu.entries@.len() ==> m == 1280 || m <= (
                #[trigger] d.reported_mtu.entries@[i]).1
            &&& m > 1280 ==> m == ceiling || exists|i: int|
                0 <= i < d.reported_mtu.entries@.len() && (
                #[trigger] d.reported_mtu.entries@[i]).1 == m && d.reported_mtu.entries@[i].0@
                    == mtu_of(d, ceiling).1
            &&& m == 1280 ==> ceiling <= 1280 || exists|i: int|
                0 <= i < d.reported_mtu.entries@.len() && (
                #[trigger] d.reported_mtu.entries@[i]).1 <= 1280
            &&& (forall|i: int|
                0 <= i < d.reported_mtu.entries@.len() ==> (
                #[trigger] d.reported_mtu.entries@[i]).1 > ceiling) ==> mtu_of(d, ceiling).1
                == "config"@
        }),
{
    let reports = mtu_reports(d.reported_mtu.entries@);
    crate::directory::law_the_network_mtu_is_the_minimum(reports, ceiling);
    let (best, who) = smallest_mtu(reports, ceiling);
    assert forall|i: int| 0 <= i < d.reported_mtu.entries@.len() implies best <= (
    #[trigger] d.reported_mtu.entries@[i]).1 by {
        assert(best <= reports[i].1);
    }
    if !(best == ceiling && who == "config"@) {
        let i = choose|i: int| 0 <= i < reports.len() && #[trigger] reports[i] == (who, best);
        assert(d.reported_mtu.entries@[i].1 == best);
    }
}

/// A relay's report of its host is kept, and the view is recomputed with it.
pub proof fn law_an_exit_report_republishes_the_view(
    before: NetState,
    after: NetState,
    name: Seq<char>,
    node_id: NodeId,
    role: Role,
    readiness: ExitReadiness,
    now: u64,
    r: Reaction,
)
    requires
        message_effect(before, after, name, node_id, role, Upstream::Exit(readiness), now, r),
    ensures
        after.directory.exits@ == before.directory.exits@.insert(name, readiness),
        crate::directory::recomputed(
            (Directory { exits: after.directory.exits, ..before.directory }),
            (Directory { history: before.directory.history, ..after.directory }),
            before.cfg@,
            before.registry@,
            now,
            r.delta,
        ),
{
}

proof fn lemma_moved(now: Seq<(NodeId, NodeId)>, before: Map<NodeId, NodeId>, e: AttachmentEntry)
    ensures
        moved_entries(now, before).contains(e) <==> now.contains((e.node_id, e.relay_id)) && !(
        before.dom().contains(e.node_id) && before[e.node_id] == e.relay_id),
    decreases now.len(),
{
    let all = moved_entries(now, before);
    if now.len() == 0 {
        assert(all =~= Seq::empty());
    } else {
        let d = now.drop_last();
        let p = moved_entries(d, before);
        let x = (e.node_id, e.relay_id);
        lemma_moved(d, before, e);
        if all.contains(e) {
            let k = choose|k: int| 0 <= k < all.len() && all[k] == e;
            if k < p.len() {
                assert(p[k] == e);
                let m = choose|m: int| 0 <= m < d.len() && d[m] == x;
                assert(now[m] == x);
            } else {
                assert(now[now.len() - 1] == x);
            }
        }
        if now.contains(x) && !(before.dom().contains(e.node_id) && before[e.node_id]
            == e.relay_id) {
            let m = choose|m: int| 0 <= m < now.len() && now[m] == x;
            if m < d.len() {
                assert(d[m] == x);
                let k = choose|k: int| 0 <= k < p.len() && p[k] == e;
                assert(all[k] == e);
            } else {
                assert(all[p.len() as int] == e);
            }
        }
    }
}

proof fn lemma_gone(before: Seq<(NodeId, NodeId)>, now: Map<NodeId, NodeId>, c: NodeId)
    ensures
        gone_entries(before, now).contains(c) <==> !now.dom().contains(c) && exists|i: int|
            0 <= i < before.len() && (#[trigger] before[i]).0 == c,
    decreases before.len(),
{
    let all = gone_entries(before, now);
    if before.len() == 0 {
        assert(all =~= Seq::empty());
    } else {
        let d = before.drop_last();
        let p = gone_entries(d, now);
        lemma_gone(d, now, c);
        assert forall|i: int| 0 <= i < d.len() implies d[i] == #[trigger] before[i] by {}
        assert(before[before.len() - 1] == before.last());
        if all.contains(c) {
            let k = choose|k: int| 0 <= k < all.len() && all[k] == c;
            if k < p.len() {
                assert(p[k] == c);
                assert(p.contains(c));
            }
        }
        if p.contains(c) {
            let k = choose|k: int| 0 <= k < p.len() && p[k] == c;
            assert(all[k] == c);
        }
        if before.last().0 == c && !now.dom().contains(c) {
            assert(all[p.len() as int] == c);
        }
    }
}

/// A change of the attachments names every client that is attached elsewhere
/// than before, with its relay now, and every one that is attached no longer;
/// and nobody else.
pub proof fn law_an_attachment_change_names_who_moved(
    before: IdMap<NodeId>,
    now: IdMap<NodeId>,
    e: AttachmentEntry,
    c: NodeId,
)
    requires
        before.wf(),
        now.wf(),
    ensures
        moved_entries(now.entries@, before@).contains(e) <==> now@.dom().contains(e.node_id)
            && now@[e.node_id] == e.relay_id && !(before@.dom().contains(e.node_id)
            && before@[e.node_id] == e.relay_id),
        gone_entries(before.entries@, now@).contains(c) <==> before@.dom().contains(c)
            && !now@.dom().contains(c),
{
    lemma_moved(now.entries@, before@, e);
    lemma_gone(before.entries@, now@, c);
    let x = (e.node_id, e.relay_id);
    if now.entries@.contains(x) {
        let i = choose|i: int| 0 <= i < now.entries@.len() && now.entries@[i] == x;
        lemma_entry(now.entries@, i);
    }
    if now@.dom().contains(e.node_id) {
        let i = lemma_key(now.entries@, e.node_id);
        assert(now.entries@[i] == (e.node_id, now@[e.node_id]));
    }
    if before@.dom().contains(c) {
        let i = lemma_key(before.entries@, c);
        assert(before.entries@[i].0 == c);
    }
    if exists|i: int| 0 <= i < before.entries@.len() && (#[trigger] before.entries@[i]).0 == c {
        let i = choose|i: int|
            0 <= i < before.entries@.len() && (#[trigger] before.entries@[i]).0 == c;
        lemma_entry(before.entries@, i);
    }
}

/// A view that is sent in parts is there whole: whoever stands at a place of
/// it stands in the part of that place, and the parts hold nobody else.
pub proof fn law_the_parts_hold_the_whole_view(
    parts: Seq<Vec<PeerInfo>>,
    view: Seq<PeerView>,
    j: int,
    i: int,
    x: int,
)
    requires
        in_parts(parts, view),
    ensures
        parts.len() > 0,
        0 <= j < view.len() ==> ({
            let at = j / SNAPSHOT_CHUNK as int;
            let off = j % SNAPSHOT_CHUNK as int;
            0 <= at < parts.len() && off < parts[at]@.len() && parts[at]@[off]@ == view[j]
        }),
        0 <= i < parts.len() && 0 <= x < parts[i]@.len() ==> i * SNAPSHOT_CHUNK + x < view.len()
            && parts[i]@[x]@ == view[i * SNAPSHOT_CHUNK + x],
        0 <= i < parts.len() ==> parts[i]@.len() <= SNAPSHOT_CHUNK,
        0 <= i < parts.len() && view.len() > 0 ==> parts[i]@.len() > 0,
{
    let c = SNAPSHOT_CHUNK as int;
    if 0 <= j < view.len() {
        let at = j / c;
        let off = j % c;
        assert(j == at * c + off && 0 <= off < c && 0 <= at);
        assert(at < parts.len()) by {
            if at >= parts.len() {
                assert(at * c >= parts.len() * c) by (nonlinear_arith)
                    requires
                        at >= parts.len(),
                        c >= 0,
                ;
            }
        }
        let v = peer_views(parts[at]@);
        assert(v.len() == parts[at]@.len());
        assert(v[off] == parts[at]@[off]@);
    }
    if 0 <= i < parts.len() {
        let v = peer_views(parts[i]@);
        assert(v.len() == parts[i]@.len());
        assert(i * c <= (parts.len() - 1) * c) by (nonlinear_arith)
            requires
                i <= parts.len() - 1,
                c >= 0,
        ;
        if 0 <= x < parts[i]@.len() {
            assert(v[x] == parts[i]@[x]@);
        }
    }
}

/// A part of the view that is sent says of which generation it is, which part
/// it is and of how many, and holds the members of that part.
pub proof fn law_a_part_says_where_it_belongs(p: Push, o: Opened, i: int)
    requires
        is_chunk(p, o, i),
    ensures
        p is Snapshot,
        p->Snapshot_snapshot_rev == o.revision,
        p->Snapshot_chunk_i == i,
        p->Snapshot_chunk_n == o.snapshot@.len(),
        p->Snapshot_peers == o.snapshot@[i],
{
}

/// A ping says that the member is there, and nothing else.
pub proof fn law_a_ping_is_a_sign_of_life(
    before: NetState,
    after: NetState,
    name: Seq<char>,
    node_id: NodeId,
    role: Role,
    now: u64,
    r: Reaction,
    other: Seq<char>,
)
    requires
        message_effect(before, after, name, node_id, role, Upstream::Ping, now, r),
    ensures
        after.last_seen@.dom().contains(name) && after.last_seen@[name] == now,
        other != name ==> after.last_seen.at(other) == before.last_seen.at(other),
        after.leases == before.leases,
        after.directory == before.directory,
        after.sessions == before.sessions,
        after.registry == before.registry,
        r.attachments is None,
        r.mtu is None,
        r.delta is None,
        r.catch_up is None,
{
}

/// A relay that says a client is attached to it is noted as the one that the
/// client is attached to, and one that says it is not any more leaves the
/// client attached to nobody. The others stay where they are. The relays are
/// told of it exactly where it is news.
pub proof fn law_an_attachment_is_noted(
    before: NetState,
    after: NetState,
    name: Seq<char>,
    node_id: NodeId,
    role: Role,
    client: NodeId,
    attached: bool,
    now: u64,
    r: Reaction,
    other: NodeId,
)
    requires
        message_effect(
            before,
            after,
            name,
            node_id,
            role,
            Upstream::Attach { node_id: client, attached },
            now,
            r,
        ),
    ensures
        ({
            let was = before.directory.attachments@;
            let now_held = after.directory.attachments@;
            let news = if attached {
                !(was.dom().contains(client) && was[client] == node_id)
            } else {
                was.dom().contains(client)
            };
            &&& attached ==> now_held.dom().contains(client) && now_held[client] == node_id
            &&& !attached ==> !now_held.dom().contains(client)
            &&& other != client ==> lookup(now_held, other) == lookup(was, other)
            &&& r.attachments is Some <==> news
            &&& after.directory.attach_revision == before.directory.attach_revision + (if news {
                1int
            } else {
                0
            })
            &&& r.attachments matches Some(a) ==> {
                &&& a.base_rev == before.directory.attach_revision
                &&& a.new_rev == after.directory.attach_revision
                &&& attached ==> a.changed@.len() == 1 && a.changed@[0].node_id == client
                    && a.changed@[0].relay_id == node_id && a.detached@.len() == 0
                &&& !attached ==> a.changed@.len() == 0 && a.detached@.len() == 1 && a.detached@[0]
                    == client
            }
            &&& after.leases == before.leases
            &&& after.directory.peers == before.directory.peers
        }),
{
}

/// A relay's traffic report is kept with the time at which it came, and the
/// one before it with its own time, so that a rate can be told.
pub proof fn law_a_traffic_report_is_kept(
    before: NetState,
    after: NetState,
    name: Seq<char>,
    node_id: NodeId,
    role: Role,
    report: TrafficReport,
    now: u64,
    r: Reaction,
)
    requires
        message_effect(before, after, name, node_id, role, Upstream::Traffic(report), now, r),
    ensures
        ({
            let was = before.directory.traffic@;
            let now_held = after.directory.traffic@;
            &&& now_held.dom().contains(name)
            &&& now_held[name].at == now
            &&& now_held[name].report == report
            &&& was.dom().contains(name) ==> now_held[name].prev == Some(was[name].report)
                && now_held[name].prev_at == was[name].at
            &&& !was.dom().contains(name) ==> now_held[name].prev is None
            &&& after.directory.peers == before.directory.peers
            &&& after.directory.revision == before.directory.revision
            &&& after.leases == before.leases
            &&& r.delta is None && r.attachments is None && r.mtu is None
        }),
{
}

/// The MTU that a member says it can use is kept under its name. Everyone is
/// told of the network's where that became another one, and it is noted as
/// published.
pub proof fn law_a_usable_mtu_is_noted(
    before: NetState,
    after: NetState,
    name: Seq<char>,
    node_id: NodeId,
    role: Role,
    usable: u16,
    now: u64,
    r: Reaction,
    other: Seq<char>,
)
    requires
        message_effect(before, after, name, node_id, role, Upstream::Mtu(usable), now, r),
    ensures
        after.directory.reported_mtu@.dom().contains(name),
        after.directory.reported_mtu@[name] == usable,
        other != name ==> after.directory.reported_mtu.at(other)
            == before.directory.reported_mtu.at(other),
        r.mtu matches Some(m) ==> (m.mtu, m.limited_by@) == mtu_of(
            after.directory,
            before.cfg.settings.mtu,
        ),
        before.directory.reported_mtu.at(name) != Some(usable) ==> (
        after.directory.published_mtu matches Some(m) && (m.mtu, m.limited_by@) == mtu_of(
            after.directory,
            before.cfg.settings.mtu,
        )),
        before.directory.reported_mtu.at(name) != Some(usable) && (
        before.directory.published_mtu is None || ({
            let m = before.directory.published_mtu->0;
            (m.mtu, m.limited_by@) != mtu_of(after.directory, before.cfg.settings.mtu)
        })) ==> r.mtu is Some,
        before.directory.reported_mtu.at(name) == Some(usable) ==> r.mtu is None,
        after.leases == before.leases,
        after.directory.peers == before.directory.peers,
{
}

/// What a member is sent that asks again, having this generation, is what
/// leads on from there; nothing else changes.
pub proof fn law_a_resync_leads_on_from_what_is_held(
    before: NetState,
    after: NetState,
    name: Seq<char>,
    node_id: NodeId,
    role: Role,
    have: u64,
    now: u64,
    r: Reaction,
    k: int,
)
    requires
        crate::history::chained(delta_views(before.directory.history.deltas@)),
        message_effect(
            before,
            after,
            name,
            node_id,
            role,
            Upstream::Resync { have, grace: false },
            now,
            r,
        ),
    ensures
        after == before,
        r.catch_up is Some,
        have == before.directory.revision ==> r.catch_up->0 is Current,
        ({
            let ds = before.directory.history.deltas@;
            have != before.directory.revision && 0 <= k < ds.len() && ds[k].base_rev == have
                && ds[ds.len() - 1].new_rev == before.directory.revision ==> (
            r.catch_up->0 matches CatchUp::Deltas(v) && v@.len() == ds.len() - k && forall|i: int|
                0 <= i < v@.len() ==> (#[trigger] v@[i])@ == ds[k + i]@)
        }),
{
    let ds = before.directory.history.deltas@;
    let s = delta_views(ds);
    crate::history::law_a_member_is_sent_what_it_missed(
        s,
        before.directory.revision,
        0,
        have,
        None,
        k,
    );
    if have != before.directory.revision && 0 <= k < ds.len() && ds[k].base_rev == have
        && ds[ds.len() - 1].new_rev == before.directory.revision {
        assert(s[k].base_rev == have);
        assert(s[s.len() - 1].new_rev == before.directory.revision);
        let c = r.catch_up->0;
        if let CatchUp::Deltas(v) = c {
            let got = delta_views(v@);
            assert(c@ == crate::history::CatchUpView::Deltas(got));
            assert forall|i: int| 0 <= i < v@.len() implies (#[trigger] v@[i])@ == ds[k + i]@ by {
                assert(got[i] == s[k + i]);
            }
        }
    }
}

/// Whoever comes online is online from then on; whoever is already stays
/// online since it came; and the others are left alone.
pub proof fn law_a_member_is_online_since_it_came(
    m: Map<Seq<char>, u64>,
    name: Seq<char>,
    now: u64,
    other: Seq<char>,
)
    ensures
        online_with(m, name, now).dom().contains(name),
        !m.dom().contains(name) ==> online_with(m, name, now)[name] == now,
        m.dom().contains(name) ==> online_with(m, name, now)[name] == m[name],
        other != name ==> (online_with(m, name, now).dom().contains(other) <==> m.dom().contains(
            other,
        )),
        other != name && m.dom().contains(other) ==> online_with(m, name, now)[other] == m[other],
{
}

} // verus!
