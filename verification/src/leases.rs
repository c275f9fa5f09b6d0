//! Liveness and attachment leases: what members have told the coordinator,
//! with timestamps, and nothing set by one message and cleared by another.
//!
//! A relay declares the whole set of clients it holds. The attachment table
//! is derived from those declarations by one rule, the most recent
//! declaration wins, and an entry disappears only when the relay stops
//! declaring it or the member is removed. Neither side's control link
//! matters: the relay's own session with the client is the truth.
//!
//! All timestamps here are milliseconds.

use vstd::prelude::*;

use crate::idmap::{entries_map, lemma_entry, lemma_key, IdMap};
use crate::proto::{AttachedClient, Heartbeat, NodeId, Role};

verus! {

/// A relay's claim to hold a client's session.
#[derive(Clone, Copy, PartialEq, Eq, Structural, Debug)]
pub struct Claim {
    pub session_id: u64,
    /// The order in which this relay first declared this client with this
    /// session. A sequence number, not a clock: two relays can declare the
    /// same client within one millisecond during a move.
    pub seq: u64,
}

/// What a member last said of the view it holds.
#[derive(Clone, Copy, PartialEq, Eq, Structural, Debug)]
pub struct Report {
    pub gen: u64,
    pub digest: u64,
    pub at: u64,
}

/// Everything that heartbeats declared.
#[derive(Debug)]
pub struct Leases {
    pub last_seen: IdMap<u64>,
    pub online_since: IdMap<u64>,
    /// When a member that is offline was last seen.
    pub offline_at: IdMap<u64>,
    /// relay -> (client -> claim)
    pub declared: IdMap<IdMap<Claim>>,
    pub attached_to: IdMap<NodeId>,
    pub mesh_up: IdMap<Vec<NodeId>>,
    pub reported: IdMap<Report>,
    pub next_seq: u64,
}

/// The content of [`Leases`].
#[verifier::ext_equal]
pub struct LeasesView {
    pub last_seen: Map<NodeId, u64>,
    pub online_since: Map<NodeId, u64>,
    pub offline_at: Map<NodeId, u64>,
    pub declared: Map<NodeId, Map<NodeId, Claim>>,
    pub attached_to: Map<NodeId, NodeId>,
    pub mesh_up: Map<NodeId, Seq<NodeId>>,
    pub reported: Map<NodeId, Report>,
    pub next_seq: u64,
}

impl View for Leases {
    type V = LeasesView;

    open spec fn view(&self) -> LeasesView {
        LeasesView {
            last_seen: self.last_seen@,
            online_since: self.online_since@,
            offline_at: self.offline_at@,
            declared: self.declared@.map_values(|m: IdMap<Claim>| m@),
            attached_to: self.attached_to@,
            mesh_up: self.mesh_up@.map_values(|v: Vec<NodeId>| v@),
            reported: self.reported@,
            next_seq: self.next_seq,
        }
    }
}

/// No two claims of a relay carry the same number, and none carries one that
/// was not given out yet.
pub open spec fn claims_numbered(m: Map<NodeId, Claim>, next_seq: u64) -> bool {
    &&& forall|c: NodeId| #[trigger] m.dom().contains(c) ==> m[c].seq <= next_seq
    &&& forall|c: NodeId, d: NodeId|
        m.dom().contains(c) && m.dom().contains(d) && c != d ==> (#[trigger] m[c]).seq != (
        #[trigger] m[d]).seq
}

impl LeasesView {
    /// The relay declares the client.
    pub open spec fn holds(self, relay: NodeId, client: NodeId) -> bool {
        self.declared.dom().contains(relay) && self.declared[relay].dom().contains(client)
    }

    /// The number of the relay's claim on the client.
    pub open spec fn seq_of(self, relay: NodeId, client: NodeId) -> u64 {
        self.declared[relay][client].seq
    }

    /// The relay's claim on the client is the most recent one.
    pub open spec fn wins(self, relay: NodeId, client: NodeId) -> bool {
        &&& self.holds(relay, client)
        &&& forall|other: NodeId| #[trigger]
            self.holds(other, client) ==> self.seq_of(other, client) <= self.seq_of(relay, client)
    }

    /// Every claim has a number of its own.
    pub open spec fn wf(self) -> bool {
        &&& forall|r: NodeId| #[trigger]
            self.declared.dom().contains(r) ==> claims_numbered(self.declared[r], self.next_seq)
        &&& forall|r: NodeId, c: NodeId, s: NodeId, d: NodeId|
            #![trigger self.holds(r, c), self.holds(s, d)]
            self.holds(r, c) && self.holds(s, d) && r != s ==> self.seq_of(r, c) != self.seq_of(
                s,
                d,
            )
    }

    /// After the control link of `node` is gone.
    pub open spec fn after_offline(self, node: NodeId) -> LeasesView {
        self.without_link(|k: NodeId| k == node)
    }

    /// After a sign of life from `node`.
    pub open spec fn after_seen(self, node: NodeId, now: u64) -> LeasesView {
        LeasesView {
            last_seen: self.last_seen.insert(node, now),
            online_since: if self.last_seen.dom().contains(node) {
                self.online_since
            } else {
                self.online_since.insert(node, now)
            },
            offline_at: self.offline_at.remove(node),
            ..self
        }
    }

    /// After the control links of the nodes in `gone` ended. Liveness ends;
    /// claims do not.
    pub open spec fn without_link(self, gone: spec_fn(NodeId) -> bool) -> LeasesView {
        LeasesView {
            last_seen: drop_keys(self.last_seen, gone),
            online_since: drop_keys(self.online_since, gone),
            offline_at: Map::new(
                |k: NodeId|
                    self.offline_at.dom().contains(k) || (gone(k) && self.last_seen.dom().contains(
                        k,
                    )),
                |k: NodeId|
                    if gone(k) && self.last_seen.dom().contains(k) {
                        self.last_seen[k]
                    } else {
                        self.offline_at[k]
                    },
            ),
            attached_to: drop_keys(self.attached_to, gone),
            mesh_up: drop_keys(self.mesh_up, gone),
            ..self
        }
    }

    /// Silent for longer than `window`.
    pub open spec fn silent(self, node: NodeId, now: u64, window: u64) -> bool {
        self.last_seen.dom().contains(node) && now - self.last_seen[node] > window
    }

    /// After a member was forgotten.
    pub open spec fn forgotten(self, node: NodeId) -> LeasesView {
        let v = self.without_link(|k: NodeId| k == node);
        LeasesView {
            offline_at: v.offline_at.remove(node),
            reported: v.reported.remove(node),
            declared: v.declared.map_values(|m: Map<NodeId, Claim>| m.remove(node)),
            ..v
        }
    }
}

/// The map without the keys in `gone`.
pub open spec fn drop_keys<V>(m: Map<NodeId, V>, gone: spec_fn(NodeId) -> bool) -> Map<NodeId, V> {
    Map::new(|k: NodeId| m.dom().contains(k) && !gone(k), |k: NodeId| m[k])
}

/// A relay's claims while its declaration is folded in.
#[verifier::ext_equal]
pub struct Folding {
    pub keep: Map<NodeId, Claim>,
    pub next_seq: int,
    pub changed: bool,
}

/// Fold a declaration into the claims that the relay had: a client declared
/// with the session that is known keeps its claim, another gets a new one
/// with the next number.
pub open spec fn fold_declaration(
    mine: Map<NodeId, Claim>,
    attached: Seq<AttachedClient>,
    next_seq: int,
) -> Folding
    decreases attached.len(),
{
    if attached.len() == 0 {
        Folding { keep: Map::empty(), next_seq, changed: false }
    } else {
        let f = fold_declaration(mine, attached.drop_last(), next_seq);
        let a = attached.last();
        if mine.dom().contains(a.node_id) && mine[a.node_id].session_id == a.session_id {
            Folding { keep: f.keep.insert(a.node_id, mine[a.node_id]), ..f }
        } else {
            Folding {
                keep: f.keep.insert(
                    a.node_id,
                    Claim { session_id: a.session_id, seq: (f.next_seq + 1) as u64 },
                ),
                next_seq: f.next_seq + 1,
                changed: true,
            }
        }
    }
}

impl LeasesView {
    /// The claims of a relay; a relay that never declared has none.
    pub open spec fn claims_of(self, relay: NodeId) -> Map<NodeId, Claim> {
        if self.declared.dom().contains(relay) {
            self.declared[relay]
        } else {
            Map::empty()
        }
    }

    /// The declaration of a relay, folded in.
    pub open spec fn folded(self, relay: NodeId, attached: Seq<AttachedClient>) -> Folding {
        fold_declaration(self.claims_of(relay), attached, self.next_seq as int)
    }

    /// The heartbeat changes what its sender declares: a client is new, or
    /// held under another session, or gone.
    pub open spec fn changed_by(self, node: NodeId, role: Role, hb: Heartbeat) -> bool {
        let f = self.folded(node, hb.attached@);
        role is Relay && (f.changed || f.keep.dom().len() != self.claims_of(node).dom().len())
    }

    /// After a heartbeat.
    pub open spec fn after_heartbeat(
        self,
        node: NodeId,
        role: Role,
        hb: Heartbeat,
        now: u64,
    ) -> LeasesView {
        let s = self.after_seen(node, now);
        let v = LeasesView {
            reported: s.reported.insert(
                node,
                Report { gen: hb.gen, digest: hb.digest, at: now },
            ),
            ..s
        };
        match role {
            Role::Relay => {
                let f = self.folded(node, hb.attached@);
                LeasesView {
                    declared: v.declared.insert(node, f.keep),
                    next_seq: f.next_seq as u64,
                    mesh_up: v.mesh_up.insert(node, hb.mesh_up@),
                    ..v
                }
            },
            Role::Client => LeasesView {
                attached_to: match hb.attached_to {
                    Some(r) => v.attached_to.insert(node, r),
                    None => v.attached_to.remove(node),
                },
                ..v
            },
        }
    }
}

/// Every claim of a folded declaration is one that the relay had, under the
/// same client, or has a number that was not given out before; and only
/// declared clients are claimed.
proof fn lemma_fold(mine: Map<NodeId, Claim>, attached: Seq<AttachedClient>, next_seq: u64)
    requires
        claims_numbered(mine, next_seq),
        next_seq + attached.len() <= u64::MAX,
    ensures
        ({
            let f = fold_declaration(mine, attached, next_seq as int);
            &&& next_seq <= f.next_seq <= next_seq + attached.len()
            &&& claims_numbered(f.keep, f.next_seq as u64)
            &&& f.keep.dom().finite()
            &&& forall|c: NodeId| #[trigger]
                f.keep.dom().contains(c) ==> {
                    ||| mine.dom().contains(c) && f.keep[c] == mine[c]
                    ||| next_seq < f.keep[c].seq
                }
            &&& forall|c: NodeId| #[trigger]
                f.keep.dom().contains(c) <==> exists|i: int|
                    0 <= i < attached.len() && (#[trigger] attached[i]).node_id == c
        }),
    decreases attached.len(),
{
    let f = fold_declaration(mine, attached, next_seq as int);
    if attached.len() > 0 {
        let d = attached.drop_last();
        let a = attached.last();
        lemma_fold(mine, d, next_seq);
        let g = fold_declaration(mine, d, next_seq as int);
        assert forall|c: NodeId| #[trigger] f.keep.dom().contains(c) <==> exists|i: int|
            0 <= i < attached.len() && (#[trigger] attached[i]).node_id == c by {
            if g.keep.dom().contains(c) {
                let i = choose|i: int| 0 <= i < d.len() && (#[trigger] d[i]).node_id == c;
                assert(attached[i].node_id == c);
            }
            if c == a.node_id {
                assert(attached[attached.len() - 1].node_id == c);
            }
            if exists|i: int| 0 <= i < attached.len() && (#[trigger] attached[i]).node_id == c {
                let i = choose|i: int|
                    0 <= i < attached.len() && (#[trigger] attached[i]).node_id == c;
                if i < d.len() {
                    assert(d[i].node_id == c);
                }
            }
        }
        assert forall|c: NodeId, e: NodeId|
            f.keep.dom().contains(c) && f.keep.dom().contains(e) && c != e implies (
        #[trigger] f.keep[c]).seq != (#[trigger] f.keep[e]).seq by {
            if c != a.node_id && e != a.node_id {
                assert(g.keep[c].seq != g.keep[e].seq);
            } else {
                let o = if c == a.node_id { e } else { c };
                assert(g.keep.dom().contains(o));
                assert(f.keep[o] == g.keep[o]);
                if mine.dom().contains(a.node_id) && mine[a.node_id].session_id == a.session_id {
                    assert(mine[a.node_id].seq <= next_seq);
                    if mine.dom().contains(o) && g.keep[o] == mine[o] {
                        assert(mine[o].seq != mine[a.node_id].seq);
                    }
                }
            }
        }
    }
}

/// A heartbeat keeps every claim's number unique.
pub proof fn lemma_heartbeat_wf(v: LeasesView, node: NodeId, role: Role, hb: Heartbeat, now: u64)
    requires
        v.wf(),
        v.next_seq + hb.attached@.len() <= u64::MAX,
    ensures
        v.after_heartbeat(node, role, hb, now).wf(),
{
    let w = v.after_heartbeat(node, role, hb, now);
    if role is Relay {
        let f = v.folded(node, hb.attached@);
        lemma_fold(v.claims_of(node), hb.attached@, v.next_seq);
        assert forall|r: NodeId, c: NodeId, s: NodeId, d: NodeId|
            #![trigger w.holds(r, c), w.holds(s, d)]
            w.holds(r, c) && w.holds(s, d) && r != s implies w.seq_of(r, c) != w.seq_of(s, d) by {
            let (x, y, p, q) = if r == node { (r, c, s, d) } else { (s, d, r, c) };
            assert(v.holds(p, q));
            assert(v.seq_of(p, q) <= v.next_seq);
            if x == node {
                assert(f.keep.dom().contains(y));
                if v.claims_of(node).dom().contains(y) && f.keep[y] == v.claims_of(node)[y] {
                    assert(v.holds(x, y));
                }
            } else {
                assert(v.holds(x, y));
            }
        }
    } else {
        assert forall|r: NodeId, c: NodeId, s: NodeId, d: NodeId|
            #![trigger w.holds(r, c), w.holds(s, d)]
            w.holds(r, c) && w.holds(s, d) && r != s implies w.seq_of(r, c) != w.seq_of(s, d) by {
            assert(v.holds(r, c) && v.holds(s, d));
        }
    }
}

/// Only one relay can win a client.
pub proof fn law_at_most_one_relay_wins(v: LeasesView, a: NodeId, b: NodeId, client: NodeId)
    requires
        v.wf(),
        v.wins(a, client),
        v.wins(b, client),
    ensures
        a == b,
{
    assert(v.holds(a, client) && v.holds(b, client));
}

/// Members going offline detach nobody: who wins a client stays the same.
pub proof fn law_lost_links_detach_nobody(
    v: LeasesView,
    gone: spec_fn(NodeId) -> bool,
    relay: NodeId,
    client: NodeId,
)
    ensures
        v.without_link(gone).declared == v.declared,
        v.without_link(gone).wins(relay, client) == v.wins(relay, client),
{
    let w = v.without_link(gone);
    assert forall|r: NodeId| #[trigger] w.holds(r, client) == v.holds(r, client) by {}
    assert forall|r: NodeId| #[trigger] v.holds(r, client) == w.holds(r, client) by {}
}

/// A relay that repeats what it declared, in whatever order but each client
/// once, changes nothing: no claim is renumbered and nothing is reported as
/// changed.
pub proof fn law_repeating_a_declaration_changes_nothing(
    v: LeasesView,
    relay: NodeId,
    hb: Heartbeat,
    now: u64,
)
    requires
        v.wf(),
        v.claims_of(relay).dom().finite(),
        forall|i: int, j: int|
            0 <= i < j < hb.attached@.len() ==> (#[trigger] hb.attached@[i]).node_id != (
            #[trigger] hb.attached@[j]).node_id,
        forall|i: int|
            0 <= i < hb.attached@.len() ==> v.claims_of(relay).dom().contains(
                (#[trigger] hb.attached@[i]).node_id,
            ) && v.claims_of(relay)[hb.attached@[i].node_id].session_id
                == hb.attached@[i].session_id,
        forall|c: NodeId| #[trigger]
            v.claims_of(relay).dom().contains(c) ==> exists|i: int|
                0 <= i < hb.attached@.len() && (#[trigger] hb.attached@[i]).node_id == c,
    ensures
        v.folded(relay, hb.attached@).keep == v.claims_of(relay),
        v.folded(relay, hb.attached@).next_seq == v.next_seq,
        !v.folded(relay, hb.attached@).changed,
        v.after_heartbeat(relay, Role::Relay, hb, now).next_seq == v.next_seq,
        v.after_heartbeat(relay, Role::Relay, hb, now).claims_of(relay) == v.claims_of(relay),
{
    lemma_repeat(v.claims_of(relay), hb.attached@, v.next_seq as int);
    assert(v.folded(relay, hb.attached@).keep =~= v.claims_of(relay));
}

proof fn lemma_repeat(mine: Map<NodeId, Claim>, attached: Seq<AttachedClient>, next_seq: int)
    requires
        forall|i: int|
            0 <= i < attached.len() ==> mine.dom().contains((#[trigger] attached[i]).node_id)
                && mine[attached[i].node_id].session_id == attached[i].session_id,
    ensures
        ({
            let f = fold_declaration(mine, attached, next_seq);
            &&& f.next_seq == next_seq
            &&& !f.changed
            &&& forall|c: NodeId| #[trigger]
                f.keep.dom().contains(c) ==> mine.dom().contains(c) && f.keep[c] == mine[c]
            &&& forall|i: int|
                0 <= i < attached.len() ==> f.keep.dom().contains((#[trigger] attached[i]).node_id)
        }),
    decreases attached.len(),
{
    if attached.len() > 0 {
        let d = attached.drop_last();
        assert forall|i: int| 0 <= i < d.len() implies #[trigger] d[i] == attached[i] by {}
        lemma_repeat(mine, d, next_seq);
        let f = fold_declaration(mine, attached, next_seq);
        assert forall|i: int| 0 <= i < attached.len() implies f.keep.dom().contains(
            (#[trigger] attached[i]).node_id,
        ) by {
            if i < d.len() {
                assert(d[i] == attached[i]);
            }
        }
    }
}

proof fn lemma_fold_sessions(mine: Map<NodeId, Claim>, attached: Seq<AttachedClient>, next_seq: int)
    requires
        forall|i: int, j: int|
            0 <= i < j < attached.len() ==> (#[trigger] attached[i]).node_id != (
            #[trigger] attached[j]).node_id,
    ensures
        ({
            let f = fold_declaration(mine, attached, next_seq);
            &&& forall|i: int|
                0 <= i < attached.len() ==> f.keep.dom().contains((#[trigger] attached[i]).node_id)
                    && f.keep[attached[i].node_id].session_id == attached[i].session_id
            &&& !f.changed ==> forall|c: NodeId| #[trigger]
                f.keep.dom().contains(c) ==> mine.dom().contains(c) && f.keep[c] == mine[c]
        }),
    decreases attached.len(),
{
    if attached.len() > 0 {
        let d = attached.drop_last();
        assert forall|i: int| 0 <= i < d.len() implies #[trigger] d[i] == attached[i] by {}
        lemma_fold_sessions(mine, d, next_seq);
        let f = fold_declaration(mine, attached, next_seq);
        let g = fold_declaration(mine, d, next_seq);
        assert forall|i: int| 0 <= i < attached.len() implies f.keep.dom().contains(
            (#[trigger] attached[i]).node_id,
        ) && f.keep[attached[i].node_id].session_id == attached[i].session_id by {
            if i < d.len() {
                assert(d[i] == attached[i]);
                assert(attached[i].node_id != attached[attached.len() - 1].node_id);
            }
        }
    }
}

/// A heartbeat declares a whole set. From a relay, exactly the clients that it
/// lists are declared, whatever was declared before; other claims are
/// untouched; and where no change is reported, nobody's attachment changed.
/// Repeating the heartbeat reports no change, and a client's never does. Its
/// sender was seen.
pub proof fn law_a_heartbeat_declares_a_whole_set(
    v: LeasesView,
    node: NodeId,
    role: Role,
    hb: Heartbeat,
    now: u64,
)
    requires
        v.wf(),
        v.claims_of(node).dom().finite(),
        v.next_seq + hb.attached@.len() <= u64::MAX,
        forall|i: int, j: int|
            0 <= i < j < hb.attached@.len() ==> (#[trigger] hb.attached@[i]).node_id != (
            #[trigger] hb.attached@[j]).node_id,
    ensures
        ({
            let w = v.after_heartbeat(node, role, hb, now);
            &&& role is Client ==> !v.changed_by(node, role, hb)
            &&& role is Relay ==> forall|c: NodeId| #[trigger]
                w.holds(node, c) <==> exists|i: int|
                    0 <= i < hb.attached@.len() && (#[trigger] hb.attached@[i]).node_id == c
            &&& forall|other: NodeId|
                other != node ==> #[trigger] w.claims_of(other) == v.claims_of(other)
            &&& !v.changed_by(node, role, hb) ==> forall|r: NodeId, c: NodeId| #[trigger]
                w.wins(r, c) <==> v.wins(r, c)
            &&& !w.changed_by(node, role, hb)
            &&& w.last_seen.dom().contains(node) && w.last_seen[node] == now
        }),
{
    let w = v.after_heartbeat(node, role, hb, now);
    let mine = v.claims_of(node);
    let f = v.folded(node, hb.attached@);
    lemma_heartbeat_wf(v, node, role, hb, now);
    if role is Relay {
        assert(claims_numbered(mine, v.next_seq));
        lemma_fold(mine, hb.attached@, v.next_seq);
        lemma_fold_sessions(mine, hb.attached@, v.next_seq as int);
        assert(w.claims_of(node) == f.keep);
        assert forall|c: NodeId| #[trigger] w.holds(node, c) <==> exists|i: int|
            0 <= i < hb.attached@.len() && (#[trigger] hb.attached@[i]).node_id == c by {
            assert(w.holds(node, c) <==> f.keep.dom().contains(c));
        }
        law_repeating_a_declaration_changes_nothing(w, node, hb, now);
        if !v.changed_by(node, role, hb) {
            assert(f.keep.dom().subset_of(mine.dom()));
            vstd::set_lib::lemma_subset_equality(f.keep.dom(), mine.dom());
            assert(f.keep =~= mine);
        }
    }
    assert forall|other: NodeId| other != node implies #[trigger] w.claims_of(other) == v.claims_of(
        other,
    ) by {}
    if !v.changed_by(node, role, hb) {
        assert forall|r: NodeId, c: NodeId| #[trigger] w.wins(r, c) <==> v.wins(r, c) by {
            assert forall|o: NodeId| w.claims_of(o) == v.claims_of(o) by {
                if o == node && role is Relay {
                    assert(w.claims_of(o) == f.keep);
                }
            }
            assert forall|o: NodeId, d: NodeId| #[trigger] w.holds(o, d) <==> v.holds(o, d) by {
                assert(w.claims_of(o) == v.claims_of(o));
            }
            assert forall|o: NodeId, d: NodeId| v.holds(o, d) implies #[trigger] w.seq_of(o, d)
                == v.seq_of(o, d) by {
                assert(w.holds(o, d));
                assert(w.claims_of(o) == v.claims_of(o));
            }
            if v.wins(r, c) {
                assert forall|o: NodeId| #[trigger] w.holds(o, c) implies w.seq_of(o, c)
                    <= w.seq_of(r, c) by {
                    assert(v.holds(o, c));
                }
            }
            if w.wins(r, c) {
                assert forall|o: NodeId| #[trigger] v.holds(o, c) implies v.seq_of(o, c)
                    <= v.seq_of(r, c) by {
                    assert(w.holds(o, c));
                    assert(w.seq_of(o, c) == v.seq_of(o, c));
                    assert(w.seq_of(r, c) == v.seq_of(r, c));
                }
            }
        }
    }
}

/// A new session is the most recent declaration: the relay that declares a
/// client with a session it did not have before wins the client, whoever
/// held it.
pub proof fn law_a_new_session_wins(
    v: LeasesView,
    relay: NodeId,
    hb: Heartbeat,
    now: u64,
    client: AttachedClient,
)
    requires
        v.wf(),
        v.next_seq + hb.attached@.len() <= u64::MAX,
        hb.attached@.len() == 1,
        hb.attached@[0] == client,
        v.holds(relay, client.node_id) ==> v.declared[relay][client.node_id].session_id
            != client.session_id,
    ensures
        v.after_heartbeat(relay, Role::Relay, hb, now).wins(relay, client.node_id),
{
    let w = v.after_heartbeat(relay, Role::Relay, hb, now);
    let c = client.node_id;
    assert(hb.attached@.drop_last() =~= Seq::empty());
    reveal_with_fuel(fold_declaration, 2);
    assert(w.declared[relay][c].seq == v.next_seq + 1);
    assert forall|other: NodeId| #[trigger] w.holds(other, c) implies w.seq_of(other, c)
        <= w.seq_of(relay, c) by {
        if other != relay {
            assert(v.holds(other, c));
        }
    }
}

/// A relay that only repeats its claim does not take the client back: the
/// more recent claim of another relay still wins.
pub proof fn law_a_stale_repeat_does_not_win(
    v: LeasesView,
    stale: NodeId,
    current: NodeId,
    hb: Heartbeat,
    now: u64,
    client: AttachedClient,
)
    requires
        v.wf(),
        v.next_seq + hb.attached@.len() <= u64::MAX,
        stale != current,
        v.wins(current, client.node_id),
        hb.attached@.len() == 1,
        hb.attached@[0] == client,
        v.holds(stale, client.node_id),
        v.declared[stale][client.node_id].session_id == client.session_id,
    ensures
        v.after_heartbeat(stale, Role::Relay, hb, now).wins(current, client.node_id),
{
    let w = v.after_heartbeat(stale, Role::Relay, hb, now);
    let c = client.node_id;
    assert(hb.attached@.drop_last() =~= Seq::empty());
    reveal_with_fuel(fold_declaration, 2);
    assert(w.declared[stale][c] == v.declared[stale][c]);
    assert(w.holds(current, c));
    assert forall|other: NodeId| #[trigger] w.holds(other, c) implies w.seq_of(other, c)
        <= w.seq_of(current, c) by {
        assert(v.holds(other, c));
    }
}

impl Leases {
    /// The maps are in order and every claim has a number of its own.
    pub open spec fn wf(self) -> bool {
        &&& self.last_seen.wf()
        &&& self.online_since.wf()
        &&& self.offline_at.wf()
        &&& self.declared.wf()
        &&& self.attached_to.wf()
        &&& self.mesh_up.wf()
        &&& self.reported.wf()
        &&& forall|r: NodeId| #[trigger] self.declared@.dom().contains(r) ==> self.declared@[r].wf()
        &&& self@.wf()
    }

    /// Nothing was declared yet.
    pub fn new() -> (r: Leases)
        ensures
            r.wf(),
            r@ == (LeasesView {
                last_seen: Map::empty(),
                online_since: Map::empty(),
                offline_at: Map::empty(),
                declared: Map::empty(),
                attached_to: Map::empty(),
                mesh_up: Map::empty(),
                reported: Map::empty(),
                next_seq: 0,
            }),
    {
        let r = Leases {
            last_seen: IdMap::new(),
            online_since: IdMap::new(),
            offline_at: IdMap::new(),
            declared: IdMap::new(),
            attached_to: IdMap::new(),
            mesh_up: IdMap::new(),
            reported: IdMap::new(),
            next_seq: 0,
        };
        assert(r@.declared =~= Map::empty());
        assert(r@.mesh_up =~= Map::empty());
        r
    }

    /// A member proved that it is alive. Returns true if it was offline.
    pub fn seen(&mut self, node: NodeId, now: u64) -> (r: bool)
        requires
            old(self).wf(),
        ensures
            final(self).wf(),
            final(self)@ == old(self)@.after_seen(node, now),
            r == !old(self)@.last_seen.dom().contains(node),
    {
        let was_online = self.last_seen.contains_key(node);
        self.last_seen.insert(node, now);
        if !was_online {
            self.online_since.insert(node, now);
        }
        self.offline_at.remove(node);
        proof {
            lemma_same_claims(old(self)@, self@);
        }
        !was_online
    }

    /// Fold in a heartbeat. Returns true if the derived attachment table may
    /// have changed: a claim is new, or fewer clients are declared.
    pub fn heartbeat(&mut self, node: NodeId, role: Role, hb: &Heartbeat, now: u64) -> (r: bool)
        requires
            old(self).wf(),
            old(self)@.next_seq + hb.attached@.len() <= u64::MAX,
        ensures
            final(self).wf(),
            final(self)@ == old(self)@.after_heartbeat(node, role, *hb, now),
            r == old(self)@.changed_by(node, role, *hb),
    {
        self.seen(node, now);
        self.reported.insert(node, Report { gen: hb.gen, digest: hb.digest, at: now });
        proof {
            lemma_heartbeat_wf(old(self)@, node, role, *hb, now);
        }
        match role {
            Role::Relay => {
                let empty: IdMap<Claim> = IdMap::new();
                let mine = match self.declared.get(node) {
                    Some(m) => m,
                    None => &empty,
                };
                assert(mine@ =~= old(self)@.claims_of(node));
                let mut next_seq = self.next_seq;
                let (keep, anew) = fold(mine, &hb.attached, &mut next_seq);
                let changed = anew || keep.len() != mine.len();
                self.next_seq = next_seq;
                self.declared.insert(node, keep);
                let mesh = copy_ids(&hb.mesh_up);
                self.mesh_up.insert(node, mesh);
                assert(self@ =~= old(self)@.after_heartbeat(node, role, *hb, now)) by {
                    assert(self@.declared =~= old(self)@.declared.insert(node, keep@));
                    assert(self@.mesh_up =~= old(self)@.mesh_up.insert(node, hb.mesh_up@));
                }
                changed
            },
            Role::Client => {
                match hb.attached_to {
                    Some(r) => {
                        self.attached_to.insert(node, r);
                    },
                    None => {
                        self.attached_to.remove(node);
                    },
                }
                assert(self@ =~= old(self)@.after_heartbeat(node, role, *hb, now));
                false
            },
        }
    }

    /// Expire members that are silent for longer than `window`. Returns the
    /// ones that just went offline, in the order of their ids. Claims are
    /// untouched.
    pub fn expire(&mut self, now: u64, window: u64) -> (r: Vec<NodeId>)
        requires
            old(self).wf(),
        ensures
            final(self).wf(),
            final(self)@ == old(self)@.without_link(|k: NodeId| old(self)@.silent(k, now, window)),
            forall|k: NodeId| #[trigger] r@.contains(k) <==> old(self)@.silent(k, now, window),
            forall|i: int, j: int| 0 <= i < j < r@.len() ==> r@[i] < r@[j],
    {
        let mut gone: Vec<NodeId> = Vec::new();
        let mut i: usize = 0;
        let ghost s = self.last_seen.entries@;
        while i < self.last_seen.entries.len()
            invariant
                i <= s.len(),
                s == self.last_seen.entries@,
                *self == *old(self),
                self.wf(),
                forall|k: NodeId| #[trigger]
                    gone@.contains(k) <==> exists|j: int|
                        0 <= j < i && (#[trigger] s[j]).0 == k && now - s[j].1 > window,
                forall|a: int, b: int| 0 <= a < b < gone@.len() ==> gone@[a] < gone@[b],
                forall|a: int| 0 <= a < gone@.len() && i < s.len() ==> gone@[a] < s[i as int].0,
            decreases s.len() - i,
        {
            let (node, last) = self.last_seen.entries[i];
            let ghost before = gone@;
            if now >= last && now - last > window {
                gone.push(node);
                assert forall|k: NodeId| #[trigger] gone@.contains(k) <==> exists|j: int|
                    0 <= j < i + 1 && (#[trigger] s[j]).0 == k && now - s[j].1 > window by {
                    if before.contains(k) {
                        let j = choose|j: int|
                            0 <= j < i && (#[trigger] s[j]).0 == k && now - s[j].1 > window;
                        let m = choose|m: int| 0 <= m < before.len() && before[m] == k;
                        assert(gone@[m] == k);
                    }
                    if k == node {
                        assert(gone@[before.len() as int] == k);
                        assert(s[i as int].0 == k);
                    }
                    if gone@.contains(k) && k != node {
                        let m = choose|m: int| 0 <= m < gone@.len() && gone@[m] == k;
                        assert(before[m] == k);
                    }
                }
            }
            assert(forall|a: int|
                0 <= a < gone@.len() && i + 1 < s.len() ==> gone@[a] < s[i + 1].0) by {
                if i + 1 < s.len() {
                    assert(s[i as int].0 < s[i + 1].0);
                }
            }
            i = i + 1;
        }
        proof {
            assert forall|k: NodeId| #[trigger] gone@.contains(k) <==> self@.silent(k, now, window) by {
                if self@.silent(k, now, window) {
                    let j = lemma_key(s, k);
                }
                if gone@.contains(k) {
                    let j = choose|j: int|
                        0 <= j < i && (#[trigger] s[j]).0 == k && now - s[j].1 > window;
                    lemma_entry(s, j);
                }
            }
            assert(self@ =~= old(self)@.without_link(|k: NodeId| gone@.take(0).contains(k)));
        }
        let mut g: usize = 0;
        while g < gone.len()
            invariant
                g <= gone.len(),
                self.wf(),
                forall|a: int, b: int| 0 <= a < b < gone@.len() ==> gone@[a] < gone@[b],
                self@ == old(self)@.without_link(|k: NodeId| gone@.take(g as int).contains(k)),
            decreases gone.len() - g,
        {
            let n = gone[g];
            let ghost v = old(self)@;
            let ghost t = gone@.take(g as int);
            let ghost u = gone@.take(g + 1);
            self.offline(n);
            proof {
                assert forall|k: NodeId| #[trigger] u.contains(k) <==> t.contains(k) || k == n by {
                    if t.contains(k) {
                        let m = choose|m: int| 0 <= m < t.len() && t[m] == k;
                        assert(u[m] == k);
                    }
                    if u.contains(k) && k != n {
                        let m = choose|m: int| 0 <= m < u.len() && u[m] == k;
                        assert(t[m] == k);
                    }
                    if k == n {
                        assert(u[g as int] == k);
                    }
                }
                assert(!t.contains(n)) by {
                    if t.contains(n) {
                        let m = choose|m: int| 0 <= m < t.len() && t[m] == n;
                        assert(gone@[m] == n);
                    }
                }
                assert(self@ =~= v.without_link(|k: NodeId| u.contains(k)));
            }
            g = g + 1;
        }
        proof {
            assert(gone@.take(g as int) =~= gone@);
            assert(self@ =~= old(self)@.without_link(
                |k: NodeId| old(self)@.silent(k, now, window),
            ));
        }
        gone
    }

    /// Forget a member entirely: its liveness and every claim on it.
    pub fn remove(&mut self, node: NodeId)
        requires
            old(self).wf(),
        ensures
            final(self).wf(),
            final(self)@ == old(self)@.forgotten(node),
    {
        self.offline(node);
        self.offline_at.remove(node);
        self.reported.remove(node);
        let ghost mid = self@;
        let ghost s = self.declared.entries@;
        proof {
            assert forall|j: int| 0 <= j < s.len() implies (#[trigger] s[j]).1.wf() by {
                lemma_entry(s, j);
            }
        }
        let mut i: usize = 0;
        while i < self.declared.entries.len()
            invariant
                i <= s.len(),
                self.declared.entries.len() == s.len(),
                self.declared.wf(),
                forall|j: int|
                    0 <= j < s.len() ==> (#[trigger] self.declared.entries@[j]).0 == s[j].0
                        && self.declared.entries@[j].1.wf() && s[j].1.wf(),
                forall|j: int|
                    0 <= j < i ==> (#[trigger] self.declared.entries@[j]).1@ == s[j].1@.remove(
                        node,
                    ),
                forall|j: int|
                    i <= j < s.len() ==> #[trigger] self.declared.entries@[j] == s[j],
                self.last_seen.wf(),
                self.online_since.wf(),
                self.offline_at.wf(),
                self.attached_to.wf(),
                self.mesh_up.wf(),
                self.reported.wf(),
                self@ == (LeasesView { declared: self@.declared, ..mid }),
            decreases s.len() - i,
        {
            self.declared.entries[i].1.remove(node);
            i = i + 1;
        }
        proof {
            let t = self.declared.entries@;
            assert forall|r: NodeId| #[trigger] self@.declared.dom().contains(r)
                <==> mid.declared.dom().contains(r) by {
                if self.declared@.dom().contains(r) {
                    let j = lemma_key(t, r);
                    lemma_entry(s, j);
                }
                if entries_map(s).dom().contains(r) {
                    let j = lemma_key(s, r);
                    lemma_entry(t, j);
                }
            }
            assert forall|r: NodeId| #[trigger] self@.declared.dom().contains(r) implies
                self@.declared[r] == mid.declared[r].remove(node) by {
                let j = lemma_key(t, r);
                lemma_entry(s, j);
            }
            assert(self@.declared =~= mid.declared.map_values(
                |m: Map<NodeId, Claim>| m.remove(node),
            ));
            assert(self@ =~= old(self)@.forgotten(node));
            lemma_forgotten_wf(old(self)@, node);
            assert forall|r: NodeId| #[trigger] self.declared@.dom().contains(r) implies
                self.declared@[r].wf() by {
                let j = lemma_key(t, r);
            }
        }
    }

    /// Drop everything that a relay ever declared, and the relay itself.
    /// For a relay that is deleted or disabled, not one that is silent.
    pub fn remove_relay(&mut self, relay: NodeId)
        requires
            old(self).wf(),
        ensures
            final(self).wf(),
            final(self)@ == (LeasesView {
                declared: old(self)@.declared.remove(relay),
                ..old(self)@
            }).forgotten(relay),
    {
        self.declared.remove(relay);
        proof {
            assert(self@ =~= (LeasesView {
                declared: old(self)@.declared.remove(relay),
                ..old(self)@
            }));
            let v = old(self)@;
            let w = self@;
            assert forall|r: NodeId, c: NodeId, s: NodeId, d: NodeId|
                #![trigger w.holds(r, c), w.holds(s, d)]
                w.holds(r, c) && w.holds(s, d) && r != s implies w.seq_of(r, c) != w.seq_of(s, d) by {
                assert(v.holds(r, c) && v.holds(s, d));
            }
        }
        self.remove(relay);
    }

    /// The control link is gone. Liveness ends; attachments do not.
    pub fn offline(&mut self, node: NodeId)
        requires
            old(self).wf(),
        ensures
            final(self).wf(),
            final(self)@ == old(self)@.after_offline(node),
    {
        if let Some(last) = self.last_seen.remove(node) {
            self.offline_at.insert(node, last);
        }
        self.online_since.remove(node);
        self.attached_to.remove(node);
        self.mesh_up.remove(node);
        proof {
            let w = old(self)@.after_offline(node);
            assert(self@.mesh_up =~= w.mesh_up);
            assert(self@.offline_at =~= w.offline_at);
            assert(self@ =~= w);
            lemma_same_claims(old(self)@, self@);
        }
    }

    pub fn is_online(&self, node: NodeId) -> (r: bool)
        requires
            self.wf(),
        ensures
            r == self@.last_seen.dom().contains(node),
    {
        self.last_seen.contains_key(node)
    }

    /// Since when a member has been online without a break.
    pub fn online_since(&self, node: NodeId) -> (r: Option<u64>)
        requires
            self.wf(),
        ensures
            r == lookup(self@.online_since, node),
    {
        match self.online_since.get(node) {
            Some(t) => Some(*t),
            None => None,
        }
    }

    /// When a member that is offline was last seen, if it ever was.
    pub fn offline_since(&self, node: NodeId) -> (r: Option<u64>)
        requires
            self.wf(),
        ensures
            r == lookup(self@.offline_at, node),
    {
        match self.offline_at.get(node) {
            Some(t) => Some(*t),
            None => None,
        }
    }

    /// The latest sign of life of a member that is online.
    pub fn last_seen(&self, node: NodeId) -> (r: Option<u64>)
        requires
            self.wf(),
        ensures
            r == lookup(self@.last_seen, node),
    {
        match self.last_seen.get(node) {
            Some(t) => Some(*t),
            None => None,
        }
    }

    /// The members that are online, in the order of their ids.
    pub fn online_nodes(&self) -> (r: Vec<NodeId>)
        requires
            self.wf(),
        ensures
            forall|k: NodeId| #[trigger] r@.contains(k) <==> self@.last_seen.dom().contains(k),
            forall|i: int, j: int| 0 <= i < j < r@.len() ==> r@[i] < r@[j],
            r@.len() == self@.last_seen.dom().len(),
    {
        proof {
            crate::idmap::lemma_len(self.last_seen.entries@);
        }
        self.last_seen.keys()
    }

    /// The clients that a relay declares, in the order of their ids.
    pub fn declared_by(&self, relay: NodeId) -> (r: Vec<NodeId>)
        requires
            self.wf(),
        ensures
            forall|k: NodeId| #[trigger] r@.contains(k) <==> self@.holds(relay, k),
            forall|i: int, j: int| 0 <= i < j < r@.len() ==> r@[i] < r@[j],
    {
        match self.declared.get(relay) {
            Some(m) => m.keys(),
            None => Vec::new(),
        }
    }

    /// The relay that a client says it is attached to.
    pub fn attached_to(&self, client: NodeId) -> (r: Option<NodeId>)
        requires
            self.wf(),
        ensures
            r == lookup(self@.attached_to, client),
    {
        match self.attached_to.get(client) {
            Some(t) => Some(*t),
            None => None,
        }
    }

    /// The relays that a relay has a mesh link to.
    pub fn mesh_up(&self, relay: NodeId) -> (r: Vec<NodeId>)
        requires
            self.wf(),
        ensures
            r@ == if self@.mesh_up.dom().contains(relay) {
                self@.mesh_up[relay]
            } else {
                Seq::empty()
            },
    {
        match self.mesh_up.get(relay) {
            Some(v) => copy_ids(v),
            None => Vec::new(),
        }
    }

    /// What a member last reported of its view.
    pub fn report(&self, node: NodeId) -> (r: Option<Report>)
        requires
            self.wf(),
        ensures
            r == lookup(self@.reported, node),
    {
        match self.reported.get(node) {
            Some(t) => Some(*t),
            None => None,
        }
    }
}

/// The value under a key, if there is one.
pub open spec fn lookup<V>(m: Map<NodeId, V>, k: NodeId) -> Option<V> {
    if m.dom().contains(k) {
        Some(m[k])
    } else {
        None
    }
}

/// A copy of a list of ids.
pub fn copy_ids(v: &Vec<NodeId>) -> (r: Vec<NodeId>)
    ensures
        r@ == v@,
{
    let r = v.clone();
    assert(r@ =~= v@);
    r
}

proof fn lemma_same_claims(v: LeasesView, w: LeasesView)
    requires
        v.wf(),
        w.declared == v.declared,
        w.next_seq == v.next_seq,
    ensures
        w.wf(),
{
    assert forall|r: NodeId, c: NodeId, s: NodeId, d: NodeId|
        #![trigger w.holds(r, c), w.holds(s, d)]
        w.holds(r, c) && w.holds(s, d) && r != s implies w.seq_of(r, c) != w.seq_of(s, d) by {
        assert(v.holds(r, c) && v.holds(s, d));
    }
}

proof fn lemma_forgotten_wf(v: LeasesView, node: NodeId)
    requires
        v.wf(),
    ensures
        v.forgotten(node).wf(),
{
    let w = v.forgotten(node);
    assert forall|r: NodeId| #[trigger] w.declared.dom().contains(r) implies claims_numbered(
        w.declared[r],
        w.next_seq,
    ) by {
        assert(v.declared.dom().contains(r));
        assert(claims_numbered(v.declared[r], v.next_seq));
    }
    assert forall|r: NodeId, c: NodeId, s: NodeId, d: NodeId|
        #![trigger w.holds(r, c), w.holds(s, d)]
        w.holds(r, c) && w.holds(s, d) && r != s implies w.seq_of(r, c) != w.seq_of(s, d) by {
        assert(v.holds(r, c) && v.holds(s, d));
    }
}

/// Fold a declaration into the claims that the relay had. Returns the new
/// claims, and whether one of them is new.
fn fold(mine: &IdMap<Claim>, attached: &Vec<AttachedClient>, next_seq: &mut u64) -> (r: (
    IdMap<Claim>,
    bool,
))
    requires
        mine.wf(),
        *old(next_seq) + attached@.len() <= u64::MAX,
    ensures
        r.0.wf(),
        ({
            let f = fold_declaration(mine@, attached@, *old(next_seq) as int);
            &&& r.0@ == f.keep
            &&& r.1 == f.changed
            &&& *final(next_seq) == f.next_seq
        }),
{
    let mut keep: IdMap<Claim> = IdMap::new();
    let mut changed = false;
    let mut i: usize = 0;
    while i < attached.len()
        invariant
            i <= attached.len(),
            mine.wf(),
            keep.wf(),
            *old(next_seq) + attached@.len() <= u64::MAX,
            *old(next_seq) <= *next_seq <= *old(next_seq) + i,
            ({
                let f = fold_declaration(mine@, attached@.take(i as int), *old(next_seq) as int);
                &&& keep@ == f.keep
                &&& changed == f.changed
                &&& *next_seq == f.next_seq
            }),
        decreases attached.len() - i,
    {
        let a = attached[i];
        assert(attached@.take(i + 1).drop_last() =~= attached@.take(i as int));
        let known = match mine.get(a.node_id) {
            Some(c) => if c.session_id == a.session_id {
                Some(*c)
            } else {
                None
            },
            None => None,
        };
        let claim = match known {
            Some(c) => c,
            None => {
                changed = true;
                *next_seq = *next_seq + 1;
                Claim { session_id: a.session_id, seq: *next_seq }
            },
        };
        keep.insert(a.node_id, claim);
        i = i + 1;
    }
    assert(attached@.take(i as int) =~= attached@);
    (keep, changed)
}

/// `relay` wins `client` among the first `n` relays of the table.
spec fn wins_among(t: Seq<(NodeId, IdMap<Claim>)>, n: int, relay: NodeId, client: NodeId) -> bool {
    &&& exists|i: int|
        0 <= i < n && (#[trigger] t[i]).0 == relay && t[i].1@.dom().contains(client)
            && most_recent(t, n, t[i].1@[client].seq, client)
}

/// No claim of the first `n` relays on `client` is more recent than `seq`.
spec fn most_recent(t: Seq<(NodeId, IdMap<Claim>)>, n: int, seq: u64, client: NodeId) -> bool {
    forall|j: int|
        0 <= j < n && (#[trigger] t[j]).1@.dom().contains(client) ==> t[j].1@[client].seq <= seq
}

/// Some of the first `n` relays of the table declares `client`.
spec fn declared_among(t: Seq<(NodeId, IdMap<Claim>)>, n: int, client: NodeId) -> bool {
    exists|i: int| 0 <= i < n && (#[trigger] t[i]).1@.dom().contains(client)
}

impl Leases {
    proof fn lemma_table(&self)
        requires
            self.wf(),
        ensures
            forall|j: int|
                0 <= j < self.declared.entries@.len() ==> (
                #[trigger] self.declared.entries@[j]).1.wf(),
            forall|relay: NodeId, client: NodeId|
                wins_among(
                    self.declared.entries@,
                    self.declared.entries@.len() as int,
                    relay,
                    client,
                ) ==> #[trigger] self@.wins(relay, client),
            forall|client: NodeId|
                declared_among(
                    self.declared.entries@,
                    self.declared.entries@.len() as int,
                    client,
                ) <==> exists|relay: NodeId| #[trigger] self@.holds(relay, client),
    {
        let t = self.declared.entries@;
        let n = t.len() as int;
        assert forall|j: int| 0 <= j < n implies (#[trigger] t[j]).1.wf() by {
            lemma_entry(t, j);
        }
        assert forall|relay: NodeId, client: NodeId|
            wins_among(t, n, relay, client) implies #[trigger] self@.wins(relay, client) by {
            let i = choose|i: int|
                0 <= i < n && (#[trigger] t[i]).0 == relay && t[i].1@.dom().contains(client)
                    && most_recent(t, n, t[i].1@[client].seq, client);
            lemma_entry(t, i);
            assert forall|other: NodeId| #[trigger] self@.holds(other, client) implies self@.seq_of(
                other,
                client,
            ) <= self@.seq_of(relay, client) by {
                let j = lemma_key(t, other);
            }
        }
        assert forall|client: NodeId|
            declared_among(t, n, client) <==> exists|relay: NodeId| #[trigger]
                self@.holds(relay, client) by {
            if declared_among(t, n, client) {
                let i = choose|i: int| 0 <= i < n && (#[trigger] t[i]).1@.dom().contains(client);
                lemma_entry(t, i);
                assert(self@.holds(t[i].0, client));
            }
            if exists|relay: NodeId| #[trigger] self@.holds(relay, client) {
                let relay = choose|relay: NodeId| #[trigger] self@.holds(relay, client);
                let i = lemma_key(t, relay);
            }
        }
    }

    /// client -> relay, the most recent declaration winning.
    pub fn attachments(&self) -> (r: IdMap<NodeId>)
        requires
            self.wf(),
        ensures
            r.wf(),
            forall|c: NodeId| #[trigger]
                r@.dom().contains(c) <==> exists|relay: NodeId| #[trigger] self@.holds(relay, c),
            forall|c: NodeId| #[trigger] r@.dom().contains(c) ==> self@.wins(r@[c], c),
    {
        proof {
            self.lemma_table();
        }
        let ghost t = self.declared.entries@;
        let mut best: IdMap<(u64, NodeId)> = IdMap::new();
        let mut i: usize = 0;
        while i < self.declared.entries.len()
            invariant
                i <= t.len(),
                t == self.declared.entries@,
                best.wf(),
                forall|j: int| 0 <= j < t.len() ==> (#[trigger] t[j]).1.wf(),
                forall|c: NodeId| #[trigger]
                    best@.dom().contains(c) <==> declared_among(t, i as int, c),
                forall|c: NodeId| #[trigger]
                    best@.dom().contains(c) ==> wins_among(t, i as int, best@[c].1, c)
                        && most_recent(t, i as int, best@[c].0, c),
                forall|c: NodeId| #[trigger]
                    best@.dom().contains(c) ==> exists|j: int|
                        0 <= j < i && (#[trigger] t[j]).0 == best@[c].1 && t[j].1@.dom().contains(c)
                            && t[j].1@[c].seq == best@[c].0,
            decreases t.len() - i,
        {
            let relay = self.declared.entries[i].0;
            let claims = &self.declared.entries[i].1;
            let ghost e = claims.entries@;
            let ghost start = best@;
            assert(claims == t[i as int].1);
            let mut k: usize = 0;
            while k < claims.entries.len()
                invariant
                    k <= e.len(),
                    e == claims.entries@,
                    claims.wf(),
                    best.wf(),
                    forall|c: NodeId| #[trigger]
                        best@.dom().contains(c) <==> start.dom().contains(c) || exists|m: int|
                            0 <= m < k && (#[trigger] e[m]).0 == c,
                    forall|c: NodeId| #[trigger]
                        best@.dom().contains(c) ==> {
                            ||| start.dom().contains(c) && best@[c] == start[c] && (forall|m: int|
                                0 <= m < k && (#[trigger] e[m]).0 == c ==> e[m].1.seq < start[c].0)
                            ||| best@[c].1 == relay && (exists|m: int|
                                0 <= m < k && (#[trigger] e[m]).0 == c && e[m].1.seq == best@[c].0)
                                && (start.dom().contains(c) ==> start[c].0 <= best@[c].0)
                        },
                decreases e.len() - k,
            {
                let client = claims.entries[k].0;
                let c = claims.entries[k].1;
                let newer = match best.get(client) {
                    Some(b) => b.0 <= c.seq,
                    None => true,
                };
                let ghost was = best@;
                if newer {
                    best.insert(client, (c.seq, relay));
                }
                proof {
                    assert forall|x: NodeId| #[trigger]
                        best@.dom().contains(x) <==> start.dom().contains(x) || exists|m: int|
                            0 <= m < k + 1 && (#[trigger] e[m]).0 == x by {
                        if was.dom().contains(x) && !start.dom().contains(x) {
                            let m = choose|m: int| 0 <= m < k && (#[trigger] e[m]).0 == x;
                            assert(0 <= m < k + 1 && e[m].0 == x);
                        }
                        if x == client {
                            assert(e[k as int].0 == x);
                        }
                    }
                    assert forall|x: NodeId| #[trigger] best@.dom().contains(x) implies {
                        ||| start.dom().contains(x) && best@[x] == start[x] && (forall|m: int|
                            0 <= m < k + 1 && (#[trigger] e[m]).0 == x ==> e[m].1.seq < start[x].0)
                        ||| best@[x].1 == relay && (exists|m: int|
                            0 <= m < k + 1 && (#[trigger] e[m]).0 == x && e[m].1.seq == best@[x].0)
                            && (start.dom().contains(x) ==> start[x].0 <= best@[x].0)
                    } by {
                        if x == client {
                            assert forall|m: int| 0 <= m < k implies (#[trigger] e[m]).0 != x by {
                                assert(e[m].0 < e[k as int].0);
                            }
                            assert(e[k as int].0 == x);
                        } else {
                            assert(was.dom().contains(x));
                            assert(best@[x] == was[x]);
                            if !(start.dom().contains(x) && best@[x] == start[x] && (forall|m: int|
                                0 <= m < k && (#[trigger] e[m]).0 == x ==> e[m].1.seq < start[x].0)) {
                                let m = choose|m: int|
                                    0 <= m < k && (#[trigger] e[m]).0 == x && e[m].1.seq
                                        == best@[x].0;
                                assert(0 <= m < k + 1 && e[m].0 == x);
                            }
                        }
                    }
                }
                k = k + 1;
            }
            proof {
                let n = i as int;
                assert forall|c: NodeId| #[trigger]
                    best@.dom().contains(c) <==> declared_among(t, n + 1, c) by {
                    if best@.dom().contains(c) {
                        if start.dom().contains(c) {
                            let j = choose|j: int|
                                0 <= j < n && (#[trigger] t[j]).1@.dom().contains(c);
                            assert(0 <= j < n + 1 && t[j].1@.dom().contains(c));
                        } else {
                            let m = choose|m: int| 0 <= m < e.len() && (#[trigger] e[m]).0 == c;
                            lemma_entry(e, m);
                            assert(t[n].1@.dom().contains(c));
                        }
                    }
                    if declared_among(t, n + 1, c) {
                        let j = choose|j: int|
                            0 <= j < n + 1 && (#[trigger] t[j]).1@.dom().contains(c);
                        if j == n {
                            let m = lemma_key(e, c);
                        } else {
                            assert(declared_among(t, n, c));
                            assert(start.dom().contains(c));
                        }
                    }
                }
                assert forall|c: NodeId| #[trigger] best@.dom().contains(c) implies wins_among(
                    t,
                    n + 1,
                    best@[c].1,
                    c,
                ) && most_recent(t, n + 1, best@[c].0, c) && exists|j: int|
                    0 <= j < n + 1 && (#[trigger] t[j]).0 == best@[c].1 && t[j].1@.dom().contains(c)
                        && t[j].1@[c].seq == best@[c].0 by {
                    if start.dom().contains(c) && best@[c] == start[c] && (forall|m: int|
                        0 <= m < e.len() && (#[trigger] e[m]).0 == c ==> e[m].1.seq < start[c].0) {
                        let j = choose|j: int|
                            0 <= j < n && (#[trigger] t[j]).0 == start[c].1
                                && t[j].1@.dom().contains(c) && t[j].1@[c].seq == start[c].0;
                        assert(most_recent(t, n + 1, best@[c].0, c)) by {
                            assert forall|q: int|
                                0 <= q < n + 1 && (#[trigger] t[q]).1@.dom().contains(c) implies
                                t[q].1@[c].seq <= best@[c].0 by {
                                if q == n {
                                    let m = lemma_key(e, c);
                                }
                            }
                        }
                        assert(0 <= j < n + 1 && t[j].0 == best@[c].1);
                    } else {
                        let m = choose|m: int|
                            0 <= m < e.len() && (#[trigger] e[m]).0 == c && e[m].1.seq
                                == best@[c].0;
                        lemma_entry(e, m);
                        assert(t[n].0 == relay);
                        assert(most_recent(t, n + 1, best@[c].0, c)) by {
                            assert forall|q: int|
                                0 <= q < n + 1 && (#[trigger] t[q]).1@.dom().contains(c) implies
                                t[q].1@[c].seq <= best@[c].0 by {
                                if q < n {
                                    assert(declared_among(t, n, c));
                                    assert(start.dom().contains(c));
                                }
                            }
                        }
                    }
                }
            }
            i = i + 1;
        }
        let mut out: IdMap<NodeId> = IdMap::new();
        let ghost b = best.entries@;
        let mut p: usize = 0;
        while p < best.entries.len()
            invariant
                p <= b.len(),
                b == best.entries@,
                best.wf(),
                out.wf(),
                forall|c: NodeId| #[trigger]
                    out@.dom().contains(c) <==> exists|m: int|
                        0 <= m < p && (#[trigger] b[m]).0 == c,
                forall|m: int|
                    0 <= m < p ==> out@.dom().contains((#[trigger] b[m]).0) && out@[b[m].0]
                        == b[m].1.1,
            decreases b.len() - p,
        {
            let ghost was = out@;
            out.insert(best.entries[p].0, best.entries[p].1.1);
            proof {
                assert forall|c: NodeId| #[trigger] out@.dom().contains(c) <==> exists|m: int|
                    0 <= m < p + 1 && (#[trigger] b[m]).0 == c by {
                    if was.dom().contains(c) {
                        let m = choose|m: int| 0 <= m < p && (#[trigger] b[m]).0 == c;
                        assert(0 <= m < p + 1 && b[m].0 == c);
                    }
                    if c == b[p as int].0 {
                        assert(b[p as int].0 == c);
                    }
                }
            }
            p = p + 1;
        }
        proof {
            assert forall|c: NodeId| #[trigger]
                out@.dom().contains(c) <==> best@.dom().contains(c) by {
                if out@.dom().contains(c) {
                    let m = choose|m: int| 0 <= m < p && (#[trigger] b[m]).0 == c;
                    lemma_entry(b, m);
                }
                if best@.dom().contains(c) {
                    let m = lemma_key(b, c);
                }
            }
            assert forall|c: NodeId| #[trigger] out@.dom().contains(c) implies self@.wins(
                out@[c],
                c,
            ) by {
                assert(best@.dom().contains(c));
                let m = lemma_key(b, c);
                assert(out@[b[m].0] == b[m].1.1);
            }
        }
        out
    }

    /// (relay, client, session, number) of every claim, ordered by relay and
    /// then by client.
    pub fn claims(&self) -> (r: Vec<(NodeId, NodeId, u64, u64)>)
        requires
            self.wf(),
        ensures
            forall|relay: NodeId, client: NodeId|
                #![trigger self@.holds(relay, client)]
                self@.holds(relay, client) ==> r@.contains(
                    (
                        relay,
                        client,
                        self@.declared[relay][client].session_id,
                        self@.declared[relay][client].seq,
                    ),
                ),
            forall|i: int|
                0 <= i < r@.len() ==> self@.holds((#[trigger] r@[i]).0, r@[i].1)
                    && self@.declared[r@[i].0][r@[i].1] == (Claim {
                    session_id: r@[i].2,
                    seq: r@[i].3,
                }),
            forall|i: int, j: int|
                0 <= i < j < r@.len() ==> (#[trigger] r@[i]).0 < (#[trigger] r@[j]).0 || (r@[i].0
                    == r@[j].0 && r@[i].1 < r@[j].1),
    {
        proof {
            self.lemma_table();
        }
        let ghost t = self.declared.entries@;
        let mut out: Vec<(NodeId, NodeId, u64, u64)> = Vec::new();
        let mut i: usize = 0;
        while i < self.declared.entries.len()
            invariant
                i <= t.len(),
                t == self.declared.entries@,
                self.wf(),
                forall|j: int| 0 <= j < t.len() ==> (#[trigger] t[j]).1.wf(),
                forall|j: int, m: int|
                    #![trigger t[j].1.entries@[m]]
                    0 <= j < i && 0 <= m < t[j].1.entries@.len() ==> out@.contains(
                        (
                            t[j].0,
                            t[j].1.entries@[m].0,
                            t[j].1.entries@[m].1.session_id,
                            t[j].1.entries@[m].1.seq,
                        ),
                    ),
                forall|p: int|
                    0 <= p < out@.len() ==> self@.holds((#[trigger] out@[p]).0, out@[p].1)
                        && self@.declared[out@[p].0][out@[p].1] == (Claim {
                        session_id: out@[p].2,
                        seq: out@[p].3,
                    }),
                forall|p: int|
                    0 <= p < out@.len() && i < t.len() ==> (#[trigger] out@[p]).0 < t[i as int].0,
                forall|p: int, q: int|
                    0 <= p < q < out@.len() ==> (#[trigger] out@[p]).0 < (#[trigger] out@[q]).0 || (
                    out@[p].0 == out@[q].0 && out@[p].1 < out@[q].1),
            decreases t.len() - i,
        {
            let relay = self.declared.entries[i].0;
            let claims = &self.declared.entries[i].1;
            let ghost e = claims.entries@;
            let ghost start = out@;
            proof {
                lemma_entry(t, i as int);
            }
            let mut k: usize = 0;
            while k < claims.entries.len()
                invariant
                    k <= e.len(),
                    e == claims.entries@,
                    claims.wf(),
                    self@.declared.dom().contains(relay),
                    self@.declared[relay] == claims@,
                    start.len() <= out@.len(),
                    forall|p: int| 0 <= p < start.len() ==> #[trigger] out@[p] == start[p],
                    forall|p: int|
                        start.len() <= p < out@.len() ==> (#[trigger] out@[p]).0 == relay,
                    forall|m: int|
                        0 <= m < k ==> out@.contains(
                            (
                                relay,
                                (#[trigger] e[m]).0,
                                e[m].1.session_id,
                                e[m].1.seq,
                            ),
                        ),
                    forall|p: int| 0 <= p < start.len() ==> (#[trigger] start[p]).0 < relay,
                    forall|p: int|
                        0 <= p < out@.len() ==> self@.holds((#[trigger] out@[p]).0, out@[p].1)
                            && self@.declared[out@[p].0][out@[p].1] == (Claim {
                            session_id: out@[p].2,
                            seq: out@[p].3,
                        }),
                    forall|p: int|
                        start.len() <= p < out@.len() && k < e.len() ==> (#[trigger] out@[p]).1
                            < e[k as int].0,
                    forall|p: int, q: int|
                        0 <= p < q < out@.len() ==> (#[trigger] out@[p]).0 < (#[trigger] out@[q]).0
                            || (out@[p].0 == out@[q].0 && out@[p].1 < out@[q].1),
                decreases e.len() - k,
            {
                let client = claims.entries[k].0;
                let c = claims.entries[k].1;
                let ghost was = out@;
                out.push((relay, client, c.session_id, c.seq));
                proof {
                    lemma_entry(e, k as int);
                    if k + 1 < e.len() {
                        assert(e[k as int].0 < e[k + 1].0);
                    }
                    assert forall|m: int| 0 <= m < k + 1 implies out@.contains(
                        (relay, (#[trigger] e[m]).0, e[m].1.session_id, e[m].1.seq),
                    ) by {
                        if m < k {
                            let x = (relay, e[m].0, e[m].1.session_id, e[m].1.seq);
                            let p = choose|p: int| 0 <= p < was.len() && was[p] == x;
                            assert(out@[p] == x);
                        } else {
                            assert(out@[was.len() as int] == (
                                relay,
                                e[m].0,
                                e[m].1.session_id,
                                e[m].1.seq,
                            ));
                        }
                    }
                }
                k = k + 1;
            }
            proof {
                assert forall|j: int, m: int|
                    #![trigger t[j].1.entries@[m]]
                    0 <= j < i + 1 && 0 <= m < t[j].1.entries@.len() implies out@.contains(
                    (
                        t[j].0,
                        t[j].1.entries@[m].0,
                        t[j].1.entries@[m].1.session_id,
                        t[j].1.entries@[m].1.seq,
                    ),
                ) by {
                    if j < i {
                        let x = (
                            t[j].0,
                            t[j].1.entries@[m].0,
                            t[j].1.entries@[m].1.session_id,
                            t[j].1.entries@[m].1.seq,
                        );
                        assert(start.contains(x));
                        let p = choose|p: int| 0 <= p < start.len() && start[p] == x;
                        assert(out@[p] == x);
                    } else {
                        assert(t[j].1.entries@[m] == e[m]);
                    }
                }
                if i + 1 < t.len() {
                    assert(t[i as int].0 < t[i + 1].0);
                }
            }
            i = i + 1;
        }
        proof {
            assert forall|relay: NodeId, client: NodeId|
                #![trigger self@.holds(relay, client)]
                self@.holds(relay, client) implies out@.contains(
                (
                    relay,
                    client,
                    self@.declared[relay][client].session_id,
                    self@.declared[relay][client].seq,
                ),
            ) by {
                let j = lemma_key(t, relay);
                let m = lemma_key(t[j].1.entries@, client);
                assert(t[j].1.entries@[m].0 == client);
            }
        }
        out
    }
}

/// A sign of life says when a member was seen last; from the first one on it is
/// online, and no longer counted as gone. Nobody else is touched, and no claim.
pub proof fn law_a_sign_of_life_marks_a_member_online(
    v: LeasesView,
    node: NodeId,
    now: u64,
    other: NodeId,
)
    requires
        other != node,
    ensures
        ({
            let w = v.after_seen(node, now);
            &&& w.last_seen.dom().contains(node) && w.last_seen[node] == now
            &&& !w.offline_at.dom().contains(node)
            &&& !v.last_seen.dom().contains(node) ==> w.online_since.dom().contains(node)
                && w.online_since[node] == now
            &&& v.last_seen.dom().contains(node) ==> w.online_since == v.online_since
            &&& lookup(w.last_seen, other) == lookup(v.last_seen, other)
            &&& lookup(w.online_since, other) == lookup(v.online_since, other)
            &&& lookup(w.offline_at, other) == lookup(v.offline_at, other)
            &&& w.declared == v.declared
            &&& w.attached_to == v.attached_to
            &&& w.next_seq == v.next_seq
        }),
{
}

/// A member whose link is gone is not online; it counts as gone since it was
/// last seen. Whoever's link is not gone stays as it was, and every claim
/// stays.
pub proof fn law_a_member_is_gone_since_it_was_last_seen(
    v: LeasesView,
    gone: spec_fn(NodeId) -> bool,
    k: NodeId,
)
    ensures
        ({
            let w = v.without_link(gone);
            &&& gone(k) ==> !w.last_seen.dom().contains(k) && !w.online_since.dom().contains(k)
                && !w.attached_to.dom().contains(k) && !w.mesh_up.dom().contains(k)
            &&& gone(k) && v.last_seen.dom().contains(k) ==> w.offline_at.dom().contains(k)
                && w.offline_at[k] == v.last_seen[k]
            &&& !gone(k) ==> lookup(w.last_seen, k) == lookup(v.last_seen, k) && lookup(
                w.online_since,
                k,
            ) == lookup(v.online_since, k) && lookup(w.offline_at, k) == lookup(v.offline_at, k)
                && lookup(w.attached_to, k) == lookup(v.attached_to, k)
            &&& w.declared == v.declared
            &&& w.reported == v.reported
            &&& v.after_offline(k).last_seen == v.last_seen.remove(k)
        }),
        forall|now: u64, window: u64| #[trigger]
            v.silent(k, now, window) <==> v.last_seen.dom().contains(k) && now > v.last_seen[k]
                + window,
{
    assert(v.after_offline(k).last_seen =~= v.last_seen.remove(k));
}

/// A heartbeat leaves on record which generation its sender holds; that of a
/// client also where it is attached, and that of a relay also which relays it
/// reaches.
pub proof fn law_a_heartbeat_is_recorded(
    v: LeasesView,
    node: NodeId,
    role: Role,
    hb: Heartbeat,
    now: u64,
)
    ensures
        ({
            let w = v.after_heartbeat(node, role, hb, now);
            &&& w.reported.dom().contains(node)
            &&& w.reported[node] == (Report { gen: hb.gen, digest: hb.digest, at: now })
            &&& role == Role::Client ==> lookup(w.attached_to, node) == hb.attached_to
                && w.declared == v.declared
            &&& role == Role::Relay ==> w.mesh_up.dom().contains(node) && w.mesh_up[node]
                == hb.mesh_up@ && w.attached_to == v.attached_to
        }),
{
}

/// Of a member that is forgotten nothing is left: it is neither online nor
/// counted as gone, and no relay declares it.
pub proof fn law_nothing_is_left_of_a_forgotten_member(
    v: LeasesView,
    node: NodeId,
    relay: NodeId,
    other: NodeId,
)
    ensures
        ({
            let w = v.forgotten(node);
            &&& !w.last_seen.dom().contains(node)
            &&& !w.offline_at.dom().contains(node)
            &&& !w.reported.dom().contains(node)
            &&& !w.holds(relay, node)
            &&& other != node ==> (w.holds(relay, other) <==> v.holds(relay, other)) && lookup(
                w.last_seen,
                other,
            ) == lookup(v.last_seen, other)
        }),
{
}

/// A client is attached to the relay whose claim on it has the highest number,
/// and to no other.
pub proof fn law_the_newest_claim_wins(v: LeasesView, relay: NodeId, other: NodeId, client: NodeId)
    requires
        v.declared.dom().contains(relay),
        v.declared[relay].dom().contains(client),
        v.declared.dom().contains(other),
        v.declared[other].dom().contains(client),
    ensures
        v.wins(relay, client) ==> v.declared[other][client].seq <= v.declared[relay][client].seq,
        v.declared[other][client].seq > v.declared[relay][client].seq ==> !v.wins(relay, client),
        (forall|r: NodeId|
            #![trigger v.declared[r]]
            v.declared.dom().contains(r) && v.declared[r].dom().contains(client)
                ==> v.declared[r][client].seq <= v.declared[relay][client].seq) ==> v.wins(
            relay,
            client,
        ),
{
    assert(v.holds(other, client) && v.holds(relay, client));
    assert(v.seq_of(other, client) == v.declared[other][client].seq);
    if forall|r: NodeId|
        #![trigger v.declared[r]]
        v.declared.dom().contains(r) && v.declared[r].dom().contains(client)
            ==> v.declared[r][client].seq <= v.declared[relay][client].seq {
        assert forall|r: NodeId| #[trigger] v.holds(r, client) implies v.seq_of(r, client)
            <= v.seq_of(relay, client) by {
            assert(v.declared[r][client].seq <= v.declared[relay][client].seq);
        }
    }
}

} // verus!
