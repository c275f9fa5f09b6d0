//! A member's side of its coordinator link: what a join means for it, when
//! it asks again, and how it takes in what the coordinator pushes.

use vstd::prelude::*;

use crate::join::JoinResponse;
use crate::net::{all_valid, host_of, IpAddr, IpNet};
use crate::proto::{
    copy_relays, peer_views, relay_views, NodeId, PeerInfo, PeerView, RelayEntry, Snapshot,
};
use crate::routes::{exclude_local, excluded, installable, reason_views, wanted, wanted_routes};
use crate::uplink::{one_more, retry_delay, wait_secs};

verus! {

/// What a client keeps of a join.
#[derive(Debug)]
pub struct Membership {
    pub node_id: NodeId,
    pub credential: String,
    pub network_uuid: String,
    pub relays: Vec<RelayEntry>,
    pub keepalive_secs: u16,
    pub mtu: u16,
    pub addresses: Vec<IpNet>,
    pub transport: String,
    pub lanes: u8,
}

/// The addresses that a join granted, each alone.
pub open spec fn granted_hosts(ip4: Option<u32>, ip6: Option<u128>) -> Seq<IpNet> {
    (match ip4 {
        Some(a) => seq![host_of(IpAddr::V4(a))],
        None => Seq::empty(),
    }) + (match ip6 {
        Some(a) => seq![host_of(IpAddr::V6(a))],
        None => Seq::empty(),
    })
}

/// The addresses that a join granted, each alone.
pub fn host_addresses(ip4: Option<u32>, ip6: Option<u128>) -> (r: Vec<IpNet>)
    ensures
        r@ == granted_hosts(ip4, ip6),
        all_valid(r@),
{
    let mut out: Vec<IpNet> = Vec::new();
    if let Some(a) = ip4 {
        out.push(IpNet::host(IpAddr::V4(a)));
    }
    if let Some(a) = ip6 {
        out.push(IpNet::host(IpAddr::V6(a)));
    }
    assert(out@ =~= granted_hosts(ip4, ip6));
    out
}

impl Membership {
    /// What a client keeps of a join. There is at least one lane, and a
    /// keepalive at least every second.
    pub fn from(r: &JoinResponse, credential: &str) -> (m: Membership)
        ensures
            m.node_id == r.node_id,
            m.credential@ == credential@,
            m.network_uuid@ == r.network_uuid@,
            relay_views(m.relays@) == relay_views(r.relays@),
            m.keepalive_secs == if r.heartbeat_secs == 0 {
                1
            } else {
                r.heartbeat_secs
            },
            m.mtu == r.mtu,
            m.addresses@ == granted_hosts(r.ip4, r.ip6),
            m.transport@ == r.transport@,
            m.lanes == if r.lanes == 0 {
                1
            } else {
                r.lanes
            },
    {
        Membership {
            node_id: r.node_id,
            credential: credential.to_owned(),
            network_uuid: r.network_uuid.clone(),
            relays: copy_relays(&r.relays),
            keepalive_secs: if r.heartbeat_secs == 0 {
                1
            } else {
                r.heartbeat_secs
            },
            mtu: r.mtu,
            addresses: host_addresses(r.ip4, r.ip6),
            transport: r.transport.clone(),
            lanes: if r.lanes == 0 {
                1
            } else {
                r.lanes
            },
        }
    }
}

/// When a member asks to join again. A failure is retried within seconds; a
/// refusal (disabled, deleted, another token) is asked about less and less
/// often, but never given up.
#[derive(Clone, Copy, PartialEq, Eq, Structural, Debug)]
pub struct JoinBackoff {
    /// How many attempts failed in a row.
    pub failures: u32,
}

impl JoinBackoff {
    pub fn new() -> (r: JoinBackoff)
        ensures
            r.failures == 0,
    {
        JoinBackoff { failures: 0 }
    }

    /// A join failed, or was refused. Returns how many seconds to wait.
    pub fn failed(&mut self, refused: bool) -> (r: u64)
        ensures
            final(self).failures == one_more(old(self).failures),
            r as nat == wait_secs(refused, final(self).failures),
    {
        if self.failures < u32::MAX {
            self.failures = self.failures + 1;
        }
        retry_delay(refused, self.failures)
    }
}

/// Puts a membership snapshot together from its chunks. It is installed only
/// once it is complete.
#[derive(Debug)]
pub struct SnapshotAssembly {
    pub collected: Vec<PeerInfo>,
}

impl SnapshotAssembly {
    pub fn new() -> (r: SnapshotAssembly)
        ensures
            r.collected@.len() == 0,
    {
        SnapshotAssembly { collected: Vec::new() }
    }

    /// Take in a chunk: the first one starts over. Returns the members once
    /// the last chunk is in.
    pub fn on_chunk(&mut self, chunk_i: u32, chunk_n: u32, peers: Vec<PeerInfo>) -> (r: Option<
        Vec<PeerInfo>,
    >)
        ensures
            ({
                let all = (if chunk_i == 0 {
                    Seq::empty()
                } else {
                    old(self).collected@
                }) + peers@;
                if chunk_i + 1 == chunk_n {
                    r matches Some(v) && v@ == all && final(self).collected@.len() == 0
                } else {
                    r is None && final(self).collected@ == all
                }
            }),
    {
        let ghost base = if chunk_i == 0 {
            Seq::empty()
        } else {
            self.collected@
        };
        let mut all: Vec<PeerInfo> = Vec::new();
        if chunk_i != 0 {
            std::mem::swap(&mut all, &mut self.collected);
        }
        let mut more = peers;
        all.append(&mut more);
        assert(all@ =~= base + peers@);
        if chunk_i < u32::MAX && chunk_i + 1 == chunk_n {
            self.collected = Vec::new();
            return Some(all);
        }
        self.collected = all;
        None
    }
}

/// The members that the first `n` chunks bring.
pub open spec fn members_of(chunks: Seq<Seq<PeerView>>, n: int) -> Seq<PeerView>
    decreases n,
{
    if n <= 0 {
        Seq::empty()
    } else {
        members_of(chunks, n - 1) + chunks[n - 1]
    }
}

/// What is collected after a chunk.
pub open spec fn after_chunk(collected: Seq<PeerView>, i: int, chunk: Seq<PeerView>) -> Seq<
    PeerView,
> {
    if i == 0 {
        chunk
    } else {
        collected + chunk
    }
}

/// What is collected after the first `n` chunks came in order.
pub open spec fn collected_after(start: Seq<PeerView>, chunks: Seq<Seq<PeerView>>, n: int) -> Seq<
    PeerView,
>
    decreases n,
{
    if n <= 0 {
        start
    } else {
        after_chunk(collected_after(start, chunks, n - 1), n - 1, chunks[n - 1])
    }
}

/// Chunks that come in order give back the members that were cut up,
/// whatever an earlier snapshot that broke off left behind.
pub proof fn law_chunks_in_order_give_the_snapshot(
    start: Seq<PeerView>,
    chunks: Seq<Seq<PeerView>>,
    n: int,
)
    requires
        1 <= n <= chunks.len(),
    ensures
        collected_after(start, chunks, n) == members_of(chunks, n),
    decreases n,
{
    reveal_with_fuel(members_of, 2);
    reveal_with_fuel(collected_after, 2);
    if n == 1 {
        assert(members_of(chunks, 1) =~= chunks[0]);
    } else {
        law_chunks_in_order_give_the_snapshot(start, chunks, n - 1);
    }
}

/// Tells the coordinator of the usable MTU when it changes.
#[derive(Clone, Copy, PartialEq, Eq, Structural, Debug)]
pub struct MtuReporter {
    pub last_reported: u64,
}

impl MtuReporter {
    pub fn new() -> (r: MtuReporter)
        ensures
            r.last_reported == 0,
    {
        MtuReporter { last_reported: 0 }
    }

    /// Whether a measurement is to be reported: it is one, and not the one
    /// that was reported last.
    pub fn due(&mut self, measured: u64) -> (r: bool)
        ensures
            r == (measured > 0 && measured != old(self).last_reported),
            final(self).last_reported == if r {
                measured
            } else {
                old(self).last_reported
            },
    {
        let due = measured > 0 && measured != self.last_reported;
        if due {
            self.last_reported = measured;
        }
        due
    }
}

/// The exit code of a member that another machine replaced. A supervisor
/// should not start it again: the two would take turns forever.
pub const EXIT_REPLACED: i32 = 3;

/// The routes that an endpoint installs for a view, and those that it leaves
/// out, with why.
pub fn plan_routes(
    view: &Snapshot,
    my_node_id: NodeId,
    mine: &Vec<IpNet>,
    local: &Vec<IpNet>,
    underlay: &Vec<IpAddr>,
) -> (r: (Vec<IpNet>, Vec<(IpNet, String)>))
    requires
        crate::routes::view_valid(*view),
        all_valid(mine@),
        all_valid(local@),
    ensures
        ({
            let w = wanted(
                view.reserved_prefixes@,
                peer_views(view.members@),
                my_node_id,
                mine@,
            );
            &&& r.0@ == installable(w, local@, underlay@)
            &&& reason_views(r.1@) == excluded(w, local@, underlay@)
            &&& all_valid(r.0@)
        }),
{
    let w = wanted_routes(view, my_node_id, mine);
    exclude_local(&w, local, underlay)
}

/// A member holds the addresses that it was granted, each alone, and no
/// others.
pub proof fn law_a_member_holds_what_it_was_granted(ip4: Option<u32>, ip6: Option<u128>, n: IpNet)
    ensures
        granted_hosts(ip4, ip6).contains(n) <==> {
            ||| ip4 matches Some(a) && n == (IpNet { addr: IpAddr::V4(a), prefix_len: 32 })
            ||| ip6 matches Some(a) && n == (IpNet { addr: IpAddr::V6(a), prefix_len: 128 })
        },
{
    let all = granted_hosts(ip4, ip6);
    if let Some(a) = ip4 {
        assert(all[0] == (IpNet { addr: IpAddr::V4(a), prefix_len: 32 }));
    }
    if let Some(a) = ip6 {
        assert(all.last() == (IpNet { addr: IpAddr::V6(a), prefix_len: 128 }));
        assert(all[all.len() - 1] == all.last());
    }
}

} // verus!
