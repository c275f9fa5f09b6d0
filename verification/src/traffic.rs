//! Traffic of the relay mesh, as rates between consecutive reports.

use vstd::prelude::*;

use crate::directory::{Directory, TrafficSample, TRAFFIC_RETENTION_SECS};
use crate::namemap::{lemma_name_key, lemma_name_removed, lemma_named_entry};
use crate::proto::{LinkTraffic, NodeId, TrafficReport};

verus! {

/// The bytes counted on the link to a peer; 0 for a peer not reported on.
pub open spec fn link_bytes(links: Seq<LinkTraffic>, peer: NodeId, tx: bool) -> u64
    decreases links.len(),
{
    if links.len() == 0 {
        0
    } else if links[0].peer_id == peer {
        if tx {
            links[0].tx_bytes
        } else {
            links[0].rx_bytes
        }
    } else {
        link_bytes(links.drop_first(), peer, tx)
    }
}

fn count_bytes(links: &Vec<LinkTraffic>, peer: NodeId, tx: bool) -> (r: u64)
    ensures
        r == link_bytes(links@, peer, tx),
{
    let mut i: usize = 0;
    assert(links@.skip(0) =~= links@);
    while i < links.len()
        invariant
            i <= links@.len(),
            link_bytes(links@, peer, tx) == link_bytes(links@.skip(i as int), peer, tx),
        decreases links.len() - i,
    {
        let l = links[i];
        if l.peer_id == peer {
            return if tx {
                l.tx_bytes
            } else {
                l.rx_bytes
            };
        }
        assert(links@.skip(i as int).drop_first() =~= links@.skip(i + 1));
        i = i + 1;
    }
    0
}

impl TrafficSample {
    /// Bytes per second on one link since the previous sample.
    ///
    /// Counters are cumulative since the relay started, so a restart makes
    /// the new value smaller than the old: that counts as zero. Without a
    /// previous sample, or with one of the same second, the rate is zero.
    pub fn rate(&self, peer_id: NodeId, tx: bool) -> (r: u64)
        ensures
            r == self.rate_spec(peer_id, tx),
    {
        match &self.prev {
            None => 0,
            Some(prev) => {
                if self.at <= self.prev_at {
                    return 0;
                }
                let now = count_bytes(&self.report.links, peer_id, tx);
                let earlier = count_bytes(&prev.links, peer_id, tx);
                now.saturating_sub(earlier) / (self.at - self.prev_at)
            },
        }
    }

    pub open spec fn rate_spec(self, peer_id: NodeId, tx: bool) -> int {
        match self.prev {
            None => 0,
            Some(prev) => if self.at <= self.prev_at {
                0
            } else {
                let now = link_bytes(self.report.links@, peer_id, tx);
                let earlier = link_bytes(prev.links@, peer_id, tx);
                if now < earlier {
                    0
                } else {
                    (now - earlier) / (self.at - self.prev_at)
                }
            },
        }
    }
}

/// A sample is recent enough to be kept.
pub open spec fn is_fresh(s: TrafficSample, now: u64) -> bool {
    now - s.at <= TRAFFIC_RETENTION_SECS
}

/// The samples that are recent enough to be kept.
pub open spec fn fresh(m: Map<Seq<char>, TrafficSample>, now: u64) -> Map<
    Seq<char>,
    TrafficSample,
> {
    Map::new(
        |k: Seq<char>| m.dom().contains(k) && is_fresh(m[k], now),
        |k: Seq<char>| m[k],
    )
}

/// The sample that a report makes, behind the one that was there.
pub open spec fn next_sample(
    m: Map<Seq<char>, TrafficSample>,
    relay: Seq<char>,
    report: TrafficReport,
    now: u64,
) -> TrafficSample {
    if m.dom().contains(relay) {
        TrafficSample { at: now, report, prev_at: m[relay].at, prev: Some(m[relay].report) }
    } else {
        TrafficSample { at: now, report, prev_at: now, prev: None }
    }
}

impl Directory {
    /// Fold in a relay's latest report, keeping the previous one so that a
    /// rate can be derived, and drop the relays that went quiet.
    pub fn record_traffic(&mut self, relay: &str, report: TrafficReport, now: u64)
        requires
            old(self).wf(),
        ensures
            final(self).wf(),
            final(self).traffic@ == fresh(
                old(self).traffic@.insert(
                    relay@,
                    next_sample(old(self).traffic@, relay@, report, now),
                ),
                now,
            ),
            *final(self) == (Directory { traffic: final(self).traffic, ..*old(self) }),
    {
        let (prev, prev_at) = match self.traffic.remove(relay) {
            Some(s) => (Some(s.report), s.at),
            None => (None, now),
        };
        self.traffic.insert(
            relay.to_owned(),
            TrafficSample { at: now, report, prev_at, prev },
        );
        assert(self.traffic@ =~= old(self).traffic@.insert(
            relay@,
            next_sample(old(self).traffic@, relay@, report, now),
        ));
        self.prune_traffic(now);
    }

    /// Drop the reports of relays that have stopped reporting.
    pub fn prune_traffic(&mut self, now: u64)
        requires
            old(self).wf(),
        ensures
            final(self).wf(),
            final(self).traffic@ == fresh(old(self).traffic@, now),
            *final(self) == (Directory { traffic: final(self).traffic, ..*old(self) }),
    {
        let ghost before = self.traffic@;
        let mut i: usize = 0;
        while i < self.traffic.entries.len()
            invariant
                i <= self.traffic.entries@.len(),
                self.wf(),
                *self == (Directory { traffic: self.traffic, ..*old(self) }),
                forall|j: int|
                    0 <= j < i ==> is_fresh((#[trigger] self.traffic.entries@[j]).1, now),
                forall|k: Seq<char>| #[trigger]
                    self.traffic@.dom().contains(k) ==> before.dom().contains(k)
                        && self.traffic@[k] == before[k],
                forall|k: Seq<char>| #[trigger]
                    before.dom().contains(k) && is_fresh(before[k], now)
                        ==> self.traffic@.dom().contains(k),
            decreases self.traffic.entries@.len() - i,
        {
            let ghost s = self.traffic.entries@;
            let ghost was = self.traffic@;
            proof {
                lemma_named_entry(s, i as int);
            }
            let at = self.traffic.entries[i].1.at;
            if now.saturating_sub(at) > TRAFFIC_RETENTION_SECS {
                proof {
                    lemma_name_removed(s, i as int);
                }
                self.traffic.entries.remove(i);
                assert(self.traffic.entries@ =~= s.remove(i as int));
                assert(self.traffic@ == was.remove(s[i as int].0@));
            } else {
                i = i + 1;
            }
        }
        proof {
            let s = self.traffic.entries@;
            assert forall|k: Seq<char>| #[trigger] self.traffic@.dom().contains(k) implies is_fresh(
                self.traffic@[k],
                now,
            ) by {
                let j = lemma_name_key(s, k);
            }
            assert(self.traffic@ =~= fresh(before, now));
        }
    }
}

proof fn lemma_link_bytes(links: Seq<LinkTraffic>, peer: NodeId, tx: bool, i: int)
    requires
        0 <= i < links.len(),
        links[i].peer_id == peer,
        forall|j: int| 0 <= j < i ==> (#[trigger] links[j]).peer_id != peer,
    ensures
        link_bytes(links, peer, tx) == if tx {
            links[i].tx_bytes
        } else {
            links[i].rx_bytes
        },
    decreases links.len(),
{
    if i > 0 {
        assert(links[0].peer_id != peer);
        let d = links.drop_first();
        assert(d[i - 1] == links[i]);
        assert forall|j: int| 0 <= j < i - 1 implies (#[trigger] d[j]).peer_id != peer by {
            assert(d[j] == links[j + 1]);
        }
        lemma_link_bytes(d, peer, tx, i - 1);
    }
}

/// A rate is the bytes that were counted between the two reports, by the
/// seconds between them. A counter that went back counts as nothing, and
/// without an earlier report there is no rate.
pub proof fn law_a_rate_is_bytes_by_seconds(
    s: TrafficSample,
    prev: TrafficReport,
    peer: NodeId,
    i: int,
    j: int,
)
    requires
        s.prev == Some(prev),
        s.prev_at < s.at,
        0 <= i < s.report.links@.len(),
        s.report.links@[i].peer_id == peer,
        forall|k: int| 0 <= k < i ==> (#[trigger] s.report.links@[k]).peer_id != peer,
        0 <= j < prev.links@.len(),
        prev.links@[j].peer_id == peer,
        forall|k: int| 0 <= k < j ==> (#[trigger] prev.links@[k]).peer_id != peer,
    ensures
        s.rate_spec(peer, true) == if s.report.links@[i].tx_bytes >= prev.links@[j].tx_bytes {
            (s.report.links@[i].tx_bytes - prev.links@[j].tx_bytes) / (s.at - s.prev_at)
        } else {
            0
        },
        s.rate_spec(peer, false) == if s.report.links@[i].rx_bytes >= prev.links@[j].rx_bytes {
            (s.report.links@[i].rx_bytes - prev.links@[j].rx_bytes) / (s.at - s.prev_at)
        } else {
            0
        },
        (TrafficSample { prev: None, ..s }).rate_spec(peer, true) == 0,
{
    lemma_link_bytes(s.report.links@, peer, true, i);
    lemma_link_bytes(s.report.links@, peer, false, i);
    lemma_link_bytes(prev.links@, peer, true, j);
    lemma_link_bytes(prev.links@, peer, false, j);
}

/// A report stands for five minutes and then is gone; a new one keeps the one
/// before it beside it, and leaves those of the other relays.
pub proof fn law_a_report_stands_for_five_minutes(
    m: Map<Seq<char>, TrafficSample>,
    relay: Seq<char>,
    report: TrafficReport,
    now: u64,
    other: Seq<char>,
)
    ensures
        ({
            let after = fresh(m.insert(relay, next_sample(m, relay, report, now)), now);
            &&& after.dom().contains(relay)
            &&& after[relay].at == now
            &&& after[relay].report == report
            &&& m.dom().contains(relay) ==> after[relay].prev == Some(m[relay].report)
                && after[relay].prev_at == m[relay].at
            &&& !m.dom().contains(relay) ==> after[relay].prev is None
            &&& other != relay ==> (after.dom().contains(other) <==> m.dom().contains(other) && now
                <= m[other].at + 300)
            &&& other != relay && after.dom().contains(other) ==> after[other] == m[other]
        }),
{
}

} // verus!
