//! A client's way to its relay: which one it attaches to, how long it waits
//! before it tries again, and what it counts.

use vstd::prelude::*;

use crate::engine::{bump, bumped, counted, Engine};
use crate::proto::{NodeId, RelayEntry};
use crate::routes::opt_str;
use crate::text::{
    chars_of, debug_text, decimal, opt_text, push_decimal, quoted, rsplit_once, slice, split_last,
    str_eq,
};

verus! {

/// Anything that carries frames to the relay that this node is attached to.
pub trait Uplink {
    /// Hand a frame over on one of the parallel lanes. Returns whether it
    /// was taken.
    fn send(&mut self, datagram: Vec<u8>, lane: u8) -> bool;
}

/// The packet channel of a live session.
pub trait PacketSink: Sized {
    /// What was handed over so far: each packet with its lane, and whether
    /// it was taken.
    open spec fn handed(&self) -> Seq<(Seq<u8>, u8, bool)> {
        Seq::empty()
    }

    fn send_on(&mut self, packet: Vec<u8>, lane: u8) -> (r: bool)
        ensures
            final(self).handed() == old(self).handed().push((packet@, lane, r)),
    ;
}

/// A channel that keeps what it is handed, up to a number of packets.
#[derive(Debug)]
pub struct RecordingSink {
    pub packets: Vec<(Vec<u8>, u8, bool)>,
    pub room: usize,
}

impl RecordingSink {
    pub fn new(room: usize) -> (r: RecordingSink)
        ensures
            r.packets@.len() == 0,
            r.room == room,
    {
        RecordingSink { packets: Vec::new(), room }
    }
}

impl PacketSink for RecordingSink {
    open spec fn handed(&self) -> Seq<(Seq<u8>, u8, bool)> {
        self.packets@.map_values(|p: (Vec<u8>, u8, bool)| (p.0@, p.1, p.2))
    }

    fn send_on(&mut self, packet: Vec<u8>, lane: u8) -> (r: bool)
        ensures
            r == (old(self).room > 0),
            final(self).room == if r {
                old(self).room - 1
            } else {
                old(self).room as int
            },
    {
        let taken = self.room > 0;
        if taken {
            self.room = self.room - 1;
        }
        let ghost was = self.handed();
        let ghost sent = packet@;
        self.packets.push((packet, lane, taken));
        assert(self.handed() =~= was.push((sent, lane, taken)));
        taken
    }
}

/// The uplink of the moment, which can change underneath everyone who sends
/// on it.
#[derive(Debug)]
pub struct RelayUplink<C: PacketSink> {
    pub chan: Option<C>,
    /// The relay that holds our session.
    pub attached_to: Option<(NodeId, String)>,
    /// Frames that could not be handed over.
    pub drops: u64,
}

impl<C: PacketSink> RelayUplink<C> {
    pub fn new() -> (r: RelayUplink<C>)
        ensures
            r.chan is None,
            r.attached_to is None,
            r.drops == 0,
    {
        RelayUplink { chan: None, attached_to: None, drops: 0 }
    }

    /// Attach, or detach.
    pub fn set(&mut self, chan: Option<C>, relay: Option<(NodeId, String)>)
        ensures
            *final(self) == (RelayUplink { chan, attached_to: relay, drops: old(self).drops }),
    {
        self.chan = chan;
        self.attached_to = relay;
    }

    pub fn is_up(&self) -> (r: bool)
        ensures
            r == (self.chan is Some),
    {
        self.chan.is_some()
    }
}

impl<C: PacketSink> Uplink for RelayUplink<C> {
    fn send(&mut self, datagram: Vec<u8>, lane: u8) -> (r: bool)
        ensures
            match (old(self).chan, final(self).chan) {
                (None, None) => !r,
                (Some(a), Some(b)) => b.handed() == a.handed().push((datagram@, lane, r)),
                _ => false,
            },
            final(self).attached_to == old(self).attached_to,
            final(self).drops == if r {
                old(self).drops
            } else {
                bumped(old(self).drops)
            },
    {
        let taken = match &mut self.chan {
            Some(c) => c.send_on(datagram, lane),
            None => false,
        };
        if !taken {
            self.drops = bump(self.drops);
        }
        taken
    }
}

/// Twice as long with every failure in a row.
pub open spec fn doubled(failures: nat) -> nat
    decreases failures,
{
    if failures <= 1 {
        1
    } else {
        2 * doubled((failures - 1) as nat)
    }
}

/// How long a member waits: twice as long every time, but never longer than
/// five seconds, or thirty where it was refused.
pub open spec fn wait_secs(refused: bool, failures: u32) -> nat {
    let cap: nat = if refused {
        30
    } else {
        5
    };
    if doubled(failures as nat) < cap {
        doubled(failures as nat)
    } else {
        cap
    }
}

proof fn lemma_doubled(n: nat)
    ensures
        n >= 6 ==> doubled(n) >= 32,
    decreases n,
{
    reveal_with_fuel(doubled, 7);
    if n > 6 {
        lemma_doubled((n - 1) as nat);
    }
}

/// How many seconds a member waits after so many failures in a row.
pub fn retry_delay(refused: bool, failures: u32) -> (r: u64)
    ensures
        r as nat == wait_secs(refused, failures),
        1 <= r <= 30,
        !refused ==> r <= 5,
{
    proof {
        reveal_with_fuel(doubled, 7);
        lemma_doubled(failures as nat);
    }
    let cap: u64 = if refused {
        30
    } else {
        5
    };
    let d: u64 = if failures <= 1 {
        1
    } else if failures == 2 {
        2
    } else if failures == 3 {
        4
    } else if failures == 4 {
        8
    } else if failures == 5 {
        16
    } else {
        32
    };
    if d < cap {
        d
    } else {
        cap
    }
}

proof fn lemma_doubled_grows(n: nat)
    ensures
        1 <= doubled(n) <= doubled(n + 1),
    decreases n,
{
    if n > 1 {
        lemma_doubled_grows((n - 1) as nat);
    }
}

/// Waits grow with the failures, up to five seconds, or thirty where the
/// member was refused: a member never stops asking.
pub proof fn law_waits_grow_to_a_bound(refused: bool, failures: u32)
    requires
        failures < u32::MAX,
    ensures
        1 <= wait_secs(refused, failures) <= wait_secs(refused, (failures + 1) as u32),
        wait_secs(refused, failures) <= if refused {
            30nat
        } else {
            5nat
        },
        failures >= 6 ==> wait_secs(refused, failures) == if refused {
            30nat
        } else {
            5nat
        },
{
    lemma_doubled_grows(failures as nat);
    lemma_doubled(failures as nat);
}

/// The first relay of this name.
pub open spec fn relay_named(fleet: Seq<RelayEntry>, name: Seq<char>) -> Option<int>
    decreases fleet.len(),
{
    if fleet.len() == 0 {
        None
    } else {
        match relay_named(fleet.drop_last(), name) {
            Some(i) => Some(i),
            None => if fleet.last().name@ == name {
                Some(fleet.len() - 1)
            } else {
                None
            },
        }
    }
}

/// The relay that answered fastest; the first of those that were equally
/// fast.
pub open spec fn fastest(rtts: Seq<Option<u64>>) -> Option<int>
    decreases rtts.len(),
{
    if rtts.len() == 0 {
        None
    } else {
        let p = fastest(rtts.drop_last());
        match (rtts.last(), p) {
            (None, _) => p,
            (Some(t), Some(i)) => if t < rtts[i]->0 {
                Some(rtts.len() - 1)
            } else {
                p
            },
            (Some(t), None) => Some(rtts.len() - 1),
        }
    }
}

/// The relay to attach to: the preferred one when it answers, otherwise the
/// fastest.
pub open spec fn chosen_relay(
    fleet: Seq<RelayEntry>,
    rtts: Seq<Option<u64>>,
    preferred: Option<Seq<char>>,
) -> Option<int> {
    let wish = match preferred {
        Some(name) => relay_named(fleet, name),
        None => None,
    };
    match wish {
        Some(i) if rtts[i] is Some => Some(i),
        _ => fastest(rtts),
    }
}

proof fn lemma_relay_named(fleet: Seq<RelayEntry>, name: Seq<char>)
    ensures
        match relay_named(fleet, name) {
            Some(i) => 0 <= i < fleet.len() && fleet[i].name@ == name && forall|j: int|
                0 <= j < i ==> (#[trigger] fleet[j]).name@ != name,
            None => forall|j: int| 0 <= j < fleet.len() ==> (#[trigger] fleet[j]).name@ != name,
        },
    decreases fleet.len(),
{
    if fleet.len() > 0 {
        let d = fleet.drop_last();
        lemma_relay_named(d, name);
        assert forall|j: int| 0 <= j < d.len() implies d[j] == #[trigger] fleet[j] by {}
    }
}

proof fn lemma_fastest(rtts: Seq<Option<u64>>)
    ensures
        match fastest(rtts) {
            Some(i) => 0 <= i < rtts.len() && rtts[i] is Some && forall|j: int|
                0 <= j < rtts.len() && (#[trigger] rtts[j]) is Some ==> rtts[i]->0 <= rtts[j]->0,
            None => forall|j: int| 0 <= j < rtts.len() ==> (#[trigger] rtts[j]) is None,
        },
    decreases rtts.len(),
{
    if rtts.len() > 0 {
        let d = rtts.drop_last();
        lemma_fastest(d);
        assert forall|j: int| 0 <= j < d.len() implies d[j] == #[trigger] rtts[j] by {}
        assert(rtts[rtts.len() - 1] == rtts.last());
    }
}

/// The relay to attach to, given how fast each relay of the fleet answered,
/// if it did.
pub fn choose_relay(
    fleet: &Vec<RelayEntry>,
    rtts: &Vec<Option<u64>>,
    preferred: Option<&str>,
) -> (r: Option<usize>)
    requires
        fleet@.len() == rtts@.len(),
    ensures
        match r {
            Some(i) => chosen_relay(fleet@, rtts@, opt_str(preferred)) == Some(i as int) && i
                < fleet@.len(),
            None => chosen_relay(fleet@, rtts@, opt_str(preferred)) is None,
        },
        match r {
            Some(i) => rtts@[i as int] is Some && ((preferred matches Some(name)
                && fleet@[i as int].name@ == name@) || forall|j: int|
                0 <= j < rtts@.len() && (#[trigger] rtts@[j]) is Some ==> rtts@[i as int]->0
                    <= rtts@[j]->0),
            None => forall|j: int| 0 <= j < rtts@.len() ==> (#[trigger] rtts@[j]) is None,
        },
{
    if let Some(name) = preferred {
        proof {
            lemma_relay_named(fleet@, name@);
        }
        let mut i: usize = 0;
        while i < fleet.len()
            invariant
                i <= fleet@.len(),
                fleet@.len() == rtts@.len(),
                preferred == Some(name),
                forall|j: int| 0 <= j < i ==> (#[trigger] fleet@[j]).name@ != name@,
                relay_named(fleet@, name@) matches Some(k) ==> 0 <= k < fleet@.len()
                    && fleet@[k].name@ == name@ && forall|j: int|
                    0 <= j < k ==> (#[trigger] fleet@[j]).name@ != name@,
                relay_named(fleet@, name@) is None ==> forall|j: int|
                    0 <= j < fleet@.len() ==> (#[trigger] fleet@[j]).name@ != name@,
            decreases fleet.len() - i,
        {
            if str_eq(fleet[i].name.as_str(), name) {
                assert(relay_named(fleet@, name@) == Some(i as int));
                if rtts[i].is_some() {
                    return Some(i);
                }
                return quickest(rtts);
            }
            i = i + 1;
        }
    }
    quickest(rtts)
}

fn quickest(rtts: &Vec<Option<u64>>) -> (r: Option<usize>)
    ensures
        match r {
            Some(i) => fastest(rtts@) == Some(i as int) && i < rtts@.len() && rtts@[i as int] is Some
                && forall|j: int|
                0 <= j < rtts@.len() && (#[trigger] rtts@[j]) is Some ==> rtts@[i as int]->0
                    <= rtts@[j]->0,
            None => fastest(rtts@) is None && forall|j: int|
                0 <= j < rtts@.len() ==> (#[trigger] rtts@[j]) is None,
        },
{
    proof {
        lemma_fastest(rtts@);
    }
    let mut best: Option<usize> = None;
    let mut i: usize = 0;
    assert(rtts@.take(0) =~= Seq::empty());
    while i < rtts.len()
        invariant
            i <= rtts@.len(),
            match best {
                Some(b) => b < i && rtts@[b as int] is Some && fastest(rtts@.take(i as int))
                    == Some(b as int),
                None => fastest(rtts@.take(i as int)) is None,
            },
        decreases rtts.len() - i,
    {
        assert(rtts@.take(i + 1).drop_last() =~= rtts@.take(i as int));
        assert(rtts@.take(i + 1).last() == rtts@[i as int]);
        if let Some(t) = rtts[i] {
            match best {
                None => {
                    best = Some(i);
                },
                Some(b) => {
                    assert(rtts@.take(i + 1)[b as int] == rtts@[b as int]);
                    if let Some(was) = rtts[b] {
                        if t < was {
                            best = Some(i);
                        }
                    }
                },
            }
        }
        i = i + 1;
    }
    assert(rtts@.take(i as int) =~= rtts@);
    best
}

/// A preferred relay is used when it answers.
pub proof fn law_a_preferred_relay_is_used_when_it_answers(
    fleet: Seq<RelayEntry>,
    rtts: Seq<Option<u64>>,
    name: Seq<char>,
    i: int,
)
    requires
        fleet.len() == rtts.len(),
        0 <= i < fleet.len(),
        fleet[i].name@ == name,
        forall|j: int| 0 <= j < i ==> (#[trigger] fleet[j]).name@ != name,
        rtts[i] is Some,
    ensures
        chosen_relay(fleet, rtts, Some(name)) == Some(i),
{
    lemma_relay_named(fleet, name);
}

/// Whatever is preferred, a relay that answered is chosen exactly when one
/// did: nothing waits for a relay that is not there.
pub proof fn law_a_relay_is_chosen_when_one_answers(
    fleet: Seq<RelayEntry>,
    rtts: Seq<Option<u64>>,
    preferred: Option<Seq<char>>,
)
    requires
        fleet.len() == rtts.len(),
    ensures
        match chosen_relay(fleet, rtts, preferred) {
            Some(i) => 0 <= i < fleet.len() && rtts[i] is Some,
            None => forall|j: int| 0 <= j < rtts.len() ==> (#[trigger] rtts[j]) is None,
        },
{
    lemma_fastest(rtts);
    if let Some(name) = preferred {
        lemma_relay_named(fleet, name);
    }
}

/// Where no relay is preferred, the preferred one is not in the fleet or it
/// does not answer, the relay that is chosen answered at least as fast as
/// every other that did; of those that were equally fast it is the first.
pub proof fn law_otherwise_the_fastest_relay_is_chosen(
    fleet: Seq<RelayEntry>,
    rtts: Seq<Option<u64>>,
    preferred: Option<Seq<char>>,
)
    requires
        fleet.len() == rtts.len(),
        preferred matches Some(name) ==> forall|i: int|
            0 <= i < fleet.len() && (#[trigger] fleet[i]).name@ == name ==> rtts[i] is None,
    ensures
        chosen_relay(fleet, rtts, preferred) matches Some(i) ==> {
            &&& 0 <= i < rtts.len()
            &&& rtts[i] is Some
            &&& forall|j: int|
                0 <= j < rtts.len() && (#[trigger] rtts[j]) is Some ==> rtts[i]->0 <= rtts[j]->0
                    && (rtts[j]->0 == rtts[i]->0 ==> i <= j)
        },
        (exists|j: int| 0 <= j < rtts.len() && (#[trigger] rtts[j]) is Some) ==> chosen_relay(
            fleet,
            rtts,
            preferred,
        ) is Some,
{
    lemma_fastest(rtts);
    lemma_first_of_the_fastest(rtts);
    if let Some(name) = preferred {
        lemma_relay_named(fleet, name);
        if let Some(i) = relay_named(fleet, name) {
            assert(fleet[i].name@ == name);
        }
    }
}

proof fn lemma_first_of_the_fastest(rtts: Seq<Option<u64>>)
    ensures
        fastest(rtts) matches Some(i) ==> forall|j: int|
            0 <= j < i && (#[trigger] rtts[j]) is Some ==> rtts[i]->0 < rtts[j]->0,
    decreases rtts.len(),
{
    if rtts.len() > 0 {
        let d = rtts.drop_last();
        lemma_first_of_the_fastest(d);
        lemma_fastest(d);
        assert forall|j: int| 0 <= j < d.len() implies d[j] == #[trigger] rtts[j] by {}
    }
}

/// Whether a client stays where it is attached.
#[derive(Clone, Copy, PartialEq, Eq, Structural, Debug)]
pub enum Attachment {
    Keep,
    /// The relay is published with another address or certificate: what the
    /// client holds is a process that was replaced, even if it still answers.
    Replaced,
    /// The preferred relay answers again.
    Preferred,
}

/// The fleet has the relay with another address or another certificate.
pub open spec fn entry_changed(attached: RelayEntry, fleet: Seq<RelayEntry>) -> bool {
    exists|i: int|
        0 <= i < fleet.len() && (#[trigger] fleet[i]).relay_id == attached.relay_id && (
        fleet[i].addr@ != attached.addr@ || fleet[i].cert_fp@ != attached.cert_fp@)
}

/// Whether a client that is attached stays, `answers` telling whether the
/// relay that it prefers answers.
pub open spec fn attachment_after(
    attached: RelayEntry,
    fleet: Seq<RelayEntry>,
    preferred: Option<Seq<char>>,
    answers: bool,
) -> Attachment {
    if entry_changed(attached, fleet) {
        Attachment::Replaced
    } else {
        match preferred {
            Some(name) if attached.name@ != name && answers && relay_named(fleet, name) is Some
                => Attachment::Preferred,
            _ => Attachment::Keep,
        }
    }
}

/// Hold an attachment against the fleet as it is published now. `answers`
/// tells whether the preferred relay, if there is one, answers.
pub fn reconsider(
    attached: &RelayEntry,
    fleet: &Vec<RelayEntry>,
    preferred: Option<&str>,
    answers: bool,
) -> (r: Attachment)
    ensures
        r == attachment_after(*attached, fleet@, opt_str(preferred), answers),
{
    let mut i: usize = 0;
    while i < fleet.len()
        invariant
            i <= fleet@.len(),
            forall|j: int|
                0 <= j < i ==> (#[trigger] fleet@[j]).relay_id != attached.relay_id || (
                fleet@[j].addr@ == attached.addr@ && fleet@[j].cert_fp@ == attached.cert_fp@),
        decreases fleet.len() - i,
    {
        let e = &fleet[i];
        if e.relay_id == attached.relay_id && !(str_eq(e.addr.as_str(), attached.addr.as_str())
            && str_eq(e.cert_fp.as_str(), attached.cert_fp.as_str())) {
            assert(fleet@[i as int].relay_id == attached.relay_id);
            return Attachment::Replaced;
        }
        i = i + 1;
    }
    if let Some(name) = preferred {
        proof {
            lemma_relay_named(fleet@, name@);
        }
        if answers && !str_eq(attached.name.as_str(), name) {
            let mut k: usize = 0;
            while k < fleet.len()
                invariant
                    k <= fleet@.len(),
                    !entry_changed(*attached, fleet@),
                    preferred == Some(name),
                    answers,
                    attached.name@ != name@,
                    relay_named(fleet@, name@) is None ==> forall|j: int|
                        0 <= j < fleet@.len() ==> (#[trigger] fleet@[j]).name@ != name@,
                    forall|j: int| 0 <= j < k ==> (#[trigger] fleet@[j]).name@ != name@,
                decreases fleet.len() - k,
            {
                if str_eq(fleet[k].name.as_str(), name) {
                    assert(fleet@[k as int].name@ == name@);
                    return Attachment::Preferred;
                }
                k = k + 1;
            }
        }
    }
    Attachment::Keep
}

/// A client leaves a relay that is published with another address or
/// certificate, and one that is not the relay it prefers once that one
/// answers; it has no other reason to leave.
pub proof fn law_a_client_leaves_for_two_reasons(
    attached: RelayEntry,
    fleet: Seq<RelayEntry>,
    preferred: Option<Seq<char>>,
    answers: bool,
)
    ensures
        attachment_after(attached, fleet, preferred, answers) != Attachment::Keep <==> {
            ||| exists|i: int|
                0 <= i < fleet.len() && (#[trigger] fleet[i]).relay_id == attached.relay_id && (
                fleet[i].addr@ != attached.addr@ || fleet[i].cert_fp@ != attached.cert_fp@)
            ||| preferred matches Some(name) && attached.name@ != name && answers && exists|i: int|
                0 <= i < fleet.len() && (#[trigger] fleet[i]).name@ == name
        },
{
    if let Some(name) = preferred {
        lemma_relay_named(fleet, name);
    }
}

/// What a client counts of its uplink. Counters wrap.
#[derive(Debug)]
pub struct ClientCounters {
    pub attaches: u64,
    pub attach_failures: u64,
    pub uplink_ends: u64,
}

/// What happened to the uplink.
#[derive(Clone, Copy, PartialEq, Eq, Structural, Debug)]
pub enum UplinkEvent {
    /// The view names no relay.
    NoCandidates,
    /// No relay answered.
    NoneReachable,
    /// The credential cannot be read.
    NoClaims,
    Attached,
    /// The session ended, so many seconds after it began; `closed` where the
    /// relay ended it on purpose.
    Ended { after_secs: u64, closed: bool },
    AttachFailed,
}

/// Keeps a client attached.
#[derive(Debug)]
pub struct UplinkManager {
    /// How many attempts failed in a row.
    pub failures: u32,
    pub counters: ClientCounters,
}

/// One failure more, as far as they are counted.
pub open spec fn one_more(n: u32) -> u32 {
    if n == u32::MAX {
        n
    } else {
        (n + 1) as u32
    }
}

/// The failures in a row after an event.
pub open spec fn failures_after(n: u32, e: UplinkEvent) -> u32 {
    match e {
        UplinkEvent::NoneReachable | UplinkEvent::AttachFailed => one_more(n),
        UplinkEvent::Ended { after_secs, .. } => if after_secs >= 30 {
            0
        } else {
            one_more(n)
        },
        _ => n,
    }
}

/// How many seconds to wait after an event before trying again.
pub open spec fn wait_after(n: u32, e: UplinkEvent) -> nat {
    match e {
        UplinkEvent::NoCandidates | UplinkEvent::NoClaims => 2,
        UplinkEvent::NoneReachable | UplinkEvent::AttachFailed => wait_secs(
            false,
            failures_after(n, e),
        ),
        UplinkEvent::Ended { after_secs, closed } => if closed && after_secs < 5 {
            wait_secs(false, failures_after(n, e))
        } else {
            0
        },
        UplinkEvent::Attached => 0,
    }
}

impl UplinkManager {
    pub fn new() -> (r: UplinkManager)
        ensures
            r.failures == 0,
            r.counters == (ClientCounters { attaches: 0, attach_failures: 0, uplink_ends: 0 }),
    {
        UplinkManager {
            failures: 0,
            counters: ClientCounters { attaches: 0, attach_failures: 0, uplink_ends: 0 },
        }
    }

    /// Take in what happened. Returns how many seconds to wait.
    pub fn on_event(&mut self, e: UplinkEvent) -> (r: u64)
        ensures
            r as nat == wait_after(old(self).failures, e),
            final(self).failures == failures_after(old(self).failures, e),
            final(self).counters == (match e {
                UplinkEvent::Attached => ClientCounters {
                    attaches: bumped(old(self).counters.attaches),
                    ..old(self).counters
                },
                UplinkEvent::Ended { .. } => ClientCounters {
                    uplink_ends: bumped(old(self).counters.uplink_ends),
                    ..old(self).counters
                },
                UplinkEvent::AttachFailed => ClientCounters {
                    attach_failures: bumped(old(self).counters.attach_failures),
                    ..old(self).counters
                },
                _ => old(self).counters,
            }),
    {
        let more: u32 = if self.failures == u32::MAX {
            self.failures
        } else {
            self.failures + 1
        };
        match e {
            UplinkEvent::NoCandidates => 2,
            UplinkEvent::NoClaims => 2,
            UplinkEvent::NoneReachable => {
                self.failures = more;
                retry_delay(false, more)
            },
            UplinkEvent::Attached => {
                self.counters.attaches = bump(self.counters.attaches);
                0
            },
            UplinkEvent::Ended { after_secs, closed } => {
                self.counters.uplink_ends = bump(self.counters.uplink_ends);
                self.failures = if after_secs >= 30 {
                    0
                } else {
                    more
                };
                if closed && after_secs < 5 {
                    retry_delay(false, self.failures)
                } else {
                    0
                }
            },
            UplinkEvent::AttachFailed => {
                self.counters.attach_failures = bump(self.counters.attach_failures);
                self.failures = more;
                retry_delay(false, more)
            },
        }
    }
}

/// A client never waits longer than five seconds before it tries again.
pub proof fn law_a_client_tries_again_within_five_seconds(n: u32, e: UplinkEvent)
    ensures
        wait_after(n, e) <= 5,
{
}

/// The bare host of an address: what stands before the last colon, without
/// brackets around it.
pub open spec fn bare(s: Seq<char>) -> Seq<char>
    decreases s.len(),
{
    if s.len() > 0 && (s[0] == '[' || s[0] == ']') {
        bare(s.drop_first())
    } else if s.len() > 0 && (s.last() == '[' || s.last() == ']') {
        bare(s.drop_last())
    } else {
        s
    }
}

/// The name that a relay is dialed under.
pub open spec fn dial_name(addr: Seq<char>) -> Seq<char> {
    match split_last(addr, ':') {
        Some((host, _)) => bare(host),
        None => "relay"@,
    }
}

/// The name that a relay is dialed under.
#[verifier::rlimit(40)]
#[verifier::spinoff_prover]
pub fn server_name(addr: &str) -> (r: String)
    ensures
        r@ == dial_name(addr@),
{
    match rsplit_once(addr, ':') {
        None => "relay".to_owned(),
        Some((host, _)) => {
            let chars = chars_of(host.as_str());
            let mut from: usize = 0;
            let mut to: usize = chars.len();
            assert(chars@.subrange(0, to as int) =~= host@);
            while from < to && (chars[from] == '[' || chars[from] == ']')
                invariant
                    from <= to <= chars@.len(),
                    bare(host@) == bare(chars@.subrange(from as int, to as int)),
                decreases to - from,
            {
                assert(chars@.subrange(from as int, to as int).drop_first() =~= chars@.subrange(
                    from + 1,
                    to as int,
                ));
                from = from + 1;
            }
            while from < to && (chars[to - 1] == '[' || chars[to - 1] == ']')
                invariant
                    from <= to <= chars@.len(),
                    from < to ==> chars@[from as int] != '[' && chars@[from as int] != ']',
                    bare(host@) == bare(chars@.subrange(from as int, to as int)),
                decreases to - from,
            {
                assert(chars@.subrange(from as int, to as int).drop_last() =~= chars@.subrange(
                    from as int,
                    to - 1,
                ));
                to = to - 1;
            }
            slice(&chars, from, to)
        },
    }
}

/// A relay's name as it is shown.
pub open spec fn relay_shown(relay: Option<Seq<char>>) -> Seq<char> {
    match relay {
        Some(n) => "Some("@ + debug_text(n) + ")"@,
        None => "None"@,
    }
}

/// The state of a client in one line.
pub fn status_line(
    engine: &Engine,
    relay: &Option<String>,
    gen: u64,
    attaches: u64,
    uplink_drops: u64,
) -> (r: String)
    requires
        engine.wf(),
    ensures
        r@ == "node="@ + decimal(engine.my_node_id as nat) + " peers="@ + decimal(
            engine.peers.peers@.dom().len(),
        ) + " "@ + counted(engine.counters.named()) + " relay="@ + relay_shown(opt_text(*relay))
            + " gen="@ + decimal(gen as nat) + " attaches="@ + decimal(attaches as nat)
            + " uplink_drops="@ + decimal(uplink_drops as nat),
{
    let mut out = engine.status_line();
    let ghost head = out@;
    out.append(" relay=");
    match relay {
        Some(n) => {
            let q = quoted(n.as_str());
            out.append("Some(");
            out.append(q.as_str());
            out.append(")");
        },
        None => {
            out.append("None");
        },
    }
    assert(out@ =~= head + " relay="@ + relay_shown(opt_text(*relay)));
    out.append(" gen=");
    push_decimal(&mut out, gen);
    out.append(" attaches=");
    push_decimal(&mut out, attaches);
    out.append(" uplink_drops=");
    push_decimal(&mut out, uplink_drops);
    out
}

/// The first wait is a second, and every failure more doubles it up to the
/// bound; one that is not refused waits five seconds at most.
pub proof fn law_waits_double(refused: bool, failures: u32)
    requires
        1 <= failures < u32::MAX,
    ensures
        ({
            let cap: nat = if refused {
                30
            } else {
                5
            };
            let next = 2 * wait_secs(refused, failures);
            &&& wait_secs(refused, 1) == 1
            &&& wait_secs(refused, (failures + 1) as u32) == if next < cap {
                next
            } else {
                cap
            }
        }),
{
    lemma_doubled_grows(failures as nat);
}

/// Failures count up one by one; a session that held for half a minute clears
/// the count, and what says nothing of the relay leaves it.
pub proof fn law_failures_count_until_a_session_holds(n: u32, after_secs: u64, closed: bool)
    requires
        n < u32::MAX,
    ensures
        failures_after(n, UplinkEvent::NoneReachable) == n + 1,
        failures_after(n, UplinkEvent::AttachFailed) == n + 1,
        failures_after(n, UplinkEvent::Ended { after_secs, closed }) == if after_secs >= 30 {
            0
        } else {
            n + 1
        },
        failures_after(n, UplinkEvent::NoCandidates) == n,
        failures_after(n, UplinkEvent::NoClaims) == n,
        failures_after(n, UplinkEvent::Attached) == n,
{
}

/// A client that lost its session tries again at once, unless the relay ended
/// it within five seconds; one that found nobody waits as failures call for,
/// and one that has nobody to ask waits two seconds.
pub proof fn law_a_lost_session_is_replaced_at_once(n: u32, after_secs: u64, closed: bool)
    requires
        n < u32::MAX,
    ensures
        !closed || after_secs >= 5 ==> wait_after(n, UplinkEvent::Ended { after_secs, closed }) == 0,
        closed && after_secs < 5 ==> wait_after(n, UplinkEvent::Ended { after_secs, closed })
            == wait_secs(false, (n + 1) as u32),
        wait_after(n, UplinkEvent::NoneReachable) == wait_secs(false, (n + 1) as u32),
        wait_after(n, UplinkEvent::AttachFailed) == wait_secs(false, (n + 1) as u32),
        wait_after(n, UplinkEvent::NoCandidates) == 2,
        wait_after(n, UplinkEvent::NoClaims) == 2,
{
}

/// A client that is attached leaves for a replaced relay's successor before it
/// looks at what it prefers, and otherwise goes where it prefers to be once
/// that relay answers.
pub proof fn law_a_replaced_relay_is_left_first(
    attached: RelayEntry,
    fleet: Seq<RelayEntry>,
    preferred: Option<Seq<char>>,
    answers: bool,
)
    ensures
        (exists|i: int|
            0 <= i < fleet.len() && (#[trigger] fleet[i]).relay_id == attached.relay_id && (
            fleet[i].addr@ != attached.addr@ || fleet[i].cert_fp@ != attached.cert_fp@))
            <==> attachment_after(attached, fleet, preferred, answers) == Attachment::Replaced,
        attachment_after(attached, fleet, preferred, answers) == Attachment::Preferred ==> answers
            && preferred is Some && attached.name@ != preferred->0 && exists|i: int|
            0 <= i < fleet.len() && (#[trigger] fleet[i]).name@ == preferred->0,
{
    if let Some(name) = preferred {
        lemma_relay_named(fleet, name);
    }
}

/// A relay is dialed under its host: what stands before the port, without the
/// brackets around an IPv6 address.
pub proof fn law_a_relay_is_dialed_by_its_host(host: Seq<char>, port: Seq<char>)
    requires
        host.len() > 0,
        host[0] != '[' && host[0] != ']',
        host.last() != '[' && host.last() != ']',
        forall|i: int| 0 <= i < port.len() ==> port[i] != ':',
    ensures
        dial_name(host.push(':') + port) == host,
        dial_name((seq!['['] + host).push(']').push(':') + port) == host,
{
    lemma_split_host(host, port);
    let wrapped = (seq!['['] + host).push(']');
    lemma_split_host(wrapped, port);
    reveal_with_fuel(bare, 3);
    let inner = wrapped.drop_first();
    assert(inner =~= host.push(']'));
    assert(inner.drop_last() =~= host);
    assert(inner[0] == host[0]);
    assert(inner.last() == ']');
    assert(bare(host) == host);
    assert(bare(inner) == bare(host));
}

proof fn lemma_split_host(host: Seq<char>, port: Seq<char>)
    requires
        forall|i: int| 0 <= i < port.len() ==> port[i] != ':',
    ensures
        split_last(host.push(':') + port, ':') == Some((host, port)),
{
    let s = host.push(':') + port;
    crate::text::law_the_last_separator_splits(s, ':');
    let i = host.len() as int;
    assert(s[i] == ':');
    assert forall|j: int| i < j < s.len() implies s[j] != ':' by {
        assert(s[j] == port[j - i - 1]);
    }
    assert(s.subrange(0, i) =~= host);
    assert(s.subrange(i + 1, s.len() as int) =~= port);
}

} // verus!
