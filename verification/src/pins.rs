//! Host routes that keep the transport out of the tunnel.
//!
//! When everything goes into the tunnel, the hosts that the tunnel itself
//! talks to are pinned to the real default gateway. Only routes that this
//! node created are recorded, so that tearing down never deletes a route
//! that the host had already; and a pin is right only while it names the
//! gateway of the moment.

use vstd::prelude::*;

use crate::net::IpAddr;
use crate::netset::{ascending, gather, gathered, has_item, lemma_gathered, Ranked};

verus! {

/// A call to the routing table, with what it answered.
pub enum TableCall {
    Gateway { v6: bool, answer: Option<IpAddr> },
    /// `created` is nothing when the call failed.
    Add { ip: IpAddr, gw: IpAddr, created: Option<bool> },
    Del { ip: IpAddr, gw: IpAddr },
}

/// The routing-table operations that pinning needs.
pub trait HostRouteTable: Sized {
    /// The calls that were made, in order.
    open spec fn calls(&self) -> Seq<TableCall> {
        Seq::empty()
    }

    /// The gateway of the family's default route, ignoring the tunnel.
    fn default_gateway(&mut self, v6: bool) -> (r: Option<IpAddr>)
        ensures
            final(self).calls() == old(self).calls().push(TableCall::Gateway { v6, answer: r }),
    ;

    /// Route a host over a gateway. Returns whether this call created the
    /// route: where an identical one was present, that one is not ours.
    fn add_host_route(&mut self, ip: IpAddr, gw: IpAddr) -> (r: Result<bool, String>)
        ensures
            final(self).calls() == old(self).calls().push(
                TableCall::Add { ip, gw, created: created(r) },
            ),
    ;

    /// Take a host route back. One that is gone is no error.
    fn del_host_route(&mut self, ip: IpAddr, gw: IpAddr)
        ensures
            final(self).calls() == old(self).calls().push(TableCall::Del { ip, gw }),
    ;
}

/// What a call to add a route came to.
pub open spec fn created(r: Result<bool, String>) -> Option<bool> {
    match r {
        Ok(b) => Some(b),
        Err(_) => None,
    }
}

/// The host routes that this node created: each host with its gateway, in
/// the order of the hosts.
#[derive(Debug)]
pub struct Pins {
    pub entries: Vec<(IpAddr, IpAddr)>,
}

impl View for Pins {
    type V = Seq<(IpAddr, IpAddr)>;

    open spec fn view(&self) -> Seq<(IpAddr, IpAddr)> {
        self.entries@
    }
}

/// The gateway that a host is pinned to.
pub open spec fn pin_of(s: Seq<(IpAddr, IpAddr)>, ip: IpAddr) -> Option<IpAddr>
    decreases s.len(),
{
    if s.len() == 0 {
        None
    } else if s.last().0 == ip {
        Some(s.last().1)
    } else {
        pin_of(s.drop_last(), ip)
    }
}

/// The pins with a host pinned to a gateway.
pub open spec fn with_pin(s: Seq<(IpAddr, IpAddr)>, ip: IpAddr, gw: IpAddr) -> Seq<
    (IpAddr, IpAddr),
>
    decreases s.len(),
{
    if s.len() == 0 || s.last().0.before(ip) {
        s.push((ip, gw))
    } else {
        with_pin(s.drop_last(), ip, gw).push(s.last())
    }
}

/// The pins without a host.
pub open spec fn without_pin(s: Seq<(IpAddr, IpAddr)>, ip: IpAddr) -> Seq<(IpAddr, IpAddr)>
    decreases s.len(),
{
    if s.len() == 0 {
        s
    } else if s.last().0 == ip {
        without_pin(s.drop_last(), ip)
    } else {
        without_pin(s.drop_last(), ip).push(s.last())
    }
}

/// The pins of hosts that are still wanted.
pub open spec fn kept(s: Seq<(IpAddr, IpAddr)>, want: Seq<IpAddr>) -> Seq<(IpAddr, IpAddr)>
    decreases s.len(),
{
    if s.len() == 0 {
        s
    } else if want.contains(s.last().0) {
        kept(s.drop_last(), want).push(s.last())
    } else {
        kept(s.drop_last(), want)
    }
}

/// The calls that take back the pins of hosts that are not wanted any more.
pub open spec fn unpin_calls(s: Seq<(IpAddr, IpAddr)>, want: Seq<IpAddr>) -> Seq<TableCall>
    decreases s.len(),
{
    if s.len() == 0 {
        Seq::empty()
    } else if want.contains(s.last().0) {
        unpin_calls(s.drop_last(), want)
    } else {
        unpin_calls(s.drop_last(), want).push(TableCall::Del { ip: s.last().0, gw: s.last().1 })
    }
}

/// What the table says about one host.
pub struct Answer {
    pub gateway: Option<IpAddr>,
    /// Whether adding the route created it, if that was tried and worked.
    pub created: Option<bool>,
}

/// The pins after a host was looked at.
pub open spec fn host_pins(s: Seq<(IpAddr, IpAddr)>, ip: IpAddr, a: Answer) -> Seq<
    (IpAddr, IpAddr),
> {
    match a.gateway {
        None => s,
        Some(gw) => if pin_of(s, ip) == Some(gw) {
            s
        } else if a.created == Some(true) {
            with_pin(without_pin(s, ip), ip, gw)
        } else {
            without_pin(s, ip)
        },
    }
}

/// The host can be reached off the tunnel.
pub open spec fn host_ok(s: Seq<(IpAddr, IpAddr)>, ip: IpAddr, a: Answer) -> bool {
    a.gateway matches Some(gw) && (pin_of(s, ip) == Some(gw) || a.created is Some)
}

/// The calls that a host makes.
pub open spec fn host_calls(s: Seq<(IpAddr, IpAddr)>, ip: IpAddr, a: Answer) -> Seq<TableCall> {
    let asked = seq![TableCall::Gateway { v6: !ip.v4(), answer: a.gateway }];
    match a.gateway {
        None => asked,
        Some(gw) => match pin_of(s, ip) {
            Some(had) => if had == gw {
                asked
            } else {
                asked.push(TableCall::Del { ip, gw: had }).push(
                    TableCall::Add { ip, gw, created: a.created },
                )
            },
            None => asked.push(TableCall::Add { ip, gw, created: a.created }),
        },
    }
}

/// The pins after all hosts were looked at in turn.
pub open spec fn pins_after(
    s: Seq<(IpAddr, IpAddr)>,
    want: Seq<IpAddr>,
    answers: Seq<Answer>,
) -> Seq<(IpAddr, IpAddr)>
    decreases want.len(),
{
    if want.len() == 0 {
        s
    } else {
        host_pins(
            pins_after(s, want.drop_last(), answers),
            want.last(),
            answers[want.len() - 1],
        )
    }
}

/// The hosts that can be reached off the tunnel.
pub open spec fn reachable(
    s: Seq<(IpAddr, IpAddr)>,
    want: Seq<IpAddr>,
    answers: Seq<Answer>,
) -> Seq<IpAddr>
    decreases want.len(),
{
    if want.len() == 0 {
        want
    } else {
        let d = want.drop_last();
        let p = reachable(s, d, answers);
        if host_ok(pins_after(s, d, answers), want.last(), answers[want.len() - 1]) {
            p.push(want.last())
        } else {
            p
        }
    }
}

/// The calls that all hosts make.
pub open spec fn pin_calls(
    s: Seq<(IpAddr, IpAddr)>,
    want: Seq<IpAddr>,
    answers: Seq<Answer>,
) -> Seq<TableCall>
    decreases want.len(),
{
    if want.len() == 0 {
        Seq::empty()
    } else {
        let d = want.drop_last();
        pin_calls(s, d, answers) + host_calls(
            pins_after(s, d, answers),
            want.last(),
            answers[want.len() - 1],
        )
    }
}

/// The table gave these answers, and this came of it.
pub open spec fn pinning(
    before: Seq<(IpAddr, IpAddr)>,
    want: Seq<IpAddr>,
    answers: Seq<Answer>,
    after: Seq<(IpAddr, IpAddr)>,
    ok: Seq<IpAddr>,
    calls: Seq<TableCall>,
) -> bool {
    let w = gathered(want);
    let s = kept(before, w);
    &&& answers.len() == w.len()
    &&& after == pins_after(s, w, answers)
    &&& ok == reachable(s, w, answers)
    &&& calls == unpin_calls(before, w) + pin_calls(s, w, answers)
}

impl Pins {
    pub fn new() -> (r: Pins)
        ensures
            r@ == Seq::<(IpAddr, IpAddr)>::empty(),
    {
        Pins { entries: Vec::new() }
    }

    /// The gateway that a host is pinned to.
    pub fn get(&self, ip: &IpAddr) -> (r: Option<IpAddr>)
        ensures
            r == pin_of(self@, *ip),
    {
        let mut i: usize = self.entries.len();
        assert(self@.take(i as int) =~= self@);
        while i > 0
            invariant
                i <= self@.len(),
                pin_of(self@, *ip) == pin_of(self@.take(i as int), *ip),
            decreases i,
        {
            assert(self@.take(i as int).drop_last() =~= self@.take(i - 1));
            if self.entries[i - 1].0 == *ip {
                return Some(self.entries[i - 1].1);
            }
            i = i - 1;
        }
        None
    }

    fn insert(&mut self, ip: IpAddr, gw: IpAddr)
        ensures
            final(self)@ == with_pin(old(self)@, ip, gw),
    {
        let ghost s = self@;
        let mut i: usize = self.entries.len();
        assert(s.take(i as int) =~= s);
        assert(with_pin(s, ip, gw) =~= with_pin(s.take(i as int), ip, gw) + s.skip(i as int));
        while i > 0 && !self.entries[i - 1].0.is_before(&ip)
            invariant
                i <= s.len(),
                self@ == s,
                with_pin(s, ip, gw) == with_pin(s.take(i as int), ip, gw) + s.skip(i as int),
            decreases i,
        {
            let ghost t = s.take(i as int);
            assert(t.last() == s[i - 1]);
            assert(t.drop_last() =~= s.take(i - 1));
            assert(with_pin(t.drop_last(), ip, gw).push(t.last()) + s.skip(i as int) =~= with_pin(
                t.drop_last(),
                ip,
                gw,
            ) + s.skip(i - 1));
            i = i - 1;
        }
        if i > 0 {
            assert(s.take(i as int).last() == s[i - 1]);
        }
        self.entries.insert(i, (ip, gw));
        assert(self@ =~= s.take(i as int).push((ip, gw)) + s.skip(i as int));
    }

    fn remove(&mut self, ip: &IpAddr)
        ensures
            final(self)@ == without_pin(old(self)@, *ip),
    {
        let mut out: Vec<(IpAddr, IpAddr)> = Vec::new();
        let mut i: usize = 0;
        assert(self@.take(0) =~= Seq::empty());
        while i < self.entries.len()
            invariant
                i <= self@.len(),
                self@ == old(self)@,
                out@ == without_pin(self@.take(i as int), *ip),
            decreases self.entries.len() - i,
        {
            assert(self@.take(i + 1).drop_last() =~= self@.take(i as int));
            if self.entries[i].0 != *ip {
                out.push(self.entries[i]);
            }
            i = i + 1;
        }
        assert(self@.take(i as int) =~= self@);
        self.entries = out;
    }
}

fn unpin_stale<T: HostRouteTable>(table: &mut T, want: &Vec<IpAddr>, pinned: &mut Pins)
    ensures
        final(pinned)@ == kept(old(pinned)@, want@),
        final(table).calls() == old(table).calls() + unpin_calls(old(pinned)@, want@),
{
    let ghost s = pinned@;
    let mut out: Vec<(IpAddr, IpAddr)> = Vec::new();
    let mut i: usize = 0;
    assert(s.take(0) =~= Seq::empty());
    assert(table.calls() =~= old(table).calls() + unpin_calls(s.take(0), want@));
    while i < pinned.entries.len()
        invariant
            i <= s.len(),
            pinned@ == s,
            out@ == kept(s.take(i as int), want@),
            table.calls() == old(table).calls() + unpin_calls(s.take(i as int), want@),
        decreases s.len() - i,
    {
        assert(s.take(i + 1).drop_last() =~= s.take(i as int));
        let (ip, gw) = pinned.entries[i];
        assert(s.take(i + 1).last() == (ip, gw));
        if has_item(want, &ip) {
            out.push((ip, gw));
        } else {
            let ghost c = unpin_calls(s.take(i as int), want@);
            table.del_host_route(ip, gw);
            assert(table.calls() =~= old(table).calls() + c.push(TableCall::Del { ip, gw }));
        }
        i = i + 1;
    }
    assert(s.take(i as int) =~= s);
    pinned.entries = out;
}

fn pin_host<T: HostRouteTable>(table: &mut T, ip: IpAddr, pinned: &mut Pins) -> (r: (
    bool,
    Ghost<Answer>,
))
    ensures
        final(pinned)@ == host_pins(old(pinned)@, ip, r.1@),
        r.0 == host_ok(old(pinned)@, ip, r.1@),
        final(table).calls() == old(table).calls() + host_calls(old(pinned)@, ip, r.1@),
{
    let ghost s = pinned@;
    let ghost c = table.calls();
    let gw = match table.default_gateway(!ip.is_ipv4()) {
        None => {
            let ghost a = Answer { gateway: None, created: None };
            assert(table.calls() =~= c + host_calls(s, ip, a));
            return (false, Ghost(a));
        },
        Some(gw) => gw,
    };
    let had = pinned.get(&ip);
    match had {
        Some(h) => {
            if h == gw {
                let ghost a = Answer { gateway: Some(gw), created: None };
                assert(table.calls() =~= c + host_calls(s, ip, a));
                return (true, Ghost(a));
            }
            table.del_host_route(ip, h);
        },
        None => {},
    }
    pinned.remove(&ip);
    let added = table.add_host_route(ip, gw);
    let ghost a = Answer { gateway: Some(gw), created: created(added) };
    assert(table.calls() =~= c + host_calls(s, ip, a));
    match added {
        Ok(true) => {
            pinned.insert(ip, gw);
            (true, Ghost(a))
        },
        Ok(false) => (true, Ghost(a)),
        Err(_) => (false, Ghost(a)),
    }
}

/// Bring the pins in line with the hosts that are wanted and the default
/// gateway of the moment. Returns the hosts that can be reached off the
/// tunnel now.
pub fn reconcile_pins<T: HostRouteTable>(
    table: &mut T,
    want: &Vec<IpAddr>,
    pinned: &mut Pins,
) -> (r: Vec<IpAddr>)
    ensures
        exists|answers: Seq<Answer>, calls: Seq<TableCall>| #[trigger]
            pinning(old(pinned)@, want@, answers, final(pinned)@, r@, calls) && final(table).calls()
                == old(table).calls() + calls,
{
    let w = gather(want);
    unpin_stale(table, &w, pinned);
    let ghost s = pinned@;
    let ghost base = table.calls();
    let ghost mut answers: Seq<Answer> = Seq::empty();
    let mut ok: Vec<IpAddr> = Vec::new();
    let mut i: usize = 0;
    assert(w@.take(0) =~= Seq::empty());
    assert(table.calls() =~= base + pin_calls(s, w@.take(0), answers));
    while i < w.len()
        invariant
            i <= w@.len(),
            answers.len() == i,
            pinned@ == pins_after(s, w@.take(i as int), answers),
            ok@ == reachable(s, w@.take(i as int), answers),
            table.calls() == base + pin_calls(s, w@.take(i as int), answers),
        decreases w.len() - i,
    {
        let ghost d = w@.take(i as int);
        let ip = w[i];
        let (fine, Ghost(a)) = pin_host(table, ip, pinned);
        proof {
            let next = answers.push(a);
            lemma_answers(s, d, answers, next);
            assert(w@.take(i + 1).drop_last() =~= d);
            assert(w@.take(i + 1).last() == ip);
            assert(table.calls() =~= base + pin_calls(s, w@.take(i + 1), next));
            answers = next;
        }
        if fine {
            ok.push(ip);
        }
        i = i + 1;
    }
    assert(w@.take(i as int) =~= w@);
    proof {
        let calls = unpin_calls(old(pinned)@, w@) + pin_calls(s, w@, answers);
        assert(pinning(old(pinned)@, want@, answers, pinned@, ok@, calls));
        assert(table.calls() =~= old(table).calls() + calls);
    }
    ok
}

proof fn lemma_answers(
    s: Seq<(IpAddr, IpAddr)>,
    want: Seq<IpAddr>,
    a: Seq<Answer>,
    b: Seq<Answer>,
)
    requires
        want.len() <= a.len() <= b.len(),
        forall|i: int| 0 <= i < want.len() ==> a[i] == b[i],
    ensures
        pins_after(s, want, a) == pins_after(s, want, b),
        reachable(s, want, a) == reachable(s, want, b),
        pin_calls(s, want, a) == pin_calls(s, want, b),
    decreases want.len(),
{
    if want.len() > 0 {
        lemma_answers(s, want.drop_last(), a, b);
    }
}

proof fn lemma_without_pin(s: Seq<(IpAddr, IpAddr)>, ip: IpAddr, other: IpAddr)
    ensures
        pin_of(without_pin(s, ip), other) == if other == ip {
            None
        } else {
            pin_of(s, other)
        },
    decreases s.len(),
{
    reveal_with_fuel(pin_of, 2);
    if s.len() > 0 {
        lemma_without_pin(s.drop_last(), ip, other);
        if s.last().0 != ip {
            assert(without_pin(s, ip).drop_last() =~= without_pin(s.drop_last(), ip));
        }
    }
}

proof fn lemma_with_pin(s: Seq<(IpAddr, IpAddr)>, ip: IpAddr, gw: IpAddr, other: IpAddr)
    requires
        pin_of(s, ip) is None,
    ensures
        pin_of(with_pin(s, ip, gw), other) == if other == ip {
            Some(gw)
        } else {
            pin_of(s, other)
        },
    decreases s.len(),
{
    reveal_with_fuel(pin_of, 2);
    if s.len() == 0 || s.last().0.before(ip) {
        assert(s.push((ip, gw)).drop_last() =~= s);
    } else {
        lemma_with_pin(s.drop_last(), ip, gw, other);
        assert(with_pin(s, ip, gw).drop_last() =~= with_pin(s.drop_last(), ip, gw));
    }
}

/// What a host's turn does to the pins: nothing to other hosts, and the host
/// itself ends up where the table's answer puts it.
proof fn lemma_host_pins(s: Seq<(IpAddr, IpAddr)>, ip: IpAddr, a: Answer, other: IpAddr)
    ensures
        other != ip ==> pin_of(host_pins(s, ip, a), other) == pin_of(s, other),
        pin_of(host_pins(s, ip, a), ip) == match a.gateway {
            None => pin_of(s, ip),
            Some(gw) => if pin_of(s, ip) == Some(gw) || a.created == Some(true) {
                Some(gw)
            } else {
                None
            },
        },
{
    lemma_without_pin(s, ip, ip);
    lemma_without_pin(s, ip, other);
    if let Some(gw) = a.gateway {
        lemma_with_pin(without_pin(s, ip), ip, gw, ip);
        lemma_with_pin(without_pin(s, ip), ip, gw, other);
    }
}

/// A host that is not among those looked at keeps the pin it has.
proof fn lemma_untouched(
    s: Seq<(IpAddr, IpAddr)>,
    want: Seq<IpAddr>,
    answers: Seq<Answer>,
    ip: IpAddr,
)
    requires
        !want.contains(ip),
    ensures
        pin_of(pins_after(s, want, answers), ip) == pin_of(s, ip),
    decreases want.len(),
{
    if want.len() > 0 {
        let d = want.drop_last();
        assert(want[want.len() - 1] == want.last());
        assert(!d.contains(ip)) by {
            if d.contains(ip) {
                let i = choose|i: int| 0 <= i < d.len() && d[i] == ip;
                assert(want[i] == ip);
            }
        }
        lemma_untouched(s, d, answers, ip);
        lemma_host_pins(pins_after(s, d, answers), want.last(), answers[want.len() - 1], ip);
    }
}

/// The pin of a wanted host is right after its turn, and stays.
proof fn lemma_settled(
    s: Seq<(IpAddr, IpAddr)>,
    want: Seq<IpAddr>,
    answers: Seq<Answer>,
    i: int,
)
    requires
        ascending(want),
        answers.len() == want.len(),
        0 <= i < want.len(),
    ensures
        pin_of(pins_after(s, want, answers), want[i]) == pin_of(
            host_pins(s_at(s, want, answers, i), want[i], answers[i]),
            want[i],
        ),
        pin_of(s_at(s, want, answers, i), want[i]) == pin_of(s, want[i]),
    decreases want.len(),
{
    let d = want.drop_last();
    let n = want.len() - 1;
    if i == n {
        assert(want.take(i) =~= d);
        assert(!d.contains(want[i])) by {
            if d.contains(want[i]) {
                let k = choose|k: int| 0 <= k < d.len() && d[k] == want[i];
                assert(want[k].lower(want[i]));
                IpAddr::lower_irreflexive(want[i]);
            }
        }
        lemma_untouched(s, d, answers, want[i]);
    } else {
        assert(ascending(d)) by {
            assert forall|a: int, b: int| 0 <= a < b < d.len() implies (#[trigger] d[a]).lower(
                #[trigger] d[b],
            ) by {
                assert(d[a] == want[a] && d[b] == want[b]);
            }
        }
        let front = answers.take(n);
        lemma_answers(s, d, front, answers);
        lemma_settled(s, d, front, i);
        assert(d.take(i) =~= want.take(i));
        lemma_answers(s, want.take(i), front, answers);
        assert(want[i].lower(want[n]));
        IpAddr::lower_irreflexive(want[i]);
        lemma_host_pins(pins_after(s, d, answers), want.last(), answers[n], want[i]);
    }
}

/// The pins at a host's turn.
pub open spec fn s_at(
    s: Seq<(IpAddr, IpAddr)>,
    want: Seq<IpAddr>,
    answers: Seq<Answer>,
    i: int,
) -> Seq<(IpAddr, IpAddr)> {
    pins_after(s, want.take(i), answers)
}

/// Only routes that this node created are recorded: a host is pinned
/// afterwards either as it was before, or because the table said that adding
/// its route created it.
pub proof fn law_only_created_routes_are_recorded(
    s: Seq<(IpAddr, IpAddr)>,
    want: Seq<IpAddr>,
    answers: Seq<Answer>,
    ip: IpAddr,
    gw: IpAddr,
)
    requires
        ascending(want),
        answers.len() == want.len(),
        pin_of(pins_after(s, want, answers), ip) == Some(gw),
    ensures
        pin_of(s, ip) == Some(gw) || exists|i: int|
            0 <= i < want.len() && want[i] == ip && answers[i].gateway == Some(gw) && (
            #[trigger] answers[i]).created == Some(true),
{
    if want.contains(ip) {
        let i = choose|i: int| 0 <= i < want.len() && want[i] == ip;
        lemma_settled(s, want, answers, i);
        lemma_host_pins(s_at(s, want, answers, i), ip, answers[i], ip);
    } else {
        lemma_untouched(s, want, answers, ip);
    }
}

/// A pin that is recorded for a wanted host names the gateway that the table
/// gave for it just now, if it gave one.
pub proof fn law_a_pin_follows_the_gateway(
    s: Seq<(IpAddr, IpAddr)>,
    want: Seq<IpAddr>,
    answers: Seq<Answer>,
    i: int,
)
    requires
        ascending(want),
        answers.len() == want.len(),
        0 <= i < want.len(),
        answers[i].gateway is Some,
        pin_of(pins_after(s, want, answers), want[i]) is Some,
    ensures
        pin_of(pins_after(s, want, answers), want[i]) == answers[i].gateway,
{
    lemma_settled(s, want, answers, i);
    lemma_host_pins(s_at(s, want, answers, i), want[i], answers[i], want[i]);
}

proof fn lemma_kept(s: Seq<(IpAddr, IpAddr)>, want: Seq<IpAddr>, ip: IpAddr)
    ensures
        !want.contains(ip) ==> pin_of(kept(s, want), ip) is None,
        want.contains(ip) ==> pin_of(kept(s, want), ip) == pin_of(s, ip),
    decreases s.len(),
{
    reveal_with_fuel(pin_of, 2);
    if s.len() > 0 {
        lemma_kept(s.drop_last(), want, ip);
        if want.contains(s.last().0) {
            assert(kept(s, want).drop_last() =~= kept(s.drop_last(), want));
        }
    }
}

/// A host that is not wanted any more loses its pin.
pub proof fn law_a_departed_host_loses_its_pin(
    s: Seq<(IpAddr, IpAddr)>,
    want: Seq<IpAddr>,
    answers: Seq<Answer>,
    ip: IpAddr,
)
    requires
        !want.contains(ip),
    ensures
        pin_of(pins_after(kept(s, gathered(want)), gathered(want), answers), ip) is None,
{
    lemma_gathered(want);
    lemma_kept(s, gathered(want), ip);
    lemma_untouched(kept(s, gathered(want)), gathered(want), answers, ip);
}

/// When every wanted host is pinned to the gateway of the moment, nothing is
/// touched, and every host counts as reachable.
pub proof fn law_a_steady_state_touches_nothing(
    s: Seq<(IpAddr, IpAddr)>,
    want: Seq<IpAddr>,
    answers: Seq<Answer>,
)
    requires
        answers.len() == want.len(),
        forall|i: int|
            0 <= i < want.len() ==> (#[trigger] answers[i]).gateway is Some && pin_of(s, want[i])
                == answers[i].gateway,
    ensures
        pins_after(s, want, answers) == s,
        reachable(s, want, answers) == want,
        forall|k: int|
            0 <= k < pin_calls(s, want, answers).len() ==> #[trigger] pin_calls(s, want, answers)[k]
                is Gateway,
    decreases want.len(),
{
    if want.len() > 0 {
        let d = want.drop_last();
        let n = want.len() - 1;
        let front = answers.take(n);
        assert forall|i: int| 0 <= i < d.len() implies (#[trigger] front[i]).gateway is Some
            && pin_of(s, d[i]) == front[i].gateway by {
            assert(front[i] == answers[i]);
        }
        law_a_steady_state_touches_nothing(s, d, front);
        lemma_answers(s, d, front, answers);
        assert(answers[n].gateway is Some);
        assert(want =~= d.push(want.last()));
        let c = pin_calls(s, d, answers);
        let h = host_calls(s, want.last(), answers[n]);
        assert forall|k: int| 0 <= k < pin_calls(s, want, answers).len() implies #[trigger] pin_calls(
            s,
            want,
            answers,
        )[k] is Gateway by {
            if k < c.len() {
                assert(pin_calls(s, want, answers)[k] == c[k]);
                assert(pin_calls(s, d, front)[k] is Gateway);
            } else {
                assert(pin_calls(s, want, answers)[k] == h[k - c.len()]);
            }
        }
    }
}

/// Taking back the pins of departed hosts deletes only routes that were
/// recorded.
pub proof fn law_only_recorded_routes_are_taken_back(
    s: Seq<(IpAddr, IpAddr)>,
    want: Seq<IpAddr>,
    k: int,
)
    requires
        0 <= k < unpin_calls(s, want).len(),
    ensures
        unpin_calls(s, want)[k] matches TableCall::Del { ip, gw } && s.contains((ip, gw))
            && !want.contains(ip),
    decreases s.len(),
{
    let d = s.drop_last();
    let p = unpin_calls(d, want);
    if k < p.len() {
        assert(unpin_calls(s, want)[k] == p[k]);
        law_only_recorded_routes_are_taken_back(d, want, k);
        if let TableCall::Del { ip, gw } = p[k] {
            let i = choose|i: int| 0 <= i < d.len() && d[i] == (ip, gw);
            assert(s[i] == (ip, gw));
        }
    } else {
        assert(s[s.len() - 1] == s.last());
    }
}

proof fn lemma_reachable(
    s: Seq<(IpAddr, IpAddr)>,
    want: Seq<IpAddr>,
    answers: Seq<Answer>,
    i: int,
)
    requires
        ascending(want),
        answers.len() == want.len(),
        0 <= i < want.len(),
    ensures
        reachable(s, want, answers).contains(want[i]) <==> host_ok(s, want[i], answers[i]),
        forall|ip: IpAddr| #[trigger]
            reachable(s, want, answers).contains(ip) ==> want.contains(ip),
    decreases want.len(),
{
    let n = want.len() - 1;
    let d = want.drop_last();
    let less = answers.drop_last();
    let p = reachable(s, d, answers);
    let q = reachable(s, want, answers);
    lemma_answers(s, d, less, answers);
    assert forall|a: int, b: int| 0 <= a < b < d.len() implies (#[trigger] d[a]).before(
        #[trigger] d[b],
    ) by {
        assert(want[a].before(want[b]));
    }
    assert(ascending(d));
    lemma_settled(s, want, answers, n);
    assert(want.take(n) =~= d);
    assert forall|ip: IpAddr| #[trigger] p.contains(ip) implies want.contains(ip)
        && ip != want[n] by {
        if d.len() > 0 {
            lemma_reachable(s, d, less, 0);
            assert(d.contains(ip));
            let k = choose|k: int| 0 <= k < d.len() && d[k] == ip;
            assert(want[k] == ip);
            assert(want[k].before(want[n]));
        }
    }
    assert forall|ip: IpAddr| #[trigger] q.contains(ip) implies want.contains(ip) by {
        let x = choose|x: int| 0 <= x < q.len() && q[x] == ip;
        if x < p.len() {
            assert(p[x] == ip);
            assert(p.contains(ip));
        } else {
            assert(want[n] == ip);
        }
    }
    if i < n {
        lemma_reachable(s, d, less, i);
        assert(d[i] == want[i] && less[i] == answers[i]);
        assert(want[i].before(want[n]));
        if p.contains(want[i]) {
            let x = choose|x: int| 0 <= x < p.len() && p[x] == want[i];
            assert(q[x] == want[i]);
        }
        if q.contains(want[i]) {
            let x = choose|x: int| 0 <= x < q.len() && q[x] == want[i];
            assert(x < p.len());
            assert(p[x] == want[i]);
        }
    } else {
        if host_ok(s, want[n], answers[n]) {
            assert(q[p.len() as int] == want[n]);
        } else {
            assert(q == p);
        }
    }
}

proof fn lemma_unpinned(s: Seq<(IpAddr, IpAddr)>, want: Seq<IpAddr>, k: int)
    requires
        0 <= k < s.len(),
        !want.contains(s[k].0),
    ensures
        unpin_calls(s, want).contains((TableCall::Del { ip: s[k].0, gw: s[k].1 })),
    decreases s.len(),
{
    let d = s.drop_last();
    let p = unpin_calls(d, want);
    let q = unpin_calls(s, want);
    let c = TableCall::Del { ip: s[k].0, gw: s[k].1 };
    if k < d.len() {
        assert(d[k] == s[k]);
        lemma_unpinned(d, want, k);
        let x = choose|x: int| 0 <= x < p.len() && p[x] == c;
        assert(q[x] == c);
    } else {
        assert(q[p.len() as int] == c);
    }
}

/// A host that is wanted is pinned to the gateway of its family where adding
/// the route created it, or where it was pinned so before. It counts as safe
/// where the gateway is known and the route is there, whoever created it.
/// Without a gateway its pin stays as it was and it does not count as safe.
pub proof fn law_a_wanted_host_is_pinned_to_its_gateway(
    before: Seq<(IpAddr, IpAddr)>,
    want: Seq<IpAddr>,
    answers: Seq<Answer>,
    after: Seq<(IpAddr, IpAddr)>,
    ok: Seq<IpAddr>,
    calls: Seq<TableCall>,
    i: int,
)
    requires
        pinning(before, want, answers, after, ok, calls),
        0 <= i < gathered(want).len(),
    ensures
        want.contains(gathered(want)[i]),
        ({
            let ip = gathered(want)[i];
            let a = answers[i];
            &&& a.gateway is None ==> pin_of(after, ip) == pin_of(before, ip) && !ok.contains(ip)
            &&& a.gateway is Some && pin_of(before, ip) == a.gateway ==> pin_of(after, ip)
                == a.gateway && ok.contains(ip)
            &&& a.gateway is Some && pin_of(before, ip) != a.gateway && a.created == Some(true)
                ==> pin_of(after, ip) == a.gateway && ok.contains(ip)
            &&& a.gateway is Some && pin_of(before, ip) != a.gateway && a.created == Some(false)
                ==> pin_of(after, ip) is None && ok.contains(ip)
            &&& a.gateway is Some && pin_of(before, ip) != a.gateway && a.created is None
                ==> pin_of(after, ip) is None && !ok.contains(ip)
        }),
{
    let w = gathered(want);
    let s = kept(before, w);
    let ip = w[i];
    lemma_gathered(want);
    assert(w.contains(ip));
    lemma_kept(before, w, ip);
    lemma_settled(s, w, answers, i);
    lemma_host_pins(s_at(s, w, answers, i), ip, answers[i], ip);
    lemma_reachable(s, w, answers, i);
}

/// The route of a host that is not wanted any more is taken back, by the
/// gateway that it was pinned to.
pub proof fn law_the_route_of_a_departed_host_is_taken_back(
    before: Seq<(IpAddr, IpAddr)>,
    want: Seq<IpAddr>,
    answers: Seq<Answer>,
    after: Seq<(IpAddr, IpAddr)>,
    ok: Seq<IpAddr>,
    calls: Seq<TableCall>,
    k: int,
)
    requires
        pinning(before, want, answers, after, ok, calls),
        0 <= k < before.len(),
        !want.contains(before[k].0),
    ensures
        calls.contains((TableCall::Del { ip: before[k].0, gw: before[k].1 })),
        pin_of(after, before[k].0) is None,
{
    let w = gathered(want);
    let s = kept(before, w);
    lemma_gathered(want);
    assert(!w.contains(before[k].0));
    lemma_unpinned(before, w, k);
    let u = unpin_calls(before, w);
    let c = TableCall::Del { ip: before[k].0, gw: before[k].1 };
    let x = choose|x: int| 0 <= x < u.len() && u[x] == c;
    assert(calls[x] == c);
    lemma_kept(before, w, before[k].0);
    lemma_untouched(s, w, answers, before[k].0);
}

} // verus!
