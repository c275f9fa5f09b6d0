//! Applying a set of wanted routes, by difference.
//!
//! Every route that an endpoint installs goes out of its tunnel device, and
//! nothing else is routed there, so a route on the device is one that the
//! endpoint owns. The only ones that it must not touch are those that the
//! kernel made for the addresses of the device itself.

use vstd::prelude::*;

use crate::net::{all_valid, IpAddr, IpNet};
use crate::netset::{
    ascending, common, gather, gathered, intersect, lemma_common, lemma_gathered, lemma_minus,
    lemma_same_items, lemma_with_item, minus, put_item, subtract, with_item,
};
use crate::proto::copy_nets;
use crate::routes::{lemma_gathered_valid, lemma_with_valid, truncate_all, truncs};
use crate::text::{opt_text, said, say, texts};

verus! {

/// A change to the routing table.
#[derive(Clone, Copy, PartialEq, Eq, Structural, Debug)]
pub enum RouteCall {
    Add(IpNet),
    Remove(IpNet),
}

impl RouteCall {
    /// The call as text, such as `add 10.0.0.0/24`.
    pub open spec fn text(self) -> Seq<char> {
        match self {
            RouteCall::Add(n) => said(seq!["add "@, n.text()]),
            RouteCall::Remove(n) => said(seq!["remove "@, n.text()]),
        }
    }

    /// The prefix that is added or removed.
    pub open spec fn net(self) -> IpNet {
        match self {
            RouteCall::Add(n) => n,
            RouteCall::Remove(n) => n,
        }
    }

    /// The call as text, such as `add 10.0.0.0/24`.
    pub fn to_text(&self) -> (r: String)
        requires
            self.net().valid(),
        ensures
            r@ == self.text(),
    {
        match self {
            RouteCall::Add(n) => {
                let t = n.to_text();
                let parts = vec!["add ", t.as_str()];
                assert(texts(parts@) =~= seq!["add "@, n.text()]);
                say(&parts)
            },
            RouteCall::Remove(n) => {
                let t = n.to_text();
                let parts = vec!["remove ", t.as_str()];
                assert(texts(parts@) =~= seq!["remove "@, n.text()]);
                say(&parts)
            },
        }
    }
}

/// A change that was asked for, and why it failed, if it did.
pub struct Programmed {
    pub call: RouteCall,
    pub error: Option<Seq<char>>,
}

/// Why a call failed, if it did.
pub open spec fn failure(r: Result<(), String>) -> Option<Seq<char>> {
    match r {
        Ok(_) => None,
        Err(e) => Some(e@),
    }
}

/// Hosts that were to be pinned, and those that are, or why none could be.
pub struct PinRequest {
    pub hosts: Seq<IpAddr>,
    pub outcome: Result<Seq<IpAddr>, Seq<char>>,
}

/// The request for these hosts that came to `r`.
pub open spec fn pin_request(hosts: Seq<IpAddr>, r: Result<Vec<IpAddr>, String>) -> PinRequest {
    PinRequest {
        hosts,
        outcome: match r {
            Ok(v) => Ok(v@),
            Err(e) => Err(e@),
        },
    }
}

/// What a reading of the table came to.
pub open spec fn reading(r: Option<Vec<IpNet>>) -> Option<Seq<IpNet>> {
    match r {
        Some(v) => Some(v@),
        None => None,
    }
}

/// What changes the routing table.
pub trait RouteProgrammer: Sized {
    /// The changes that were asked for, in order.
    open spec fn log(&self) -> Seq<Programmed> {
        Seq::empty()
    }

    /// The requests to pin underlay hosts, in order.
    open spec fn pins(&self) -> Seq<PinRequest> {
        Seq::empty()
    }

    /// What the readings of the table came to, in order.
    open spec fn reads(&self) -> Seq<Option<Seq<IpNet>>> {
        Seq::empty()
    }

    /// What is routed out of the device, where it is known because nobody
    /// else writes the table and the table can be read.
    open spec fn holds(&self) -> Option<Set<IpNet>> {
        None
    }

    /// Route a prefix into the tunnel. One that is routed there is no error.
    fn add_via_tun(&mut self, net: IpNet) -> (r: Result<(), String>)
        requires
            net.valid(),
        ensures
            final(self).log() == old(self).log().push(
                Programmed { call: RouteCall::Add(net), error: failure(r) },
            ),
            old(self).holds() matches Some(t) ==> final(self).holds() == Some(
                changed(t, Programmed { call: RouteCall::Add(net), error: failure(r) }),
            ),
            final(self).pins() == old(self).pins(),
            final(self).reads() == old(self).reads(),
    ;

    fn remove(&mut self, net: IpNet) -> (r: Result<(), String>)
        requires
            net.valid(),
        ensures
            final(self).log() == old(self).log().push(
                Programmed { call: RouteCall::Remove(net), error: failure(r) },
            ),
            old(self).holds() matches Some(t) ==> final(self).holds() == Some(
                changed(t, Programmed { call: RouteCall::Remove(net), error: failure(r) }),
            ),
            final(self).pins() == old(self).pins(),
            final(self).reads() == old(self).reads(),
    ;

    /// Every prefix that the kernel routes out of the device now. Nothing
    /// means that the table cannot be read here.
    fn list_via_dev(&mut self) -> (r: Option<Vec<IpNet>>)
        ensures
            r matches Some(v) ==> all_valid(v@),
            final(self).reads() == old(self).reads().push(reading(r)),
            old(self).holds() matches Some(t) ==> r matches Some(v) && v@.to_set() == t,
            final(self).holds() == old(self).holds(),
            final(self).log() == old(self).log(),
            final(self).pins() == old(self).pins(),
    ;

    /// Pin each underlay host to the real default gateway, and no others.
    /// Returns those that are pinned.
    fn pin_underlay(&mut self, ips: &Vec<IpAddr>) -> (r: Result<Vec<IpAddr>, String>)
        ensures
            final(self).pins() == old(self).pins().push(pin_request(ips@, r)),
            final(self).holds() == old(self).holds(),
            final(self).log() == old(self).log(),
            final(self).reads() == old(self).reads(),
    ;
}

/// The table after a change: a failed one changes nothing.
pub open spec fn changed(table: Set<IpNet>, change: Programmed) -> Set<IpNet> {
    if change.error is Some {
        table
    } else {
        match change.call {
            RouteCall::Add(n) => table.insert(n.truncated()),
            RouteCall::Remove(n) => table.remove(n.truncated()),
        }
    }
}

/// The table after the changes in the log.
pub open spec fn table_after(table: Set<IpNet>, log: Seq<Programmed>) -> Set<IpNet>
    decreases log.len(),
{
    if log.len() == 0 {
        table
    } else {
        changed(table_after(table, log.drop_last()), log.last())
    }
}

/// A table that is known follows the log.
pub open spec fn keeps_table<P: RouteProgrammer>(before: P, after: P, log: Seq<Programmed>) -> bool {
    before.holds() matches Some(t) ==> after.holds() == Some(table_after(t, log))
}

/// Nothing was pinned and nothing was read between the two.
pub open spec fn only_changes<P: RouteProgrammer>(before: P, after: P) -> bool {
    after.pins() == before.pins() && after.reads() == before.reads()
}

/// The log of one change per prefix, each with its outcome.
pub open spec fn additions(nets: Seq<IpNet>, errors: Seq<Option<Seq<char>>>) -> Seq<Programmed>
    decreases nets.len(),
{
    if nets.len() == 0 {
        Seq::empty()
    } else {
        additions(nets.drop_last(), errors).push(
            Programmed { call: RouteCall::Add(nets.last()), error: errors[nets.len() - 1] },
        )
    }
}

/// The log of one removal per prefix, each with its outcome.
pub open spec fn removals(nets: Seq<IpNet>, errors: Seq<Option<Seq<char>>>) -> Seq<Programmed>
    decreases nets.len(),
{
    if nets.len() == 0 {
        Seq::empty()
    } else {
        removals(nets.drop_last(), errors).push(
            Programmed { call: RouteCall::Remove(nets.last()), error: errors[nets.len() - 1] },
        )
    }
}

/// `set` with the prefixes whose addition did not fail.
pub open spec fn with_added(
    set: Seq<IpNet>,
    nets: Seq<IpNet>,
    errors: Seq<Option<Seq<char>>>,
) -> Seq<IpNet>
    decreases nets.len(),
{
    if nets.len() == 0 {
        set
    } else {
        let p = with_added(set, nets.drop_last(), errors);
        if errors[nets.len() - 1] is None {
            with_item(p, nets.last())
        } else {
            p
        }
    }
}

/// The first failure among the first `n`.
pub open spec fn first_failure(errors: Seq<Option<Seq<char>>>, n: int) -> Option<Seq<char>>
    decreases n,
{
    if n <= 0 {
        None
    } else {
        match first_failure(errors, n - 1) {
            Some(e) => Some(e),
            None => errors[n - 1],
        }
    }
}

/// Applies wanted sets of routes to a programmer, by difference.
#[derive(Debug)]
pub struct RouteSet<P: RouteProgrammer> {
    pub programmer: P,
    /// What this set installed.
    pub installed: Vec<IpNet>,
    /// What was wanted last, and what was not to be touched.
    pub last: (Vec<IpNet>, Vec<IpNet>),
}

/// Outcomes that agree on the prefixes come to the same.
pub proof fn lemma_outcomes(
    nets: Seq<IpNet>,
    set: Seq<IpNet>,
    a: Seq<Option<Seq<char>>>,
    b: Seq<Option<Seq<char>>>,
)
    requires
        nets.len() <= a.len() <= b.len(),
        forall|i: int| 0 <= i < nets.len() ==> a[i] == b[i],
    ensures
        additions(nets, a) == additions(nets, b),
        removals(nets, a) == removals(nets, b),
        with_added(set, nets, a) == with_added(set, nets, b),
    decreases nets.len(),
{
    if nets.len() > 0 {
        lemma_outcomes(nets.drop_last(), set, a, b);
    }
}

proof fn lemma_first_failure(a: Seq<Option<Seq<char>>>, b: Seq<Option<Seq<char>>>, n: int)
    requires
        n <= a.len() <= b.len(),
        forall|i: int| 0 <= i < n ==> a[i] == b[i],
    ensures
        first_failure(a, n) == first_failure(b, n),
    decreases n,
{
    if n > 0 {
        lemma_first_failure(a, b, n - 1);
    }
}

/// Remove each prefix, whether or not the others fail.
pub(crate) fn remove_each<P: RouteProgrammer>(programmer: &mut P, nets: &Vec<IpNet>) -> (r: Ghost<
    Seq<Option<Seq<char>>>,
>)
    requires
        all_valid(nets@),
    ensures
        r@.len() == nets@.len(),
        final(programmer).log() == old(programmer).log() + removals(nets@, r@),
        keeps_table(*old(programmer), *final(programmer), removals(nets@, r@)),
        only_changes(*old(programmer), *final(programmer)),
{
    let ghost mut errors: Seq<Option<Seq<char>>> = Seq::empty();
    let mut i: usize = 0;
    assert(nets@.take(0) =~= Seq::empty());
    assert(programmer.log() =~= old(programmer).log() + removals(nets@.take(0), errors));
    while i < nets.len()
        invariant
            i <= nets@.len(),
            all_valid(nets@),
            errors.len() == i,
            programmer.log() == old(programmer).log() + removals(nets@.take(i as int), errors),
            keeps_table(*old(programmer), *programmer, removals(nets@.take(i as int), errors)),
            only_changes(*old(programmer), *programmer),
        decreases nets.len() - i,
    {
        let r = programmer.remove(nets[i]);
        proof {
            let next = errors.push(failure(r));
            lemma_outcomes(nets@.take(i as int), Seq::empty(), errors, next);
            assert(nets@.take(i + 1).drop_last() =~= nets@.take(i as int));
            assert(removals(nets@.take(i + 1), next).drop_last() =~= removals(
                nets@.take(i as int),
                next,
            ));
            assert(programmer.log() =~= old(programmer).log() + removals(nets@.take(i + 1), next));
            errors = next;
        }
        i = i + 1;
    }
    assert(nets@.take(i as int) =~= nets@);
    Ghost(errors)
}

/// Add each prefix, whether or not the others fail, and note in `set` those
/// that did not. Returns the first failure.
fn add_each<P: RouteProgrammer>(programmer: &mut P, nets: &Vec<IpNet>, set: &mut Vec<IpNet>) -> (r:
    (Option<String>, Ghost<Seq<Option<Seq<char>>>>))
    requires
        all_valid(nets@),
        all_valid(old(set)@),
    ensures
        r.1@.len() == nets@.len(),
        final(programmer).log() == old(programmer).log() + additions(nets@, r.1@),
        keeps_table(*old(programmer), *final(programmer), additions(nets@, r.1@)),
        only_changes(*old(programmer), *final(programmer)),
        final(set)@ == with_added(old(set)@, nets@, r.1@),
        all_valid(final(set)@),
        opt_text(r.0) == first_failure(r.1@, nets@.len() as int),
{
    let ghost mut errors: Seq<Option<Seq<char>>> = Seq::empty();
    let mut first: Option<String> = None;
    let mut i: usize = 0;
    assert(nets@.take(0) =~= Seq::empty());
    assert(programmer.log() =~= old(programmer).log() + additions(nets@.take(0), errors));
    while i < nets.len()
        invariant
            i <= nets@.len(),
            all_valid(nets@),
            all_valid(set@),
            errors.len() == i,
            programmer.log() == old(programmer).log() + additions(nets@.take(i as int), errors),
            keeps_table(*old(programmer), *programmer, additions(nets@.take(i as int), errors)),
            only_changes(*old(programmer), *programmer),
            set@ == with_added(old(set)@, nets@.take(i as int), errors),
            opt_text(first) == first_failure(errors, i as int),
        decreases nets.len() - i,
    {
        let net = nets[i];
        let r = programmer.add_via_tun(net);
        proof {
            let next = errors.push(failure(r));
            lemma_outcomes(nets@.take(i as int), old(set)@, errors, next);
            lemma_first_failure(errors, next, i as int);
            assert(nets@.take(i + 1).drop_last() =~= nets@.take(i as int));
            assert(additions(nets@.take(i + 1), next).drop_last() =~= additions(
                nets@.take(i as int),
                next,
            ));
            assert(programmer.log() =~= old(programmer).log() + additions(nets@.take(i + 1), next));
            errors = next;
        }
        match r {
            Ok(_) => {
                proof {
                    lemma_with_valid(set@, net);
                }
                put_item(set, net);
            },
            Err(e) => {
                if first.is_none() {
                    first = Some(e);
                }
            },
        }
        i = i + 1;
    }
    assert(nets@.take(i as int) =~= nets@);
    (first, Ghost(errors))
}

/// What is left of valid prefixes is valid.
pub proof fn lemma_minus_valid(a: Seq<IpNet>, b: Seq<IpNet>)
    requires
        all_valid(a),
    ensures
        all_valid(minus(a, b)),
        all_valid(common(a, b)),
    decreases a.len(),
{
    if a.len() > 0 {
        let d = a.drop_last();
        assert forall|i: int| 0 <= i < d.len() implies (#[trigger] d[i]).valid() by {
            assert(d[i] == a[i]);
        }
        lemma_minus_valid(d, b);
        assert(a[a.len() - 1].valid());
    }
}

/// Add each prefix; the first failure ends it.
pub(crate) fn add_all<P: RouteProgrammer>(programmer: &mut P, nets: &Vec<IpNet>) -> (r: Result<
    (),
    String,
>)
    requires
        all_valid(nets@),
    ensures
        only_changes(*old(programmer), *final(programmer)),
        match r {
            Ok(_) => final(programmer).log() == old(programmer).log() + additions(
                nets@,
                all_well(nets@.len()),
            ),
            Err(e) => exists|n: int|
                0 < n <= nets@.len() && final(programmer).log() == old(programmer).log()
                    + #[trigger] broken_off(nets@, n, e@),
        },
{
    let ghost s = nets@;
    let ghost base = programmer.log();
    let ghost well = all_well(s.len());
    let mut i: usize = 0;
    assert(s.take(0) =~= Seq::empty());
    assert(programmer.log() =~= base + additions(s.take(0), well));
    while i < nets.len()
        invariant
            i <= s.len(),
            s == nets@,
            all_valid(s),
            base == old(programmer).log(),
            well == all_well(s.len()),
            programmer.log() == base + additions(s.take(i as int), well),
            only_changes(*old(programmer), *programmer),
        decreases s.len() - i,
    {
        let net = nets[i];
        assert(s.take(i + 1).drop_last() =~= s.take(i as int));
        match programmer.add_via_tun(net) {
            Ok(_) => {
                assert(programmer.log() =~= base + additions(s.take(i + 1), well));
            },
            Err(e) => {
                proof {
                    lemma_outcomes(s.take(i as int), Seq::empty(), all_well(i as nat), well);
                    assert(programmer.log() =~= base + broken_off(s, i + 1, e@));
                }
                return Err(e);
            },
        }
        i = i + 1;
    }
    assert(s.take(i as int) =~= s);
    Ok(())
}

/// What became of a set of wanted routes when it was applied to what was
/// installed.
pub open spec fn applied(
    before: Seq<IpNet>,
    wanted: Seq<IpNet>,
    removed: Seq<Option<Seq<char>>>,
    added: Seq<Option<Seq<char>>>,
    after: Seq<IpNet>,
    log: Seq<Programmed>,
    r: Result<(), String>,
) -> bool {
    let w = gathered(truncs(wanted));
    let extra = minus(before, w);
    let missing = minus(w, before);
    &&& removed.len() == extra.len()
    &&& added.len() == missing.len()
    &&& after == with_added(common(before, w), missing, added)
    &&& log == removals(extra, removed) + additions(missing, added)
    &&& failure(r) == first_failure(added, missing.len() as int)
}

/// What the kernel has of ours: everything on the device but what the kernel
/// made for our own addresses.
pub open spec fn ours(present: Seq<IpNet>, mine: Seq<IpNet>) -> Seq<IpNet> {
    gathered(minus(truncs(present), gathered(truncs(mine))))
}

/// What became of a set of wanted routes when it was applied to what the
/// kernel has: what is ours and not wanted was removed, and what is wanted
/// and not there, as ours or as the kernel's own, was added.
pub open spec fn applied_to_kernel(
    present: Seq<IpNet>,
    wanted: Seq<IpNet>,
    mine: Seq<IpNet>,
    removed: Seq<Option<Seq<char>>>,
    added: Seq<Option<Seq<char>>>,
    log: Seq<Programmed>,
    r: Result<bool, String>,
) -> bool {
    let w = gathered(truncs(wanted));
    let extra = minus(ours(present, mine), w);
    let missing = minus(w, gathered(truncs(present)));
    &&& removed.len() == extra.len()
    &&& added.len() == missing.len()
    &&& log == removals(extra, removed) + additions(missing, added)
    &&& match r {
        Ok(b) => b && first_failure(added, missing.len() as int) is None,
        Err(e) => first_failure(added, missing.len() as int) == Some(e@),
    }
}

/// The table was read once. Where it could not be, nothing came of it;
/// otherwise the wanted routes were applied to what it held.
pub open spec fn follows_kernel<P: RouteProgrammer>(
    before: RouteSet<P>,
    after: RouteSet<P>,
    wanted: Seq<IpNet>,
    mine: Seq<IpNet>,
    r: Result<bool, String>,
) -> bool {
    let read = after.programmer.reads().last();
    &&& after.programmer.reads() == before.programmer.reads().push(read)
    &&& before.programmer.holds() matches Some(t) ==> read matches Some(present)
        && present.to_set() == t
    &&& after.programmer.pins() == before.programmer.pins()
    &&& match read {
        None => {
            &&& r == Ok::<bool, String>(false)
            &&& after.installed == before.installed
            &&& after.programmer.log() == before.programmer.log()
        },
        Some(present) => {
            &&& after.installed@ == gathered(truncs(wanted))
            &&& all_valid(present)
            &&& exists|
                removed: Seq<Option<Seq<char>>>,
                added: Seq<Option<Seq<char>>>,
                log: Seq<Programmed>,
            | #[trigger]
                applied_to_kernel(present, wanted, mine, removed, added, log, r)
                    && after.programmer.log() == before.programmer.log() + log && keeps_table(
                    before.programmer,
                    after.programmer,
                    log,
                )
        },
    }
}

impl<P: RouteProgrammer> RouteSet<P> {
    /// The prefixes are valid, and what is installed is in order.
    pub open spec fn wf(self) -> bool {
        &&& ascending(self.installed@)
        &&& all_valid(self.installed@)
        &&& all_valid(self.last.0@)
        &&& all_valid(self.last.1@)
    }

    pub fn new(programmer: P) -> (r: RouteSet<P>)
        ensures
            r.wf(),
            r.programmer == programmer,
            r.installed@ == Seq::<IpNet>::empty(),
            r.last.0@ == Seq::<IpNet>::empty(),
            r.last.1@ == Seq::<IpNet>::empty(),
    {
        RouteSet { programmer, installed: Vec::new(), last: (Vec::new(), Vec::new()) }
    }

    /// Make the table hold exactly what is wanted, as far as this set knows
    /// what it holds: add what is missing, remove what is extra. A removal
    /// that fails is forgotten; an addition that fails is reported, and not
    /// recorded.
    pub fn reconcile(&mut self, wanted: &Vec<IpNet>) -> (r: Result<(), String>)
        requires
            old(self).wf(),
            all_valid(wanted@),
        ensures
            final(self).wf(),
            final(self).last == old(self).last,
            only_changes(old(self).programmer, final(self).programmer),
            exists|
                removed: Seq<Option<Seq<char>>>,
                added: Seq<Option<Seq<char>>>,
                log: Seq<Programmed>,
            | #[trigger]
                applied(
                    old(self).installed@,
                    wanted@,
                    removed,
                    added,
                    final(self).installed@,
                    log,
                    r,
                ) && final(self).programmer.log() == old(self).programmer.log() + log,
    {
        let cut = truncate_all(wanted);
        let w = gather(&cut);
        proof {
            lemma_gathered_valid(cut@);
            lemma_gathered(cut@);
            lemma_minus_valid(self.installed@, w@);
            lemma_minus_valid(w@, self.installed@);
            lemma_common(self.installed@, w@);
        }
        let ghost before = self.installed@;
        let ghost base = self.programmer.log();
        let extra = subtract(&self.installed, &w);
        let missing = subtract(&w, &self.installed);
        let mut set = intersect(&self.installed, &w);
        let Ghost(removed) = remove_each(&mut self.programmer, &extra);
        let (first, Ghost(added)) = add_each(&mut self.programmer, &missing, &mut set);
        proof {
            lemma_with_added(common(before, w@), missing@, added);
        }
        self.installed = set;
        let r = match first {
            Some(e) => Err(e),
            None => Ok(()),
        };
        proof {
            let log = removals(extra@, removed) + additions(missing@, added);
            assert(self.programmer.log() =~= base + log);
            assert(applied(before, wanted@, removed, added, self.installed@, log, r));
        }
        r
    }

    /// Make the table hold exactly what is wanted, given what the kernel
    /// routes out of the device. A route that another writer deleted comes
    /// back, and one that is stale is removed, but what the kernel made for
    /// our own addresses is not touched.
    pub fn reconcile_with(
        &mut self,
        present: &Vec<IpNet>,
        wanted: &Vec<IpNet>,
        mine: &Vec<IpNet>,
    ) -> (r: Result<bool, String>)
        requires
            old(self).wf(),
            all_valid(present@),
            all_valid(wanted@),
            all_valid(mine@),
        ensures
            final(self).wf(),
            final(self).last == old(self).last,
            final(self).installed@ == gathered(truncs(wanted@)),
            only_changes(old(self).programmer, final(self).programmer),
            exists|
                removed: Seq<Option<Seq<char>>>,
                added: Seq<Option<Seq<char>>>,
                log: Seq<Programmed>,
            | #[trigger]
                applied_to_kernel(present@, wanted@, mine@, removed, added, log, r) && final(
                    self).programmer.log() == old(self).programmer.log() + log && keeps_table(
                    old(self).programmer,
                    final(self).programmer,
                    log,
                ),
    {
        let cut = truncate_all(wanted);
        let w = gather(&cut);
        let cut_mine = truncate_all(mine);
        let m = gather(&cut_mine);
        let cut_present = truncate_all(present);
        let foreign = subtract(&cut_present, &m);
        let o = gather(&foreign);
        let there = gather(&cut_present);
        proof {
            lemma_gathered_valid(cut@);
            lemma_gathered(cut@);
            lemma_minus_valid(cut_present@, m@);
            lemma_gathered_valid(foreign@);
            lemma_minus_valid(o@, w@);
            lemma_minus_valid(w@, there@);
        }
        let extra = subtract(&o, &w);
        let missing = subtract(&w, &there);
        let ghost base = self.programmer.log();
        let Ghost(removed) = remove_each(&mut self.programmer, &extra);
        let mut unused: Vec<IpNet> = Vec::new();
        let (first, Ghost(added)) = add_each(&mut self.programmer, &missing, &mut unused);
        self.installed = w;
        let r = match first {
            Some(e) => Err(e),
            None => Ok(true),
        };
        proof {
            let log = removals(extra@, removed) + additions(missing@, added);
            assert(self.programmer.log() =~= base + log);
            if let Some(t) = old(self).programmer.holds() {
                lemma_table_concat(t, removals(extra@, removed), additions(missing@, added));
            }
            assert(keeps_table(old(self).programmer, self.programmer, log));
            assert(applied_to_kernel(present@, wanted@, mine@, removed, added, log, r));
        }
        r
    }

    /// Make the kernel hold exactly what is wanted. Returns whether the
    /// kernel's table can be read; where it cannot, nothing is changed but
    /// what was wanted last.
    pub fn reconcile_via_kernel(&mut self, wanted: &Vec<IpNet>, mine: &Vec<IpNet>) -> (r: Result<
        bool,
        String,
    >)
        requires
            old(self).wf(),
            all_valid(wanted@),
            all_valid(mine@),
        ensures
            final(self).wf(),
            final(self).last.0@ == wanted@,
            final(self).last.1@ == mine@,
            follows_kernel(*old(self), *final(self), wanted@, mine@, r),
    {
        self.last = (copy_nets(wanted), copy_nets(mine));
        let read = self.programmer.list_via_dev();
        assert(self.programmer.reads().last() == reading(read));
        match read {
            None => Ok(false),
            Some(present) => {
                let r = self.reconcile_with(&present, wanted, mine);
                proof {
                    let (removed, added, log) = choose|
                        removed: Seq<Option<Seq<char>>>,
                        added: Seq<Option<Seq<char>>>,
                        log: Seq<Programmed>,
                    | #[trigger]
                        applied_to_kernel(present@, wanted@, mine@, removed, added, log, r)
                            && self.programmer.log() == old(self).programmer.log() + log
                            && keeps_table(old(self).programmer, self.programmer, log);
                    let read = self.programmer.reads().last();
                    assert(read == Some(present@));
                    assert(applied_to_kernel(read->0, wanted@, mine@, removed, added, log, r));
                }
                r
            },
        }
    }

    /// Do it again with what was wanted last.
    pub fn reassert_via_kernel(&mut self) -> (r: Result<bool, String>)
        requires
            old(self).wf(),
        ensures
            final(self).wf(),
            final(self).last.0@ == old(self).last.0@,
            final(self).last.1@ == old(self).last.1@,
            follows_kernel(*old(self), *final(self), old(self).last.0@, old(self).last.1@, r),
    {
        let wanted = copy_nets(&self.last.0);
        let mine = copy_nets(&self.last.1);
        self.reconcile_via_kernel(&wanted, &mine)
    }

    /// Program every route that this set holds again, whether or not it is
    /// thought to be there. The first failure ends it.
    pub fn reassert(&mut self) -> (r: Result<(), String>)
        requires
            old(self).wf(),
        ensures
            final(self).wf(),
            final(self).installed == old(self).installed,
            final(self).last == old(self).last,
            only_changes(old(self).programmer, final(self).programmer),
            match r {
                Ok(_) => final(self).programmer.log() == old(self).programmer.log() + additions(
                    old(self).installed@,
                    all_well(old(self).installed@.len()),
                ),
                Err(e) => exists|n: int|
                    0 < n <= old(self).installed@.len() && final(self).programmer.log() == old(
                        self).programmer.log() + #[trigger] broken_off(old(self).installed@, n, e@),
            },
    {
        add_all(&mut self.programmer, &self.installed)
    }

    /// Pin the underlay hosts to the real gateway. Returns those that are
    /// pinned.
    pub fn pin_underlay(&mut self, ips: &Vec<IpAddr>) -> (r: Result<Vec<IpAddr>, String>)
        ensures
            *final(self) == (RouteSet { programmer: final(self).programmer, ..*old(self) }),
            final(self).programmer.pins() == old(self).programmer.pins().push(
                pin_request(ips@, r),
            ),
            final(self).programmer.log() == old(self).programmer.log(),
            final(self).programmer.reads() == old(self).programmer.reads(),
    {
        self.programmer.pin_underlay(ips)
    }

    /// What this set installed, in order.
    pub fn installed(&self) -> (r: Vec<IpNet>)
        ensures
            r@ == self.installed@,
    {
        copy_nets(&self.installed)
    }

    /// Take everything back that this set installed, as far as that works.
    pub fn clear(&mut self)
        requires
            old(self).wf(),
        ensures
            final(self).wf(),
            final(self).installed@ == Seq::<IpNet>::empty(),
            final(self).last == old(self).last,
            only_changes(old(self).programmer, final(self).programmer),
            exists|errors: Seq<Option<Seq<char>>>|
                errors.len() == old(self).installed@.len() && final(self).programmer.log() == old(
                    self).programmer.log() + #[trigger] removals(old(self).installed@, errors),
    {
        let all = copy_nets(&self.installed);
        let Ghost(errors) = remove_each(&mut self.programmer, &all);
        self.installed = Vec::new();
    }
}

/// Nothing failed.
pub open spec fn all_well(n: nat) -> Seq<Option<Seq<char>>> {
    Seq::new(n, |i: int| None::<Seq<char>>)
}

/// The first `n` prefixes were added, of which the last one failed.
pub open spec fn broken_off(nets: Seq<IpNet>, n: int, e: Seq<char>) -> Seq<Programmed> {
    additions(nets.take(n - 1), all_well((n - 1) as nat)).push(
        Programmed { call: RouteCall::Add(nets[n - 1]), error: Some(e) },
    )
}

/// Adding prefixes to a set in order keeps the order, and adds those whose
/// addition did not fail.
pub proof fn lemma_with_added(set: Seq<IpNet>, nets: Seq<IpNet>, errors: Seq<Option<Seq<char>>>)
    requires
        ascending(set),
        errors.len() >= nets.len(),
    ensures
        ascending(with_added(set, nets, errors)),
        forall|y: IpNet| #[trigger]
            with_added(set, nets, errors).contains(y) <==> set.contains(y) || exists|i: int|
                0 <= i < nets.len() && #[trigger] nets[i] == y && errors[i] is None,
    decreases nets.len(),
{
    if nets.len() > 0 {
        let d = nets.drop_last();
        let n = nets.len() - 1;
        lemma_with_added(set, d, errors);
        let p = with_added(set, d, errors);
        let u = with_added(set, nets, errors);
        lemma_with_item(p, nets.last());
        assert forall|y: IpNet| #[trigger] u.contains(y) <==> set.contains(y) || exists|i: int|
            0 <= i < nets.len() && #[trigger] nets[i] == y && errors[i] is None by {
            assert(p.contains(y) <==> set.contains(y) || exists|i: int|
                0 <= i < d.len() && #[trigger] d[i] == y && errors[i] is None);
            if exists|i: int| 0 <= i < d.len() && #[trigger] d[i] == y && errors[i] is None {
                let i = choose|i: int|
                    0 <= i < d.len() && #[trigger] d[i] == y && errors[i] is None;
                assert(nets[i] == y);
            }
            if exists|i: int| 0 <= i < nets.len() && #[trigger] nets[i] == y && errors[i] is None {
                let i = choose|i: int|
                    0 <= i < nets.len() && #[trigger] nets[i] == y && errors[i] is None;
                if i < n {
                    assert(d[i] == y);
                }
            }
            assert(nets[n] == nets.last());
        }
    }
}

proof fn lemma_table_concat(table: Set<IpNet>, a: Seq<Programmed>, b: Seq<Programmed>)
    ensures
        table_after(table, a + b) == table_after(table_after(table, a), b),
    decreases b.len(),
{
    if b.len() == 0 {
        assert(a + b =~= a);
    } else {
        lemma_table_concat(table, a, b.drop_last());
        assert((a + b).drop_last() =~= a + b.drop_last());
        assert((a + b).last() == b.last());
    }
}

proof fn lemma_table_removals(table: Set<IpNet>, nets: Seq<IpNet>)
    requires
        forall|i: int| 0 <= i < nets.len() ==> (#[trigger] nets[i]).truncated() == nets[i],
    ensures
        forall|y: IpNet| #[trigger]
            table_after(table, removals(nets, all_well(nets.len()))).contains(y)
                <==> table.contains(y) && !nets.contains(y),
    decreases nets.len(),
{
    let well = all_well(nets.len());
    if nets.len() > 0 {
        let d = nets.drop_last();
        lemma_table_removals(table, d);
        lemma_outcomes(d, Seq::empty(), all_well(d.len()), well);
        let log = removals(nets, well);
        assert(log.drop_last() =~= removals(d, well));
        assert forall|y: IpNet| #[trigger] table_after(table, log).contains(y) <==> table.contains(y)
            && !nets.contains(y) by {
            assert(table_after(table, removals(d, all_well(d.len()))).contains(y)
                <==> table.contains(y) && !d.contains(y));
            if nets.contains(y) {
                let i = choose|i: int| 0 <= i < nets.len() && nets[i] == y;
                if i < d.len() {
                    assert(d[i] == y);
                }
            }
            if d.contains(y) {
                let i = choose|i: int| 0 <= i < d.len() && d[i] == y;
                assert(nets[i] == y);
            }
            assert(nets[nets.len() - 1] == nets.last());
        }
    }
}

proof fn lemma_table_additions(table: Set<IpNet>, nets: Seq<IpNet>)
    requires
        forall|i: int| 0 <= i < nets.len() ==> (#[trigger] nets[i]).truncated() == nets[i],
    ensures
        forall|y: IpNet| #[trigger]
            table_after(table, additions(nets, all_well(nets.len()))).contains(y)
                <==> table.contains(y) || nets.contains(y),
    decreases nets.len(),
{
    let well = all_well(nets.len());
    if nets.len() > 0 {
        let d = nets.drop_last();
        lemma_table_additions(table, d);
        lemma_outcomes(d, Seq::empty(), all_well(d.len()), well);
        let log = additions(nets, well);
        assert(log.drop_last() =~= additions(d, well));
        assert forall|y: IpNet| #[trigger] table_after(table, log).contains(y) <==> table.contains(y)
            || nets.contains(y) by {
            assert(table_after(table, additions(d, all_well(d.len()))).contains(y)
                <==> table.contains(y) || d.contains(y));
            if nets.contains(y) {
                let i = choose|i: int| 0 <= i < nets.len() && nets[i] == y;
                if i < d.len() {
                    assert(d[i] == y);
                }
            }
            if d.contains(y) {
                let i = choose|i: int| 0 <= i < d.len() && d[i] == y;
                assert(nets[i] == y);
            }
            assert(nets[nets.len() - 1] == nets.last());
        }
    }
}

/// The changes that bring a table to what is wanted.
proof fn lemma_kernel_changes(present: Seq<IpNet>, wanted: Seq<IpNet>, mine: Seq<IpNet>)
    requires
        all_valid(present),
        all_valid(wanted),
    ensures
        ({
            let extra = minus(ours(present, mine), gathered(truncs(wanted)));
            let missing = minus(gathered(truncs(wanted)), gathered(truncs(present)));
            &&& forall|y: IpNet| #[trigger]
                extra.contains(y) <==> truncs(present).contains(y) && !truncs(mine).contains(y)
                    && !truncs(wanted).contains(y)
            &&& forall|y: IpNet| #[trigger]
                missing.contains(y) <==> truncs(wanted).contains(y) && !truncs(present).contains(y)
            &&& forall|i: int| 0 <= i < extra.len() ==> (#[trigger] extra[i]).truncated() == extra[i]
            &&& forall|i: int|
                0 <= i < missing.len() ==> (#[trigger] missing[i]).truncated() == missing[i]
        }),
{
    let w = gathered(truncs(wanted));
    let m = gathered(truncs(mine));
    let g = gathered(truncs(present));
    let o = ours(present, mine);
    let extra = minus(o, w);
    let missing = minus(w, g);
    lemma_gathered(truncs(wanted));
    lemma_gathered(truncs(mine));
    lemma_gathered(truncs(present));
    lemma_gathered(minus(truncs(present), m));
    lemma_minus(o, w);
    lemma_minus(w, g);
    assert forall|y: IpNet| #[trigger] extra.contains(y) <==> truncs(present).contains(y)
        && !truncs(mine).contains(y) && !truncs(wanted).contains(y) by {
        lemma_minus_of(truncs(present), m, y);
        assert(o.contains(y) <==> minus(truncs(present), m).contains(y));
        assert(w.contains(y) <==> truncs(wanted).contains(y));
        assert(m.contains(y) <==> truncs(mine).contains(y));
    }
    assert forall|y: IpNet| #[trigger] missing.contains(y) <==> truncs(wanted).contains(y)
        && !truncs(present).contains(y) by {
        assert(w.contains(y) <==> truncs(wanted).contains(y));
        assert(g.contains(y) <==> truncs(present).contains(y));
    }
    assert forall|i: int| 0 <= i < extra.len() implies (#[trigger] extra[i]).truncated()
        == extra[i] by {
        assert(extra.contains(extra[i]));
        let k = choose|k: int| 0 <= k < truncs(present).len() && truncs(present)[k] == extra[i];
        crate::net::lemma_truncated(present[k]);
    }
    assert forall|i: int| 0 <= i < missing.len() implies (#[trigger] missing[i]).truncated()
        == missing[i] by {
        assert(missing.contains(missing[i]));
        let k = choose|k: int| 0 <= k < truncs(wanted).len() && truncs(wanted)[k] == missing[i];
        crate::net::lemma_truncated(wanted[k]);
    }
}

/// Applied to what the kernel has, and where no change fails, the wanted
/// routes are in the table afterwards, the routes for our own addresses are
/// where they were, and nothing else is on the device.
pub proof fn law_the_kernel_ends_up_with_what_is_wanted(
    present: Seq<IpNet>,
    wanted: Seq<IpNet>,
    mine: Seq<IpNet>,
    log: Seq<Programmed>,
    r: Result<bool, String>,
    y: IpNet,
)
    requires
        truncs(present) == present,
        all_valid(present),
        all_valid(wanted),
        applied_to_kernel(
            present,
            wanted,
            mine,
            all_well(minus(ours(present, mine), gathered(truncs(wanted))).len()),
            all_well(minus(gathered(truncs(wanted)), gathered(truncs(present))).len()),
            log,
            r,
        ),
    ensures
        table_after(present.to_set(), log).contains(y) <==> truncs(wanted).contains(y) || (
        present.contains(y) && truncs(mine).contains(y)),
{
    let extra = minus(ours(present, mine), gathered(truncs(wanted)));
    let missing = minus(gathered(truncs(wanted)), gathered(truncs(present)));
    lemma_kernel_changes(present, wanted, mine);
    let a = removals(extra, all_well(extra.len()));
    let b = additions(missing, all_well(missing.len()));
    lemma_table_concat(present.to_set(), a, b);
    lemma_table_removals(present.to_set(), extra);
    lemma_table_additions(table_after(present.to_set(), a), missing);
    assert(table_after(present.to_set(), a).contains(y) <==> present.to_set().contains(y)
        && !extra.contains(y));
    assert(extra.contains(y) <==> truncs(present).contains(y) && !truncs(mine).contains(y)
        && !truncs(wanted).contains(y));
    assert(missing.contains(y) <==> truncs(wanted).contains(y) && !truncs(present).contains(y));
}

proof fn lemma_minus_of(a: Seq<IpNet>, b: Seq<IpNet>, y: IpNet)
    ensures
        minus(a, b).contains(y) <==> a.contains(y) && !b.contains(y),
    decreases a.len(),
{
    if a.len() > 0 {
        let d = a.drop_last();
        let t = minus(d, b);
        let u = minus(a, b);
        lemma_minus_of(d, b, y);
        if a.contains(y) && !b.contains(y) {
            let i = choose|i: int| 0 <= i < a.len() && a[i] == y;
            if i < d.len() {
                assert(d[i] == y);
                let k = choose|k: int| 0 <= k < t.len() && t[k] == y;
                assert(u[k] == y);
            } else {
                assert(u[t.len() as int] == y);
            }
        }
        if u.contains(y) {
            let k = choose|k: int| 0 <= k < u.len() && u[k] == y;
            if k < t.len() {
                assert(t[k] == y);
                let i = choose|i: int| 0 <= i < d.len() && d[i] == y;
                assert(a[i] == y);
            } else {
                assert(a[a.len() - 1] == y);
            }
        }
    }
}

/// Applying what the kernel has already changes nothing: an identical view
/// after a restart touches no route.
pub proof fn law_an_identical_view_programs_nothing(
    present: Seq<IpNet>,
    wanted: Seq<IpNet>,
    mine: Seq<IpNet>,
)
    requires
        all_valid(present),
        all_valid(wanted),
        forall|y: IpNet| #[trigger]
            truncs(wanted).contains(y) ==> truncs(present).contains(y),
        forall|y: IpNet| #[trigger]
            truncs(present).contains(y) ==> truncs(wanted).contains(y) || truncs(mine).contains(y),
    ensures
        minus(ours(present, mine), gathered(truncs(wanted))).len() == 0,
        minus(gathered(truncs(wanted)), gathered(truncs(present))).len() == 0,
{
    let extra = minus(ours(present, mine), gathered(truncs(wanted)));
    let missing = minus(gathered(truncs(wanted)), gathered(truncs(present)));
    lemma_kernel_changes(present, wanted, mine);
    if extra.len() > 0 {
        assert(extra.contains(extra[0]));
    }
    if missing.len() > 0 {
        assert(missing.contains(missing[0]));
    }
}

proof fn lemma_logged(nets: Seq<IpNet>, errors: Seq<Option<Seq<char>>>)
    requires
        errors.len() == nets.len(),
    ensures
        removals(nets, errors).len() == nets.len(),
        additions(nets, errors).len() == nets.len(),
        forall|i: int|
            0 <= i < nets.len() ==> (#[trigger] removals(nets, errors)[i]) == (Programmed {
                call: RouteCall::Remove(nets[i]),
                error: errors[i],
            }),
        forall|i: int|
            0 <= i < nets.len() ==> (#[trigger] additions(nets, errors)[i]) == (Programmed {
                call: RouteCall::Add(nets[i]),
                error: errors[i],
            }),
    decreases nets.len(),
{
    if nets.len() > 0 {
        let d = nets.drop_last();
        let e = errors.drop_last();
        lemma_logged(d, e);
        lemma_outcomes(d, Seq::empty(), e, errors);
        assert forall|i: int| 0 <= i < nets.len() implies (#[trigger] removals(nets, errors)[i])
            == (Programmed { call: RouteCall::Remove(nets[i]), error: errors[i] }) by {
            if i < d.len() {
                assert(removals(nets, errors)[i] == removals(d, e)[i]);
            }
        }
        assert forall|i: int| 0 <= i < nets.len() implies (#[trigger] additions(nets, errors)[i])
            == (Programmed { call: RouteCall::Add(nets[i]), error: errors[i] }) by {
            if i < d.len() {
                assert(additions(nets, errors)[i] == additions(d, e)[i]);
            }
        }
    }
}

proof fn lemma_no_failure_at_all(errors: Seq<Option<Seq<char>>>, n: int)
    requires
        n <= errors.len(),
        forall|i: int| 0 <= i < n ==> (#[trigger] errors[i]) is None,
    ensures
        first_failure(errors, n) is None,
    decreases n,
{
    if n > 0 {
        lemma_no_failure_at_all(errors, n - 1);
    }
}

/// A table that nobody else writes: reconciling with it, where no change
/// fails, leaves exactly what is wanted and what was there for our own
/// addresses. Only what was neither wanted nor our own is removed, and only
/// what was missing is added; and doing it again programs nothing.
pub proof fn law_the_table_holds_what_is_wanted_and_rests<P: RouteProgrammer>(
    before: RouteSet<P>,
    once: RouteSet<P>,
    twice: RouteSet<P>,
    wanted: Seq<IpNet>,
    mine: Seq<IpNet>,
    first: Result<bool, String>,
    second: Result<bool, String>,
)
    requires
        all_valid(wanted),
        before.programmer.holds() matches Some(t) && forall|y: IpNet| #[trigger]
            t.contains(y) ==> y.truncated() == y,
        follows_kernel(before, once, wanted, mine, first),
        forall|i: int|
            before.programmer.log().len() <= i < once.programmer.log().len() ==> (
            #[trigger] once.programmer.log()[i]).error is None,
        follows_kernel(once, twice, wanted, mine, second),
    ensures
        first == Ok::<bool, String>(true),
        once.programmer.holds() matches Some(u) && forall|y: IpNet| #[trigger]
            u.contains(y) <==> truncs(wanted).contains(y) || (
            before.programmer.holds()->0.contains(y) && truncs(mine).contains(y)),
        forall|i: int|
            before.programmer.log().len() <= i < once.programmer.log().len() ==> match (
            #[trigger] once.programmer.log()[i]).call {
                RouteCall::Remove(n) => before.programmer.holds()->0.contains(n) && !truncs(
                    mine,
                ).contains(n) && !truncs(wanted).contains(n),
                RouteCall::Add(n) => truncs(wanted).contains(n)
                    && !before.programmer.holds()->0.contains(n),
            },
        second == Ok::<bool, String>(true),
        twice.programmer.log() == once.programmer.log(),
        twice.programmer.holds() == once.programmer.holds(),
{
    let t = before.programmer.holds()->0;
    let present = once.programmer.reads().last()->0;
    let (removed, added, log) = choose|
        removed: Seq<Option<Seq<char>>>,
        added: Seq<Option<Seq<char>>>,
        log: Seq<Programmed>,
    | #[trigger]
        applied_to_kernel(present, wanted, mine, removed, added, log, first)
            && once.programmer.log() == before.programmer.log() + log && keeps_table(
            before.programmer,
            once.programmer,
            log,
        );
    let extra = minus(ours(present, mine), gathered(truncs(wanted)));
    let missing = minus(gathered(truncs(wanted)), gathered(truncs(present)));
    let n = before.programmer.log().len();
    let a = removals(extra, removed);
    let b = additions(missing, added);
    lemma_logged(extra, removed);
    lemma_logged(missing, added);
    assert forall|i: int| 0 <= i < removed.len() implies (#[trigger] removed[i]) is None by {
        assert(log[i] == a[i]);
        assert(once.programmer.log()[n + i] == log[i]);
    }
    assert forall|i: int| 0 <= i < added.len() implies (#[trigger] added[i]) is None by {
        assert(log[a.len() + i] == b[i]);
        assert(once.programmer.log()[n + a.len() + i] == log[a.len() + i]);
    }
    assert(removed =~= all_well(extra.len()));
    assert(added =~= all_well(missing.len()));
    lemma_no_failure_at_all(added, missing.len() as int);
    assert forall|i: int| 0 <= i < present.len() implies truncs(present)[i] == present[i] by {
        assert(present.to_set().contains(present[i]));
    }
    assert(truncs(present) =~= present);
    let u = once.programmer.holds()->0;
    assert(u == table_after(t, log));
    lemma_kernel_changes(present, wanted, mine);
    assert forall|y: IpNet| #[trigger] u.contains(y) <==> truncs(wanted).contains(y) || (
    t.contains(y) && truncs(mine).contains(y)) by {
        law_the_kernel_ends_up_with_what_is_wanted(present, wanted, mine, log, first, y);
        assert(t.contains(y) <==> present.contains(y));
    }
    assert forall|i: int| n <= i < once.programmer.log().len() implies match (
    #[trigger] once.programmer.log()[i]).call {
        RouteCall::Remove(c) => t.contains(c) && !truncs(mine).contains(c) && !truncs(
            wanted,
        ).contains(c),
        RouteCall::Add(c) => truncs(wanted).contains(c) && !t.contains(c),
    } by {
        let k = i - n;
        assert(once.programmer.log()[i] == log[k]);
        if k < a.len() {
            assert(log[k] == a[k]);
            assert(extra.contains(extra[k]));
            assert(t.contains(extra[k]) <==> present.contains(extra[k]));
        } else {
            let q = k - a.len();
            assert(log[k] == b[q]);
            assert(missing.contains(missing[q]));
            assert(t.contains(missing[q]) <==> present.contains(missing[q]));
        }
    }
    let again = twice.programmer.reads().last()->0;
    let (removed2, added2, log2) = choose|
        removed2: Seq<Option<Seq<char>>>,
        added2: Seq<Option<Seq<char>>>,
        log2: Seq<Programmed>,
    | #[trigger]
        applied_to_kernel(again, wanted, mine, removed2, added2, log2, second)
            && twice.programmer.log() == once.programmer.log() + log2 && keeps_table(
            once.programmer,
            twice.programmer,
            log2,
        );
    assert forall|i: int| 0 <= i < again.len() implies truncs(again)[i] == again[i] by {
        assert(again.to_set().contains(again[i]));
        let y = again[i];
        assert(u.contains(y));
        if truncs(wanted).contains(y) {
            let k = choose|k: int| 0 <= k < truncs(wanted).len() && truncs(wanted)[k] == y;
            crate::net::lemma_truncated(wanted[k]);
        }
    }
    assert(truncs(again) =~= again);
    assert forall|y: IpNet| #[trigger] truncs(wanted).contains(y) implies truncs(again).contains(
        y,
    ) by {
        assert(u.contains(y));
        assert(again.to_set().contains(y));
    }
    assert forall|y: IpNet| #[trigger] truncs(again).contains(y) implies truncs(wanted).contains(y)
        || truncs(mine).contains(y) by {
        assert(again.to_set().contains(y));
        assert(u.contains(y));
    }
    law_an_identical_view_programs_nothing(again, wanted, mine);
    assert(log2 =~= Seq::empty());
    assert(twice.programmer.log() =~= once.programmer.log());
}

/// When no addition fails, what is installed is exactly what is wanted, and
/// applying the same again asks for no change.
pub proof fn law_reconciling_twice_programs_nothing(
    before: Seq<IpNet>,
    wanted: Seq<IpNet>,
    removed: Seq<Option<Seq<char>>>,
    added: Seq<Option<Seq<char>>>,
    after: Seq<IpNet>,
    log: Seq<Programmed>,
    r: Result<(), String>,
)
    requires
        ascending(before),
        applied(before, wanted, removed, added, after, log, r),
        r is Ok,
    ensures
        after == gathered(truncs(wanted)),
        minus(after, gathered(truncs(wanted))).len() == 0,
        minus(gathered(truncs(wanted)), after).len() == 0,
{
    let w = gathered(truncs(wanted));
    let missing = minus(w, before);
    lemma_gathered(truncs(wanted));
    lemma_common(before, w);
    lemma_minus(w, before);
    lemma_with_added(common(before, w), missing, added);
    assert forall|i: int| 0 <= i < missing.len() implies (#[trigger] added[i]) is None by {
        lemma_no_failure(added, missing.len() as int, i);
    }
    assert forall|y: IpNet| #[trigger] after.contains(y) <==> w.contains(y) by {
        assert(common(before, w).contains(y) <==> before.contains(y) && w.contains(y));
        assert(missing.contains(y) <==> w.contains(y) && !before.contains(y));
        if missing.contains(y) {
            let i = choose|i: int| 0 <= i < missing.len() && missing[i] == y;
            assert(added[i] is None);
        }
        if exists|i: int| 0 <= i < missing.len() && #[trigger] missing[i] == y && added[i] is None {
            let i = choose|i: int|
                0 <= i < missing.len() && #[trigger] missing[i] == y && added[i] is None;
            assert(missing.contains(y));
        }
    }
    lemma_same_items(after, w);
    lemma_minus(w, w);
    if minus(w, w).len() > 0 {
        assert(minus(w, w).contains(minus(w, w)[0]));
    }
}

proof fn lemma_no_failure(errors: Seq<Option<Seq<char>>>, n: int, i: int)
    requires
        first_failure(errors, n) is None,
        0 <= i < n,
    ensures
        errors[i] is None,
    decreases n,
{
    if i < n - 1 {
        lemma_no_failure(errors, n - 1, i);
    }
}

/// Records calls instead of touching the kernel. It can carry a simulated
/// table, which every call changes; without one the table cannot be read.
#[derive(Debug)]
pub struct RecordingProgrammer {
    pub calls: Vec<RouteCall>,
    pub kernel: Option<Vec<IpNet>>,
    /// The hosts of each request to pin some.
    pub pinned: Vec<Vec<IpAddr>>,
    /// What each reading of the table came to.
    pub seen: Vec<Option<Vec<IpNet>>>,
}

/// The requests to pin hosts, all of them granted.
pub open spec fn granted(pinned: Seq<Vec<IpAddr>>) -> Seq<PinRequest> {
    pinned.map_values(|v: Vec<IpAddr>| PinRequest { hosts: v@, outcome: Ok(v@) })
}

/// The log of calls that did not fail.
pub open spec fn well_done(calls: Seq<RouteCall>) -> Seq<Programmed> {
    calls.map_values(|c: RouteCall| Programmed { call: c, error: None })
}

/// A simulated table after a call.
pub open spec fn kernel_after(kernel: Option<Seq<IpNet>>, call: RouteCall) -> Option<Seq<IpNet>> {
    match kernel {
        None => None,
        Some(k) => Some(
            match call {
                RouteCall::Add(n) => with_item(k, n.truncated()),
                RouteCall::Remove(n) => minus(k, seq![n.truncated()]),
            },
        ),
    }
}

/// What the readings of the table came to.
pub open spec fn readings(seen: Seq<Option<Vec<IpNet>>>) -> Seq<Option<Seq<IpNet>>> {
    seen.map_values(|v: Option<Vec<IpNet>>| reading(v))
}

impl RecordingProgrammer {
    /// The simulated table.
    pub open spec fn table(self) -> Option<Seq<IpNet>> {
        match self.kernel {
            Some(k) => Some(k@),
            None => None,
        }
    }

    pub fn new() -> (r: RecordingProgrammer)
        ensures
            r.calls@ == Seq::<RouteCall>::empty(),
            r.table() is None,
            r.pinned@ == Seq::<Vec<IpAddr>>::empty(),
            r.seen@ == Seq::<Option<Vec<IpNet>>>::empty(),
    {
        RecordingProgrammer {
            calls: Vec::new(),
            kernel: None,
            pinned: Vec::new(),
            seen: Vec::new(),
        }
    }

    /// A recorder whose simulated table starts with these prefixes.
    pub fn with_kernel(initial: &Vec<IpNet>) -> (r: RecordingProgrammer)
        requires
            all_valid(initial@),
        ensures
            r.calls@ == Seq::<RouteCall>::empty(),
            r.table() == Some(gathered(truncs(initial@))),
            r.pinned@ == Seq::<Vec<IpAddr>>::empty(),
            r.seen@ == Seq::<Option<Vec<IpNet>>>::empty(),
    {
        let cut = truncate_all(initial);
        RecordingProgrammer {
            calls: Vec::new(),
            kernel: Some(gather(&cut)),
            pinned: Vec::new(),
            seen: Vec::new(),
        }
    }

    /// What the simulated table holds.
    pub fn kernel_now(&self) -> (r: Option<Vec<IpNet>>)
        ensures
            match r {
                Some(v) => self.table() == Some(v@),
                None => self.table() is None,
            },
    {
        match &self.kernel {
            Some(k) => Some(copy_nets(k)),
            None => None,
        }
    }

    fn note(&mut self, call: RouteCall)
        requires
            call.net().valid(),
        ensures
            final(self).calls@ == old(self).calls@.push(call),
            final(self).table() == kernel_after(old(self).table(), call),
            final(self).pinned == old(self).pinned,
            final(self).seen == old(self).seen,
    {
        self.calls.push(call);
        let next = match &self.kernel {
            None => None,
            Some(k) => match call {
                RouteCall::Add(n) => {
                    let mut v = copy_nets(k);
                    put_item(&mut v, n.trunc());
                    Some(v)
                },
                RouteCall::Remove(n) => {
                    let gone = vec![n.trunc()];
                    assert(gone@ =~= seq![n.truncated()]);
                    Some(subtract(k, &gone))
                },
            },
        };
        self.kernel = next;
    }
}

impl Default for RecordingProgrammer {
    fn default() -> (r: RecordingProgrammer)
        ensures
            r.calls@ == Seq::<RouteCall>::empty(),
            r.table() is None,
            r.pinned@ == Seq::<Vec<IpAddr>>::empty(),
            r.seen@ == Seq::<Option<Vec<IpNet>>>::empty(),
    {
        RecordingProgrammer::new()
    }
}

fn only_valid(v: &Vec<IpNet>) -> (r: Vec<IpNet>)
    ensures
        all_valid(r@),
        all_valid(v@) ==> r@ == v@,
{
    let mut out: Vec<IpNet> = Vec::new();
    let mut i: usize = 0;
    while i < v.len()
        invariant
            i <= v@.len(),
            all_valid(out@),
            all_valid(v@) ==> out@ == v@.take(i as int),
        decreases v.len() - i,
    {
        assert(v@.take(i + 1) =~= v@.take(i as int).push(v@[i as int]));
        if v[i].is_valid() {
            out.push(v[i]);
        }
        i = i + 1;
    }
    assert(v@.take(i as int) =~= v@);
    out
}

fn copy_hosts(v: &Vec<IpAddr>) -> (r: Vec<IpAddr>)
    ensures
        r@ == v@,
{
    let mut out: Vec<IpAddr> = Vec::new();
    let mut i: usize = 0;
    while i < v.len()
        invariant
            i <= v@.len(),
            out@ == v@.take(i as int),
        decreases v.len() - i,
    {
        assert(v@.take(i + 1) =~= v@.take(i as int).push(v@[i as int]));
        out.push(v[i]);
        i = i + 1;
    }
    assert(v@.take(i as int) =~= v@);
    out
}

proof fn lemma_recorded(k: Seq<IpNet>, call: RouteCall)
    requires
        call.net().valid(),
    ensures
        ascending(k) && all_valid(k) ==> {
            let after = kernel_after(Some(k), call)->0;
            &&& ascending(after)
            &&& all_valid(after)
            &&& after.to_set() == changed(k.to_set(), Programmed { call, error: None })
        },
{
    if ascending(k) && all_valid(k) {
        let n = call.net().truncated();
        let after = kernel_after(Some(k), call)->0;
        crate::net::lemma_truncated(call.net());
        match call {
            RouteCall::Add(_) => {
                lemma_with_item(k, n);
                lemma_with_valid(k, n);
            },
            RouteCall::Remove(_) => {
                lemma_minus(k, seq![n]);
                lemma_minus_valid(k, seq![n]);
                assert forall|y: IpNet| seq![n].contains(y) <==> y == n by {
                    assert(seq![n][0] == n);
                }
            },
        }
        assert forall|y: IpNet| after.to_set().contains(y) <==> changed(
            k.to_set(),
            Programmed { call, error: None },
        ).contains(y) by {
            assert(after.contains(y) <==> after.to_set().contains(y));
        }
        assert(after.to_set() =~= changed(k.to_set(), Programmed { call, error: None }));
    }
}

impl RouteProgrammer for RecordingProgrammer {
    open spec fn log(&self) -> Seq<Programmed> {
        well_done(self.calls@)
    }

    open spec fn pins(&self) -> Seq<PinRequest> {
        granted(self.pinned@)
    }

    open spec fn reads(&self) -> Seq<Option<Seq<IpNet>>> {
        readings(self.seen@)
    }

    open spec fn holds(&self) -> Option<Set<IpNet>> {
        match self.table() {
            Some(k) if ascending(k) && all_valid(k) => Some(k.to_set()),
            _ => None,
        }
    }

    fn add_via_tun(&mut self, net: IpNet) -> (r: Result<(), String>)
        ensures
            r is Ok,
            final(self).calls@ == old(self).calls@.push(RouteCall::Add(net)),
            final(self).table() == kernel_after(old(self).table(), RouteCall::Add(net)),
    {
        self.note(RouteCall::Add(net));
        proof {
            if let Some(k) = old(self).table() {
                lemma_recorded(k, RouteCall::Add(net));
            }
        }
        assert(self.log() =~= old(self).log().push(
            Programmed { call: RouteCall::Add(net), error: None },
        ));
        Ok(())
    }

    fn remove(&mut self, net: IpNet) -> (r: Result<(), String>)
        ensures
            r is Ok,
            final(self).calls@ == old(self).calls@.push(RouteCall::Remove(net)),
            final(self).table() == kernel_after(old(self).table(), RouteCall::Remove(net)),
    {
        self.note(RouteCall::Remove(net));
        proof {
            if let Some(k) = old(self).table() {
                lemma_recorded(k, RouteCall::Remove(net));
            }
        }
        assert(self.log() =~= old(self).log().push(
            Programmed { call: RouteCall::Remove(net), error: None },
        ));
        Ok(())
    }

    fn list_via_dev(&mut self) -> (r: Option<Vec<IpNet>>)
        ensures
            r is Some <==> old(self).table() is Some,
            old(self).table() matches Some(k) ==> all_valid(k) ==> r->0@ == k,
            final(self).seen@.len() == old(self).seen@.len() + 1,
            final(self).seen@.drop_last() == old(self).seen@,
            reading(final(self).seen@.last()) == reading(r),
            *final(self) == (RecordingProgrammer { seen: final(self).seen, ..*old(self) }),
    {
        let r = match &self.kernel {
            Some(k) => Some(only_valid(k)),
            None => None,
        };
        let kept = match &r {
            Some(v) => Some(copy_nets(v)),
            None => None,
        };
        self.seen.push(kept);
        assert(self.seen@.drop_last() =~= old(self).seen@);
        assert(self.reads() =~= old(self).reads().push(reading(r)));
        r
    }

    fn pin_underlay(&mut self, ips: &Vec<IpAddr>) -> (r: Result<Vec<IpAddr>, String>)
        ensures
            r matches Ok(v) && v@ == ips@,
            final(self).pinned@.len() == old(self).pinned@.len() + 1,
            final(self).pinned@.drop_last() == old(self).pinned@,
            final(self).pinned@.last()@ == ips@,
            *final(self) == (RecordingProgrammer { pinned: final(self).pinned, ..*old(self) }),
    {
        let kept = copy_hosts(ips);
        let out = copy_hosts(ips);
        self.pinned.push(kept);
        assert(self.pinned@.drop_last() =~= old(self).pinned@);
        assert(self.pins() =~= old(self).pins().push(
            PinRequest { hosts: ips@, outcome: Ok(ips@) },
        ));
        Ok(out)
    }
}

} // verus!
