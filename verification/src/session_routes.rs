//! Routes that outlive the members they lead to.
//!
//! A prefix that is withdrawn keeps its route on the tunnel device while the
//! control session lasts: the packet enters the tunnel, matches no peer and
//! is dropped, instead of leaving in cleartext over the default route. Only
//! when the session comes back is the table brought back to the truth.

use vstd::prelude::*;

use crate::net::{all_valid, IpAddr, IpNet};
use crate::netset::{
    ascending, gather, gathered, lemma_gathered, lemma_minus, lemma_with_item, minus, put_item,
    subtract,
};
use crate::proto::copy_nets;
use crate::routes::{lemma_gathered_valid, lemma_with_valid};
use crate::routeset::{
    additions, all_well, broken_off, failure, lemma_outcomes, lemma_with_added, only_changes,
    removals, remove_each, with_added, Programmed, RouteProgrammer,
};

verus! {

/// Applies membership changes to a programmer.
#[derive(Debug)]
pub struct RouteSet<P: RouteProgrammer> {
    pub programmer: P,
    pub installed: Vec<IpNet>,
}

/// What became of routes that were to be there.
pub open spec fn installed_more(
    before: Seq<IpNet>,
    wanted: Seq<IpNet>,
    after: Seq<IpNet>,
    log: Seq<Programmed>,
    r: Result<(), String>,
) -> bool {
    let missing = minus(gathered(wanted), before);
    match r {
        Ok(_) => {
            &&& after == with_added(before, missing, all_well(missing.len()))
            &&& log == additions(missing, all_well(missing.len()))
        },
        Err(e) => exists|n: int|
            {
                &&& 0 < n <= missing.len()
                &&& log == #[trigger] broken_off(missing, n, e@)
                &&& after == with_added(before, missing.take(n - 1), all_well((n - 1) as nat))
            },
    }
}

impl<P: RouteProgrammer> RouteSet<P> {
    /// What is installed is in order, and valid.
    pub open spec fn wf(self) -> bool {
        ascending(self.installed@) && all_valid(self.installed@)
    }

    pub fn new(programmer: P) -> (r: RouteSet<P>)
        ensures
            r.wf(),
            r.programmer == programmer,
            r.installed@ == Seq::<IpNet>::empty(),
    {
        RouteSet { programmer, installed: Vec::new() }
    }

    /// Install everything that is wanted and not installed. What is not
    /// wanted any more stays, so that traffic to it cannot leak. The first
    /// failure ends it.
    pub fn apply(&mut self, wanted: &Vec<IpNet>) -> (r: Result<(), String>)
        requires
            old(self).wf(),
            all_valid(wanted@),
        ensures
            final(self).wf(),
            only_changes(old(self).programmer, final(self).programmer),
            exists|log: Seq<Programmed>| #[trigger]
                installed_more(old(self).installed@, wanted@, final(self).installed@, log, r)
                    && final(self).programmer.log() == old(self).programmer.log() + log,
    {
        let w = gather(wanted);
        let missing = subtract(&w, &self.installed);
        let ghost before = self.installed@;
        let ghost base = self.programmer.log();
        let ghost well = all_well(missing@.len());
        proof {
            lemma_gathered_valid(wanted@);
            crate::routeset::lemma_minus_valid(w@, before);
        }
        let mut i: usize = 0;
        assert(missing@.take(0) =~= Seq::empty());
        assert(self.programmer.log() =~= base + additions(missing@.take(0), well));
        while i < missing.len()
            invariant
                i <= missing@.len(),
                all_valid(missing@),
                missing@ == minus(gathered(wanted@), before),
                before == old(self).installed@,
                ascending(before),
                base == old(self).programmer.log(),
                well == all_well(missing@.len()),
                self.wf(),
                self.installed@ == with_added(before, missing@.take(i as int), well),
                self.programmer.log() == base + additions(missing@.take(i as int), well),
                only_changes(old(self).programmer, self.programmer),
            decreases missing.len() - i,
        {
            let net = missing[i];
            assert(missing@.take(i + 1).drop_last() =~= missing@.take(i as int));
            match self.programmer.add_via_tun(net) {
                Ok(_) => {
                    assert(self.programmer.log() =~= base + additions(missing@.take(i + 1), well));
                    proof {
                        lemma_with_valid(self.installed@, net);
                        lemma_with_item(self.installed@, net);
                    }
                    put_item(&mut self.installed, net);
                },
                Err(e) => {
                    proof {
                        lemma_outcomes(
                            missing@.take(i as int),
                            before,
                            all_well(i as nat),
                            well,
                        );
                        let log = broken_off(missing@, i + 1, e@);
                        assert(self.programmer.log() =~= base + log);
                        assert(installed_more(before, wanted@, self.installed@, log, Err(e)));
                    }
                    return Err(e);
                },
            }
            i = i + 1;
        }
        assert(missing@.take(i as int) =~= missing@);
        proof {
            let log = additions(missing@, well);
            assert(installed_more(before, wanted@, self.installed@, log, Ok(())));
        }
        Ok(())
    }

    /// Remove everything that this set installed, as far as that works, then
    /// install exactly what is wanted.
    pub fn reconcile(&mut self, wanted: &Vec<IpNet>) -> (r: Result<(), String>)
        requires
            old(self).wf(),
            all_valid(wanted@),
        ensures
            final(self).wf(),
            only_changes(old(self).programmer, final(self).programmer),
            exists|errors: Seq<Option<Seq<char>>>, log: Seq<Programmed>|
                errors.len() == old(self).installed@.len() && #[trigger] installed_more(
                    Seq::empty(),
                    wanted@,
                    final(self).installed@,
                    log,
                    r,
                ) && final(self).programmer.log() == old(self).programmer.log()
                    + #[trigger] removals(old(self).installed@, errors) + log,
    {
        let ghost before = self.installed@;
        let ghost base = self.programmer.log();
        let previous = copy_nets(&self.installed);
        self.installed = Vec::new();
        let Ghost(errors) = remove_each(&mut self.programmer, &previous);
        let r = self.apply(wanted);
        proof {
            let log = choose|log: Seq<Programmed>| #[trigger]
                installed_more(Seq::empty(), wanted@, self.installed@, log, r)
                    && self.programmer.log() == base + removals(before, errors) + log;
            assert(installed_more(Seq::empty(), wanted@, self.installed@, log, r));
        }
        r
    }

    /// Program every route that this set holds again, whether or not it is
    /// thought to be there. The first failure ends it.
    pub fn reassert(&mut self) -> (r: Result<(), String>)
        requires
            old(self).wf(),
        ensures
            final(self).wf(),
            final(self).installed == old(self).installed,
            only_changes(old(self).programmer, final(self).programmer),
            match r {
                Ok(_) => final(self).programmer.log() == old(self).programmer.log() + additions(
                    old(self).installed@,
                    all_well(old(self).installed@.len()),
                ),
                Err(e) => exists|n: int|
                    0 < n <= old(self).installed@.len() && final(self).programmer.log() == old(
                        self).programmer.log() + #[trigger] broken_off(old(self).installed@, n, e@),
            },
    {
        crate::routeset::add_all(&mut self.programmer, &self.installed)
    }

    /// What this set installed, in order.
    pub fn installed(&self) -> (r: Vec<IpNet>)
        ensures
            r@ == self.installed@,
    {
        copy_nets(&self.installed)
    }

    /// Pin a transport peer to the physical gateway: one request for this
    /// host alone, which fails as the programmer does.
    pub fn pin_underlay(&mut self, host: IpAddr) -> (r: Result<(), String>)
        ensures
            final(self).installed == old(self).installed,
            final(self).programmer.log() == old(self).programmer.log(),
            final(self).programmer.reads() == old(self).programmer.reads(),
            ({
                let request = final(self).programmer.pins().last();
                &&& final(self).programmer.pins() == old(self).programmer.pins().push(request)
                &&& request.hosts == seq![host]
                &&& match request.outcome {
                    Ok(_) => r is Ok,
                    Err(e) => failure(r) == Some(e),
                }
            }),
    {
        let ips = vec![host];
        assert(ips@ =~= seq![host]);
        match self.programmer.pin_underlay(&ips) {
            Ok(_) => Ok(()),
            Err(e) => Err(e),
        }
    }
}

/// A prefix that is withdrawn keeps its route: applying never takes anything
/// out of what is installed, and asks for no removal.
pub proof fn law_a_withdrawn_prefix_keeps_its_route(
    before: Seq<IpNet>,
    wanted: Seq<IpNet>,
    after: Seq<IpNet>,
    log: Seq<Programmed>,
    r: Result<(), String>,
    n: IpNet,
)
    requires
        ascending(before),
        installed_more(before, wanted, after, log, r),
        before.contains(n),
    ensures
        after.contains(n),
        forall|i: int| 0 <= i < log.len() ==> (#[trigger] log[i]).call is Add,
{
    let missing = minus(gathered(wanted), before);
    match r {
        Ok(_) => {
            lemma_with_added(before, missing, all_well(missing.len()));
            lemma_additions_add(missing, all_well(missing.len()));
        },
        Err(e) => {
            let k = choose|k: int|
                {
                    &&& 0 < k <= missing.len()
                    &&& log == #[trigger] broken_off(missing, k, e@)
                    &&& after == with_added(before, missing.take(k - 1), all_well((k - 1) as nat))
                };
            lemma_with_added(before, missing.take(k - 1), all_well((k - 1) as nat));
            lemma_additions_add(missing.take(k - 1), all_well((k - 1) as nat));
            let p = additions(missing.take(k - 1), all_well((k - 1) as nat));
            assert forall|i: int| 0 <= i < log.len() implies (#[trigger] log[i]).call is Add by {
                if i < p.len() {
                    assert(log[i] == p[i]);
                }
            }
        },
    }
}

proof fn lemma_additions_add(nets: Seq<IpNet>, errors: Seq<Option<Seq<char>>>)
    ensures
        forall|i: int|
            0 <= i < additions(nets, errors).len() ==> (#[trigger] additions(
                nets,
                errors,
            )[i]).call is Add,
    decreases nets.len(),
{
    if nets.len() > 0 {
        lemma_additions_add(nets.drop_last(), errors);
        let p = additions(nets.drop_last(), errors);
        let u = additions(nets, errors);
        assert forall|i: int| 0 <= i < u.len() implies (#[trigger] u[i]).call is Add by {
            if i < p.len() {
                assert(u[i] == p[i]);
            }
        }
    }
}

/// When nothing fails, exactly what is wanted, and what was there, is
/// installed; and a site that returns needs no change.
pub proof fn law_applying_installs_what_is_wanted(
    before: Seq<IpNet>,
    wanted: Seq<IpNet>,
    after: Seq<IpNet>,
    log: Seq<Programmed>,
    n: IpNet,
)
    requires
        ascending(before),
        installed_more(before, wanted, after, log, Ok(())),
    ensures
        after.contains(n) <==> before.contains(n) || wanted.contains(n),
        (forall|y: IpNet| #[trigger] wanted.contains(y) ==> before.contains(y)) ==> log.len() == 0,
{
    let w = gathered(wanted);
    let missing = minus(w, before);
    let well = all_well(missing.len());
    lemma_gathered(wanted);
    lemma_minus(w, before);
    lemma_with_added(before, missing, well);
    assert(after.contains(n) <==> before.contains(n) || exists|i: int|
        0 <= i < missing.len() && #[trigger] missing[i] == n && well[i] is None);
    assert(missing.contains(n) <==> w.contains(n) && !before.contains(n));
    assert(w.contains(n) <==> wanted.contains(n));
    if missing.contains(n) {
        let i = choose|i: int| 0 <= i < missing.len() && missing[i] == n;
        assert(well[i] is None);
    }
    if exists|i: int| 0 <= i < missing.len() && #[trigger] missing[i] == n && well[i] is None {
        let i = choose|i: int|
            0 <= i < missing.len() && #[trigger] missing[i] == n && well[i] is None;
        assert(missing.contains(n));
    }
    if forall|y: IpNet| #[trigger] wanted.contains(y) ==> before.contains(y) {
        if missing.len() > 0 {
            let y = missing[0];
            assert(missing.contains(y));
            assert(w.contains(y));
            assert(wanted.contains(y));
        }
    }
}

} // verus!
