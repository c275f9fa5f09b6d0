//! Restoring configuration from a backup.

use vstd::prelude::*;

use crate::accepted::law_accepted_ranges_are_disjoint;
use crate::admin::{
    changed_among, changed_members, joined_among, keep_joined, republished, Change,
};
use crate::config::{
    assoc, lemma_assoc_some, lemma_ordered_assoc, MemberView, NetworkConfig, NetworkView,
};
use crate::coordinator::AppState;
use crate::directory::Directory;
use crate::error::{error_view, ApiError, ErrorCode};
use crate::ipam::pools_inside;
use crate::namemap::{has_name, lemma_name_key, lemma_named_entry, lemma_same_names, NameMap};
use crate::net::IpAddr;
use crate::operator::{config_views, lemma_edited, same_but_networks};
use crate::registry::{empty_registry, RecordView, Registry, GEN_PERSIST_STEP};
use crate::state::{first_generation, gen_room, messages, NetState};
use crate::validate::{both_roles, network_problem, resolved_view, roles_problem, validate_network};

verus! {

/// What the import of one configuration did.
#[derive(Debug)]
pub struct Imported {
    pub network_id: String,
    /// The change to a network that existed; none for one that is new.
    pub change: Option<Change>,
}

/// What is wrong with the first configuration that is not a valid one.
pub open spec fn first_problem(
    cfgs: Seq<NetworkView>,
    max_lanes: u8,
    resolved: Seq<(Seq<char>, Seq<IpAddr>)>,
) -> Option<Seq<char>>
    decreases cfgs.len(),
{
    if cfgs.len() == 0 {
        None
    } else {
        match first_problem(cfgs.drop_last(), max_lanes, resolved) {
            Some(p) => Some(p),
            None => network_problem(cfgs.last(), max_lanes, resolved),
        }
    }
}

/// The configuration of a network once `cfgs` are imported in turn.
pub open spec fn imported_config(
    before: Option<NetworkView>,
    cfgs: Seq<NetworkView>,
    id: Seq<char>,
) -> Option<NetworkView>
    decreases cfgs.len(),
{
    if cfgs.len() == 0 {
        before
    } else if cfgs.last().network_id == id {
        Some(cfgs.last())
    } else {
        imported_config(before, cfgs.drop_last(), id)
    }
}

/// The records of a network once `cfgs` are imported in turn: those that it
/// has, or else those that were stored for it.
pub open spec fn imported_records(
    before: Option<Seq<RecordView>>,
    cfgs: Seq<NetworkView>,
    stored: Seq<Option<Registry>>,
    id: Seq<char>,
) -> Option<Seq<RecordView>>
    decreases cfgs.len(),
{
    if cfgs.len() == 0 {
        before
    } else {
        match imported_records(before, cfgs.drop_last(), stored, id) {
            Some(r) => Some(r),
            None => if cfgs.last().network_id == id {
                Some(
                    match stored[cfgs.len() - 1] {
                        Some(reg) => reg@.members,
                        None => Seq::empty(),
                    },
                )
            } else {
                None
            },
        }
    }
}

impl AppState {
    /// The configuration of a network.
    pub open spec fn config_of(self, id: Seq<char>) -> Option<NetworkView> {
        match self.networks.at(id) {
            Some(ns) => Some(ns.cfg@),
            None => None,
        }
    }

    /// The records of a network.
    pub open spec fn records_of(self, id: Seq<char>) -> Option<Seq<RecordView>> {
        match self.networks.at(id) {
            Some(ns) => Some(ns.registry@.members),
            None => None,
        }
    }

    /// Every network has room for `n` more generations.
    pub open spec fn room_for(self, n: int) -> bool {
        forall|i: int|
            0 <= i < self.networks.entries@.len() ==> (
            #[trigger] self.networks.entries@[i]).1.directory.revision + n + 2 * GEN_PERSIST_STEP
                <= u64::MAX
    }
}

/// Who joins again when a configuration is imported over another one.
pub open spec fn import_rejoins(
    cfg: Option<NetworkView>,
    records: Option<Seq<RecordView>>,
    next: NetworkView,
) -> Option<Seq<Seq<char>>> {
    match (cfg, records) {
        (Some(c), Some(m)) => Some(joined_among(m, changed_among(c, next.everyone()))),
        _ => None,
    }
}

/// Who joins again after an import.
pub open spec fn rejoins(i: Imported) -> Option<Seq<Seq<char>>> {
    match i.change {
        Some(c) => Some(messages(c.rejoin@)),
        None => None,
    }
}

/// A network was given another configuration: `change` says who joins again
/// and how the published view changed. Who is connected stays connected.
pub open spec fn replaces(
    before: NetState,
    after: NetState,
    cfg: NetworkConfig,
    now: u64,
    change: Change,
) -> bool {
    &&& after.cfg == cfg
    &&& messages(change.rejoin@) == joined_among(
        before.registry@.members,
        changed_among(before.cfg@, cfg@.everyone()),
    )
    &&& change.closed is None
    &&& republished(
        before.registry@,
        (Directory { hold_down_secs: cfg.settings.hold_down_secs, ..before.directory }),
        after,
        now,
        change.delta,
    )
    &&& after == (NetState {
        cfg: after.cfg,
        registry: after.registry,
        directory: after.directory,
        ..before
    })
}

/// A network was created from a configuration, and from the registry that was
/// stored for it, if one was. Nobody is connected.
pub open spec fn starts(
    ns: NetState,
    cfg: NetworkConfig,
    stored: Option<Registry>,
    now_ms: u64,
) -> bool {
    &&& ns.cfg == cfg
    &&& match stored {
        Some(g) => ns.registry == g,
        None => ns.registry@ == empty_registry(ns.registry@.network_uuid)
            && ns.registry@.network_uuid.len() == 36,
    }
    &&& ns.idle()
    &&& ns.directory.hold_down_secs == cfg.settings.hold_down_secs
    &&& ns.directory.revision == first_generation(ns.registry.gen_hwm, now_ms)
}

/// One configuration was imported: its network was replaced, or created, and
/// the others stay.
pub open spec fn imports(
    before: NameMap<NetState>,
    after: NameMap<NetState>,
    cfg: NetworkConfig,
    stored: Option<Registry>,
    now: u64,
    now_ms: u64,
    done: Imported,
) -> bool {
    let id = cfg@.network_id;
    &&& done.network_id@ == id
    &&& forall|other: Seq<char>|
        other != id ==> #[trigger] after.at(other) == before.at(other)
    &&& after.at(id) matches Some(ns) && match before.at(id) {
        Some(b) => done.change matches Some(c) && replaces(b, ns, cfg, now, c),
        None => done.change is None && starts(ns, cfg, stored, now_ms),
    }
}

/// Configurations were imported in turn, by way of these stages.
pub open spec fn imports_in_turn(
    stages: Seq<NameMap<NetState>>,
    cfgs: Seq<NetworkConfig>,
    stored: Seq<Option<Registry>>,
    now: u64,
    now_ms: u64,
    done: Seq<Imported>,
) -> bool {
    &&& stages.len() == cfgs.len() + 1
    &&& done.len() == cfgs.len()
    &&& forall|k: int|
        0 <= k < cfgs.len() ==> imports(
            stages[k],
            stages[k + 1],
            cfgs[k],
            stored[k],
            now,
            now_ms,
            #[trigger] done[k],
        )
}

/// One of the configurations is of this network.
pub open spec fn among(cfgs: Seq<NetworkView>, id: Seq<char>) -> bool {
    exists|k: int| 0 <= k < cfgs.len() && (#[trigger] cfgs[k]).network_id == id
}

/// What an import comes to: nothing where a configuration is not a valid one,
/// and otherwise every configuration in turn.
pub open spec fn imported(
    before: AppState,
    after: AppState,
    cfgs: Seq<NetworkConfig>,
    stored: Seq<Option<Registry>>,
    max_lanes: u8,
    resolved: Seq<(Seq<char>, Seq<IpAddr>)>,
    now: u64,
    now_ms: u64,
    r: Result<Vec<Imported>, ApiError>,
) -> bool {
    let v = config_views(cfgs);
    match (first_problem(v, max_lanes, resolved), r) {
        (Some(p), Err(e)) => {
            &&& e@ == error_view(ErrorCode::BadRequest, p)
            &&& after == before
        },
        (None, Ok(done)) => {
            &&& same_but_networks(before, after)
            &&& forall|id: Seq<char>| #[trigger]
                after.config_of(id) == imported_config(before.config_of(id), v, id)
            &&& forall|id: Seq<char>| #[trigger]
                after.records_of(id) == imported_records(before.records_of(id), v, stored, id)
            &&& forall|id: Seq<char>|
                !among(v, id) ==> #[trigger] after.networks.at(id) == before.networks.at(id)
            &&& done@.len() == v.len()
            &&& forall|k: int|
                0 <= k < v.len() ==> (#[trigger] done@[k]).network_id@ == v[k].network_id
                    && rejoins(done@[k]) == import_rejoins(
                    imported_config(before.config_of(v[k].network_id), v.take(k), v[k].network_id),
                    imported_records(
                        before.records_of(v[k].network_id),
                        v.take(k),
                        stored,
                        v[k].network_id,
                    ),
                    v[k],
                )
            &&& exists|stages: Seq<NameMap<NetState>>| #[trigger]
                imports_in_turn(stages, cfgs, stored, now, now_ms, done@) && stages[0]
                    == before.networks && stages.last() == after.networks
        },
        _ => false,
    }
}

impl NetState {
    /// Replace the whole configuration, members included. The registry is
    /// kept.
    pub fn replace_config(&mut self, cfg: NetworkConfig, now: u64) -> (r: Change)
        requires
            old(self).wf(),
            cfg.wf(),
            cfg@.everyone().len() <= usize::MAX,
            cfg@.ipv4() is Some,
            pools_inside(cfg@),
            gen_room(old(self).directory.revision),
        ensures
            final(self).wf(),
            replaces(*old(self), *final(self), cfg, now, r),
    {
        let changed = changed_members(&self.cfg, &cfg);
        self.directory.hold_down_secs = cfg.settings.hold_down_secs;
        self.cfg = cfg;
        let rejoin = keep_joined(&self.registry, &changed);
        let delta = self.refresh_directory(now);
        Change { rejoin, closed: None, delta }
    }
}

/// A registry that a network can start from.
pub open spec fn storable(reg: Option<Registry>, n: int) -> bool {
    reg matches Some(g) ==> g@.wf() && g.gen_hwm + n + 3 * GEN_PERSIST_STEP <= u64::MAX
}

impl AppState {
    /// Import one configuration that is a valid one.
    fn import_one(
        &mut self,
        cfg: NetworkConfig,
        stored: Option<Registry>,
        now: u64,
        now_ms: u64,
        Ghost(n): Ghost<int>,
    ) -> (r: Imported)
        requires
            old(self).wf(),
            0 <= n,
            old(self).room_for(n + 1),
            cfg.wf(),
            cfg@.everyone().len() <= usize::MAX,
            cfg@.ipv4() is Some,
            pools_inside(cfg@),
            storable(stored, n),
            now_ms + n + 3 * GEN_PERSIST_STEP <= u64::MAX,
        ensures
            final(self).wf(),
            final(self).room_for(n),
            same_but_networks(*old(self), *final(self)),
            imports(old(self).networks, final(self).networks, cfg, stored, now, now_ms, r),
            r.network_id@ == cfg@.network_id,
            forall|id: Seq<char>|
                id != cfg@.network_id ==> #[trigger] final(self).networks.at(id) == old(
                    self,
                ).networks.at(id),
            final(self).config_of(cfg@.network_id) == Some(cfg@),
            final(self).records_of(cfg@.network_id) == Some(
                match old(self).records_of(cfg@.network_id) {
                    Some(m) => m,
                    None => match stored {
                        Some(g) => g@.members,
                        None => Seq::empty(),
                    },
                },
            ),
            rejoins(r) == import_rejoins(
                old(self).config_of(cfg@.network_id),
                old(self).records_of(cfg@.network_id),
                cfg@,
            ),
    {
        let id = cfg.network_id.clone();
        let ghost before = self.networks;
        let ghost cfgv = cfg@;
        match self.networks.position(id.as_str()) {
            Some(i) => {
                let change = self.networks.entries[i].1.replace_config(cfg, now);
                proof {
                    lemma_edited(before, self.networks, i as int);
                }
                Imported { network_id: id, change: Some(change) }
            },
            None => {
                let registry = match stored {
                    Some(g) => g,
                    None => Registry::new(),
                };
                let ghost members = registry@.members;
                assert(stored is None ==> members =~= Seq::empty());
                let ns = NetState::new(cfg, registry, now_ms);
                let ghost added = ns;
                self.add_network(id.clone(), ns);
                proof {
                    let s = self.networks.entries@;
                    assert forall|i: int| 0 <= i < s.len() implies (
                    #[trigger] s[i]).1.directory.revision + n + 2 * GEN_PERSIST_STEP
                        <= u64::MAX by {
                        lemma_named_entry(s, i);
                        let k = s[i].0@;
                        if k != id@ {
                            assert(before@.dom().contains(k));
                            let j = lemma_name_key(before.entries@, k);
                        }
                    }
                }
                Imported { network_id: id, change: None }
            },
        }
    }

    /// Restore configuration: networks that exist are replaced whole (members
    /// included), others are created, each from the registry that was stored
    /// for it, if one was. Registries are kept. Nothing is changed unless
    /// every configuration is a valid one.
    pub fn import(
        &mut self,
        cfgs: Vec<NetworkConfig>,
        stored: Vec<Option<Registry>>,
        max_lanes: u8,
        resolved: &Vec<(String, Vec<IpAddr>)>,
        now: u64,
        now_ms: u64,
    ) -> (r: Result<Vec<Imported>, ApiError>)
        requires
            old(self).wf(),
            stored@.len() == cfgs@.len(),
            old(self).room_for(cfgs@.len() as int),
            forall|i: int|
                0 <= i < cfgs@.len() ==> (#[trigger] cfgs@[i]).wf() && cfgs@[i]@.everyone().len()
                    <= usize::MAX,
            forall|i: int|
                0 <= i < stored@.len() ==> storable(#[trigger] stored@[i], cfgs@.len() as int),
            now_ms + cfgs@.len() + 3 * GEN_PERSIST_STEP <= u64::MAX,
        ensures
            final(self).wf(),
            imported(
                *old(self),
                *final(self),
                cfgs@,
                stored@,
                max_lanes,
                resolved_view(resolved@),
                now,
                now_ms,
                r,
            ),
    {
        let ghost v = config_views(cfgs@);
        let ghost all = cfgs@;
        let ghost regs = stored@;
        let ghost res = resolved_view(resolved@);
        assert(v.len() == all.len());
        let mut k: usize = 0;
        assert(first_problem(v.take(0), max_lanes, res) is None);
        while k < cfgs.len()
            invariant
                k <= cfgs@.len(),
                cfgs@ == all,
                v == config_views(all),
                v.len() == all.len(),
                res == resolved_view(resolved@),
                *self == *old(self),
                self.wf(),
                forall|i: int|
                    0 <= i < all.len() ==> (#[trigger] all[i]).wf() && all[i]@.everyone().len()
                        <= usize::MAX,
                first_problem(v.take(k as int), max_lanes, res) is None,
                forall|i: int|
                    0 <= i < k ==> (#[trigger] all[i])@.ipv4() is Some && pools_inside(all[i]@),
            decreases all.len() - k,
        {
            assert(v.take(k + 1).drop_last() =~= v.take(k as int));
            assert(v.take(k + 1).last() == all[k as int]@);
            if let Err(e) = validate_network(&cfgs[k], max_lanes, resolved) {
                proof {
                    lemma_first_problem(v, max_lanes, res, k + 1);
                }
                return Err(ApiError::bad_request(e));
            }
            proof {
                law_accepted_ranges_are_disjoint(all[k as int]@, max_lanes, res);
            }
            k = k + 1;
        }
        assert(v.take(k as int) =~= v);
        let mut cfgs = cfgs;
        let mut stored = stored;
        let mut applied: Vec<Imported> = Vec::new();
        let mut i: usize = 0;
        let ghost total = all.len() as int;
        assert(total == cfgs.len());
        assert(all.skip(0) =~= all);
        assert(regs.skip(0) =~= regs);
        let ghost mut stages: Seq<NameMap<NetState>> = seq![self.networks];
        while cfgs.len() > 0
            invariant
                total == all.len(),
                total <= usize::MAX,
                0 <= i <= total,
                cfgs@ == all.skip(i as int),
                stored@ == regs.skip(i as int),
                regs.len() == total,
                v == config_views(all),
                v.len() == total,
                self.wf(),
                same_but_networks(*old(self), *self),
                self.room_for(total - i),
                now_ms + total + 3 * GEN_PERSIST_STEP <= u64::MAX,
                forall|j: int|
                    0 <= j < total ==> (#[trigger] all[j]).wf() && all[j]@.everyone().len()
                        <= usize::MAX && all[j]@.ipv4() is Some && pools_inside(all[j]@),
                forall|j: int| 0 <= j < regs.len() ==> storable(#[trigger] regs[j], total),
                applied@.len() == i,
                stages.len() == i + 1,
                stages[0] == old(self).networks,
                stages[i as int] == self.networks,
                forall|k: int|
                    0 <= k < i ==> imports(
                        stages[k],
                        stages[k + 1],
                        all[k],
                        regs[k],
                        now,
                        now_ms,
                        #[trigger] applied@[k],
                    ),
                forall|id: Seq<char>|
                    !among(v.take(i as int), id) ==> #[trigger] self.networks.at(id) == old(
                        self,
                    ).networks.at(id),
                forall|id: Seq<char>| #[trigger]
                    self.config_of(id) == imported_config(
                        old(self).config_of(id),
                        v.take(i as int),
                        id,
                    ),
                forall|id: Seq<char>| #[trigger]
                    self.records_of(id) == imported_records(
                        old(self).records_of(id),
                        v.take(i as int),
                        regs,
                        id,
                    ),
                forall|k: int|
                    0 <= k < i ==> (#[trigger] applied@[k]).network_id@ == v[k].network_id
                        && rejoins(applied@[k]) == import_rejoins(
                        imported_config(
                            old(self).config_of(v[k].network_id),
                            v.take(k),
                            v[k].network_id,
                        ),
                        imported_records(
                            old(self).records_of(v[k].network_id),
                            v.take(k),
                            regs,
                            v[k].network_id,
                        ),
                        v[k],
                    ),
            decreases cfgs.len(),
        {
            let ghost prev = *self;
            assert(cfgs@[0] == all[i as int]);
            assert(stored@[0] == regs[i as int]);
            let cfg = cfgs.remove(0);
            let reg = stored.remove(0);
            assert(cfgs@ =~= all.skip(i + 1));
            assert(stored@ =~= regs.skip(i + 1));
            let ghost left = total - i - 1;
            assert(storable(reg, left));
            let one = self.import_one(cfg, reg, now, now_ms, Ghost(left));
            proof {
                assert(v.take(i + 1).drop_last() =~= v.take(i as int));
                assert(v.take(i + 1).last() == v[i as int]);
                assert(v[i as int] == all[i as int]@);
                let me = v[i as int].network_id;
                stages = stages.push(self.networks);
                assert forall|id: Seq<char>| !among(v.take(i + 1), id) implies #[trigger] self.networks.at(
                    id,
                ) == old(self).networks.at(id) by {
                    if among(v.take(i as int), id) {
                        let k = choose|k: int|
                            0 <= k < v.take(i as int).len() && (#[trigger] v.take(
                                i as int,
                            )[k]).network_id == id;
                        assert(v.take(i + 1)[k].network_id == id);
                    }
                    if id == me {
                        assert(v.take(i + 1)[i as int].network_id == id);
                    }
                    assert(prev.networks.at(id) == old(self).networks.at(id));
                }
                assert forall|id: Seq<char>| #[trigger] self.config_of(id) == imported_config(
                    old(self).config_of(id),
                    v.take(i + 1),
                    id,
                ) by {
                    assert(prev.config_of(id) == imported_config(
                        old(self).config_of(id),
                        v.take(i as int),
                        id,
                    ));
                    if id != me {
                        assert(self.networks.at(id) == prev.networks.at(id));
                    }
                }
                assert forall|id: Seq<char>| #[trigger] self.records_of(id) == imported_records(
                    old(self).records_of(id),
                    v.take(i + 1),
                    regs,
                    id,
                ) by {
                    assert(prev.records_of(id) == imported_records(
                        old(self).records_of(id),
                        v.take(i as int),
                        regs,
                        id,
                    ));
                    if id != me {
                        assert(self.networks.at(id) == prev.networks.at(id));
                    }
                }
                assert(prev.config_of(me) == imported_config(
                    old(self).config_of(me),
                    v.take(i as int),
                    me,
                ));
                assert(prev.records_of(me) == imported_records(
                    old(self).records_of(me),
                    v.take(i as int),
                    regs,
                    me,
                ));
            }
            applied.push(one);
            i = i + 1;
        }
        assert(v.take(i as int) =~= v);
        assert(imports_in_turn(stages, all, regs, now, now_ms, applied@));
        Ok(applied)
    }
}

proof fn lemma_first_problem(
    cfgs: Seq<NetworkView>,
    max_lanes: u8,
    resolved: Seq<(Seq<char>, Seq<IpAddr>)>,
    k: int,
)
    requires
        0 <= k <= cfgs.len(),
        first_problem(cfgs.take(k), max_lanes, resolved) is Some,
    ensures
        first_problem(cfgs, max_lanes, resolved) == first_problem(
            cfgs.take(k),
            max_lanes,
            resolved,
        ),
    decreases cfgs.len(),
{
    if k == cfgs.len() {
        assert(cfgs.take(k) =~= cfgs);
    } else {
        assert(cfgs.drop_last().take(k) =~= cfgs.take(k));
        lemma_first_problem(cfgs.drop_last(), max_lanes, resolved, k);
    }
}

/// Importing the configuration that a network has leaves it as it is.
pub proof fn law_importing_an_export_changes_no_configuration(
    before: Option<NetworkView>,
    cfgs: Seq<NetworkView>,
    id: Seq<char>,
)
    requires
        forall|i: int|
            0 <= i < cfgs.len() && (#[trigger] cfgs[i]).network_id == id ==> before == Some(
                cfgs[i],
            ),
    ensures
        imported_config(before, cfgs, id) == before,
    decreases cfgs.len(),
{
    if cfgs.len() > 0 {
        let d = cfgs.drop_last();
        assert forall|i: int| 0 <= i < d.len() && (#[trigger] d[i]).network_id == id implies before
            == Some(d[i]) by {
            assert(d[i] == cfgs[i]);
        }
        law_importing_an_export_changes_no_configuration(before, d, id);
        assert(cfgs[cfgs.len() - 1] == cfgs.last());
    }
}

/// Every network is held under its own name.
pub open spec fn under_their_names(s: AppState) -> bool {
    forall|i: int|
        0 <= i < s.networks.entries@.len() ==> (#[trigger] s.networks.entries@[i]).1.cfg@.network_id
            == s.networks.entries@[i].0@
}

/// Importing what was exported changes nothing that is exported, and no
/// member's record: every id and address stays.
pub proof fn law_importing_an_export_changes_nothing(
    before: AppState,
    after: AppState,
    cfgs: Seq<NetworkConfig>,
    stored: Seq<Option<Registry>>,
    max_lanes: u8,
    resolved: Seq<(Seq<char>, Seq<IpAddr>)>,
    now: u64,
    now_ms: u64,
    r: Result<Vec<Imported>, ApiError>,
)
    requires
        before.wf(),
        after.wf(),
        under_their_names(before),
        config_views(cfgs) == before.configs(),
        imported(before, after, cfgs, stored, max_lanes, resolved, now, now_ms, r),
    ensures
        after.configs() == before.configs(),
        forall|id: Seq<char>| #[trigger] after.records_of(id) == before.records_of(id),
{
    if r is Ok {
        let v = before.configs();
        let (a, b) = (before.networks.entries@, after.networks.entries@);
        assert forall|id: Seq<char>| #[trigger] after.config_of(id) == before.config_of(id) by {
            assert forall|i: int| 0 <= i < v.len() && (#[trigger] v[i]).network_id == id implies before.config_of(
                id,
            ) == Some(v[i]) by {
                assert(a[i].0@ == id);
                lemma_named_entry(a, i);
            }
            law_importing_an_export_changes_no_configuration(before.config_of(id), v, id);
        }
        assert forall|id: Seq<char>| #[trigger] after.records_of(id) == before.records_of(id) by {
            if before.records_of(id) is Some {
                lemma_records_stay(before.records_of(id), v, stored, id);
            } else {
                assert(before.config_of(id) is None);
                assert(after.config_of(id) is None);
            }
        }
        assert forall|k: Seq<char>| #[trigger] has_name(a, k) <==> has_name(b, k) by {
            assert(after.config_of(k) == before.config_of(k));
            assert(before.networks@.dom().contains(k) <==> has_name(a, k));
            assert(after.networks@.dom().contains(k) <==> has_name(b, k));
        }
        lemma_same_names(a, b);
        assert forall|i: int| 0 <= i < a.len() implies after.configs()[i] == v[i] by {
            lemma_named_entry(a, i);
            lemma_named_entry(b, i);
            assert(after.config_of(a[i].0@) == before.config_of(a[i].0@));
        }
        assert(after.configs() =~= v);
    }
}

proof fn lemma_records_stay(
    before: Option<Seq<RecordView>>,
    cfgs: Seq<NetworkView>,
    stored: Seq<Option<Registry>>,
    id: Seq<char>,
)
    requires
        before is Some,
    ensures
        imported_records(before, cfgs, stored, id) == before,
    decreases cfgs.len(),
{
    if cfgs.len() > 0 {
        lemma_records_stay(before, cfgs.drop_last(), stored, id);
    }
}

/// An import that succeeds reports the networks in the order they were given,
/// and holds each of them as it was given last; what it did not name stays
/// whole, and the records of a network that existed are kept. One that fails
/// changes nothing.
pub proof fn law_an_import_holds_what_it_was_given(
    before: AppState,
    after: AppState,
    cfgs: Seq<NetworkConfig>,
    stored: Seq<Option<Registry>>,
    max_lanes: u8,
    resolved: Seq<(Seq<char>, Seq<IpAddr>)>,
    now: u64,
    now_ms: u64,
    r: Result<Vec<Imported>, ApiError>,
)
    requires
        imported(before, after, cfgs, stored, max_lanes, resolved, now, now_ms, r),
    ensures
        r is Err <==> first_problem(config_views(cfgs), max_lanes, resolved) is Some,
        r is Err ==> after == before,
        r matches Ok(done) ==> {
            &&& done@.len() == cfgs.len()
            &&& forall|k: int|
                0 <= k < cfgs.len() ==> (#[trigger] done@[k]).network_id@ == cfgs[k]@.network_id
            &&& forall|k: int|
                0 <= k < cfgs.len() && (forall|j: int|
                    k < j < cfgs.len() ==> (#[trigger] cfgs[j])@.network_id != cfgs[k]@.network_id)
                    ==> after.config_of((#[trigger] cfgs[k])@.network_id) == Some(cfgs[k]@)
            &&& forall|id: Seq<char>|
                (forall|k: int| 0 <= k < cfgs.len() ==> (#[trigger] cfgs[k])@.network_id != id)
                    ==> #[trigger] after.networks.at(id) == before.networks.at(id)
            &&& forall|id: Seq<char>|
                before.records_of(id) is Some ==> #[trigger] after.records_of(id)
                    == before.records_of(id)
        },
{
    if let Ok(done) = r {
        let v = config_views(cfgs);
        assert forall|k: int|
            0 <= k < cfgs.len() && (forall|j: int|
                k < j < cfgs.len() ==> (#[trigger] cfgs[j])@.network_id != cfgs[k]@.network_id)
            implies after.config_of((#[trigger] cfgs[k])@.network_id) == Some(cfgs[k]@) by {
            let id = cfgs[k]@.network_id;
            assert forall|j: int| k < j < v.len() implies (#[trigger] v[j]).network_id != id by {
                assert(v[j] == cfgs[j]@);
            }
            assert(v[k] == cfgs[k]@);
            lemma_last_wins(before.config_of(id), v, k);
            assert(after.config_of(id) == imported_config(before.config_of(id), v, id));
        }
        assert forall|k: int| 0 <= k < cfgs.len() implies (#[trigger] done@[k]).network_id@
            == cfgs[k]@.network_id by {
            assert(v[k] == cfgs[k]@);
        }
        assert forall|id: Seq<char>|
            (forall|k: int| 0 <= k < cfgs.len() ==> (#[trigger] cfgs[k])@.network_id != id)
            implies #[trigger] after.networks.at(id) == before.networks.at(id) by {
            if among(v, id) {
                let k = choose|k: int| 0 <= k < v.len() && (#[trigger] v[k]).network_id == id;
                assert(cfgs[k]@ == v[k]);
            }
        }
        assert forall|id: Seq<char>| before.records_of(id) is Some implies #[trigger] after.records_of(
            id,
        ) == before.records_of(id) by {
            lemma_records_stay(before.records_of(id), v, stored, id);
        }
    }
}

proof fn lemma_last_wins(before: Option<NetworkView>, cfgs: Seq<NetworkView>, k: int)
    requires
        0 <= k < cfgs.len(),
        forall|j: int|
            k < j < cfgs.len() ==> (#[trigger] cfgs[j]).network_id != cfgs[k].network_id,
    ensures
        imported_config(before, cfgs, cfgs[k].network_id) == Some(cfgs[k]),
    decreases cfgs.len(),
{
    if k < cfgs.len() - 1 {
        let d = cfgs.drop_last();
        assert(cfgs[cfgs.len() - 1].network_id != cfgs[k].network_id);
        assert forall|j: int| k < j < d.len() implies (#[trigger] d[j]).network_id
            != d[k].network_id by {
            assert(d[j] == cfgs[j]);
        }
        lemma_last_wins(before, d, k);
    }
}

/// Nobody has to join again for a configuration that is the one in force.
pub proof fn law_nobody_rejoins_for_the_same_configuration(c: NetworkView)
    requires
        c.wf(),
        roles_problem(c) is None,
    ensures
        changed_among(c, c.everyone()) == Seq::<Seq<char>>::empty(),
{
    assert forall|n: Seq<char>| assoc(c.clients, n) is Some implies #[trigger] assoc(c.relays, n)
        is None by {
        let i = lemma_assoc_some(c.clients, n);
        lemma_one_role(c.clients, c.relays, i);
    }
    lemma_unchanged(c, c.everyone().len() as int);
    assert(c.everyone().take(c.everyone().len() as int) =~= c.everyone());
}

proof fn lemma_one_role(
    clients: Seq<(Seq<char>, MemberView)>,
    relays: Seq<(Seq<char>, MemberView)>,
    i: int,
)
    requires
        both_roles(clients, relays) is None,
        0 <= i < clients.len(),
    ensures
        assoc(relays, clients[i].0) is None,
    decreases i,
{
    if i > 0 {
        lemma_one_role(clients.drop_first(), relays, i - 1);
    }
}

proof fn lemma_unchanged(c: NetworkView, k: int)
    requires
        c.wf(),
        0 <= k <= c.everyone().len(),
        forall|n: Seq<char>|
            assoc(c.clients, n) is Some ==> #[trigger] assoc(
                c.relays,
                n,
            ) is None,
    ensures
        changed_among(c, c.everyone().take(k)) == Seq::<Seq<char>>::empty(),
    decreases k,
{
    if k > 0 {
        let t = c.everyone().take(k);
        lemma_unchanged(c, k - 1);
        assert(t.drop_last() =~= c.everyone().take(k - 1));
        assert(t.last() == c.everyone()[k - 1]);
        let n = c.clients.len() as int;
        if k - 1 < n {
            lemma_ordered_assoc(c.clients, k - 1);
        } else {
            lemma_ordered_assoc(c.relays, k - 1 - n);
            let name = c.relays[k - 1 - n].0;
            assert(assoc(c.relays, name) is Some);
        }
    }
}

/// A configuration that is imported over another one makes those join again
/// who have joined and whose configuration became another; whoever is
/// connected stays connected, and every record stays.
pub proof fn law_an_import_reaches_whom_it_changes(
    before: NetState,
    after: NetState,
    cfg: NetworkConfig,
    now: u64,
    change: Change,
    x: Seq<char>,
)
    requires
        replaces(before, after, cfg, now, change),
    ensures
        messages(change.rejoin@).contains(x) <==> changed_among(
            before.cfg@,
            cfg@.everyone(),
        ).contains(x) && exists|k: int|
            0 <= k < before.registry@.members.len() && (#[trigger] before.registry@.members[k]).name
                == x,
        change.closed is None,
        after.cfg@ == cfg@,
        after.sessions == before.sessions,
        after.leases == before.leases,
        after.registry@.members == before.registry@.members,
{
    crate::promises::law_only_who_has_joined_is_told(
        before.registry@.members,
        changed_among(before.cfg@, cfg@.everyone()),
        x,
    );
}

} // verus!
