//! The durable record of a network: what a coordinator restart must not
//! lose.
//!
//! Records are kept in the order of their node id, the member's identity.
//! Everything else in a record is the member's latest declaration, replaced
//! by every join, or bookkeeping about it.

use vstd::prelude::*;

use crate::net::IpNet;
use crate::proto::{NodeId, Role};
use crate::text::{opt_text, str_eq};

verus! {

/// A prefix that a member registered, and when it was first granted.
///
/// The age is durable, so a restart never reshuffles owners. It is kept
/// while the prefix stays continuously declared.
#[derive(Clone, Copy, PartialEq, Eq, Structural, Debug)]
pub struct RouteReg {
    pub cidr: IpNet,
    pub first_granted_unix: u64,
}

/// What the coordinator keeps of one member.
#[derive(Debug)]
pub struct MemberRecord {
    pub node_id: NodeId,
    pub name: String,
    pub role: Role,
    /// The key and fingerprint presented at the latest join. Recorded,
    /// never judged: the next join replaces them.
    pub pubkey: Option<String>,
    pub cert_fp: Option<String>,
    pub ip4: Option<u32>,
    pub ip6: Option<u128>,
    pub routes: Vec<RouteReg>,
    /// Durable admin override.
    pub disabled: bool,
    pub created_unix: u64,
    pub last_join_unix: Option<u64>,
    pub last_join_from: Option<String>,
    /// Raised when a join presents another key or certificate than the one
    /// recorded: a different machine took over the identity.
    pub login_gen: u64,
    pub replaced_unix: Option<u64>,
    pub replaced_from: Option<String>,
}

/// The content of a [`MemberRecord`].
#[verifier::ext_equal]
pub struct RecordView {
    pub node_id: NodeId,
    pub name: Seq<char>,
    pub role: Role,
    pub pubkey: Option<Seq<char>>,
    pub cert_fp: Option<Seq<char>>,
    pub ip4: Option<u32>,
    pub ip6: Option<u128>,
    pub routes: Seq<RouteReg>,
    pub disabled: bool,
    pub created_unix: u64,
    pub last_join_unix: Option<u64>,
    pub last_join_from: Option<Seq<char>>,
    pub login_gen: u64,
    pub replaced_unix: Option<u64>,
    pub replaced_from: Option<Seq<char>>,
}

impl View for MemberRecord {
    type V = RecordView;

    open spec fn view(&self) -> RecordView {
        RecordView {
            node_id: self.node_id,
            name: self.name@,
            role: self.role,
            pubkey: opt_text(self.pubkey),
            cert_fp: opt_text(self.cert_fp),
            ip4: self.ip4,
            ip6: self.ip6,
            routes: self.routes@,
            disabled: self.disabled,
            created_unix: self.created_unix,
            last_join_unix: self.last_join_unix,
            last_join_from: opt_text(self.last_join_from),
            login_gen: self.login_gen,
            replaced_unix: self.replaced_unix,
            replaced_from: opt_text(self.replaced_from),
        }
    }
}

/// Where the next scan for a free address starts, per family. Durable, so
/// that a freed address is not reissued at once after a restart either.
#[derive(Clone, Copy, PartialEq, Eq, Structural, Debug)]
pub struct AllocCursor {
    pub ipv4: Option<u64>,
    pub ipv6: Option<u64>,
}

/// The durable state of one network.
#[derive(Debug)]
pub struct Registry {
    pub alloc_cursor: AllocCursor,
    /// The same for each pool that was drawn from.
    pub pool_cursors: Vec<(String, u64)>,
    /// Minted once at network creation, unique across trust domains.
    pub network_uuid: String,
    /// The lowest id that was never given to a member.
    pub next_node_id: NodeId,
    /// In the order of their node id.
    pub members: Vec<MemberRecord>,
    /// High-water mark for the generation of the published view.
    pub gen_hwm: u64,
}

/// How many generations may be handed out before the mark is committed
/// again. A start adds the same amount, so none is handed out twice.
pub const GEN_PERSIST_STEP: u64 = 1000;

/// The content of a list of records.
pub open spec fn record_views(v: Seq<MemberRecord>) -> Seq<RecordView> {
    v.map_values(|m: MemberRecord| m@)
}

/// The content of the cursors of the pools.
pub open spec fn cursor_views(v: Seq<(String, u64)>) -> Seq<(Seq<char>, u64)> {
    v.map_values(|e: (String, u64)| (e.0@, e.1))
}

/// Every record has a smaller id than those behind it.
pub open spec fn ids_ascend(s: Seq<RecordView>) -> bool {
    forall|i: int, j: int|
        0 <= i < j < s.len() ==> (#[trigger] s[i]).node_id < (#[trigger] s[j]).node_id
}

/// Every registered prefix is a valid one.
pub open spec fn routes_valid(s: Seq<RouteReg>) -> bool {
    forall|i: int| 0 <= i < s.len() ==> (#[trigger] s[i]).cidr.valid()
}

/// The content of a [`Registry`].
#[verifier::ext_equal]
pub struct RegistryView {
    pub alloc_cursor: AllocCursor,
    pub pool_cursors: Seq<(Seq<char>, u64)>,
    pub network_uuid: Seq<char>,
    pub next_node_id: NodeId,
    pub members: Seq<RecordView>,
    pub gen_hwm: u64,
}

/// The registry of a network that nobody joined.
pub open spec fn empty_registry(network_uuid: Seq<char>) -> RegistryView {
    RegistryView {
        alloc_cursor: AllocCursor { ipv4: None, ipv6: None },
        pool_cursors: Seq::empty(),
        network_uuid,
        next_node_id: 1,
        members: Seq::empty(),
        gen_hwm: 0,
    }
}

impl View for Registry {
    type V = RegistryView;

    open spec fn view(&self) -> RegistryView {
        RegistryView {
            alloc_cursor: self.alloc_cursor,
            pool_cursors: cursor_views(self.pool_cursors@),
            network_uuid: self.network_uuid@,
            next_node_id: self.next_node_id,
            members: record_views(self.members@),
            gen_hwm: self.gen_hwm,
        }
    }
}

impl RegistryView {
    /// Records are in order, their prefixes are valid, and no record has an
    /// id that has not been given out (the highest id of all excepted, for
    /// which there is no next one).
    pub open spec fn wf(self) -> bool {
        &&& ids_ascend(self.members)
        &&& forall|i: int|
            0 <= i < self.members.len() ==> routes_valid((#[trigger] self.members[i]).routes)
        &&& forall|i: int|
            0 <= i < self.members.len() ==> (#[trigger] self.members[i]).node_id
                < self.next_node_id || self.next_node_id == u32::MAX
    }

    /// The registry once generation `gen` was handed out: the mark is moved
    /// ahead where it was reached.
    pub open spec fn noted(self, gen: u64) -> RegistryView {
        RegistryView {
            gen_hwm: if gen >= self.gen_hwm {
                (gen + GEN_PERSIST_STEP) as u64
            } else {
                self.gen_hwm
            },
            ..self
        }
    }
}

/// The position of the first record with this name.
pub open spec fn name_index(s: Seq<RecordView>, name: Seq<char>) -> Option<int>
    decreases s.len(),
{
    if s.len() == 0 {
        None
    } else {
        match name_index(s.drop_last(), name) {
            Some(i) => Some(i),
            None => if s.last().name == name {
                Some(s.len() - 1)
            } else {
                None
            },
        }
    }
}

/// The position of the record with this id.
pub open spec fn id_index(s: Seq<RecordView>, id: NodeId) -> Option<int>
    decreases s.len(),
{
    if s.len() == 0 {
        None
    } else {
        match id_index(s.drop_last(), id) {
            Some(i) => Some(i),
            None => if s.last().node_id == id {
                Some(s.len() - 1)
            } else {
                None
            },
        }
    }
}

/// The record with this name.
pub open spec fn named(s: Seq<RecordView>, name: Seq<char>) -> Option<RecordView> {
    match name_index(s, name) {
        Some(i) => Some(s[i]),
        None => None,
    }
}

/// The record with this id.
pub open spec fn with_id(s: Seq<RecordView>, id: NodeId) -> Option<RecordView> {
    match id_index(s, id) {
        Some(i) => Some(s[i]),
        None => None,
    }
}

/// [`name_index`] finds the first record of that name, and finds one if
/// there is one.
pub proof fn lemma_name_index(s: Seq<RecordView>, name: Seq<char>)
    ensures
        match name_index(s, name) {
            Some(i) => 0 <= i < s.len() && s[i].name == name && forall|j: int|
                0 <= j < i ==> (#[trigger] s[j]).name != name,
            None => forall|j: int| 0 <= j < s.len() ==> (#[trigger] s[j]).name != name,
        },
    decreases s.len(),
{
    if s.len() > 0 {
        let d = s.drop_last();
        lemma_name_index(d, name);
        assert forall|j: int| 0 <= j < d.len() implies d[j] == #[trigger] s[j] by {}
    }
}

/// [`id_index`] finds the record with that id, if there is one.
pub proof fn lemma_id_index(s: Seq<RecordView>, id: NodeId)
    ensures
        match id_index(s, id) {
            Some(i) => 0 <= i < s.len() && s[i].node_id == id && forall|j: int|
                0 <= j < i ==> (#[trigger] s[j]).node_id != id,
            None => forall|j: int| 0 <= j < s.len() ==> (#[trigger] s[j]).node_id != id,
        },
    decreases s.len(),
{
    if s.len() > 0 {
        let d = s.drop_last();
        lemma_id_index(d, id);
        assert forall|j: int| 0 <= j < d.len() implies d[j] == #[trigger] s[j] by {}
    }
}

/// The first match fixes [`name_index`].
pub proof fn lemma_name_index_is(s: Seq<RecordView>, name: Seq<char>, i: int)
    requires
        0 <= i < s.len(),
        s[i].name == name,
        forall|j: int| 0 <= j < i ==> (#[trigger] s[j]).name != name,
    ensures
        name_index(s, name) == Some(i),
{
    lemma_name_index(s, name);
}

/// The first match fixes [`id_index`].
pub proof fn lemma_id_index_is(s: Seq<RecordView>, id: NodeId, i: int)
    requires
        0 <= i < s.len(),
        s[i].node_id == id,
        ids_ascend(s),
    ensures
        id_index(s, id) == Some(i),
{
    lemma_id_index(s, id);
}

/// How many records come before the place of `id`.
pub open spec fn id_rank(s: Seq<RecordView>, id: NodeId) -> int
    decreases s.len(),
{
    if s.len() == 0 {
        0
    } else if s.last().node_id < id {
        s.len() as int
    } else {
        id_rank(s.drop_last(), id)
    }
}

pub proof fn lemma_id_rank(s: Seq<RecordView>, id: NodeId)
    requires
        ids_ascend(s),
    ensures
        0 <= id_rank(s, id) <= s.len(),
        forall|j: int| 0 <= j < id_rank(s, id) ==> (#[trigger] s[j]).node_id < id,
        forall|j: int| id_rank(s, id) <= j < s.len() ==> id <= (#[trigger] s[j]).node_id,
    decreases s.len(),
{
    if s.len() > 0 && s.last().node_id >= id {
        let d = s.drop_last();
        assert forall|j: int| 0 <= j < d.len() implies d[j] == #[trigger] s[j] by {}
        lemma_id_rank(d, id);
    }
}

/// A record for a member that never joined.
pub open spec fn new_record(id: NodeId, name: Seq<char>, role: Role, now: u64) -> RecordView {
    RecordView {
        node_id: id,
        name,
        role,
        pubkey: None,
        cert_fp: None,
        ip4: None,
        ip6: None,
        routes: Seq::empty(),
        disabled: false,
        created_unix: now,
        last_join_unix: None,
        last_join_from: None,
        login_gen: 0,
        replaced_unix: None,
        replaced_from: None,
    }
}

impl RegistryView {
    /// The record that a member's declaration starts from: the one it has,
    /// under its present name and role, or a new one.
    pub open spec fn entry(self, id: NodeId, name: Seq<char>, role: Role, now: u64) -> RecordView {
        match with_id(self.members, id) {
            Some(rec) => RecordView { name, role, ..rec },
            None => new_record(id, name, role, now),
        }
    }

    /// The registry with `rec` in the place of the record with id `id`.
    pub open spec fn put(self, id: NodeId, rec: RecordView) -> RegistryView {
        RegistryView {
            members: match id_index(self.members, id) {
                Some(i) => self.members.update(i, rec),
                None => self.members.insert(id_rank(self.members, id), rec),
            },
            ..self
        }
    }

    /// The registry after an id was given out.
    pub open spec fn note_id(self, id: NodeId) -> RegistryView {
        let after = if id == u32::MAX {
            id
        } else {
            (id + 1) as NodeId
        };
        RegistryView {
            next_node_id: if self.next_node_id >= after {
                self.next_node_id
            } else {
                after
            },
            ..self
        }
    }

    /// The id that a member of this name has, or would be given.
    pub open spec fn id_for(self, name: Seq<char>) -> NodeId {
        match named(self.members, name) {
            Some(rec) => rec.node_id,
            None => if self.next_node_id == 0 {
                1
            } else {
                self.next_node_id
            },
        }
    }
}

/// Replacing a record, or adding one under an id that was just given out,
/// keeps the registry well formed.
pub proof fn lemma_put_wf(r: RegistryView, id: NodeId, rec: RecordView)
    requires
        r.wf(),
        rec.node_id == id,
        routes_valid(rec.routes),
    ensures
        r.put(id, rec).note_id(id).wf(),
        with_id(r.put(id, rec).members, id) == Some(rec),
        forall|other: NodeId|
            other != id ==> #[trigger] with_id(r.put(id, rec).members, other) == with_id(
                r.members,
                other,
            ),
{
    let s = r.members;
    let t = r.put(id, rec).members;
    lemma_id_index(s, id);
    match id_index(s, id) {
        Some(i) => {
            assert(ids_ascend(t));
            lemma_id_index_is(t, id, i);
            assert forall|other: NodeId| other != id implies #[trigger] with_id(t, other)
                == with_id(s, other) by {
                lemma_id_index(s, other);
                if let Some(j) = id_index(s, other) {
                    lemma_id_index_is(t, other, j);
                } else {
                    lemma_id_index(t, other);
                    if let Some(j) = id_index(t, other) {
                        assert(s[j].node_id == other);
                    }
                }
            }
        },
        None => {
            let k = id_rank(s, id);
            lemma_id_rank(s, id);
            assert forall|i: int, j: int| 0 <= i < j < t.len() implies (#[trigger] t[i]).node_id
                < (#[trigger] t[j]).node_id by {
                let a = if i < k { i } else { i - 1 };
                let b = if j < k { j } else { j - 1 };
                if i != k && j != k {
                    assert(t[i] == s[a] && t[j] == s[b]);
                } else if i == k {
                    assert(t[j] == s[b]);
                } else {
                    assert(t[i] == s[a]);
                }
            }
            assert(t[k] == rec);
            lemma_id_index_is(t, id, k);
            assert forall|i: int| 0 <= i < t.len() implies routes_valid((#[trigger] t[i]).routes) by {
                if i < k {
                    assert(t[i] == s[i]);
                } else if i > k {
                    assert(t[i] == s[i - 1]);
                }
            }
            assert forall|i: int| 0 <= i < t.len() implies (#[trigger] t[i]).node_id < r.put(
                id,
                rec,
            ).note_id(id).next_node_id || r.put(id, rec).note_id(id).next_node_id == u32::MAX by {
                if i < k {
                    assert(t[i] == s[i]);
                } else if i > k {
                    assert(t[i] == s[i - 1]);
                }
            }
            assert forall|other: NodeId| other != id implies #[trigger] with_id(t, other)
                == with_id(s, other) by {
                lemma_id_index(s, other);
                if let Some(j) = id_index(s, other) {
                    let m = if j < k { j } else { j + 1 };
                    assert(t[m] == s[j]);
                    lemma_id_index_is(t, other, m);
                } else {
                    lemma_id_index(t, other);
                    if let Some(j) = id_index(t, other) {
                        let m = if j < k { j } else { j - 1 };
                        assert(j != k);
                        assert(s[m] == t[j]);
                    }
                }
            }
        },
    }
}

/// `uuid::Uuid::new_v4` in its hyphenated text form. The value is random;
/// the form always has 36 characters. Where the operating system hands out
/// no randomness, the call panics.
#[verifier::external_body]
fn mint_uuid() -> (r: String)
    ensures
        r@.len() == 36,
{
    uuid::Uuid::new_v4().to_string()
}

impl MemberRecord {
    /// A record for a member that never joined.
    fn fresh(id: NodeId, name: &str, role: Role, now: u64) -> (r: MemberRecord)
        ensures
            r@ == new_record(id, name@, role, now),
    {
        MemberRecord {
            node_id: id,
            name: name.to_owned(),
            role,
            pubkey: None,
            cert_fp: None,
            ip4: None,
            ip6: None,
            routes: Vec::new(),
            disabled: false,
            created_unix: now,
            last_join_unix: None,
            last_join_from: None,
            login_gen: 0,
            replaced_unix: None,
            replaced_from: None,
        }
    }
}

impl Registry {
    /// An empty registry for a network that is being created.
    pub fn new() -> (r: Registry)
        ensures
            r@.wf(),
            r@ == empty_registry(r@.network_uuid),
            r@.network_uuid.len() == 36,
    {
        Registry::with_uuid(mint_uuid())
    }

    /// An empty registry under a given identity.
    pub fn with_uuid(network_uuid: String) -> (r: Registry)
        ensures
            r@.wf(),
            r@ == empty_registry(network_uuid@),
    {
        let members: Vec<MemberRecord> = Vec::new();
        let pool_cursors: Vec<(String, u64)> = Vec::new();
        assert(record_views(members@) =~= Seq::empty());
        assert(cursor_views(pool_cursors@) =~= Seq::empty());
        Registry {
            alloc_cursor: AllocCursor { ipv4: None, ipv6: None },
            pool_cursors,
            network_uuid,
            next_node_id: 1,
            members,
            gen_hwm: 0,
        }
    }

    /// Whether a registry that was stored can be used: its ids ascend, its
    /// prefixes are valid and its next id is free.
    pub fn is_well_formed(&self) -> (r: bool)
        ensures
            r == self@.wf(),
    {
        let ghost v = self@.members;
        assert(v.len() == self.members@.len());
        let mut i: usize = 0;
        while i < self.members.len()
            invariant
                i <= self.members@.len(),
                v == self@.members,
                v.len() == self.members@.len(),
                ids_ascend(v.take(i as int)),
                forall|k: int| 0 <= k < i ==> routes_valid((#[trigger] v[k]).routes),
                forall|k: int|
                    0 <= k < i ==> (#[trigger] v[k]).node_id < self.next_node_id
                        || self.next_node_id == u32::MAX,
            decreases self.members.len() - i,
        {
            let rec = &self.members[i];
            assert(v[i as int] == rec@);
            if i > 0 && self.members[i - 1].node_id >= rec.node_id {
                assert(v[i - 1] == self.members@[i - 1]@);
                return false;
            }
            if rec.node_id >= self.next_node_id && self.next_node_id != u32::MAX {
                return false;
            }
            let mut k: usize = 0;
            while k < rec.routes.len()
                invariant
                    k <= rec.routes@.len(),
                    i < self.members@.len(),
                    rec == self.members@[i as int],
                    v == self@.members,
                    v[i as int] == rec@,
                    v.len() == self.members@.len(),
                    forall|q: int| 0 <= q < k ==> (#[trigger] rec.routes@[q]).cidr.valid(),
                decreases rec.routes.len() - k,
            {
                if !rec.routes[k].cidr.is_valid() {
                    assert(!v[i as int].routes[k as int].cidr.valid());
                    return false;
                }
                k = k + 1;
            }
            proof {
                let t = v.take(i + 1);
                assert forall|a: int, b: int| 0 <= a < b < t.len() implies (#[trigger] t[a]).node_id
                    < (#[trigger] t[b]).node_id by {
                    if b < i {
                        assert(v.take(i as int)[a] == t[a]);
                        assert(v.take(i as int)[b] == t[b]);
                    } else if a < i - 1 {
                        assert(v.take(i as int)[a] == t[a]);
                        assert(v.take(i as int)[i - 1] == v[i - 1]);
                        assert(v[i - 1] == self.members@[i - 1]@);
                    } else {
                        assert(v[i - 1] == self.members@[i - 1]@);
                    }
                }
            }
            i = i + 1;
        }
        assert(v.take(i as int) =~= v);
        true
    }

    /// The first generation that a fresh process may use.
    pub fn initial_gen(&self, now_ms: u64) -> (r: u64)
        requires
            self.gen_hwm + GEN_PERSIST_STEP <= u64::MAX,
        ensures
            r == if now_ms >= self.gen_hwm + GEN_PERSIST_STEP {
                now_ms as int
            } else {
                self.gen_hwm + GEN_PERSIST_STEP
            },
            r > self.gen_hwm,
    {
        let floor = self.gen_hwm + GEN_PERSIST_STEP;
        if now_ms >= floor {
            now_ms
        } else {
            floor
        }
    }

    /// Record that `gen` was handed out. Returns true when the caller must
    /// commit, because the persisted mark was reached.
    pub fn note_gen(&mut self, gen: u64) -> (r: bool)
        requires
            gen + GEN_PERSIST_STEP <= u64::MAX,
        ensures
            r == (gen >= old(self).gen_hwm),
            final(self)@ == old(self)@.noted(gen),
            final(self).gen_hwm > gen,
            final(self).gen_hwm >= old(self).gen_hwm,
            final(self).members == old(self).members,
    {
        if gen >= self.gen_hwm {
            self.gen_hwm = gen + GEN_PERSIST_STEP;
            return true;
        }
        false
    }

    /// The position of the record with this name.
    pub fn index_of_name(&self, name: &str) -> (r: Option<usize>)
        ensures
            match r {
                Some(i) => name_index(self@.members, name@) == Some(i as int) && i
                    < self.members.len(),
                None => name_index(self@.members, name@) is None,
            },
    {
        let ghost s = self@.members;
        let mut i: usize = 0;
        while i < self.members.len()
            invariant
                i <= self.members.len(),
                s == self@.members,
                s.len() == self.members.len(),
                forall|j: int| 0 <= j < i ==> (#[trigger] s[j]).name != name@,
            decreases self.members.len() - i,
        {
            assert(s[i as int] == self.members@[i as int]@);
            if str_eq(self.members[i].name.as_str(), name) {
                proof {
                    lemma_name_index_is(s, name@, i as int);
                }
                return Some(i);
            }
            i = i + 1;
        }
        proof {
            lemma_name_index(s, name@);
        }
        None
    }

    /// The position of the record with this id.
    pub fn index_of_id(&self, id: NodeId) -> (r: Option<usize>)
        ensures
            match r {
                Some(i) => id_index(self@.members, id) == Some(i as int) && i < self.members.len(),
                None => id_index(self@.members, id) is None,
            },
    {
        let ghost s = self@.members;
        let mut i: usize = 0;
        while i < self.members.len()
            invariant
                i <= self.members.len(),
                s == self@.members,
                s.len() == self.members.len(),
                forall|j: int| 0 <= j < i ==> (#[trigger] s[j]).node_id != id,
            decreases self.members.len() - i,
        {
            assert(s[i as int] == self.members@[i as int]@);
            if self.members[i].node_id == id {
                proof {
                    lemma_id_index(s, id);
                }
                return Some(i);
            }
            i = i + 1;
        }
        proof {
            lemma_id_index(s, id);
        }
        None
    }

    /// The record for a name, if the member ever joined.
    pub fn by_name(&self, name: &str) -> (r: Option<&MemberRecord>)
        ensures
            match r {
                Some(m) => named(self@.members, name@) == Some(m@),
                None => named(self@.members, name@) is None,
            },
    {
        match self.index_of_name(name) {
            Some(i) => Some(&self.members[i]),
            None => None,
        }
    }

    /// The record for an id.
    pub fn by_id(&self, id: NodeId) -> (r: Option<&MemberRecord>)
        ensures
            match r {
                Some(m) => with_id(self@.members, id) == Some(m@),
                None => with_id(self@.members, id) is None,
            },
    {
        match self.index_of_id(id) {
            Some(i) => Some(&self.members[i]),
            None => None,
        }
    }

    /// The id that a name was given, if the member ever joined.
    pub fn id_of(&self, name: &str) -> (r: Option<NodeId>)
        ensures
            r == match named(self@.members, name@) {
                Some(rec) => Some(rec.node_id),
                None => None,
            },
    {
        match self.by_name(name) {
            Some(m) => Some(m.node_id),
            None => None,
        }
    }

    /// The place of `id` among the records.
    fn rank_of(&self, id: NodeId) -> (r: usize)
        ensures
            r as int == id_rank(self@.members, id),
            r <= self.members.len(),
    {
        let ghost s = self@.members;
        let mut i: usize = self.members.len();
        assert(s.take(i as int) =~= s);
        while i > 0 && self.members[i - 1].node_id >= id
            invariant
                i <= self.members.len(),
                s == self@.members,
                s.len() == self.members.len(),
                id_rank(s, id) == id_rank(s.take(i as int), id),
            decreases i,
        {
            assert(s.take(i as int).last() == self.members@[i - 1]@);
            assert(s.take(i as int).drop_last() =~= s.take(i - 1));
            i = i - 1;
        }
        if i > 0 {
            assert(s.take(i as int).last() == self.members@[i - 1]@);
        }
        i
    }

    /// Get or create the record for a member by its identity.
    ///
    /// The record takes the given name and role; the caller may change the
    /// rest of it through the reference.
    pub fn member_mut(&mut self, id: NodeId, name: &str, role: Role, now: u64) -> (r:
        &mut MemberRecord)
        requires
            old(self)@.wf(),
        ensures
            r@ == old(self)@.entry(id, name@, role, now),
            final(self)@ == old(self)@.put(id, final(r)@).note_id(id),
    {
        let i = match self.index_of_id(id) {
            Some(i) => {
                self.members[i].name = name.to_owned();
                self.members[i].role = role;
                i
            },
            None => {
                let k = self.rank_of(id);
                let rec = MemberRecord::fresh(id, name, role, now);
                self.members.insert(k, rec);
                k
            },
        };
        let after: NodeId = if id == u32::MAX {
            id
        } else {
            id + 1
        };
        if self.next_node_id < after {
            self.next_node_id = after;
        }
        proof {
            let ghost before = old(self)@;
            lemma_id_index(before.members, id);
            lemma_id_rank(before.members, id);
            let s = self.members@;
            assert forall|x: MemberRecord| #[trigger] record_views(s.update(i as int, x))
                =~= before.put(id, x@).members by {}
            assert(s[i as int]@ =~= before.entry(id, name@, role, now));
        }
        &mut self.members[i]
    }

    /// Get or create the record for a name.
    ///
    /// A new member gets the next id that was never given out; a name keeps
    /// its id for as long as the record exists.
    pub fn member_by_name_mut(&mut self, name: &str, role: Role, now: u64) -> (r: &mut MemberRecord)
        requires
            old(self)@.wf(),
            named(old(self)@.members, name@) is None ==> old(self)@.next_node_id < u32::MAX,
        ensures
            r@ == old(self)@.entry(old(self)@.id_for(name@), name@, role, now),
            final(self)@ == old(self)@.put(old(self)@.id_for(name@), final(r)@).note_id(
                old(self)@.id_for(name@),
            ),
    {
        let id = match self.id_of(name) {
            Some(id) => id,
            None => {
                // Every id in use is below the next one, so this one is free.
                if self.next_node_id == 0 {
                    1
                } else {
                    self.next_node_id
                }
            },
        };
        self.member_mut(id, name, role, now)
    }

    /// Forget the record with this id.
    pub fn remove_member(&mut self, id: NodeId) -> (r: bool)
        ensures
            r == (id_index(old(self)@.members, id) is Some),
            final(self)@ == old(self)@.without(id),
            old(self)@.wf() ==> final(self)@.wf(),
    {
        match self.index_of_id(id) {
            Some(i) => {
                self.members.remove(i);
                proof {
                    lemma_id_index(old(self)@.members, id);
                    assert(self@.members =~= old(self)@.members.remove(i as int));
                    let s = old(self)@.members;
                    let t = self@.members;
                    assert forall|j: int| 0 <= j < t.len() implies (#[trigger] t[j]) == s[if j < i {
                        j
                    } else {
                        j + 1
                    }] by {}
                }
                true
            },
            None => false,
        }
    }

    /// The IPv4 addresses that are assigned, in the order of the records.
    pub fn assigned4(&self) -> (r: Vec<u32>)
        ensures
            r@ == addresses4(self@.members),
    {
        let mut out: Vec<u32> = Vec::new();
        let mut i: usize = 0;
        while i < self.members.len()
            invariant
                i <= self.members.len(),
                out@ == addresses4(self@.members.take(i as int)),
            decreases self.members.len() - i,
        {
            assert(self@.members.take(i + 1).drop_last() =~= self@.members.take(i as int));
            assert(self@.members[i as int] == self.members@[i as int]@);
            if let Some(ip) = self.members[i].ip4 {
                out.push(ip);
            }
            i = i + 1;
        }
        assert(self@.members.take(i as int) =~= self@.members);
        out
    }

    /// The IPv6 addresses that are assigned, in the order of the records.
    pub fn assigned6(&self) -> (r: Vec<u128>)
        ensures
            r@ == addresses6(self@.members),
    {
        let mut out: Vec<u128> = Vec::new();
        let mut i: usize = 0;
        while i < self.members.len()
            invariant
                i <= self.members.len(),
                out@ == addresses6(self@.members.take(i as int)),
            decreases self.members.len() - i,
        {
            assert(self@.members.take(i + 1).drop_last() =~= self@.members.take(i as int));
            assert(self@.members[i as int] == self.members@[i as int]@);
            if let Some(ip) = self.members[i].ip6 {
                out.push(ip);
            }
            i = i + 1;
        }
        assert(self@.members.take(i as int) =~= self@.members);
        out
    }
}

impl RegistryView {
    /// The registry without the record with this id.
    pub open spec fn without(self, id: NodeId) -> RegistryView {
        RegistryView {
            members: match id_index(self.members, id) {
                Some(i) => self.members.remove(i),
                None => self.members,
            },
            ..self
        }
    }
}

/// The IPv4 addresses of the records, in order.
pub open spec fn addresses4(s: Seq<RecordView>) -> Seq<u32>
    decreases s.len(),
{
    if s.len() == 0 {
        Seq::empty()
    } else {
        match s.last().ip4 {
            Some(ip) => addresses4(s.drop_last()).push(ip),
            None => addresses4(s.drop_last()),
        }
    }
}

/// The IPv6 addresses of the records, in order.
pub open spec fn addresses6(s: Seq<RecordView>) -> Seq<u128>
    decreases s.len(),
{
    if s.len() == 0 {
        Seq::empty()
    } else {
        match s.last().ip6 {
            Some(ip) => addresses6(s.drop_last()).push(ip),
            None => addresses6(s.drop_last()),
        }
    }
}

/// Ids are never reused: a member that is new to the registry gets an id
/// that no record has, not lower than the lowest one never given out; and
/// what was given out before stays given out, whatever is removed.
pub proof fn law_ids_are_never_reused(r: RegistryView, name: Seq<char>, rec: RecordView, gone: NodeId)
    requires
        r.wf(),
        r.next_node_id < u32::MAX,
        named(r.members, name) is None,
        rec.node_id == r.id_for(name),
    ensures
        r.id_for(name) >= r.next_node_id,
        r.id_for(name) != 0,
        with_id(r.members, r.id_for(name)) is None,
        r.put(r.id_for(name), rec).note_id(r.id_for(name)).next_node_id > r.id_for(name),
        r.without(gone).next_node_id == r.next_node_id,
        r.without(gone).id_for(name) == r.id_for(name),
{
    lemma_id_index(r.members, r.id_for(name));
    let w = r.without(gone).members;
    lemma_id_index(r.members, gone);
    lemma_name_index(r.members, name);
    lemma_name_index(w, name);
    if let Some(i) = name_index(w, name) {
        let k = id_index(r.members, gone);
        match k {
            Some(k) => {
                assert(w[i] == r.members[if i < k { i } else { i + 1 }]);
            },
            None => {},
        }
    }
}

/// A name keeps its id: once a record holds the name, asking for the name
/// again gives the same id.
pub proof fn law_a_name_keeps_its_id(r: RegistryView, name: Seq<char>, rec: RecordView)
    requires
        r.wf(),
        named(r.members, name) is None ==> r.next_node_id < u32::MAX,
        rec.node_id == r.id_for(name),
        rec.name == name,
        routes_valid(rec.routes),
    ensures
        r.put(r.id_for(name), rec).note_id(r.id_for(name)).id_for(name) == r.id_for(name),
{
    let id = r.id_for(name);
    let t = r.put(id, rec).members;
    lemma_put_wf(r, id, rec);
    lemma_name_index(r.members, name);
    lemma_id_index(r.members, id);
    match name_index(r.members, name) {
        Some(i) => {
            lemma_id_index_is(r.members, id, i);
            lemma_name_index_is(t, name, i);
        },
        None => {
            let k = id_rank(r.members, id);
            lemma_id_rank(r.members, id);
            assert(t[k] == rec);
            assert forall|j: int| 0 <= j < k implies (#[trigger] t[j]).name != name by {
                assert(t[j] == r.members[j]);
            }
            lemma_name_index_is(t, name, k);
        },
    }
}

/// No generation is handed out twice across a restart: whatever was handed
/// out and noted before, a process that starts later begins above it.
pub proof fn law_generations_survive_a_restart(hwm: u64, handed_out: u64, now_ms: u64, first: u64)
    requires
        handed_out < hwm,
        hwm + GEN_PERSIST_STEP <= u64::MAX,
        first == if now_ms >= hwm + GEN_PERSIST_STEP {
            now_ms as int
        } else {
            hwm + GEN_PERSIST_STEP
        },
    ensures
        first > handed_out,
        first > hwm,
{
}

} // verus!
