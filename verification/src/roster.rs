//! Editing a configuration: members come, change and go.

use vstd::prelude::*;

use crate::config::{
    assoc, lemma_assoc_none, member_views, members_wf, ordered, pool_views, MemberCfg, MemberView,
    NetworkConfig, NetworkView, PoolCfg,
};
use crate::namemap::{with_name, without_name, NameMap};
use crate::proto::{copy_nets, Role};
use crate::text::{lemma_text_irreflexive, lemma_text_transitive, text_before};

verus! {

/// A list in order with `v` under `name`.
pub open spec fn with_entry<T>(s: Seq<(Seq<char>, T)>, name: Seq<char>, v: T) -> Seq<
    (Seq<char>, T),
>
    decreases s.len(),
{
    if s.len() == 0 || text_before(s.last().0, name) {
        s.push((name, v))
    } else if s.last().0 == name {
        s.drop_last().push((name, v))
    } else {
        with_entry(s.drop_last(), name, v).push(s.last())
    }
}

/// A list without what stands under `name`.
pub open spec fn without_entry<T>(s: Seq<(Seq<char>, T)>, name: Seq<char>) -> Seq<(Seq<char>, T)>
    decreases s.len(),
{
    if s.len() == 0 {
        s
    } else if s.last().0 == name {
        without_entry(s.drop_last(), name)
    } else {
        without_entry(s.drop_last(), name).push(s.last())
    }
}

impl NetworkView {
    /// The configuration with a member set.
    pub open spec fn with_member(self, name: Seq<char>, role: Role, m: MemberView) -> NetworkView {
        match role {
            Role::Client => NetworkView {
                clients: with_entry(self.clients, name, m),
                ..self
            },
            Role::Relay => NetworkView { relays: with_entry(self.relays, name, m), ..self },
        }
    }

    /// The configuration without a member.
    pub open spec fn without_member(self, name: Seq<char>) -> NetworkView {
        NetworkView {
            clients: without_entry(self.clients, name),
            relays: without_entry(self.relays, name),
            ..self
        }
    }
}

proof fn lemma_views_with(s: Seq<(String, MemberCfg)>, k: String, m: MemberCfg)
    ensures
        member_views(with_name(s, k, m)) == with_entry(member_views(s), k@, m@),
    decreases s.len(),
{
    let v = member_views(s);
    if s.len() == 0 || text_before(s.last().0@, k@) {
        assert(member_views(s.push((k, m))) =~= v.push((k@, m@)));
    } else if s.last().0@ == k@ {
        assert(member_views(s.drop_last().push((k, m))) =~= v.drop_last().push((k@, m@)));
    } else {
        lemma_views_with(s.drop_last(), k, m);
        assert(member_views(s.drop_last()) =~= v.drop_last());
        assert(member_views(with_name(s.drop_last(), k, m).push(s.last())) =~= member_views(
            with_name(s.drop_last(), k, m),
        ).push(v.last()));
    }
}

proof fn lemma_views_without(s: Seq<(String, MemberCfg)>, k: Seq<char>)
    ensures
        member_views(without_name(s, k)) == without_entry(member_views(s), k),
    decreases s.len(),
{
    let v = member_views(s);
    if s.len() == 0 {
        assert(v =~= Seq::empty());
        assert(member_views(without_name(s, k)) =~= v);
    } else {
        lemma_views_without(s.drop_last(), k);
        assert(member_views(s.drop_last()) =~= v.drop_last());
        if s.last().0@ != k {
            assert(member_views(without_name(s.drop_last(), k).push(s.last())) =~= member_views(
                without_name(s.drop_last(), k),
            ).push(v.last()));
        }
    }
}

/// Setting a member keeps the members well formed, and adds at most one.
pub proof fn lemma_with_entry_wf(s: Seq<(Seq<char>, MemberView)>, name: Seq<char>, m: MemberView)
    requires
        members_wf(s),
        m.wf(),
    ensures
        members_wf(with_entry(s, name, m)),
        s.len() <= with_entry(s, name, m).len() <= s.len() + 1,
    decreases s.len(),
{
    let t = with_entry(s, name, m);
    if s.len() > 0 && !text_before(s.last().0, name) {
        let d = s.drop_last();
        assert forall|i: int| 0 <= i < d.len() implies (#[trigger] d[i]).1.wf() by {
            assert(d[i] == s[i]);
        }
        if s.last().0 == name {
            assert forall|i: int| 0 <= i < t.len() implies (#[trigger] t[i]).1.wf() by {
                if i < d.len() {
                    assert(t[i] == d[i]);
                }
            }
        } else {
            lemma_with_entry_wf(d, name, m);
            let u = with_entry(d, name, m);
            assert forall|i: int| 0 <= i < t.len() implies (#[trigger] t[i]).1.wf() by {
                if i < u.len() {
                    assert(t[i] == u[i]);
                } else {
                    assert(t[i] == s[s.len() - 1]);
                }
            }
        }
    } else {
        assert forall|i: int| 0 <= i < t.len() implies (#[trigger] t[i]).1.wf() by {
            if i < s.len() {
                assert(t[i] == s[i]);
            }
        }
    }
}

proof fn lemma_without_entry_wf(s: Seq<(Seq<char>, MemberView)>, name: Seq<char>)
    requires
        members_wf(s),
    ensures
        members_wf(without_entry(s, name)),
        without_entry(s, name).len() <= s.len(),
    decreases s.len(),
{
    if s.len() > 0 {
        let d = s.drop_last();
        assert forall|i: int| 0 <= i < d.len() implies (#[trigger] d[i]).1.wf() by {
            assert(d[i] == s[i]);
        }
        lemma_without_entry_wf(d, name);
        let u = without_entry(d, name);
        let t = without_entry(s, name);
        assert forall|i: int| 0 <= i < t.len() implies (#[trigger] t[i]).1.wf() by {
            if i < u.len() {
                assert(t[i] == u[i]);
            } else {
                assert(t[i] == s[s.len() - 1]);
            }
        }
    }
}

/// What is set under a name is found there, and everything else is as it was.
pub proof fn law_setting_an_entry_changes_it_alone<T>(
    s: Seq<(Seq<char>, T)>,
    name: Seq<char>,
    v: T,
    other: Seq<char>,
)
    requires
        ordered(s),
    ensures
        assoc(with_entry(s, name, v), other) == if other == name {
            Some(v)
        } else {
            assoc(s, other)
        },
    decreases s.len(),
{
    reveal_with_fuel(assoc, 2);
    let t = with_entry(s, name, v);
    lemma_text_irreflexive(name);
    if s.len() == 0 || text_before(s.last().0, name) {
        assert(t.drop_last() =~= s);
        assert forall|j: int| 0 <= j < s.len() implies (#[trigger] s[j]).0 != name by {
            if j < s.len() - 1 {
                assert(text_before(s[j].0, s[s.len() - 1].0));
                lemma_text_transitive(s[j].0, s[s.len() - 1].0, name);
            }
        }
        lemma_assoc_none(s, name);
    } else {
        let d = s.drop_last();
        assert(ordered(d)) by {
            assert forall|i: int, j: int| 0 <= i < j < d.len() implies text_before(
                (#[trigger] d[i]).0,
                (#[trigger] d[j]).0,
            ) by {
                assert(d[i] == s[i] && d[j] == s[j]);
            }
        }
        if s.last().0 == name {
            assert(t.drop_last() =~= d);
            assert forall|j: int| 0 <= j < d.len() implies (#[trigger] d[j]).0 != name by {
                assert(text_before(s[j].0, s[s.len() - 1].0));
            }
            lemma_assoc_none(d, name);
        } else {
            law_setting_an_entry_changes_it_alone(d, name, v, other);
            assert(t.drop_last() =~= with_entry(d, name, v));
        }
    }
}

/// What is taken out of a list is not found in it, and everything else is as
/// it was.
pub proof fn law_removing_an_entry_changes_it_alone<T>(
    s: Seq<(Seq<char>, T)>,
    name: Seq<char>,
    other: Seq<char>,
)
    ensures
        assoc(without_entry(s, name), other) == if other == name {
            None
        } else {
            assoc(s, other)
        },
    decreases s.len(),
{
    reveal_with_fuel(assoc, 2);
    if s.len() > 0 {
        let d = s.drop_last();
        law_removing_an_entry_changes_it_alone(d, name, other);
        if s.last().0 != name {
            assert(without_entry(s, name).drop_last() =~= without_entry(d, name));
        }
    }
}

fn copy_members(m: &NameMap<MemberCfg>) -> (r: NameMap<MemberCfg>)
    ensures
        member_views(r.entries@) == member_views(m.entries@),
        m.wf() ==> r.wf(),
{
    let mut out: Vec<(String, MemberCfg)> = Vec::new();
    let mut i: usize = 0;
    while i < m.entries.len()
        invariant
            i <= m.entries@.len(),
            out@.len() == i,
            forall|k: int|
                0 <= k < i ==> (#[trigger] out@[k]).0@ == m.entries@[k].0@ && out@[k].1@
                    == m.entries@[k].1@,
        decreases m.entries.len() - i,
    {
        out.push((m.entries[i].0.clone(), m.entries[i].1.copy()));
        i = i + 1;
    }
    assert(member_views(out@) =~= member_views(m.entries@));
    let r = NameMap { entries: out };
    proof {
        if m.wf() {
            assert forall|a: int, b: int| 0 <= a < b < r.entries@.len() implies text_before(
                (#[trigger] r.entries@[a]).0@,
                (#[trigger] r.entries@[b]).0@,
            ) by {
                assert(text_before(m.entries@[a].0@, m.entries@[b].0@));
            }
        }
    }
    r
}

fn copy_pools(m: &NameMap<PoolCfg>) -> (r: NameMap<PoolCfg>)
    ensures
        pool_views(r.entries@) == pool_views(m.entries@),
        m.wf() ==> r.wf(),
{
    let mut out: Vec<(String, PoolCfg)> = Vec::new();
    let mut i: usize = 0;
    while i < m.entries.len()
        invariant
            i <= m.entries@.len(),
            out@.len() == i,
            forall|k: int|
                0 <= k < i ==> (#[trigger] out@[k]).0@ == m.entries@[k].0@ && out@[k].1.cidr
                    == m.entries@[k].1.cidr,
        decreases m.entries.len() - i,
    {
        out.push((m.entries[i].0.clone(), PoolCfg { cidr: m.entries[i].1.cidr }));
        i = i + 1;
    }
    assert(pool_views(out@) =~= pool_views(m.entries@));
    let r = NameMap { entries: out };
    proof {
        if m.wf() {
            assert forall|a: int, b: int| 0 <= a < b < r.entries@.len() implies text_before(
                (#[trigger] r.entries@[a]).0@,
                (#[trigger] r.entries@[b]).0@,
            ) by {
                assert(text_before(m.entries@[a].0@, m.entries@[b].0@));
            }
        }
    }
    r
}

impl NetworkConfig {
    /// A copy of this configuration.
    pub fn copy(&self) -> (r: NetworkConfig)
        ensures
            r@ == self@,
            self.wf() ==> r.wf(),
    {
        NetworkConfig {
            network_id: self.network_id.clone(),
            cidrs: copy_nets(&self.cidrs),
            pools: copy_pools(&self.pools),
            settings: self.settings.copy(),
            relays: copy_members(&self.relays),
            clients: copy_members(&self.clients),
        }
    }

    /// Set a member under its role.
    pub fn insert_member(&mut self, name: &str, role: Role, m: MemberCfg)
        requires
            old(self).wf(),
            m@.wf(),
        ensures
            final(self).wf(),
            final(self)@ == old(self)@.with_member(name@, role, m@),
            old(self)@.everyone().len() <= final(self)@.everyone().len() <= old(
                self,
            )@.everyone().len() + 1,
    {
        let key = name.to_owned();
        match role {
            Role::Client => {
                proof {
                    lemma_views_with(self.clients.entries@, key, m);
                    lemma_with_entry_wf(self@.clients, name@, m@);
                }
                self.clients.insert(key, m);
            },
            Role::Relay => {
                proof {
                    lemma_views_with(self.relays.entries@, key, m);
                    lemma_with_entry_wf(self@.relays, name@, m@);
                }
                self.relays.insert(key, m);
            },
        }
        proof {
            lemma_ordered_names(self.clients);
            lemma_ordered_names(self.relays);
        }
    }

    /// Take a member out. Returns whether it was there.
    pub fn remove_member(&mut self, name: &str) -> (r: bool)
        requires
            old(self).wf(),
        ensures
            final(self).wf(),
            final(self)@ == old(self)@.without_member(name@),
            r == (old(self)@.member(name@) is Some),
            final(self)@.everyone().len() <= old(self)@.everyone().len(),
    {
        proof {
            crate::config::lemma_member_lookup(self.clients, name@);
            crate::config::lemma_member_lookup(self.relays, name@);
            lemma_views_without(self.clients.entries@, name@);
            lemma_without_entry_wf(self@.clients, name@);
            lemma_views_without(self.relays.entries@, name@);
            lemma_without_entry_wf(self@.relays, name@);
        }
        let a = self.clients.remove(name).is_some();
        let b = self.relays.remove(name).is_some();
        proof {
            lemma_ordered_names(self.clients);
            lemma_ordered_names(self.relays);
        }
        a || b
    }
}

proof fn lemma_ordered_names(m: NameMap<MemberCfg>)
    requires
        m.wf(),
    ensures
        ordered(member_views(m.entries@)),
{
    let v = member_views(m.entries@);
    assert forall|i: int, j: int| 0 <= i < j < v.len() implies text_before(
        (#[trigger] v[i]).0,
        (#[trigger] v[j]).0,
    ) by {
        assert(text_before(m.entries@[i].0@, m.entries@[j].0@));
    }
}

} // verus!
