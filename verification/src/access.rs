//! Who gets in. A member is a name and a secret: nothing else authenticates.

use vstd::prelude::*;

use crate::config::{ordered, MemberView, NetworkView};
use crate::coordinator::{lemma_secret_index, secret_holder, secret_index};
use crate::error::{error_view, ErrorCode};
use crate::join::join_plan;
use crate::leases::LeasesView;
use crate::proto::Role;
use crate::registry::{named, RegistryView};
use crate::roster::{with_entry, without_entry};
use crate::state::NetState;
use crate::text::{lemma_text_irreflexive, lemma_text_transitive, text_before};

verus! {

/// A disabled member is refused, whatever else it brings.
pub proof fn law_a_disabled_member_is_refused(
    n: NetworkView,
    r: RegistryView,
    reclaim: Option<LeasesView>,
    name: Seq<char>,
    pubkey: Seq<char>,
    fp: Seq<char>,
    from: Seq<char>,
    now: u64,
)
    requires
        named(r.members, name) matches Some(rec) && rec.disabled,
    ensures
        join_plan(n, r, reclaim, name, pubkey, fp, from, now) == Err::<crate::join::JoinPlan, _>(
            error_view(ErrorCode::ClientDisabled, "member is administratively disabled"@),
        ),
{
}

/// A member of a network has this secret.
pub open spec fn has_secret(n: NetworkView, name: Seq<char>, secret: Seq<char>) -> bool {
    exists|k: int|
        0 <= k < n.everyone().len() && (#[trigger] n.everyone()[k]).0 == name
            && n.everyone()[k].1.secret == Some(secret)
}

/// Whoever joins has the secret of the member that it joins as, and a secret
/// that is not empty is refused only where no member of any network has it.
pub proof fn law_the_secret_decides_who_joins(nets: Seq<(String, NetState)>, secret: Seq<char>)
    ensures
        match secret_holder(nets, secret) {
            Some((i, name)) => 0 <= i < nets.len() && secret.len() > 0 && has_secret(
                nets[i].1.cfg@,
                name,
                secret,
            ),
            None => secret.len() > 0 ==> forall|i: int, name: Seq<char>|
                0 <= i < nets.len() ==> !#[trigger] has_secret(nets[i].1.cfg@, name, secret),
        },
    decreases nets.len(),
{
    if nets.len() > 0 && secret.len() > 0 {
        let d = nets.drop_last();
        law_the_secret_decides_who_joins(d, secret);
        let all = nets.last().1.cfg@.everyone();
        lemma_secret_index(all, secret);
        match secret_holder(nets, secret) {
            Some((i, name)) => {
                if i < d.len() {
                    assert(nets[i] == d[i]);
                } else {
                    let k = secret_index(all, secret)->0;
                    assert(all[k].0 == name);
                }
            },
            None => {
                assert forall|i: int, name: Seq<char>|
                    0 <= i < nets.len() implies !#[trigger] has_secret(
                    nets[i].1.cfg@,
                    name,
                    secret,
                ) by {
                    if i < d.len() {
                        assert(nets[i] == d[i]);
                        assert(!has_secret(d[i].1.cfg@, name, secret));
                    }
                }
            },
        }
    }
}

/// Every entry of an edited list is the new one, or an old one under another
/// name.
proof fn lemma_edited_entries(
    s: Seq<(Seq<char>, MemberView)>,
    name: Seq<char>,
    m: MemberView,
)
    requires
        ordered(s),
    ensures
        forall|i: int|
            0 <= i < with_entry(s, name, m).len() ==> {
                let e = #[trigger] with_entry(s, name, m)[i];
                e == (name, m) || (s.contains(e) && e.0 != name)
            },
    decreases s.len(),
{
    let t = with_entry(s, name, m);
    lemma_text_irreflexive(name);
    if s.len() == 0 || text_before(s.last().0, name) {
        assert forall|i: int| 0 <= i < t.len() implies {
            let e = #[trigger] t[i];
            e == (name, m) || (s.contains(e) && e.0 != name)
        } by {
            if i < s.len() {
                assert(t[i] == s[i]);
                if i < s.len() - 1 {
                    assert(text_before(s[i].0, s[s.len() - 1].0));
                    lemma_text_transitive(s[i].0, s[s.len() - 1].0, name);
                }
            }
        }
    } else {
        let d = s.drop_last();
        assert(ordered(d)) by {
            assert forall|i: int, j: int| 0 <= i < j < d.len() implies text_before(
                (#[trigger] d[i]).0,
                (#[trigger] d[j]).0,
            ) by {
                assert(d[i] == s[i] && d[j] == s[j]);
            }
        }
        if s.last().0 == name {
            assert forall|i: int| 0 <= i < t.len() implies {
                let e = #[trigger] t[i];
                e == (name, m) || (s.contains(e) && e.0 != name)
            } by {
                if i < d.len() {
                    assert(t[i] == s[i]);
                    assert(text_before(s[i].0, s[s.len() - 1].0));
                }
            }
        } else {
            lemma_edited_entries(d, name, m);
            let u = with_entry(d, name, m);
            assert forall|i: int| 0 <= i < t.len() implies {
                let e = #[trigger] t[i];
                e == (name, m) || (s.contains(e) && e.0 != name)
            } by {
                if i < u.len() {
                    assert(t[i] == u[i]);
                    if u[i] != (name, m) {
                        let j = choose|j: int| 0 <= j < d.len() && d[j] == u[i];
                        assert(s[j] == t[i]);
                    }
                } else {
                    assert(t[i] == s[s.len() - 1]);
                }
            }
        }
    }
}

proof fn lemma_kept_entries(s: Seq<(Seq<char>, MemberView)>, name: Seq<char>)
    ensures
        forall|i: int|
            0 <= i < without_entry(s, name).len() ==> {
                let e = #[trigger] without_entry(s, name)[i];
                s.contains(e) && e.0 != name
            },
    decreases s.len(),
{
    if s.len() > 0 {
        let d = s.drop_last();
        lemma_kept_entries(d, name);
        let u = without_entry(d, name);
        let t = without_entry(s, name);
        assert forall|i: int| 0 <= i < t.len() implies {
            let e = #[trigger] t[i];
            s.contains(e) && e.0 != name
        } by {
            if i < u.len() {
                assert(t[i] == u[i]);
                let j = choose|j: int| 0 <= j < d.len() && d[j] == u[i];
                assert(s[j] == t[i]);
            } else {
                assert(t[i] == s[s.len() - 1]);
            }
        }
    }
}

/// Nobody but this member has this secret, in this role.
pub open spec fn sole_holder(
    n: NetworkView,
    name: Seq<char>,
    role: Role,
    secret: Seq<char>,
) -> bool {
    forall|k: int|
        0 <= k < n.everyone().len() && (#[trigger] n.everyone()[k]).1.secret == Some(secret)
            ==> n.everyone()[k].0 == name && n.everyone()[k].2 == role
}

/// Once a member is given another secret, nobody joins its network with the
/// old one.
pub proof fn law_a_replaced_secret_stops_working(
    n: NetworkView,
    name: Seq<char>,
    role: Role,
    m: MemberView,
    secret: Seq<char>,
)
    requires
        ordered(n.clients),
        ordered(n.relays),
        sole_holder(n, name, role, secret),
        m.secret != Some(secret),
    ensures
        secret_index(n.with_member(name, role, m).everyone(), secret) is None,
{
    let after = n.with_member(name, role, m);
    let all = after.everyone();
    lemma_secret_index(all, secret);
    lemma_edited_entries(n.clients, name, m);
    lemma_edited_entries(n.relays, name, m);
    if let Some(k) = secret_index(all, secret) {
        let c = after.clients.len() as int;
        if k < c {
            let e = after.clients[k];
            assert(all[k] == (e.0, e.1, Role::Client));
            let j = choose|j: int| 0 <= j < n.clients.len() && n.clients[j] == e;
            if n.clients.contains(e) {
                assert(n.everyone()[j] == (e.0, e.1, Role::Client));
            } else {
                assert(after.clients[k] == (name, m));
            }
        } else {
            let e = after.relays[k - c];
            assert(all[k] == (e.0, e.1, Role::Relay));
            let j = choose|j: int| 0 <= j < n.relays.len() && n.relays[j] == e;
            if n.relays.contains(e) {
                assert(n.everyone()[n.clients.len() + j] == (e.0, e.1, Role::Relay));
            } else {
                assert(after.relays[k - c] == (name, m));
            }
        }
    }
}

/// Once a member is forgotten, nobody joins its network with its secret.
pub proof fn law_a_forgotten_member_does_not_come_back(
    n: NetworkView,
    name: Seq<char>,
    role: Role,
    secret: Seq<char>,
)
    requires
        sole_holder(n, name, role, secret),
    ensures
        secret_index(n.without_member(name).everyone(), secret) is None,
{
    let after = n.without_member(name);
    let all = after.everyone();
    lemma_secret_index(all, secret);
    lemma_kept_entries(n.clients, name);
    lemma_kept_entries(n.relays, name);
    if let Some(k) = secret_index(all, secret) {
        let c = after.clients.len() as int;
        if k < c {
            let e = after.clients[k];
            assert(all[k] == (e.0, e.1, Role::Client));
            let j = choose|j: int| 0 <= j < n.clients.len() && n.clients[j] == e;
            assert(n.everyone()[j] == (e.0, e.1, Role::Client));
        } else {
            let e = after.relays[k - c];
            assert(all[k] == (e.0, e.1, Role::Relay));
            let j = choose|j: int| 0 <= j < n.relays.len() && n.relays[j] == e;
            assert(n.everyone()[n.clients.len() + j] == (e.0, e.1, Role::Relay));
        }
    }
}

} // verus!
