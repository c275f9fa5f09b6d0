//! Address assignment: one range per family, or the pool that a member is
//! tied to, static reservations that are never given to another, and dynamic
//! ones that follow their member until the range is exhausted. Then the address of the client that has been gone
//! the longest is reclaimed.

use vstd::prelude::*;

use crate::config::{
    assoc, lemma_first_of_family, lemma_range_of, MemberCfg, MemberView, NetworkConfig, NetworkView,
};
use crate::error::{error_view, ApiError, ErrorCode, ErrorView};
use crate::leases::{lookup, Leases, LeasesView};
use crate::net::{lemma_family_bounds, lemma_range, IpAddr, IpNet};
use crate::proto::{NodeId, Role};
use crate::registry::{
    cursor_views, lemma_id_index_is, named, AllocCursor, MemberRecord, RecordView, Registry,
    RegistryView,
};
use crate::roster::without_entry;
use crate::text::str_eq;
use crate::validate::{any_contains, any_has, inside_one};

verus! {

/// The addresses that a member is given.
#[derive(Clone, Copy, PartialEq, Eq, Structural, Debug)]
pub struct Granted {
    pub ip4: Option<u32>,
    pub ip6: Option<u128>,
}

/// The address that a record holds in a family.
pub open spec fn held(rec: RecordView, v4: bool) -> Option<u128> {
    if v4 {
        match rec.ip4 {
            Some(ip) => Some(ip as u128),
            None => None,
        }
    } else {
        rec.ip6
    }
}

/// The address that a member is configured with in a family.
pub open spec fn configured(m: MemberView, v4: bool) -> Option<u128> {
    if v4 {
        match m.preferred_ip4 {
            Some(ip) => Some(ip as u128),
            None => None,
        }
    } else {
        m.preferred_ip6
    }
}

/// A number as an address of a family.
pub open spec fn as_addr(ip: u128, v4: bool) -> IpAddr {
    if v4 {
        IpAddr::V4(ip as u32)
    } else {
        IpAddr::V6(ip)
    }
}

/// A record other than the member's own holds the address.
pub open spec fn held_by_other(
    members: Seq<RecordView>,
    member: Seq<char>,
    v4: bool,
    ip: u128,
) -> bool {
    exists|i: int|
        0 <= i < members.len() && (#[trigger] members[i]).name != member && held(members[i], v4)
            == Some(ip)
}

/// Another member is configured with the address.
pub open spec fn reserved_for_other(
    n: NetworkView,
    member: Seq<char>,
    v4: bool,
    ip: u128,
) -> bool {
    exists|k: int|
        0 <= k < n.everyone().len() && (#[trigger] n.everyone()[k]).0 != member && configured(
            n.everyone()[k].1,
            v4,
        ) == Some(ip)
}

/// Some member is configured with the address.
pub open spec fn reserved(n: NetworkView, v4: bool, ip: u128) -> bool {
    exists|k: int|
        0 <= k < n.everyone().len() && configured((#[trigger] n.everyone()[k]).1, v4) == Some(ip)
}

/// The addresses that `member` cannot have: held by another, or configured
/// for another, whether that one ever joined or not.
pub open spec fn taken(
    n: NetworkView,
    members: Seq<RecordView>,
    member: Seq<char>,
    v4: bool,
) -> Set<u128> {
    Set::new(
        |ip: u128|
            held_by_other(members, member, v4, ip) || reserved_for_other(n, member, v4, ip),
    )
}

/// The addresses that are configured, and so never reclaimed.
pub open spec fn hard(n: NetworkView, v4: bool) -> Set<u128> {
    Set::new(|ip: u128| reserved(n, v4, ip))
}

/// The index that a scan of `n` addresses looks at after `step` others.
pub open spec fn probe(n: nat, cursor: nat, step: nat) -> nat {
    (cursor % n + step) % n
}

/// The first free address of a scan from `step` on, and where the next scan
/// starts.
pub open spec fn scan_at(
    n: nat,
    first: nat,
    taken: Set<u128>,
    cursor: nat,
    step: nat,
) -> Option<(u128, u64)>
    decreases n - step,
{
    if step >= n {
        None
    } else {
        let idx = probe(n, cursor, step);
        if !taken.contains((first + idx) as u128) {
            Some(((first + idx) as u128, ((idx + 1) % n) as u64))
        } else {
            scan_at(n, first, taken, cursor, step + 1)
        }
    }
}

/// Scan `n` addresses from `first` on, starting at the cursor and wrapping.
pub open spec fn scan(n: nat, first: nat, taken: Set<u128>, cursor: nat) -> Option<(u128, u64)> {
    scan_at(n, first, taken, cursor, 0)
}

proof fn lemma_scan_at(n: nat, first: nat, taken: Set<u128>, cursor: nat, step: nat)
    requires
        n > 0,
        n <= u64::MAX,
        first + n <= u128::MAX + 1,
    ensures
        match scan_at(n, first, taken, cursor, step) {
            Some((ip, next)) => first <= ip < first + n && !taken.contains(ip) && next == (ip
                - first + 1) % n as int,
            None => forall|s: nat|
                step <= s < n ==> taken.contains(
                    (first + #[trigger] probe(n, cursor, s)) as u128,
                ),
        },
    decreases n - step,
{
    if step < n {
        let idx = probe(n, cursor, step);
        vstd::arithmetic::div_mod::lemma_mod_bound((cursor % n + step) as int, n as int);
        vstd::arithmetic::div_mod::lemma_mod_bound((idx + 1) as int, n as int);
        if taken.contains((first + idx) as u128) {
            lemma_scan_at(n, first, taken, cursor, step + 1);
        }
    }
}

/// A scan finds an address exactly when one of the `n` is free; what it
/// finds is one of them and is free.
pub proof fn law_a_scan_finds_a_free_address(n: nat, first: nat, taken: Set<u128>, cursor: nat)
    requires
        n <= u64::MAX,
        first + n <= u128::MAX + 1,
    ensures
        scan(n, first, taken, cursor) is Some <==> exists|ip: u128|
            first <= ip < first + n && !#[trigger] taken.contains(ip),
        scan(n, first, taken, cursor) matches Some((ip, _)) ==> first <= ip < first + n
            && !taken.contains(ip),
{
    if n > 0 {
        lemma_scan_at(n, first, taken, cursor, 0);
        match scan(n, first, taken, cursor) {
            Some(_) => {},
            None => {
                assert forall|ip: u128| first <= ip < first + n implies #[trigger] taken.contains(
                    ip,
                ) by {
                    let i = (ip - first) as nat;
                    // The step that looks at index `i`.
                    let start = cursor % n;
                    vstd::arithmetic::div_mod::lemma_mod_bound(cursor as int, n as int);
                    let s: nat = if i >= start {
                        (i - start) as nat
                    } else {
                        (i + n - start) as nat
                    };
                    assert(probe(n, cursor, s) == i) by {
                        if i >= start {
                            vstd::arithmetic::div_mod::lemma_small_mod(i, n);
                        } else {
                            vstd::arithmetic::div_mod::lemma_mod_add_multiples_vanish(
                                i as int,
                                n as int,
                            );
                            vstd::arithmetic::div_mod::lemma_small_mod(i, n);
                        }
                    }
                    assert(taken.contains((first + probe(n, cursor, s)) as u128));
                }
            },
        }
    }
}

/// A scan moves forward: with another address free, the address that was
/// found last is not found again at once.
pub proof fn law_a_released_address_is_not_reissued_at_once(
    n: nat,
    first: nat,
    before: Set<u128>,
    after: Set<u128>,
    cursor: nat,
)
    requires
        1 < n <= u64::MAX,
        first + n <= u128::MAX + 1,
        scan(n, first, before, cursor) is Some,
        exists|ip: u128|
            first <= ip < first + n && ip != (scan(n, first, before, cursor)->0).0
                && !#[trigger] after.contains(ip),
    ensures
        scan(n, first, after, (scan(n, first, before, cursor)->0).1 as nat) matches Some((ip, _))
            && ip != (scan(n, first, before, cursor)->0).0,
{
    let (was, next) = scan(n, first, before, cursor)->0;
    lemma_scan_at(n, first, before, cursor, 0);
    let idx = (was - first) as nat;
    law_a_scan_finds_a_free_address(n, first, after, next as nat);
    // Starting behind `was`, only the last step looks at it.
    lemma_scan_avoids(n, first, after, next as nat, idx, 0);
}

proof fn lemma_scan_avoids(
    n: nat,
    first: nat,
    taken: Set<u128>,
    cursor: nat,
    idx: nat,
    step: nat,
)
    requires
        1 < n <= u64::MAX,
        first + n <= u128::MAX + 1,
        idx < n,
        cursor == (idx + 1) % n,
        step < n,
        exists|ip: u128|
            first <= ip < first + n && ip != first + idx && !#[trigger] taken.contains(ip),
        forall|s: nat|
            s < step ==> taken.contains((first + #[trigger] probe(n, cursor, s)) as u128),
    ensures
        scan_at(n, first, taken, cursor, step) matches Some((ip, _)) && ip != first + idx,
    decreases n - step,
{
    vstd::arithmetic::div_mod::lemma_mod_bound((idx + 1) as int, n as int);
    vstd::arithmetic::div_mod::lemma_small_mod(cursor, n);
    assert forall|s: nat| s < n implies #[trigger] probe(n, cursor, s) == (if idx + 1 + s < n {
        (idx + 1 + s) as int
    } else {
        idx + 1 + s - n
    }) by {
        if idx + 1 < n {
            vstd::arithmetic::div_mod::lemma_small_mod((idx + 1) as nat, n);
            if idx + 1 + s < n {
                vstd::arithmetic::div_mod::lemma_small_mod((idx + 1 + s) as nat, n);
            } else {
                vstd::arithmetic::div_mod::lemma_mod_sub_multiples_vanish(
                    (idx + 1 + s) as int,
                    n as int,
                );
                vstd::arithmetic::div_mod::lemma_small_mod((idx + 1 + s - n) as nat, n);
            }
        } else {
            vstd::arithmetic::div_mod::lemma_mod_self_0(n as int);
            vstd::arithmetic::div_mod::lemma_small_mod(s, n);
        }
    }
    let here = probe(n, cursor, step);
    if taken.contains((first + here) as u128) {
        if step == n - 1 {
            let ip = choose|ip: u128|
                first <= ip < first + n && ip != first + idx && !#[trigger] taken.contains(ip);
            let i = (ip - first) as nat;
            let s: nat = if i > idx {
                (i - idx - 1) as nat
            } else {
                (i + n - idx - 1) as nat
            };
            assert(probe(n, cursor, s) == i);
            assert(false);
        }
        lemma_scan_avoids(n, first, taken, cursor, idx, step + 1);
    } else if here == idx {
        // Every other index was looked at before this one.
        let ip = choose|ip: u128|
                first <= ip < first + n && ip != first + idx && !#[trigger] taken.contains(ip);
            let i = (ip - first) as nat;
        let s: nat = if i > idx {
            (i - idx - 1) as nat
        } else {
            (i + n - idx - 1) as nat
        };
        assert(probe(n, cursor, s) == i);
        assert(s < step);
    }
}

/// The index `d` steps behind `x`, going round after `n`.
#[verifier::opaque]
spec fn around(n: nat, x: nat, d: nat) -> nat {
    (x + d) % n
}

proof fn lemma_around(n: nat, x: nat, d: nat)
    requires
        n > 0,
    ensures
        around(n, x, d) < n,
        x + d < n ==> around(n, x, d) == x + d,
        n <= x + d < 2 * n ==> around(n, x, d) == x + d - n,
{
    reveal(around);
    vstd::arithmetic::div_mod::lemma_mod_bound((x + d) as int, n as int);
    if x + d < n {
        vstd::arithmetic::div_mod::lemma_small_mod((x + d) as nat, n);
    } else if x + d < 2 * n {
        vstd::arithmetic::div_mod::lemma_mod_sub_multiples_vanish((x + d) as int, n as int);
        vstd::arithmetic::div_mod::lemma_small_mod((x + d - n) as nat, n);
    }
}

proof fn lemma_around_twice(n: nat, x: nat, d: nat, e: nat)
    requires
        n > 0,
    ensures
        around(n, around(n, x, d), e) == around(n, x, d + e),
{
    reveal(around);
    vstd::arithmetic::div_mod::lemma_add_mod_noop_right(e as int, (x + d) as int, n as int);
}

/// Where a scan stops: everything before it is taken.
proof fn lemma_scan_stop(n: nat, first: nat, taken: Set<u128>, cursor: nat, step: nat) -> (s: nat)
    requires
        n > 0,
        n <= u64::MAX,
        first + n <= u128::MAX + 1,
        scan_at(n, first, taken, cursor, step) is Some,
    ensures
        step <= s < n,
        (scan_at(n, first, taken, cursor, step)->0).0 == first + around(n, cursor, s),
        (scan_at(n, first, taken, cursor, step)->0).1 == around(n, cursor, s + 1),
        forall|t: nat|
            step <= t < s ==> taken.contains((first + #[trigger] around(n, cursor, t)) as u128),
    decreases n - step,
{
    let idx = probe(n, cursor, step);
    assert(idx == around(n, cursor, step) && (idx + 1) % n == around(n, cursor, step + 1)) by {
        reveal(around);
        vstd::arithmetic::div_mod::lemma_add_mod_noop_right(
            step as int,
            cursor as int,
            n as int,
        );
        lemma_around_twice(n, cursor, step, 1);
    }
    lemma_around(n, cursor, step);
    lemma_around(n, cursor, step + 1);
    if !taken.contains((first + idx) as u128) {
        step
    } else {
        let s = lemma_scan_stop(n, first, taken, cursor, step + 1);
        assert forall|t: nat| step <= t < s implies taken.contains(
            (first + #[trigger] around(n, cursor, t)) as u128,
        ) by {
            if t == step {
                assert(around(n, cursor, t) == idx);
            }
        }
        s
    }
}

/// Scans that follow each other, each from where the one before left the
/// cursor.
pub open spec fn consecutive(
    n: nat,
    first: nat,
    taken: Set<u128>,
    cursor: nat,
    found: Seq<(u128, u64)>,
) -> bool {
    &&& found.len() > 0 ==> scan(n, first, taken, cursor) == Some(found[0])
    &&& forall|t: int, u: int|
        0 <= t && u == t + 1 && u < found.len() ==> scan(
            n,
            first,
            taken,
            (#[trigger] found[t]).1 as nat,
        ) == Some(#[trigger] found[u])
}

/// One of the first `m` scans, or the one behind them, found the address.
spec fn among_found(found: Seq<(u128, u64)>, m: int, ip: nat) -> bool {
    exists|t: int| 0 <= t <= m && t < found.len() && (#[trigger] found[t]).0 == ip
}

/// The index is taken, or one of the scans up to `m` found it.
spec fn passed(
    first: nat,
    taken: Set<u128>,
    found: Seq<(u128, u64)>,
    m: int,
    i: nat,
) -> bool {
    taken.contains((first + i) as u128) || among_found(found, m, first + i)
}

/// How far the scans up to `m` went, and that they passed everything on the
/// way.
proof fn lemma_walk(
    n: nat,
    first: nat,
    taken: Set<u128>,
    cursor: nat,
    found: Seq<(u128, u64)>,
    base: nat,
    m: int,
) -> (off: nat)
    requires
        0 < n <= u64::MAX,
        first + n <= u128::MAX + 1,
        consecutive(n, first, taken, cursor, found),
        0 <= m < found.len(),
        base < n,
        found[0].0 == first + base,
        found[0].1 == around(n, base, 1),
    ensures
        found[m].0 == first + around(n, base, off),
        found[m].1 == around(n, base, off + 1),
        m > 0 ==> off > 0,
        forall|d: nat|
            d <= off ==> passed(first, taken, found, m, #[trigger] around(n, base, d)),
    decreases m,
{
    lemma_around(n, base, 0);
    if m == 0 {
        assert(found[0].0 == first + base);
        assert(among_found(found, 0, first + base));
        0
    } else {
        let p = lemma_walk(n, first, taken, cursor, found, base, m - 1);
        let c = found[m - 1].1 as nat;
        assert(scan(n, first, taken, c) == Some(found[m]));
        let s = lemma_scan_stop(n, first, taken, c, 0);
        let off = (p + 1 + s) as nat;
        lemma_around_twice(n, base, p + 1, s);
        lemma_around_twice(n, base, p + 1, s + 1);
        assert forall|d: nat| d <= off implies passed(
            first,
            taken,
            found,
            m,
            #[trigger] around(n, base, d),
        ) by {
            lemma_passed(n, first, taken, found, base, m, p, s, d);
        }
        off
    }
}

proof fn lemma_passed(
    n: nat,
    first: nat,
    taken: Set<u128>,
    found: Seq<(u128, u64)>,
    base: nat,
    m: int,
    p: nat,
    s: nat,
    d: nat,
)
    requires
        n > 0,
        0 < m < found.len(),
        d <= p + 1 + s,
        found[m].0 == first + around(n, base, p + 1 + s),
        d <= p ==> passed(first, taken, found, m - 1, around(n, base, d)),
        forall|t: nat|
            t < s ==> taken.contains(
                (first + #[trigger] around(n, around(n, base, p + 1), t)) as u128,
            ),
    ensures
        passed(first, taken, found, m, around(n, base, d)),
{
    let i = around(n, base, d);
    if d <= p {
        if among_found(found, m - 1, first + i) {
            let t = choose|t: int|
                0 <= t <= m - 1 && t < found.len() && (#[trigger] found[t]).0 == first + i;
            assert(found[t].0 == first + i);
        }
    } else if d < p + 1 + s {
        let t = (d - p - 1) as nat;
        lemma_around_twice(n, base, p + 1, t);
        assert(taken.contains((first + around(n, around(n, base, p + 1), t)) as u128));
    } else {
        assert(found[m].0 == first + i);
    }
}

/// Addresses go round: by the time that one is found again, every other free
/// address was found since.
pub proof fn law_addresses_go_round(
    n: nat,
    first: nat,
    taken: Set<u128>,
    cursor: nat,
    found: Seq<(u128, u64)>,
    ip: u128,
)
    requires
        n <= u64::MAX,
        first + n <= u128::MAX + 1,
        consecutive(n, first, taken, cursor, found),
        found.len() > 1,
        found.last().0 == found[0].0,
        first <= ip < first + n,
        !taken.contains(ip),
    ensures
        exists|t: int| 0 <= t < found.len() - 1 && (#[trigger] found[t]).0 == ip,
{
    let m = found.len() - 1;
    assert(scan(n, first, taken, cursor) == Some(found[0]));
    let s = lemma_scan_stop(n, first, taken, cursor, 0);
    let base = around(n, cursor, s);
    lemma_around(n, cursor, s);
    lemma_around_twice(n, cursor, s, 1);
    let off = lemma_walk(n, first, taken, cursor, found, base, m);
    let i = (ip - first) as nat;
    let d: nat = if i >= base {
        (i - base) as nat
    } else {
        (i + n - base) as nat
    };
    lemma_around(n, base, off);
    lemma_around(n, base, d);
    assert(off >= n);
    assert(around(n, base, d) == i);
    assert(passed(first, taken, found, m, around(n, base, d)));
    let t = choose|t: int|
        0 <= t <= m && t < found.len() && (#[trigger] found[t]).0 == first + i;
    if t == m {
        assert(found[0].0 == ip);
    }
}

/// The addresses that scans found.
pub open spec fn found_set(found: Seq<(u128, u64)>) -> Set<u128> {
    Set::new(|ip: u128| exists|t: int| 0 <= t < found.len() && (#[trigger] found[t]).0 == ip)
}

/// Where the scan behind some others starts.
pub open spec fn cursor_behind(cursor: nat, found: Seq<(u128, u64)>) -> nat {
    if found.len() == 0 {
        cursor
    } else {
        found.last().1 as nat
    }
}

/// A scan at this place, for which the earlier ones took what they found.
pub open spec fn fills_at(
    n: nat,
    first: nat,
    cursor: nat,
    found: Seq<(u128, u64)>,
    t: int,
) -> bool {
    scan(n, first, found_set(found.take(t)), cursor_behind(cursor, found.take(t))) == Some(found[t])
}

/// Scans that follow each other in a range where nothing was taken before:
/// what one finds is taken for the next, which starts where it left the
/// cursor.
pub open spec fn filling(n: nat, first: nat, cursor: nat, found: Seq<(u128, u64)>) -> bool {
    forall|t: int| 0 <= t < found.len() ==> #[trigger] fills_at(n, first, cursor, found, t)
}

/// A scan that starts at a free address finds it.
proof fn lemma_free_at_once(n: nat, first: nat, taken: Set<u128>, cursor: nat)
    requires
        0 < n <= u64::MAX,
        first + n <= u128::MAX + 1,
        !taken.contains((first + around(n, cursor, 0)) as u128),
    ensures
        scan(n, first, taken, cursor) matches Some((ip, next)) && ip == first + around(n, cursor, 0)
            && next == around(n, cursor, 1),
{
    lemma_around(n, cursor, 0);
    lemma_around(n, cursor, 1);
    lemma_around_twice(n, cursor, 0, 1);
    assert(probe(n, cursor, 0) == around(n, cursor, 0)) by {
        reveal(around);
        vstd::arithmetic::div_mod::lemma_mod_bound(cursor as int, n as int);
        vstd::arithmetic::div_mod::lemma_small_mod(cursor % n, n);
    }
    assert((around(n, cursor, 0) + 1) % n == around(n, around(n, cursor, 0), 1)) by {
        reveal(around);
    }
}

/// Within one round no index comes twice.
proof fn lemma_one_round(n: nat, base: nat, a: nat, b: nat)
    requires
        base < n,
        a < b < n,
    ensures
        around(n, base, a) != around(n, base, b),
{
    lemma_around(n, base, a);
    lemma_around(n, base, b);
}

/// The scans up to `m` found the addresses from the cursor on, one behind the
/// other.
proof fn lemma_filling(
    n: nat,
    first: nat,
    cursor: nat,
    found: Seq<(u128, u64)>,
    base: nat,
    m: int,
)
    requires
        0 < n <= u64::MAX,
        first + n <= u128::MAX + 1,
        filling(n, first, cursor, found),
        base == around(n, cursor, 0),
        0 <= m <= found.len(),
    ensures
        m <= n,
        forall|t: int|
            0 <= t < m ==> (#[trigger] found[t]).0 == first + around(n, base, t as nat)
                && found[t].1 == around(n, base, (t + 1) as nat),
        around(n, cursor_behind(cursor, found.take(m)), 0) == around(n, base, m as nat),
    decreases m,
{
    lemma_around(n, cursor, 0);
    lemma_around_twice(n, cursor, 0, 0);
    if m > 0 {
        let k = m - 1;
        lemma_filling(n, first, cursor, found, base, k);
        let c = cursor_behind(cursor, found.take(k));
        let taken = found_set(found.take(k));
        assert(fills_at(n, first, cursor, found, k));
        if k == n {
            law_a_scan_finds_a_free_address(n, first, taken, c);
            let ip = found[k].0;
            let i = (ip - first) as nat;
            let d: nat = if i >= base {
                (i - base) as nat
            } else {
                (i + n - base) as nat
            };
            lemma_around(n, base, d);
            assert(found.take(k)[d as int].0 == first + around(n, base, d));
            assert(taken.contains(ip));
        }
        let here = (first + around(n, c, 0)) as u128;
        lemma_around(n, base, k as nat);
        if taken.contains(here) {
            let t = choose|t: int| 0 <= t < k && (#[trigger] found.take(k)[t]).0 == here;
            assert(found[t].0 == first + around(n, base, t as nat));
            lemma_one_round(n, base, t as nat, k as nat);
        }
        lemma_free_at_once(n, first, taken, c);
        lemma_around_twice(n, c, 0, 1);
        lemma_around_twice(n, base, k as nat, 1);
        assert(found[k].1 == around(n, base, m as nat));
        assert(found.take(m).last() == found[k]);
        lemma_around_twice(n, base, m as nat, 0);
    }
}

/// A range that starts out free is handed out whole: scans in a row, each of
/// which takes what it finds, find every address once, and then nothing. As
/// long as one is left, it is found next, even where the first that was found
/// has been released since.
pub proof fn law_a_range_is_handed_out_whole(
    n: nat,
    first: nat,
    cursor: nat,
    found: Seq<(u128, u64)>,
)
    requires
        1 <= n <= u64::MAX,
        first + n <= u128::MAX + 1,
        filling(n, first, cursor, found),
    ensures
        found.len() <= n,
        forall|t: int| 0 <= t < found.len() ==> first <= (#[trigger] found[t]).0 < first + n,
        forall|t: int, u: int|
            0 <= t < u < found.len() ==> (#[trigger] found[t]).0 != (#[trigger] found[u]).0,
        found.len() == n ==> {
            &&& forall|ip: u128|
                first <= ip < first + n ==> #[trigger] found_set(found).contains(ip)
            &&& scan(n, first, found_set(found), cursor_behind(cursor, found)) is None
        },
        found.len() < n ==> (scan(
            n,
            first,
            found_set(found),
            cursor_behind(cursor, found),
        ) matches Some((ip, _)) && !found_set(found).contains(ip)),
        0 < found.len() < n ==> (scan(
            n,
            first,
            found_set(found).remove(found[0].0),
            cursor_behind(cursor, found),
        ) matches Some((ip, _)) && !found_set(found).contains(ip)),
{
    let base = around(n, cursor, 0);
    let m = found.len() as int;
    lemma_around(n, cursor, 0);
    lemma_filling(n, first, cursor, found, base, m);
    assert(found.take(m) =~= found);
    assert forall|t: int| 0 <= t < m implies first <= (#[trigger] found[t]).0 < first + n by {
        lemma_around(n, base, t as nat);
    }
    assert forall|t: int, u: int| 0 <= t < u < m implies (#[trigger] found[t]).0 != (
    #[trigger] found[u]).0 by {
        lemma_one_round(n, base, t as nat, u as nat);
    }
    let c = cursor_behind(cursor, found);
    if m == n {
        assert forall|ip: u128| first <= ip < first + n implies #[trigger] found_set(
            found,
        ).contains(ip) by {
            let i = (ip - first) as nat;
            let d: nat = if i >= base {
                (i - base) as nat
            } else {
                (i + n - base) as nat
            };
            lemma_around(n, base, d);
            assert(found[d as int].0 == first + around(n, base, d));
        }
        law_a_scan_finds_a_free_address(n, first, found_set(found), c);
    } else {
        let here = (first + around(n, c, 0)) as u128;
        lemma_around(n, base, m as nat);
        assert(!found_set(found).contains(here)) by {
            if found_set(found).contains(here) {
                let t = choose|t: int| 0 <= t < m && (#[trigger] found[t]).0 == here;
                lemma_one_round(n, base, t as nat, m as nat);
            }
        }
        lemma_free_at_once(n, first, found_set(found), c);
        if m > 0 {
            lemma_free_at_once(n, first, found_set(found).remove(found[0].0), c);
        }
    }
}

/// Scan `n` addresses from `first` on, starting at the cursor and wrapping,
/// so addresses cycle forward instead of the lowest free one being reissued.
pub fn scan_from_cursor(n: u64, first: u128, taken: &Vec<u128>, cursor: u64) -> (r: Option<
    (u128, u64),
>)
    requires
        first + n <= u128::MAX + 1,
    ensures
        r == scan(n as nat, first as nat, taken@.to_set(), cursor as nat),
        r matches Some((ip, next)) ==> first <= ip < first + n && next < n,
{
    if n == 0 {
        return None;
    }
    let start = cursor % n;
    let ghost set = taken@.to_set();
    let mut step: u64 = 0;
    while step < n
        invariant
            0 < n,
            step <= n,
            start == cursor % n,
            start < n,
            set == taken@.to_set(),
            first + n <= u128::MAX + 1,
            scan(n as nat, first as nat, set, cursor as nat) == scan_at(
                n as nat,
                first as nat,
                set,
                cursor as nat,
                step as nat,
            ),
        decreases n - step,
    {
        let idx: u64 = if step < n - start {
            start + step
        } else {
            step - (n - start)
        };
        proof {
            if step < n - start {
                vstd::arithmetic::div_mod::lemma_small_mod((start + step) as nat, n as nat);
            } else {
                vstd::arithmetic::div_mod::lemma_mod_sub_multiples_vanish(
                    (start + step) as int,
                    n as int,
                );
                vstd::arithmetic::div_mod::lemma_small_mod((start + step - n) as nat, n as nat);
            }
            assert(idx == probe(n as nat, cursor as nat, step as nat));
        }
        let cand: u128 = first + idx as u128;
        if !contains_u128(taken, cand) {
            let next: u64 = if idx + 1 == n {
                0
            } else {
                idx + 1
            };
            proof {
                if idx + 1 == n {
                    vstd::arithmetic::div_mod::lemma_mod_self_0(n as int);
                } else {
                    vstd::arithmetic::div_mod::lemma_small_mod((idx + 1) as nat, n as nat);
                }
            }
            return Some((cand, next));
        }
        step = step + 1;
    }
    None
}

fn contains_u128(v: &Vec<u128>, x: u128) -> (r: bool)
    ensures
        r == v@.to_set().contains(x),
        r == v@.contains(x),
{
    let mut i: usize = 0;
    while i < v.len()
        invariant
            i <= v.len(),
            forall|k: int| 0 <= k < i ==> v@[k] != x,
        decreases v.len() - i,
    {
        if v[i] == x {
            return true;
        }
        i = i + 1;
    }
    false
}

/// How many IPv6 addresses a scan looks at, at most.
pub const V6_SCAN_CAP: u64 = 100_000;

/// How many addresses of a prefix can be handed out, and the lowest.
///
/// IPv4: all but the network and the broadcast address, except that every
/// address of a `/31` or `/32` is a host. IPv6: all but the network address,
/// and no more than [`V6_SCAN_CAP`].
pub open spec fn hosts(net: IpNet) -> (nat, nat) {
    if net.addr.v4() {
        if net.prefix_len >= 31 {
            (net.size(), net.first())
        } else {
            ((net.size() - 2) as nat, net.first() + 1)
        }
    } else {
        let n = (net.size() - 1) as nat;
        (
            if n < V6_SCAN_CAP {
                n
            } else {
                V6_SCAN_CAP as nat
            },
            net.first() + 1,
        )
    }
}

/// The usable hosts of an IPv4 prefix: how many, and the lowest.
pub fn v4_hosts(net: &IpNet) -> (r: (u64, u32))
    requires
        net.valid(),
        net.addr.v4(),
    ensures
        (r.0 as nat, r.1 as nat) == hosts(*net),
        r.0 <= 0x1_0000_0000,
        r.1 + r.0 <= 0x1_0000_0000,
{
    proof {
        lemma_range(*net);
        lemma_family_bounds(net.addr);
        if net.prefix_len < 31 {
            vstd::arithmetic::power2::lemma_pow2_strictly_increases(
                1,
                (32 - net.prefix_len) as nat,
            );
            vstd::arithmetic::power2::lemma2_to64();
        }
    }
    let first = net.first_value() as u32;
    let last = net.last_value() as u32;
    if net.prefix_len >= 31 {
        ((last - first) as u64 + 1, first)
    } else {
        ((last - first) as u64 - 1, first + 1)
    }
}

fn v6_hosts(net: &IpNet) -> (r: (u64, u128))
    requires
        net.valid(),
        !net.addr.v4(),
    ensures
        r.0 as nat == hosts(*net).0,
        r.0 > 0 ==> r.1 as nat == hosts(*net).1,
        r.0 <= V6_SCAN_CAP,
        r.1 + r.0 <= u128::MAX + 1,
{
    proof {
        lemma_range(*net);
        lemma_family_bounds(net.addr);
    }
    let first = net.first_value();
    let last = net.last_value();
    let n = last - first;
    if n == 0 {
        (0, first)
    } else if n < V6_SCAN_CAP as u128 {
        (n as u64, first + 1)
    } else {
        (V6_SCAN_CAP, first + 1)
    }
}

/// When a member is counted as gone, in milliseconds: when it was last seen,
/// or when it last joined if it was never seen.
pub open spec fn gone_since(l: LeasesView, rec: RecordView) -> nat {
    match lookup(l.offline_at, rec.node_id) {
        Some(t) => t as nat,
        None => {
            let t = joined_at(rec) as nat * 1000;
            if t > u64::MAX {
                u64::MAX as nat
            } else {
                t
            }
        },
    }
}

/// When a member last joined, or when its record was made.
pub open spec fn joined_at(rec: RecordView) -> u64 {
    match rec.last_join_unix {
        Some(t) => t,
        None => rec.created_unix,
    }
}

/// Some relay declares the client.
pub open spec fn attached(l: LeasesView, client: NodeId) -> bool {
    exists|relay: NodeId| #[trigger] l.holds(relay, client)
}

/// A client's address that may be taken from it: it is configured as a
/// member, is offline, no relay declares it, and either it was seen to go
/// or a liveness window has passed since its join; and the address is
/// dynamic and in the range.
pub open spec fn may_lose_address(
    n: NetworkView,
    l: LeasesView,
    now: u64,
    member: Seq<char>,
    net: IpNet,
    rec: RecordView,
) -> bool {
    &&& rec.name != member
    &&& rec.role == Role::Client
    &&& !l.last_seen.dom().contains(rec.node_id)
    &&& !attached(l, rec.node_id)
    &&& n.member(rec.name) is Some
    &&& (lookup(l.offline_at, rec.node_id) is Some || joined_at(rec)
        + n.settings.liveness_window() <= now || (now == u64::MAX))
    &&& held(rec, net.addr.v4()) matches Some(ip) && !hard(n, net.addr.v4()).contains(ip) && net.has(
        as_addr(ip, net.addr.v4()),
    )
}

/// `a` has been gone for longer than `b`.
pub open spec fn gone_longer(l: LeasesView, a: RecordView, b: RecordView) -> bool {
    gone_since(l, a) < gone_since(l, b) || (gone_since(l, a) == gone_since(l, b) && a.node_id
        < b.node_id)
}

/// The record whose address is reclaimed: of those that may lose theirs, the
/// one that has been gone the longest.
pub open spec fn victim(
    n: NetworkView,
    members: Seq<RecordView>,
    l: LeasesView,
    now: u64,
    member: Seq<char>,
    net: IpNet,
) -> Option<RecordView>
    decreases members.len(),
{
    if members.len() == 0 {
        None
    } else {
        let best = victim(n, members.drop_last(), l, now, member, net);
        let rec = members.last();
        if !may_lose_address(n, l, now, member, net, rec) {
            best
        } else {
            match best {
                Some(b) if !gone_longer(l, rec, b) => best,
                _ => Some(rec),
            }
        }
    }
}

/// The victim may lose its address, and nobody who may has been gone for
/// longer; there is one if anybody may.
pub proof fn law_the_longest_gone_is_reclaimed(
    n: NetworkView,
    members: Seq<RecordView>,
    l: LeasesView,
    now: u64,
    member: Seq<char>,
    net: IpNet,
)
    ensures
        match victim(n, members, l, now, member, net) {
            Some(v) => {
                &&& members.contains(v)
                &&& may_lose_address(n, l, now, member, net, v)
                &&& forall|i: int|
                    0 <= i < members.len() && may_lose_address(
                        n,
                        l,
                        now,
                        member,
                        net,
                        #[trigger] members[i],
                    ) ==> !gone_longer(l, members[i], v)
            },
            None => forall|i: int|
                0 <= i < members.len() ==> !may_lose_address(
                    n,
                    l,
                    now,
                    member,
                    net,
                    #[trigger] members[i],
                ),
        },
    decreases members.len(),
{
    if members.len() > 0 {
        let d = members.drop_last();
        law_the_longest_gone_is_reclaimed(n, d, l, now, member, net);
        assert forall|i: int| 0 <= i < d.len() implies #[trigger] members[i] == d[i] by {}
        if let Some(b) = victim(n, d, l, now, member, net) {
            let k = choose|k: int| 0 <= k < d.len() && d[k] == b;
            assert(members[k] == b);
        }
        assert(members[members.len() - 1] == members.last());
    }
}

/// A static address is never taken from its member, nor one of a relay, of a
/// member that is online, or of a client that a relay still declares.
pub proof fn law_only_dynamic_addresses_of_absent_clients_are_reclaimed(
    n: NetworkView,
    members: Seq<RecordView>,
    l: LeasesView,
    now: u64,
    member: Seq<char>,
    net: IpNet,
)
    ensures
        victim(n, members, l, now, member, net) matches Some(v) ==> {
            &&& v.role == Role::Client
            &&& !l.last_seen.dom().contains(v.node_id)
            &&& !attached(l, v.node_id)
            &&& v.name != member
            &&& held(v, net.addr.v4()) matches Some(ip) && !reserved(n, net.addr.v4(), ip)
        },
{
    law_the_longest_gone_is_reclaimed(n, members, l, now, member, net);
}

/// The pool that a member draws from in a family, by its name.
pub open spec fn pool_name(n: NetworkView, member: Seq<char>, v4: bool) -> Option<Seq<char>> {
    match n.pool_of(member, v4) {
        Some((pool, _)) => Some(pool),
        None => None,
    }
}

/// The cursor of a pool, or of a family.
pub open spec fn cursor_of(r: RegistryView, pool: Option<Seq<char>>, v4: bool) -> nat {
    let c = match pool {
        Some(p) => assoc(r.pool_cursors, p),
        None => if v4 {
            r.alloc_cursor.ipv4
        } else {
            r.alloc_cursor.ipv6
        },
    };
    match c {
        Some(x) => x as nat,
        None => 0,
    }
}

/// The registry with the cursor of a pool, or of a family, moved.
pub open spec fn with_cursor(
    r: RegistryView,
    pool: Option<Seq<char>>,
    v4: bool,
    next: u64,
) -> RegistryView {
    match pool {
        Some(p) => RegistryView {
            pool_cursors: without_entry(r.pool_cursors, p).push((p, next)),
            ..r
        },
        None => RegistryView {
            alloc_cursor: if v4 {
                AllocCursor { ipv4: Some(next), ..r.alloc_cursor }
            } else {
                AllocCursor { ipv6: Some(next), ..r.alloc_cursor }
            },
            ..r
        },
    }
}

/// The cursor of a pool.
fn pool_cursor(v: &Vec<(String, u64)>, pool: &str) -> (r: Option<u64>)
    ensures
        r == assoc(cursor_views(v@), pool@),
{
    let ghost s = cursor_views(v@);
    let mut found: Option<u64> = None;
    let mut i: usize = 0;
    assert(s.take(0) =~= Seq::empty());
    while i < v.len()
        invariant
            i <= v@.len(),
            s == cursor_views(v@),
            s.len() == v@.len(),
            found == assoc(s.take(i as int), pool@),
        decreases v.len() - i,
    {
        assert(s.take(i + 1).drop_last() =~= s.take(i as int));
        assert(s.take(i + 1).last() == (v@[i as int].0@, v@[i as int].1));
        if found.is_none() && str_eq(v[i].0.as_str(), pool) {
            found = Some(v[i].1);
        }
        i = i + 1;
    }
    assert(s.take(i as int) =~= s);
    found
}

/// Move the cursor of a pool.
fn move_pool_cursor(v: &mut Vec<(String, u64)>, pool: &str, next: u64)
    ensures
        cursor_views(final(v)@) == without_entry(cursor_views(old(v)@), pool@).push((pool@, next)),
{
    let ghost s = cursor_views(v@);
    let mut out: Vec<(String, u64)> = Vec::new();
    let mut i: usize = 0;
    assert(s.take(0) =~= Seq::empty());
    assert(cursor_views(out@) =~= Seq::empty());
    while i < v.len()
        invariant
            i <= v@.len(),
            v@ == old(v)@,
            s == cursor_views(v@),
            s.len() == v@.len(),
            cursor_views(out@) == without_entry(s.take(i as int), pool@),
        decreases v.len() - i,
    {
        assert(s.take(i + 1).drop_last() =~= s.take(i as int));
        assert(s.take(i + 1).last() == (v@[i as int].0@, v@[i as int].1));
        if !str_eq(v[i].0.as_str(), pool) {
            let ghost was = cursor_views(out@);
            let e = (v[i].0.clone(), v[i].1);
            let ghost ev = (e.0@, e.1);
            out.push(e);
            assert(cursor_views(out@) =~= was.push(ev));
        }
        i = i + 1;
    }
    assert(s.take(i as int) =~= s);
    let ghost was = cursor_views(out@);
    out.push((pool.to_owned(), next));
    assert(cursor_views(out@) =~= was.push((pool@, next)));
    *v = out;
}

/// A record whose address of a family was taken from it. Its credential
/// still claims the address, so the login generation is raised.
pub open spec fn dispossessed(rec: RecordView, v4: bool) -> RecordView {
    let gen = if rec.login_gen == u64::MAX {
        rec.login_gen
    } else {
        (rec.login_gen + 1) as u64
    };
    if v4 {
        RecordView { ip4: None, login_gen: gen, ..rec }
    } else {
        RecordView { ip6: None, login_gen: gen, ..rec }
    }
}

/// What drawing an address from a range gives, and the registry after it:
/// a free address, or else a reclaimed one, or nothing.
pub open spec fn drawn(
    n: NetworkView,
    r: RegistryView,
    barred: Set<u128>,
    reclaim: Option<LeasesView>,
    now: u64,
    member: Seq<char>,
    net: IpNet,
) -> (Option<u128>, RegistryView) {
    let v4 = net.addr.v4();
    let pool = pool_name(n, member, v4);
    let (count, first) = hosts(net);
    match scan(count, first, barred, cursor_of(r, pool, v4)) {
        Some((ip, next)) => (Some(ip), with_cursor(r, pool, v4, next)),
        None => match reclaim {
            None => (None, r),
            Some(l) => match victim(n, r.members, l, now, member, net) {
                Some(v) => (held(v, v4), r.put(v.node_id, dispossessed(v, v4))),
                None => (None, r),
            },
        },
    }
}

/// Why an address that is asked for cannot be a member's.
pub open spec fn unusable(n: NetworkView, ip: IpAddr) -> Option<ErrorView> {
    if ip.loopback() || ip.unspecified() || ip.multicast() || ip.broadcast() {
        Some(error_view(ErrorCode::BadRequest, ip.text() + " is not a usable address"@))
    } else if !any_has(n.cidrs, ip) {
        Some(
            error_view(
                ErrorCode::BadRequest,
                ip.text() + " is outside this network's tunnel CIDRs"@,
            ),
        )
    } else {
        None
    }
}

/// Why the address that a member wants in a family is refused.
pub open spec fn want_problem(
    n: NetworkView,
    members: Seq<RecordView>,
    member: Seq<char>,
    v4: bool,
    want: Option<u128>,
) -> Option<ErrorView> {
    match want {
        None => None,
        Some(ip) => match unusable(n, as_addr(ip, v4)) {
            Some(e) => Some(e),
            None => if taken(n, members, member, v4).contains(ip) {
                Some(
                    error_view(
                        ErrorCode::AddressInUse,
                        as_addr(ip, v4).text() + " is already assigned"@,
                    ),
                )
            } else {
                None
            },
        },
    }
}

/// The address that a member has and may keep: one of the tunnel space that
/// is not configured for another, however it came to be held.
pub open spec fn kept(
    n: NetworkView,
    members: Seq<RecordView>,
    member: Seq<char>,
    v4: bool,
) -> Option<u128> {
    match named(members, member) {
        Some(rec) => match held(rec, v4) {
            Some(ip) if any_has(n.cidrs, as_addr(ip, v4)) && !reserved_for_other(
                n,
                member,
                v4,
                ip,
            ) => Some(ip),
            _ => None,
        },
        None => None,
    }
}

/// What a member wants: what was asked for, or else what is configured.
pub open spec fn wanted(m: MemberView, asked: Option<u128>, v4: bool) -> Option<u128> {
    match asked {
        Some(ip) => Some(ip),
        None => configured(m, v4),
    }
}

/// The outcome of an allocation: the addresses and the registry after it, or
/// the error, which leaves the registry as it is.
///
/// A wanted address is granted if it is usable and nobody else's. Otherwise
/// a member keeps what it has, and otherwise one is drawn from its pool, or
/// from the range of the family where it has none of that family.
/// IPv6 is best effort: a network without IPv6 space, or with none left,
/// grants none.
pub open spec fn allocation(
    n: NetworkView,
    r: RegistryView,
    reclaim: Option<LeasesView>,
    now: u64,
    member: Seq<char>,
    asked4: Option<u32>,
    asked6: Option<u128>,
) -> Result<(Option<u128>, Option<u128>, RegistryView), ErrorView> {
    let m = (n.member(member)->0).0;
    let want4 = wanted(
        m,
        match asked4 {
            Some(a) => Some(a as u128),
            None => None,
        },
        true,
    );
    let want6 = wanted(m, asked6, false);
    match want_problem(n, r.members, member, true, want4) {
        Some(e) => Err(e),
        None => match want_problem(n, r.members, member, false, want6) {
            Some(e) => Err(e),
            None => {
                let (got4, r4) = match want4 {
                    Some(ip) => (Some(ip), r),
                    None => match kept(n, r.members, member, true) {
                        Some(ip) => (Some(ip), r),
                        None => drawn(
                            n,
                            r,
                            taken(n, r.members, member, true),
                            reclaim,
                            now,
                            member,
                            n.range(member, true)->0,
                        ),
                    },
                };
                if got4 is None {
                    Err(error_view(ErrorCode::AddressSpaceExhausted, "IPv4 range is exhausted"@))
                } else {
                    let (got6, r6) = match want6 {
                        Some(ip) => (Some(ip), r4),
                        None => match kept(n, r.members, member, false) {
                            Some(ip) => (Some(ip), r4),
                            None => match n.range(member, false) {
                                Some(net) => drawn(
                                    n,
                                    r4,
                                    taken(n, r.members, member, false),
                                    reclaim,
                                    now,
                                    member,
                                    net,
                                ),
                                None => (None, r4),
                            },
                        },
                    };
                    Ok((got4, got6, r6))
                }
            },
        },
    }
}

/// Drawing gives an address of the range, or leaves the registry as it is.
/// No record holds more than before, and a record that held what was drawn
/// from outside the barred ones no longer does.
proof fn lemma_drawn(
    n: NetworkView,
    r: RegistryView,
    barred: Set<u128>,
    reclaim: Option<LeasesView>,
    now: u64,
    member: Seq<char>,
    net: IpNet,
)
    requires
        r.wf(),
        net.valid(),
    ensures
        ({
            let v4 = net.addr.v4();
            let (got, after) = drawn(n, r, barred, reclaim, now, member, net);
            let t = after.members;
            &&& got is None ==> after == r
            &&& got matches Some(ip) ==> net.has(as_addr(ip, v4)) && (v4 ==> ip <= u32::MAX)
            &&& after.wf()
            &&& t.len() == r.members.len()
            &&& forall|i: int|
                0 <= i < t.len() ==> (#[trigger] t[i]).name == r.members[i].name && t[i].node_id
                    == r.members[i].node_id && (t[i] == r.members[i] || t[i] == dispossessed(
                    r.members[i],
                    v4,
                ))
            &&& got matches Some(ip) ==> !barred.contains(ip) || !reserved(n, v4, ip)
            &&& got matches Some(ip) ==> {
                ||| !barred.contains(ip) && t == r.members
                ||| exists|i: int|
                    0 <= i < t.len() && held(#[trigger] r.members[i], v4) == Some(ip) && t[i]
                        == dispossessed(r.members[i], v4)
            }
        }),
{
    let v4 = net.addr.v4();
    let (count, first) = hosts(net);
    lemma_range(net);
    lemma_family_bounds(net.addr);
    if v4 && net.prefix_len < 31 {
        vstd::arithmetic::power2::lemma_pow2_strictly_increases(1, (32 - net.prefix_len) as nat);
        vstd::arithmetic::power2::lemma2_to64();
    }
    if count > 0 {
        lemma_scan_at(count, first, barred, cursor_of(r, pool_name(n, member, v4), v4), 0);
    }
    if scan(count, first, barred, cursor_of(r, pool_name(n, member, v4), v4)) is None && reclaim is Some {
        let l = reclaim->0;
        law_the_longest_gone_is_reclaimed(n, r.members, l, now, member, net);
        if let Some(v) = victim(n, r.members, l, now, member, net) {
            let i = choose|i: int| 0 <= i < r.members.len() && r.members[i] == v;
            lemma_id_index_is(r.members, v.node_id, i);
            let t = r.put(v.node_id, dispossessed(v, v4)).members;
            assert(t[i] == dispossessed(r.members[i], v4));
            assert(held(r.members[i], v4) == held(v, v4));
        }
    }
}

/// What drawing leaves alone: everything but the cursor and the record of
/// another member.
proof fn lemma_drawn_frame(
    n: NetworkView,
    r: RegistryView,
    barred: Set<u128>,
    reclaim: Option<LeasesView>,
    now: u64,
    member: Seq<char>,
    net: IpNet,
)
    requires
        r.wf(),
        net.valid(),
    ensures
        same_but_addresses(r, drawn(n, r, barred, reclaim, now, member, net).1, member),
{
    let v4 = net.addr.v4();
    let (count, first) = hosts(net);
    lemma_drawn(n, r, barred, reclaim, now, member, net);
    if scan(count, first, barred, cursor_of(r, pool_name(n, member, v4), v4)) is None && reclaim is Some {
        let l = reclaim->0;
        law_the_longest_gone_is_reclaimed(n, r.members, l, now, member, net);
        if let Some(v) = victim(n, r.members, l, now, member, net) {
            let i = choose|i: int| 0 <= i < r.members.len() && r.members[i] == v;
            lemma_id_index_is(r.members, v.node_id, i);
        }
    }
}

/// The two registries differ at most in the cursor and in the addresses and
/// the login generation of members other than `member`.
pub open spec fn same_but_addresses(a: RegistryView, b: RegistryView, member: Seq<char>) -> bool {
    &&& b.network_uuid == a.network_uuid
    &&& b.next_node_id == a.next_node_id
    &&& b.gen_hwm == a.gen_hwm
    &&& b.members.len() == a.members.len()
    &&& forall|i: int|
        0 <= i < a.members.len() ==> (#[trigger] b.members[i]) == (RecordView {
            ip4: b.members[i].ip4,
            ip6: b.members[i].ip6,
            login_gen: b.members[i].login_gen,
            ..a.members[i]
        }) && (a.members[i].name == member ==> b.members[i] == a.members[i])
}

/// An allocation leaves everything alone but the cursor and the addresses
/// and login generations of others. In particular the member's own record
/// and its id stay as they are.
pub proof fn lemma_allocation_frame(
    n: NetworkView,
    r: RegistryView,
    reclaim: Option<LeasesView>,
    now: u64,
    member: Seq<char>,
    asked4: Option<u32>,
    asked6: Option<u128>,
)
    requires
        n.wf(),
        r.wf(),
        n.ipv4() is Some,
    ensures
        allocation(n, r, reclaim, now, member, asked4, asked6) matches Ok((_, _, after)) ==> {
            &&& same_but_addresses(r, after, member)
            &&& named(after.members, member) == named(r.members, member)
            &&& after.id_for(member) == r.id_for(member)
            &&& after.wf()
        },
{
    if let Ok((got4, got6, after)) = allocation(n, r, reclaim, now, member, asked4, asked6) {
        lemma_range_of(n, member, true);
        lemma_range_of(n, member, false);
        let net4 = n.range(member, true)->0;
        let barred4 = taken(n, r.members, member, true);
        let barred6 = taken(n, r.members, member, false);
        lemma_drawn(n, r, barred4, reclaim, now, member, net4);
        lemma_drawn_frame(n, r, barred4, reclaim, now, member, net4);
        let r4 = drawn(n, r, barred4, reclaim, now, member, net4).1;
        if n.range(member, false) is Some {
            let net6 = n.range(member, false)->0;
            lemma_drawn(n, r, barred6, reclaim, now, member, net6);
            lemma_drawn(n, r4, barred6, reclaim, now, member, net6);
            lemma_drawn_frame(n, r, barred6, reclaim, now, member, net6);
            lemma_drawn_frame(n, r4, barred6, reclaim, now, member, net6);
            let r6 = drawn(n, r4, barred6, reclaim, now, member, net6).1;
            assert(same_but_addresses(r, r6, member)) by {
                assert forall|i: int| 0 <= i < r.members.len() implies (#[trigger] r6.members[i])
                    == (RecordView {
                    ip4: r6.members[i].ip4,
                    ip6: r6.members[i].ip6,
                    login_gen: r6.members[i].login_gen,
                    ..r.members[i]
                }) && (r.members[i].name == member ==> r6.members[i] == r.members[i]) by {
                    assert(r4.members[i].name == r.members[i].name);
                }
            }
        }
        assert(same_but_addresses(r, after, member));
        crate::registry::lemma_name_index(r.members, member);
        crate::registry::lemma_name_index(after.members, member);
        match crate::registry::name_index(r.members, member) {
            Some(i) => {
                assert forall|j: int| 0 <= j < i implies (#[trigger] after.members[j]).name
                    != member by {
                    assert(r.members[j].name != member);
                }
                assert(after.members[i] == r.members[i]);
                crate::registry::lemma_name_index_is(after.members, member, i);
            },
            None => {
                if let Some(j) = crate::registry::name_index(after.members, member) {
                    assert(r.members[j].name == after.members[j].name);
                }
            },
        }
    }
}

/// Every pool lies inside a range of the tunnel space.
pub open spec fn pools_inside(n: NetworkView) -> bool {
    forall|i: int| 0 <= i < n.pools.len() ==> inside_one(n.cidrs, (#[trigger] n.pools[i]).1)
}

/// What a member draws lies inside the tunnel space where the pools do.
proof fn lemma_range_inside(n: NetworkView, member: Seq<char>, v4: bool, ip: IpAddr)
    requires
        n.wf(),
        pools_inside(n),
        n.range(member, v4) matches Some(net) && net.has(ip),
    ensures
        any_has(n.cidrs, ip),
{
    lemma_first_of_family(n.cidrs, v4);
    match n.pool_of(member, v4) {
        Some((pool, cidr)) => {
            let i = crate::config::lemma_assoc_some(n.pools, pool);
            assert(inside_one(n.cidrs, n.pools[i].1));
            let k = choose|k: int| 0 <= k < n.cidrs.len() && (#[trigger] n.cidrs[k]).covers(cidr);
            assert(n.cidrs[k].has(ip));
        },
        None => {
            let net = n.range(member, v4)->0;
            let k = choose|k: int| 0 <= k < n.cidrs.len() && n.cidrs[k] == net;
            assert(n.cidrs[k].has(ip));
        },
    }
}

/// A member that is tied to a pool, asks for nothing, and neither has an
/// address of the pool's family nor is configured with one, is granted one of
/// the pool.
pub proof fn law_a_member_draws_from_its_pool(
    n: NetworkView,
    r: RegistryView,
    reclaim: Option<LeasesView>,
    now: u64,
    member: Seq<char>,
    v4: bool,
)
    requires
        n.wf(),
        r.wf(),
        n.ipv4() is Some,
        n.pool_of(member, v4) is Some,
        configured((n.member(member)->0).0, v4) is None,
        named(r.members, member) matches Some(rec) ==> held(rec, v4) is None,
    ensures
        allocation(n, r, reclaim, now, member, None, None) matches Ok((got4, got6, _)) ==> {
            let got = if v4 {
                got4
            } else {
                got6
            };
            got matches Some(ip) ==> (n.pool_of(member, v4)->0).1.has(as_addr(ip, v4))
        },
{
    lemma_range_of(n, member, true);
    lemma_range_of(n, member, false);
    let net4 = n.range(member, true)->0;
    let barred4 = taken(n, r.members, member, true);
    let barred6 = taken(n, r.members, member, false);
    lemma_drawn(n, r, barred4, reclaim, now, member, net4);
    let r4 = drawn(n, r, barred4, reclaim, now, member, net4).1;
    if let Some(net6) = n.range(member, false) {
        lemma_drawn(n, r, barred6, reclaim, now, member, net6);
        lemma_drawn(n, r4, barred6, reclaim, now, member, net6);
    }
}

/// No two records hold the same address of a family.
pub open spec fn distinct_addresses(members: Seq<RecordView>, v4: bool) -> bool {
    forall|i: int, j: int|
        0 <= i < members.len() && 0 <= j < members.len() && i != j && held(
            #[trigger] members[i],
            v4,
        ) is Some ==> held(members[i], v4) != held(#[trigger] members[j], v4)
}

/// No address is handed out twice: where no two records share an address, a
/// granted one is held by no other record once the allocation is done. It is
/// inside the tunnel space, as the pools are, and never one that is configured
/// for another member, also where it was handed out before it was.
pub proof fn law_no_address_is_handed_out_twice(
    n: NetworkView,
    r: RegistryView,
    reclaim: Option<LeasesView>,
    now: u64,
    member: Seq<char>,
    asked4: Option<u32>,
    asked6: Option<u128>,
)
    requires
        n.wf(),
        r.wf(),
        n.ipv4() is Some,
        n.member(member) is Some,
        distinct_addresses(r.members, true),
        distinct_addresses(r.members, false),
    ensures
        allocation(n, r, reclaim, now, member, asked4, asked6) matches Ok((got4, got6, after))
            ==> {
            &&& got4 matches Some(ip) && ip <= u32::MAX && (pools_inside(n) ==> any_has(
                n.cidrs,
                as_addr(ip, true),
            )) && !held_by_other(after.members, member, true, ip) && !reserved_for_other(
                n,
                member,
                true,
                ip,
            )
            &&& got6 matches Some(ip) ==> (pools_inside(n) ==> any_has(
                n.cidrs,
                as_addr(ip, false),
            )) && !held_by_other(
                after.members,
                member,
                false,
                ip,
            ) && !reserved_for_other(n, member, false, ip)
            &&& distinct_addresses(after.members, true)
            &&& distinct_addresses(after.members, false)
            &&& after.wf()
        },
{
    if let Ok((got4, got6, after)) = allocation(n, r, reclaim, now, member, asked4, asked6) {
        lemma_first_of_family(n.cidrs, true);
        lemma_first_of_family(n.cidrs, false);
        let m = (n.member(member)->0).0;
        let want4 = wanted(
            m,
            match asked4 {
                Some(a) => Some(a as u128),
                None => None,
            },
            true,
        );
        let want6 = wanted(m, asked6, false);
        lemma_range_of(n, member, true);
        lemma_range_of(n, member, false);
        let net4 = n.range(member, true)->0;
        let barred4 = taken(n, r.members, member, true);
        let barred6 = taken(n, r.members, member, false);
        let keep4 = kept(n, r.members, member, true);
        let keep6 = kept(n, r.members, member, false);
        crate::registry::lemma_name_index(r.members, member);
        let r4 = if want4 is None && keep4 is None {
            lemma_drawn(n, r, barred4, reclaim, now, member, net4);
            if pools_inside(n) {
                lemma_range_inside(n, member, true, as_addr(got4->0, true));
            }
            lemma_drawn_unshared(n, r, barred4, reclaim, now, member, net4);
            drawn(n, r, barred4, reclaim, now, member, net4).1
        } else {
            r
        };
        assert(distinct_addresses(r4.members, true) && distinct_addresses(r4.members, false));
        assert(!held_by_other(r4.members, member, true, got4->0));
        if want6 is None && keep6 is None && n.range(member, false) is Some {
            let net6 = n.range(member, false)->0;
            lemma_drawn(n, r4, barred6, reclaim, now, member, net6);
            if pools_inside(n) && got6 is Some {
                lemma_range_inside(n, member, false, as_addr(got6->0, false));
            }
            lemma_drawn_unshared(n, r4, barred6, reclaim, now, member, net6);
            assert forall|i: int|
                0 <= i < after.members.len() && (#[trigger] after.members[i]).name != member
                    implies held(after.members[i], true) != got4 by {
                assert(held(after.members[i], true) == held(r4.members[i], true));
                assert(r4.members[i].name == after.members[i].name);
            }
        } else {
            assert(after == r4);
            if let Some(ip) = got6 {
                assert forall|i: int|
                    0 <= i < after.members.len() && (#[trigger] after.members[i]).name != member
                        implies held(after.members[i], false) != Some(ip) by {
                    assert(r.members[i].name == r4.members[i].name);
                    assert(held(r.members[i], false) == held(r4.members[i], false));
                    if want6 is Some {
                        assert(!barred6.contains(ip));
                    }
                }
            }
        }
    }
}

/// Where no two records share an address, none shares what was drawn.
proof fn lemma_drawn_unshared(
    n: NetworkView,
    r: RegistryView,
    barred: Set<u128>,
    reclaim: Option<LeasesView>,
    now: u64,
    member: Seq<char>,
    net: IpNet,
)
    requires
        r.wf(),
        net.valid(),
        distinct_addresses(r.members, true),
        distinct_addresses(r.members, false),
        forall|ip: u128|
            held_by_other(r.members, member, net.addr.v4(), ip) ==> #[trigger] barred.contains(ip),
    ensures
        ({
            let v4 = net.addr.v4();
            let (got, after) = drawn(n, r, barred, reclaim, now, member, net);
            &&& distinct_addresses(after.members, true)
            &&& distinct_addresses(after.members, false)
            &&& got matches Some(ip) ==> !held_by_other(after.members, member, v4, ip)
        }),
{
    let v4 = net.addr.v4();
    let (got, after) = drawn(n, r, barred, reclaim, now, member, net);
    let t = after.members;
    let s = r.members;
    lemma_drawn(n, r, barred, reclaim, now, member, net);
    assert forall|f: bool, i: int, j: int|
        0 <= i < t.len() && 0 <= j < t.len() && i != j && held(#[trigger] t[i], f) is Some
            implies held(t[i], f) != #[trigger] held(t[j], f) by {
        assert(held(s[i], f) == held(t[i], f));
        assert(held(s[i], f) != held(s[j], f));
    }
    assert(distinct_addresses(t, true)) by {
        assert forall|i: int, j: int|
            0 <= i < t.len() && 0 <= j < t.len() && i != j && held(#[trigger] t[i], true) is Some
                implies held(t[i], true) != held(#[trigger] t[j], true) by {}
    }
    assert(distinct_addresses(t, false)) by {
        assert forall|i: int, j: int|
            0 <= i < t.len() && 0 <= j < t.len() && i != j && held(#[trigger] t[i], false) is Some
                implies held(t[i], false) != held(#[trigger] t[j], false) by {}
    }
    if let Some(ip) = got {
        if held_by_other(t, member, v4, ip) {
            let j = choose|j: int|
                0 <= j < t.len() && (#[trigger] t[j]).name != member && held(t[j], v4) == Some(ip);
            assert(s[j].name != member && held(s[j], v4) == Some(ip));
            assert(held_by_other(s, member, v4, ip));
            assert(barred.contains(ip));
            let i = choose|i: int|
                0 <= i < t.len() && held(#[trigger] s[i], v4) == Some(ip) && t[i] == dispossessed(
                    s[i],
                    v4,
                );
            if i != j {
                assert(held(s[i], v4) != held(s[j], v4));
            }
        }
    }
}

fn record_addr(rec: &MemberRecord, v4: bool) -> (r: Option<u128>)
    ensures
        r == held(rec@, v4),
{
    if v4 {
        match rec.ip4 {
            Some(ip) => Some(ip as u128),
            None => None,
        }
    } else {
        rec.ip6
    }
}

fn config_addr(m: &MemberCfg, v4: bool) -> (r: Option<u128>)
    ensures
        r == configured(m@, v4),
{
    if v4 {
        match m.preferred_ip4 {
            Some(ip) => Some(ip as u128),
            None => None,
        }
    } else {
        m.preferred_ip6
    }
}

fn to_addr(ip: u128, v4: bool) -> (r: IpAddr)
    ensures
        r == as_addr(ip, v4),
{
    if v4 {
        IpAddr::V4(ip as u32)
    } else {
        IpAddr::V6(ip)
    }
}

/// Append the addresses that records other than the member's own hold.
fn push_held(out: &mut Vec<u128>, reg: &Registry, member: &str, v4: bool)
    ensures
        forall|ip: u128| #[trigger]
            final(out)@.contains(ip) <==> old(out)@.contains(ip) || held_by_other(
                reg@.members,
                member@,
                v4,
                ip,
            ),
{
    let ghost s = reg@.members;
    let mut i: usize = 0;
    while i < reg.members.len()
        invariant
            i <= reg.members@.len(),
            s == reg@.members,
            s.len() == reg.members@.len(),
            forall|ip: u128| #[trigger]
                out@.contains(ip) <==> old(out)@.contains(ip) || exists|k: int|
                    0 <= k < i && (#[trigger] s[k]).name != member@ && held(s[k], v4) == Some(ip),
        decreases reg.members.len() - i,
    {
        let rec = &reg.members[i];
        assert(s[i as int] == rec@);
        let ghost was = out@;
        if !str_eq(rec.name.as_str(), member) {
            if let Some(ip) = record_addr(rec, v4) {
                out.push(ip);
                assert(out@[was.len() as int] == ip);
            }
        }
        assert forall|ip: u128| #[trigger] out@.contains(ip) <==> old(out)@.contains(ip)
            || exists|k: int|
            0 <= k < i + 1 && (#[trigger] s[k]).name != member@ && held(s[k], v4) == Some(ip) by {
            if was.contains(ip) {
                let q = choose|q: int| 0 <= q < was.len() && was[q] == ip;
                assert(out@[q] == ip);
                if !old(out)@.contains(ip) {
                    let k = choose|k: int|
                        0 <= k < i && (#[trigger] s[k]).name != member@ && held(s[k], v4)
                            == Some(ip);
                    assert(0 <= k < i + 1);
                }
            }
            if out@.contains(ip) && !was.contains(ip) {
                let q = choose|q: int| 0 <= q < out@.len() && out@[q] == ip;
                assert(q == was.len());
                assert(held(s[i as int], v4) == Some(ip));
            }
            if exists|k: int|
                0 <= k < i + 1 && (#[trigger] s[k]).name != member@ && held(s[k], v4) == Some(ip) {
                let k = choose|k: int|
                    0 <= k < i + 1 && (#[trigger] s[k]).name != member@ && held(s[k], v4)
                        == Some(ip);
                if k < i {
                    assert(was.contains(ip));
                }
            }
        }
        i = i + 1;
    }
}

/// Append the addresses that members are configured with, `except` one.
fn push_reserved(out: &mut Vec<u128>, cfg: &NetworkConfig, except: Option<&str>, v4: bool)
    requires
        cfg.wf(),
        cfg@.everyone().len() <= usize::MAX,
    ensures
        forall|ip: u128| #[trigger]
            final(out)@.contains(ip) <==> old(out)@.contains(ip) || match except {
                Some(member) => reserved_for_other(cfg@, member@, v4, ip),
                None => reserved(cfg@, v4, ip),
            },
{
    let ghost all = cfg@.everyone();
    assert(cfg@.clients.len() == cfg.clients.entries@.len());
    assert(cfg@.relays.len() == cfg.relays.entries@.len());
    let total = cfg.clients.entries.len() + cfg.relays.entries.len();
    let ghost counted = |k: int|
        match except {
            Some(member) => all[k].0 != member@,
            None => true,
        };
    let mut i: usize = 0;
    while i < total
        invariant
            i <= total,
            total == all.len(),
            all == cfg@.everyone(),
            cfg.wf(),
            forall|k: int| #[trigger]
                counted(k) == match except {
                    Some(member) => all[k].0 != member@,
                    None => true,
                },
            forall|ip: u128| #[trigger]
                out@.contains(ip) <==> old(out)@.contains(ip) || exists|k: int|
                    0 <= k < i && #[trigger] counted(k) && configured(all[k].1, v4) == Some(ip),
        decreases total - i,
    {
        let (name, m, _) = crate::validate::nth_member(cfg, i);
        let ghost was = out@;
        let counts = match except {
            Some(member) => !str_eq(name, member),
            None => true,
        };
        assert(counts == counted(i as int));
        if counts {
            if let Some(ip) = config_addr(m, v4) {
                out.push(ip);
                assert(out@[was.len() as int] == ip);
            }
        }
        assert forall|ip: u128| #[trigger] out@.contains(ip) <==> old(out)@.contains(ip)
            || exists|k: int|
            0 <= k < i + 1 && #[trigger] counted(k) && configured(all[k].1, v4) == Some(ip) by {
            if was.contains(ip) {
                let q = choose|q: int| 0 <= q < was.len() && was[q] == ip;
                assert(out@[q] == ip);
                if !old(out)@.contains(ip) {
                    let k = choose|k: int|
                        0 <= k < i && #[trigger] counted(k) && configured(all[k].1, v4) == Some(
                            ip,
                        );
                    assert(0 <= k < i + 1 && counted(k));
                }
            }
            if out@.contains(ip) && !was.contains(ip) {
                let q = choose|q: int| 0 <= q < out@.len() && out@[q] == ip;
                assert(q == was.len());
                assert(counted(i as int));
            }
            if exists|k: int|
                0 <= k < i + 1 && #[trigger] counted(k) && configured(all[k].1, v4) == Some(ip) {
                let k = choose|k: int|
                    0 <= k < i + 1 && #[trigger] counted(k) && configured(all[k].1, v4) == Some(ip);
                if k < i {
                    assert(was.contains(ip));
                }
            }
        }
        i = i + 1;
    }
    assert forall|ip: u128| #[trigger] out@.contains(ip) <==> old(out)@.contains(ip)
        || match except {
        Some(member) => reserved_for_other(cfg@, member@, v4, ip),
        None => reserved(cfg@, v4, ip),
    } by {
        if exists|k: int|
            0 <= k < i && #[trigger] counted(k) && configured(all[k].1, v4) == Some(ip) {
            let k = choose|k: int|
                0 <= k < i && #[trigger] counted(k) && configured(all[k].1, v4) == Some(ip);
            assert(0 <= k < all.len() && configured(all[k].1, v4) == Some(ip));
        }
        match except {
            Some(member) => {
                if reserved_for_other(cfg@, member@, v4, ip) {
                    let k = choose|k: int|
                        0 <= k < all.len() && (#[trigger] all[k]).0 != member@ && configured(
                            all[k].1,
                            v4,
                        ) == Some(ip);
                    assert(counted(k));
                }
            },
            None => {
                if reserved(cfg@, v4, ip) {
                    let k = choose|k: int|
                        0 <= k < all.len() && configured((#[trigger] all[k]).1, v4) == Some(ip);
                    assert(counted(k));
                }
            },
        }
    }
}

fn taken_list(cfg: &NetworkConfig, reg: &Registry, member: &str, v4: bool) -> (r: Vec<u128>)
    requires
        cfg.wf(),
        cfg@.everyone().len() <= usize::MAX,
    ensures
        r@.to_set() == taken(cfg@, reg@.members, member@, v4),
{
    let mut out: Vec<u128> = Vec::new();
    push_held(&mut out, reg, member, v4);
    push_reserved(&mut out, cfg, Some(member), v4);
    assert(out@.to_set() =~= taken(cfg@, reg@.members, member@, v4));
    out
}

/// May this address be a member's at all?
fn check_in_network(cfg: &NetworkConfig, ip: &IpAddr) -> (r: Result<(), ApiError>)
    requires
        cfg.wf(),
    ensures
        match r {
            Ok(_) => unusable(cfg@, *ip) is None,
            Err(e) => unusable(cfg@, *ip) == Some(e@),
        },
{
    if ip.is_loopback() || ip.is_unspecified() || ip.is_multicast() || ip.is_broadcast() {
        let mut m = ip.to_text();
        m.append(" is not a usable address");
        Err(ApiError::bad_request(m))
    } else if !any_contains(&cfg.cidrs, ip) {
        let mut m = ip.to_text();
        m.append(" is outside this network's tunnel CIDRs");
        Err(ApiError::bad_request(m))
    } else {
        Ok(())
    }
}

/// May a member keep this dynamic address?
pub fn dynamic_address_allowed(cfg: &NetworkConfig, ip: &IpAddr) -> (r: bool)
    requires
        cfg.wf(),
    ensures
        r == any_has(cfg@.cidrs, *ip),
{
    any_contains(&cfg.cidrs, ip)
}

fn check_want(
    cfg: &NetworkConfig,
    taken_ips: &Vec<u128>,
    reg: &Registry,
    member: &str,
    v4: bool,
    want: Option<u128>,
) -> (r: Result<(), ApiError>)
    requires
        cfg.wf(),
        taken_ips@.to_set() == taken(cfg@, reg@.members, member@, v4),
    ensures
        match r {
            Ok(_) => want_problem(cfg@, reg@.members, member@, v4, want) is None,
            Err(e) => want_problem(cfg@, reg@.members, member@, v4, want) == Some(e@),
        },
{
    match want {
        None => Ok(()),
        Some(ip) => {
            let addr = to_addr(ip, v4);
            match check_in_network(cfg, &addr) {
                Err(e) => Err(e),
                Ok(_) => {
                    if contains_u128(taken_ips, ip) {
                        let mut m = addr.to_text();
                        m.append(" is already assigned");
                        Err(ApiError::address_in_use(m))
                    } else {
                        Ok(())
                    }
                },
            }
        },
    }
}

fn gone_at(leases: &Leases, rec: &MemberRecord) -> (r: u64)
    requires
        leases.wf(),
    ensures
        r as nat == gone_since(leases@, rec@),
{
    match leases.offline_since(rec.node_id) {
        Some(t) => t,
        None => {
            let t = match rec.last_join_unix {
                Some(t) => t,
                None => rec.created_unix,
            };
            if t > u64::MAX / 1000 {
                u64::MAX
            } else {
                t * 1000
            }
        },
    }
}

/// The position of the record whose address in `net` is reclaimed: the
/// client that has been gone the longest, of those that may lose theirs.
pub fn reclaimable(
    cfg: &NetworkConfig,
    reg: &Registry,
    leases: &Leases,
    now: u64,
    member: &str,
    net: &IpNet,
) -> (r: Option<usize>)
    requires
        cfg.wf(),
        cfg@.everyone().len() <= usize::MAX,
        leases.wf(),
        net.valid(),
    ensures
        match r {
            Some(i) => i < reg.members@.len() && victim(
                cfg@,
                reg@.members,
                leases@,
                now,
                member@,
                *net,
            ) == Some(reg@.members[i as int]),
            None => victim(cfg@, reg@.members, leases@, now, member@, *net) is None,
        },
{
    let v4 = net.addr.is_ipv4();
    let attachments = leases.attachments();
    let guard = cfg.settings.liveness_window_secs();
    let mut hard_ips: Vec<u128> = Vec::new();
    push_reserved(&mut hard_ips, cfg, None, v4);
    let ghost s = reg@.members;
    let mut best: Option<usize> = None;
    let mut i: usize = 0;
    while i < reg.members.len()
        invariant
            i <= reg.members@.len(),
            s == reg@.members,
            s.len() == reg.members@.len(),
            cfg.wf(),
            leases.wf(),
            net.valid(),
            v4 == net.addr.v4(),
            attachments.wf(),
            guard as nat == cfg@.settings.liveness_window(),
            forall|c: NodeId| #[trigger]
                attachments@.dom().contains(c) <==> attached(leases@, c),
            forall|ip: u128| #[trigger] hard_ips@.contains(ip) <==> reserved(cfg@, v4, ip),
            match best {
                Some(b) => b < i && victim(
                    cfg@,
                    s.take(i as int),
                    leases@,
                    now,
                    member@,
                    *net,
                ) == Some(s[b as int]),
                None => victim(cfg@, s.take(i as int), leases@, now, member@, *net) is None,
            },
        decreases reg.members.len() - i,
    {
        let rec = &reg.members[i];
        assert(s[i as int] == rec@);
        assert(s.take(i + 1).drop_last() =~= s.take(i as int));
        assert(s.take(i + 1).last() == rec@);
        let joined = match rec.last_join_unix {
            Some(t) => t,
            None => rec.created_unix,
        };
        let ripe = leases.offline_since(rec.node_id).is_some() || joined.saturating_add(guard)
            <= now;
        let loses = match record_addr(rec, v4) {
            None => false,
            Some(ip) => {
                let addr = to_addr(ip, v4);
                !str_eq(rec.name.as_str(), member) && rec.role == Role::Client
                    && !leases.is_online(rec.node_id) && !attachments.contains_key(rec.node_id)
                    && cfg.member_by_name(rec.name.as_str()).is_some() && ripe && !contains_u128(
                    &hard_ips,
                    ip,
                ) && net.contains_addr(&addr)
            },
        };
        assert(loses == may_lose_address(cfg@, leases@, now, member@, *net, rec@));
        if loses {
            match best {
                None => {
                    best = Some(i);
                },
                Some(b) => {
                    let old_rec = &reg.members[b];
                    assert(s[b as int] == old_rec@);
                    let (x, y) = (gone_at(leases, rec), gone_at(leases, old_rec));
                    if x < y || (x == y && rec.node_id < old_rec.node_id) {
                        best = Some(i);
                    }
                },
            }
        }
        i = i + 1;
    }
    assert(s.take(i as int) =~= s);
    best
}

/// Draw an address from a range: a free one, or else a reclaimed one.
fn draw(
    cfg: &NetworkConfig,
    reg: &mut Registry,
    taken_ips: &Vec<u128>,
    reclaim: Option<&Leases>,
    now: u64,
    member: &str,
    net: &IpNet,
) -> (r: Option<u128>)
    requires
        cfg.wf(),
        cfg@.everyone().len() <= usize::MAX,
        old(reg)@.wf(),
        reclaim matches Some(l) ==> l.wf(),
        net.valid(),
    ensures
        (r, final(reg)@) == drawn(
            cfg@,
            old(reg)@,
            taken_ips@.to_set(),
            match reclaim {
                Some(l) => Some(l@),
                None => None,
            },
            now,
            member@,
            *net,
        ),
        final(reg)@.wf(),
{
    let v4 = net.addr.is_ipv4();
    let pool = match cfg.member_pool(member, v4) {
        Some((p, _)) => Some(p),
        None => None,
    };
    let ghost pool_view = pool_name(cfg@, member@, v4);
    let cursor_opt = match pool {
        Some(p) => pool_cursor(&reg.pool_cursors, p),
        None => if v4 {
            reg.alloc_cursor.ipv4
        } else {
            reg.alloc_cursor.ipv6
        },
    };
    let cursor: u64 = match cursor_opt {
        Some(c) => c,
        None => 0,
    };
    let found = if v4 {
        let (n, first) = v4_hosts(net);
        scan_from_cursor(n, first as u128, taken_ips, cursor)
    } else {
        let (n, first) = v6_hosts(net);
        scan_from_cursor(n, first, taken_ips, cursor)
    };
    assert(found == scan(
        hosts(*net).0,
        hosts(*net).1,
        taken_ips@.to_set(),
        cursor_of(reg@, pool_view, v4),
    ));
    if let Some((ip, next)) = found {
        match pool {
            Some(p) => move_pool_cursor(&mut reg.pool_cursors, p, next),
            None => if v4 {
                reg.alloc_cursor = AllocCursor { ipv4: Some(next), ipv6: reg.alloc_cursor.ipv6 };
            } else {
                reg.alloc_cursor = AllocCursor { ipv4: reg.alloc_cursor.ipv4, ipv6: Some(next) };
            },
        }
        assert(reg@ =~= with_cursor(old(reg)@, pool_view, v4, next));
        return Some(ip);
    }
    match reclaim {
        None => None,
        Some(leases) => match reclaimable(cfg, reg, leases, now, member, net) {
            None => None,
            Some(i) => {
                let ghost before = reg@;
                let ghost v = before.members[i as int];
                let ip = record_addr(&reg.members[i], v4);
                if v4 {
                    reg.members[i].ip4 = None;
                } else {
                    reg.members[i].ip6 = None;
                }
                reg.members[i].login_gen = reg.members[i].login_gen.saturating_add(1);
                proof {
                    lemma_id_index_is(before.members, v.node_id, i as int);
                    assert(reg.members@[i as int]@ =~= dispossessed(v, v4));
                    assert(reg@.members =~= before.members.update(i as int, dispossessed(v, v4)));
                    assert(reg@ =~= before.put(v.node_id, dispossessed(v, v4)));
                }
                ip
            },
        },
    }
}

/// What an [`allocation`] hands out, as the two families.
pub open spec fn granted_view(got4: Option<u128>, got6: Option<u128>) -> Granted {
    Granted {
        ip4: match got4 {
            Some(ip) => Some(ip as u32),
            None => None,
        },
        ip6: got6,
    }
}

/// The address that a member holds, if it may keep it.
fn keepable(cfg: &NetworkConfig, member: &str, v4: bool, current: Option<u128>) -> (r: Option<u128>)
    requires
        cfg.wf(),
        cfg@.everyone().len() <= usize::MAX,
    ensures
        r == match current {
            Some(ip) if any_has(cfg@.cidrs, as_addr(ip, v4)) && !reserved_for_other(
                cfg@,
                member@,
                v4,
                ip,
            ) => Some(ip),
            _ => None,
        },
{
    match current {
        Some(ip) => {
            let mut others: Vec<u128> = Vec::new();
            push_reserved(&mut others, cfg, Some(member), v4);
            if dynamic_address_allowed(cfg, &to_addr(ip, v4)) && !contains_u128(&others, ip) {
                Some(ip)
            } else {
                None
            }
        },
        None => None,
    }
}

fn allocate_inner(
    cfg: &NetworkConfig,
    reg: &mut Registry,
    reclaim: Option<&Leases>,
    now: u64,
    member: &str,
    preferred4: Option<u32>,
    preferred6: Option<u128>,
) -> (r: Result<Granted, ApiError>)
    requires
        cfg.wf(),
        cfg@.everyone().len() <= usize::MAX,
        cfg@.member(member@) is Some,
        cfg@.ipv4() is Some,
        old(reg)@.wf(),
        reclaim matches Some(l) ==> l.wf(),
    ensures
        ({
            let a = allocation(
                cfg@,
                old(reg)@,
                match reclaim {
                    Some(l) => Some(l@),
                    None => None,
                },
                now,
                member@,
                preferred4,
                preferred6,
            );
            match r {
                Ok(g) => a matches Ok((got4, got6, after)) && g == granted_view(got4, got6)
                    && final(reg)@ == after && g.ip4 is Some,
                Err(e) => a == Err::<(Option<u128>, Option<u128>, RegistryView), ErrorView>(e@)
                    && final(reg)@ == old(reg)@,
            }
        }),
        final(reg)@.wf(),
{
    proof {
        lemma_range_of(cfg@, member@, true);
        lemma_range_of(cfg@, member@, false);
    }
    let m = match cfg.member_by_name(member) {
        Some((m, _)) => m,
        None => {
            return Err(ApiError::internal(String::new()));
        },
    };
    let taken4 = taken_list(cfg, reg, member, true);
    let taken6 = taken_list(cfg, reg, member, false);
    let want4 = match preferred4 {
        Some(a) => Some(a as u128),
        None => config_addr(m, true),
    };
    let want6 = match preferred6 {
        Some(a) => Some(a),
        None => config_addr(m, false),
    };
    if let Err(e) = check_want(cfg, &taken4, reg, member, true, want4) {
        return Err(e);
    }
    if let Err(e) = check_want(cfg, &taken6, reg, member, false, want6) {
        return Err(e);
    }
    let (current4, current6) = match reg.by_name(member) {
        Some(rec) => (record_addr(rec, true), record_addr(rec, false)),
        None => (None, None),
    };
    let keep4 = keepable(cfg, member, true, current4);
    let keep6 = keepable(cfg, member, false, current6);
    assert(keep4 == kept(cfg@, old(reg)@.members, member@, true));
    assert(keep6 == kept(cfg@, old(reg)@.members, member@, false));
    let net4 = cfg.member_range(member, true).unwrap();
    let got4 = match want4 {
        Some(ip) => Some(ip),
        None => match keep4 {
            Some(ip) => Some(ip),
            None => draw(cfg, reg, &taken4, reclaim, now, member, &net4),
        },
    };
    proof {
        lemma_drawn(
            cfg@,
            old(reg)@,
            taken4@.to_set(),
            match reclaim {
                Some(l) => Some(l@),
                None => None,
            },
            now,
            member@,
            net4,
        );
    }
    if got4.is_none() {
        return Err(
            ApiError::address_space_exhausted("IPv4 range is exhausted".to_owned()),
        );
    }
    let got6 = match want6 {
        Some(ip) => Some(ip),
        None => match keep6 {
            Some(ip) => Some(ip),
            None => match cfg.member_range(member, false) {
                Some(net6) => draw(cfg, reg, &taken6, reclaim, now, member, &net6),
                None => None,
            },
        },
    };
    Ok(
        Granted {
            ip4: match got4 {
                Some(ip) => Some(ip as u32),
                None => None,
            },
            ip6: got6,
        },
    )
}

/// Allocate, or validate a preferred, address pair for `member`, without
/// taking an address from anyone.
pub fn allocate(
    cfg: &NetworkConfig,
    reg: &mut Registry,
    member: &str,
    preferred4: Option<u32>,
    preferred6: Option<u128>,
) -> (r: Result<Granted, ApiError>)
    requires
        cfg.wf(),
        cfg@.everyone().len() <= usize::MAX,
        cfg@.member(member@) is Some,
        cfg@.ipv4() is Some,
        old(reg)@.wf(),
    ensures
        ({
            let a = allocation(cfg@, old(reg)@, None, 0, member@, preferred4, preferred6);
            match r {
                Ok(g) => a matches Ok((got4, got6, after)) && g == granted_view(got4, got6)
                    && final(reg)@ == after && g.ip4 is Some,
                Err(e) => a == Err::<(Option<u128>, Option<u128>, RegistryView), ErrorView>(e@)
                    && final(reg)@ == old(reg)@,
            }
        }),
        final(reg)@.wf(),
{
    allocate_inner(cfg, reg, None, 0, member, preferred4, preferred6)
}

/// Allocation with liveness information. While the coordinator has just
/// started `allow_reclaim` is false: the fleet has not had time to reconnect,
/// so silence does not show that an address is free.
pub fn allocate_for_join(
    cfg: &NetworkConfig,
    reg: &mut Registry,
    leases: &Leases,
    allow_reclaim: bool,
    now: u64,
    member: &str,
    preferred4: Option<u32>,
    preferred6: Option<u128>,
) -> (r: Result<Granted, ApiError>)
    requires
        cfg.wf(),
        cfg@.everyone().len() <= usize::MAX,
        cfg@.member(member@) is Some,
        cfg@.ipv4() is Some,
        old(reg)@.wf(),
        leases.wf(),
    ensures
        ({
            let a = allocation(
                cfg@,
                old(reg)@,
                if allow_reclaim {
                    Some(leases@)
                } else {
                    None
                },
                now,
                member@,
                preferred4,
                preferred6,
            );
            match r {
                Ok(g) => a matches Ok((got4, got6, after)) && g == granted_view(got4, got6)
                    && final(reg)@ == after && g.ip4 is Some,
                Err(e) => a == Err::<(Option<u128>, Option<u128>, RegistryView), ErrorView>(e@)
                    && final(reg)@ == old(reg)@,
            }
        }),
        final(reg)@.wf(),
{
    let reclaim = if allow_reclaim {
        Some(leases)
    } else {
        None
    };
    allocate_inner(cfg, reg, reclaim, now, member, preferred4, preferred6)
}

proof fn lemma_scan_from(n: nat, first: nat, taken: Set<u128>, cursor: nat, step: nat, s: nat)
    requires
        cursor < n,
        step <= s < n,
        forall|t: nat|
            step <= t < s ==> taken.contains((first + #[trigger] probe(n, cursor, t)) as u128),
        !taken.contains((first + probe(n, cursor, s)) as u128),
    ensures
        scan_at(n, first, taken, cursor, step) == Some(
            (
                (first + probe(n, cursor, s)) as u128,
                ((probe(n, cursor, s) + 1) % n) as u64,
            ),
        ),
    decreases s - step,
{
    if step < s {
        assert(taken.contains((first + probe(n, cursor, step)) as u128));
        lemma_scan_from(n, first, taken, cursor, step + 1, s);
    }
}

/// A scan takes the first free address at or behind its cursor, going round at
/// the end of the range, and the next one starts behind it.
pub proof fn law_a_scan_goes_on_from_the_cursor(
    n: nat,
    first: nat,
    taken: Set<u128>,
    cursor: nat,
    s: nat,
)
    requires
        cursor < n,
        s < n,
        forall|t: nat|
            #![trigger taken.contains((first + (cursor + t) % n) as u128)]
            t < s ==> taken.contains((first + (cursor + t) % n) as u128),
        !taken.contains((first + (cursor + s) % n) as u128),
    ensures
        scan(n, first, taken, cursor) == Some(
            ((first + (cursor + s) % n) as u128, (((cursor + s) % n + 1) % n) as u64),
        ),
{
    vstd::arithmetic::div_mod::lemma_small_mod(cursor, n);
    assert forall|t: nat| 0 <= t < s implies taken.contains(
        (first + #[trigger] probe(n, cursor, t)) as u128,
    ) by {
        assert(taken.contains((first + (cursor + t) % n) as u128));
    }
    lemma_scan_from(n, first, taken, cursor, 0, s);
}

} // verus!
