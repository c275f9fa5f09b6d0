//! The tunnel device and the host around it: which prefixes the host routes
//! itself, how packets cross the device, and which addresses it carries.

use vstd::arithmetic::power2::*;
use vstd::prelude::*;

use crate::net::{all_valid, IpAddr, IpNet};
use crate::netset::{minus, subtract};
use crate::nettext::{sort_by_text, sorted_by_text};
use crate::text::str_eq;

verus! {

/// An address of an interface of this host.
#[derive(Debug)]
pub struct Interface {
    pub name: String,
    pub loopback: bool,
    /// Nothing where the address is not an internet address.
    pub addr: Option<IpAddr>,
    pub netmask: Option<IpAddr>,
}

/// How many bits of a number are set.
pub open spec fn ones(n: nat) -> nat
    decreases n,
{
    if n == 0 {
        0
    } else {
        n % 2 + ones(n / 2)
    }
}

fn count_ones(n: u128) -> (r: u8)
    ensures
        r as nat == ones(n as nat),
        r <= 128,
        n <= u32::MAX ==> r <= 32,
{
    let mut rest: u128 = n;
    let mut count: u8 = 0;
    let ghost mut width: nat = 128;
    let ghost mut narrow: nat = 32;
    proof {
        crate::net::lemma_family_bounds(IpAddr::V6(n));
    }
    while rest > 0
        invariant
            ones(n as nat) == count + ones(rest as nat),
            width <= 128,
            rest < vstd::arithmetic::power2::pow2(width),
            count + width <= 128,
            n <= u32::MAX ==> narrow <= 32 && rest < vstd::arithmetic::power2::pow2(narrow) && count
                + narrow <= 32,
        decreases rest,
    {
        proof {
            if width == 0 {
                vstd::arithmetic::power2::lemma2_to64();
            }
            vstd::arithmetic::power2::lemma_pow2_unfold(width);
            if n <= u32::MAX {
                if narrow == 0 {
                    vstd::arithmetic::power2::lemma2_to64();
                }
                vstd::arithmetic::power2::lemma_pow2_unfold(narrow);
            }
        }
        count = count + (rest % 2) as u8;
        rest = rest / 2;
        proof {
            width = (width - 1) as nat;
            if n <= u32::MAX {
                narrow = (narrow - 1) as nat;
            }
        }
    }
    count
}

/// The length of the prefix that an address is on: that of its netmask, or
/// the address alone where the mask is missing or of the other family.
pub open spec fn on_link_len(addr: IpAddr, netmask: Option<IpAddr>) -> nat {
    match netmask {
        Some(m) if m.v4() == addr.v4() => ones(m.bits()),
        _ => addr.width(),
    }
}

/// The prefix that an interface connects, if it connects one that counts:
/// not loopback, not the tunnel device itself, not link-local IPv6.
pub open spec fn connected(i: Interface, exclude: Seq<char>) -> Option<IpNet> {
    if i.name@ == exclude || i.loopback {
        None
    } else {
        match i.addr {
            None => None,
            Some(a) => if a.loopback() || a.unspecified() || (!a.v4() && a.link_local()) {
                None
            } else {
                Some(
                    (IpNet {
                        addr: a,
                        prefix_len: on_link_len(a, i.netmask) as u8,
                    }).truncated(),
                )
            },
        }
    }
}

/// The prefixes that interfaces connect, in the order of the interfaces.
pub open spec fn connected_all(s: Seq<Interface>, exclude: Seq<char>) -> Seq<IpNet>
    decreases s.len(),
{
    if s.len() == 0 {
        Seq::empty()
    } else {
        let p = connected_all(s.drop_last(), exclude);
        match connected(s.last(), exclude) {
            Some(n) => p.push(n),
            None => p,
        }
    }
}

/// A list without items that equal the one before them.
pub open spec fn deduped(s: Seq<IpNet>) -> Seq<IpNet>
    decreases s.len(),
{
    if s.len() == 0 {
        s
    } else {
        let p = deduped(s.drop_last());
        if p.len() > 0 && p.last() == s.last() {
            p
        } else {
            p.push(s.last())
        }
    }
}

fn connected_prefix(i: &Interface, exclude: &str) -> (r: Option<IpNet>)
    ensures
        r == connected(*i, exclude@),
        r matches Some(n) ==> n.valid(),
{
    if str_eq(i.name.as_str(), exclude) || i.loopback {
        return None;
    }
    let a = match i.addr {
        Some(a) => a,
        None => {
            return None;
        },
    };
    if a.is_loopback() || a.is_unspecified() || (!a.is_ipv4() && a.is_link_local()) {
        return None;
    }
    let len: u8 = match i.netmask {
        Some(m) => if m.is_ipv4() == a.is_ipv4() {
            count_ones(m.value())
        } else {
            a.max_prefix_len()
        },
        None => a.max_prefix_len(),
    };
    let n = IpNet { addr: a, prefix_len: len };
    Some(n.trunc())
}

/// The prefixes that this host's interfaces connect, without loopback and the
/// tunnel device, in the order of their text and each once.
pub fn local_prefixes(exclude_device: &str, interfaces: &Vec<Interface>) -> (r: Vec<IpNet>)
    ensures
        r@ == deduped(sort_by_text(connected_all(interfaces@, exclude_device@))),
        all_valid(r@),
{
    let mut found: Vec<IpNet> = Vec::new();
    let mut i: usize = 0;
    assert(interfaces@.take(0) =~= Seq::empty());
    while i < interfaces.len()
        invariant
            i <= interfaces@.len(),
            all_valid(found@),
            found@ == connected_all(interfaces@.take(i as int), exclude_device@),
        decreases interfaces.len() - i,
    {
        assert(interfaces@.take(i + 1).drop_last() =~= interfaces@.take(i as int));
        if let Some(n) = connected_prefix(&interfaces[i], exclude_device) {
            found.push(n);
        }
        i = i + 1;
    }
    assert(interfaces@.take(i as int) =~= interfaces@);
    let sorted = sorted_by_text(&found);
    let mut out: Vec<IpNet> = Vec::new();
    let mut k: usize = 0;
    assert(sorted@.take(0) =~= Seq::empty());
    while k < sorted.len()
        invariant
            k <= sorted@.len(),
            all_valid(sorted@),
            all_valid(out@),
            out@ == deduped(sorted@.take(k as int)),
        decreases sorted.len() - k,
    {
        assert(sorted@.take(k + 1).drop_last() =~= sorted@.take(k as int));
        let n = sorted[k];
        let twice = out.len() > 0 && out[out.len() - 1] == n;
        if !twice {
            out.push(n);
        }
        k = k + 1;
    }
    assert(sorted@.take(k as int) =~= sorted@);
    out
}

/// How many bytes stand before the packet in what a device hands over. The
/// device takes and gives bare packets on every platform.
pub const AF_PREFIX: usize = 0;

fn copy_bytes(v: &[u8], from: usize, to: usize) -> (r: Vec<u8>)
    requires
        from <= to <= v@.len(),
    ensures
        r@ == v@.subrange(from as int, to as int),
{
    let mut out: Vec<u8> = Vec::new();
    let mut i: usize = from;
    while i < to
        invariant
            from <= i <= to <= v@.len(),
            out@ == v@.subrange(from as int, i as int),
        decreases to - i,
    {
        assert(v@.subrange(from as int, i + 1) =~= v@.subrange(from as int, i as int).push(
            v@[i as int],
        ));
        out.push(v[i]);
        i = i + 1;
    }
    out
}

/// A packet as the device takes it.
pub fn frame_for_device(packet: &[u8]) -> (r: Vec<u8>)
    ensures
        r@ == packet@,
{
    let r = copy_bytes(packet, 0, packet.len());
    assert(packet@.subrange(0, packet@.len() as int) =~= packet@);
    r
}

/// The packet that a device put into a buffer, of which it filled `n` bytes.
pub fn packet_from_device(buf: &[u8], n: usize) -> (r: Vec<u8>)
    requires
        n <= buf@.len(),
    ensures
        r@ == buf@.take(n as int),
{
    let r = copy_bytes(buf, AF_PREFIX, n);
    assert(buf@.subrange(0, n as int) =~= buf@.take(n as int));
    r
}

/// What a device has to give up and to take on to carry other addresses.
pub fn address_changes(carried: &Vec<IpNet>, wanted: &Vec<IpNet>) -> (r: (Vec<IpNet>, Vec<IpNet>))
    ensures
        r.0@ == minus(carried@, wanted@),
        r.1@ == minus(wanted@, carried@),
{
    (subtract(carried, wanted), subtract(wanted, carried))
}

/// Wanting what a device carries changes nothing.
pub proof fn law_the_same_addresses_change_nothing(carried: Seq<IpNet>, wanted: Seq<IpNet>)
    requires
        forall|n: IpNet| #[trigger] carried.contains(n) ==> wanted.contains(n),
    ensures
        minus(carried, wanted).len() == 0,
    decreases carried.len(),
{
    if carried.len() > 0 {
        let d = carried.drop_last();
        assert forall|n: IpNet| #[trigger] d.contains(n) implies wanted.contains(n) by {
            let i = choose|i: int| 0 <= i < d.len() && d[i] == n;
            assert(carried[i] == n);
            assert(carried.contains(n));
        }
        law_the_same_addresses_change_nothing(d, wanted);
        assert(carried[carried.len() - 1] == carried.last());
        assert(carried.contains(carried.last()));
    }
}

/// A device that can be replaced underneath everyone who holds it. A device
/// hands its reader out once; after a replacement the new device's reader can
/// be taken.
#[derive(Debug)]
pub struct SwappableTun<D> {
    pub dev: D,
    pub reader_taken: bool,
}

impl<D> SwappableTun<D> {
    pub fn new(dev: D) -> (r: SwappableTun<D>)
        ensures
            r.dev == dev,
            !r.reader_taken,
    {
        SwappableTun { dev, reader_taken: false }
    }

    /// Install another device.
    pub fn replace(&mut self, dev: D)
        ensures
            final(self).dev == dev,
            !final(self).reader_taken,
    {
        self.dev = dev;
        self.reader_taken = false;
    }

    /// The device to take the reader from, unless it was taken.
    pub fn take_reader(&mut self) -> (r: Option<&D>)
        ensures
            r is Some <==> !old(self).reader_taken,
            r matches Some(d) ==> *d == old(self).dev,
            final(self).dev == old(self).dev,
            final(self).reader_taken,
    {
        if self.reader_taken {
            return None;
        }
        self.reader_taken = true;
        Some(&self.dev)
    }

    /// The device of the moment.
    pub fn device(&self) -> (r: &D)
        ensures
            *r == self.dev,
    {
        &self.dev
    }
}

proof fn lemma_ones_twice(n: nat, k: nat)
    ensures
        ones(n * pow2(k)) == ones(n),
    decreases k,
{
    if k == 0 {
        lemma2_to64();
    } else {
        lemma_ones_twice(n, (k - 1) as nat);
        lemma_pow2_unfold(k);
        let half = n * pow2((k - 1) as nat);
        assert(n * pow2(k) == 2 * half) by (nonlinear_arith)
            requires
                pow2(k) == 2 * pow2((k - 1) as nat),
                half == n * pow2((k - 1) as nat),
        ;
        assert((2 * half) % 2 == 0 && (2 * half) / 2 == half);
    }
}

proof fn lemma_ones_filled(n: nat)
    ensures
        pow2(n) > 0,
        ones((pow2(n) - 1) as nat) == n,
    decreases n,
{
    lemma_pow2_pos(n);
    if n == 0 {
        lemma2_to64();
    } else {
        lemma_ones_filled((n - 1) as nat);
        lemma_pow2_unfold(n);
        let half = (pow2((n - 1) as nat) - 1) as nat;
        assert((2 * half + 1) % 2 == 1 && (2 * half + 1) / 2 == half);
        assert((pow2(n) - 1) as nat == 2 * half + 1);
    }
}

/// An interface connects the prefix of its address that is as long as its
/// netmask has leading ones, or that address alone where it has no netmask of
/// the family. Loopback, the device that is left out, addresses that stand for
/// nobody and link-local IPv6 connect nothing.
pub proof fn law_an_interface_connects_its_own_prefix(i: Interface, exclude: Seq<char>, n: nat)
    ensures
        i.name@ == exclude || i.loopback || i.addr is None ==> connected(i, exclude) is None,
        i.name@ != exclude && !i.loopback ==> {
            &&& i.addr matches Some(IpAddr::V4(a)) ==> (connected(i, exclude) is None <==> a == 0
                || a as nat / 0x100_0000 == 127)
            &&& i.addr matches Some(IpAddr::V6(a)) ==> (connected(i, exclude) is None <==> a == 0
                || a == 1 || 0xfe80_0000_0000_0000_0000_0000_0000_0000 <= a
                < 0xfec0_0000_0000_0000_0000_0000_0000_0000)
        },
        connected(i, exclude) matches Some(p) ==> {
            let a = i.addr->0;
            &&& i.addr is Some
            &&& p == (IpNet { addr: a, prefix_len: p.prefix_len }).truncated()
            &&& i.netmask is None ==> p.prefix_len == (if a is V4 {
                32
            } else {
                128int
            })
            &&& n <= 32 && a is V4 && i.netmask == Some(
                IpAddr::V4(((pow2(n) - 1) * pow2((32 - n) as nat)) as u32),
            ) ==> p.prefix_len == n
            &&& n <= 128 && a is V6 && i.netmask == Some(
                IpAddr::V6(((pow2(n) - 1) * pow2((128 - n) as nat)) as u128),
            ) ==> p.prefix_len == n
        },
{
    if let Some(p) = connected(i, exclude) {
        let a = i.addr->0;
        let w = a.width();
        crate::net::lemma_family_bounds(a);
        lemma_ones_filled(n);
        if n <= w {
            let k = (w - n) as nat;
            let top = (pow2(n) - 1) as nat;
            lemma_ones_twice(top, k);
            lemma_pow2_adds(n, k);
            lemma_pow2_pos(k);
            assert((pow2(n) - 1) * pow2(k) == pow2(n) * pow2(k) - pow2(k)) by (nonlinear_arith);
            assert(0 <= (pow2(n) - 1) * pow2(k) < pow2(w));
        }
    }
}

proof fn lemma_connected_all(s: Seq<Interface>, exclude: Seq<char>, n: IpNet)
    ensures
        connected_all(s, exclude).contains(n) <==> exists|i: int|
            0 <= i < s.len() && connected(#[trigger] s[i], exclude) == Some(n),
    decreases s.len(),
{
    if s.len() > 0 {
        let d = s.drop_last();
        let p = connected_all(d, exclude);
        let q = connected_all(s, exclude);
        lemma_connected_all(d, exclude, n);
        assert(s[s.len() - 1] == s.last());
        if q.contains(n) {
            let x = choose|x: int| 0 <= x < q.len() && q[x] == n;
            if x < p.len() {
                assert(p[x] == n);
                let i = choose|i: int|
                    0 <= i < d.len() && connected(#[trigger] d[i], exclude) == Some(n);
                assert(s[i] == d[i]);
            }
        }
        if exists|i: int| 0 <= i < s.len() && connected(#[trigger] s[i], exclude) == Some(n) {
            let i = choose|i: int|
                0 <= i < s.len() && connected(#[trigger] s[i], exclude) == Some(n);
            if i < d.len() {
                assert(d[i] == s[i]);
                let x = choose|x: int| 0 <= x < p.len() && p[x] == n;
                assert(q[x] == n);
            } else {
                assert(q[p.len() as int] == n);
            }
        }
    }
}

proof fn lemma_deduped(s: Seq<IpNet>, n: IpNet)
    ensures
        deduped(s).contains(n) <==> s.contains(n),
        s.len() > 0 ==> deduped(s).len() > 0 && deduped(s).last() == s.last(),
    decreases s.len(),
{
    if s.len() > 0 {
        let d = s.drop_last();
        let p = deduped(d);
        let q = deduped(s);
        lemma_deduped(d, n);
        if q.contains(n) {
            let x = choose|x: int| 0 <= x < q.len() && q[x] == n;
            if x < p.len() {
                assert(p[x] == n);
                let i = choose|i: int| 0 <= i < d.len() && d[i] == n;
                assert(s[i] == n);
            } else {
                assert(s[s.len() - 1] == n);
            }
        }
        if s.contains(n) {
            let i = choose|i: int| 0 <= i < s.len() && s[i] == n;
            if i < d.len() {
                assert(d[i] == n);
                let x = choose|x: int| 0 <= x < p.len() && p[x] == n;
                assert(q[x] == n);
            } else {
                assert(q[q.len() - 1] == n);
            }
        }
    }
}

/// The prefixes that a host connects are those that its interfaces connect.
pub proof fn law_a_host_connects_what_its_interfaces_do(
    s: Seq<Interface>,
    exclude: Seq<char>,
    n: IpNet,
)
    ensures
        deduped(sort_by_text(connected_all(s, exclude))).contains(n) <==> exists|i: int|
            0 <= i < s.len() && connected(#[trigger] s[i], exclude) == Some(n),
{
    lemma_connected_all(s, exclude, n);
    crate::nettext::lemma_sort_by_text_contains(connected_all(s, exclude), n);
    lemma_deduped(sort_by_text(connected_all(s, exclude)), n);
}

} // verus!
