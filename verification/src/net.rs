//! Internet addresses and prefixes.
//!
//! An address is a number and a family. A prefix is an address and a
//! length, and stands for the range of addresses from [`IpNet::first`] to
//! [`IpNet::last`]. Containment and overlap are stated on those ranges.

use vstd::arithmetic::div_mod::*;
use vstd::arithmetic::mul::*;
use vstd::arithmetic::power2::*;
use vstd::bits::*;
use vstd::prelude::*;

verus! {

/// An IPv4 or IPv6 address, as the number its octets spell in network order.
#[derive(Clone, Copy, PartialEq, Eq, Structural, Debug, Hash, PartialOrd, Ord)]
pub enum IpAddr {
    V4(u32),
    V6(u128),
}

/// An address with a prefix length. The host bits may be set: `10.0.0.5/24`
/// is a value of this type and differs from `10.0.0.0/24`.
#[derive(Clone, Copy, PartialEq, Eq, Structural, Debug, Hash, PartialOrd, Ord)]
pub struct IpNet {
    pub addr: IpAddr,
    pub prefix_len: u8,
}

impl IpAddr {
    /// Does this address belong to the IPv4 family?
    pub open spec fn v4(self) -> bool {
        self is V4
    }

    /// The number of bits in an address of this family.
    pub open spec fn width(self) -> nat {
        match self {
            IpAddr::V4(_) => 32,
            IpAddr::V6(_) => 128,
        }
    }

    /// The address as a number.
    pub open spec fn bits(self) -> nat {
        match self {
            IpAddr::V4(a) => a as nat,
            IpAddr::V6(a) => a as nat,
        }
    }

    /// The order of addresses: IPv4 before IPv6, then by number.
    pub open spec fn before(self, other: IpAddr) -> bool {
        if self.v4() == other.v4() {
            self.bits() < other.bits()
        } else {
            self.v4()
        }
    }

    pub fn is_ipv4(&self) -> (r: bool)
        ensures
            r == self.v4(),
    {
        matches!(self, IpAddr::V4(_))
    }

    /// The number of bits in an address of this family.
    pub fn max_prefix_len(&self) -> (r: u8)
        ensures
            r as nat == self.width(),
    {
        match self {
            IpAddr::V4(_) => 32,
            IpAddr::V6(_) => 128,
        }
    }

    /// The address as a number.
    pub fn value(&self) -> (r: u128)
        ensures
            r as nat == self.bits(),
            self.v4() ==> r <= u32::MAX,
    {
        match self {
            IpAddr::V4(a) => *a as u128,
            IpAddr::V6(a) => *a,
        }
    }

    /// Whether this address sorts before `other`.
    pub fn is_before(&self, other: &IpAddr) -> (r: bool)
        ensures
            r == self.before(*other),
    {
        if self.is_ipv4() == other.is_ipv4() {
            self.value() < other.value()
        } else {
            self.is_ipv4()
        }
    }
}

/// The size of the block that a prefix of length `len` in a family of
/// `width` bits spans.
pub open spec fn block(width: nat, len: nat) -> nat
    recommends
        len <= width,
{
    pow2((width - len) as nat)
}

impl IpNet {
    /// The prefix length fits the family.
    pub open spec fn valid(self) -> bool {
        self.prefix_len <= self.addr.width()
    }

    /// The number of addresses in the prefix.
    pub open spec fn size(self) -> nat {
        block(self.addr.width(), self.prefix_len as nat)
    }

    /// The lowest address of the prefix.
    pub open spec fn first(self) -> nat {
        (self.addr.bits() - self.addr.bits() % self.size()) as nat
    }

    /// The highest address of the prefix.
    pub open spec fn last(self) -> nat {
        (self.first() + self.size() - 1) as nat
    }

    /// Is `ip` one of the prefix's addresses?
    pub open spec fn has(self, ip: IpAddr) -> bool {
        &&& self.addr.v4() == ip.v4()
        &&& self.first() <= ip.bits() <= self.last()
    }

    /// Does the prefix hold every address of `other`?
    pub open spec fn covers(self, other: IpNet) -> bool {
        &&& self.addr.v4() == other.addr.v4()
        &&& self.first() <= other.first()
        &&& other.last() <= self.last()
    }

    /// One of the two holds the other.
    pub open spec fn meets(self, other: IpNet) -> bool {
        self.covers(other) || other.covers(self)
    }

    /// The same prefix with its host bits cleared.
    pub open spec fn truncated(self) -> IpNet {
        IpNet {
            addr: match self.addr {
                IpAddr::V4(_) => IpAddr::V4(self.first() as u32),
                IpAddr::V6(_) => IpAddr::V6(self.first() as u128),
            },
            prefix_len: self.prefix_len,
        }
    }

    /// The order of prefixes: by address, then by length.
    pub open spec fn before(self, other: IpNet) -> bool {
        if self.addr == other.addr {
            self.prefix_len < other.prefix_len
        } else {
            self.addr.before(other.addr)
        }
    }
}

/// The prefix that holds `ip` alone.
pub open spec fn host_of(ip: IpAddr) -> IpNet {
    IpNet { addr: ip, prefix_len: ip.width() as u8 }
}

/// A power of two below `pow2(n)` divides it, and is at most `pow2(n)`.
proof fn lemma_pow2_divides(a: nat, b: nat)
    requires
        a <= b,
    ensures
        pow2(a) > 0,
        pow2(b) == pow2(a) * pow2((b - a) as nat),
        pow2(b) % pow2(a) == 0,
        pow2(a) <= pow2(b),
{
    lemma_pow2_pos(a);
    lemma_pow2_pos((b - a) as nat);
    lemma_pow2_adds(a, (b - a) as nat);
    lemma_mod_multiples_basic(pow2((b - a) as nat) as int, pow2(a) as int);
    lemma_mul_is_commutative(pow2(a) as int, pow2((b - a) as nat) as int);
    lemma_mul_ordering_helper(pow2(a) as int, pow2((b - a) as nat) as int);
}

proof fn lemma_mul_ordering_helper(x: int, y: int)
    requires
        x > 0,
        y > 0,
    ensures
        x <= x * y,
{
    assert(x <= x * y) by (nonlinear_arith)
        requires
            x > 0,
            y > 0,
    ;
}

/// `pow2(32)` and `pow2(128)` bound the two families.
pub proof fn lemma_family_bounds(ip: IpAddr)
    ensures
        ip.bits() < pow2(ip.width()),
        pow2(32) == 0x1_0000_0000,
        pow2(128) == u128::MAX + 1,
{
    lemma2_to64();
    lemma2_to64_rest();
    lemma_pow2_adds(64, 64);
    assert(pow2(128) == u128::MAX + 1) by {
        assert(0x1_0000_0000_0000_0000int * 0x1_0000_0000_0000_0000int == u128::MAX + 1);
    }
}

/// A prefix's range lies inside its family, starts at a multiple of its
/// size, and holds the address it was written with.
pub proof fn lemma_range(n: IpNet)
    requires
        n.valid(),
    ensures
        n.size() > 0,
        n.first() % n.size() == 0,
        n.first() <= n.addr.bits() <= n.last(),
        n.last() < pow2(n.addr.width()),
{
    let w = n.addr.width();
    let k = n.size();
    lemma_pow2_divides((w - n.prefix_len) as nat, w);
    lemma_family_bounds(n.addr);
    let b = n.addr.bits() as int;
    lemma_fundamental_div_mod(b, k as int);
    lemma_mod_bound(b, k as int);
    lemma_div_pos_is_pos(b, k as int);
    let q = b / k as int;
    assert(n.first() == k * q);
    lemma_mod_multiples_basic(q, k as int);
    lemma_mul_is_commutative(q, k as int);
    // The block that holds `b` ends no later than the family does.
    let t = pow2(n.prefix_len as nat) as int;
    lemma_pow2_adds((w - n.prefix_len) as nat, n.prefix_len as nat);
    assert(k * t == pow2(w));
    assert(q < t) by (nonlinear_arith)
        requires
            k * q <= b,
            b < k * t,
            k > 0,
    ;
    assert(k * q + k <= k * t) by (nonlinear_arith)
        requires
            q < t,
            k > 0,
    ;
}

/// Clearing host bits keeps the range, and doing it twice changes nothing
/// more.
pub proof fn lemma_truncated(n: IpNet)
    requires
        n.valid(),
    ensures
        n.truncated().valid(),
        n.truncated().addr.v4() == n.addr.v4(),
        n.truncated().addr.bits() == n.first(),
        n.truncated().first() == n.first(),
        n.truncated().last() == n.last(),
        n.truncated().truncated() == n.truncated(),
{
    lemma_range(n);
    lemma_family_bounds(n.addr);
    lemma_small_mod(0, n.size());
}

/// Two prefixes that share an address are nested: one of them holds the
/// other, so [`IpNet::meets`] is the same as having an address in common.
pub proof fn lemma_nested_or_disjoint(a: IpNet, b: IpNet)
    requires
        a.valid(),
        b.valid(),
    ensures
        a.meets(b) <==> exists|ip: IpAddr| a.has(ip) && b.has(ip),
{
    lemma_range(a);
    lemma_range(b);
    lemma_truncated(a);
    lemma_truncated(b);
    if a.covers(b) {
        assert(a.has(b.truncated().addr) && b.has(b.truncated().addr));
    }
    if b.covers(a) {
        assert(a.has(a.truncated().addr) && b.has(a.truncated().addr));
    }
    if exists|ip: IpAddr| a.has(ip) && b.has(ip) {
        let ip = choose|ip: IpAddr| a.has(ip) && b.has(ip);
        if a.prefix_len <= b.prefix_len {
            lemma_shared_address_nests(a, b, ip);
        } else {
            lemma_shared_address_nests(b, a, ip);
        }
    }
}

proof fn lemma_shared_address_nests(a: IpNet, b: IpNet, ip: IpAddr)
    requires
        a.valid(),
        b.valid(),
        a.prefix_len <= b.prefix_len,
        a.has(ip),
        b.has(ip),
    ensures
        a.covers(b),
{
    lemma_range(a);
    lemma_range(b);
    let w = a.addr.width();
    let big = a.size() as int;
    let small = b.size() as int;
    lemma_pow2_divides((w - b.prefix_len) as nat, (w - a.prefix_len) as nat);
    let m = pow2((b.prefix_len - a.prefix_len) as nat) as int;
    assert(big == small * m);
    let fa = a.first() as int;
    let fb = b.first() as int;
    lemma_fundamental_div_mod(fa, big);
    lemma_fundamental_div_mod(fb, small);
    let qa = fa / big;
    let qb = fb / small;
    lemma_mul_is_associative(small, m, qa);
    let x = m * qa;
    assert(fa == small * x);
    assert(fb == small * qb);
    let i = ip.bits() as int;
    // Both starts are multiples of the small size, so the order of the
    // blocks is the order of their indexes.
    assert(qb >= x) by (nonlinear_arith)
        requires
            small * x <= i,
            i < small * qb + small,
            small > 0,
    ;
    assert(small * qb >= small * x) by (nonlinear_arith)
        requires
            qb >= x,
            small > 0,
    ;
    assert(small * (x + m) == small * x + small * m) by (nonlinear_arith);
    assert(qb < x + m) by (nonlinear_arith)
        requires
            small * qb <= i,
            i < small * (x + m),
            small > 0,
    ;
    assert(small * qb + small <= small * (x + m)) by (nonlinear_arith)
        requires
            qb < x + m,
            small > 0,
    ;
}

proof fn lemma_mask_quotient(a: int, b: int)
    requires
        a > 0,
        b > 0,
    ensures
        (a * b - 1) / a == b - 1,
{
    assert(a * b - 1 == (b - 1) * a + (a - 1)) by (nonlinear_arith);
    lemma_fundamental_div_mod_converse(a * b - 1, a, b - 1, a - 1);
}

impl IpNet {
    /// A prefix of the given length at `addr`, or nothing where the length
    /// does not fit the family.
    pub fn new(addr: IpAddr, prefix_len: u8) -> (r: Option<IpNet>)
        ensures
            r is Some <==> prefix_len <= addr.width(),
            r matches Some(n) ==> n == (IpNet { addr, prefix_len }) && n.valid(),
    {
        if prefix_len <= addr.max_prefix_len() {
            Some(IpNet { addr, prefix_len })
        } else {
            None
        }
    }

    /// The prefix that holds `addr` alone.
    pub fn host(addr: IpAddr) -> (r: IpNet)
        ensures
            r == host_of(addr),
            r.valid(),
    {
        IpNet { addr, prefix_len: addr.max_prefix_len() }
    }

    pub fn is_valid(&self) -> (r: bool)
        ensures
            r == self.valid(),
    {
        self.prefix_len <= self.addr.max_prefix_len()
    }

    /// The number of addresses in the prefix, less one.
    fn host_mask(&self) -> (r: u128)
        requires
            self.valid(),
        ensures
            r + 1 == self.size(),
            self.addr.v4() ==> r <= u32::MAX,
    {
        let len = self.prefix_len;
        proof {
            lemma_range(*self);
            lemma_family_bounds(self.addr);
            lemma_pow2_pos(len as nat);
            lemma_pow2_adds(len as nat, (self.addr.width() - len) as nat);
            lemma_mask_quotient(pow2(len as nat) as int, self.size() as int);
            lemma2_to64();
        }
        match self.addr {
            IpAddr::V4(_) => {
                if len == 32 {
                    0
                } else {
                    proof {
                        lemma_u32_shr_is_div(u32::MAX, len as u32);
                    }
                    (u32::MAX >> (len as u32)) as u128
                }
            },
            IpAddr::V6(_) => {
                if len == 128 {
                    0
                } else {
                    proof {
                        lemma_u128_shr_is_div(u128::MAX, len as u128);
                    }
                    u128::MAX >> (len as u128)
                }
            },
        }
    }

    /// The lowest address of the prefix, as a number.
    pub fn first_value(&self) -> (r: u128)
        requires
            self.valid(),
        ensures
            r as nat == self.first(),
            self.addr.v4() ==> r <= u32::MAX,
    {
        let mask = self.host_mask();
        let value = self.addr.value();
        proof {
            lemma_range(*self);
            lemma_family_bounds(self.addr);
        }
        if mask == u128::MAX {
            proof {
                lemma_small_mod(value as nat, self.size());
            }
            0
        } else {
            proof {
                lemma_mod_decreases(value as nat, self.size());
            }
            value - value % (mask + 1)
        }
    }

    /// The highest address of the prefix, as a number.
    pub fn last_value(&self) -> (r: u128)
        requires
            self.valid(),
        ensures
            r as nat == self.last(),
            self.addr.v4() ==> r <= u32::MAX,
    {
        proof {
            lemma_range(*self);
            lemma_family_bounds(self.addr);
        }
        self.first_value() + self.host_mask()
    }

    /// Is `ip` one of the prefix's addresses?
    pub fn contains_addr(&self, ip: &IpAddr) -> (r: bool)
        requires
            self.valid(),
        ensures
            r == self.has(*ip),
    {
        let v = ip.value();
        self.addr.is_ipv4() == ip.is_ipv4() && self.first_value() <= v && v <= self.last_value()
    }

    /// Does the prefix hold every address of `other`?
    pub fn contains(&self, other: &IpNet) -> (r: bool)
        requires
            self.valid(),
            other.valid(),
        ensures
            r == self.covers(*other),
    {
        self.addr.is_ipv4() == other.addr.is_ipv4() && self.first_value() <= other.first_value()
            && other.last_value() <= self.last_value()
    }

    /// The same prefix with its host bits cleared.
    pub fn trunc(&self) -> (r: IpNet)
        requires
            self.valid(),
        ensures
            r == self.truncated(),
            r.valid(),
    {
        let first = self.first_value();
        let addr = match self.addr {
            IpAddr::V4(_) => IpAddr::V4(first as u32),
            IpAddr::V6(_) => IpAddr::V6(first),
        };
        IpNet { addr, prefix_len: self.prefix_len }
    }

    /// Whether this prefix sorts before `other`.
    pub fn is_before(&self, other: &IpNet) -> (r: bool)
        ensures
            r == self.before(*other),
    {
        if self.addr == other.addr {
            self.prefix_len < other.prefix_len
        } else {
            self.addr.is_before(&other.addr)
        }
    }
}

/// Do the two prefixes have an address in common?
pub fn overlaps(a: &IpNet, b: &IpNet) -> (r: bool)
    requires
        a.valid(),
        b.valid(),
    ensures
        r == a.meets(*b),
        r <==> exists|ip: IpAddr| a.has(ip) && b.has(ip),
{
    proof {
        lemma_nested_or_disjoint(*a, *b);
    }
    a.contains(b) || b.contains(a)
}

/// Every prefix of the sequence is valid.
pub open spec fn all_valid(s: Seq<IpNet>) -> bool {
    forall|i: int| 0 <= i < s.len() ==> (#[trigger] s[i]).valid()
}

/// An address begins with the bits that a prefix is written with, as many of
/// them as the prefix is long.
pub open spec fn begins_with(n: IpNet, ip: IpAddr) -> bool {
    match (n.addr, ip) {
        (IpAddr::V4(a), IpAddr::V4(b)) => a as nat / pow2((32 - n.prefix_len) as nat) == b as nat
            / pow2((32 - n.prefix_len) as nat),
        (IpAddr::V6(a), IpAddr::V6(b)) => a as nat / pow2((128 - n.prefix_len) as nat) == b as nat
            / pow2((128 - n.prefix_len) as nat),
        _ => false,
    }
}

proof fn lemma_same_block(a: nat, b: nat, k: nat)
    requires
        k > 0,
    ensures
        a - a % k <= b <= a - a % k + k - 1 <==> a / k == b / k,
{
    let (x, y, s) = (a as int, b as int, k as int);
    lemma_fundamental_div_mod(x, s);
    lemma_fundamental_div_mod(y, s);
    lemma_mod_bound(x, s);
    lemma_mod_bound(y, s);
    let (p, q) = (x / s, y / s);
    if s * p <= y && y < s * p + s {
        assert(p == q) by (nonlinear_arith)
            requires
                s * p <= y,
                y < s * p + s,
                s * q <= y,
                y < s * q + s,
                s > 0,
        ;
    }
}

proof fn lemma_begins_with(n: IpNet, ip: IpAddr)
    requires
        n.valid(),
    ensures
        n.has(ip) <==> begins_with(n, ip),
{
    lemma_range(n);
    lemma_mod_decreases(n.addr.bits(), n.size());
    lemma_same_block(n.addr.bits(), ip.bits(), n.size());
    match (n.addr, ip) {
        (IpAddr::V4(a), IpAddr::V4(b)) => {
            assert(n.size() == pow2((32 - n.prefix_len) as nat));
        },
        (IpAddr::V6(a), IpAddr::V6(b)) => {
            assert(n.size() == pow2((128 - n.prefix_len) as nat));
        },
        _ => {},
    }
}

/// A prefix holds the addresses of its own family that begin with its bits,
/// and no others. It holds another prefix where it is no longer than that one
/// and holds the address which that one is written with.
pub proof fn law_a_prefix_holds_what_begins_with_it(n: IpNet, ip: IpAddr, other: IpNet)
    requires
        n.valid(),
        other.valid(),
    ensures
        n.has(ip) <==> begins_with(n, ip),
        n.covers(other) <==> n.prefix_len <= other.prefix_len && begins_with(n, other.addr),
        n.meets(other) <==> n.covers(other) || other.covers(n),
{
    lemma_range(n);
    lemma_range(other);
    lemma_begins_with(n, ip);
    lemma_begins_with(n, other.addr);
    if n.covers(other) {
        assert(n.has(other.addr));
        let w = n.addr.width();
        if other.prefix_len < n.prefix_len {
            lemma_pow2_strictly_increases((w - n.prefix_len) as nat, (w - other.prefix_len) as nat);
        }
    }
    if n.prefix_len <= other.prefix_len && n.has(other.addr) {
        lemma_shared_address_nests(n, other, other.addr);
    }
}

/// Clearing the host bits of a prefix keeps its length, its family and what
/// it begins with, and leaves nothing behind those bits.
pub proof fn law_clearing_host_bits_keeps_the_prefix(n: IpNet, ip: IpAddr)
    requires
        n.valid(),
    ensures
        n.truncated().prefix_len == n.prefix_len,
        begins_with(n, n.truncated().addr),
        n.addr matches IpAddr::V4(a) ==> (n.truncated().addr matches IpAddr::V4(b) && b as nat
            % pow2((32 - n.prefix_len) as nat) == 0),
        n.addr matches IpAddr::V6(a) ==> (n.truncated().addr matches IpAddr::V6(b) && b as nat
            % pow2((128 - n.prefix_len) as nat) == 0),
{
    lemma_range(n);
    lemma_truncated(n);
    lemma_same_block(n.addr.bits(), n.truncated().addr.bits(), n.size());
}

/// A host's prefix is as long as its address, and holds that address alone.
pub proof fn law_a_host_prefix_holds_one_address(ip: IpAddr, other: IpAddr)
    ensures
        host_of(ip).addr == ip,
        ip is V4 ==> host_of(ip).prefix_len == 32,
        ip is V6 ==> host_of(ip).prefix_len == 128,
        host_of(ip).has(other) <==> other == ip,
{
    lemma2_to64();
    lemma_range(host_of(ip));
}

} // verus!
