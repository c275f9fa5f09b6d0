//! The written form of addresses and prefixes, and the order it induces.
//!
//! Rendering and reading are the work of the `ipnet` crate; what it writes
//! for an IPv6 address, and what it reads from the text of one or of a prefix,
//! is named here.

use vstd::prelude::*;

use crate::net::{IpAddr, IpNet};
use crate::text::{decimal, lemma_text_total, lemma_text_transitive, str_before, text_before};

verus! {

/// An IPv4 address: its four bytes in decimal, with dots.
#[verifier::opaque]
pub open spec fn v4_addr_text(addr: u32) -> Seq<char> {
    let a = addr as nat;
    decimal(a / 0x1000000) + "."@ + decimal(a / 0x10000 % 256) + "."@ + decimal(a / 0x100 % 256)
        + "."@ + decimal(a % 256)
}

/// An IPv4 prefix: the address, a slash and the length.
#[verifier::opaque]
pub open spec fn v4_prefix_text(addr: u32, len: u8) -> Seq<char> {
    v4_addr_text(addr) + "/"@ + decimal(len as nat)
}

/// An IPv6 prefix: the address, a slash and the length.
#[verifier::opaque]
pub open spec fn v6_prefix_text(addr: u128, len: u8) -> Seq<char> {
    v6_addr_text(addr) + "/"@ + decimal(len as nat)
}

/// What `Display` writes for the address of an `ipnet::Ipv6Net`.
pub uninterp spec fn v6_addr_text(addr: u128) -> Seq<char>;

/// What `ipnet::Ipv4Net`'s `FromStr` reads from a text: the address and the
/// length, or nothing.
pub uninterp spec fn v4_prefix_read(text: Seq<char>) -> Option<(u32, u8)>;

/// What `ipnet::Ipv6Net`'s `FromStr` reads from a text: the address and the
/// length, or nothing.
pub uninterp spec fn v6_prefix_read(text: Seq<char>) -> Option<(u128, u8)>;

/// The IPv4 address that a text spells: the one whose written form it is, to
/// the letter. Leading zeros, signs and white space are not part of that form.
pub open spec fn v4_addr_read(text: Seq<char>) -> Option<u32> {
    if exists|a: u32| #[trigger] v4_addr_text(a) == text {
        Some(choose|a: u32| #[trigger] v4_addr_text(a) == text)
    } else {
        None
    }
}

/// What the address type of `ipnet::Ipv6Net` reads from a text.
pub uninterp spec fn v6_addr_read(text: Seq<char>) -> Option<u128>;

impl IpNet {
    /// The prefix as text, such as `10.0.0.0/24`.
    pub open spec fn text(self) -> Seq<char> {
        match self.addr {
            IpAddr::V4(a) => v4_prefix_text(a, self.prefix_len),
            IpAddr::V6(a) => v6_prefix_text(a, self.prefix_len),
        }
    }

    /// The prefix that a text spells, if it spells one.
    pub open spec fn read(text: Seq<char>) -> Option<IpNet> {
        match v4_prefix_read(text) {
            Some((a, len)) => Some(IpNet { addr: IpAddr::V4(a), prefix_len: len }),
            None => match v6_prefix_read(text) {
                Some((a, len)) => Some(IpNet { addr: IpAddr::V6(a), prefix_len: len }),
                None => None,
            },
        }
    }
}

impl IpAddr {
    /// The address as text, such as `10.0.0.1`.
    pub open spec fn text(self) -> Seq<char> {
        match self {
            IpAddr::V4(a) => v4_addr_text(a),
            IpAddr::V6(a) => v6_addr_text(a),
        }
    }

    /// The address that a text spells, if it spells one.
    pub open spec fn read(text: Seq<char>) -> Option<IpAddr> {
        match v4_addr_read(text) {
            Some(a) => Some(IpAddr::V4(a)),
            None => match v6_addr_read(text) {
                Some(a) => Some(IpAddr::V6(a)),
                None => None,
            },
        }
    }
}

/// `Display` of `ipnet::Ipv4Net`: the address in dotted decimal, a slash and
/// the length. The constructor accepts every length up to 32.
#[verifier::external_body]
fn show_v4_prefix(addr: u32, len: u8) -> (r: String)
    requires
        len <= 32,
    ensures
        r@ == v4_prefix_text(addr, len),
{
    ipnet::Ipv4Net::new_assert(addr.into(), len).to_string()
}

/// `Display` of `ipnet::Ipv6Net`: the address, a slash and the length. The
/// constructor accepts every length up to 128.
#[verifier::external_body]
fn show_v6_prefix(addr: u128, len: u8) -> (r: String)
    requires
        len <= 128,
    ensures
        r@ == v6_prefix_text(addr, len),
{
    ipnet::Ipv6Net::new_assert(addr.into(), len).to_string()
}

/// `Display` of the address that `ipnet::Ipv4Net::addr` hands back: dotted
/// decimal.
#[verifier::external_body]
fn show_v4_addr(addr: u32) -> (r: String)
    ensures
        r@ == v4_addr_text(addr),
{
    ipnet::Ipv4Net::new_assert(addr.into(), 32).addr().to_string()
}

/// `Display` of the address that `ipnet::Ipv6Net::addr` hands back: the text
/// is a function of the address.
#[verifier::external_body]
fn show_v6_addr(addr: u128) -> (r: String)
    ensures
        r@ == v6_addr_text(addr),
{
    ipnet::Ipv6Net::new_assert(addr.into(), 128).addr().to_string()
}

/// `FromStr` of `ipnet::Ipv4Net`: the result is a function of the text, and
/// a length that it accepts is at most 32.
#[verifier::external_body]
fn read_v4_prefix(text: &str) -> (r: Option<(u32, u8)>)
    ensures
        r == v4_prefix_read(text@),
        r matches Some(p) ==> p.1 <= 32,
{
    match text.parse::<ipnet::Ipv4Net>() {
        Ok(n) => Some((n.addr().into(), n.prefix_len())),
        Err(_) => None,
    }
}

/// `FromStr` of `ipnet::Ipv6Net`: the result is a function of the text, and
/// a length that it accepts is at most 128.
#[verifier::external_body]
fn read_v6_prefix(text: &str) -> (r: Option<(u128, u8)>)
    ensures
        r == v6_prefix_read(text@),
        r matches Some(p) ==> p.1 <= 128,
{
    match text.parse::<ipnet::Ipv6Net>() {
        Ok(n) => Some((n.addr().into(), n.prefix_len())),
        Err(_) => None,
    }
}

/// `FromStr` of the address type that `ipnet::Ipv4Net` is made of: it reads
/// exactly the dotted decimal form of an address, which no two addresses
/// share.
#[verifier::external_body]
fn read_v4_addr(text: &str) -> (r: Option<u32>)
    ensures
        r == v4_addr_read(text@),
{
    match text.parse() {
        Ok(a) => Some(ipnet::Ipv4Net::new_assert(a, 32).addr().into()),
        Err(_) => None,
    }
}

/// `FromStr` of the address type that `ipnet::Ipv6Net` is made of: the
/// result is a function of the text.
#[verifier::external_body]
fn read_v6_addr(text: &str) -> (r: Option<u128>)
    ensures
        r == v6_addr_read(text@),
{
    match text.parse() {
        Ok(a) => Some(ipnet::Ipv6Net::new_assert(a, 128).addr().into()),
        Err(_) => None,
    }
}

impl IpNet {
    /// The prefix as text.
    pub fn to_text(&self) -> (r: String)
        requires
            self.valid(),
        ensures
            r@ == self.text(),
    {
        match self.addr {
            IpAddr::V4(a) => show_v4_prefix(a, self.prefix_len),
            IpAddr::V6(a) => show_v6_prefix(a, self.prefix_len),
        }
    }

    /// The prefix that a text spells, if it spells one.
    pub fn parse(text: &str) -> (r: Option<IpNet>)
        ensures
            r == IpNet::read(text@),
            r matches Some(n) ==> n.valid(),
    {
        match read_v4_prefix(text) {
            Some((a, len)) => Some(IpNet { addr: IpAddr::V4(a), prefix_len: len }),
            None => match read_v6_prefix(text) {
                Some((a, len)) => Some(IpNet { addr: IpAddr::V6(a), prefix_len: len }),
                None => None,
            },
        }
    }

    /// Whether the text of this prefix sorts before that of `other`.
    pub fn text_is_before(&self, other: &IpNet) -> (r: bool)
        requires
            self.valid(),
            other.valid(),
        ensures
            r == text_before(self.text(), other.text()),
    {
        str_before(self.to_text().as_str(), other.to_text().as_str())
    }
}

impl IpAddr {
    /// The address as text.
    pub fn to_text(&self) -> (r: String)
        ensures
            r@ == self.text(),
    {
        match self {
            IpAddr::V4(a) => show_v4_addr(*a),
            IpAddr::V6(a) => show_v6_addr(*a),
        }
    }
}

impl IpAddr {
    /// The address that a text spells, if it spells one.
    pub fn parse(text: &str) -> (r: Option<IpAddr>)
        ensures
            r == IpAddr::read(text@),
    {
        match read_v4_addr(text) {
            Some(a) => Some(IpAddr::V4(a)),
            None => match read_v6_addr(text) {
                Some(a) => Some(IpAddr::V6(a)),
                None => None,
            },
        }
    }
}

/// `s` with `x` placed behind every prefix whose text does not sort after
/// that of `x`.
pub open spec fn insert_by_text(s: Seq<IpNet>, x: IpNet) -> Seq<IpNet>
    decreases s.len(),
{
    if s.len() == 0 || !text_before(x.text(), s.last().text()) {
        s.push(x)
    } else {
        insert_by_text(s.drop_last(), x).push(s.last())
    }
}

/// The prefixes in the order of their text; equal texts keep their order.
pub open spec fn sort_by_text(s: Seq<IpNet>) -> Seq<IpNet>
    decreases s.len(),
{
    if s.len() == 0 {
        s
    } else {
        insert_by_text(sort_by_text(s.drop_last()), s.last())
    }
}

/// No prefix is followed by one whose text sorts before its own.
pub open spec fn ordered_by_text(s: Seq<IpNet>) -> bool {
    forall|i: int, j: int|
        0 <= i < j < s.len() ==> !text_before((#[trigger] s[j]).text(), (#[trigger] s[i]).text())
}

proof fn lemma_insert_by_text(s: Seq<IpNet>, x: IpNet)
    ensures
        insert_by_text(s, x).len() == s.len() + 1,
        insert_by_text(s, x).to_multiset() == s.to_multiset().insert(x),
        ordered_by_text(s) ==> ordered_by_text(insert_by_text(s, x)),
    decreases s.len(),
{
    broadcast use vstd::seq_lib::group_to_multiset_ensures;

    let r = insert_by_text(s, x);
    if s.len() == 0 || !text_before(x.text(), s.last().text()) {
        if ordered_by_text(s) && s.len() > 0 {
            assert forall|i: int| 0 <= i < s.len() implies !text_before(
                x.text(),
                (#[trigger] s[i]).text(),
            ) by {
                let l = s.last().text();
                lemma_text_total(x.text(), l);
                if text_before(x.text(), s[i].text()) {
                    if x.text() != l {
                        lemma_text_transitive(l, x.text(), s[i].text());
                    }
                    assert(s[s.len() - 1] == s.last());
                }
            }
        }
    } else {
        let d = s.drop_last();
        let q = insert_by_text(d, x);
        lemma_insert_by_text(d, x);
        assert(s =~= d.push(s.last()));
        assert(r.to_multiset() =~= s.to_multiset().insert(x));
        if ordered_by_text(s) {
            assert(ordered_by_text(d)) by {
                assert forall|i: int, j: int| 0 <= i < j < d.len() implies !text_before(
                    (#[trigger] d[j]).text(),
                    (#[trigger] d[i]).text(),
                ) by {
                    assert(d[i] == s[i] && d[j] == s[j]);
                }
            }
            assert forall|i: int| 0 <= i < q.len() implies !text_before(
                s.last().text(),
                (#[trigger] q[i]).text(),
            ) by {
                assert(q.to_multiset().contains(q[i])) by {
                    assert(q.contains(q[i]));
                }
                if q[i] != x {
                    assert(d.to_multiset().contains(q[i]));
                    assert(d.contains(q[i]));
                    let k = choose|k: int| 0 <= k < d.len() && d[k] == q[i];
                    assert(s[k] == d[k] && s[s.len() - 1] == s.last());
                } else {
                    lemma_text_total(x.text(), s.last().text());
                }
            }
        }
    }
}

/// Sorting keeps the prefixes and puts their texts in order.
pub proof fn lemma_sort_by_text(s: Seq<IpNet>)
    ensures
        sort_by_text(s).len() == s.len(),
        sort_by_text(s).to_multiset() == s.to_multiset(),
        ordered_by_text(sort_by_text(s)),
    decreases s.len(),
{
    broadcast use vstd::seq_lib::group_to_multiset_ensures;

    if s.len() > 0 {
        lemma_sort_by_text(s.drop_last());
        lemma_insert_by_text(sort_by_text(s.drop_last()), s.last());
        assert(s =~= s.drop_last().push(s.last()));
    }
}

/// Sorting keeps membership.
pub proof fn lemma_sort_by_text_contains(s: Seq<IpNet>, x: IpNet)
    ensures
        sort_by_text(s).contains(x) <==> s.contains(x),
{
    broadcast use vstd::seq_lib::group_to_multiset_ensures;

    lemma_sort_by_text(s);
    assert(s.to_multiset().contains(x) <==> s.contains(x));
    assert(sort_by_text(s).to_multiset().contains(x) <==> sort_by_text(s).contains(x));
}

/// Place `x` behind every prefix whose text does not sort after its own.
pub fn insert_sorted(v: &mut Vec<IpNet>, x: IpNet)
    requires
        crate::net::all_valid(old(v)@),
        x.valid(),
    ensures
        final(v)@ == insert_by_text(old(v)@, x),
        crate::net::all_valid(final(v)@),
{
    let mut i: usize = v.len();
    assert(v@.take(i as int) =~= v@);
    assert(v@.skip(i as int) =~= Seq::empty());
    while i > 0 && x.text_is_before(&v[i - 1])
        invariant
            i <= v.len(),
            crate::net::all_valid(v@),
            x.valid(),
            v@ == old(v)@,
            insert_by_text(v@, x) == insert_by_text(v@.take(i as int), x) + v@.skip(i as int),
        decreases i,
    {
        let ghost t = v@.take(i as int);
        assert(t.last() == v@[i - 1]);
        assert(t.drop_last() =~= v@.take(i - 1));
        assert(insert_by_text(t.drop_last(), x).push(t.last()) + v@.skip(i as int)
            =~= insert_by_text(t.drop_last(), x) + v@.skip(i - 1));
        i = i - 1;
    }
    v.insert(i, x);
    assert(v@ =~= old(v)@.take(i as int).push(x) + old(v)@.skip(i as int));
}

/// The prefixes in the order of their text.
pub fn sorted_by_text(v: &Vec<IpNet>) -> (r: Vec<IpNet>)
    requires
        crate::net::all_valid(v@),
    ensures
        r@ == sort_by_text(v@),
        crate::net::all_valid(r@),
{
    let mut out: Vec<IpNet> = Vec::new();
    let mut i: usize = 0;
    while i < v.len()
        invariant
            i <= v.len(),
            crate::net::all_valid(v@),
            crate::net::all_valid(out@),
            out@ == sort_by_text(v@.take(i as int)),
        decreases v.len() - i,
    {
        insert_sorted(&mut out, v[i]);
        assert(v@.take(i + 1).drop_last() =~= v@.take(i as int));
        i = i + 1;
    }
    assert(v@.take(i as int) =~= v@);
    out
}

/// An IPv4 address is written as its four octets in decimal, the highest
/// first, with dots between them; a prefix as its address, a slash and its
/// length.
pub proof fn law_an_address_is_written_octet_by_octet(a: u8, b: u8, c: u8, d: u8, len: u8)
    ensures
        ({
            let n = (a * 0x100_0000 + b * 0x1_0000 + c * 0x100 + d) as u32;
            let t = decimal(a as nat) + "."@ + decimal(b as nat) + "."@ + decimal(c as nat) + "."@
                + decimal(d as nat);
            &&& IpAddr::V4(n).text() == t
            &&& (IpNet { addr: IpAddr::V4(n), prefix_len: len }).text() == t + "/"@ + decimal(
                len as nat,
            )
        }),
{
    reveal(v4_prefix_text);
    reveal(v4_addr_text);
    let n = a * 0x100_0000 + b * 0x1_0000 + c * 0x100 + d;
    assert(n / 0x100_0000 == a);
    assert(n / 0x1_0000 % 256 == b);
    assert(n / 0x100 % 256 == c);
    assert(n % 256 == d);
}

} // verus!
