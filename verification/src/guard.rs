//! One endpoint per network and host. Two endpoints on one host overwrite
//! each other's routes, so the second one refuses to start. The exclusion
//! is a lock that the kernel drops with its holder; this is what the lock
//! is called and what is said about it.

use vstd::prelude::*;

use crate::text::{chars_of, decimal, decimal_text, say, said, slice, str_eq, texts, trim, trimmed};

verus! {

/// The characters that a lock's name keeps.
pub open spec fn kept_in_name(c: char) -> bool {
    ('a' <= c && c <= 'z') || ('A' <= c && c <= 'Z') || ('0' <= c && c <= '9') || c == '-' || c
        == '_'
}

/// A hexadecimal digit.
pub open spec fn hex_digit(n: u32) -> char {
    match n {
        0 => '0',
        1 => '1',
        2 => '2',
        3 => '3',
        4 => '4',
        5 => '5',
        6 => '6',
        7 => '7',
        8 => '8',
        9 => '9',
        10 => 'a',
        11 => 'b',
        12 => 'c',
        13 => 'd',
        14 => 'e',
        _ => 'f',
    }
}

/// A character as it stands in a lock's name: itself where it is kept, and
/// otherwise a mark, which is never kept, and its six hexadecimal digits.
pub open spec fn in_name(c: char) -> Seq<char> {
    if kept_in_name(c) {
        seq![c]
    } else {
        let n = c as u32;
        seq![
            '%',
            hex_digit(n / 0x100000 % 16),
            hex_digit(n / 0x10000 % 16),
            hex_digit(n / 0x1000 % 16),
            hex_digit(n / 0x100 % 16),
            hex_digit(n / 0x10 % 16),
            hex_digit(n % 16),
        ]
    }
}

/// A network's id with everything written out that could name a path.
pub open spec fn path_safe(id: Seq<char>) -> Seq<char>
    decreases id.len(),
{
    if id.len() == 0 {
        Seq::empty()
    } else {
        in_name(id[0]) + path_safe(id.drop_first())
    }
}

/// The name of the lock file of a network.
pub open spec fn lock_file(id: Seq<char>) -> Seq<char> {
    "nqvpn-"@ + path_safe(id) + ".lock"@
}

fn push_hex(out: &mut Vec<char>, n: u32)
    requires
        n < 16,
    ensures
        final(out)@ == old(out)@.push(hex_digit(n)),
{
    let c = match n {
        0 => '0',
        1 => '1',
        2 => '2',
        3 => '3',
        4 => '4',
        5 => '5',
        6 => '6',
        7 => '7',
        8 => '8',
        9 => '9',
        10 => 'a',
        11 => 'b',
        12 => 'c',
        13 => 'd',
        14 => 'e',
        _ => 'f',
    };
    out.push(c);
}

fn push_safe(out: &mut Vec<char>, c: char)
    ensures
        final(out)@ == old(out)@ + in_name(c),
{
    let keep = ('a' <= c && c <= 'z') || ('A' <= c && c <= 'Z') || ('0' <= c && c <= '9') || c
        == '-' || c == '_';
    if keep {
        out.push(c);
    } else {
        let n: u32 = c as u32;
        out.push('%');
        push_hex(out, n / 0x100000 % 16);
        push_hex(out, n / 0x10000 % 16);
        push_hex(out, n / 0x1000 % 16);
        push_hex(out, n / 0x100 % 16);
        push_hex(out, n / 0x10 % 16);
        push_hex(out, n % 16);
    }
    assert(out@ =~= old(out)@ + in_name(c));
}

/// The name of the lock file of a network.
pub fn lock_name(network_id: &str) -> (r: String)
    ensures
        r@ == lock_file(network_id@),
{
    let chars = chars_of(network_id);
    let mut safe: Vec<char> = Vec::new();
    let mut i: usize = 0;
    assert(chars@.skip(0) =~= chars@);
    assert(safe@ + path_safe(chars@) =~= path_safe(chars@));
    while i < chars.len()
        invariant
            i <= chars@.len(),
            safe@ + path_safe(chars@.skip(i as int)) == path_safe(chars@),
        decreases chars.len() - i,
    {
        let ghost was = safe@;
        push_safe(&mut safe, chars[i]);
        assert(chars@.skip(i as int).drop_first() =~= chars@.skip(i + 1));
        assert(safe@ + path_safe(chars@.skip(i + 1)) =~= was + path_safe(chars@.skip(i as int)));
        i = i + 1;
    }
    assert(safe@ =~= path_safe(chars@));
    assert(safe@.subrange(0, safe@.len() as int) =~= safe@);
    let middle = slice(&safe, 0, safe.len());
    let mut out = "nqvpn-".to_owned();
    out.append(middle.as_str());
    out.append(".lock");
    out
}

/// A network's id cannot name another directory, whatever it holds.
pub proof fn law_an_id_cannot_leave_the_lock_directory(id: Seq<char>)
    ensures
        !path_safe(id).contains('/'),
        !path_safe(id).contains('.'),
    decreases id.len(),
{
    if id.len() > 0 {
        law_an_id_cannot_leave_the_lock_directory(id.drop_first());
        let a = in_name(id[0]);
        let b = path_safe(id.drop_first());
        assert forall|i: int| 0 <= i < path_safe(id).len() implies path_safe(id)[i] != '/'
            && path_safe(id)[i] != '.' by {
            if i < a.len() {
                assert(path_safe(id)[i] == a[i]);
            } else {
                assert(path_safe(id)[i] == b[i - a.len()]);
                assert(b.contains(b[i - a.len()]));
            }
        }
    }
}

proof fn lemma_hex_digit(a: u32, b: u32)
    requires
        a < 16,
        b < 16,
        hex_digit(a) == hex_digit(b),
    ensures
        a == b,
{
}

proof fn lemma_in_name(a: char, b: char)
    requires
        in_name(a).len() == in_name(b).len(),
        in_name(a) == in_name(b),
    ensures
        a == b,
{
    let (s, t) = (in_name(a), in_name(b));
    assert(s[0] == t[0]);
    if !kept_in_name(a) {
        let (m, n) = (a as u32, b as u32);
        assert(s[1] == t[1] && s[2] == t[2] && s[3] == t[3] && s[4] == t[4] && s[5] == t[5] && s[6]
            == t[6]);
        lemma_hex_digit(m / 0x100000 % 16, n / 0x100000 % 16);
        lemma_hex_digit(m / 0x10000 % 16, n / 0x10000 % 16);
        lemma_hex_digit(m / 0x1000 % 16, n / 0x1000 % 16);
        lemma_hex_digit(m / 0x100 % 16, n / 0x100 % 16);
        lemma_hex_digit(m / 0x10 % 16, n / 0x10 % 16);
        lemma_hex_digit(m % 16, n % 16);
        assert(m < 0x1000000 && n < 0x1000000);
        assert(m == n);
    }
}

proof fn lemma_path_safe(a: Seq<char>, b: Seq<char>)
    requires
        path_safe(a) == path_safe(b),
    ensures
        a == b,
    decreases a.len(),
{
    if a.len() == 0 || b.len() == 0 {
        if a.len() > 0 {
            assert(path_safe(a).len() == in_name(a[0]).len() + path_safe(a.drop_first()).len());
        }
        if b.len() > 0 {
            assert(path_safe(b).len() == in_name(b[0]).len() + path_safe(b.drop_first()).len());
        }
        assert(a =~= b);
    } else {
        let (s, t) = (in_name(a[0]), in_name(b[0]));
        let (u, v) = (path_safe(a.drop_first()), path_safe(b.drop_first()));
        assert(path_safe(a)[0] == s[0]);
        assert(path_safe(b)[0] == t[0]);
        assert(s.len() == t.len());
        assert(path_safe(a).take(s.len() as int) =~= s);
        assert(path_safe(b).take(s.len() as int) =~= t);
        assert(path_safe(a).skip(s.len() as int) =~= u);
        assert(path_safe(b).skip(s.len() as int) =~= v);
        lemma_in_name(a[0], b[0]);
        lemma_path_safe(a.drop_first(), b.drop_first());
        assert(a =~= seq![a[0]] + a.drop_first());
        assert(b =~= seq![b[0]] + b.drop_first());
    }
}

/// Different networks have different locks, whatever their ids hold:
/// endpoints of different networks do not fight.
pub proof fn law_different_networks_do_not_conflict(a: Seq<char>, b: Seq<char>)
    requires
        lock_file(a) == lock_file(b),
    ensures
        a == b,
{
    let (x, y) = ("nqvpn-"@, ".lock"@);
    assert(lock_file(a).len() == x.len() + path_safe(a).len() + y.len());
    assert(lock_file(b).len() == x.len() + path_safe(b).len() + y.len());
    assert(lock_file(a).subrange(x.len() as int, (x.len() + path_safe(a).len()) as int) =~= path_safe(a));
    assert(lock_file(b).subrange(x.len() as int, (x.len() + path_safe(b).len()) as int) =~= path_safe(b));
    lemma_path_safe(a, b);
}

/// An id of kept characters stands in the name as it is.
pub proof fn law_an_ordinary_id_is_its_own_name(id: Seq<char>)
    requires
        forall|i: int| 0 <= i < id.len() ==> kept_in_name(#[trigger] id[i]),
    ensures
        path_safe(id) == id,
    decreases id.len(),
{
    if id.len() > 0 {
        let d = id.drop_first();
        assert forall|i: int| 0 <= i < d.len() implies kept_in_name(#[trigger] d[i]) by {
            assert(d[i] == id[i + 1]);
        }
        law_an_ordinary_id_is_its_own_name(d);
        assert(path_safe(id) =~= id);
    } else {
        assert(path_safe(id) =~= id);
    }
}

/// Who holds a lock, by what its file says.
pub open spec fn holder(content: Seq<char>) -> Seq<char> {
    if trimmed(content).len() == 0 {
        "unknown"@
    } else {
        trimmed(content)
    }
}

/// What the second endpoint is told.
pub open spec fn refusal(network_id: Seq<char>, content: Seq<char>, path: Seq<char>) -> Seq<char> {
    "another nqvpn endpoint for network "@ + network_id + " is already running on this host ("@
        + holder(content)
        + ").\n\nTwo endpoints on one host overwrite each other's routes, and traffic then stops silently in one direction. A relay that has a VPN address is already a full member of the network, so running a client beside it is redundant — stop one of them.\n\nIf that relay is meant to be a pure forwarder, set want_vpn_ip = false and give it no gateway CIDRs; it will then take no address and never conflict.\n\nLock: "@
        + path
}

/// What the second endpoint is told.
pub fn refusal_text(network_id: &str, content: &str, path: &str) -> (r: String)
    ensures
        r@ == refusal(network_id@, content@, path@),
{
    let held = trim(content);
    let mut out = "another nqvpn endpoint for network ".to_owned();
    out.append(network_id);
    out.append(" is already running on this host (");
    proof {
        reveal_strlit("");
        assert(held@.len() == 0 ==> held@ =~= ""@);
    }
    if str_eq(held.as_str(), "") {
        out.append("unknown");
    } else {
        out.append(held.as_str());
    }
    out.append(
        ").\n\nTwo endpoints on one host overwrite each other's routes, and traffic then stops silently in one direction. A relay that has a VPN address is already a full member of the network, so running a client beside it is redundant — stop one of them.\n\nIf that relay is meant to be a pure forwarder, set want_vpn_ip = false and give it no gateway CIDRs; it will then take no address and never conflict.\n\nLock: ",
    );
    out.append(path);
    out
}

/// What the holder records in the file, so that a refusal can name it.
pub fn record_line(pid: u32, who: &str) -> (r: String)
    ensures
        r@ == said(seq!["pid "@, decimal(pid as nat), " — "@, who@, "\n"@]),
{
    let n = decimal_text(pid as u64);
    let parts = vec!["pid ", n.as_str(), " — ", who, "\n"];
    assert(texts(parts@) =~= seq!["pid "@, decimal(pid as nat), " — "@, who@, "\n"@]);
    say(&parts)
}

} // verus!
