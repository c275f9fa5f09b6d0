//! Text: comparison, order, copying and decimal numbers, each stated on
//! the sequence of characters.

use vstd::prelude::*;
use vstd::string::*;
use vstd::utf8::*;

verus! {

/// The order of byte strings: the first difference decides, and a prefix
/// comes before what it is a prefix of.
pub open spec fn bytes_before(a: Seq<u8>, b: Seq<u8>) -> bool
    decreases b.len(),
{
    if b.len() == 0 {
        false
    } else if a.len() == 0 {
        true
    } else if a[0] != b[0] {
        a[0] < b[0]
    } else {
        bytes_before(a.drop_first(), b.drop_first())
    }
}

/// The order of text, which is the order of its UTF-8 bytes.
pub open spec fn text_before(a: Seq<char>, b: Seq<char>) -> bool {
    bytes_before(encode_utf8(a), encode_utf8(b))
}

proof fn lemma_bytes_irreflexive(a: Seq<u8>)
    ensures
        !bytes_before(a, a),
    decreases a.len(),
{
    if a.len() > 0 {
        lemma_bytes_irreflexive(a.drop_first());
    }
}

proof fn lemma_bytes_transitive(a: Seq<u8>, b: Seq<u8>, c: Seq<u8>)
    requires
        bytes_before(a, b),
        bytes_before(b, c),
    ensures
        bytes_before(a, c),
    decreases a.len(),
{
    if a.len() > 0 && b.len() > 0 && c.len() > 0 && a[0] == b[0] && b[0] == c[0] {
        lemma_bytes_transitive(a.drop_first(), b.drop_first(), c.drop_first());
    }
}

proof fn lemma_bytes_total(a: Seq<u8>, b: Seq<u8>)
    ensures
        bytes_before(a, b) || bytes_before(b, a) || a == b,
    decreases a.len(),
{
    if a.len() > 0 && b.len() > 0 && a[0] == b[0] {
        lemma_bytes_total(a.drop_first(), b.drop_first());
        if a.drop_first() == b.drop_first() {
            assert(a =~= seq![a[0]] + a.drop_first());
            assert(b =~= seq![b[0]] + b.drop_first());
        }
    } else if a.len() == 0 && b.len() == 0 {
        assert(a =~= b);
    }
}

/// Text never sorts before itself.
pub proof fn lemma_text_irreflexive(a: Seq<char>)
    ensures
        !text_before(a, a),
{
    lemma_bytes_irreflexive(encode_utf8(a));
}

/// The order of text is transitive.
pub proof fn lemma_text_transitive(a: Seq<char>, b: Seq<char>, c: Seq<char>)
    requires
        text_before(a, b),
        text_before(b, c),
    ensures
        text_before(a, c),
{
    lemma_bytes_transitive(encode_utf8(a), encode_utf8(b), encode_utf8(c));
}

/// Of two different texts one sorts before the other, and never both.
pub proof fn lemma_text_total(a: Seq<char>, b: Seq<char>)
    ensures
        text_before(a, b) || text_before(b, a) || a == b,
        !(text_before(a, b) && text_before(b, a)),
{
    lemma_bytes_total(encode_utf8(a), encode_utf8(b));
    if encode_utf8(a) == encode_utf8(b) {
        lemma_same_bytes_same_text(a, b);
    }
    if text_before(a, b) && text_before(b, a) {
        lemma_text_transitive(a, b, a);
        lemma_text_irreflexive(a);
    }
}

proof fn lemma_same_bytes_same_text(a: Seq<char>, b: Seq<char>)
    requires
        encode_utf8(a) == encode_utf8(b),
    ensures
        a == b,
{
    encode_utf8_decode_utf8(a);
    encode_utf8_decode_utf8(b);
}

/// Are the two byte strings equal?
pub fn bytes_eq(x: &[u8], y: &[u8]) -> (r: bool)
    ensures
        r == (x@ == y@),
{
    if x.len() != y.len() {
        return false;
    }
    let mut i: usize = 0;
    while i < x.len()
        invariant
            i <= x.len(),
            x.len() == y.len(),
            x@.take(i as int) == y@.take(i as int),
        decreases x.len() - i,
    {
        if x[i] != y[i] {
            assert(x@[i as int] != y@[i as int]);
            return false;
        }
        assert(x@.take(i + 1) =~= x@.take(i as int).push(x@[i as int]));
        assert(y@.take(i + 1) =~= y@.take(i as int).push(y@[i as int]));
        i = i + 1;
    }
    assert(x@.take(i as int) =~= x@);
    assert(y@.take(i as int) =~= y@);
    true
}

/// Are the two texts equal?
pub fn str_eq(a: &str, b: &str) -> (r: bool)
    ensures
        r == (a@ == b@),
{
    let r = bytes_eq(a.as_bytes(), b.as_bytes());
    proof {
        if encode_utf8(a@) == encode_utf8(b@) {
            lemma_same_bytes_same_text(a@, b@);
        }
    }
    r
}

/// Does `a` sort before `b`?
pub fn str_before(a: &str, b: &str) -> (r: bool)
    ensures
        r == text_before(a@, b@),
{
    let x = a.as_bytes();
    let y = b.as_bytes();
    assert(x@.skip(0) =~= x@);
    assert(y@.skip(0) =~= y@);
    let mut i: usize = 0;
    while i < x.len() && i < y.len() && x[i] == y[i]
        invariant
            i <= x.len(),
            i <= y.len(),
            bytes_before(x@, y@) == bytes_before(x@.skip(i as int), y@.skip(i as int)),
        decreases x.len() - i,
    {
        assert(x@.skip(i as int).drop_first() =~= x@.skip(i + 1));
        assert(y@.skip(i as int).drop_first() =~= y@.skip(i + 1));
        i = i + 1;
    }
    if i == y.len() {
        false
    } else if i == x.len() {
        true
    } else {
        x[i] < y[i]
    }
}

/// The characters of an optional text.
pub open spec fn opt_text(o: Option<String>) -> Option<Seq<char>> {
    match o {
        Some(s) => Some(s@),
        None => None,
    }
}

/// A copy of an optional text.
pub fn copy_opt(o: &Option<String>) -> (r: Option<String>)
    ensures
        r == *o,
{
    match o {
        Some(s) => Some(s.clone()),
        None => None,
    }
}

/// Are the two optional texts equal?
pub fn opt_eq(a: &Option<String>, b: &Option<String>) -> (r: bool)
    ensures
        r == (opt_text(*a) == opt_text(*b)),
{
    match (a, b) {
        (Some(x), Some(y)) => str_eq(x.as_str(), y.as_str()),
        (None, None) => true,
        _ => false,
    }
}

/// The characters of a text, one by one.
pub fn chars_of(s: &str) -> (r: Vec<char>)
    ensures
        r@ == s@,
{
    let mut out: Vec<char> = Vec::new();
    for c in it: s.chars()
        invariant
            it.seq() == s@,
            out@ == s@.take(it.index()),
    {
        out.push(c);
        assert(s@.take(it.index() + 1) =~= s@.take(it.index()).push(c));
    }
    assert(s@.take(s@.len() as int) =~= s@);
    out
}

/// The digit `d` as a character.
pub open spec fn digit(d: nat) -> char {
    (48 + d % 10) as char
}

/// A number in decimal, without leading zeros.
pub open spec fn decimal(n: nat) -> Seq<char>
    decreases n,
{
    if n < 10 {
        seq![digit(n)]
    } else {
        decimal(n / 10).push(digit(n % 10))
    }
}

fn digit_text(d: u64) -> (r: &'static str)
    requires
        d < 10,
    ensures
        r@ == seq![digit(d as nat)],
{
    proof {
        reveal_strlit("0");
        reveal_strlit("1");
        reveal_strlit("2");
        reveal_strlit("3");
        reveal_strlit("4");
        reveal_strlit("5");
        reveal_strlit("6");
        reveal_strlit("7");
        reveal_strlit("8");
        reveal_strlit("9");
    }
    let r = match d {
        0 => "0",
        1 => "1",
        2 => "2",
        3 => "3",
        4 => "4",
        5 => "5",
        6 => "6",
        7 => "7",
        8 => "8",
        _ => "9",
    };
    assert(r@ =~= seq![digit(d as nat)]);
    r
}

/// Append a number in decimal.
pub fn push_decimal(s: &mut String, n: u64)
    ensures
        final(s)@ == old(s)@ + decimal(n as nat),
    decreases n,
{
    if n >= 10 {
        push_decimal(s, n / 10);
    }
    s.append(digit_text(n % 10));
    assert(s@ =~= old(s)@ + decimal(n as nat));
}

/// A number in decimal.
pub fn decimal_text(n: u64) -> (r: String)
    ensures
        r@ == decimal(n as nat),
{
    let mut s = String::new();
    push_decimal(&mut s, n);
    assert(s@ =~= decimal(n as nat));
    s
}

/// The parts of a message, one behind the other.
pub open spec fn said(parts: Seq<Seq<char>>) -> Seq<char>
    decreases parts.len(),
{
    if parts.len() == 0 {
        Seq::empty()
    } else {
        said(parts.drop_last()) + parts.last()
    }
}

/// The characters of each text.
pub open spec fn texts(parts: Seq<&str>) -> Seq<Seq<char>> {
    parts.map_values(|p: &str| p@)
}

/// Put the parts of a message together.
pub fn say(parts: &Vec<&str>) -> (r: String)
    ensures
        r@ == said(texts(parts@)),
{
    let mut out = String::new();
    let mut i: usize = 0;
    while i < parts.len()
        invariant
            i <= parts.len(),
            out@ == said(texts(parts@.take(i as int))),
        decreases parts.len() - i,
    {
        out.append(parts[i]);
        assert(texts(parts@.take(i + 1)).drop_last() =~= texts(parts@.take(i as int)));
        i = i + 1;
    }
    assert(parts@.take(i as int) =~= parts@);
    out
}

/// A text as `Debug` writes it: in quotes, with escapes.
pub uninterp spec fn debug_text(s: Seq<char>) -> Seq<char>;

/// `Debug` of `str`, which is a function of the text.
#[verifier::external_body]
pub(crate) fn quoted(s: &str) -> (r: String)
    ensures
        r@ == debug_text(s@),
{
    format!("{s:?}")
}

/// The characters with the Unicode property `White_Space`.
pub open spec fn is_white(c: char) -> bool {
    let n = c as u32;
    ||| 0x9 <= n <= 0xd
    ||| n == 0x20
    ||| n == 0x85
    ||| n == 0xa0
    ||| n == 0x1680
    ||| 0x2000 <= n <= 0x200a
    ||| n == 0x2028
    ||| n == 0x2029
    ||| n == 0x202f
    ||| n == 0x205f
    ||| n == 0x3000
}

fn white(c: char) -> (r: bool)
    ensures
        r == is_white(c),
{
    let n = c as u32;
    (0x9 <= n && n <= 0xd) || n == 0x20 || n == 0x85 || n == 0xa0 || n == 0x1680 || (0x2000 <= n
        && n <= 0x200a) || n == 0x2028 || n == 0x2029 || n == 0x202f || n == 0x205f || n == 0x3000
}

/// The text without white space at its start.
pub open spec fn trimmed_start(s: Seq<char>) -> Seq<char>
    decreases s.len(),
{
    if s.len() > 0 && is_white(s[0]) {
        trimmed_start(s.drop_first())
    } else {
        s
    }
}

/// The text without white space at its end.
pub open spec fn trimmed_end(s: Seq<char>) -> Seq<char>
    decreases s.len(),
{
    if s.len() > 0 && is_white(s.last()) {
        trimmed_end(s.drop_last())
    } else {
        s
    }
}

/// The text without the white space around it.
pub open spec fn trimmed(s: Seq<char>) -> Seq<char> {
    trimmed_end(trimmed_start(s))
}

/// Blanks and the controls that end lines are white space; what is printed in
/// ASCII is not.
pub proof fn law_blanks_are_white_space(c: char)
    ensures
        c == ' ' || c == '\t' || c == '\n' || c == '\r' ==> is_white(c),
        '!' <= c <= '~' ==> !is_white(c),
{
}

proof fn lemma_trimmed_start(s: Seq<char>) -> (a: int)
    ensures
        0 <= a <= s.len(),
        trimmed_start(s) == s.subrange(a, s.len() as int),
        forall|i: int| 0 <= i < a ==> is_white(#[trigger] s[i]),
        a < s.len() ==> !is_white(s[a]),
    decreases s.len(),
{
    if s.len() > 0 && is_white(s[0]) {
        let d = s.drop_first();
        let a = lemma_trimmed_start(d);
        assert(d.subrange(a, d.len() as int) =~= s.subrange(a + 1, s.len() as int));
        assert forall|i: int| 0 <= i < a + 1 implies is_white(#[trigger] s[i]) by {
            if i > 0 {
                assert(s[i] == d[i - 1]);
            }
        }
        a + 1
    } else {
        assert(s.subrange(0, s.len() as int) =~= s);
        0
    }
}

proof fn lemma_trimmed_end(s: Seq<char>) -> (b: int)
    ensures
        0 <= b <= s.len(),
        trimmed_end(s) == s.subrange(0, b),
        forall|i: int| b <= i < s.len() ==> is_white(#[trigger] s[i]),
        b > 0 ==> !is_white(s[b - 1]),
    decreases s.len(),
{
    if s.len() > 0 && is_white(s.last()) {
        let d = s.drop_last();
        let b = lemma_trimmed_end(d);
        assert(d.subrange(0, b) =~= s.subrange(0, b));
        assert forall|i: int| b <= i < s.len() implies is_white(#[trigger] s[i]) by {
            if i < d.len() {
                assert(s[i] == d[i]);
            }
        }
        b
    } else {
        assert(s.subrange(0, s.len() as int) =~= s);
        s.len() as int
    }
}

/// Trimming takes the white space off both ends of a text, and nothing else.
pub proof fn law_trimming_takes_white_space_off_the_ends(s: Seq<char>)
    ensures
        exists|a: int, b: int|
            0 <= a <= b <= s.len() && trimmed(s) == #[trigger] s.subrange(a, b) && (forall|i: int|
                0 <= i < a ==> is_white(#[trigger] s[i])) && (forall|i: int|
                b <= i < s.len() ==> is_white(#[trigger] s[i])) && (a < b ==> !is_white(s[a])
                && !is_white(s[b - 1])),
        s.len() > 0 && !is_white(s[0]) && !is_white(s.last()) ==> trimmed(s) == s,
{
    let a = lemma_trimmed_start(s);
    let t = trimmed_start(s);
    let n = lemma_trimmed_end(t);
    let b = a + n;
    assert(t.subrange(0, n) =~= s.subrange(a, b));
    assert forall|i: int| b <= i < s.len() implies is_white(#[trigger] s[i]) by {
        assert(s[i] == t[i - a]);
    }
    if a < b {
        assert(s[b - 1] == t[n - 1]);
    }
    if s.len() > 0 && !is_white(s[0]) && !is_white(s.last()) {
        assert(a == 0);
        assert(t =~= s);
        assert(b == s.len());
        assert(s.subrange(0, b) =~= s);
    }
    assert(trimmed(s) == s.subrange(a, b));
}

/// The text from `from` to `to`, counted in characters.
pub fn slice(chars: &Vec<char>, from: usize, to: usize) -> (r: String)
    requires
        from <= to <= chars@.len(),
    ensures
        r@ == chars@.subrange(from as int, to as int),
{
    let mut out = String::new();
    let mut i: usize = from;
    while i < to
        invariant
            from <= i <= to <= chars@.len(),
            out@ == chars@.subrange(from as int, i as int),
        decreases to - i,
    {
        push_char(&mut out, chars[i]);
        assert(out@ =~= chars@.subrange(from as int, i + 1));
        i = i + 1;
    }
    out
}

/// `String::push`: appends one character.
#[verifier::external_body]
fn push_char(s: &mut String, c: char)
    ensures
        final(s)@ == old(s)@.push(c),
{
    s.push(c)
}

/// Where the text without leading white space starts.
fn trim_front(chars: &Vec<char>) -> (r: usize)
    ensures
        r <= chars@.len(),
        chars@.skip(r as int) == trimmed_start(chars@),
{
    let mut i: usize = 0;
    assert(chars@.skip(0) =~= chars@);
    while i < chars.len() && white(chars[i])
        invariant
            i <= chars.len(),
            trimmed_start(chars@.skip(i as int)) == trimmed_start(chars@),
        decreases chars.len() - i,
    {
        assert(chars@.skip(i as int).drop_first() =~= chars@.skip(i + 1));
        i = i + 1;
    }
    i
}

/// The text without the white space around it.
pub fn trim(s: &str) -> (r: String)
    ensures
        r@ == trimmed(s@),
{
    let chars = chars_of(s);
    let from = trim_front(&chars);
    let mut to: usize = chars.len();
    assert(chars@.subrange(from as int, to as int) =~= chars@.skip(from as int));
    while to > from && white(chars[to - 1])
        invariant
            from <= to <= chars@.len(),
            trimmed_end(chars@.subrange(from as int, to as int)) == trimmed_end(
                chars@.skip(from as int),
            ),
        decreases to - from,
    {
        let ghost t = chars@.subrange(from as int, to as int);
        assert(t.last() == chars@[to - 1]);
        assert(t.drop_last() =~= chars@.subrange(from as int, to - 1));
        to = to - 1;
    }
    if to > from {
        assert(chars@.subrange(from as int, to as int).last() == chars@[to - 1]);
    }
    slice(&chars, from, to)
}

/// The text without any `c` at its start.
pub open spec fn without_leading(s: Seq<char>, c: char) -> Seq<char>
    decreases s.len(),
{
    if s.len() > 0 && s[0] == c {
        without_leading(s.drop_first(), c)
    } else {
        s
    }
}

/// The text without any `c` at its end.
pub open spec fn without_trailing(s: Seq<char>, c: char) -> Seq<char>
    decreases s.len(),
{
    if s.len() > 0 && s.last() == c {
        without_trailing(s.drop_last(), c)
    } else {
        s
    }
}

/// The text without any `c` at its start.
pub fn strip_leading(s: &str, c: char) -> (r: String)
    ensures
        r@ == without_leading(s@, c),
{
    let chars = chars_of(s);
    let mut i: usize = 0;
    assert(chars@.skip(0) =~= chars@);
    while i < chars.len() && chars[i] == c
        invariant
            i <= chars.len(),
            without_leading(chars@.skip(i as int), c) == without_leading(chars@, c),
        decreases chars.len() - i,
    {
        assert(chars@.skip(i as int).drop_first() =~= chars@.skip(i + 1));
        i = i + 1;
    }
    assert(chars@.subrange(i as int, chars@.len() as int) =~= chars@.skip(i as int));
    slice(&chars, i, chars.len())
}

/// The text without any `c` at its end.
pub fn strip_trailing(s: &str, c: char) -> (r: String)
    ensures
        r@ == without_trailing(s@, c),
{
    let chars = chars_of(s);
    let mut to: usize = chars.len();
    assert(chars@.take(to as int) =~= chars@);
    while to > 0 && chars[to - 1] == c
        invariant
            to <= chars@.len(),
            without_trailing(chars@.take(to as int), c) == without_trailing(chars@, c),
        decreases to,
    {
        assert(chars@.take(to as int).last() == chars@[to - 1]);
        assert(chars@.take(to as int).drop_last() =~= chars@.take(to - 1));
        to = to - 1;
    }
    if to > 0 {
        assert(chars@.take(to as int).last() == chars@[to - 1]);
    }
    assert(chars@.subrange(0, to as int) =~= chars@.take(to as int));
    slice(&chars, 0, to)
}

/// The position of the last `c`.
pub open spec fn last_position(s: Seq<char>, c: char) -> Option<int>
    decreases s.len(),
{
    if s.len() == 0 {
        None
    } else if s.last() == c {
        Some(s.len() - 1)
    } else {
        last_position(s.drop_last(), c)
    }
}

/// The position of the first `c`.
pub open spec fn first_position(s: Seq<char>, c: char) -> Option<int>
    decreases s.len(),
{
    if s.len() == 0 {
        None
    } else if s[0] == c {
        Some(0)
    } else {
        match first_position(s.drop_first(), c) {
            Some(i) => Some(i + 1),
            None => None,
        }
    }
}

/// What stands before and behind the last `c`.
pub open spec fn split_last(s: Seq<char>, c: char) -> Option<(Seq<char>, Seq<char>)> {
    match last_position(s, c) {
        Some(i) => Some((s.take(i), s.skip(i + 1))),
        None => None,
    }
}

/// What stands before and behind the first `c`.
pub open spec fn split_first(s: Seq<char>, c: char) -> Option<(Seq<char>, Seq<char>)> {
    match first_position(s, c) {
        Some(i) => Some((s.take(i), s.skip(i + 1))),
        None => None,
    }
}

proof fn lemma_last_position(s: Seq<char>, c: char)
    ensures
        last_position(s, c) matches Some(i) ==> 0 <= i < s.len(),
    decreases s.len(),
{
    if s.len() > 0 {
        lemma_last_position(s.drop_last(), c);
    }
}

/// A text splits at its last separator: the parts with the separator between
/// them are the text, and the second part holds no separator. A text without
/// one does not split.
pub proof fn law_the_last_separator_splits(s: Seq<char>, c: char)
    ensures
        match split_last(s, c) {
            Some((a, b)) => s == a.push(c) + b && forall|i: int| 0 <= i < b.len() ==> b[i] != c,
            None => forall|i: int| 0 <= i < s.len() ==> s[i] != c,
        },
        forall|i: int|
            0 <= i < s.len() && #[trigger] s[i] == c && (forall|j: int|
                i < j < s.len() ==> s[j] != c) ==> split_last(s, c) == Some(
                (s.subrange(0, i), s.subrange(i + 1, s.len() as int)),
            ),
    decreases s.len(),
{
    lemma_last_position(s, c);
    if s.len() > 0 {
        let d = s.drop_last();
        assert forall|i: int| 0 <= i < d.len() implies d[i] == #[trigger] s[i] by {}
        law_the_last_separator_splits(d, c);
        lemma_last_position(d, c);
        match last_position(s, c) {
            Some(i) => {
                assert(s[i] == c && forall|j: int| i < j < s.len() ==> s[j] != c) by {
                    if s.last() != c {
                        let (x, y) = (d.take(i), d.skip(i + 1));
                        assert(split_last(d, c) == Some((x, y)));
                        assert(d[i] == (x.push(c) + y)[i]);
                        assert forall|j: int| i < j < s.len() implies s[j] != c by {
                            if j < d.len() {
                                assert(d[j] == y[j - i - 1]);
                            }
                        }
                    }
                }
                assert(s =~= s.take(i).push(c) + s.skip(i + 1));
                assert(s.take(i) =~= s.subrange(0, i));
                assert(s.skip(i + 1) =~= s.subrange(i + 1, s.len() as int));
            },
            None => {},
        }
    }
}

/// A text splits at its first separator: the parts with the separator between
/// them are the text, and the first part holds no separator. A text without
/// one does not split.
pub proof fn law_the_first_separator_splits(s: Seq<char>, c: char)
    ensures
        match split_first(s, c) {
            Some((a, b)) => s == a.push(c) + b && forall|i: int| 0 <= i < a.len() ==> a[i] != c,
            None => forall|i: int| 0 <= i < s.len() ==> s[i] != c,
        },
    decreases s.len(),
{
    lemma_first_position(s, c);
    if s.len() > 0 {
        let d = s.drop_first();
        assert forall|i: int| 0 < i < s.len() implies d[i - 1] == #[trigger] s[i] by {}
        law_the_first_separator_splits(d, c);
        lemma_first_position(d, c);
        if let Some(i) = first_position(s, c) {
            let a = s.take(i);
            assert(s =~= a.push(c) + s.skip(i + 1));
            assert forall|j: int| 0 <= j < a.len() implies a[j] != c by {
                if j > 0 {
                    assert(d.take(i - 1)[j - 1] == a[j]);
                }
            }
        }
    }
}

/// Split at the last `c`.
pub fn rsplit_once(s: &str, c: char) -> (r: Option<(String, String)>)
    ensures
        match r {
            Some((a, b)) => split_last(s@, c) == Some((a@, b@)),
            None => split_last(s@, c) is None,
        },
{
    let chars = chars_of(s);
    let mut i: usize = chars.len();
    assert(chars@.take(i as int) =~= chars@);
    while i > 0
        invariant
            i <= chars@.len(),
            chars@ == s@,
            last_position(chars@.take(i as int), c) == last_position(chars@, c),
        decreases i,
    {
        assert(chars@.take(i as int).last() == chars@[i - 1]);
        if chars[i - 1] == c {
            assert(chars@.subrange(0, i - 1) =~= s@.take(i - 1));
            assert(chars@.subrange(i as int, chars@.len() as int) =~= s@.skip(i as int));
            return Some((slice(&chars, 0, i - 1), slice(&chars, i, chars.len())));
        }
        assert(chars@.take(i as int).drop_last() =~= chars@.take(i - 1));
        i = i - 1;
    }
    None
}

proof fn lemma_first_position_skip(s: Seq<char>, c: char, i: int)
    requires
        0 <= i <= s.len(),
        forall|j: int| 0 <= j < i ==> s[j] != c,
    ensures
        first_position(s, c) == match first_position(s.skip(i), c) {
            Some(k) => Some(k + i),
            None => None,
        },
    decreases i,
{
    if i == 0 {
        assert(s.skip(0) =~= s);
    } else {
        lemma_first_position_skip(s.drop_first(), c, i - 1);
        assert(s.drop_first().skip(i - 1) =~= s.skip(i));
    }
}

/// A position that is found is one of the text.
pub proof fn lemma_first_position(s: Seq<char>, c: char)
    ensures
        first_position(s, c) matches Some(i) ==> 0 <= i < s.len() && s[i] == c,
    decreases s.len(),
{
    if s.len() > 0 {
        lemma_first_position(s.drop_first(), c);
    }
}

/// Split at the first `c`.
pub fn split_once(s: &str, c: char) -> (r: Option<(String, String)>)
    ensures
        match r {
            Some((a, b)) => split_first(s@, c) == Some((a@, b@)),
            None => split_first(s@, c) is None,
        },
{
    let chars = chars_of(s);
    let mut i: usize = 0;
    while i < chars.len()
        invariant
            i <= chars@.len(),
            chars@ == s@,
            forall|j: int| 0 <= j < i ==> s@[j] != c,
        decreases chars.len() - i,
    {
        if chars[i] == c {
            proof {
                lemma_first_position_skip(s@, c, i as int);
            }
            assert(chars@.subrange(0, i as int) =~= s@.take(i as int));
            assert(chars@.subrange(i + 1, chars@.len() as int) =~= s@.skip(i + 1));
            return Some((slice(&chars, 0, i), slice(&chars, i + 1, chars.len())));
        }
        i = i + 1;
    }
    proof {
        lemma_first_position_skip(s@, c, i as int);
        assert(s@.skip(i as int) =~= Seq::empty());
    }
    None
}

/// Is the character a decimal digit?
pub open spec fn is_digit(c: char) -> bool {
    '0' <= c <= '9'
}

/// The number that decimal digits spell.
pub open spec fn digits_value(s: Seq<char>) -> nat
    decreases s.len(),
{
    if s.len() == 0 {
        0
    } else {
        digits_value(s.drop_last()) * 10 + (s.last() as nat - '0' as nat) as nat
    }
}

/// The number that a text spells, up to `max`: digits, behind an optional
/// plus sign.
pub open spec fn number_read(s: Seq<char>, max: nat) -> Option<nat> {
    let d = if s.len() > 0 && s[0] == '+' {
        s.drop_first()
    } else {
        s
    };
    if d.len() > 0 && all_digits(d) && digits_value(d) <= max {
        Some(digits_value(d))
    } else {
        None
    }
}

/// Every character is a decimal digit.
pub open spec fn all_digits(s: Seq<char>) -> bool {
    forall|i: int| 0 <= i < s.len() ==> is_digit(#[trigger] s[i])
}

proof fn lemma_digits_grow(s: Seq<char>, i: int)
    requires
        0 <= i <= s.len(),
        forall|j: int| 0 <= j < s.len() ==> is_digit(#[trigger] s[j]),
    ensures
        digits_value(s.take(i)) <= digits_value(s),
    decreases s.len() - i,
{
    if i == s.len() {
        assert(s.take(i) =~= s);
    } else {
        lemma_digits_grow(s, i + 1);
        assert(s.take(i + 1).drop_last() =~= s.take(i));
        assert(is_digit(s.take(i + 1).last())) by {
            assert(s.take(i + 1).last() == s[i]);
        }
    }
}

/// The number that a text spells, up to `max`.
pub fn parse_number(s: &str, max: u64) -> (r: Option<u64>)
    requires
        max <= 0xffff_ffff_ffff,
    ensures
        match r {
            Some(n) => number_read(s@, max as nat) == Some(n as nat) && n <= max,
            None => number_read(s@, max as nat) is None,
        },
{
    let chars = chars_of(s);
    let from: usize = if chars.len() > 0 && chars[0] == '+' {
        1
    } else {
        0
    };
    let ghost d = s@.skip(from as int);
    assert(s@.skip(0) =~= s@);
    assert(from == 1 ==> s@.skip(1) =~= s@.drop_first());
    if from == chars.len() {
        return None;
    }
    let mut n: u64 = 0;
    let mut i: usize = from;
    assert(d.take(0) =~= Seq::empty());
    while i < chars.len()
        invariant
            from <= i <= chars@.len(),
            chars@ == s@,
            d == s@.skip(from as int),
            d.len() == chars@.len() - from,
            d.len() > 0,
            number_read(s@, max as nat) == (if all_digits(d) && digits_value(d) <= max {
                Some(digits_value(d))
            } else {
                None
            }),
            max <= 0xffff_ffff_ffff,
            n == digits_value(d.take(i - from)),
            n <= max,
            forall|k: int| 0 <= k < i - from ==> is_digit(#[trigger] d[k]),
        decreases chars.len() - i,
    {
        let c = chars[i];
        assert(c == d[i - from]);
        if c < '0' || c > '9' {
            return None;
        }
        let v = (c as u32 - 48) as u64;
        assert(d.take(i + 1 - from).drop_last() =~= d.take(i - from));
        assert(d.take(i + 1 - from).last() == c);
        n = n * 10 + v;
        if n > max {
            proof {
                if all_digits(d) {
                    lemma_digits_grow(d, i + 1 - from);
                }
            }
            return None;
        }
        i = i + 1;
    }
    assert(d.take(i - from) =~= d);
    Some(n)
}

/// What stands behind a prefix, if the text starts with it.
pub open spec fn behind_prefix(s: Seq<char>, prefix: Seq<char>) -> Option<Seq<char>> {
    if prefix.is_prefix_of(s) {
        Some(s.skip(prefix.len() as int))
    } else {
        None
    }
}

/// What stands behind a prefix, if the text starts with it.
pub fn strip_prefix(s: &str, prefix: &str) -> (r: Option<String>)
    ensures
        opt_text(r) == behind_prefix(s@, prefix@),
{
    let a = chars_of(s);
    let b = chars_of(prefix);
    if b.len() > a.len() {
        return None;
    }
    let mut i: usize = 0;
    while i < b.len()
        invariant
            i <= b@.len() <= a@.len(),
            a@ == s@,
            b@ == prefix@,
            forall|k: int| 0 <= k < i ==> s@[k] == prefix@[k],
        decreases b.len() - i,
    {
        if a[i] != b[i] {
            assert(s@[i as int] != prefix@[i as int]);
            return None;
        }
        i = i + 1;
    }
    assert(prefix@ =~= s@.take(prefix@.len() as int));
    assert(a@.subrange(i as int, a@.len() as int) =~= s@.skip(prefix@.len() as int));
    Some(slice(&a, i, a.len()))
}

/// A number in decimal is made of digits, does not start with a zero unless it
/// is one, and is read back as that number wherever it is not too large.
pub proof fn law_a_number_is_read_back(n: nat, max: nat)
    ensures
        decimal(n).len() > 0,
        forall|i: int|
            0 <= i < decimal(n).len() ==> 0x30 <= (#[trigger] decimal(n)[i]) as int <= 0x39,
        n > 0 ==> decimal(n)[0] != '0',
        digits_value(decimal(n)) == n,
        n <= max ==> number_read(decimal(n), max) == Some(n),
        n > max ==> number_read(decimal(n), max) is None,
    decreases n,
{
    reveal_with_fuel(digits_value, 2);
    if n < 10 {
        let s = decimal(n);
        assert(s.drop_last() =~= Seq::empty());
        assert(s.last() as nat == 48 + n);
    } else {
        law_a_number_is_read_back(n / 10, n / 10);
        let s = decimal(n);
        let d = decimal(n / 10);
        assert(s.drop_last() =~= d);
        assert(s.last() as nat == 48 + n % 10);
        assert forall|i: int| 0 <= i < s.len() implies 0x30 <= (#[trigger] s[i]) as int <= 0x39 by {
            if i < d.len() {
                assert(s[i] == d[i]);
            }
        }
        assert(s[0] == d[0]);
    }
    let s = decimal(n);
    assert forall|i: int| 0 <= i < s.len() implies is_digit(#[trigger] s[i]) by {}
    assert(s[0] != '+');
}

/// One text stands before another where it is a beginning of it, or where the
/// first byte in which they differ is the lower one.
pub proof fn law_texts_are_ordered_by_their_bytes(a: Seq<u8>, b: Seq<u8>, k: int)
    requires
        0 <= k,
        k <= a.len(),
        k <= b.len(),
        forall|i: int| 0 <= i < k ==> a[i] == b[i],
    ensures
        k < a.len() && k < b.len() && a[k] != b[k] ==> (bytes_before(a, b) <==> a[k] < b[k]),
        k == a.len() && k < b.len() ==> bytes_before(a, b),
        k == b.len() ==> !bytes_before(a, b),
    decreases k,
{
    if k > 0 {
        let x = a.drop_first();
        let y = b.drop_first();
        assert forall|i: int| 0 <= i < k - 1 implies x[i] == y[i] by {
            assert(a[i + 1] == b[i + 1]);
        }
        law_texts_are_ordered_by_their_bytes(x, y, k - 1);
        assert(a[0] == b[0]);
        if k < a.len() {
            assert(x[k - 1] == a[k]);
        }
        if k < b.len() {
            assert(y[k - 1] == b[k]);
        }
    }
}

} // verus!
