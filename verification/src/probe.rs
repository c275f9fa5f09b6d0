//! The plain HTTP exchange of the probe, a member for development.

use vstd::prelude::*;

use crate::text::{chars_of, decimal, decimal_text, said, say, slice, texts};

verus! {

/// What stands in front of the first colon.
pub open spec fn host_part(api: Seq<char>) -> Seq<char> {
    match crate::text::split_first(api, ':') {
        Some((h, _)) => h,
        None => api,
    }
}

/// The text of a request, over the length of its body in bytes.
pub open spec fn request(api: Seq<char>, path: Seq<char>, body: Seq<char>, len: nat) -> Seq<
    Seq<char>,
> {
    seq![
        "POST "@,
        path,
        " HTTP/1.1\r\nHost: "@,
        host_part(api),
        "\r\nContent-Type: application/json\r\nContent-Length: "@,
        decimal(len),
        "\r\nConnection: close\r\n\r\n"@,
        body,
    ]
}

/// The text of a request.
pub fn request_text(api: &str, path: &str, body: &str) -> (r: String)
    ensures
        r@ == said(
            request(api@, path@, body@, vstd::utf8::encode_utf8(body@).len()),
        ),
{
    let host = match crate::text::split_once(api, ':') {
        Some((h, _)) => h,
        None => api.to_owned(),
    };
    let len = body.as_bytes().len();
    let n = decimal_text(len as u64);
    let parts = vec![
        "POST ",
        path,
        " HTTP/1.1\r\nHost: ",
        host.as_str(),
        "\r\nContent-Type: application/json\r\nContent-Length: ",
        n.as_str(),
        "\r\nConnection: close\r\n\r\n",
        body,
    ];
    assert(texts(parts@) =~= request(api@, path@, body@, vstd::utf8::encode_utf8(body@).len()));
    say(&parts)
}

/// Whether a pattern stands at a place of a text.
pub open spec fn stands_at(s: Seq<char>, pattern: Seq<char>, i: int) -> bool {
    0 <= i && i + pattern.len() <= s.len() && s.subrange(i, i + pattern.len()) == pattern
}

/// The first place at or behind `from` where a pattern stands.
pub open spec fn found_from(s: Seq<char>, pattern: Seq<char>, from: int) -> Option<int>
    decreases s.len() + 1 - from,
{
    if from > s.len() {
        None
    } else if stands_at(s, pattern, from) {
        Some(from)
    } else {
        found_from(s, pattern, from + 1)
    }
}

/// The first line of a text, without a trailing carriage return.
pub open spec fn first_line(s: Seq<char>) -> Seq<char> {
    let line = match crate::text::split_first(s, '\n') {
        Some((a, _)) => a,
        None => s,
    };
    if crate::text::split_first(s, '\n') is Some && line.len() > 0 && line.last() == '\r' {
        line.drop_last()
    } else {
        line
    }
}

/// What a response says: its payload, or why there is none.
pub open spec fn response(s: Seq<char>) -> Result<Seq<char>, Seq<char>> {
    match found_from(s, "\r\n\r\n"@, 0) {
        None => Err("malformed HTTP response"@),
        Some(i) => {
            let status = first_line(s.take(i));
            let payload = s.skip(i + 4);
            if found_from(status, " 200 "@, 0) is Some {
                Ok(payload)
            } else {
                Err("join failed: "@ + status + "\n"@ + payload)
            }
        },
    }
}

fn at(chars: &Vec<char>, pattern: &Vec<char>, i: usize) -> (r: bool)
    requires
        i <= chars@.len(),
    ensures
        r == stands_at(chars@, pattern@, i as int),
{
    let total = chars.len();
    if total - i < pattern.len() {
        return false;
    }
    let mut k: usize = 0;
    while k < pattern.len()
        invariant
            k <= pattern@.len(),
            total == chars@.len(),
            i + pattern@.len() <= total,
            forall|j: int| 0 <= j < k ==> chars@[i + j] == #[trigger] pattern@[j],
        decreases pattern.len() - k,
    {
        if chars[i + k] != pattern[k] {
            assert(chars@.subrange(i as int, i + pattern@.len())[k as int] != pattern@[k as int]);
            return false;
        }
        k = k + 1;
    }
    assert(chars@.subrange(i as int, i + pattern@.len()) =~= pattern@);
    true
}

fn find(chars: &Vec<char>, pattern: &Vec<char>) -> (r: Option<usize>)
    ensures
        match r {
            Some(i) => found_from(chars@, pattern@, 0) == Some(i as int) && i + pattern@.len()
                <= chars@.len(),
            None => found_from(chars@, pattern@, 0) is None,
        },
{
    let mut i: usize = 0;
    loop
        invariant
            i <= chars@.len(),
            found_from(chars@, pattern@, 0) == found_from(chars@, pattern@, i as int),
        decreases chars.len() - i,
    {
        if at(chars, pattern, i) {
            return Some(i);
        }
        if i == chars.len() {
            reveal_with_fuel(found_from, 2);
            return None;
        }
        i = i + 1;
    }
}

/// What a response says: its payload, or why there is none.
pub fn payload_of(resp: &str) -> (r: Result<String, String>)
    ensures
        match (r, response(resp@)) {
            (Ok(p), Ok(want)) => p@ == want,
            (Err(e), Err(want)) => e@ == want,
            _ => false,
        },
{
    proof {
        reveal_strlit("\r\n\r\n");
    }
    let chars = chars_of(resp);
    let total = chars.len();
    let end = chars_of("\r\n\r\n");
    let i: usize = match find(&chars, &end) {
        None => {
            return Err("malformed HTTP response".to_owned());
        },
        Some(i) => i,
    };
    assert(chars@.subrange(0, i as int) =~= resp@.take(i as int));
    assert(chars@.subrange(i + 4, chars@.len() as int) =~= resp@.skip(i + 4));
    let head = slice(&chars, 0, i);
    let payload = slice(&chars, i + 4, total);
    let status = match crate::text::split_once(head.as_str(), '\n') {
        None => head,
        Some((line, _)) => {
            let c = chars_of(line.as_str());
            if c.len() > 0 && c[c.len() - 1] == '\r' {
                assert(c@.subrange(0, c@.len() - 1) =~= line@.drop_last());
                slice(&c, 0, c.len() - 1)
            } else {
                line
            }
        },
    };
    let text = chars_of(status.as_str());
    let good = chars_of(" 200 ");
    if find(&text, &good).is_some() {
        Ok(payload)
    } else {
        let mut out = "join failed: ".to_owned();
        out.append(status.as_str());
        out.append("\n");
        out.append(payload.as_str());
        Err(out)
    }
}

proof fn lemma_found_from(s: Seq<char>, pattern: Seq<char>, from: int)
    requires
        0 <= from,
    ensures
        match found_from(s, pattern, from) {
            Some(i) => from <= i <= s.len() && stands_at(s, pattern, i) && forall|j: int|
                from <= j < i ==> !#[trigger] stands_at(s, pattern, j),
            None => forall|j: int| from <= j <= s.len() ==> !#[trigger] stands_at(s, pattern, j),
        },
    decreases s.len() + 1 - from,
{
    if from <= s.len() && !stands_at(s, pattern, from) {
        lemma_found_from(s, pattern, from + 1);
    }
}

/// What follows the first blank line of a response is its payload. It is taken
/// where the status line says ` 200 `, and only there; without a blank line
/// there is no response.
pub proof fn law_a_response_is_taken_where_it_says_so(
    head: Seq<char>,
    payload: Seq<char>,
    line: Seq<char>,
    rest: Seq<char>,
    s: Seq<char>,
)
    requires
        head == line + seq!['\r', '\n'] + rest,
        forall|j: int| 0 <= j < line.len() ==> line[j] != '\n',
        s == head + "\r\n\r\n"@ + payload,
        forall|j: int|
            0 <= j < head.len() ==> #[trigger] s.subrange(j, j + 4) != "\r\n\r\n"@,
    ensures
        (exists|j: int|
            0 <= j && j + 5 <= line.len() && #[trigger] line.subrange(j, j + 5) == " 200 "@)
            ==> response(s) == Ok::<Seq<char>, Seq<char>>(payload),
        (forall|j: int|
            0 <= j && j + 5 <= line.len() ==> #[trigger] line.subrange(j, j + 5) != " 200 "@)
            ==> response(s) is Err,
{
    let mark = "\r\n\r\n"@;
    reveal_strlit("\r\n\r\n");
    reveal_strlit(" 200 ");
    lemma_found_from(s, mark, 0);
    let h = head.len() as int;
    assert(s.subrange(h, h + 4) =~= mark);
    assert(stands_at(s, mark, h));
    assert forall|j: int| 0 <= j < h implies !#[trigger] stands_at(s, mark, j) by {
        assert(s.subrange(j, j + 4) != mark);
    }
    assert(found_from(s, mark, 0) == Some(h));
    assert(s.take(h) =~= head);
    assert(s.skip(h + 4) =~= payload);
    crate::text::law_the_first_separator_splits(head, '\n');
    let n = line.len() as int;
    assert(head[n] == '\r' && head[n + 1] == '\n');
    let (a, b) = crate::text::split_first(head, '\n')->0;
    assert(head == a.push('\n') + b);
    assert(head[a.len() as int] == '\n');
    assert(a.len() == n + 1) by {
        if a.len() < n {
            assert(head[a.len() as int] == line[a.len() as int]);
        }
        if a.len() > n + 1 {
            assert(a[n + 1] == head[n + 1]);
        }
    }
    assert(a =~= line.push('\r')) by {
        assert forall|j: int| 0 <= j < a.len() implies a[j] == line.push('\r')[j] by {
            assert(a[j] == head[j]);
        }
    }
    assert(a.drop_last() =~= line);
    assert(first_line(head) == line);
    lemma_found_from(line, " 200 "@, 0);
    if exists|j: int|
        0 <= j && j + 5 <= line.len() && #[trigger] line.subrange(j, j + 5) == " 200 "@ {
        let j = choose|j: int|
            0 <= j && j + 5 <= line.len() && #[trigger] line.subrange(j, j + 5) == " 200 "@;
        assert(stands_at(line, " 200 "@, j));
    } else if let Some(i) = found_from(line, " 200 "@, 0) {
        assert(line.subrange(i, i + 5) == " 200 "@);
    }
}

} // verus!
