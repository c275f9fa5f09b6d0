//! Administrator authentication: a login that yields a session cookie, and a
//! static bearer token for scripts. Either opens the admin API.

use vstd::prelude::*;

use crate::config::AdminCfg;
use crate::error::{error_view, ApiError, ErrorCode, ErrorView};
use crate::namemap::{lemma_name_key, lemma_name_removed, lemma_named_entry, NameMap};
use crate::secrets::{constant_time_eq, generate_secret};
use crate::text::{
    behind_prefix, chars_of, decimal, decimal_text, is_digit, opt_text, said, say, split_first, split_once, str_eq,
    strip_prefix, strip_trailing, texts, trim, trimmed, without_trailing,
};

verus! {

/// The name of the session cookie.
pub const COOKIE: &'static str = "nqvpn_session";

/// How many failed logins per minute an address may have.
pub const MAX_FAILURES_PER_MIN: u32 = 10;

/// A session of an administrator.
#[derive(Debug)]
pub struct Session {
    pub user: String,
    pub expires_unix: u64,
}

/// The content of a [`Session`].
#[verifier::ext_equal]
pub struct SessionView {
    pub user: Seq<char>,
    pub expires_unix: u64,
}

impl View for Session {
    type V = SessionView;

    open spec fn view(&self) -> SessionView {
        SessionView { user: self.user@, expires_unix: self.expires_unix }
    }
}

/// The live sessions by token, and the failed logins by address with the
/// minute that they are counted in.
#[derive(Debug)]
pub struct Sessions {
    pub live: NameMap<Session>,
    pub failures: NameMap<(u64, u32)>,
}

/// The sessions as values.
pub open spec fn live_view(m: Map<Seq<char>, Session>) -> Map<Seq<char>, SessionView> {
    m.map_values(|s: Session| s@)
}

/// The sessions that have not expired.
pub open spec fn unexpired(m: Map<Seq<char>, SessionView>, now: u64) -> Map<
    Seq<char>,
    SessionView,
> {
    Map::new(
        |k: Seq<char>| m.dom().contains(k) && m[k].expires_unix > now,
        |k: Seq<char>| m[k],
    )
}

/// The session that a token opens now.
pub open spec fn session_of(m: Map<Seq<char>, SessionView>, token: Seq<char>, now: u64) -> Option<
    SessionView,
> {
    if m.dom().contains(token) && m[token].expires_unix > now {
        Some(m[token])
    } else {
        None
    }
}

/// The failures counted for an address in this minute.
pub open spec fn failures_now(m: Map<Seq<char>, (u64, u32)>, ip: Seq<char>, now: u64) -> u32 {
    if m.dom().contains(ip) && m[ip].0 == now / 60 {
        m[ip].1
    } else {
        0
    }
}

/// Whether a password is the one that a hash was made of, by Argon2.
pub uninterp spec fn argon2_accepts(password: Seq<char>, phc: Seq<char>) -> bool;

/// `p=` and a number of nine digits or more stand at this place of a hash.
pub open spec fn many_lanes_at(phc: Seq<char>, i: int) -> bool {
    &&& 0 <= i
    &&& i + 11 <= phc.len()
    &&& phc[i] == 'p'
    &&& phc[i + 1] == '='
    &&& forall|k: int| i + 2 <= k < i + 11 ==> is_digit(#[trigger] phc[k])
}

/// The degree of parallelism that a hash asks for has eight digits at most.
/// Argon2 takes no more than `0xff_ffff`.
pub open spec fn few_lanes(phc: Seq<char>) -> bool {
    forall|i: int| 0 <= i < phc.len() ==> !#[trigger] many_lanes_at(phc, i)
}

/// A password is accepted by a hash.
pub open spec fn accepts(phc: Seq<char>, password: Seq<char>) -> bool {
    few_lanes(phc) && argon2_accepts(password, phc)
}

/// Does the degree of parallelism have eight digits at most?
fn has_few_lanes(phc: &str) -> (r: bool)
    ensures
        r == few_lanes(phc@),
{
    let chars = chars_of(phc);
    let n = chars.len();
    let mut i: usize = 0;
    while i < n
        invariant
            i <= n,
            n == chars@.len(),
            chars@ == phc@,
            forall|j: int| 0 <= j < i ==> !#[trigger] many_lanes_at(phc@, j),
        decreases n - i,
    {
        if n - i >= 11 && chars[i] == 'p' && chars[i + 1] == '=' {
            let mut k: usize = i + 2;
            while k < i + 11 && '0' <= chars[k] && chars[k] <= '9'
                invariant
                    i + 2 <= k <= i + 11,
                    i + 11 <= n,
                    n == chars@.len(),
                    chars@ == phc@,
                    forall|j: int| i + 2 <= j < k ==> is_digit(#[trigger] phc@[j]),
                decreases i + 11 - k,
            {
                k = k + 1;
            }
            if k == i + 11 {
                assert(many_lanes_at(phc@, i as int));
                return false;
            }
            assert(!is_digit(phc@[k as int]));
        }
        i = i + 1;
    }
    true
}

/// `Argon2::default().hash_password` of the `argon2` crate with a random
/// salt, as a PHC string. The string differs from call to call; the password
/// verifies against it. Its parameters are the default ones, with one lane,
/// and neither salt nor hash, which are base64 without padding, holds an
/// equals sign. With the default parameters and a salt of sixteen
/// bytes the call fails only for a password of more than `0xffff_ffff` bytes,
/// and a character has four bytes at most. Where the operating system hands
/// out no randomness, the call panics.
#[verifier::external_body]
fn argon2_hash(password: &str) -> (r: Result<String, String>)
    ensures
        r matches Ok(h) ==> argon2_accepts(password@, h@) && few_lanes(h@),
        password@.len() <= 0x3fff_ffff ==> r is Ok,
{
    let salt = argon2::password_hash::SaltString::generate(&mut rand::rngs::OsRng);
    argon2::PasswordHasher::hash_password(&argon2::Argon2::default(), password.as_bytes(), &salt)
        .map(|h| h.to_string())
        .map_err(|e| e.to_string())
}

/// `Argon2::default().verify_password` of the `argon2` crate on a parsed PHC
/// string: a function of the password and the string. A string that does not
/// parse accepts nothing. The parameters are read from the string, and the
/// number of lanes is multiplied by eight before it is held against its
/// maximum, so one of more digits could overflow. The call takes as much
/// memory as the string asks for.
#[verifier::external_body]
fn argon2_verify(password: &str, phc: &str) -> (r: bool)
    requires
        few_lanes(phc@),
    ensures
        r == argon2_accepts(password@, phc@),
{
    match argon2::password_hash::PasswordHash::new(phc) {
        Ok(parsed) => argon2::PasswordVerifier::verify_password(
            &argon2::Argon2::default(),
            password.as_bytes(),
            &parsed,
        ).is_ok(),
        Err(_) => false,
    }
}

/// Hash a password for the configuration. The hash accepts the password, and
/// there is one for every password of a length that anybody would use.
pub fn hash_password(password: &str) -> (r: Result<String, String>)
    ensures
        r matches Ok(h) ==> accepts(h@, password@),
        password@.len() <= 0x3fff_ffff ==> r is Ok,
{
    argon2_hash(password)
}

/// Does the hash accept the password? One that asks for more lanes than there
/// can be accepts nothing.
pub fn verify_password(password: &str, phc: &str) -> (r: bool)
    ensures
        r == accepts(phc@, password@),
{
    has_few_lanes(phc) && argon2_verify(password, phc)
}

/// The hash that a login is held against: the one that is configured, or else
/// one of the password that is configured in its place.
///
/// An error comes only from the hashing itself.
pub fn login_hash(password: &Option<String>, password_hash: &Option<String>) -> (r: Result<
    Option<String>,
    String,
>)
    ensures
        match (password_hash, password) {
            (Some(h), _) => r matches Ok(Some(x)) && x@ == h@,
            (None, Some(p)) => {
                &&& r matches Ok(x) ==> x is Some && accepts(x->0@, p@)
                &&& p@.len() <= 0x3fff_ffff ==> r is Ok
            },
            (None, None) => r matches Ok(None),
        },
{
    match (password_hash, password) {
        (Some(h), _) => Ok(Some(h.clone())),
        (None, Some(p)) => match hash_password(p.as_str()) {
            Ok(h) => Ok(Some(h)),
            Err(e) => Err(e),
        },
        (None, None) => Ok(None),
    }
}

impl Sessions {
    /// The maps are in order.
    pub open spec fn wf(self) -> bool {
        self.live.wf() && self.failures.wf()
    }

    /// The sessions as values.
    pub open spec fn sessions(self) -> Map<Seq<char>, SessionView> {
        live_view(self.live@)
    }

    pub fn new() -> (r: Sessions)
        ensures
            r.wf(),
            r.sessions() == Map::<Seq<char>, SessionView>::empty(),
            r.failures@ == Map::<Seq<char>, (u64, u32)>::empty(),
    {
        let r = Sessions { live: NameMap::new(), failures: NameMap::new() };
        assert(r.sessions() =~= Map::empty());
        r
    }

    /// Too many failed logins from this address this minute? Counts of past
    /// minutes are dropped.
    pub fn throttled(&mut self, ip: &str, now: u64) -> (r: bool)
        requires
            old(self).wf(),
        ensures
            final(self).wf(),
            r == (failures_now(old(self).failures@, ip@, now) >= MAX_FAILURES_PER_MIN),
            final(self).live == old(self).live,
            final(self).failures@ == Map::new(
                |k: Seq<char>|
                    old(self).failures@.dom().contains(k) && old(self).failures@[k].0 == now / 60,
                |k: Seq<char>| old(self).failures@[k],
            ),
    {
        let window = now / 60;
        let ghost before = self.failures@;
        let mut i: usize = 0;
        while i < self.failures.entries.len()
            invariant
                i <= self.failures.entries@.len(),
                self.wf(),
                self.live == old(self).live,
                window == now / 60,
                forall|j: int|
                    0 <= j < i ==> (#[trigger] self.failures.entries@[j]).1.0 == window,
                forall|k: Seq<char>| #[trigger]
                    self.failures@.dom().contains(k) ==> before.dom().contains(k)
                        && self.failures@[k] == before[k],
                forall|k: Seq<char>| #[trigger]
                    before.dom().contains(k) && before[k].0 == window
                        ==> self.failures@.dom().contains(k),
            decreases self.failures.entries@.len() - i,
        {
            let ghost s = self.failures.entries@;
            let ghost was = self.failures@;
            proof {
                lemma_named_entry(s, i as int);
            }
            let w = self.failures.entries[i].1.0;
            if w != window {
                proof {
                    lemma_name_removed(s, i as int);
                }
                self.failures.entries.remove(i);
                assert(self.failures.entries@ =~= s.remove(i as int));
                assert(self.failures@ == was.remove(s[i as int].0@));
            } else {
                i = i + 1;
            }
        }
        proof {
            let s = self.failures.entries@;
            assert forall|k: Seq<char>| #[trigger] self.failures@.dom().contains(k) implies
                self.failures@[k].0 == window by {
                let j = lemma_name_key(s, k);
            }
            assert(self.failures@ =~= Map::new(
                |k: Seq<char>| before.dom().contains(k) && before[k].0 == now / 60,
                |k: Seq<char>| before[k],
            ));
        }
        match self.failures.get(ip) {
            Some(f) => f.1 >= MAX_FAILURES_PER_MIN,
            None => false,
        }
    }

    /// Count a failed login of this address in this minute.
    pub fn note_failure(&mut self, ip: &str, now: u64)
        requires
            old(self).wf(),
            failures_now(old(self).failures@, ip@, now) < u32::MAX,
        ensures
            final(self).wf(),
            final(self).live == old(self).live,
            final(self).failures@ == old(self).failures@.insert(
                ip@,
                (now / 60, (failures_now(old(self).failures@, ip@, now) + 1) as u32),
            ),
            failures_now(final(self).failures@, ip@, now) == failures_now(
                old(self).failures@,
                ip@,
                now,
            ) + 1,
    {
        let window = now / 60;
        let n: u32 = match self.failures.get(ip) {
            Some(f) => if f.0 == window {
                f.1
            } else {
                0
            },
            None => 0,
        };
        self.failures.insert(ip.to_owned(), (window, n + 1));
    }

    /// Open a session under a token. Expired sessions are dropped.
    pub fn open_with(&mut self, token: &str, user: &str, ttl_secs: u64, now: u64) -> (r: u64)
        requires
            old(self).wf(),
            now + ttl_secs <= u64::MAX,
        ensures
            final(self).wf(),
            r == now + ttl_secs,
            final(self).sessions() == unexpired(old(self).sessions(), now).insert(
                token@,
                (SessionView { user: user@, expires_unix: (now + ttl_secs) as u64 }),
            ),
            final(self).failures == old(self).failures,
    {
        let expires = now + ttl_secs;
        let ghost before = self.live@;
        let mut i: usize = 0;
        while i < self.live.entries.len()
            invariant
                i <= self.live.entries@.len(),
                self.wf(),
                self.failures == old(self).failures,
                forall|j: int|
                    0 <= j < i ==> (#[trigger] self.live.entries@[j]).1.expires_unix > now,
                forall|k: Seq<char>| #[trigger]
                    self.live@.dom().contains(k) ==> before.dom().contains(k) && self.live@[k]
                        == before[k],
                forall|k: Seq<char>| #[trigger]
                    before.dom().contains(k) && before[k].expires_unix > now
                        ==> self.live@.dom().contains(k),
            decreases self.live.entries@.len() - i,
        {
            let ghost s = self.live.entries@;
            let ghost was = self.live@;
            proof {
                lemma_named_entry(s, i as int);
            }
            let e = self.live.entries[i].1.expires_unix;
            if e <= now {
                proof {
                    lemma_name_removed(s, i as int);
                }
                self.live.entries.remove(i);
                assert(self.live.entries@ =~= s.remove(i as int));
                assert(self.live@ == was.remove(s[i as int].0@));
            } else {
                i = i + 1;
            }
        }
        proof {
            let s = self.live.entries@;
            assert forall|k: Seq<char>| #[trigger] self.live@.dom().contains(k) implies
                self.live@[k].expires_unix > now by {
                let j = lemma_name_key(s, k);
            }
            assert(self.sessions() =~= unexpired(live_view(before), now));
        }
        let ghost kept = self.sessions();
        self.live.insert(
            token.to_owned(),
            Session { user: user.to_owned(), expires_unix: expires },
        );
        assert(self.sessions() =~= kept.insert(
            token@,
            SessionView { user: user@, expires_unix: expires },
        ));
        expires
    }

    /// A fresh session token for a user who just authenticated, and when the
    /// session expires.
    pub fn open(&mut self, user: &str, ttl_secs: u64, now: u64) -> (r: (String, u64))
        requires
            old(self).wf(),
            now + ttl_secs <= u64::MAX,
        ensures
            final(self).wf(),
            r.1 == now + ttl_secs,
            r.0@.len() == 43,
            final(self).sessions() == unexpired(old(self).sessions(), now).insert(
                r.0@,
                (SessionView { user: user@, expires_unix: (now + ttl_secs) as u64 }),
            ),
            final(self).failures == old(self).failures,
    {
        let token = generate_secret();
        let expires = self.open_with(token.as_str(), user, ttl_secs, now);
        (token, expires)
    }

    /// The session that a token opens, if it has not expired.
    pub fn lookup(&self, token: &str, now: u64) -> (r: Option<Session>)
        requires
            self.wf(),
        ensures
            match r {
                Some(s) => session_of(self.sessions(), token@, now) == Some(s@),
                None => session_of(self.sessions(), token@, now) is None,
            },
    {
        match self.live.get(token) {
            Some(s) => if s.expires_unix > now {
                Some(Session { user: s.user.clone(), expires_unix: s.expires_unix })
            } else {
                None
            },
            None => None,
        }
    }

    /// End a session.
    pub fn close(&mut self, token: &str)
        requires
            old(self).wf(),
        ensures
            final(self).wf(),
            final(self).sessions() == old(self).sessions().remove(token@),
            final(self).failures == old(self).failures,
    {
        self.live.remove(token);
        assert(self.sessions() =~= old(self).sessions().remove(token@));
    }
}

/// A session that was opened is found until it expires, and never after it
/// was closed.
pub proof fn law_a_session_lives_until_it_expires_or_is_closed(
    before: Map<Seq<char>, SessionView>,
    token: Seq<char>,
    user: Seq<char>,
    ttl: u64,
    now: u64,
    later: u64,
)
    requires
        now + ttl <= u64::MAX,
    ensures
        ({
            let s = SessionView { user, expires_unix: (now + ttl) as u64 };
            let opened = unexpired(before, now).insert(token, s);
            &&& session_of(opened, token, later) == if later < now + ttl {
                Some(s)
            } else {
                None
            }
            &&& session_of(opened.remove(token), token, later) is None
        }),
{
}

/// The session token in the text of a cookie header.
pub open spec fn cookie_in(raw: Seq<char>) -> Option<Seq<char>>
    decreases raw.len(),
    via cookie_in_decreases
{
    let (head, rest) = match split_first(raw, ';') {
        Some((h, t)) => (h, Some(t)),
        None => (raw, None),
    };
    match behind_prefix(trimmed(head), COOKIE@) {
        Some(v) if v.len() > 0 && v[0] == '=' => Some(v.skip(1)),
        _ => match rest {
            Some(t) => cookie_in(t),
            None => None,
        },
    }
}

#[via_fn]
proof fn cookie_in_decreases(raw: Seq<char>) {
    lemma_split_shrinks(raw, ';');
}

proof fn lemma_split_shrinks(s: Seq<char>, c: char)
    ensures
        split_first(s, c) matches Some((h, t)) ==> t.len() < s.len(),
    decreases s.len(),
{
    if s.len() > 0 && s[0] != c {
        lemma_split_shrinks(s.drop_first(), c);
        lemma_first_position_bound(s, c);
    }
}

proof fn lemma_first_position_bound(s: Seq<char>, c: char)
    ensures
        crate::text::first_position(s, c) matches Some(i) ==> 0 <= i < s.len(),
    decreases s.len(),
{
    if s.len() > 0 && s[0] != c {
        lemma_first_position_bound(s.drop_first(), c);
    }
}

/// The session token in a cookie header, if there is one.
pub fn cookie_token(header: Option<&str>) -> (r: Option<String>)
    ensures
        opt_text(r) == match header {
            Some(raw) => cookie_in(raw@),
            None => None,
        },
{
    let raw = match header {
        Some(raw) => raw,
        None => {
            return None;
        },
    };
    let mut rest = raw.to_owned();
    loop
        invariant
            cookie_in(rest@) == cookie_in(raw@),
            header == Some(raw),
        decreases rest@.len(),
    {
        let (head, tail) = match split_once(rest.as_str(), ';') {
            Some((h, t)) => (h, Some(t)),
            None => (rest.clone(), None),
        };
        proof {
            lemma_split_shrinks(rest@, ';');
        }
        let part = trim(head.as_str());
        if let Some(v) = strip_prefix(part.as_str(), COOKIE) {
            let found = strip_prefix(v.as_str(), "=");
            proof {
                reveal_strlit("=");
                let w = v@;
                if w.len() > 0 && w[0] == '=' {
                    assert("="@ =~= w.take(1));
                    assert("="@.is_prefix_of(w));
                } else if "="@.is_prefix_of(w) {
                    assert(w[0] == "="@[0]);
                }
            }
            if let Some(token) = found {
                return Some(token);
            }
        }
        match tail {
            Some(t) => {
                rest = t;
            },
            None => {
                return None;
            },
        }
    }
}

/// The token of an authorization header of the bearer scheme.
pub open spec fn bearer_of(header: Option<Seq<char>>) -> Option<Seq<char>> {
    match header {
        Some(h) => match behind_prefix(h, "Bearer "@) {
            Some(t) => Some(trimmed(t)),
            None => None,
        },
        None => None,
    }
}

/// Why a request is not let into the admin API.
pub open spec fn admin_refusal(
    admin_token: Option<Seq<char>>,
    has_password: bool,
    sessions: Map<Seq<char>, SessionView>,
    bearer: Option<Seq<char>>,
    cookie: Option<Seq<char>>,
    now: u64,
) -> Option<ErrorView> {
    let by_token = bearer is Some && admin_token is Some && bearer == admin_token;
    let by_bearer = bearer matches Some(t) && session_of(sessions, t, now) is Some;
    let by_cookie = cookie matches Some(t) && session_of(sessions, t, now) is Some;
    if by_token || by_bearer || by_cookie {
        None
    } else if admin_token is None && !has_password {
        Some(error_view(ErrorCode::AdminDisabled, no_admin_message()))
    } else {
        Some(error_view(ErrorCode::AdminAuthRequired, "missing or bad admin token"@))
    }
}

pub open spec fn no_admin_message() -> Seq<char> {
    "no admin login configured: set [admin] user + password_hash (nqvpn-coord hash-password) or bearer_token"@
}

/// A request is let into the admin API exactly where it brings the configured
/// token as a bearer, or the token of a session that has not expired as a
/// bearer or in the cookie.
pub proof fn law_the_admin_api_opens_to_the_token_or_a_session(
    admin_token: Option<Seq<char>>,
    has_password: bool,
    sessions: Map<Seq<char>, SessionView>,
    bearer: Option<Seq<char>>,
    cookie: Option<Seq<char>>,
    now: u64,
)
    ensures
        admin_refusal(admin_token, has_password, sessions, bearer, cookie, now) is None <==> {
            ||| bearer matches Some(t) && admin_token == Some(t)
            ||| bearer matches Some(t) && sessions.dom().contains(t) && now
                < sessions[t].expires_unix
            ||| cookie matches Some(t) && sessions.dom().contains(t) && now
                < sessions[t].expires_unix
        },
        admin_refusal(admin_token, has_password, sessions, bearer, cookie, now) matches Some(e)
            ==> e.code == if admin_token is None && !has_password {
            ErrorCode::AdminDisabled
        } else {
            ErrorCode::AdminAuthRequired
        },
{
}

/// A bearer is what stands behind the name of the scheme, without the white
/// space around it.
pub proof fn law_a_bearer_stands_behind_its_scheme(t: Seq<char>)
    requires
        t.len() > 0,
        !crate::text::is_white(t[0]),
        !crate::text::is_white(t.last()),
    ensures
        bearer_of(Some("Bearer "@ + t)) == Some(t),
        bearer_of(None) is None,
{
    let h = "Bearer "@ + t;
    assert("Bearer "@.is_prefix_of(h)) by {
        assert("Bearer "@ =~= h.take("Bearer "@.len() as int));
    }
    assert(h.skip("Bearer "@.len() as int) =~= t);
    crate::text::law_trimming_takes_white_space_off_the_ends(t);
}

proof fn lemma_cookie_part(token: Seq<char>) -> (set: Seq<char>)
    requires
        token.len() > 0,
        !crate::text::is_white(token.last()),
        forall|i: int| 0 <= i < token.len() ==> token[i] != ';',
    ensures
        set == "nqvpn_session="@ + token,
        set.len() > 0,
        set[0] == 'n',
        set.last() == token.last(),
        forall|i: int| 0 <= i < set.len() ==> set[i] != ';',
        behind_prefix(set, COOKIE@) == Some(set.skip(13)),
        set.skip(13).len() > 0,
        set.skip(13)[0] == '=',
        set.skip(13).skip(1) == token,
{
    reveal_strlit("nqvpn_session=");
    reveal_strlit("nqvpn_session");
    let set = "nqvpn_session="@ + token;
    assert forall|i: int| 0 <= i < set.len() implies set[i] != ';' by {
        if i >= 14 {
            assert(set[i] == token[i - 14]);
        }
    }
    assert(COOKIE@.is_prefix_of(set)) by {
        assert(COOKIE@ =~= set.take(13));
    }
    assert(set.skip(13).skip(1) =~= token);
    set
}

proof fn lemma_cookie_alone(token: Seq<char>)
    requires
        token.len() > 0,
        !crate::text::is_white(token.last()),
        forall|i: int| 0 <= i < token.len() ==> token[i] != ';',
    ensures
        cookie_in("nqvpn_session="@ + token) == Some(token),
{
    let set = lemma_cookie_part(token);
    crate::text::law_the_first_separator_splits(set, ';');
    assert(split_first(set, ';') is None) by {
        if let Some((a, b)) = split_first(set, ';') {
            assert((a.push(';') + b)[a.len() as int] == ';');
        }
    }
    crate::text::law_blanks_are_white_space('n');
    crate::text::law_trimming_takes_white_space_off_the_ends(set);
    assert(trimmed(set) == set);
    assert(cookie_in(set) == Some(set.skip(13).skip(1)));
}

proof fn lemma_split_at(a: Seq<char>, b: Seq<char>, c: char)
    requires
        forall|i: int| 0 <= i < a.len() ==> a[i] != c,
    ensures
        split_first(a.push(c) + b, c) == Some((a, b)),
{
    let both = a.push(c) + b;
    crate::text::law_the_first_separator_splits(both, c);
    assert(both[a.len() as int] == c);
    let (x, y) = split_first(both, c)->0;
    assert(x.len() == a.len()) by {
        if x.len() < a.len() {
            assert(both[x.len() as int] == a[x.len() as int]);
            assert((x.push(c) + y)[x.len() as int] == c);
        } else if x.len() > a.len() {
            assert((x.push(c) + y)[a.len() as int] == x[a.len() as int]);
        }
    }
    assert(x =~= a) by {
        assert forall|i: int| 0 <= i < a.len() implies x[i] == a[i] by {
            assert((x.push(c) + y)[i] == x[i]);
            assert(both[i] == a[i]);
        }
    }
    assert(y =~= b) by {
        assert(y.len() == b.len());
        assert forall|i: int| 0 <= i < b.len() implies y[i] == b[i] by {
            assert((x.push(c) + y)[a.len() + 1 + i] == y[i]);
            assert(both[a.len() + 1 + i] == b[i]);
        }
    }
}

/// A session cookie is read back as it was set, alone and behind another
/// cookie; where there is none, none is found.
pub proof fn law_a_cookie_is_read_back(token: Seq<char>, other: Seq<char>)
    requires
        token.len() > 0,
        !crate::text::is_white(token.last()),
        forall|i: int| 0 <= i < token.len() ==> token[i] != ';',
        forall|i: int| 0 <= i < other.len() ==> other[i] != ';',
        !COOKIE@.is_prefix_of(trimmed(other)),
    ensures
        cookie_in("nqvpn_session="@ + token) == Some(token),
        cookie_in(other.push(';') + ("nqvpn_session="@ + token)) == Some(token),
        cookie_in(other) is None,
{
    let set = "nqvpn_session="@ + token;
    lemma_cookie_alone(token);
    lemma_split_at(other, set, ';');
    crate::text::law_the_first_separator_splits(other, ';');
    if let Some((x, y)) = split_first(other, ';') {
        assert(other[x.len() as int] == ';');
    }
}

/// Admin access: a session, as a cookie or as a bearer, or the static token.
pub fn check_admin(
    admin_token: &Option<String>,
    has_password: bool,
    sessions: &Sessions,
    authorization: Option<&str>,
    cookie_header: Option<&str>,
    now: u64,
) -> (r: Result<(), ApiError>)
    requires
        sessions.wf(),
    ensures
        ({
            let refusal = admin_refusal(
                opt_text(*admin_token),
                has_password,
                sessions.sessions(),
                bearer_of(
                    match authorization {
                        Some(h) => Some(h@),
                        None => None,
                    },
                ),
                match cookie_header {
                    Some(h) => cookie_in(h@),
                    None => None,
                },
                now,
            );
            match r {
                Ok(_) => refusal is None,
                Err(e) => refusal == Some(e@),
            }
        }),
{
    let bearer = match authorization {
        Some(h) => match strip_prefix(h, "Bearer ") {
            Some(t) => Some(trim(t.as_str())),
            None => None,
        },
        None => None,
    };
    if let Some(t) = &bearer {
        if let Some(cfg) = admin_token {
            if constant_time_eq(t.as_str(), cfg.as_str()) {
                return Ok(());
            }
        }
        if sessions.lookup(t.as_str(), now).is_some() {
            return Ok(());
        }
    }
    if let Some(c) = cookie_token(cookie_header) {
        if sessions.lookup(c.as_str(), now).is_some() {
            return Ok(());
        }
    }
    if admin_token.is_none() && !has_password {
        return Err(
            ApiError::new(
                503,
                ErrorCode::AdminDisabled,
                "no admin login configured: set [admin] user + password_hash (nqvpn-coord hash-password) or bearer_token".to_owned(),
            ),
        );
    }
    Err(ApiError::unauthorized_admin())
}

/// A login that succeeded.
#[derive(Debug)]
pub struct LoggedIn {
    pub user: String,
    pub token: String,
    pub expires_unix: u64,
    pub ttl_secs: u64,
}

/// How long a session lasts: the configured hours, and at least one.
pub open spec fn session_ttl(cfg: AdminCfg) -> int {
    (if cfg.session_hours == 0 {
        1
    } else {
        cfg.session_hours as int
    }) * 3600
}

/// Why a login is refused, `accepted` being what the password check said.
pub open spec fn login_refusal(
    cfg: AdminCfg,
    failures: u32,
    user: Seq<char>,
    accepted: bool,
) -> Option<ErrorView> {
    if failures >= MAX_FAILURES_PER_MIN {
        Some(error_view(ErrorCode::RateLimited, "slow down"@))
    } else if cfg.user is None || cfg.password_hash is None {
        Some(
            error_view(
                ErrorCode::AdminDisabled,
                "no admin login configured: set [admin] user and password_hash (nqvpn-coord hash-password)"@,
            ),
        )
    } else if cfg.user->0@ != user || !accepted {
        Some(error_view(ErrorCode::AdminAuthRequired, "wrong user or password"@))
    } else {
        None
    }
}

/// A login succeeds exactly where the address has had fewer than ten failures
/// this minute, a user and a password are configured, it is that user and the
/// password was accepted.
pub proof fn law_a_login_takes_the_user_and_the_password(
    cfg: AdminCfg,
    failures: u32,
    user: Seq<char>,
    accepted: bool,
)
    ensures
        login_refusal(cfg, failures, user, accepted) is None <==> {
            &&& failures < 10
            &&& cfg.user matches Some(u) && u@ == user
            &&& cfg.password_hash is Some
            &&& accepted
        },
        failures >= 10 ==> (login_refusal(cfg, failures, user, accepted) matches Some(e) && e.code
            == ErrorCode::RateLimited),
        failures < 10 && cfg.user is Some && cfg.password_hash is Some ==> (login_refusal(
            cfg,
            failures,
            user,
            accepted,
        ) matches Some(e) ==> e.code == ErrorCode::AdminAuthRequired),
        session_ttl(cfg) == if cfg.session_hours > 0 {
            cfg.session_hours * 3600
        } else {
            3600int
        },
{
}

/// A failed login counts for its address in its minute: once more for each,
/// from nothing again in the next minute, and for nobody else.
pub proof fn law_failures_count_by_address_and_minute(
    m: Map<Seq<char>, (u64, u32)>,
    ip: Seq<char>,
    now: u64,
    n: u32,
    other: Seq<char>,
    later: u64,
)
    ensures
        failures_now(m.insert(ip, (now / 60, n)), ip, now) == n,
        later / 60 != now / 60 ==> failures_now(m.insert(ip, (now / 60, n)), ip, later) == 0,
        other != ip ==> failures_now(m.insert(ip, (now / 60, n)), other, later) == failures_now(
            m,
            other,
            later,
        ),
        !m.dom().contains(other) ==> failures_now(m, other, later) == 0,
{
}

/// The failures counted after a login: one more for the address if the user or
/// the password was wrong, and the same for everyone else.
pub open spec fn counts_login(
    before: Map<Seq<char>, (u64, u32)>,
    after: Map<Seq<char>, (u64, u32)>,
    ip: Seq<char>,
    now: u64,
    refusal: Option<ErrorView>,
) -> bool {
    &&& failures_now(after, ip, now) == failures_now(before, ip, now) + (
    if refusal matches Some(e) && e.code == ErrorCode::AdminAuthRequired {
        1int
    } else {
        0int
    })
    &&& forall|other: Seq<char>|
        other != ip ==> #[trigger] failures_now(after, other, now) == failures_now(
            before,
            other,
            now,
        )
}

/// A login, given what the password check said. A refusal for a wrong user
/// or password counts as a failure of the address.
pub fn login_checked(
    sessions: &mut Sessions,
    cfg: &AdminCfg,
    ip: &str,
    user: &str,
    accepted: bool,
    now: u64,
) -> (r: Result<LoggedIn, ApiError>)
    requires
        old(sessions).wf(),
        now + session_ttl(*cfg) <= u64::MAX,
    ensures
        final(sessions).wf(),
        ({
            let refusal = login_refusal(
                *cfg,
                failures_now(old(sessions).failures@, ip@, now),
                user@,
                accepted,
            );
            &&& counts_login(
                old(sessions).failures@,
                final(sessions).failures@,
                ip@,
                now,
                refusal,
            )
            &&& match r {
                Ok(l) => {
                    &&& refusal is None
                    &&& l.user@ == user@
                    &&& l.ttl_secs == session_ttl(*cfg)
                    &&& l.expires_unix == now + session_ttl(*cfg)
                    &&& l.token@.len() == 43
                    &&& final(sessions).sessions() == unexpired(
                        old(sessions).sessions(),
                        now,
                    ).insert(
                        l.token@,
                        (SessionView { user: user@, expires_unix: l.expires_unix }),
                    )
                },
                Err(e) => {
                    &&& refusal == Some(e@)
                    &&& final(sessions).sessions() == old(sessions).sessions()
                },
            }
        }),
{
    if sessions.throttled(ip, now) {
        return Err(ApiError::rate_limited());
    }
    let right_user = match (&cfg.user, &cfg.password_hash) {
        (Some(u), Some(_)) => str_eq(u.as_str(), user),
        _ => {
            return Err(
                ApiError::new(
                    503,
                    ErrorCode::AdminDisabled,
                    "no admin login configured: set [admin] user and password_hash (nqvpn-coord hash-password)".to_owned(),
                ),
            );
        },
    };
    if !right_user || !accepted {
        sessions.note_failure(ip, now);
        return Err(
            ApiError::new(
                401,
                ErrorCode::AdminAuthRequired,
                "wrong user or password".to_owned(),
            ),
        );
    }
    let hours: u64 = if cfg.session_hours == 0 {
        1
    } else {
        cfg.session_hours
    };
    let ttl: u64 = hours * 3600;
    let (token, expires_unix) = sessions.open(user, ttl, now);
    Ok(LoggedIn { user: user.to_owned(), token, expires_unix, ttl_secs: ttl })
}

/// A login: the user and the password against the configuration.
pub fn login(
    sessions: &mut Sessions,
    cfg: &AdminCfg,
    ip: &str,
    user: &str,
    password: &str,
    now: u64,
) -> (r: Result<LoggedIn, ApiError>)
    requires
        old(sessions).wf(),
        now + session_ttl(*cfg) <= u64::MAX,
    ensures
        final(sessions).wf(),
        ({
            let accepted = cfg.password_hash matches Some(h) && accepts(h@, password@);
            let refusal = login_refusal(
                *cfg,
                failures_now(old(sessions).failures@, ip@, now),
                user@,
                accepted,
            );
            &&& counts_login(
                old(sessions).failures@,
                final(sessions).failures@,
                ip@,
                now,
                refusal,
            )
            &&& match r {
                Ok(l) => {
                    &&& refusal is None
                    &&& l.user@ == user@
                    &&& l.ttl_secs == session_ttl(*cfg)
                    &&& l.expires_unix == now + session_ttl(*cfg)
                    &&& l.token@.len() == 43
                    &&& final(sessions).sessions() == unexpired(
                        old(sessions).sessions(),
                        now,
                    ).insert(
                        l.token@,
                        (SessionView { user: user@, expires_unix: l.expires_unix }),
                    )
                },
                Err(e) => {
                    &&& refusal == Some(e@)
                    &&& final(sessions).sessions() == old(sessions).sessions()
                },
            }
        }),
{
    // The check is slow on purpose: it is made only where it can decide.
    let hot = sessions.throttled(ip, now);
    let accepted = match (&cfg.user, &cfg.password_hash) {
        (Some(u), Some(h)) => !hot && str_eq(u.as_str(), user) && verify_password(
            password,
            h.as_str(),
        ),
        _ => false,
    };
    login_checked(sessions, cfg, ip, user, accepted, now)
}

/// The header that sets a session cookie.
pub fn session_cookie(token: &str, ttl_secs: u64) -> (r: String)
    ensures
        r@ == said(
            seq![
                COOKIE@,
                "="@,
                token@,
                "; Path=/; HttpOnly; Secure; SameSite=Strict; Max-Age="@,
                decimal(ttl_secs as nat),
            ],
        ),
{
    let ttl = decimal_text(ttl_secs);
    let parts = vec![
        COOKIE,
        "=",
        token,
        "; Path=/; HttpOnly; Secure; SameSite=Strict; Max-Age=",
        ttl.as_str(),
    ];
    assert(texts(parts@) =~= seq![
        COOKIE@,
        "="@,
        token@,
        "; Path=/; HttpOnly; Secure; SameSite=Strict; Max-Age="@,
        decimal(ttl_secs as nat),
    ]);
    say(&parts)
}

/// The URL that goes into tokens: the configured one without trailing
/// slashes, else the host that the administrator reached us at.
pub fn public_url(
    configured: &Option<String>,
    forwarded_host: Option<&str>,
    host: Option<&str>,
    authority: Option<&str>,
) -> (r: String)
    ensures
        r@ == match configured {
            Some(u) => without_trailing(u@, '/'),
            None => "https://"@ + match (forwarded_host, host, authority) {
                (Some(h), _, _) => h@,
                (None, Some(h), _) => h@,
                (None, None, Some(a)) => a@,
                (None, None, None) => "localhost"@,
            },
        },
{
    if let Some(u) = configured {
        return strip_trailing(u.as_str(), '/');
    }
    let mut url = "https://".to_owned();
    match (forwarded_host, host, authority) {
        (Some(h), _, _) => url.append(h),
        (None, Some(h), _) => url.append(h),
        (None, None, Some(a)) => url.append(a),
        (None, None, None) => url.append("localhost"),
    }
    url
}

} // verus!
