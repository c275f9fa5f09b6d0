//! What a client is configured with: a token and local facts. Its place in
//! the network is configured at the coordinator and handed down at join.

use vstd::prelude::*;

use crate::state::messages;
use crate::text::{copy_opt, opt_text};

verus! {

#[derive(Debug)]
pub struct ClientConfig {
    pub token: Option<String>,
    pub token_file: Option<String>,
    /// Accept any coordinator certificate. By default the token pins it, or
    /// it is verified against the system roots.
    pub trust_any_cert: bool,
    pub ca: Option<String>,
    /// The coordinator's certificate inline (PEM).
    pub ca_cert: Option<String>,
    /// Further coordinator fingerprints to trust, on top of the one in the
    /// token. The next certificate's fingerprint is staged here before the
    /// coordinator switches to it.
    pub coordinator_fp: Vec<String>,
    /// Where the TLS certificate and the X25519 key live.
    pub state_dir: String,
    /// The requested name of the TUN device.
    pub tun_name: Option<String>,
}

/// Whether any certificate is trusted where the file does not say.
pub fn d_false() -> (r: bool)
    ensures
        !r,
{
    false
}

/// The state directory where the file names none.
pub fn d_state() -> (r: String)
    ensures
        r@ == "/var/lib/nqvpn-client"@,
{
    "/var/lib/nqvpn-client".to_owned()
}

/// How the coordinator's certificate is checked.
#[derive(Debug)]
pub struct JoinTls {
    pub trust_any_cert: bool,
    pub ca_pem: Option<String>,
    pub ca_cert: Option<String>,
    pub pinned_fps: Vec<String>,
}

/// What a join token says.
#[derive(Debug)]
pub struct TokenFacts {
    pub coordinator: String,
    pub secret: String,
    /// The fingerprint of the coordinator's certificate.
    pub fp: Option<String>,
}

/// What a member needs to join.
#[derive(Debug)]
pub struct MemberConfig {
    pub coordinator: String,
    pub secret: String,
    pub tls: JoinTls,
}

/// Where the token is found.
#[derive(Debug)]
pub enum TokenSource {
    /// This is it.
    Text(String),
    /// It is what this file holds.
    File(String),
}

/// Where the token is found, over its text.
#[verifier::ext_equal]
pub enum TokenSourceView {
    Text(Seq<char>),
    File(Seq<char>),
}

impl View for TokenSource {
    type V = TokenSourceView;

    open spec fn view(&self) -> TokenSourceView {
        match self {
            TokenSource::Text(t) => TokenSourceView::Text(t@),
            TokenSource::File(f) => TokenSourceView::File(f@),
        }
    }
}

/// The command line wins over the configuration, and a token in the
/// configuration over a file that it names.
pub open spec fn token_source(
    given: Option<Seq<char>>,
    token: Option<Seq<char>>,
    file: Option<Seq<char>>,
) -> Option<TokenSourceView> {
    match (given, token, file) {
        (Some(t), _, _) => Some(TokenSourceView::Text(t)),
        (None, Some(t), _) => Some(TokenSourceView::Text(t)),
        (None, None, Some(f)) => Some(TokenSourceView::File(f)),
        (None, None, None) => None,
    }
}

/// The fingerprints to trust: the token's own, then those staged.
pub open spec fn trusted_fps(fp: Option<Seq<char>>, staged: Seq<Seq<char>>) -> Seq<Seq<char>> {
    match fp {
        Some(f) => seq![f] + staged,
        None => staged,
    }
}

impl Default for ClientConfig {
    fn default() -> (r: ClientConfig)
        ensures
            r.token is None,
            r.token_file is None,
            !r.trust_any_cert,
            r.ca is None,
            r.ca_cert is None,
            r.coordinator_fp@.len() == 0,
            r.state_dir@ == "/var/lib/nqvpn-client"@,
            r.tun_name is None,
    {
        ClientConfig {
            token: None,
            token_file: None,
            trust_any_cert: d_false(),
            ca: None,
            ca_cert: None,
            coordinator_fp: Vec::new(),
            state_dir: d_state(),
            tun_name: None,
        }
    }
}

impl ClientConfig {
    /// Where the token is found: on the command line, in the configuration
    /// or in a file.
    pub fn token(&self, override_token: Option<&str>) -> (r: Result<TokenSource, String>)
        ensures
            match (
                r,
                token_source(
                    crate::routes::opt_str(override_token),
                    opt_text(self.token),
                    opt_text(self.token_file),
                ),
            ) {
                (Ok(s), Some(want)) => s@ == want,
                (Err(e), None) => e@
                    == "no token: pass --token, or set token / token_file in the config"@,
                _ => false,
            },
    {
        if let Some(t) = override_token {
            return Ok(TokenSource::Text(t.to_owned()));
        }
        if let Some(t) = &self.token {
            return Ok(TokenSource::Text(t.clone()));
        }
        if let Some(f) = &self.token_file {
            return Ok(TokenSource::File(f.clone()));
        }
        Err("no token: pass --token, or set token / token_file in the config".to_owned())
    }

    /// How the coordinator's certificate is checked, before the token is
    /// read.
    pub fn tls(&self) -> (r: JoinTls)
        ensures
            r.trust_any_cert == self.trust_any_cert,
            opt_text(r.ca_pem) == opt_text(self.ca),
            opt_text(r.ca_cert) == opt_text(self.ca_cert),
            r.pinned_fps@.len() == 0,
    {
        JoinTls {
            trust_any_cert: self.trust_any_cert,
            ca_pem: copy_opt(&self.ca),
            ca_cert: copy_opt(&self.ca_cert),
            pinned_fps: Vec::new(),
        }
    }

    /// What the member needs to join, once the token is read.
    pub fn member(&self, token: &TokenFacts) -> (r: MemberConfig)
        ensures
            r.coordinator@ == token.coordinator@,
            r.secret@ == token.secret@,
            r.tls.trust_any_cert == self.trust_any_cert,
            opt_text(r.tls.ca_pem) == opt_text(self.ca),
            opt_text(r.tls.ca_cert) == opt_text(self.ca_cert),
            messages(r.tls.pinned_fps@) == trusted_fps(
                opt_text(token.fp),
                messages(self.coordinator_fp@),
            ),
    {
        let mut fps: Vec<String> = Vec::new();
        if let Some(f) = &token.fp {
            fps.push(f.clone());
        }
        let ghost own = fps@.len();
        let mut i: usize = 0;
        while i < self.coordinator_fp.len()
            invariant
                i <= self.coordinator_fp@.len(),
                own == if token.fp is Some {
                    1int
                } else {
                    0
                },
                fps@.len() == own + i,
                token.fp is Some ==> fps@[0]@ == token.fp->0@,
                forall|j: int|
                    own <= j < fps@.len() ==> (#[trigger] fps@[j])@ == self.coordinator_fp@[j
                        - own]@,
            decreases self.coordinator_fp.len() - i,
        {
            fps.push(self.coordinator_fp[i].clone());
            i = i + 1;
        }
        let mut tls = self.tls();
        assert(messages(fps@) =~= trusted_fps(opt_text(token.fp), messages(self.coordinator_fp@)));
        tls.pinned_fps = fps;
        MemberConfig { coordinator: token.coordinator.clone(), secret: token.secret.clone(), tls }
    }
}

/// Every fingerprint that is staged is trusted, and so is the token's: a
/// coordinator can change its certificate without a change at every member
/// at once.
pub proof fn law_a_staged_certificate_is_trusted(
    fp: Option<Seq<char>>,
    staged: Seq<Seq<char>>,
    f: Seq<char>,
)
    ensures
        trusted_fps(fp, staged).contains(f) <==> (fp == Some(f) || staged.contains(f)),
{
    let all = trusted_fps(fp, staged);
    if fp == Some(f) {
        assert(all[0] == f);
    }
    if staged.contains(f) {
        let i = choose|i: int| 0 <= i < staged.len() && staged[i] == f;
        if fp is Some {
            assert(all[i + 1] == f);
        }
    }
}

/// The token of the command line is used where there is one, else the one of
/// the configuration, else that of the file; where there is none, none is.
pub proof fn law_the_command_line_wins(
    given: Option<Seq<char>>,
    token: Option<Seq<char>>,
    file: Option<Seq<char>>,
)
    ensures
        given matches Some(t) ==> token_source(given, token, file) == Some(
            TokenSourceView::Text(t),
        ),
        given is None ==> (token matches Some(t) ==> token_source(given, token, file) == Some(
            TokenSourceView::Text(t),
        )),
        given is None && token is None ==> (file matches Some(f) ==> token_source(
            given,
            token,
            file,
        ) == Some(TokenSourceView::File(f))),
        token_source(given, token, file) is None <==> given is None && token is None
            && file is None,
{
}

} // verus!
