//! The certificate and the key that the coordinator is configured with.

use vstd::prelude::*;

verus! {

/// The certificates of a PEM file in order, each as DER. Nothing where the
/// file is not readable as PEM.
pub uninterp spec fn pem_certificates(pem: Seq<u8>) -> Option<Seq<Seq<u8>>>;

/// The first private key of a PEM file as DER, if there is one. Nothing where
/// the file is not readable as PEM up to there.
pub uninterp spec fn pem_private_key(pem: Seq<u8>) -> Option<Option<Seq<u8>>>;

/// What is wrong with the files.
#[derive(Clone, Copy, PartialEq, Eq, Structural, Debug)]
pub enum PemProblem {
    BadCertificate,
    NoCertificate,
    BadKey,
    NoKey,
}

impl PemProblem {
    /// The problem in words.
    pub fn as_str(&self) -> (r: &'static str)
        ensures
            r@ == match self {
                PemProblem::BadCertificate => "parsing [tls].cert"@,
                PemProblem::NoCertificate => "no certificate in [tls].cert"@,
                PemProblem::BadKey => "parsing [tls].key"@,
                PemProblem::NoKey => "no private key in [tls].key"@,
            },
    {
        match self {
            PemProblem::BadCertificate => "parsing [tls].cert",
            PemProblem::NoCertificate => "no certificate in [tls].cert",
            PemProblem::BadKey => "parsing [tls].key",
            PemProblem::NoKey => "no private key in [tls].key",
        }
    }
}

/// The content of a list of byte strings.
pub open spec fn byte_views(v: Seq<Vec<u8>>) -> Seq<Seq<u8>> {
    v.map_values(|b: Vec<u8>| b@)
}

/// `rustls_pemfile::certs` on the bytes of a file, gathered up to the first
/// error: a function of the bytes.
#[verifier::external_body]
fn read_certificates(pem: &Vec<u8>) -> (r: Option<Vec<Vec<u8>>>)
    ensures
        match r {
            Some(v) => pem_certificates(pem@) == Some(byte_views(v@)),
            None => pem_certificates(pem@) is None,
        },
{
    rustls_pemfile::certs(&mut pem.as_slice())
        .map(|c| c.map(|der| der.to_vec()))
        .collect::<Result<Vec<Vec<u8>>, std::io::Error>>()
        .ok()
}

/// `rustls_pemfile::private_key` on the bytes of a file: a function of the
/// bytes.
#[verifier::external_body]
fn read_private_key(pem: &Vec<u8>) -> (r: Option<Option<Vec<u8>>>)
    ensures
        match r {
            Some(Some(k)) => pem_private_key(pem@) == Some(Some(k@)),
            Some(None) => pem_private_key(pem@) == Some(None::<Seq<u8>>),
            None => pem_private_key(pem@) is None,
        },
{
    rustls_pemfile::private_key(&mut pem.as_slice())
        .ok()
        .map(|k| k.map(|der| der.secret_der().to_vec()))
}

/// Why what two files hold makes no identity. The certificate is looked at
/// first.
pub open spec fn identity_problem(
    certs: Option<Seq<Seq<u8>>>,
    key: Option<Option<Seq<u8>>>,
) -> Option<PemProblem> {
    match (certs, key) {
        (None, _) => Some(PemProblem::BadCertificate),
        (Some(c), _) if c.len() == 0 => Some(PemProblem::NoCertificate),
        (_, None) => Some(PemProblem::BadKey),
        (_, Some(None)) => Some(PemProblem::NoKey),
        _ => None,
    }
}

/// The identity that the contents of two files make: the first certificate,
/// and the key.
pub fn chosen_identity(certs: Option<Vec<Vec<u8>>>, key: Option<Option<Vec<u8>>>) -> (r: Result<
    (Vec<u8>, Vec<u8>),
    PemProblem,
>)
    ensures
        ({
            let c = match certs {
                Some(v) => Some(byte_views(v@)),
                None => None,
            };
            let k = match key {
                Some(Some(k)) => Some(Some(k@)),
                Some(None) => Some(None::<Seq<u8>>),
                None => None,
            };
            match r {
                Ok((leaf, secret)) => identity_problem(c, k) is None && leaf@ == (c->0)[0]
                    && secret@ == (k->0)->0,
                Err(p) => identity_problem(c, k) == Some(p),
            }
        }),
{
    let mut all = match certs {
        Some(v) => v,
        None => {
            return Err(PemProblem::BadCertificate);
        },
    };
    assert(byte_views(all@).len() == all@.len());
    if all.len() == 0 {
        return Err(PemProblem::NoCertificate);
    }
    match key {
        None => Err(PemProblem::BadKey),
        Some(None) => Err(PemProblem::NoKey),
        Some(Some(secret)) => {
            assert(byte_views(all@)[0] == all@[0]@);
            let leaf = all.remove(0);
            Ok((leaf, secret))
        },
    }
}

/// The identity that the bytes of two PEM files make.
pub fn load_pem_identity(cert: &Vec<u8>, key: &Vec<u8>) -> (r: Result<
    (Vec<u8>, Vec<u8>),
    PemProblem,
>)
    ensures
        match r {
            Ok((leaf, secret)) => {
                &&& identity_problem(pem_certificates(cert@), pem_private_key(key@)) is None
                &&& leaf@ == (pem_certificates(cert@)->0)[0]
                &&& secret@ == (pem_private_key(key@)->0)->0
            },
            Err(p) => identity_problem(pem_certificates(cert@), pem_private_key(key@)) == Some(p),
        },
{
    chosen_identity(read_certificates(cert), read_private_key(key))
}

/// The leaf certificate and the key of two PEM files, where both are there.
pub fn tls_identity(cert: &Vec<u8>, key: &Vec<u8>) -> (r: Option<(Vec<u8>, Vec<u8>)>)
    ensures
        match (pem_certificates(cert@), pem_private_key(key@)) {
            (Some(c), Some(Some(k))) if c.len() > 0 => r matches Some((leaf, s)) && leaf@ == c[0]
                && s@ == k,
            _ => r is None,
        },
{
    match load_pem_identity(cert, key) {
        Ok(id) => Some(id),
        Err(_) => None,
    }
}

/// Two files make an identity where the one holds a certificate and the other
/// a key; each thing that is missing or not readable is named, the certificate
/// first.
pub proof fn law_an_identity_is_a_certificate_and_a_key(
    certs: Option<Seq<Seq<u8>>>,
    key: Option<Option<Seq<u8>>>,
)
    ensures
        identity_problem(certs, key) is None <==> certs is Some && certs->0.len() > 0 && key is Some
            && key->0 is Some,
        certs is None ==> identity_problem(certs, key) == Some(PemProblem::BadCertificate),
        certs is Some && certs->0.len() == 0 ==> identity_problem(certs, key) == Some(
            PemProblem::NoCertificate,
        ),
        certs is Some && certs->0.len() > 0 && key is None ==> identity_problem(certs, key) == Some(
            PemProblem::BadKey,
        ),
        certs is Some && certs->0.len() > 0 && key == Some(None::<Seq<u8>>) ==> identity_problem(
            certs,
            key,
        ) == Some(PemProblem::NoKey),
{
}

} // verus!
