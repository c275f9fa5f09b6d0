use nqvpn::tls::{chosen_identity, load_pem_identity, tls_identity, PemProblem};

fn pem(label: &str, base64: &str) -> String {
    format!("-----BEGIN {label}-----\n{base64}\n-----END {label}-----\n")
}

fn bytes(s: &str) -> Vec<u8> {
    s.as_bytes().to_vec()
}

#[test]
fn the_first_certificate_and_the_key_are_the_identity() {
    let cert = pem("CERTIFICATE", "AQID") + &pem("CERTIFICATE", "BAUG");
    for label in ["PRIVATE KEY", "EC PRIVATE KEY", "RSA PRIVATE KEY"] {
        let key = pem(label, "BwgJ");
        let (leaf, secret) = load_pem_identity(&bytes(&cert), &bytes(&key)).unwrap();
        assert_eq!(leaf, vec![1, 2, 3]);
        assert_eq!(secret, vec![7, 8, 9]);
        assert_eq!(
            tls_identity(&bytes(&cert), &bytes(&key)),
            Some((vec![1, 2, 3], vec![7, 8, 9]))
        );
    }
    // A key may stand among other things.
    let both = cert + &pem("PRIVATE KEY", "BwgJ");
    assert_eq!(
        tls_identity(&bytes(&both), &bytes(&both)),
        Some((vec![1, 2, 3], vec![7, 8, 9]))
    );
}

#[test]
fn each_problem_of_the_files_has_its_name() {
    let cert = bytes(&pem("CERTIFICATE", "AQID"));
    let key = bytes(&pem("PRIVATE KEY", "BwgJ"));
    let bad_cert = bytes(&pem("CERTIFICATE", "!"));
    let bad_key = bytes(&pem("PRIVATE KEY", "!"));
    let cases = [
        (&bad_cert, &key, PemProblem::BadCertificate, "parsing [tls].cert"),
        (&key, &key, PemProblem::NoCertificate, "no certificate in [tls].cert"),
        (&cert, &bad_key, PemProblem::BadKey, "parsing [tls].key"),
        (&cert, &cert, PemProblem::NoKey, "no private key in [tls].key"),
        // The certificate is looked at first.
        (&bad_cert, &bad_key, PemProblem::BadCertificate, "parsing [tls].cert"),
    ];
    for (c, k, problem, words) in cases {
        assert_eq!(load_pem_identity(c, k), Err(problem));
        assert_eq!(problem.as_str(), words);
        assert_eq!(tls_identity(c, k), None);
    }
    // Every certificate of the file has to be readable.
    let second_bad = bytes(&(pem("CERTIFICATE", "AQID") + &pem("CERTIFICATE", "!")));
    assert_eq!(load_pem_identity(&second_bad, &key), Err(PemProblem::BadCertificate));
    assert_eq!(load_pem_identity(&vec![], &key), Err(PemProblem::NoCertificate));
    assert_eq!(load_pem_identity(&cert, &vec![]), Err(PemProblem::NoKey));
}

#[test]
fn what_was_read_decides() {
    let some = || Some(vec![vec![1u8], vec![2u8]]);
    assert_eq!(chosen_identity(some(), Some(Some(vec![9]))), Ok((vec![1], vec![9])));
    assert_eq!(chosen_identity(None, None), Err(PemProblem::BadCertificate));
    assert_eq!(chosen_identity(Some(vec![]), None), Err(PemProblem::NoCertificate));
    assert_eq!(chosen_identity(some(), None), Err(PemProblem::BadKey));
    assert_eq!(chosen_identity(some(), Some(None)), Err(PemProblem::NoKey));
}
