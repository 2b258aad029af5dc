use moq::web::{connect_plan, fingerprint, ConnectPlan, WebError};

#[test]
fn fingerprint_decodes_trimmed_hex() {
    assert_eq!(fingerprint(b" 0aFf10\n"), Ok(vec![0x0a, 0xff, 0x10]));
    assert_eq!(fingerprint(b"\t\r\n"), Ok(vec![]));
    assert_eq!(fingerprint(b"abc"), Err(WebError::InvalidFingerprint));
    assert_eq!(fingerprint(b"zz"), Err(WebError::InvalidFingerprint));
    assert_eq!(fingerprint(b"a b"), Err(WebError::InvalidFingerprint));
}

#[test]
fn scheme_decides_connection() {
    assert_eq!(connect_plan("http"), Ok(ConnectPlan::Fingerprint));
    assert_eq!(connect_plan("https"), Ok(ConnectPlan::Direct));
    assert_eq!(connect_plan("ftp"), Err(WebError::InvalidUrl));
}
