use lightpolars::resource::resolve_data_uri;

#[test]
fn decodes_base64_data_uri() {
    // "Oi" in base64 is "T2k="
    let out = resolve_data_uri("data:text/plain;base64,T2k=").unwrap();
    assert_eq!(out, b"Oi");
}

#[test]
fn decodes_data_uri_without_base64() {
    let out = resolve_data_uri("data:text/plain,Oi").unwrap();
    assert_eq!(out, b"Oi");
}

#[test]
fn rejects_http_https_and_file() {
    assert!(resolve_data_uri("http://exemplo.com/a.png").is_none());
    assert!(resolve_data_uri("https://exemplo.com/a.png").is_none());
    assert!(resolve_data_uri("file:///etc/passwd").is_none());
    assert!(resolve_data_uri("//exemplo.com/a.png").is_none());
    assert!(resolve_data_uri("/var/secret").is_none());
}

#[test]
fn uppercase_does_not_disguise_another_scheme() {
    // Must not be mistaken for data:
    assert!(resolve_data_uri("javascript:alert(1)").is_none());
    // A legitimate data: in upper case stays valid
    assert!(resolve_data_uri("DATA:text/plain,Oi").is_some());
}

#[test]
fn invalid_base64_returns_none_instead_of_panicking() {
    assert!(resolve_data_uri("data:image/png;base64,!!!not-base64!!!").is_none());
}

#[test]
fn multibyte_input_does_not_panic() {
    // "é" takes bytes 4 and 5, so cutting at 5 would land mid-character.
    assert!(resolve_data_uri("aaaaé").is_none());
    assert!(resolve_data_uri("é").is_none());
    assert!(resolve_data_uri("dataé").is_none());
    // A legitimate data: followed by multibyte content keeps working
    assert_eq!(resolve_data_uri("data:text/plain,ação").unwrap(), "ação".as_bytes());
}

#[test]
fn percent_escapes_decode_and_broken_ones_stay() {
    assert_eq!(resolve_data_uri("data:,a%20b%zz%4").unwrap(), b"a b%zz%4");
}

#[test]
fn a_base64_segment_anywhere_in_the_media_type_counts() {
    assert_eq!(resolve_data_uri("data:image/png;BASE64;charset=x, T2k= ").unwrap(), b"Oi");
    assert_eq!(resolve_data_uri("data:base64x,T2k=").unwrap(), b"T2k=");
}

#[test]
fn a_data_uri_without_a_comma_is_absent() {
    assert!(resolve_data_uri("data:text/plain").is_none());
}
