use httplogger::tls_hello::{ClientHelloInfo, EXT_ALPN, EXT_ALPS_NEW, EXT_ECH};
use httplogger::tls_mimic::{
    authority_key, compress_certificate, connect_plan, decompress_certificate, fallback_plan,
    group_name, is_encrypted, offered_versions, openssl_cipher_list, openssl_group_list,
    openssl_sigalg_list, profile_plan, sigalg_name, tls12_cipher_name, websocket_plan,
    ws_host_port, FingerprintStore, TlsVersion, WsUrlError,
};

fn hello(alpn: &[&str]) -> ClientHelloInfo {
    ClientHelloInfo {
        cipher_suites: vec![0x0a0a, 0x1301, 0xc02b, 0xffff, 0x0035],
        extensions: vec![0x1a1a, EXT_ALPN, 0x0012, EXT_ALPS_NEW, EXT_ECH],
        groups: vec![0x2a2a, 0x11ec, 0x001d, 0x9999],
        signature_algorithms: vec![0x0403, 0x1234, 0x0904],
        alpn: alpn.iter().map(|p| p.as_bytes().to_vec()).collect(),
        key_share_groups: vec![0x2a2a, 0x11ec],
        supported_versions: vec![0x3a3a, 0x0304],
        cert_compression: vec![2],
    }
}

#[test]
fn names_of_the_library() {
    assert_eq!(tls12_cipher_name(0xc02b), Some("ECDHE-ECDSA-AES128-GCM-SHA256"));
    assert_eq!(tls12_cipher_name(0x1301), None);
    assert_eq!(group_name(0x11ec), Some("X25519MLKEM768"));
    assert_eq!(group_name(0), None);
    assert_eq!(sigalg_name(0x0906), Some("mldsa87"));
    assert_eq!(sigalg_name(0xffff), None);
    let h = hello(&["h2"]);
    assert_eq!(
        openssl_cipher_list(&h.cipher_suites),
        "ECDHE-ECDSA-AES128-GCM-SHA256:AES256-SHA"
    );
    assert_eq!(openssl_group_list(&h.groups), "X25519MLKEM768:X25519");
    assert_eq!(openssl_sigalg_list(&h.signature_algorithms), "ecdsa_secp256r1_sha256:mldsa44");
    assert_eq!(openssl_group_list(&[]), "");
}

#[test]
fn profile_of_a_hello() {
    let plan = profile_plan(&hello(&["h2", "http/1.1"]));
    assert_eq!(plan.versions, Some((TlsVersion::Tls13, TlsVersion::Tls13)));
    assert!(plan.grease && plan.permute_extensions);
    assert!(!plan.ocsp_stapling && plan.signed_cert_timestamps && plan.brotli_certificates);
    assert_eq!(plan.alpn.as_deref(), Some(&b"\x02h2\x08http/1.1"[..]));
    let mut h = hello(&[]);
    assert_eq!(profile_plan(&h).alpn, None);
    h.supported_versions = vec![0x0303, 0x0304];
    assert_eq!(offered_versions(&h), Some((TlsVersion::Tls12, TlsVersion::Tls13)));
    h.supported_versions = vec![0x0303];
    assert_eq!(offered_versions(&h), Some((TlsVersion::Tls12, TlsVersion::Tls12)));
    h.supported_versions = vec![0x0302];
    assert_eq!(offered_versions(&h), None);
}

#[test]
fn connections_with_and_without_a_profile() {
    let h = hello(&["h2"]);
    let plan = connect_plan(Some(&h));
    assert_eq!(plan.alpn.as_deref(), Some(&b"\x02h2"[..]));
    assert_eq!(plan.alps, Some(true));
    assert!(plan.permute_extensions && plan.ech_grease);
    assert_eq!(plan.groups, vec![0x11ec, 0x001d, 0x9999]);
    assert_eq!(plan.sigalgs, vec![0x0403, 0x1234, 0x0904]);
    assert_eq!(plan.key_shares, vec![0x11ec]);
    assert_eq!(connect_plan(Some(&hello(&["http/1.1"]))).alps, None);
    let none = connect_plan(None);
    assert_eq!((none.alpn, none.alps), (None, Some(true)));
    let ws = websocket_plan(Some(&h));
    assert_eq!(ws.alpn.as_deref(), Some(&b"\x08http/1.1"[..]));
    assert_eq!(ws.alps, None);
    assert_eq!(ws.key_shares, vec![0x11ec]);
    assert_eq!(websocket_plan(None).alpn.as_deref(), Some(&b"\x08http/1.1"[..]));
    let fallback = fallback_plan();
    assert_eq!(fallback.alpn.as_deref(), Some(&b"\x02h2\x08http/1.1"[..]));
    assert_eq!(fallback.groups, "X25519MLKEM768:X25519:P-256:P-384");
}

#[test]
fn certificates_in_brotli_form() {
    let cert = b"certificate certificate certificate certificate".to_vec();
    let packed = compress_certificate(&cert).unwrap();
    assert_ne!(packed, cert);
    assert_eq!(decompress_certificate(&packed), Some(cert));
    assert_eq!(decompress_certificate(b"\xff\xff\xff"), None);
    let nothing = compress_certificate(b"").unwrap();
    assert_eq!(decompress_certificate(&nothing), Some(Vec::new()));
}

#[test]
fn keys_of_authorities() {
    for (authority, key) in [
        ("Example.COM", "example.com:443"),
        ("example.com:8443", "example.com:8443"),
        ("example.com:", "example.com::443"),
        ("example.com:99999", "example.com:99999:443"),
        ("[::1]", "[::1]:443"),
        ("[::1]:80", "[::1]:80"),
        ("a:+1", "a:+1"),
        ("", ":443"),
    ] {
        assert_eq!(authority_key(authority), key, "{authority}");
        assert_eq!(authority_key(key), key);
    }
}

#[test]
fn where_websockets_connect() {
    let place = |h: &str, p| (h.to_string(), p);
    assert_eq!(ws_host_port(Some("[::1]"), None, Some("wss")), Ok(place("::1", 443)));
    assert_eq!(ws_host_port(Some("[::1"), None, Some("ws")), Ok(place("[::1", 80)));
    assert_eq!(ws_host_port(Some("a"), Some(9), Some("https")), Ok(place("a", 9)));
    assert_eq!(ws_host_port(Some("a"), None, None), Ok(place("a", 80)));
    assert_eq!(ws_host_port(None, Some(9), None), Err(WsUrlError::NoHostName));
    assert!(is_encrypted(Some("https")) && !is_encrypted(Some("ws")) && !is_encrypted(None));
}

#[test]
fn profiles_are_compiled_once() {
    let mut store: FingerprintStore<&str> = FingerprintStore::new();
    assert!(!store.has_profile());
    assert!(store.latest_hello().is_none());
    let h2 = hello(&["h2"]);
    assert_eq!(store.observe("A.test", &h2), Some(1));
    assert!(store.compiled("a.test:443", 1, h2.copied(), "one"));
    assert!(store.has_profile());
    assert_eq!(store.observe("a.test", &h2), None);
    assert_eq!(store.current(Some("A.TEST")).unwrap().connector, "one");
    assert!(store.current(Some("b.test")).is_none());
    assert!(store.current(None).is_none());
    let http1 = hello(&["http/1.1"]);
    assert_eq!(store.observe("a.test", &http1), None);
    assert_eq!(store.latest_hello(), Some(&http1));
    assert_eq!(store.observe("b.test", &http1), Some(1));
}

#[test]
fn late_compilations_count_for_nothing() {
    let mut store: FingerprintStore<u8> = FingerprintStore::new();
    let first = hello(&["h2"]);
    let mut second = hello(&["h2"]);
    second.groups.pop();
    assert_eq!(store.observe("a", &first), Some(1));
    assert_eq!(store.observe("a", &second), Some(2));
    assert!(!store.compiled("a", 1, first.copied(), 1));
    assert!(!store.has_profile());
    assert!(store.compiled("a", 2, second.copied(), 2));
    store.compilation_failed("a", 1);
    assert_eq!(store.current(Some("a")).unwrap().connector, 2);
    assert_eq!(store.observe("a", &first), Some(3));
    store.compilation_failed("a", 3);
    assert!(store.current(Some("a")).is_none());
}
