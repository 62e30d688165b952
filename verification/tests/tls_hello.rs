use httplogger::tls_hello::{
    alpn_wire, compare_hellos, diff_set, extract_client_hello, is_grease, join_hex,
    sorted_without_grease, without_grease, ClientHelloInfo, EXT_ALPN, EXT_ALPS_NEW, EXT_ALPS_OLD,
    EXT_ECH, EXT_SUPPORTED_GROUPS,
};

fn build_hello() -> Vec<u8> {
    let mut body = Vec::new();
    body.extend_from_slice(&0x0303u16.to_be_bytes());
    body.extend_from_slice(&[0u8; 32]);
    body.push(0);
    let ciphers: [u16; 4] = [0x1301, 0x1302, 0xc02f, 0x0a0a];
    body.extend_from_slice(&((ciphers.len() * 2) as u16).to_be_bytes());
    for c in ciphers {
        body.extend_from_slice(&c.to_be_bytes());
    }
    body.push(1);
    body.push(0);

    let mut exts = Vec::new();
    push_ext(&mut exts, EXT_SUPPORTED_GROUPS, &{
        let mut d = Vec::new();
        let groups: [u16; 2] = [0x11ec, 0x001d];
        d.extend_from_slice(&((groups.len() * 2) as u16).to_be_bytes());
        for g in groups {
            d.extend_from_slice(&g.to_be_bytes());
        }
        d
    });
    push_ext(&mut exts, EXT_ALPN, &{
        let mut d = Vec::new();
        let proto = alpn_wire(&[b"h2".to_vec(), b"http/1.1".to_vec()]);
        d.extend_from_slice(&(proto.len() as u16).to_be_bytes());
        d.extend_from_slice(&proto);
        d
    });
    push_ext(&mut exts, EXT_ECH, &[]);

    body.extend_from_slice(&(exts.len() as u16).to_be_bytes());
    body.extend_from_slice(&exts);

    let mut handshake = Vec::new();
    handshake.push(0x01);
    handshake.push(((body.len() >> 16) & 0xff) as u8);
    handshake.push(((body.len() >> 8) & 0xff) as u8);
    handshake.push((body.len() & 0xff) as u8);
    handshake.extend_from_slice(&body);

    let mut record = Vec::new();
    record.push(0x16);
    record.extend_from_slice(&0x0301u16.to_be_bytes());
    record.extend_from_slice(&(handshake.len() as u16).to_be_bytes());
    record.extend_from_slice(&handshake);
    record
}

fn push_ext(out: &mut Vec<u8>, ext_type: u16, data: &[u8]) {
    out.extend_from_slice(&ext_type.to_be_bytes());
    out.extend_from_slice(&(data.len() as u16).to_be_bytes());
    out.extend_from_slice(data);
}

#[test]
fn parses_client_hello_record() {
    let raw = build_hello();
    let (hello, consumed) = extract_client_hello(&raw).expect("hello");
    assert_eq!(consumed, raw.len());
    assert_eq!(hello.cipher_suites, vec![0x1301, 0x1302, 0xc02f, 0x0a0a]);
    assert!(hello.grease());
    assert!(hello.has_ech());
    assert_eq!(hello.groups, vec![0x11ec, 0x001d]);
    assert_eq!(hello.alpn, vec![b"h2".to_vec(), b"http/1.1".to_vec()]);
}

fn hello() -> ClientHelloInfo {
    ClientHelloInfo {
        cipher_suites: vec![0x0a0a, 0x1301, 0x1302, 0xc02b, 0xffff],
        extensions: vec![0x1a1a, 0x0000, EXT_ALPN, 0x0005, 0x0012, EXT_ALPS_NEW, EXT_ECH],
        groups: vec![0x2a2a, 0x11ec, 0x001d, 0x9999],
        signature_algorithms: vec![0x0403, 0x0804, 0x0201],
        alpn: vec![b"h2".to_vec(), b"http/1.1".to_vec()],
        key_share_groups: vec![0x2a2a, 0x11ec],
        supported_versions: vec![0x3a3a, 0x0304, 0x0303],
        cert_compression: vec![2],
    }
}

#[test]
fn hello_is_kept_when_more_bytes_follow() {
    let record = build_hello();
    let (first, consumed) = extract_client_hello(&record).unwrap();
    assert_eq!(consumed, record.len());
    let mut more = record.clone();
    more.extend([0x17, 3, 3, 0, 1, 0]);
    assert_eq!(extract_client_hello(&more), Some((first, consumed)));
    for n in 0..record.len() {
        assert_eq!(extract_client_hello(&record[..n]), None);
    }
}

#[test]
fn hello_in_two_records() {
    let record = build_hello();
    let handshake = &record[5..];
    let mut split = vec![];
    for part in [&handshake[..7], &handshake[7..]] {
        split.extend([0x16, 3, 1]);
        split.extend((part.len() as u16).to_be_bytes());
        split.extend(part);
    }
    assert_eq!(
        extract_client_hello(&split).unwrap().0,
        extract_client_hello(&record).unwrap().0
    );
    assert_eq!(extract_client_hello(&[0x17, 3, 1, 0, 0]), None);
}

#[test]
fn reserved_values() {
    for id in 0..=u16::MAX {
        let [a, b] = id.to_be_bytes();
        assert_eq!(is_grease(id), a & 0x0f == 0x0a && b & 0x0f == 0x0a, "{id:#x}");
    }
    assert_eq!(without_grease(&[0x0a0a, 1, 0xfafa, 2]), vec![1, 2]);
    assert_eq!(sorted_without_grease(&[5, 0x0a0a, 3, 5, 1]), vec![1, 3, 5, 5]);
    assert_eq!(join_hex(vec![0x1301, 0x0005]), "1301-0005");
    assert_eq!(join_hex(vec![]), "");
}

#[test]
fn what_a_hello_offers() {
    let h = hello();
    assert!(h.grease() && h.has_ocsp() && h.has_sct() && h.has_ech() && h.has_brotli_cert());
    assert_eq!(h.alps_new_codepoint(), Some(true));
    let mut old = h.copied();
    assert_eq!(old, h);
    old.extensions.push(EXT_ALPS_OLD);
    assert_eq!(old.alps_new_codepoint(), Some(false));
    assert_eq!(
        h.identity_key(),
        "c:1301-1302-c02b-ffff|e:0000-0005-0010-0012-44cd-fe0d|g:11ec-001d-9999|s:0403-0804-0201|a:h2,http/1.1|k:11ec|v:0304-0303|z:0002"
    );
    assert_eq!(
        h.summary(),
        "ciphers=4 ext=6 groups=3 sigalgs=3 alpn=[h2,http/1.1] shares=11ec grease=true ech=true alps=Some(true)"
    );
}

#[test]
fn identity_ignores_reserved_values_and_order_of_extensions() {
    let h = hello();
    let mut other = h.copied();
    other.cipher_suites[0] = 0xdada;
    other.extensions.reverse();
    assert_eq!(other.identity_key(), h.identity_key());
    other.groups.reverse();
    assert_ne!(other.identity_key(), h.identity_key());
}

#[test]
fn differences_of_hellos() {
    let h = hello();
    assert!(compare_hellos(&h, &h).is_empty());
    let mut other = h.copied();
    other.extensions.reverse();
    assert!(compare_hellos(&h, &other).is_empty());
    other.cipher_suites.pop();
    other.alpn.pop();
    assert_eq!(
        compare_hellos(&h, &other),
        vec![
            "ciphers: missing_outbound=ffff extra_outbound=",
            "alpn inbound=[\"h2\", \"http/1.1\"] outbound=[\"h2\"]",
        ]
    );
    let bare = ClientHelloInfo {
        cipher_suites: h.cipher_suites[1..].to_vec(),
        extensions: vec![0x0000, EXT_ALPN],
        groups: h.groups[1..].to_vec(),
        signature_algorithms: h.signature_algorithms.clone(),
        alpn: h.alpn.clone(),
        key_share_groups: h.key_share_groups.clone(),
        supported_versions: h.supported_versions.clone(),
        cert_compression: vec![],
    };
    assert_eq!(
        compare_hellos(&h, &bare),
        vec![
            "extensions: missing_outbound=0005,0012,44cd,fe0d extra_outbound=",
            "cert_compression: missing_outbound=0002 extra_outbound=",
            "grease: inbound=true outbound=false",
            "ech: inbound=true outbound=false",
            "ocsp: inbound=true outbound=false",
            "sct: inbound=true outbound=false",
            "brotli_cert: inbound=true outbound=false",
            "alps: inbound=Some(true) outbound=None",
        ]
    );
    let mut sets = vec![];
    diff_set("x", &[2, 1], &[4, 2, 3, 4], &mut sets);
    assert_eq!(sets, vec!["x: missing_outbound=0001 extra_outbound=0003,0004"]);
    let mut same = vec![];
    diff_set("x", &[2, 1], &[1, 2], &mut same);
    assert!(same.is_empty());
}
