//! Offering upstream servers what the client offered: the profiles that are compiled from
//! ClientHellos, and what a profile asks of the TLS library.
use vstd::prelude::*;
use vstd::string::StringExecFns;
use crate::http_raw::{brotli_decoded, opt_bytes, unbrotli};
use crate::number::{decimal_value, parse_u16, parsed_u16, without_plus};
use crate::queues::{KeyTable, TableKey};
use crate::text::{
    ascii_lowercase, chars_of, join, joined, last_of, last_place, opt_str, same, text_of, texts,
    to_ascii_lower,
};
use crate::tls_hello::{
    alpn_wire, byte_lists, contains_id, plain_ids, wire_names, without_grease, ClientHelloInfo,
    HelloView, CERT_COMPRESSION_BROTLI, EXT_ALPN, EXT_ECH, EXT_SCT, EXT_STATUS_REQUEST,
};

verus! {

// ---------------------------------------------------------------------------
// Names of the TLS library.
// ---------------------------------------------------------------------------

/// The name of a cipher suite of TLS 1.2; those of TLS 1.3 are not named.
pub open spec fn cipher_word(id: u16) -> Option<Seq<char>> {
    match id {
        0xc02b => Some("ECDHE-ECDSA-AES128-GCM-SHA256"@),
        0xc02f => Some("ECDHE-RSA-AES128-GCM-SHA256"@),
        0xc02c => Some("ECDHE-ECDSA-AES256-GCM-SHA384"@),
        0xc030 => Some("ECDHE-RSA-AES256-GCM-SHA384"@),
        0xcca9 => Some("ECDHE-ECDSA-CHACHA20-POLY1305"@),
        0xcca8 => Some("ECDHE-RSA-CHACHA20-POLY1305"@),
        0xc013 => Some("ECDHE-RSA-AES128-SHA"@),
        0xc014 => Some("ECDHE-RSA-AES256-SHA"@),
        0x009c => Some("AES128-GCM-SHA256"@),
        0x009d => Some("AES256-GCM-SHA384"@),
        0x002f => Some("AES128-SHA"@),
        0x0035 => Some("AES256-SHA"@),
        0xc009 => Some("ECDHE-ECDSA-AES128-SHA"@),
        0xc00a => Some("ECDHE-ECDSA-AES256-SHA"@),
        _ => None,
    }
}

/// The name of a cipher suite of TLS 1.2; those of TLS 1.3 are not named.
pub fn tls12_cipher_name(id: u16) -> (r: Option<&'static str>)
    ensures
        opt_str(r) == cipher_word(id),
{
    match id {
        0xc02b => Some("ECDHE-ECDSA-AES128-GCM-SHA256"),
        0xc02f => Some("ECDHE-RSA-AES128-GCM-SHA256"),
        0xc02c => Some("ECDHE-ECDSA-AES256-GCM-SHA384"),
        0xc030 => Some("ECDHE-RSA-AES256-GCM-SHA384"),
        0xcca9 => Some("ECDHE-ECDSA-CHACHA20-POLY1305"),
        0xcca8 => Some("ECDHE-RSA-CHACHA20-POLY1305"),
        0xc013 => Some("ECDHE-RSA-AES128-SHA"),
        0xc014 => Some("ECDHE-RSA-AES256-SHA"),
        0x009c => Some("AES128-GCM-SHA256"),
        0x009d => Some("AES256-GCM-SHA384"),
        0x002f => Some("AES128-SHA"),
        0x0035 => Some("AES256-SHA"),
        0xc009 => Some("ECDHE-ECDSA-AES128-SHA"),
        0xc00a => Some("ECDHE-ECDSA-AES256-SHA"),
        _ => None,
    }
}

/// The name of a group.
pub open spec fn group_word(id: u16) -> Option<Seq<char>> {
    match id {
        0x001d => Some("X25519"@),
        0x0017 => Some("P-256"@),
        0x0018 => Some("P-384"@),
        0x0019 => Some("P-521"@),
        0x001e => Some("X448"@),
        0x0100 => Some("ffdhe2048"@),
        0x0101 => Some("ffdhe3072"@),
        0x11ec => Some("X25519MLKEM768"@),
        0x11eb => Some("SecP256r1MLKEM768"@),
        0x6399 => Some("X25519Kyber768Draft00"@),
        _ => None,
    }
}

/// The name of a group.
pub fn group_name(id: u16) -> (r: Option<&'static str>)
    ensures
        opt_str(r) == group_word(id),
{
    match id {
        0x001d => Some("X25519"),
        0x0017 => Some("P-256"),
        0x0018 => Some("P-384"),
        0x0019 => Some("P-521"),
        0x001e => Some("X448"),
        0x0100 => Some("ffdhe2048"),
        0x0101 => Some("ffdhe3072"),
        0x11ec => Some("X25519MLKEM768"),
        0x11eb => Some("SecP256r1MLKEM768"),
        0x6399 => Some("X25519Kyber768Draft00"),
        _ => None,
    }
}

/// The name of a signature algorithm.
pub open spec fn sigalg_word(id: u16) -> Option<Seq<char>> {
    match id {
        0x0403 => Some("ecdsa_secp256r1_sha256"@),
        0x0503 => Some("ecdsa_secp384r1_sha384"@),
        0x0603 => Some("ecdsa_secp521r1_sha512"@),
        0x0804 => Some("rsa_pss_rsae_sha256"@),
        0x0805 => Some("rsa_pss_rsae_sha384"@),
        0x0806 => Some("rsa_pss_rsae_sha512"@),
        0x0807 => Some("ed25519"@),
        0x0808 => Some("ed448"@),
        0x0809 => Some("rsa_pss_pss_sha256"@),
        0x080a => Some("rsa_pss_pss_sha384"@),
        0x080b => Some("rsa_pss_pss_sha512"@),
        0x0401 => Some("rsa_pkcs1_sha256"@),
        0x0501 => Some("rsa_pkcs1_sha384"@),
        0x0601 => Some("rsa_pkcs1_sha512"@),
        0x0201 => Some("rsa_pkcs1_sha1"@),
        0x0203 => Some("ecdsa_sha1"@),
        0x0303 => Some("ecdsa_sha384"@),
        0x0904 => Some("mldsa44"@),
        0x0905 => Some("mldsa65"@),
        0x0906 => Some("mldsa87"@),
        _ => None,
    }
}

/// The name of a signature algorithm.
pub fn sigalg_name(id: u16) -> (r: Option<&'static str>)
    ensures
        opt_str(r) == sigalg_word(id),
{
    match id {
        0x0403 => Some("ecdsa_secp256r1_sha256"),
        0x0503 => Some("ecdsa_secp384r1_sha384"),
        0x0603 => Some("ecdsa_secp521r1_sha512"),
        0x0804 => Some("rsa_pss_rsae_sha256"),
        0x0805 => Some("rsa_pss_rsae_sha384"),
        0x0806 => Some("rsa_pss_rsae_sha512"),
        0x0807 => Some("ed25519"),
        0x0808 => Some("ed448"),
        0x0809 => Some("rsa_pss_pss_sha256"),
        0x080a => Some("rsa_pss_pss_sha384"),
        0x080b => Some("rsa_pss_pss_sha512"),
        0x0401 => Some("rsa_pkcs1_sha256"),
        0x0501 => Some("rsa_pkcs1_sha384"),
        0x0601 => Some("rsa_pkcs1_sha512"),
        0x0201 => Some("rsa_pkcs1_sha1"),
        0x0203 => Some("ecdsa_sha1"),
        0x0303 => Some("ecdsa_sha384"),
        0x0904 => Some("mldsa44"),
        0x0905 => Some("mldsa65"),
        0x0906 => Some("mldsa87"),
        _ => None,
    }
}

/// What a list of ids is made of.
#[derive(Debug, Clone, Copy, PartialEq, Eq, Structural)]
pub enum NameTable {
    Ciphers,
    Groups,
    Sigalgs,
}

/// The name of an id.
pub open spec fn word_of(table: NameTable, id: u16) -> Option<Seq<char>> {
    match table {
        NameTable::Ciphers => cipher_word(id),
        NameTable::Groups => group_word(id),
        NameTable::Sigalgs => sigalg_word(id),
    }
}

/// The names of the ids that have one, in their order.
pub open spec fn words_of(table: NameTable, ids: Seq<u16>) -> Seq<Seq<char>>
    decreases ids.len(),
{
    if ids.len() == 0 {
        seq![]
    } else {
        match word_of(table, ids.last()) {
            Some(word) => words_of(table, ids.drop_last()).push(word),
            None => words_of(table, ids.drop_last()),
        }
    }
}

/// The names of the ids that are not reserved and have one, with colons between them.
pub open spec fn name_list(table: NameTable, ids: Seq<u16>) -> Seq<char> {
    join(words_of(table, plain_ids(ids)), ":"@)
}

fn openssl_list(table: NameTable, ids: &[u16]) -> (r: String)
    ensures
        r@ == name_list(table, ids@),
{
    let plain = without_grease(ids);
    let mut words: Vec<String> = Vec::new();
    let mut i: usize = 0;
    assert(plain@.take(0) =~= Seq::<u16>::empty());
    assert(texts(words@) =~= words_of(table, plain@.take(0)));
    while i < plain.len()
        invariant
            i <= plain@.len(),
            texts(words@) == words_of(table, plain@.take(i as int)),
        decreases plain@.len() - i,
    {
        let name = match table {
            NameTable::Ciphers => tls12_cipher_name(plain[i]),
            NameTable::Groups => group_name(plain[i]),
            NameTable::Sigalgs => sigalg_name(plain[i]),
        };
        assert(plain@.take(i + 1).drop_last() =~= plain@.take(i as int));
        if let Some(name) = name {
            let word = name.to_owned();
            assert(texts(words@.push(word)) =~= texts(words@).push(word@));
            words.push(word);
        }
        i = i + 1;
    }
    assert(plain@.take(i as int) =~= plain@);
    joined(words.as_slice(), ":")
}

/// The cipher suites as the TLS library takes them.
pub fn openssl_cipher_list(ciphers: &[u16]) -> (r: String)
    ensures
        r@ == name_list(NameTable::Ciphers, ciphers@),
{
    openssl_list(NameTable::Ciphers, ciphers)
}

/// The groups as the TLS library takes them.
pub fn openssl_group_list(groups: &[u16]) -> (r: String)
    ensures
        r@ == name_list(NameTable::Groups, groups@),
{
    openssl_list(NameTable::Groups, groups)
}

/// The signature algorithms as the TLS library takes them.
pub fn openssl_sigalg_list(algs: &[u16]) -> (r: String)
    ensures
        r@ == name_list(NameTable::Sigalgs, algs@),
{
    openssl_list(NameTable::Sigalgs, algs)
}

// ---------------------------------------------------------------------------
// What a profile asks for.
// ---------------------------------------------------------------------------

#[derive(Debug, Clone, Copy, PartialEq, Eq, Structural)]
pub enum TlsVersion {
    Tls12,
    Tls13,
}

/// What a connector is built with to offer what a ClientHello offers.
#[derive(Debug)]
pub struct ProfilePlan {
    /// The lowest and the highest version, unless the default range stays.
    pub versions: Option<(TlsVersion, TlsVersion)>,
    pub grease: bool,
    pub permute_extensions: bool,
    /// Lists of names. One that is empty is not set.
    pub ciphers: String,
    pub groups: String,
    pub sigalgs: String,
    pub ocsp_stapling: bool,
    pub signed_cert_timestamps: bool,
    pub brotli_certificates: bool,
    pub alpn: Option<Vec<u8>>,
}

/// The range of the versions that are offered, where TLS 1.2 or 1.3 is.
pub open spec fn version_range(versions: Seq<u16>) -> Option<(TlsVersion, TlsVersion)> {
    let tls12 = versions.contains(0x0303);
    let tls13 = versions.contains(0x0304);
    if tls12 && tls13 {
        Some((TlsVersion::Tls12, TlsVersion::Tls13))
    } else if tls12 {
        Some((TlsVersion::Tls12, TlsVersion::Tls12))
    } else if tls13 {
        Some((TlsVersion::Tls13, TlsVersion::Tls13))
    } else {
        None
    }
}

/// The range of the versions that are offered.
pub fn offered_versions(hello: &ClientHelloInfo) -> (r: Option<(TlsVersion, TlsVersion)>)
    ensures
        r == version_range(hello@.supported_versions),
{
    let tls12 = contains_id(hello.supported_versions.as_slice(), 0x0303);
    let tls13 = contains_id(hello.supported_versions.as_slice(), 0x0304);
    if !tls12 && !tls13 {
        return None;
    }
    let min = if tls12 {
        TlsVersion::Tls12
    } else {
        TlsVersion::Tls13
    };
    let max = if tls13 {
        TlsVersion::Tls13
    } else {
        TlsVersion::Tls12
    };
    Some((min, max))
}

/// What a connector is built with.
pub fn profile_plan(hello: &ClientHelloInfo) -> (r: ProfilePlan)
    ensures
        r.versions == version_range(hello@.supported_versions),
        r.grease == hello@.grease(),
        r.permute_extensions == hello@.grease(),
        r.ciphers@ == name_list(NameTable::Ciphers, hello@.cipher_suites),
        r.groups@ == name_list(NameTable::Groups, hello@.groups),
        r.sigalgs@ == name_list(NameTable::Sigalgs, hello@.signature_algorithms),
        r.ocsp_stapling == hello@.extensions.contains(EXT_STATUS_REQUEST),
        r.signed_cert_timestamps == hello@.extensions.contains(EXT_SCT),
        r.brotli_certificates == hello@.cert_compression.contains(CERT_COMPRESSION_BROTLI),
        opt_bytes(r.alpn) == if hello@.extensions.contains(EXT_ALPN) && hello@.alpn.len() > 0 {
            Some(wire_names(hello@.alpn))
        } else {
            None
        },
{
    let alpn = if contains_id(hello.extensions.as_slice(), EXT_ALPN) && hello.alpn.len() > 0 {
        Some(alpn_wire(hello.alpn.as_slice()))
    } else {
        None
    };
    ProfilePlan {
        versions: offered_versions(hello),
        grease: hello.grease(),
        permute_extensions: hello.grease(),
        ciphers: openssl_cipher_list(hello.cipher_suites.as_slice()),
        groups: openssl_group_list(hello.groups.as_slice()),
        sigalgs: openssl_sigalg_list(hello.signature_algorithms.as_slice()),
        ocsp_stapling: hello.has_ocsp(),
        signed_cert_timestamps: hello.has_sct(),
        brotli_certificates: hello.has_brotli_cert(),
        alpn,
    }
}

/// The protocol HTTP/2.
pub open spec fn h2() -> Seq<u8> {
    seq![104u8, 50]
}

/// Which codepoint the settings for HTTP/2 are offered under: none where the client offers none,
/// or no HTTP/2.
pub open spec fn alps_for(hello: HelloView) -> Option<bool> {
    if hello.alpn.contains(h2()) {
        hello.alps_new_codepoint()
    } else {
        None
    }
}

/// What a connection is set up with.
#[derive(Debug)]
pub struct ConnectPlan {
    pub permute_extensions: bool,
    pub ech_grease: bool,
    /// The protocols to offer, unless those of the connector stay.
    pub alpn: Option<Vec<u8>>,
    /// Which codepoint the settings for HTTP/2 are offered under.
    pub alps: Option<bool>,
    /// Lists of ids. One that is empty is not set.
    pub groups: Vec<i32>,
    pub sigalgs: Vec<i32>,
    pub key_shares: Vec<u16>,
}

/// The ids as wider numbers.
pub open spec fn wide(ids: Seq<u16>) -> Seq<i32> {
    Seq::new(ids.len(), |i: int| ids[i] as i32)
}

fn widened(ids: Vec<u16>) -> (r: Vec<i32>)
    ensures
        r@ == wide(ids@),
{
    let mut out: Vec<i32> = Vec::new();
    let mut i: usize = 0;
    while i < ids.len()
        invariant
            i <= ids@.len(),
            out@ == wide(ids@).take(i as int),
        decreases ids@.len() - i,
    {
        out.push(ids[i] as i32);
        i = i + 1;
        assert(out@ =~= wide(ids@).take(i as int));
    }
    assert(out@ =~= wide(ids@));
    out
}

fn is_h2(name: &[u8]) -> (r: bool)
    ensures
        r == (name@ == h2()),
{
    if name.len() == 2 && name[0] == 104 && name[1] == 50 {
        assert(name@ =~= h2());
        true
    } else {
        false
    }
}

/// Whether the client offers HTTP/2.
pub fn offers_h2(hello: &ClientHelloInfo) -> (r: bool)
    ensures
        r == hello@.alpn.contains(h2()),
{
    let mut i: usize = 0;
    while i < hello.alpn.len()
        invariant
            i <= hello.alpn@.len(),
            forall|j: int| 0 <= j < i ==> hello@.alpn[j] != h2(),
        decreases hello.alpn@.len() - i,
    {
        if is_h2(hello.alpn[i].as_slice()) {
            assert(hello@.alpn[i as int] == h2());
            return true;
        }
        i = i + 1;
    }
    false
}

fn alps_of(hello: &ClientHelloInfo) -> (r: Option<bool>)
    ensures
        r == alps_for(hello@),
{
    if offers_h2(hello) {
        hello.alps_new_codepoint()
    } else {
        None
    }
}

/// What a connection for HTTP is set up with: as the client offers it where there is a profile,
/// else as current browsers do, with the settings for HTTP/2 under the new codepoint.
pub fn connect_plan(profile: Option<&ClientHelloInfo>) -> (r: ConnectPlan)
    ensures
        match profile {
            Some(hello) => {
                &&& r.permute_extensions == hello@.grease()
                &&& r.ech_grease == hello@.extensions.contains(EXT_ECH)
                &&& opt_bytes(r.alpn) == if hello@.alpn.len() > 0 {
                    Some(wire_names(hello@.alpn))
                } else {
                    None
                }
                &&& r.alps == alps_for(hello@)
                &&& r.groups@ == wide(plain_ids(hello@.groups))
                &&& r.sigalgs@ == wide(plain_ids(hello@.signature_algorithms))
                &&& r.key_shares@ == plain_ids(hello@.key_share_groups)
            },
            None => {
                &&& r.permute_extensions
                &&& r.ech_grease
                &&& r.alpn is None
                &&& r.alps == Some(true)
                &&& r.groups@.len() == 0
                &&& r.sigalgs@.len() == 0
                &&& r.key_shares@.len() == 0
            },
        },
{
    match profile {
        Some(hello) => {
            let alpn = if hello.alpn.len() > 0 {
                Some(alpn_wire(hello.alpn.as_slice()))
            } else {
                None
            };
            ConnectPlan {
                permute_extensions: hello.grease(),
                ech_grease: hello.has_ech(),
                alpn,
                alps: alps_of(hello),
                groups: widened(without_grease(hello.groups.as_slice())),
                sigalgs: widened(without_grease(hello.signature_algorithms.as_slice())),
                key_shares: without_grease(hello.key_share_groups.as_slice()),
            }
        },
        None => ConnectPlan {
            permute_extensions: true,
            ech_grease: true,
            alpn: None,
            alps: Some(true),
            groups: Vec::new(),
            sigalgs: Vec::new(),
            key_shares: Vec::new(),
        },
    }
}

/// The protocol HTTP/1.1.
pub open spec fn http11() -> Seq<u8> {
    seq![104u8, 116, 116, 112, 47, 49, 46, 49]
}

fn http11_wire() -> (r: Vec<u8>)
    ensures
        r@ == wire_names(seq![http11()]),
{
    let name: Vec<u8> = vec![104, 116, 116, 112, 47, 49, 46, 49];
    assert(name@ =~= http11());
    let mut names: Vec<Vec<u8>> = Vec::new();
    names.push(name);
    assert(byte_lists(names@) =~= seq![http11()]);
    alpn_wire(names.as_slice())
}

/// What a connection for a WebSocket is set up with: as one for HTTP, but it offers HTTP/1.1
/// alone and no settings for HTTP/2.
pub fn websocket_plan(profile: Option<&ClientHelloInfo>) -> (r: ConnectPlan)
    ensures
        opt_bytes(r.alpn) == Some(wire_names(seq![http11()])),
        r.alps is None,
        match profile {
            Some(hello) => {
                &&& r.permute_extensions == hello@.grease()
                &&& r.ech_grease == hello@.extensions.contains(EXT_ECH)
                &&& r.groups@ == wide(plain_ids(hello@.groups))
                &&& r.sigalgs@ == wide(plain_ids(hello@.signature_algorithms))
                &&& r.key_shares@ == plain_ids(hello@.key_share_groups)
            },
            None => {
                &&& r.permute_extensions
                &&& r.ech_grease
                &&& r.groups@.len() == 0
                &&& r.sigalgs@.len() == 0
                &&& r.key_shares@.len() == 0
            },
        },
{
    let plan = connect_plan(profile);
    ConnectPlan { alpn: Some(http11_wire()), alps: None, ..plan }
}

pub const FALLBACK_CIPHERS: &'static str =
    "ECDHE-ECDSA-AES128-GCM-SHA256:ECDHE-RSA-AES128-GCM-SHA256:ECDHE-ECDSA-AES256-GCM-SHA384:ECDHE-RSA-AES256-GCM-SHA384:ECDHE-ECDSA-CHACHA20-POLY1305:ECDHE-RSA-CHACHA20-POLY1305:ECDHE-RSA-AES128-SHA:ECDHE-RSA-AES256-SHA:AES128-GCM-SHA256:AES256-GCM-SHA384:AES128-SHA:AES256-SHA";

pub const FALLBACK_GROUPS: &'static str = "X25519MLKEM768:X25519:P-256:P-384";

pub const FALLBACK_SIGALGS: &'static str =
    "mldsa44:mldsa65:mldsa87:ecdsa_secp256r1_sha256:rsa_pss_rsae_sha256:rsa_pkcs1_sha256:ecdsa_secp384r1_sha384:rsa_pss_rsae_sha384:rsa_pkcs1_sha384:rsa_pss_rsae_sha512:rsa_pkcs1_sha512";

/// What a connector is built with where there is no profile: HTTP/2 and HTTP/1.1 are offered, and
/// what current browsers offer.
pub fn fallback_plan() -> (r: ProfilePlan)
    ensures
        r.versions is None,
        r.grease,
        r.permute_extensions,
        r.ciphers@ == FALLBACK_CIPHERS@,
        r.groups@ == FALLBACK_GROUPS@,
        r.sigalgs@ == FALLBACK_SIGALGS@,
        r.ocsp_stapling,
        r.signed_cert_timestamps,
        r.brotli_certificates,
        opt_bytes(r.alpn) == Some(wire_names(seq![h2(), http11()])),
{
    let first: Vec<u8> = vec![104, 50];
    let second: Vec<u8> = vec![104, 116, 116, 112, 47, 49, 46, 49];
    assert(first@ =~= h2());
    assert(second@ =~= http11());
    let mut names: Vec<Vec<u8>> = Vec::new();
    names.push(first);
    names.push(second);
    assert(byte_lists(names@) =~= seq![h2(), http11()]);
    ProfilePlan {
        versions: None,
        grease: true,
        permute_extensions: true,
        ciphers: FALLBACK_CIPHERS.to_owned(),
        groups: FALLBACK_GROUPS.to_owned(),
        sigalgs: FALLBACK_SIGALGS.to_owned(),
        ocsp_stapling: true,
        signed_cert_timestamps: true,
        brotli_certificates: true,
        alpn: Some(alpn_wire(names.as_slice())),
    }
}

// ---------------------------------------------------------------------------
// Certificates in brotli form.
// ---------------------------------------------------------------------------

/// `brotli::CompressorWriter`, with a buffer of 4096 bytes, quality 5 and a window of 22 bits: all
/// that it has written once it is dropped. It reports no error where it writes to memory, and
/// `brotli::Decompressor` gives back what was written. Which of the brotli forms of the bytes it
/// writes is not stated: it may differ from one machine to another.
#[verifier::external_body]
fn brotli_encode(bytes: &[u8]) -> (r: Option<Vec<u8>>)
    ensures
        r is Some,
        brotli_decoded((r->0)@) == Some(bytes@),
{
    let mut out = Vec::new();
    let mut writer = brotli::CompressorWriter::new(&mut out, 4096, 5, 22);
    std::io::Write::write_all(&mut writer, bytes).ok()?;
    drop(writer);
    Some(out)
}

/// A certificate in brotli form, from which `decompress_certificate` gives it back.
pub fn compress_certificate(input: &[u8]) -> (r: Option<Vec<u8>>)
    ensures
        r is Some,
        brotli_decoded((r->0)@) == Some(input@),
{
    brotli_encode(input)
}

/// The certificate that a brotli form stands for.
pub fn decompress_certificate(input: &[u8]) -> (r: Option<Vec<u8>>)
    ensures
        opt_bytes(r) == brotli_decoded(input@),
{
    unbrotli(input)
}

// ---------------------------------------------------------------------------
// Where to connect.
// ---------------------------------------------------------------------------

/// An authority whose last colon has a port behind it.
pub open spec fn has_port(authority: Seq<char>) -> bool {
    let colon = last_of(authority, ':');
    colon >= 0 && parsed_u16(authority.skip(colon + 1)) is Some
}

/// The authority in lowercase, with the port of HTTPS where it names none.
pub open spec fn authority_word(authority: Seq<char>) -> Seq<char> {
    let low = ascii_lowercase(authority);
    if has_port(low) {
        low
    } else {
        low + ":443"@
    }
}

/// The key of an authority.
pub fn authority_key(authority: &str) -> (r: String)
    ensures
        r@ == authority_word(authority@),
{
    let mut low = to_ascii_lower(authority);
    let c = chars_of(low.as_str());
    if let Some(colon) = last_place(c.as_slice(), ':') {
        assert(colon < c.len());
        let port = text_of(c.as_slice(), colon + 1, c.len());
        assert(port@ =~= low@.skip(colon + 1));
        if parse_u16(port.as_str()).is_some() {
            return low;
        }
    }
    low.append(":443");
    low
}

/// Why there is nowhere to connect to.
#[derive(Debug, Clone, Copy, PartialEq, Eq, Structural)]
pub enum WsUrlError {
    NoHostName,
}

/// The host without the brackets of an IPv6 address.
pub open spec fn unbracketed(host: Seq<char>) -> Seq<char> {
    if host.len() >= 2 && host[0] == '[' && host.last() == ']' {
        host.subrange(1, host.len() - 1)
    } else {
        host
    }
}

/// A scheme of an encrypted WebSocket.
pub open spec fn encrypted_scheme(scheme: Option<Seq<char>>) -> bool {
    scheme == Some("wss"@) || scheme == Some("https"@)
}

/// Whether a WebSocket with this scheme is encrypted.
pub fn is_encrypted(scheme: Option<&str>) -> (r: bool)
    ensures
        r == encrypted_scheme(opt_str(scheme)),
{
    match scheme {
        Some(s) => same(s, "wss") || same(s, "https"),
        None => false,
    }
}

/// The host and the port to connect to for a WebSocket.
pub fn ws_host_port(host: Option<&str>, port: Option<u16>, scheme: Option<&str>) -> (r: Result<
    (String, u16),
    WsUrlError,
>)
    ensures
        match r {
            Ok((h, p)) => {
                &&& host is Some
                &&& h@ == unbracketed(host->0@)
                &&& p == match port {
                    Some(port) => port,
                    None => if encrypted_scheme(opt_str(scheme)) {
                        443u16
                    } else {
                        80u16
                    },
                }
            },
            Err(e) => e == WsUrlError::NoHostName && host is None,
        },
{
    match host {
        Some(host) => {
            let c = chars_of(host);
            let name = if c.len() >= 2 && c[0] == '[' && c[c.len() - 1] == ']' {
                text_of(c.as_slice(), 1, c.len() - 1)
            } else {
                host.to_owned()
            };
            let port: u16 = match port {
                Some(port) => port,
                None => if is_encrypted(scheme) {
                    443
                } else {
                    80
                },
            };
            Ok((name, port))
        },
        None => Err(WsUrlError::NoHostName),
    }
}

proof fn lemma_last_of_end(s: Seq<char>, tail: Seq<char>, c: char)
    requires
        !tail.contains(c),
    ensures
        last_of(s + seq![c] + tail, c) == s.len(),
    decreases tail.len(),
{
    let all = s + seq![c] + tail;
    if tail.len() > 0 {
        assert(tail.contains(tail[tail.len() - 1]));
        let head = tail.drop_last();
        assert(!head.contains(c)) by {
            if head.contains(c) {
                let i = choose|i: int| 0 <= i < head.len() && head[i] == c;
                assert(tail[i] == c);
            }
        }
        assert(all.drop_last() =~= s + seq![c] + head);
        lemma_last_of_end(s, head, c);
    }
}

/// The key of an authority is the same as that of its key, and as that of the authority in other
/// letter case.
pub proof fn law_authority_key_is_stable(a: Seq<char>, b: Seq<char>)
    requires
        ascii_lowercase(a) == ascii_lowercase(b),
    ensures
        authority_word(a) == authority_word(b),
        authority_word(authority_word(a)) == authority_word(a),
{
    reveal_strlit(":443");
    let low = ascii_lowercase(a);
    assert(ascii_lowercase(low) =~= low);
    if !has_port(low) {
        let key = low + ":443"@;
        assert(ascii_lowercase(key) =~= key) by {
            assert forall|i: int| 0 <= i < key.len() implies ascii_lowercase(key)[i] == key[i] by {
                if i < low.len() {
                    assert(ascii_lowercase(low)[i] == low[i]);
                    assert(key[i] == low[i]);
                }
            }
        }
        let port = seq!['4', '4', '3'];
        assert(!port.contains(':'));
        assert(key =~= low + seq![':'] + port);
        lemma_last_of_end(low, port, ':');
        assert(key.skip(low.len() as int + 1) =~= port);
        lemma_443();
    }
}

proof fn lemma_443()
    ensures
        parsed_u16(seq!['4', '4', '3']) == Some(443u16),
{
    let s = seq!['4', '4', '3'];
    reveal_with_fuel(decimal_value, 4);
    assert(without_plus(s) == s);
    assert(s.drop_last() =~= seq!['4', '4']);
    assert(s.drop_last().drop_last() =~= seq!['4']);
    assert(s.drop_last().drop_last().drop_last() =~= Seq::<char>::empty());
    assert(decimal_value(s) == 443);
}

// ---------------------------------------------------------------------------
// The profiles.
// ---------------------------------------------------------------------------

/// An authority by which a profile is found.
struct AuthorityKey {
    text: String,
}

impl View for AuthorityKey {
    type V = Seq<char>;

    closed spec fn view(&self) -> Seq<char> {
        self.text@
    }
}

impl TableKey for AuthorityKey {
    fn same_key(&self, other: &Self) -> (r: bool) {
        same(self.text.as_str(), other.text.as_str())
    }
}

/// A connector that offers what a ClientHello offers.
pub struct CompiledProfile<C> {
    pub identity: String,
    pub hello: ClientHelloInfo,
    pub connector: C,
}

/// The model of a profile.
#[verifier::reject_recursive_types(C)]
#[verifier::ext_equal]
pub struct ProfileView<C> {
    pub identity: Seq<char>,
    pub hello: HelloView,
    pub connector: C,
}

impl<C> View for CompiledProfile<C> {
    type V = ProfileView<C>;

    open spec fn view(&self) -> ProfileView<C> {
        ProfileView {
            identity: self.identity@,
            hello: self.hello@,
            connector: self.connector,
        }
    }
}

/// What is known of one authority: its profile, and how many compilations were begun for it.
#[verifier::reject_recursive_types(C)]
#[verifier::ext_equal]
pub struct AuthorityState<C> {
    pub profile: Option<ProfileView<C>>,
    pub revision: Option<u64>,
}

/// Whether a hello changes nothing: it is the one of the profile, but for what does not count, or
/// it offers no HTTP/2 where the profile does.
pub open spec fn already_covered<C>(profile: Option<ProfileView<C>>, hello: HelloView) -> bool {
    &&& profile is Some
    &&& {
        ||| profile->0.identity == hello.identity_key()
        ||| profile->0.hello.alpn.contains(h2()) && !hello.alpn.contains(h2())
    }
}

/// The number after `revision`, with 0 after the highest, and 1 after none.
pub open spec fn next_revision(revision: Option<u64>) -> u64 {
    match revision {
        Some(n) => if n == u64::MAX {
            0
        } else {
            (n + 1) as u64
        },
        None => 1,
    }
}

/// What is known once a hello was seen, and the number of the compilation that it asks for.
pub open spec fn observed<C>(state: AuthorityState<C>, hello: HelloView) -> (
    AuthorityState<C>,
    Option<u64>,
) {
    if already_covered(state.profile, hello) {
        (state, None)
    } else {
        let n = next_revision(state.revision);
        (AuthorityState { revision: Some(n), ..state }, Some(n))
    }
}

/// What is known once a compilation ended, with a profile or without: one that another was begun
/// after counts for nothing.
pub open spec fn compiled<C>(
    state: AuthorityState<C>,
    revision: u64,
    profile: Option<ProfileView<C>>,
) -> AuthorityState<C> {
    if state.revision == Some(revision) {
        AuthorityState { profile, ..state }
    } else {
        state
    }
}

/// The profiles of the authorities that clients connect to.
pub struct FingerprintStore<C> {
    hello: Option<ClientHelloInfo>,
    profiles: KeyTable<AuthorityKey, CompiledProfile<C>>,
    revisions: KeyTable<AuthorityKey, u64>,
}

impl<C> FingerprintStore<C> {
    pub closed spec fn valid(&self) -> bool {
        self.profiles.valid() && self.revisions.valid()
    }

    /// The last hello that was seen.
    pub closed spec fn latest(&self) -> Option<HelloView> {
        match self.hello {
            Some(hello) => Some(hello@),
            None => None,
        }
    }

    /// What is known of an authority, by its key.
    pub closed spec fn state(&self, key: Seq<char>) -> AuthorityState<C> {
        AuthorityState {
            profile: match self.profiles.at(key) {
                Some(profile) => Some(profile@),
                None => None,
            },
            revision: self.revisions.at(key),
        }
    }

    /// A store that knows nothing.
    pub fn new() -> (r: Self)
        ensures
            r.valid(),
            r.latest() is None,
            forall|key: Seq<char>|
                #[trigger] r.state(key) == (AuthorityState::<C> { profile: None, revision: None }),
    {
        FingerprintStore { hello: None, profiles: KeyTable::new(), revisions: KeyTable::new() }
    }

    /// Takes note of a hello to an authority. Gives the number of the compilation that it asks
    /// for; none where the profile stays.
    pub fn observe(&mut self, authority: &str, hello: &ClientHelloInfo) -> (r: Option<u64>)
        requires
            old(self).valid(),
        ensures
            final(self).valid(),
            final(self).latest() == Some(hello@),
            (final(self).state(authority_word(authority@)), r) == observed(
                old(self).state(authority_word(authority@)),
                hello@,
            ),
            forall|other: Seq<char>|
                other != authority_word(authority@) ==> #[trigger] final(self).state(other) == old(
                    self,
                ).state(other),
    {
        let key = AuthorityKey { text: authority_key(authority) };
        let identity = hello.identity_key();
        self.hello = Some(hello.copied());
        if let Some(profile) = self.profiles.get(&key) {
            if same(profile.identity.as_str(), identity.as_str()) {
                return None;
            }
            if offers_h2(&profile.hello) && !offers_h2(hello) {
                return None;
            }
        }
        let revision: u64 = match self.revisions.get(&key) {
            Some(n) => if *n == u64::MAX {
                0
            } else {
                *n + 1
            },
            None => 1,
        };
        self.revisions.insert(key, revision);
        Some(revision)
    }

    /// Takes the profile that a compilation gave. Gives whether it counts.
    pub fn compiled(
        &mut self,
        authority: &str,
        revision: u64,
        hello: ClientHelloInfo,
        connector: C,
    ) -> (r: bool)
        requires
            old(self).valid(),
        ensures
            final(self).valid(),
            final(self).latest() == old(self).latest(),
            r == (old(self).state(authority_word(authority@)).revision == Some(revision)),
            final(self).state(authority_word(authority@)) == compiled(
                old(self).state(authority_word(authority@)),
                revision,
                Some(
                    ProfileView { identity: hello@.identity_key(), hello: hello@, connector },
                ),
            ),
            forall|other: Seq<char>|
                other != authority_word(authority@) ==> #[trigger] final(self).state(other) == old(
                    self,
                ).state(other),
    {
        let key = AuthorityKey { text: authority_key(authority) };
        let current = match self.revisions.get(&key) {
            Some(n) => *n == revision,
            None => false,
        };
        if current {
            let identity = hello.identity_key();
            self.profiles.insert(key, CompiledProfile { identity, hello, connector });
        }
        current
    }

    /// Takes note that a compilation failed: the authority has no profile, unless another was
    /// begun.
    pub fn compilation_failed(&mut self, authority: &str, revision: u64)
        requires
            old(self).valid(),
        ensures
            final(self).valid(),
            final(self).latest() == old(self).latest(),
            final(self).state(authority_word(authority@)) == compiled(
                old(self).state(authority_word(authority@)),
                revision,
                None,
            ),
            forall|other: Seq<char>|
                other != authority_word(authority@) ==> #[trigger] final(self).state(other) == old(
                    self,
                ).state(other),
    {
        let key = AuthorityKey { text: authority_key(authority) };
        let current = match self.revisions.get(&key) {
            Some(n) => *n == revision,
            None => false,
        };
        if current {
            self.profiles.remove(&key);
        }
    }

    /// The last hello that was seen.
    pub fn latest_hello(&self) -> (r: Option<&ClientHelloInfo>)
        ensures
            match r {
                Some(hello) => self.latest() == Some(hello@),
                None => self.latest() is None,
            },
    {
        match &self.hello {
            Some(hello) => Some(hello),
            None => None,
        }
    }

    /// Whether an authority has a profile.
    pub fn has_profile(&self) -> (r: bool)
        requires
            self.valid(),
        ensures
            r == exists|key: Seq<char>| #[trigger] self.state(key).profile is Some,
    {
        let none = self.profiles.is_empty();
        proof {
            if none {
                assert forall|key: Seq<char>| !(#[trigger] self.state(key).profile is Some) by {
                    assert(self.profiles.at(key) is None);
                }
            } else {
                let key = choose|key: Seq<char>| !(#[trigger] self.profiles.at(key) is None);
                assert(self.state(key).profile is Some);
            }
        }
        !none
    }

    /// The profile of the authority that a connection goes to.
    pub fn current(&self, authority: Option<&str>) -> (r: Option<&CompiledProfile<C>>)
        requires
            self.valid(),
        ensures
            match r {
                Some(profile) => authority is Some && self.state(
                    authority_word(authority->0@),
                ).profile == Some(profile@),
                None => authority is None || self.state(
                    authority_word(authority->0@),
                ).profile is None,
            },
    {
        match authority {
            Some(authority) => {
                let key = AuthorityKey { text: authority_key(authority) };
                self.profiles.get(&key)
            },
            None => None,
        }
    }
}

/// A profile with HTTP/2 is not given up for a hello without it.
pub proof fn law_h2_profile_is_kept<C>(state: AuthorityState<C>, hello: HelloView)
    requires
        state.profile is Some,
        state.profile->0.hello.alpn.contains(h2()),
        !hello.alpn.contains(h2()),
    ensures
        observed(state, hello) == (state, None::<u64>),
{
}

/// The profile that was compiled from a hello covers that hello from then on.
pub proof fn law_hello_is_compiled_once<C>(
    state: AuthorityState<C>,
    hello: HelloView,
    connector: C,
)
    requires
        observed(state, hello).1 is Some,
    ensures
        ({
            let (after, n) = observed(state, hello);
            let profile = ProfileView { identity: hello.identity_key(), hello, connector };
            let done = compiled(after, n->0, Some(profile));
            observed(done, hello) == (done, None::<u64>)
        }),
{
}

/// Where a second compilation was begun, the end of the first changes nothing, however it ends.
pub proof fn law_late_compilation_counts_for_nothing<C>(
    state: AuthorityState<C>,
    first: HelloView,
    second: HelloView,
    profile: Option<ProfileView<C>>,
)
    requires
        observed(state, first).1 is Some,
        observed(observed(state, first).0, second).1 is Some,
    ensures
        ({
            let (begun, n) = observed(state, first);
            let (again, m) = observed(begun, second);
            compiled(again, n->0, profile) == again
        }),
{
}

} // verus!
