//! The TLS ClientHello: what it offers, read from the records that carry it.
use vstd::prelude::*;
use vstd::relations::{sorted_by, total_ordering};
use vstd::seq_lib::lemma_sorted_unique;
use vstd::slice::slice_to_vec;
use vstd::string::StringExecFns;
use crate::number::{decimal, decimal_text, hex4, hex4_text, hex_digit};
use crate::text::{
    debug_format, debug_text, join, joined, lemma_split_of_join, lossy_text, split_on, texts,
    utf8_lossy,
};

verus! {

pub const EXT_STATUS_REQUEST: u16 = 0x0005;

pub const EXT_SUPPORTED_GROUPS: u16 = 0x000a;

pub const EXT_SIGNATURE_ALGORITHMS: u16 = 0x000d;

pub const EXT_ALPN: u16 = 0x0010;

pub const EXT_SCT: u16 = 0x0012;

pub const EXT_COMPRESS_CERTIFICATE: u16 = 0x001b;

pub const EXT_SUPPORTED_VERSIONS: u16 = 0x002b;

pub const EXT_KEY_SHARE: u16 = 0x0033;

pub const EXT_ALPS_OLD: u16 = 0x4469;

pub const EXT_ALPS_NEW: u16 = 0x44cd;

pub const EXT_ECH: u16 = 0xfe0d;

pub const CERT_COMPRESSION_BROTLI: u16 = 2;

/// What a ClientHello offers, each list in the order of the wire.
#[derive(Debug, Clone, PartialEq, Eq)]
pub struct ClientHelloInfo {
    pub cipher_suites: Vec<u16>,
    pub extensions: Vec<u16>,
    pub groups: Vec<u16>,
    pub signature_algorithms: Vec<u16>,
    pub alpn: Vec<Vec<u8>>,
    pub key_share_groups: Vec<u16>,
    pub supported_versions: Vec<u16>,
    pub cert_compression: Vec<u16>,
}

/// The model of a ClientHello.
#[verifier::ext_equal]
pub struct HelloView {
    pub cipher_suites: Seq<u16>,
    pub extensions: Seq<u16>,
    pub groups: Seq<u16>,
    pub signature_algorithms: Seq<u16>,
    pub alpn: Seq<Seq<u8>>,
    pub key_share_groups: Seq<u16>,
    pub supported_versions: Seq<u16>,
    pub cert_compression: Seq<u16>,
}

impl View for ClientHelloInfo {
    type V = HelloView;

    open spec fn view(&self) -> HelloView {
        HelloView {
            cipher_suites: self.cipher_suites@,
            extensions: self.extensions@,
            groups: self.groups@,
            signature_algorithms: self.signature_algorithms@,
            alpn: byte_lists(self.alpn@),
            key_share_groups: self.key_share_groups@,
            supported_versions: self.supported_versions@,
            cert_compression: self.cert_compression@,
        }
    }
}

/// The views of a list of byte strings.
pub open spec fn byte_lists(v: Seq<Vec<u8>>) -> Seq<Seq<u8>> {
    Seq::new(v.len(), |i: int| v[i]@)
}

// ---------------------------------------------------------------------------
// The wire format.
// ---------------------------------------------------------------------------

/// The big-endian number in the two bytes at `i`.
pub open spec fn be16(s: Seq<u8>, i: int) -> u16 {
    (s[i] as int * 256 + s[i + 1] as int) as u16
}

/// The big-endian number in the three bytes at `i`.
pub open spec fn be24(s: Seq<u8>, i: int) -> int {
    s[i] as int * 65536 + s[i + 1] as int * 256 + s[i + 2] as int
}

/// A byte string after its length in one byte, and what follows it.
pub open spec fn vec8(s: Seq<u8>) -> Option<(Seq<u8>, Seq<u8>)> {
    if s.len() < 1 || 1 + s[0] > s.len() {
        None
    } else {
        Some((s.subrange(1, 1 + s[0]), s.skip(1 + s[0])))
    }
}

/// A byte string after its length in two bytes, and what follows it.
pub open spec fn vec16(s: Seq<u8>) -> Option<(Seq<u8>, Seq<u8>)> {
    if s.len() < 2 || 2 + be16(s, 0) > s.len() {
        None
    } else {
        Some((s.subrange(2, 2 + be16(s, 0)), s.skip(2 + be16(s, 0))))
    }
}

/// A run of two-byte numbers, which fills the bytes exactly.
pub open spec fn u16_list(data: Seq<u8>) -> Option<Seq<u16>> {
    if data.len() % 2 != 0 {
        None
    } else {
        Some(Seq::new(data.len() / 2, |i: int| be16(data, 2 * i)))
    }
}

/// Two-byte numbers after their length in two bytes.
pub open spec fn u16_vector(data: Seq<u8>) -> Option<Seq<u16>> {
    match vec16(data) {
        Some((list, _)) => u16_list(list),
        None => None,
    }
}

/// Two-byte numbers after their length in one byte.
pub open spec fn u16_vector8(data: Seq<u8>) -> Option<Seq<u16>> {
    match vec8(data) {
        Some((list, _)) => u16_list(list),
        None => None,
    }
}

/// Byte strings one after another, each after its length in one byte.
pub open spec fn protocol_names(rest: Seq<u8>) -> Option<Seq<Seq<u8>>>
    decreases rest.len(),
{
    if rest.len() == 0 {
        Some(seq![])
    } else {
        match vec8(rest) {
            Some((name, tail)) => match protocol_names(rest.skip(1 + rest[0])) {
                Some(names) => Some(seq![name] + names),
                None => None,
            },
            None => None,
        }
    }
}

/// The protocol names of an ALPN extension.
pub open spec fn alpn_names(data: Seq<u8>) -> Option<Seq<Seq<u8>>> {
    match vec16(data) {
        Some((list, _)) => protocol_names(list),
        None => None,
    }
}

/// The groups of key shares one after another; up to three odd bytes may follow them.
pub open spec fn share_groups(rest: Seq<u8>) -> Option<Seq<u16>>
    decreases rest.len(),
{
    if rest.len() < 4 {
        Some(seq![])
    } else if 4 + be16(rest, 2) > rest.len() {
        None
    } else {
        match share_groups(rest.skip(4 + be16(rest, 2))) {
            Some(groups) => Some(seq![be16(rest, 0)] + groups),
            None => None,
        }
    }
}

/// The groups of a key share extension.
pub open spec fn key_share_list(data: Seq<u8>) -> Option<Seq<u16>> {
    match vec16(data) {
        Some((list, _)) => share_groups(list),
        None => None,
    }
}

/// The extensions one after another, each a type and its data; up to three odd bytes may
/// follow them.
pub open spec fn extension_list(rest: Seq<u8>) -> Option<Seq<(u16, Seq<u8>)>>
    decreases rest.len(),
{
    if rest.len() < 4 {
        Some(seq![])
    } else if 4 + be16(rest, 2) > rest.len() {
        None
    } else {
        match extension_list(rest.skip(4 + be16(rest, 2))) {
            Some(exts) => Some(
                seq![(be16(rest, 0), rest.subrange(4, 4 + be16(rest, 2)))] + exts,
            ),
            None => None,
        }
    }
}

/// The data of the last extension of a type.
pub open spec fn last_of_type(exts: Seq<(u16, Seq<u8>)>, kind: u16) -> Option<Seq<u8>>
    decreases exts.len(),
{
    if exts.len() == 0 {
        None
    } else if exts.last().0 == kind {
        Some(exts.last().1)
    } else {
        last_of_type(exts.drop_last(), kind)
    }
}

/// The list that was read, or none where it could not be.
pub open spec fn or_empty<T>(list: Option<Seq<T>>) -> Seq<T> {
    match list {
        Some(l) => l,
        None => seq![],
    }
}

/// What the last extension of a type holds: an empty list where there is none or where it
/// does not have the form that `read` asks for.
pub open spec fn field_of<T>(
    exts: Seq<(u16, Seq<u8>)>,
    kind: u16,
    read: spec_fn(Seq<u8>) -> Option<Seq<T>>,
) -> Seq<T> {
    match last_of_type(exts, kind) {
        Some(data) => or_empty(read(data)),
        None => seq![],
    }
}

/// The types of the extensions.
pub open spec fn types_of(exts: Seq<(u16, Seq<u8>)>) -> Seq<u16> {
    Seq::new(exts.len(), |i: int| exts[i].0)
}

/// The hello with these cipher suites and extensions.
pub open spec fn hello_of(cipher_suites: Seq<u16>, exts: Seq<(u16, Seq<u8>)>) -> HelloView {
    HelloView {
        cipher_suites,
        extensions: types_of(exts),
        groups: field_of(exts, EXT_SUPPORTED_GROUPS, |d: Seq<u8>| u16_vector(d)),
        signature_algorithms: field_of(
            exts,
            EXT_SIGNATURE_ALGORITHMS,
            |d: Seq<u8>| u16_vector(d),
        ),
        alpn: field_of(exts, EXT_ALPN, |d: Seq<u8>| alpn_names(d)),
        key_share_groups: field_of(exts, EXT_KEY_SHARE, |d: Seq<u8>| key_share_list(d)),
        supported_versions: field_of(exts, EXT_SUPPORTED_VERSIONS, |d: Seq<u8>| u16_vector8(d)),
        cert_compression: field_of(exts, EXT_COMPRESS_CERTIFICATE, |d: Seq<u8>| u16_vector8(d)),
    }
}

/// The body of a ClientHello: version and random (34 bytes), session id, cipher suites,
/// compression methods, extensions; further bytes may follow.
pub open spec fn hello_body(body: Seq<u8>) -> Option<HelloView> {
    if body.len() < 34 {
        None
    } else {
        match vec8(body.skip(34)) {
            None => None,
            Some((_, after_session)) => match vec16(after_session) {
                None => None,
                Some((ciphers, after_ciphers)) => match (
                    u16_list(ciphers),
                    vec8(after_ciphers),
                ) {
                    (Some(cipher_suites), Some((_, after_compression))) => match vec16(
                        after_compression,
                    ) {
                        None => None,
                        Some((ext_bytes, _)) => match extension_list(ext_bytes) {
                            None => None,
                            Some(exts) => Some(hello_of(cipher_suites, exts)),
                        },
                    },
                    _ => None,
                },
            },
        }
    }
}

/// A handshake message that is a whole ClientHello: its type, its length in three bytes and
/// its body; further bytes may follow.
pub open spec fn handshake_hello(handshake: Seq<u8>) -> Option<HelloView> {
    if handshake.len() < 4 || handshake[0] != 0x01 || 4 + be24(handshake, 1) > handshake.len() {
        None
    } else {
        hello_body(handshake.subrange(4, 4 + be24(handshake, 1)))
    }
}

/// The ClientHello in the handshake records from `offset` on, where `handshake` came in the
/// records before; and where the record that completes it ends.
pub open spec fn hello_in_records(buf: Seq<u8>, offset: int, handshake: Seq<u8>) -> Option<
    (HelloView, int),
>
    decreases buf.len() - offset,
{
    if offset < 0 || offset + 5 > buf.len() || buf[offset] != 0x16 {
        None
    } else {
        let end = offset + 5 + be16(buf, offset + 3);
        if end > buf.len() {
            None
        } else {
            let so_far = handshake + buf.subrange(offset + 5, end);
            match handshake_hello(so_far) {
                Some(hello) => Some((hello, end)),
                None => hello_in_records(buf, end, so_far),
            }
        }
    }
}

// ---------------------------------------------------------------------------
// Reading.
// ---------------------------------------------------------------------------

fn read_be16(s: &[u8], i: usize) -> (r: u16)
    requires
        i + 2 <= s@.len(),
    ensures
        r == be16(s@, i as int),
{
    s[i] as u16 * 256 + s[i + 1] as u16
}

/// The three-byte number at the beginning of the bytes.
pub fn u24(bytes: &[u8]) -> (r: Option<usize>)
    ensures
        match r {
            Some(n) => bytes@.len() >= 3 && n == be24(bytes@, 0),
            None => bytes@.len() < 3,
        },
{
    if bytes.len() < 3 {
        return None;
    }
    Some(bytes[0] as usize * 65536 + bytes[1] as usize * 256 + bytes[2] as usize)
}

pub open spec fn opt_list(v: Option<Vec<u16>>) -> Option<Seq<u16>> {
    match v {
        Some(l) => Some(l@),
        None => None,
    }
}

pub open spec fn opt_byte_lists(v: Option<Vec<Vec<u8>>>) -> Option<Seq<Seq<u8>>> {
    match v {
        Some(l) => Some(byte_lists(l@)),
        None => None,
    }
}

pub fn read_u16_list(data: &[u8]) -> (r: Option<Vec<u16>>)
    ensures
        opt_list(r) == u16_list(data@),
{
    if data.len() % 2 != 0 {
        return None;
    }
    let mut out: Vec<u16> = Vec::new();
    let mut i: usize = 0;
    while i < data.len()
        invariant
            i <= data@.len(),
            i % 2 == 0,
            data@.len() % 2 == 0,
            out@.len() == i / 2,
            forall|k: int| 0 <= k < out@.len() ==> out@[k] == be16(data@, 2 * k),
        decreases data@.len() - i,
    {
        out.push(read_be16(data, i));
        i = i + 2;
    }
    assert(out@ =~= u16_list(data@)->0);
    Some(out)
}

pub fn parse_u16_vector(data: &[u8]) -> (r: Option<Vec<u16>>)
    ensures
        opt_list(r) == u16_vector(data@),
{
    if data.len() < 2 {
        return None;
    }
    let len: usize = read_be16(data, 0) as usize;
    if len > data.len() - 2 {
        return None;
    }
    read_u16_list(&data[2..2 + len])
}

/// Reads two-byte numbers after their length in one byte.
fn parse_u16_vector8(data: &[u8]) -> (r: Option<Vec<u16>>)
    ensures
        opt_list(r) == u16_vector8(data@),
{
    if data.len() == 0 {
        return None;
    }
    let len: usize = data[0] as usize;
    if len > data.len() - 1 {
        return None;
    }
    read_u16_list(&data[1..1 + len])
}

pub fn parse_supported_versions(data: &[u8]) -> (r: Option<Vec<u16>>)
    ensures
        opt_list(r) == u16_vector8(data@),
{
    parse_u16_vector8(data)
}

pub fn parse_cert_compression(data: &[u8]) -> (r: Option<Vec<u16>>)
    ensures
        opt_list(r) == u16_vector8(data@),
{
    parse_u16_vector8(data)
}

pub fn parse_alpn(data: &[u8]) -> (r: Option<Vec<Vec<u8>>>)
    ensures
        opt_byte_lists(r) == alpn_names(data@),
{
    if data.len() < 2 {
        return None;
    }
    let len: usize = read_be16(data, 0) as usize;
    if len > data.len() - 2 {
        return None;
    }
    let list = &data[2..2 + len];
    let mut out: Vec<Vec<u8>> = Vec::new();
    let mut pos: usize = 0;
    proof {
        assert(list@.skip(0) =~= list@);
        if let Some(names) = protocol_names(list@) {
            assert(byte_lists(out@) + names =~= names);
        }
    }
    while pos < list.len()
        invariant
            pos <= list@.len(),
            alpn_names(data@) == protocol_names(list@),
            match protocol_names(list@.skip(pos as int)) {
                Some(names) => protocol_names(list@) == Some(byte_lists(out@) + names),
                None => protocol_names(list@) is None,
            },
        decreases list@.len() - pos,
    {
        let n: usize = list[pos] as usize;
        let ghost rest = list@.skip(pos as int);
        assert(rest[0] == list@[pos as int]);
        if n > list.len() - pos - 1 {
            return None;
        }
        let name = vstd::slice::slice_to_vec(&list[pos + 1..pos + 1 + n]);
        proof {
            assert(rest.subrange(1, 1 + n) =~= name@);
            assert(rest.skip(1 + n) =~= list@.skip(pos + 1 + n));
            if let Some(names) = protocol_names(list@.skip(pos + 1 + n)) {
                assert(byte_lists(out@) + (seq![name@] + names) =~= byte_lists(out@.push(name))
                    + names);
            }
        }
        out.push(name);
        pos = pos + 1 + n;
    }
    proof {
        assert(byte_lists(out@) + Seq::<Seq<u8>>::empty() =~= byte_lists(out@));
    }
    Some(out)
}

pub fn parse_key_share_groups(data: &[u8]) -> (r: Option<Vec<u16>>)
    ensures
        opt_list(r) == key_share_list(data@),
{
    if data.len() < 2 {
        return None;
    }
    let len: usize = read_be16(data, 0) as usize;
    if len > data.len() - 2 {
        return None;
    }
    let list = &data[2..2 + len];
    let mut out: Vec<u16> = Vec::new();
    let mut pos: usize = 0;
    proof {
        assert(list@.skip(0) =~= list@);
        if let Some(groups) = share_groups(list@) {
            assert(out@ + groups =~= groups);
        }
    }
    while list.len() - pos >= 4
        invariant
            pos <= list@.len(),
            key_share_list(data@) == share_groups(list@),
            match share_groups(list@.skip(pos as int)) {
                Some(groups) => share_groups(list@) == Some(out@ + groups),
                None => share_groups(list@) is None,
            },
        decreases list@.len() - pos,
    {
        let group: u16 = read_be16(list, pos);
        let key_len: usize = read_be16(list, pos + 2) as usize;
        let ghost rest = list@.skip(pos as int);
        assert(be16(rest, 0) == group);
        assert(be16(rest, 2) == key_len);
        if key_len > list.len() - pos - 4 {
            return None;
        }
        proof {
            assert(rest.skip(4 + key_len) =~= list@.skip(pos + 4 + key_len));
            if let Some(groups) = share_groups(list@.skip(pos + 4 + key_len)) {
                assert(out@ + (seq![group] + groups) =~= out@.push(group) + groups);
            }
        }
        out.push(group);
        pos = pos + 4 + key_len;
    }
    proof {
        assert(out@ + Seq::<u16>::empty() =~= out@);
    }
    Some(out)
}

fn list_or_empty(v: Option<Vec<u16>>) -> (r: Vec<u16>)
    ensures
        r@ == or_empty(opt_list(v)),
{
    match v {
        Some(l) => l,
        None => Vec::new(),
    }
}

fn names_or_empty(v: Option<Vec<Vec<u8>>>) -> (r: Vec<Vec<u8>>)
    ensures
        byte_lists(r@) == or_empty(opt_byte_lists(v)),
{
    match v {
        Some(l) => l,
        None => {
            let r: Vec<Vec<u8>> = Vec::new();
            assert(byte_lists(r@) =~= Seq::<Seq<u8>>::empty());
            r
        },
    }
}

proof fn lemma_last_of_type_push(exts: Seq<(u16, Seq<u8>)>, ext: (u16, Seq<u8>), kind: u16)
    ensures
        last_of_type(exts.push(ext), kind) == (if ext.0 == kind {
            Some(ext.1)
        } else {
            last_of_type(exts, kind)
        }),
{
    assert(exts.push(ext).drop_last() =~= exts);
}

/// Reads the extensions into a hello with these cipher suites.
fn parse_extensions(ext_bytes: &[u8], cipher_suites: Vec<u16>) -> (r: Option<ClientHelloInfo>)
    ensures
        match r {
            Some(hello) => extension_list(ext_bytes@) is Some && hello@ == hello_of(
                cipher_suites@,
                extension_list(ext_bytes@)->0,
            ),
            None => extension_list(ext_bytes@) is None,
        },
{
    let mut extensions: Vec<u16> = Vec::new();
    let mut groups: Vec<u16> = Vec::new();
    let mut signature_algorithms: Vec<u16> = Vec::new();
    let mut alpn: Vec<Vec<u8>> = Vec::new();
    let mut key_share_groups: Vec<u16> = Vec::new();
    let mut supported_versions: Vec<u16> = Vec::new();
    let mut cert_compression: Vec<u16> = Vec::new();
    let mut pos: usize = 0;
    let ghost mut seen: Seq<(u16, Seq<u8>)> = Seq::empty();
    proof {
        assert(ext_bytes@.skip(0) =~= ext_bytes@);
        if let Some(exts) = extension_list(ext_bytes@) {
            assert(seen + exts =~= exts);
        }
        assert(extensions@ =~= types_of(seen));
        assert(byte_lists(alpn@) =~= Seq::<Seq<u8>>::empty());
    }
    while ext_bytes.len() - pos >= 4
        invariant
            pos <= ext_bytes@.len(),
            match extension_list(ext_bytes@.skip(pos as int)) {
                Some(exts) => extension_list(ext_bytes@) == Some(seen + exts),
                None => extension_list(ext_bytes@) is None,
            },
            extensions@ == types_of(seen),
            groups@ == field_of(seen, EXT_SUPPORTED_GROUPS, |d: Seq<u8>| u16_vector(d)),
            signature_algorithms@ == field_of(
                seen,
                EXT_SIGNATURE_ALGORITHMS,
                |d: Seq<u8>| u16_vector(d),
            ),
            byte_lists(alpn@) == field_of(seen, EXT_ALPN, |d: Seq<u8>| alpn_names(d)),
            key_share_groups@ == field_of(seen, EXT_KEY_SHARE, |d: Seq<u8>| key_share_list(d)),
            supported_versions@ == field_of(
                seen,
                EXT_SUPPORTED_VERSIONS,
                |d: Seq<u8>| u16_vector8(d),
            ),
            cert_compression@ == field_of(
                seen,
                EXT_COMPRESS_CERTIFICATE,
                |d: Seq<u8>| u16_vector8(d),
            ),
        decreases ext_bytes@.len() - pos,
    {
        let ext_type: u16 = read_be16(ext_bytes, pos);
        let len: usize = read_be16(ext_bytes, pos + 2) as usize;
        let ghost rest = ext_bytes@.skip(pos as int);
        assert(be16(rest, 0) == ext_type);
        assert(be16(rest, 2) == len);
        if len > ext_bytes.len() - pos - 4 {
            return None;
        }
        let data = &ext_bytes[pos + 4..pos + 4 + len];
        let ghost before = seen;
        proof {
            assert(rest.subrange(4, 4 + len) =~= data@);
            assert(rest.skip(4 + len) =~= ext_bytes@.skip(pos + 4 + len));
            seen = seen.push((ext_type, data@));
            if let Some(exts) = extension_list(ext_bytes@.skip(pos + 4 + len)) {
                assert(before + (seq![(ext_type, data@)] + exts) =~= seen + exts);
            }
            lemma_last_of_type_push(before, (ext_type, data@), EXT_SUPPORTED_GROUPS);
            lemma_last_of_type_push(before, (ext_type, data@), EXT_SIGNATURE_ALGORITHMS);
            lemma_last_of_type_push(before, (ext_type, data@), EXT_ALPN);
            lemma_last_of_type_push(before, (ext_type, data@), EXT_KEY_SHARE);
            lemma_last_of_type_push(before, (ext_type, data@), EXT_SUPPORTED_VERSIONS);
            lemma_last_of_type_push(before, (ext_type, data@), EXT_COMPRESS_CERTIFICATE);
            assert(types_of(seen) =~= types_of(before).push(ext_type));
        }
        extensions.push(ext_type);
        if ext_type == EXT_SUPPORTED_GROUPS {
            groups = list_or_empty(parse_u16_vector(data));
        } else if ext_type == EXT_SIGNATURE_ALGORITHMS {
            signature_algorithms = list_or_empty(parse_u16_vector(data));
        } else if ext_type == EXT_ALPN {
            alpn = names_or_empty(parse_alpn(data));
        } else if ext_type == EXT_KEY_SHARE {
            key_share_groups = list_or_empty(parse_key_share_groups(data));
        } else if ext_type == EXT_SUPPORTED_VERSIONS {
            supported_versions = list_or_empty(parse_supported_versions(data));
        } else if ext_type == EXT_COMPRESS_CERTIFICATE {
            cert_compression = list_or_empty(parse_cert_compression(data));
        }
        pos = pos + 4 + len;
    }
    proof {
        assert(seen + Seq::<(u16, Seq<u8>)>::empty() =~= seen);
    }
    Some(
        ClientHelloInfo {
            cipher_suites,
            extensions,
            groups,
            signature_algorithms,
            alpn,
            key_share_groups,
            supported_versions,
            cert_compression,
        },
    )
}

/// The view of an optional hello.
pub open spec fn opt_hello(v: Option<ClientHelloInfo>) -> Option<HelloView> {
    match v {
        Some(h) => Some(h@),
        None => None,
    }
}

/// Reads the body of a ClientHello.
pub fn parse_client_hello_body(body: &[u8]) -> (r: Option<ClientHelloInfo>)
    ensures
        opt_hello(r) == hello_body(body@),
{
    if body.len() < 35 {
        return None;
    }
    let ghost from_session = body@.skip(34);
    let session_id_len: usize = body[34] as usize;
    assert(from_session[0] == session_id_len);
    if session_id_len > body.len() - 35 {
        return None;
    }
    let mut pos: usize = 35 + session_id_len;
    let ghost after_session = body@.skip(pos as int);
    assert(from_session.skip(1 + session_id_len) =~= after_session);

    if body.len() - pos < 2 {
        return None;
    }
    let cipher_len: usize = read_be16(body, pos) as usize;
    assert(be16(after_session, 0) == cipher_len);
    if cipher_len > body.len() - pos - 2 {
        return None;
    }
    pos = pos + 2;
    let cipher_bytes = &body[pos..pos + cipher_len];
    assert(after_session.subrange(2, 2 + cipher_len) =~= cipher_bytes@);
    assert(after_session.skip(2 + cipher_len) =~= body@.skip(pos + cipher_len));
    let cipher_suites = match read_u16_list(cipher_bytes) {
        Some(list) => list,
        None => {
            return None;
        },
    };
    pos = pos + cipher_len;
    let ghost after_ciphers = body@.skip(pos as int);

    if body.len() - pos < 1 {
        return None;
    }
    let compression_len: usize = body[pos] as usize;
    assert(after_ciphers[0] == compression_len);
    if compression_len > body.len() - pos - 1 {
        return None;
    }
    assert(after_ciphers.skip(1 + compression_len) =~= body@.skip(pos + 1 + compression_len));
    pos = pos + 1 + compression_len;
    let ghost after_compression = body@.skip(pos as int);

    if body.len() - pos < 2 {
        return None;
    }
    let ext_len: usize = read_be16(body, pos) as usize;
    assert(be16(after_compression, 0) == ext_len);
    if ext_len > body.len() - pos - 2 {
        return None;
    }
    pos = pos + 2;
    let ext_bytes = &body[pos..pos + ext_len];
    assert(after_compression.subrange(2, 2 + ext_len) =~= ext_bytes@);
    parse_extensions(ext_bytes, cipher_suites)
}

/// Reads a handshake message that is a whole ClientHello.
pub fn parse_handshake_client_hello(handshake: &[u8]) -> (r: Option<ClientHelloInfo>)
    ensures
        opt_hello(r) == handshake_hello(handshake@),
{
    if handshake.len() < 4 {
        return None;
    }
    if handshake[0] != 0x01 {
        return None;
    }
    let head = &handshake[1..4];
    assert(be24(head@, 0) == be24(handshake@, 1));
    match u24(head) {
        Some(hello_len) => {
            if hello_len > handshake.len() - 4 {
                return None;
            }
            parse_client_hello_body(&handshake[4..4 + hello_len])
        },
        None => None,
    }
}

/// Reads TLS records from the beginning of `buf` until a complete ClientHello is there.
/// Gives the hello and how many leading bytes of `buf` it took.
pub fn extract_client_hello(buf: &[u8]) -> (r: Option<(ClientHelloInfo, usize)>)
    ensures
        match r {
            Some((hello, consumed)) => hello_in_records(buf@, 0, seq![]) == Some(
                (hello@, consumed as int),
            ),
            None => hello_in_records(buf@, 0, seq![]) is None,
        },
{
    let mut handshake: Vec<u8> = Vec::new();
    let mut offset: usize = 0;
    while buf.len() - offset >= 5
        invariant
            offset <= buf@.len(),
            hello_in_records(buf@, 0, seq![]) == hello_in_records(
                buf@,
                offset as int,
                handshake@,
            ),
        decreases buf@.len() - offset,
    {
        if buf[offset] != 0x16 {
            return None;
        }
        let record_len: usize = read_be16(buf, offset + 3) as usize;
        if record_len > buf.len() - offset - 5 {
            return None;
        }
        let record_end: usize = offset + 5 + record_len;
        let ghost before = handshake@;
        let record = &buf[offset + 5..record_end];
        handshake.extend_from_slice(record);
        assert(handshake@ =~= before + record@);
        offset = record_end;
        if let Some(hello) = parse_handshake_client_hello(handshake.as_slice()) {
            return Some((hello, offset));
        }
    }
    None
}

// ---------------------------------------------------------------------------
// Identity.
// ---------------------------------------------------------------------------

/// The reserved values that clients send to keep servers tolerant.
pub open spec fn grease(id: u16) -> bool {
    id & 0x0f0f == 0x0a0a
}

pub open spec fn some_grease(ids: Seq<u16>) -> bool {
    exists|i: int| 0 <= i < ids.len() && grease(ids[i])
}

pub open spec fn not_grease() -> spec_fn(u16) -> bool {
    |id: u16| !grease(id)
}

/// The ids that are not reserved values, in their order.
pub open spec fn plain_ids(ids: Seq<u16>) -> Seq<u16> {
    ids.filter(not_grease())
}

/// An ascending list with one more id in its place.
pub open spec fn insert_ordered(s: Seq<u16>, x: u16) -> Seq<u16>
    decreases s.len(),
{
    if s.len() == 0 || s.last() <= x {
        s.push(x)
    } else {
        insert_ordered(s.drop_last(), x).push(s.last())
    }
}

/// The ids in ascending order.
pub open spec fn ascending(ids: Seq<u16>) -> Seq<u16>
    decreases ids.len(),
{
    if ids.len() == 0 {
        seq![]
    } else {
        insert_ordered(ascending(ids.drop_last()), ids.last())
    }
}

pub open spec fn at_most() -> spec_fn(u16, u16) -> bool {
    |a: u16, b: u16| a <= b
}

/// The ids as hexadecimal numbers with hyphens between them.
pub open spec fn hex_list(ids: Seq<u16>) -> Seq<char> {
    join(Seq::new(ids.len(), |i: int| hex4(ids[i])), "-"@)
}

/// The protocol names as text.
pub open spec fn protocol_texts(alpn: Seq<Seq<u8>>) -> Seq<Seq<char>> {
    Seq::new(alpn.len(), |i: int| utf8_lossy(alpn[i]))
}

impl HelloView {
    /// Whether a reserved value stands among the cipher suites, extensions or groups.
    pub open spec fn grease(self) -> bool {
        some_grease(self.cipher_suites) || some_grease(self.extensions) || some_grease(self.groups)
    }

    /// Which codepoint the application settings extension has: the old one, the new one, or
    /// there is none. Where both are there the old one counts.
    pub open spec fn alps_new_codepoint(self) -> Option<bool> {
        if self.extensions.contains(EXT_ALPS_OLD) {
            Some(false)
        } else if self.extensions.contains(EXT_ALPS_NEW) {
            Some(true)
        } else {
            None
        }
    }

    /// The key under which hellos of one client are the same.
    pub open spec fn identity_key(self) -> Seq<char> {
        "c:"@ + hex_list(plain_ids(self.cipher_suites)) + "|e:"@ + hex_list(
            ascending(plain_ids(self.extensions)),
        ) + "|g:"@ + hex_list(plain_ids(self.groups)) + "|s:"@ + hex_list(
            plain_ids(self.signature_algorithms),
        ) + "|a:"@ + join(protocol_texts(self.alpn), ","@) + "|k:"@ + hex_list(
            plain_ids(self.key_share_groups),
        ) + "|v:"@ + hex_list(plain_ids(self.supported_versions)) + "|z:"@ + hex_list(
            self.cert_compression,
        )
    }

    pub open spec fn summary(self) -> Seq<char> {
        "ciphers="@ + decimal(plain_ids(self.cipher_suites).len()) + " ext="@ + decimal(
            plain_ids(self.extensions).len(),
        ) + " groups="@ + decimal(plain_ids(self.groups).len()) + " sigalgs="@ + decimal(
            plain_ids(self.signature_algorithms).len(),
        ) + " alpn=["@ + join(protocol_texts(self.alpn), ","@) + "] shares="@ + hex_list(
            plain_ids(self.key_share_groups),
        ) + " grease="@ + bool_word(self.grease()) + " ech="@ + bool_word(
            self.extensions.contains(EXT_ECH),
        ) + " alps="@ + opt_bool_word(self.alps_new_codepoint())
    }
}

pub open spec fn bool_word(b: bool) -> Seq<char> {
    if b {
        "true"@
    } else {
        "false"@
    }
}

pub open spec fn opt_bool_word(b: Option<bool>) -> Seq<char> {
    match b {
        Some(true) => "Some(true)"@,
        Some(false) => "Some(false)"@,
        None => "None"@,
    }
}

fn bool_text(b: bool) -> (r: &'static str)
    ensures
        r@ == bool_word(b),
{
    if b {
        "true"
    } else {
        "false"
    }
}

fn opt_bool_text(b: Option<bool>) -> (r: &'static str)
    ensures
        r@ == opt_bool_word(b),
{
    match b {
        Some(true) => "Some(true)",
        Some(false) => "Some(false)",
        None => "None",
    }
}

/// Whether the id is one of the reserved values.
pub fn is_grease(id: u16) -> (r: bool)
    ensures
        r == grease(id),
{
    id & 0x0f0f == 0x0a0a
}

/// The ids that are not reserved values.
pub fn without_grease(ids: &[u16]) -> (r: Vec<u16>)
    ensures
        r@ == plain_ids(ids@),
{
    let mut out: Vec<u16> = Vec::new();
    let mut i: usize = 0;
    assert(ids@.take(0) =~= Seq::<u16>::empty());
    while i < ids.len()
        invariant
            i <= ids@.len(),
            out@ == plain_ids(ids@.take(i as int)),
        decreases ids@.len() - i,
    {
        if !is_grease(ids[i]) {
            out.push(ids[i]);
        }
        i = i + 1;
        proof {
            reveal(Seq::filter);
            assert(ids@.take(i as int).drop_last() =~= ids@.take(i - 1));
        }
    }
    assert(ids@.take(i as int) =~= ids@);
    out
}

proof fn lemma_insert_ordered(s: Seq<u16>, x: u16, i: int)
    requires
        0 <= i <= s.len(),
        forall|j: int| i <= j < s.len() ==> s[j] > x,
        i > 0 ==> s[i - 1] <= x,
    ensures
        insert_ordered(s, x) == s.insert(i, x),
    decreases s.len(),
{
    if i == s.len() {
        assert(s.insert(i, x) =~= s.push(x));
    } else {
        lemma_insert_ordered(s.drop_last(), x, i);
        assert(s.drop_last().insert(i, x).push(s.last()) =~= s.insert(i, x));
    }
}

proof fn lemma_insert_ordered_keeps(s: Seq<u16>, x: u16)
    requires
        sorted_by(s, at_most()),
    ensures
        sorted_by(insert_ordered(s, x), at_most()),
        insert_ordered(s, x).to_multiset() == s.to_multiset().insert(x),
        insert_ordered(s, x).len() == s.len() + 1,
        forall|j: int|
            0 <= j < insert_ordered(s, x).len() ==> #[trigger] insert_ordered(s, x)[j] == x
                || s.contains(insert_ordered(s, x)[j]),
    decreases s.len(),
{
    broadcast use vstd::seq_lib::group_to_multiset_ensures;
    broadcast use vstd::multiset::group_multiset_axioms;

    if s.len() == 0 || s.last() <= x {
        assert forall|j: int| 0 <= j < s.push(x).len() implies #[trigger] s.push(x)[j] == x
            || s.contains(s.push(x)[j]) by {
            if j < s.len() {
                assert(s[j] == s.push(x)[j]);
            }
        }
        assert forall|a: int, b: int| 0 <= a < b < s.push(x).len() implies at_most()(
            s.push(x)[a],
            s.push(x)[b],
        ) by {
            if b == s.len() && a < s.len() - 1 {
                assert(at_most()(s[a], s[s.len() - 1]));
            }
        }
    } else {
        let t = s.drop_last();
        assert(sorted_by(t, at_most())) by {
            assert forall|a: int, b: int| 0 <= a < b < t.len() implies at_most()(t[a], t[b]) by {
                assert(at_most()(s[a], s[b]));
            }
        }
        lemma_insert_ordered_keeps(t, x);
        let u = insert_ordered(t, x);
        let r = u.push(s.last());
        assert(r == insert_ordered(s, x));
        assert forall|j: int| 0 <= j < u.len() implies u[j] <= s.last() by {
            if u[j] != x {
                assert(t.contains(u[j]));
                let k = choose|k: int| 0 <= k < t.len() && t[k] == u[j];
                assert(at_most()(s[k], s[s.len() - 1]));
            }
        }
        assert forall|a: int, b: int| 0 <= a < b < r.len() implies at_most()(r[a], r[b]) by {
            if b < u.len() {
                assert(at_most()(u[a], u[b]));
            }
        }
        assert forall|j: int| 0 <= j < r.len() implies #[trigger] r[j] == x || s.contains(
            r[j],
        ) by {
            if j < u.len() {
                assert(r[j] == u[j]);
                if u[j] != x {
                    assert(t.contains(u[j]));
                    let k = choose|k: int| 0 <= k < t.len() && t[k] == u[j];
                    assert(s[k] == r[j]);
                }
            } else {
                assert(s[s.len() - 1] == r[j]);
            }
        }
        assert(s =~= t.push(s.last()));
        assert(r.to_multiset() =~= s.to_multiset().insert(x));
    }
}

/// The ascending list is in order and holds each id as often as the list that it came from.
pub proof fn lemma_ascending(ids: Seq<u16>)
    ensures
        sorted_by(ascending(ids), at_most()),
        ascending(ids).to_multiset() == ids.to_multiset(),
        ascending(ids).len() == ids.len(),
    decreases ids.len(),
{
    broadcast use vstd::seq_lib::group_to_multiset_ensures;

    if ids.len() > 0 {
        lemma_ascending(ids.drop_last());
        lemma_insert_ordered_keeps(ascending(ids.drop_last()), ids.last());
        assert(ids =~= ids.drop_last().push(ids.last()));
    } else {
        assert(ids =~= Seq::<u16>::empty());
    }
}

/// The ids in ascending order.
fn sorted_ids(ids: &[u16]) -> (r: Vec<u16>)
    ensures
        r@ == ascending(ids@),
{
    let mut out: Vec<u16> = Vec::new();
    let mut i: usize = 0;
    assert(ids@.take(0) =~= Seq::<u16>::empty());
    while i < ids.len()
        invariant
            i <= ids@.len(),
            out@ == ascending(ids@.take(i as int)),
        decreases ids@.len() - i,
    {
        let x: u16 = ids[i];
        let mut k: usize = out.len();
        while k > 0 && out[k - 1] > x
            invariant
                k <= out@.len(),
                forall|j: int| k <= j < out@.len() ==> out@[j] > x,
            decreases k,
        {
            k = k - 1;
        }
        proof {
            lemma_insert_ordered(out@, x, k as int);
            assert(ids@.take(i + 1).drop_last() =~= ids@.take(i as int));
        }
        out.insert(k, x);
        i = i + 1;
    }
    assert(ids@.take(i as int) =~= ids@);
    out
}

/// The ids that are not reserved values, in ascending order.
pub fn sorted_without_grease(ids: &[u16]) -> (r: Vec<u16>)
    ensures
        r@ == ascending(plain_ids(ids@)),
{
    let plain = without_grease(ids);
    sorted_ids(plain.as_slice())
}

fn hex_texts(ids: &[u16]) -> (r: Vec<String>)
    ensures
        texts(r@) == Seq::new(ids@.len(), |i: int| hex4(ids@[i])),
{
    let mut out: Vec<String> = Vec::new();
    let mut i: usize = 0;
    while i < ids.len()
        invariant
            i <= ids@.len(),
            out@.len() == i,
            forall|j: int| 0 <= j < i ==> out@[j]@ == hex4(ids@[j]),
        decreases ids@.len() - i,
    {
        out.push(hex4_text(ids[i]));
        i = i + 1;
    }
    assert(texts(out@) =~= Seq::new(ids@.len(), |i: int| hex4(ids@[i])));
    out
}

/// The ids as hexadecimal numbers with hyphens between them.
pub fn join_hex(ids: Vec<u16>) -> (r: String)
    ensures
        r@ == hex_list(ids@),
{
    joined(hex_texts(ids.as_slice()).as_slice(), "-")
}

fn alpn_texts(alpn: &[Vec<u8>]) -> (r: Vec<String>)
    ensures
        texts(r@) == protocol_texts(byte_lists(alpn@)),
{
    let mut out: Vec<String> = Vec::new();
    let mut i: usize = 0;
    while i < alpn.len()
        invariant
            i <= alpn@.len(),
            out@.len() == i,
            forall|j: int| 0 <= j < i ==> out@[j]@ == utf8_lossy(alpn@[j]@),
        decreases alpn@.len() - i,
    {
        out.push(lossy_text(alpn[i].as_slice()));
        i = i + 1;
    }
    assert(texts(out@) =~= protocol_texts(byte_lists(alpn@)));
    out
}

pub fn contains_id(ids: &[u16], id: u16) -> (r: bool)
    ensures
        r == ids@.contains(id),
{
    let mut i: usize = 0;
    while i < ids.len()
        invariant
            i <= ids@.len(),
            forall|j: int| 0 <= j < i ==> ids@[j] != id,
        decreases ids@.len() - i,
    {
        if ids[i] == id {
            return true;
        }
        i = i + 1;
    }
    false
}

fn any_grease(ids: &[u16]) -> (r: bool)
    ensures
        r == some_grease(ids@),
{
    let mut i: usize = 0;
    while i < ids.len()
        invariant
            i <= ids@.len(),
            forall|j: int| 0 <= j < i ==> !grease(ids@[j]),
        decreases ids@.len() - i,
    {
        if is_grease(ids[i]) {
            return true;
        }
        i = i + 1;
    }
    false
}

fn copy_lists(lists: &[Vec<u8>]) -> (r: Vec<Vec<u8>>)
    ensures
        byte_lists(r@) == byte_lists(lists@),
{
    let mut out: Vec<Vec<u8>> = Vec::new();
    let mut i: usize = 0;
    while i < lists.len()
        invariant
            i <= lists@.len(),
            byte_lists(out@) == byte_lists(lists@).take(i as int),
        decreases lists@.len() - i,
    {
        let list = slice_to_vec(lists[i].as_slice());
        assert(byte_lists(out@.push(list)) =~= byte_lists(out@).push(list@));
        out.push(list);
        i = i + 1;
        assert(byte_lists(lists@).take(i as int) =~= byte_lists(lists@).take(i - 1).push(list@));
    }
    assert(byte_lists(lists@).take(i as int) =~= byte_lists(lists@));
    out
}

impl ClientHelloInfo {
    /// The same hello once more.
    pub fn copied(&self) -> (r: ClientHelloInfo)
        ensures
            r@ == self@,
    {
        ClientHelloInfo {
            cipher_suites: slice_to_vec(self.cipher_suites.as_slice()),
            extensions: slice_to_vec(self.extensions.as_slice()),
            groups: slice_to_vec(self.groups.as_slice()),
            signature_algorithms: slice_to_vec(self.signature_algorithms.as_slice()),
            alpn: copy_lists(self.alpn.as_slice()),
            key_share_groups: slice_to_vec(self.key_share_groups.as_slice()),
            supported_versions: slice_to_vec(self.supported_versions.as_slice()),
            cert_compression: slice_to_vec(self.cert_compression.as_slice()),
        }
    }

    /// Whether the client sent reserved values.
    pub fn grease(&self) -> (r: bool)
        ensures
            r == self@.grease(),
    {
        any_grease(self.cipher_suites.as_slice()) || any_grease(self.extensions.as_slice())
            || any_grease(self.groups.as_slice())
    }

    pub fn has_ocsp(&self) -> (r: bool)
        ensures
            r == self@.extensions.contains(EXT_STATUS_REQUEST),
    {
        contains_id(self.extensions.as_slice(), EXT_STATUS_REQUEST)
    }

    pub fn has_sct(&self) -> (r: bool)
        ensures
            r == self@.extensions.contains(EXT_SCT),
    {
        contains_id(self.extensions.as_slice(), EXT_SCT)
    }

    pub fn has_ech(&self) -> (r: bool)
        ensures
            r == self@.extensions.contains(EXT_ECH),
    {
        contains_id(self.extensions.as_slice(), EXT_ECH)
    }

    pub fn has_brotli_cert(&self) -> (r: bool)
        ensures
            r == self@.cert_compression.contains(CERT_COMPRESSION_BROTLI),
    {
        contains_id(self.cert_compression.as_slice(), CERT_COMPRESSION_BROTLI)
    }

    pub fn alps_new_codepoint(&self) -> (r: Option<bool>)
        ensures
            r == self@.alps_new_codepoint(),
    {
        if contains_id(self.extensions.as_slice(), EXT_ALPS_OLD) {
            Some(false)
        } else if contains_id(self.extensions.as_slice(), EXT_ALPS_NEW) {
            Some(true)
        } else {
            None
        }
    }

    /// The key under which hellos of one client are the same.
    pub fn identity_key(&self) -> (r: String)
        ensures
            r@ == self@.identity_key(),
    {
        let mut s = "c:".to_owned();
        s.append(join_hex(without_grease(self.cipher_suites.as_slice())).as_str());
        s.append("|e:");
        s.append(join_hex(sorted_without_grease(self.extensions.as_slice())).as_str());
        s.append("|g:");
        s.append(join_hex(without_grease(self.groups.as_slice())).as_str());
        s.append("|s:");
        s.append(join_hex(without_grease(self.signature_algorithms.as_slice())).as_str());
        s.append("|a:");
        s.append(joined(alpn_texts(self.alpn.as_slice()).as_slice(), ",").as_str());
        s.append("|k:");
        s.append(join_hex(without_grease(self.key_share_groups.as_slice())).as_str());
        s.append("|v:");
        s.append(join_hex(without_grease(self.supported_versions.as_slice())).as_str());
        s.append("|z:");
        s.append(joined(hex_texts(self.cert_compression.as_slice()).as_slice(), "-").as_str());
        s
    }

    /// One line that says what the hello offers.
    pub fn summary(&self) -> (r: String)
        ensures
            r@ == self@.summary(),
    {
        let mut s = "ciphers=".to_owned();
        s.append(decimal_text(without_grease(self.cipher_suites.as_slice()).len() as u64).as_str());
        s.append(" ext=");
        s.append(decimal_text(without_grease(self.extensions.as_slice()).len() as u64).as_str());
        s.append(" groups=");
        s.append(decimal_text(without_grease(self.groups.as_slice()).len() as u64).as_str());
        s.append(" sigalgs=");
        s.append(
            decimal_text(
                without_grease(self.signature_algorithms.as_slice()).len() as u64,
            ).as_str(),
        );
        s.append(" alpn=[");
        s.append(joined(alpn_texts(self.alpn.as_slice()).as_slice(), ",").as_str());
        s.append("] shares=");
        s.append(join_hex(without_grease(self.key_share_groups.as_slice())).as_str());
        s.append(" grease=");
        s.append(bool_text(self.grease()));
        s.append(" ech=");
        s.append(bool_text(self.has_ech()));
        s.append(" alps=");
        s.append(opt_bool_text(self.alps_new_codepoint()));
        s
    }
}

// ---------------------------------------------------------------------------
// Protocol names on the wire.
// ---------------------------------------------------------------------------

/// The protocol names one after another, each after the low byte of its length.
pub open spec fn wire_names(names: Seq<Seq<u8>>) -> Seq<u8>
    decreases names.len(),
{
    if names.len() == 0 {
        seq![]
    } else {
        wire_names(names.drop_last()) + seq![(names.last().len() % 256) as u8] + names.last()
    }
}

/// The protocol names in the form that an ALPN extension carries them.
pub fn alpn_wire(protocols: &[Vec<u8>]) -> (r: Vec<u8>)
    ensures
        r@ == wire_names(byte_lists(protocols@)),
{
    let mut out: Vec<u8> = Vec::new();
    let mut i: usize = 0;
    let ghost names = byte_lists(protocols@);
    assert(names.take(0) =~= Seq::<Seq<u8>>::empty());
    while i < protocols.len()
        invariant
            i <= protocols@.len(),
            names == byte_lists(protocols@),
            out@ == wire_names(names.take(i as int)),
        decreases protocols@.len() - i,
    {
        let ghost before = out@;
        out.push((protocols[i].len() % 256) as u8);
        out.extend_from_slice(protocols[i].as_slice());
        i = i + 1;
        proof {
            assert(names.take(i as int).drop_last() =~= names.take(i - 1));
            let name = protocols@[i - 1]@;
            assert(names.take(i as int).last() == name);
            assert(out@ =~= before + seq![(name.len() % 256) as u8] + name);
        }
    }
    assert(names.take(i as int) =~= names);
    out
}

// ---------------------------------------------------------------------------
// Comparing two hellos.
// ---------------------------------------------------------------------------

/// All ids in ascending order.
pub open spec fn all_ids() -> Seq<u16> {
    Seq::new(65536, |i: int| i as u16)
}

pub open spec fn only_in(a: Seq<u16>, b: Seq<u16>) -> spec_fn(u16) -> bool {
    |id: u16| a.contains(id) && !b.contains(id)
}

/// The ids of `a` that `b` does not have, each once, in ascending order.
pub open spec fn ids_only_in(a: Seq<u16>, b: Seq<u16>) -> Seq<u16> {
    all_ids().filter(only_in(a, b))
}

/// The ids as hexadecimal numbers with commas between them.
pub open spec fn hex_commas(ids: Seq<u16>) -> Seq<char> {
    join(Seq::new(ids.len(), |i: int| hex4(ids[i])), ","@)
}

/// What is said of two lists whose ids differ; nothing where they do not.
pub open spec fn set_diff(name: Seq<char>, inbound: Seq<u16>, outbound: Seq<u16>) -> Seq<
    Seq<char>,
> {
    let missing = ids_only_in(plain_ids(inbound), plain_ids(outbound));
    let extra = ids_only_in(plain_ids(outbound), plain_ids(inbound));
    if missing.len() > 0 || extra.len() > 0 {
        seq![
            name + ": missing_outbound="@ + hex_commas(missing) + " extra_outbound="@ + hex_commas(
                extra,
            ),
        ]
    } else {
        seq![]
    }
}

/// The `Debug` format of a list of texts.
pub open spec fn debug_list(list: Seq<Seq<char>>) -> Seq<char> {
    "["@ + join(Seq::new(list.len(), |i: int| debug_text(list[i])), ", "@) + "]"@
}

pub open spec fn alpn_diff(inbound: Seq<Seq<u8>>, outbound: Seq<Seq<u8>>) -> Seq<Seq<char>> {
    if inbound != outbound {
        seq![
            "alpn inbound="@ + debug_list(protocol_texts(inbound)) + " outbound="@ + debug_list(
                protocol_texts(outbound),
            ),
        ]
    } else {
        seq![]
    }
}

pub open spec fn flag_diff(name: Seq<char>, inbound: bool, outbound: bool) -> Seq<Seq<char>> {
    if inbound != outbound {
        seq![name + ": inbound="@ + bool_word(inbound) + " outbound="@ + bool_word(outbound)]
    } else {
        seq![]
    }
}

pub open spec fn alps_diff(inbound: Option<bool>, outbound: Option<bool>) -> Seq<Seq<char>> {
    if inbound != outbound {
        seq!["alps: inbound="@ + opt_bool_word(inbound) + " outbound="@ + opt_bool_word(outbound)]
    } else {
        seq![]
    }
}

/// Where two hellos differ, reserved values left out.
pub open spec fn hello_diffs(a: HelloView, b: HelloView) -> Seq<Seq<char>> {
    set_diff("ciphers"@, a.cipher_suites, b.cipher_suites) + set_diff(
        "extensions"@,
        a.extensions,
        b.extensions,
    ) + set_diff("groups"@, a.groups, b.groups) + set_diff(
        "sigalgs"@,
        a.signature_algorithms,
        b.signature_algorithms,
    ) + set_diff("key_share"@, a.key_share_groups, b.key_share_groups) + set_diff(
        "supported_versions"@,
        a.supported_versions,
        b.supported_versions,
    ) + set_diff("cert_compression"@, a.cert_compression, b.cert_compression) + alpn_diff(
        a.alpn,
        b.alpn,
    ) + flag_diff("grease"@, a.grease(), b.grease()) + flag_diff(
        "ech"@,
        a.extensions.contains(EXT_ECH),
        b.extensions.contains(EXT_ECH),
    ) + flag_diff(
        "ocsp"@,
        a.extensions.contains(EXT_STATUS_REQUEST),
        b.extensions.contains(EXT_STATUS_REQUEST),
    ) + flag_diff("sct"@, a.extensions.contains(EXT_SCT), b.extensions.contains(EXT_SCT))
        + flag_diff(
        "brotli_cert"@,
        a.cert_compression.contains(CERT_COMPRESSION_BROTLI),
        b.cert_compression.contains(CERT_COMPRESSION_BROTLI),
    ) + alps_diff(a.alps_new_codepoint(), b.alps_new_codepoint())
}

spec fn rising(s: Seq<u16>) -> bool {
    forall|i: int, j: int| 0 <= i < j < s.len() ==> s[i] < s[j]
}

proof fn lemma_filter_rising(s: Seq<u16>, pred: spec_fn(u16) -> bool)
    requires
        rising(s),
    ensures
        rising(s.filter(pred)),
        forall|j: int| 0 <= j < s.filter(pred).len() ==> s.contains(#[trigger] s.filter(pred)[j]),
    decreases s.len(),
{
    reveal(Seq::filter);
    if s.len() > 0 {
        let t = s.drop_last();
        lemma_filter_rising(t, pred);
        let f = t.filter(pred);
        assert forall|j: int| 0 <= j < f.len() implies f[j] < s.last() && s.contains(
            #[trigger] f[j],
        ) by {
            assert(t.contains(f[j]));
            let k = choose|k: int| 0 <= k < t.len() && t[k] == f[j];
            assert(s[k] == f[j]);
        }
        assert(s.contains(s.last()));
    }
}

proof fn lemma_rising_unique(x: Seq<u16>, y: Seq<u16>)
    requires
        rising(x),
        rising(y),
        forall|v: u16| x.contains(v) <==> y.contains(v),
    ensures
        x == y,
    decreases x.len(),
{
    if x.len() == 0 {
        if y.len() > 0 {
            assert(y.contains(y[0]));
        }
        assert(x =~= y);
    } else {
        assert(x.contains(x.last()));
        assert(y.contains(x.last()));
        let k = choose|k: int| 0 <= k < y.len() && y[k] == x.last();
        assert(y.contains(y.last()));
        assert(x.contains(y.last()));
        let m = choose|m: int| 0 <= m < x.len() && x[m] == y.last();
        assert(x.last() == y.last());
        let a = x.drop_last();
        let b = y.drop_last();
        assert forall|v: u16| a.contains(v) <==> b.contains(v) by {
            if a.contains(v) {
                let i = choose|i: int| 0 <= i < a.len() && a[i] == v;
                assert(x[i] == v);
                assert(y.contains(v));
                let j = choose|j: int| 0 <= j < y.len() && y[j] == v;
                assert(b[j] == v);
            }
            if b.contains(v) {
                let i = choose|i: int| 0 <= i < b.len() && b[i] == v;
                assert(y[i] == v);
                assert(x.contains(v));
                let j = choose|j: int| 0 <= j < x.len() && x[j] == v;
                assert(a[j] == v);
            }
        }
        lemma_rising_unique(a, b);
        assert(x =~= a.push(x.last()));
        assert(y =~= b.push(y.last()));
    }
}

/// A rising list with exactly the ids of `a` that `b` does not have is their list.
proof fn lemma_ids_only_in(a: Seq<u16>, b: Seq<u16>, r: Seq<u16>)
    requires
        rising(r),
        forall|v: u16| #[trigger] r.contains(v) <==> a.contains(v) && !b.contains(v),
    ensures
        r == ids_only_in(a, b),
{
    let f = ids_only_in(a, b);
    lemma_filter_rising(all_ids(), only_in(a, b));
    assert forall|v: u16| f.contains(v) <==> r.contains(v) by {
        if f.contains(v) {
            let i = choose|i: int| 0 <= i < f.len() && f[i] == v;
            all_ids().lemma_filter_pred(only_in(a, b), i);
        }
        if r.contains(v) {
            assert(all_ids()[v as int] == v);
            all_ids().lemma_filter_contains(only_in(a, b), v as int);
        }
    }
    lemma_rising_unique(f, r);
}

fn difference(a: &[u16], b: &[u16]) -> (r: Vec<u16>)
    ensures
        r@ == ids_only_in(a@, b@),
{
    let s = sorted_ids(a);
    proof {
        lemma_ascending(a@);
        broadcast use vstd::seq_lib::group_to_multiset_ensures;

        assert forall|v: u16| s@.contains(v) <==> a@.contains(v) by {
            assert(s@.to_multiset().count(v) == a@.to_multiset().count(v));
        }
    }
    let mut out: Vec<u16> = Vec::new();
    let mut i: usize = 0;
    while i < s.len()
        invariant
            i <= s@.len(),
            sorted_by(s@, at_most()),
            rising(out@),
            forall|v: u16| out@.contains(v) ==> s@.contains(v) && !b@.contains(v),
            forall|j: int| 0 <= j < i ==> b@.contains(s@[j]) || out@.contains(#[trigger] s@[j]),
            forall|j: int| 0 <= j < out@.len() ==> i > 0 && out@[j] <= s@[i - 1],
        decreases s@.len() - i,
    {
        let id: u16 = s[i];
        proof {
            if i > 0 {
                assert(at_most()(s@[i - 1], s@[i as int]));
            }
        }
        let ghost before = out@;
        if (i == 0 || s[i - 1] != id) && !contains_id(b, id) {
            out.push(id);
            proof {
                assert forall|v: u16| out@.contains(v) implies s@.contains(v) && !b@.contains(
                    v,
                ) by {
                    let k = choose|k: int| 0 <= k < out@.len() && out@[k] == v;
                    if k < before.len() {
                        assert(before[k] == v);
                        assert(before.contains(v));
                    }
                }
                assert forall|j: int| 0 <= j < i + 1 implies b@.contains(s@[j]) || out@.contains(
                    #[trigger] s@[j],
                ) by {
                    if j < i && !b@.contains(s@[j]) {
                        assert(before.contains(s@[j]));
                        let k = choose|k: int| 0 <= k < before.len() && before[k] == s@[j];
                        assert(out@[k] == s@[j]);
                    } else if j == i {
                        assert(out@[before.len() as int] == s@[j]);
                    }
                }
            }
        } else {
            proof {
                if i > 0 && s@[i - 1] == id {
                    assert(b@.contains(s@[i - 1]) || out@.contains(s@[i - 1]));
                }
            }
        }
        i = i + 1;
    }
    proof {
        assert forall|v: u16| #[trigger] out@.contains(v) <==> a@.contains(v) && !b@.contains(
            v,
        ) by {
            if a@.contains(v) && !b@.contains(v) {
                assert(s@.contains(v));
                let k = choose|k: int| 0 <= k < s@.len() && s@[k] == v;
                assert(b@.contains(s@[k]) || out@.contains(s@[k]));
            }
            if out@.contains(v) {
                assert(s@.contains(v));
            }
        }
        lemma_ids_only_in(a@, b@, out@);
    }
    out
}

proof fn lemma_texts_push(v: Seq<String>, s: String)
    ensures
        texts(v.push(s)) == texts(v) + seq![s@],
{
    assert(texts(v.push(s)) =~= texts(v) + seq![s@]);
}

/// Adds what is to be said of two lists of ids.
pub fn diff_set(name: &str, inbound: &[u16], outbound: &[u16], diffs: &mut Vec<String>)
    ensures
        texts(final(diffs)@) == texts(old(diffs)@) + set_diff(name@, inbound@, outbound@),
{
    let a = without_grease(inbound);
    let b = without_grease(outbound);
    let missing = difference(a.as_slice(), b.as_slice());
    let extra = difference(b.as_slice(), a.as_slice());
    if missing.len() > 0 || extra.len() > 0 {
        let mut s = name.to_owned();
        s.append(": missing_outbound=");
        s.append(joined(hex_texts(missing.as_slice()).as_slice(), ",").as_str());
        s.append(" extra_outbound=");
        s.append(joined(hex_texts(extra.as_slice()).as_slice(), ",").as_str());
        proof {
            lemma_texts_push(diffs@, s);
        }
        diffs.push(s);
    }
    assert(texts(diffs@) =~= texts(old(diffs)@) + set_diff(name@, inbound@, outbound@));
}

fn debug_list_text(list: &[String]) -> (r: String)
    ensures
        r@ == debug_list(texts(list@)),
{
    let mut parts: Vec<String> = Vec::new();
    let mut i: usize = 0;
    while i < list.len()
        invariant
            i <= list@.len(),
            parts@.len() == i,
            forall|j: int| 0 <= j < i ==> parts@[j]@ == debug_text(list@[j]@),
        decreases list@.len() - i,
    {
        parts.push(debug_format(list[i].as_str()));
        i = i + 1;
    }
    let ghost all = texts(list@);
    assert(texts(parts@) =~= Seq::new(all.len(), |i: int| debug_text(all[i])));
    let mut s = "[".to_owned();
    s.append(joined(parts.as_slice(), ", ").as_str());
    s.append("]");
    s
}

fn same_names(a: &[Vec<u8>], b: &[Vec<u8>]) -> (r: bool)
    ensures
        r == (byte_lists(a@) == byte_lists(b@)),
{
    if a.len() != b.len() {
        assert(byte_lists(a@).len() != byte_lists(b@).len());
        return false;
    }
    let mut i: usize = 0;
    while i < a.len()
        invariant
            a@.len() == b@.len(),
            i <= a@.len(),
            forall|j: int| 0 <= j < i ==> a@[j]@ == b@[j]@,
        decreases a@.len() - i,
    {
        if a[i].len() != b[i].len() {
            assert(byte_lists(a@)[i as int] != byte_lists(b@)[i as int]);
            return false;
        }
        let mut k: usize = 0;
        while k < a[i].len()
            invariant
                i < a@.len(),
                a@.len() == b@.len(),
                a@[i as int]@.len() == b@[i as int]@.len(),
                k <= a@[i as int]@.len(),
                forall|j: int| 0 <= j < k ==> a@[i as int]@[j] == b@[i as int]@[j],
            decreases a@[i as int]@.len() - k,
        {
            if a[i][k] != b[i][k] {
                assert(byte_lists(a@)[i as int][k as int] != byte_lists(b@)[i as int][k as int]);
                return false;
            }
            k = k + 1;
        }
        assert(a@[i as int]@ =~= b@[i as int]@);
        i = i + 1;
    }
    assert(byte_lists(a@) =~= byte_lists(b@));
    true
}

fn diff_flag(name: &str, inbound: bool, outbound: bool, diffs: &mut Vec<String>)
    ensures
        texts(final(diffs)@) == texts(old(diffs)@) + flag_diff(name@, inbound, outbound),
{
    if inbound != outbound {
        let mut s = name.to_owned();
        s.append(": inbound=");
        s.append(bool_text(inbound));
        s.append(" outbound=");
        s.append(bool_text(outbound));
        proof {
            lemma_texts_push(diffs@, s);
        }
        diffs.push(s);
    }
    assert(texts(diffs@) =~= texts(old(diffs)@) + flag_diff(name@, inbound, outbound));
}

fn diff_alpn(inbound: &ClientHelloInfo, outbound: &ClientHelloInfo, diffs: &mut Vec<String>)
    ensures
        texts(final(diffs)@) == texts(old(diffs)@) + alpn_diff(inbound@.alpn, outbound@.alpn),
{
    if !same_names(inbound.alpn.as_slice(), outbound.alpn.as_slice()) {
        let mut s = "alpn inbound=".to_owned();
        s.append(debug_list_text(alpn_texts(inbound.alpn.as_slice()).as_slice()).as_str());
        s.append(" outbound=");
        s.append(debug_list_text(alpn_texts(outbound.alpn.as_slice()).as_slice()).as_str());
        proof {
            lemma_texts_push(diffs@, s);
        }
        diffs.push(s);
    }
    assert(texts(diffs@) =~= texts(old(diffs)@) + alpn_diff(inbound@.alpn, outbound@.alpn));
}

fn diff_alps(inbound: Option<bool>, outbound: Option<bool>, diffs: &mut Vec<String>)
    ensures
        texts(final(diffs)@) == texts(old(diffs)@) + alps_diff(inbound, outbound),
{
    if inbound != outbound {
        let mut s = "alps: inbound=".to_owned();
        s.append(opt_bool_text(inbound));
        s.append(" outbound=");
        s.append(opt_bool_text(outbound));
        proof {
            lemma_texts_push(diffs@, s);
        }
        diffs.push(s);
    }
    assert(texts(diffs@) =~= texts(old(diffs)@) + alps_diff(inbound, outbound));
}

/// Where two hellos differ, one line for each field, reserved values left out.
pub fn compare_hellos(inbound: &ClientHelloInfo, outbound: &ClientHelloInfo) -> (r: Vec<String>)
    ensures
        texts(r@) == hello_diffs(inbound@, outbound@),
{
    let mut diffs: Vec<String> = Vec::new();
    assert(texts(diffs@) + set_diff("ciphers"@, inbound@.cipher_suites, outbound@.cipher_suites)
        =~= set_diff("ciphers"@, inbound@.cipher_suites, outbound@.cipher_suites));
    diff_set(
        "ciphers",
        inbound.cipher_suites.as_slice(),
        outbound.cipher_suites.as_slice(),
        &mut diffs,
    );
    diff_set(
        "extensions",
        inbound.extensions.as_slice(),
        outbound.extensions.as_slice(),
        &mut diffs,
    );
    diff_set("groups", inbound.groups.as_slice(), outbound.groups.as_slice(), &mut diffs);
    diff_set(
        "sigalgs",
        inbound.signature_algorithms.as_slice(),
        outbound.signature_algorithms.as_slice(),
        &mut diffs,
    );
    diff_set(
        "key_share",
        inbound.key_share_groups.as_slice(),
        outbound.key_share_groups.as_slice(),
        &mut diffs,
    );
    diff_set(
        "supported_versions",
        inbound.supported_versions.as_slice(),
        outbound.supported_versions.as_slice(),
        &mut diffs,
    );
    diff_set(
        "cert_compression",
        inbound.cert_compression.as_slice(),
        outbound.cert_compression.as_slice(),
        &mut diffs,
    );
    diff_alpn(inbound, outbound, &mut diffs);
    diff_flag("grease", inbound.grease(), outbound.grease(), &mut diffs);
    diff_flag("ech", inbound.has_ech(), outbound.has_ech(), &mut diffs);
    diff_flag("ocsp", inbound.has_ocsp(), outbound.has_ocsp(), &mut diffs);
    diff_flag("sct", inbound.has_sct(), outbound.has_sct(), &mut diffs);
    diff_flag("brotli_cert", inbound.has_brotli_cert(), outbound.has_brotli_cert(), &mut diffs);
    diff_alps(inbound.alps_new_codepoint(), outbound.alps_new_codepoint(), &mut diffs);
    diffs
}

// ---------------------------------------------------------------------------
// Laws.
// ---------------------------------------------------------------------------

proof fn lemma_more_bytes(buf: Seq<u8>, more: Seq<u8>, offset: int, handshake: Seq<u8>)
    requires
        0 <= offset,
        hello_in_records(buf, offset, handshake) is Some,
    ensures
        hello_in_records(buf + more, offset, handshake) == hello_in_records(
            buf,
            offset,
            handshake,
        ),
        offset + 5 <= (hello_in_records(buf, offset, handshake)->0).1 <= buf.len(),
    decreases buf.len() - offset,
{
    let all = buf + more;
    let end = offset + 5 + be16(buf, offset + 3);
    assert(be16(all, offset + 3) == be16(buf, offset + 3));
    assert(all.subrange(offset + 5, end) =~= buf.subrange(offset + 5, end));
    let so_far = handshake + buf.subrange(offset + 5, end);
    if handshake_hello(so_far) is None {
        lemma_more_bytes(buf, more, end, so_far);
    }
}

/// A ClientHello that has been read stays what it is however many bytes follow it, and it takes
/// no more bytes than there were.
pub proof fn law_hello_is_kept_as_bytes_arrive(buf: Seq<u8>, more: Seq<u8>)
    requires
        hello_in_records(buf, 0, seq![]) is Some,
    ensures
        hello_in_records(buf + more, 0, seq![]) == hello_in_records(buf, 0, seq![]),
        5 <= (hello_in_records(buf, 0, seq![])->0).1 <= buf.len(),
{
    lemma_more_bytes(buf, more, 0, seq![]);
}

proof fn lemma_protocol_names_concat(a: Seq<u8>, b: Seq<u8>)
    requires
        protocol_names(a) is Some,
        protocol_names(b) is Some,
    ensures
        protocol_names(a + b) == Some(protocol_names(a)->0 + protocol_names(b)->0),
    decreases a.len(),
{
    if a.len() == 0 {
        assert(a + b =~= b);
        assert(protocol_names(a)->0 + protocol_names(b)->0 =~= protocol_names(b)->0);
    } else {
        let n = 1 + a[0];
        lemma_protocol_names_concat(a.skip(n), b);
        assert((a + b).skip(n) =~= a.skip(n) + b);
        assert((a + b).subrange(1, n) =~= a.subrange(1, n));
        let head = seq![a.subrange(1, n)];
        let x = protocol_names(a.skip(n))->0;
        let y = protocol_names(b)->0;
        assert(head + (x + y) =~= (head + x) + y);
    }
}

proof fn lemma_wire_names(names: Seq<Seq<u8>>)
    requires
        forall|i: int| 0 <= i < names.len() ==> #[trigger] names[i].len() <= 255,
    ensures
        protocol_names(wire_names(names)) == Some(names),
    decreases names.len(),
{
    if names.len() == 0 {
        assert(names =~= Seq::<Seq<u8>>::empty());
    } else {
        let init = names.drop_last();
        let last = names.last();
        assert forall|i: int| 0 <= i < init.len() implies #[trigger] init[i].len() <= 255 by {
            assert(init[i] == names[i]);
        }
        assert(names[names.len() - 1].len() <= 255);
        lemma_wire_names(init);
        let tail = seq![(last.len() % 256) as u8] + last;
        assert(tail.subrange(1, 1 + last.len() as int) =~= last);
        assert(tail.skip(1 + last.len() as int) =~= Seq::<u8>::empty());
        assert(protocol_names(tail.skip(1 + tail[0])) == Some(Seq::<Seq<u8>>::empty()));
        assert(seq![last] + Seq::<Seq<u8>>::empty() =~= seq![last]);
        assert(protocol_names(tail) == Some(seq![last]));
        lemma_protocol_names_concat(wire_names(init), tail);
        assert(wire_names(names) =~= wire_names(init) + tail);
        assert(init + seq![last] =~= names);
    }
}

/// Protocol names of at most 255 bytes each, put on the wire behind their length in two bytes,
/// are read back as they were.
pub proof fn law_alpn_is_read_back(names: Seq<Seq<u8>>)
    requires
        forall|i: int| 0 <= i < names.len() ==> #[trigger] names[i].len() <= 255,
        wire_names(names).len() <= 0xffff,
    ensures
        alpn_names(
            seq![
                (wire_names(names).len() / 256) as u8,
                (wire_names(names).len() % 256) as u8,
            ] + wire_names(names),
        ) == Some(names),
{
    let wire = wire_names(names);
    let data = seq![(wire.len() / 256) as u8, (wire.len() % 256) as u8] + wire;
    lemma_wire_names(names);
    assert(be16(data, 0) == wire.len());
    assert(data.subrange(2, 2 + be16(data, 0)) =~= wire);
}

/// The identity key does not depend on reserved values nor on the order of the extensions.
pub proof fn law_identity_ignores_grease_and_extension_order(a: HelloView, b: HelloView)
    requires
        plain_ids(a.cipher_suites) == plain_ids(b.cipher_suites),
        plain_ids(a.extensions).to_multiset() == plain_ids(b.extensions).to_multiset(),
        plain_ids(a.groups) == plain_ids(b.groups),
        plain_ids(a.signature_algorithms) == plain_ids(b.signature_algorithms),
        a.alpn == b.alpn,
        plain_ids(a.key_share_groups) == plain_ids(b.key_share_groups),
        plain_ids(a.supported_versions) == plain_ids(b.supported_versions),
        a.cert_compression == b.cert_compression,
    ensures
        a.identity_key() == b.identity_key(),
{
    let x = plain_ids(a.extensions);
    let y = plain_ids(b.extensions);
    lemma_ascending(x);
    lemma_ascending(y);
    assert(total_ordering(at_most()));
    lemma_sorted_unique(ascending(x), ascending(y), at_most());
}

/// The identity key, each part in front of those behind it.
spec fn identity_z(h: HelloView) -> Seq<char> {
    "z:"@ + hex_list(h.cert_compression)
}

spec fn identity_v(h: HelloView) -> Seq<char> {
    "v:"@ + hex_list(plain_ids(h.supported_versions)) + seq!['|'] + identity_z(h)
}

spec fn identity_k(h: HelloView) -> Seq<char> {
    "k:"@ + hex_list(plain_ids(h.key_share_groups)) + seq!['|'] + identity_v(h)
}

spec fn identity_a(h: HelloView) -> Seq<char> {
    "a:"@ + join(protocol_texts(h.alpn), ","@) + seq!['|'] + identity_k(h)
}

spec fn identity_s(h: HelloView) -> Seq<char> {
    "s:"@ + hex_list(plain_ids(h.signature_algorithms)) + seq!['|'] + identity_a(h)
}

spec fn identity_g(h: HelloView) -> Seq<char> {
    "g:"@ + hex_list(plain_ids(h.groups)) + seq!['|'] + identity_s(h)
}

spec fn identity_e(h: HelloView) -> Seq<char> {
    "e:"@ + hex_list(ascending(plain_ids(h.extensions))) + seq!['|'] + identity_g(h)
}

spec fn identity_c(h: HelloView) -> Seq<char> {
    "c:"@ + hex_list(plain_ids(h.cipher_suites)) + seq!['|'] + identity_e(h)
}

proof fn lemma_part_moves(
    front: Seq<char>,
    bar: Seq<char>,
    mark: Seq<char>,
    text: Seq<char>,
    rest: Seq<char>,
)
    ensures
        front + (bar + mark) + text + bar + rest == front + bar + (mark + text + bar + rest),
{
    assert(front + (bar + mark) + text + bar + rest =~= front + bar + (mark + text + bar + rest));
}

proof fn lemma_identity_parts(h: HelloView)
    ensures
        h.identity_key() == identity_c(h),
{
    reveal_strlit("e:");
    reveal_strlit("g:");
    reveal_strlit("s:");
    reveal_strlit("a:");
    reveal_strlit("k:");
    reveal_strlit("v:");
    reveal_strlit("z:");
    reveal_strlit("|e:");
    reveal_strlit("|g:");
    reveal_strlit("|s:");
    reveal_strlit("|a:");
    reveal_strlit("|k:");
    reveal_strlit("|v:");
    reveal_strlit("|z:");
    assert("|e:"@ =~= seq!['|'] + "e:"@);
    assert("|g:"@ =~= seq!['|'] + "g:"@);
    assert("|s:"@ =~= seq!['|'] + "s:"@);
    assert("|a:"@ =~= seq!['|'] + "a:"@);
    assert("|k:"@ =~= seq!['|'] + "k:"@);
    assert("|v:"@ =~= seq!['|'] + "v:"@);
    assert("|z:"@ =~= seq!['|'] + "z:"@);
    let bar = seq!['|'];
    let c = "c:"@ + hex_list(plain_ids(h.cipher_suites));
    let e = hex_list(ascending(plain_ids(h.extensions)));
    let g = hex_list(plain_ids(h.groups));
    let s = hex_list(plain_ids(h.signature_algorithms));
    let a = join(protocol_texts(h.alpn), ","@);
    let k = hex_list(plain_ids(h.key_share_groups));
    let v = hex_list(plain_ids(h.supported_versions));
    let z = hex_list(h.cert_compression);
    let to_e = c + "|e:"@ + e;
    let to_g = to_e + "|g:"@ + g;
    let to_s = to_g + "|s:"@ + s;
    let to_a = to_s + "|a:"@ + a;
    let to_k = to_a + "|k:"@ + k;
    let to_v = to_k + "|v:"@ + v;
    assert(h.identity_key() == to_v + "|z:"@ + z);
    assert(to_v + "|z:"@ + z =~= to_v + bar + identity_z(h));
    lemma_part_moves(to_k, bar, "v:"@, v, identity_z(h));
    lemma_part_moves(to_a, bar, "k:"@, k, identity_v(h));
    lemma_part_moves(to_s, bar, "a:"@, a, identity_k(h));
    lemma_part_moves(to_g, bar, "s:"@, s, identity_a(h));
    lemma_part_moves(to_e, bar, "g:"@, g, identity_s(h));
    lemma_part_moves(c, bar, "e:"@, e, identity_g(h));
}

proof fn lemma_hex4_plain(x: u16)
    ensures
        !hex4(x).contains('-'),
        !hex4(x).contains('|'),
{
    lemma_hex_digit(x as int / 4096, 0);
    lemma_hex_digit(x as int / 256 % 16, 0);
    lemma_hex_digit(x as int / 16 % 16, 0);
    lemma_hex_digit(x as int % 16, 0);
}

proof fn lemma_hex4_tells_id(x: u16, y: u16)
    requires
        hex4(x) == hex4(y),
    ensures
        x == y,
{
    assert(hex4(x)[0] == hex4(y)[0]);
    assert(hex4(x)[1] == hex4(y)[1]);
    assert(hex4(x)[2] == hex4(y)[2]);
    assert(hex4(x)[3] == hex4(y)[3]);
    lemma_hex_digit(x as int / 4096, y as int / 4096);
    lemma_hex_digit(x as int / 256 % 16, y as int / 256 % 16);
    lemma_hex_digit(x as int / 16 % 16, y as int / 16 % 16);
    lemma_hex_digit(x as int % 16, y as int % 16);
    assert(x / 4096 == y / 4096 && x / 256 % 16 == y / 256 % 16 && x / 16 % 16 == y / 16 % 16 && x
        % 16 == y % 16 ==> x == y) by (bit_vector);
}

proof fn lemma_hex_digit(d: int, e: int)
    requires
        0 <= d < 16,
        0 <= e < 16,
    ensures
        hex_digit(d) == hex_digit(e) ==> d == e,
        hex_digit(d) != '-',
        hex_digit(d) != '|',
{
}

proof fn lemma_join_without(parts: Seq<Seq<char>>, sep: Seq<char>, c: char)
    requires
        !sep.contains(c),
        forall|i: int| 0 <= i < parts.len() ==> !(#[trigger] parts[i]).contains(c),
    ensures
        !join(parts, sep).contains(c),
    decreases parts.len(),
{
    if parts.len() > 1 {
        let init = parts.drop_last();
        assert forall|i: int| 0 <= i < init.len() implies !(#[trigger] init[i]).contains(c) by {
            assert(init[i] == parts[i]);
        }
        lemma_join_without(init, sep, c);
        let (x, z) = (join(init, sep), parts.last());
        assert(!parts[parts.len() - 1].contains(c));
        if (x + sep + z).contains(c) {
            let i = choose|i: int| 0 <= i < (x + sep + z).len() && (x + sep + z)[i] == c;
            if i < x.len() {
                assert(x[i] == c);
            } else if i < x.len() + sep.len() {
                assert(sep[i - x.len()] == c);
            } else {
                assert(z[i - x.len() - sep.len()] == c);
            }
        }
    }
}

/// A list of hexadecimal numbers tells the ids, and no bar stands in it.
proof fn lemma_hex_list(a: Seq<u16>, b: Seq<u16>)
    ensures
        hex_list(a) == hex_list(b) ==> a == b,
        !hex_list(a).contains('|'),
{
    reveal_strlit("-");
    assert("-"@ =~= seq!['-']);
    let x = Seq::new(a.len(), |i: int| hex4(a[i]));
    let y = Seq::new(b.len(), |i: int| hex4(b[i]));
    assert forall|i: int| 0 <= i < x.len() implies !(#[trigger] x[i]).contains('-')
        && !x[i].contains('|') by {
        lemma_hex4_plain(a[i]);
    }
    assert forall|i: int| 0 <= i < y.len() implies !(#[trigger] y[i]).contains('-') by {
        lemma_hex4_plain(b[i]);
    }
    lemma_join_without(x, "-"@, '|');
    if hex_list(a) == hex_list(b) {
        if a.len() > 0 {
            lemma_split_of_join(x, '-');
        }
        if b.len() > 0 {
            lemma_split_of_join(y, '-');
        }
        if a.len() > 0 && b.len() > 0 {
            assert(x == y);
            assert forall|i: int| 0 <= i < a.len() implies a[i] == b[i] by {
                assert(x[i] == y[i]);
                lemma_hex4_tells_id(a[i], b[i]);
            }
        } else if a.len() > 0 {
            assert(split_on(Seq::<char>::empty(), '-')[0].len() == 0);
            assert(x[0].len() == 4);
        } else if b.len() > 0 {
            assert(split_on(Seq::<char>::empty(), '-')[0].len() == 0);
            assert(y[0].len() == 4);
        }
        assert(a =~= b);
    }
}

/// Two texts that begin with the same mark and a list, up to a bar, have the same list there and
/// the same behind the bar.
proof fn lemma_same_part(mark: Seq<char>, a: Seq<u16>, b: Seq<u16>, p: Seq<char>, q: Seq<char>)
    requires
        mark + hex_list(a) + seq!['|'] + p == mark + hex_list(b) + seq!['|'] + q,
    ensures
        a == b,
        p == q,
{
    lemma_hex_list(a, b);
    lemma_hex_list(b, a);
    let (x, y) = (hex_list(a), hex_list(b));
    let (s, t) = (mark + x + seq!['|'] + p, mark + y + seq!['|'] + q);
    let m = mark.len() as int;
    if x.len() < y.len() {
        assert(s[m + x.len()] == '|');
        assert(t[m + x.len()] == y[x.len() as int]);
        assert(y.contains('|'));
    }
    if y.len() < x.len() {
        assert(t[m + y.len()] == '|');
        assert(s[m + y.len()] == x[y.len() as int]);
        assert(x.contains('|'));
    }
    assert forall|i: int| 0 <= i < x.len() implies x[i] == y[i] by {
        assert(s[m + i] == x[i]);
        assert(t[m + i] == y[i]);
    }
    assert(x =~= y);
    assert(s.skip(m + x.len() + 1) =~= p);
    assert(t.skip(m + y.len() + 1) =~= q);
}

/// Two hellos with the same identity key whose protocol names are the same text offer the same
/// ids in each list, reserved values left out: in the same order, but for the extensions.
pub proof fn law_same_identity_means_same_offer(a: HelloView, b: HelloView)
    requires
        a.identity_key() == b.identity_key(),
        join(protocol_texts(a.alpn), ","@) == join(protocol_texts(b.alpn), ","@),
    ensures
        plain_ids(a.cipher_suites) == plain_ids(b.cipher_suites),
        plain_ids(a.extensions).to_multiset() == plain_ids(b.extensions).to_multiset(),
        plain_ids(a.groups) == plain_ids(b.groups),
        plain_ids(a.signature_algorithms) == plain_ids(b.signature_algorithms),
        plain_ids(a.key_share_groups) == plain_ids(b.key_share_groups),
        plain_ids(a.supported_versions) == plain_ids(b.supported_versions),
        a.cert_compression == b.cert_compression,
{
    lemma_identity_parts(a);
    lemma_identity_parts(b);
    lemma_same_part(
        "c:"@,
        plain_ids(a.cipher_suites),
        plain_ids(b.cipher_suites),
        identity_e(a),
        identity_e(b),
    );
    let x = plain_ids(a.extensions);
    let y = plain_ids(b.extensions);
    lemma_same_part("e:"@, ascending(x), ascending(y), identity_g(a), identity_g(b));
    lemma_ascending(x);
    lemma_ascending(y);
    lemma_same_part("g:"@, plain_ids(a.groups), plain_ids(b.groups), identity_s(a), identity_s(b));
    lemma_same_part(
        "s:"@,
        plain_ids(a.signature_algorithms),
        plain_ids(b.signature_algorithms),
        identity_a(a),
        identity_a(b),
    );
    let names = "a:"@ + join(protocol_texts(a.alpn), ","@) + seq!['|'];
    assert(identity_a(a).skip(names.len() as int) =~= identity_k(a));
    assert(identity_a(b).skip(names.len() as int) =~= identity_k(b));
    lemma_same_part(
        "k:"@,
        plain_ids(a.key_share_groups),
        plain_ids(b.key_share_groups),
        identity_v(a),
        identity_v(b),
    );
    lemma_same_part(
        "v:"@,
        plain_ids(a.supported_versions),
        plain_ids(b.supported_versions),
        identity_z(a),
        identity_z(b),
    );
    reveal_strlit("z:");
    assert(identity_z(a).skip(2) =~= hex_list(a.cert_compression));
    assert(identity_z(b).skip(2) =~= hex_list(b.cert_compression));
    lemma_hex_list(a.cert_compression, b.cert_compression);
}

/// Two lists hold the same ids, reserved values left out.
pub open spec fn same_plain_ids(a: Seq<u16>, b: Seq<u16>) -> bool {
    forall|id: u16| #[trigger] plain_ids(a).contains(id) <==> plain_ids(b).contains(id)
}

proof fn lemma_set_diff_empty(name: Seq<char>, a: Seq<u16>, b: Seq<u16>)
    ensures
        set_diff(name, a, b).len() == 0 <==> same_plain_ids(a, b),
{
    let x = plain_ids(a);
    let y = plain_ids(b);
    lemma_difference_empty(x, y);
    lemma_difference_empty(y, x);
}

proof fn lemma_difference_empty(a: Seq<u16>, b: Seq<u16>)
    ensures
        ids_only_in(a, b).len() == 0 <==> (forall|id: u16|
            #[trigger] a.contains(id) ==> b.contains(id)),
{
    let f = ids_only_in(a, b);
    if f.len() == 0 {
        assert forall|id: u16| #[trigger] a.contains(id) implies b.contains(id) by {
            if !b.contains(id) {
                assert(all_ids()[id as int] == id);
                all_ids().lemma_filter_contains(only_in(a, b), id as int);
            }
        }
    } else {
        all_ids().lemma_filter_pred(only_in(a, b), 0);
        assert(a.contains(f[0]) && !b.contains(f[0]));
    }
}

proof fn lemma_plain_contains(ids: Seq<u16>, id: u16)
    requires
        !grease(id),
    ensures
        plain_ids(ids).contains(id) <==> ids.contains(id),
{
    if ids.contains(id) {
        let i = choose|i: int| 0 <= i < ids.len() && ids[i] == id;
        ids.lemma_filter_contains(not_grease(), i);
    }
    if plain_ids(ids).contains(id) {
        ids.lemma_filter_contains_rev(not_grease(), id);
    }
}

/// Nothing is said of two hellos exactly where they offer the same ids in each list, reserved
/// values left out, the same protocols in the same order, and both or neither send reserved
/// values.
pub proof fn law_no_difference_means_same_offer(a: HelloView, b: HelloView)
    ensures
        hello_diffs(a, b).len() == 0 <==> {
            &&& same_plain_ids(a.cipher_suites, b.cipher_suites)
            &&& same_plain_ids(a.extensions, b.extensions)
            &&& same_plain_ids(a.groups, b.groups)
            &&& same_plain_ids(a.signature_algorithms, b.signature_algorithms)
            &&& same_plain_ids(a.key_share_groups, b.key_share_groups)
            &&& same_plain_ids(a.supported_versions, b.supported_versions)
            &&& same_plain_ids(a.cert_compression, b.cert_compression)
            &&& a.alpn == b.alpn
            &&& a.grease() == b.grease()
        },
{
    lemma_set_diff_empty("ciphers"@, a.cipher_suites, b.cipher_suites);
    lemma_set_diff_empty("extensions"@, a.extensions, b.extensions);
    lemma_set_diff_empty("groups"@, a.groups, b.groups);
    lemma_set_diff_empty("sigalgs"@, a.signature_algorithms, b.signature_algorithms);
    lemma_set_diff_empty("key_share"@, a.key_share_groups, b.key_share_groups);
    lemma_set_diff_empty("supported_versions"@, a.supported_versions, b.supported_versions);
    lemma_set_diff_empty("cert_compression"@, a.cert_compression, b.cert_compression);
    assert(!grease(0x0005) && !grease(0x0012) && !grease(0xfe0d) && !grease(0x4469) && !grease(
        0x44cd,
    ) && !grease(2)) by (bit_vector);
    if same_plain_ids(a.extensions, b.extensions) {
        lemma_same_plain_id(a.extensions, b.extensions, EXT_STATUS_REQUEST);
        lemma_same_plain_id(a.extensions, b.extensions, EXT_SCT);
        lemma_same_plain_id(a.extensions, b.extensions, EXT_ECH);
        lemma_same_plain_id(a.extensions, b.extensions, EXT_ALPS_OLD);
        lemma_same_plain_id(a.extensions, b.extensions, EXT_ALPS_NEW);
    }
    if same_plain_ids(a.cert_compression, b.cert_compression) {
        lemma_same_plain_id(a.cert_compression, b.cert_compression, CERT_COMPRESSION_BROTLI);
    }
}

proof fn lemma_same_plain_id(a: Seq<u16>, b: Seq<u16>, id: u16)
    requires
        same_plain_ids(a, b),
        !grease(id),
    ensures
        a.contains(id) <==> b.contains(id),
{
    lemma_plain_contains(a, id);
    lemma_plain_contains(b, id);
    assert(plain_ids(a).contains(id) <==> plain_ids(b).contains(id));
}

} // verus!
