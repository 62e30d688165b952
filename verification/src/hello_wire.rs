//! What is written as a ClientHello is what is read: the wire format from the writer's side.
use vstd::prelude::*;
use crate::tls_hello::{
    be16, be24, extension_list, handshake_hello, hello_body, hello_in_records, hello_of,
    last_of_type, law_alpn_is_read_back, share_groups, u16_list, vec16, vec8, wire_names,
};

verus! {

/// A number in two bytes, the high one first.
pub open spec fn two_bytes(n: int) -> Seq<u8> {
    seq![(n / 256) as u8, (n % 256) as u8]
}

/// Bytes behind their length in one byte.
pub open spec fn behind_len8(s: Seq<u8>) -> Seq<u8> {
    seq![s.len() as u8] + s
}

/// Bytes behind their length in two bytes.
pub open spec fn behind_len16(s: Seq<u8>) -> Seq<u8> {
    two_bytes(s.len() as int) + s
}

/// Numbers in two bytes each, one after another.
pub open spec fn id_bytes(ids: Seq<u16>) -> Seq<u8> {
    Seq::new(
        2 * ids.len(),
        |i: int|
            if i % 2 == 0 {
                (ids[i / 2] / 256) as u8
            } else {
                (ids[i / 2] % 256) as u8
            },
    )
}

/// Extensions one after another: the type, and the data behind its length.
pub open spec fn extension_bytes(exts: Seq<(u16, Seq<u8>)>) -> Seq<u8>
    decreases exts.len(),
{
    if exts.len() == 0 {
        seq![]
    } else {
        two_bytes(exts[0].0 as int) + behind_len16(exts[0].1) + extension_bytes(exts.drop_first())
    }
}

/// Key shares one after another: the group, and the key behind its length.
pub open spec fn share_bytes(groups: Seq<u16>, keys: Seq<Seq<u8>>) -> Seq<u8>
    decreases groups.len(),
{
    if groups.len() == 0 || keys.len() == 0 {
        seq![]
    } else {
        two_bytes(groups[0] as int) + behind_len16(keys[0]) + share_bytes(
            groups.drop_first(),
            keys.drop_first(),
        )
    }
}

/// Extensions whose data has a length that two bytes hold.
pub open spec fn short_data(exts: Seq<(u16, Seq<u8>)>) -> bool {
    forall|i: int| 0 <= i < exts.len() ==> (#[trigger] exts[i]).1.len() <= 0xffff
}

/// The body of a ClientHello.
pub open spec fn hello_bytes(
    version_and_random: Seq<u8>,
    session_id: Seq<u8>,
    cipher_suites: Seq<u16>,
    compression: Seq<u8>,
    exts: Seq<(u16, Seq<u8>)>,
) -> Seq<u8> {
    version_and_random + behind_len8(session_id) + behind_len16(id_bytes(cipher_suites))
        + behind_len8(compression) + behind_len16(extension_bytes(exts))
}

/// Parts that a ClientHello can be written from.
pub open spec fn hello_parts(
    version_and_random: Seq<u8>,
    session_id: Seq<u8>,
    cipher_suites: Seq<u16>,
    compression: Seq<u8>,
    exts: Seq<(u16, Seq<u8>)>,
) -> bool {
    &&& version_and_random.len() == 34
    &&& session_id.len() <= 255
    &&& 2 * cipher_suites.len() <= 0xffff
    &&& compression.len() <= 255
    &&& short_data(exts)
    &&& extension_bytes(exts).len() <= 0xffff
}

proof fn lemma_two_bytes(n: int, rest: Seq<u8>)
    requires
        0 <= n <= 0xffff,
    ensures
        be16(two_bytes(n) + rest, 0) == n,
{
    let s = two_bytes(n) + rest;
    assert(s[0] == n / 256);
    assert(s[1] == n % 256);
}

proof fn lemma_vec8(s: Seq<u8>, rest: Seq<u8>)
    requires
        s.len() <= 255,
    ensures
        vec8(behind_len8(s) + rest) == Some((s, rest)),
{
    let all = behind_len8(s) + rest;
    assert(all[0] == s.len());
    assert(all.subrange(1, 1 + all[0]) =~= s);
    assert(all.skip(1 + all[0]) =~= rest);
}

proof fn lemma_vec16(s: Seq<u8>, rest: Seq<u8>)
    requires
        s.len() <= 0xffff,
    ensures
        vec16(behind_len16(s) + rest) == Some((s, rest)),
{
    let all = behind_len16(s) + rest;
    assert(all =~= two_bytes(s.len() as int) + (s + rest));
    lemma_two_bytes(s.len() as int, s + rest);
    assert(all.subrange(2, 2 + be16(all, 0)) =~= s);
    assert(all.skip(2 + be16(all, 0)) =~= rest);
}

proof fn lemma_id_bytes(ids: Seq<u16>)
    ensures
        u16_list(id_bytes(ids)) == Some(ids),
{
    let data = id_bytes(ids);
    let read = u16_list(data)->0;
    assert forall|i: int| 0 <= i < ids.len() implies read[i] == ids[i] by {
        assert((2 * i) / 2 == i && (2 * i + 1) / 2 == i);
        assert(data[2 * i] == ids[i] / 256);
        assert(data[2 * i + 1] == ids[i] % 256);
    }
    assert(read =~= ids);
}

proof fn lemma_extension_bytes(exts: Seq<(u16, Seq<u8>)>)
    requires
        short_data(exts),
    ensures
        extension_list(extension_bytes(exts)) == Some(exts),
    decreases exts.len(),
{
    let all = extension_bytes(exts);
    if exts.len() == 0 {
        assert(exts =~= Seq::<(u16, Seq<u8>)>::empty());
    } else {
        let tail = exts.drop_first();
        assert forall|i: int| 0 <= i < tail.len() implies (#[trigger] tail[i]).1.len() <= 0xffff by {
            assert(tail[i] == exts[i + 1]);
        }
        lemma_extension_bytes(tail);
        let (kind, data) = exts[0];
        assert(exts[0].1.len() <= 0xffff);
        let rest = extension_bytes(tail);
        assert(all =~= two_bytes(kind as int) + (behind_len16(data) + rest));
        lemma_two_bytes(kind as int, behind_len16(data) + rest);
        assert(all.skip(2) =~= two_bytes(data.len() as int) + (data + rest));
        lemma_two_bytes(data.len() as int, data + rest);
        assert(be16(all, 2) == be16(all.skip(2), 0));
        assert(all.subrange(4, 4 + data.len() as int) =~= data);
        assert(all.skip(4 + data.len() as int) =~= rest);
        assert(seq![exts[0]] + tail =~= exts);
    }
}

/// What is read of a written ClientHello, in terms of its parts.
proof fn lemma_hello_back(
    version_and_random: Seq<u8>,
    session_id: Seq<u8>,
    cipher_suites: Seq<u16>,
    compression: Seq<u8>,
    exts: Seq<(u16, Seq<u8>)>,
    more: Seq<u8>,
)
    requires
        hello_parts(version_and_random, session_id, cipher_suites, compression, exts),
    ensures
        hello_body(
            hello_bytes(version_and_random, session_id, cipher_suites, compression, exts) + more,
        ) == Some(hello_of(cipher_suites, exts)),
{
    let ciphers = id_bytes(cipher_suites);
    let ext_bytes = extension_bytes(exts);
    let body = hello_bytes(version_and_random, session_id, cipher_suites, compression, exts) + more;
    let after_compression = behind_len16(ext_bytes) + more;
    let after_ciphers = behind_len8(compression) + after_compression;
    let after_session = behind_len16(ciphers) + after_ciphers;
    assert(body.skip(34) =~= behind_len8(session_id) + after_session);
    lemma_vec8(session_id, after_session);
    lemma_vec16(ciphers, after_ciphers);
    lemma_id_bytes(cipher_suites);
    lemma_vec8(compression, after_compression);
    lemma_vec16(ext_bytes, more);
    lemma_extension_bytes(exts);
}

/// A ClientHello that is written from its parts is read back: it has exactly these cipher suites
/// and these types of extensions, in their order, whatever its version, its random bytes, its
/// session id and its compression methods are, and whatever follows it.
pub proof fn law_hello_is_read_back(
    version_and_random: Seq<u8>,
    session_id: Seq<u8>,
    cipher_suites: Seq<u16>,
    compression: Seq<u8>,
    exts: Seq<(u16, Seq<u8>)>,
    more: Seq<u8>,
)
    requires
        hello_parts(version_and_random, session_id, cipher_suites, compression, exts),
    ensures
        ({
            let body = hello_bytes(
                version_and_random,
                session_id,
                cipher_suites,
                compression,
                exts,
            ) + more;
            &&& hello_body(body) is Some
            &&& (hello_body(body)->0).cipher_suites == cipher_suites
            &&& (hello_body(body)->0).extensions.len() == exts.len()
            &&& forall|i: int|
                0 <= i < exts.len() ==> #[trigger] (hello_body(body)->0).extensions[i] == exts[i].0
        }),
{
    lemma_hello_back(version_and_random, session_id, cipher_suites, compression, exts, more);
}

/// What a ClientHello offers does not depend on its version, its random bytes, its session id nor
/// its compression methods.
pub proof fn law_hello_ignores_session(
    start_a: Seq<u8>,
    start_b: Seq<u8>,
    session_a: Seq<u8>,
    session_b: Seq<u8>,
    cipher_suites: Seq<u16>,
    compression_a: Seq<u8>,
    compression_b: Seq<u8>,
    exts: Seq<(u16, Seq<u8>)>,
)
    requires
        hello_parts(start_a, session_a, cipher_suites, compression_a, exts),
        hello_parts(start_b, session_b, cipher_suites, compression_b, exts),
    ensures
        hello_body(hello_bytes(start_a, session_a, cipher_suites, compression_a, exts))
            == hello_body(hello_bytes(start_b, session_b, cipher_suites, compression_b, exts)),
{
    let none = Seq::<u8>::empty();
    let a = hello_bytes(start_a, session_a, cipher_suites, compression_a, exts);
    let b = hello_bytes(start_b, session_b, cipher_suites, compression_b, exts);
    assert(a + none =~= a);
    assert(b + none =~= b);
    lemma_hello_back(start_a, session_a, cipher_suites, compression_a, exts, none);
    lemma_hello_back(start_b, session_b, cipher_suites, compression_b, exts, none);
}

/// The extension at `i` is the last of its type.
pub open spec fn last_of_its_type(exts: Seq<(u16, Seq<u8>)>, i: int) -> bool {
    &&& 0 <= i < exts.len()
    &&& forall|j: int| i < j < exts.len() ==> (#[trigger] exts[j]).0 != exts[i].0
}

proof fn lemma_last_of_its_type(exts: Seq<(u16, Seq<u8>)>, i: int)
    requires
        last_of_its_type(exts, i),
    ensures
        last_of_type(exts, exts[i].0) == Some(exts[i].1),
    decreases exts.len(),
{
    if i < exts.len() - 1 {
        assert(exts[exts.len() - 1].0 != exts[i].0);
        let init = exts.drop_last();
        assert forall|j: int| i < j < init.len() implies (#[trigger] init[j]).0 != init[i].0 by {
            assert(init[j] == exts[j]);
        }
        lemma_last_of_its_type(init, i);
    }
}

proof fn lemma_none_of_type(exts: Seq<(u16, Seq<u8>)>, kind: u16)
    requires
        forall|j: int| 0 <= j < exts.len() ==> (#[trigger] exts[j]).0 != kind,
    ensures
        last_of_type(exts, kind) is None,
    decreases exts.len(),
{
    if exts.len() > 0 {
        assert(exts[exts.len() - 1].0 != kind);
        let init = exts.drop_last();
        assert forall|j: int| 0 <= j < init.len() implies (#[trigger] init[j]).0 != kind by {
            assert(init[j] == exts[j]);
        }
        lemma_none_of_type(init, kind);
    }
}

/// The ids that an extension holds are read back: type 10 holds the groups and type 13 the
/// signature algorithms, behind a length in two bytes; type 43 holds the versions and type 27 the
/// forms of compressed certificates, behind a length in one byte. Where extensions have the same
/// type the last one counts.
pub proof fn law_ids_of_extensions_are_read_back(
    version_and_random: Seq<u8>,
    session_id: Seq<u8>,
    cipher_suites: Seq<u16>,
    compression: Seq<u8>,
    exts: Seq<(u16, Seq<u8>)>,
    i: int,
    ids: Seq<u16>,
)
    requires
        hello_parts(version_and_random, session_id, cipher_suites, compression, exts),
        last_of_its_type(exts, i),
    ensures
        ({
            let hello = hello_body(
                hello_bytes(version_and_random, session_id, cipher_suites, compression, exts),
            )->0;
            let wide = 2 * ids.len() <= 0xffff && exts[i].1 == behind_len16(id_bytes(ids));
            let narrow = 2 * ids.len() <= 255 && exts[i].1 == behind_len8(id_bytes(ids));
            &&& exts[i].0 == 10 && wide ==> hello.groups == ids
            &&& exts[i].0 == 13 && wide ==> hello.signature_algorithms == ids
            &&& exts[i].0 == 43 && narrow ==> hello.supported_versions == ids
            &&& exts[i].0 == 27 && narrow ==> hello.cert_compression == ids
        }),
{
    let none = Seq::<u8>::empty();
    let body = hello_bytes(version_and_random, session_id, cipher_suites, compression, exts);
    assert(body + none =~= body);
    lemma_hello_back(version_and_random, session_id, cipher_suites, compression, exts, none);
    lemma_last_of_its_type(exts, i);
    lemma_id_bytes(ids);
    let data = id_bytes(ids);
    if 2 * ids.len() <= 0xffff {
        lemma_vec16(data, none);
        assert(behind_len16(data) + none =~= behind_len16(data));
    }
    if 2 * ids.len() <= 255 {
        lemma_vec8(data, none);
        assert(behind_len8(data) + none =~= behind_len8(data));
    }
}

proof fn lemma_share_bytes(groups: Seq<u16>, keys: Seq<Seq<u8>>)
    requires
        groups.len() == keys.len(),
        forall|j: int| 0 <= j < keys.len() ==> (#[trigger] keys[j]).len() <= 0xffff,
    ensures
        share_groups(share_bytes(groups, keys)) == Some(groups),
    decreases groups.len(),
{
    let all = share_bytes(groups, keys);
    if groups.len() == 0 {
        assert(groups =~= Seq::<u16>::empty());
    } else {
        let (g, k) = (groups.drop_first(), keys.drop_first());
        assert forall|j: int| 0 <= j < k.len() implies (#[trigger] k[j]).len() <= 0xffff by {
            assert(k[j] == keys[j + 1]);
        }
        lemma_share_bytes(g, k);
        let key = keys[0];
        let rest = share_bytes(g, k);
        assert(all =~= two_bytes(groups[0] as int) + (behind_len16(key) + rest));
        lemma_two_bytes(groups[0] as int, behind_len16(key) + rest);
        assert(all.skip(2) =~= two_bytes(key.len() as int) + (key + rest));
        lemma_two_bytes(key.len() as int, key + rest);
        assert(be16(all, 2) == be16(all.skip(2), 0));
        assert(all.skip(4 + key.len() as int) =~= rest);
        assert(seq![groups[0]] + g =~= groups);
    }
}

/// The groups of key shares (extension 51) are read back in their order, whatever the keys are.
pub proof fn law_key_shares_are_read_back(
    version_and_random: Seq<u8>,
    session_id: Seq<u8>,
    cipher_suites: Seq<u16>,
    compression: Seq<u8>,
    exts: Seq<(u16, Seq<u8>)>,
    i: int,
    groups: Seq<u16>,
    keys: Seq<Seq<u8>>,
)
    requires
        hello_parts(version_and_random, session_id, cipher_suites, compression, exts),
        last_of_its_type(exts, i),
        exts[i].0 == 51,
        groups.len() == keys.len(),
        forall|j: int| 0 <= j < keys.len() ==> (#[trigger] keys[j]).len() <= 0xffff,
        share_bytes(groups, keys).len() <= 0xffff,
        exts[i].1 == behind_len16(share_bytes(groups, keys)),
    ensures
        (hello_body(
            hello_bytes(version_and_random, session_id, cipher_suites, compression, exts),
        )->0).key_share_groups == groups,
{
    let none = Seq::<u8>::empty();
    let body = hello_bytes(version_and_random, session_id, cipher_suites, compression, exts);
    assert(body + none =~= body);
    lemma_hello_back(version_and_random, session_id, cipher_suites, compression, exts, none);
    lemma_last_of_its_type(exts, i);
    lemma_share_bytes(groups, keys);
    let data = share_bytes(groups, keys);
    lemma_vec16(data, none);
    assert(behind_len16(data) + none =~= behind_len16(data));
}

/// The protocol names (extension 16) are read back in their order.
pub proof fn law_protocols_are_read_back(
    version_and_random: Seq<u8>,
    session_id: Seq<u8>,
    cipher_suites: Seq<u16>,
    compression: Seq<u8>,
    exts: Seq<(u16, Seq<u8>)>,
    i: int,
    names: Seq<Seq<u8>>,
)
    requires
        hello_parts(version_and_random, session_id, cipher_suites, compression, exts),
        last_of_its_type(exts, i),
        exts[i].0 == 16,
        forall|j: int| 0 <= j < names.len() ==> #[trigger] names[j].len() <= 255,
        wire_names(names).len() <= 0xffff,
        exts[i].1 == behind_len16(wire_names(names)),
    ensures
        (hello_body(
            hello_bytes(version_and_random, session_id, cipher_suites, compression, exts),
        )->0).alpn == names,
{
    let none = Seq::<u8>::empty();
    let body = hello_bytes(version_and_random, session_id, cipher_suites, compression, exts);
    assert(body + none =~= body);
    lemma_hello_back(version_and_random, session_id, cipher_suites, compression, exts, none);
    lemma_last_of_its_type(exts, i);
    law_alpn_is_read_back(names);
}

/// A list whose extension is not there is empty.
pub proof fn law_missing_extensions_offer_nothing(
    version_and_random: Seq<u8>,
    session_id: Seq<u8>,
    cipher_suites: Seq<u16>,
    compression: Seq<u8>,
    exts: Seq<(u16, Seq<u8>)>,
    kind: u16,
)
    requires
        hello_parts(version_and_random, session_id, cipher_suites, compression, exts),
        forall|j: int| 0 <= j < exts.len() ==> (#[trigger] exts[j]).0 != kind,
    ensures
        ({
            let hello = hello_body(
                hello_bytes(version_and_random, session_id, cipher_suites, compression, exts),
            )->0;
            &&& kind == 10 ==> hello.groups.len() == 0
            &&& kind == 13 ==> hello.signature_algorithms.len() == 0
            &&& kind == 16 ==> hello.alpn.len() == 0
            &&& kind == 27 ==> hello.cert_compression.len() == 0
            &&& kind == 43 ==> hello.supported_versions.len() == 0
            &&& kind == 51 ==> hello.key_share_groups.len() == 0
        }),
{
    let none = Seq::<u8>::empty();
    let body = hello_bytes(version_and_random, session_id, cipher_suites, compression, exts);
    assert(body + none =~= body);
    lemma_hello_back(version_and_random, session_id, cipher_suites, compression, exts, none);
    lemma_none_of_type(exts, kind);
}

/// A handshake message: its type, its length in three bytes and its body.
pub open spec fn handshake_bytes(kind: u8, body: Seq<u8>) -> Seq<u8> {
    seq![
        kind,
        (body.len() / 65536) as u8,
        (body.len() / 256 % 256) as u8,
        (body.len() % 256) as u8,
    ] + body
}

/// Handshake records with these pieces, one after another.
pub open spec fn record_bytes(version: Seq<u8>, pieces: Seq<Seq<u8>>) -> Seq<u8>
    decreases pieces.len(),
{
    if pieces.len() == 0 {
        seq![]
    } else {
        seq![0x16u8] + version + behind_len16(pieces[0]) + record_bytes(
            version,
            pieces.drop_first(),
        )
    }
}

/// The pieces one after another.
pub open spec fn all_pieces(pieces: Seq<Seq<u8>>) -> Seq<u8>
    decreases pieces.len(),
{
    if pieces.len() == 0 {
        seq![]
    } else {
        pieces[0] + all_pieces(pieces.drop_first())
    }
}

proof fn lemma_handshake_len(body: Seq<u8>, more: Seq<u8>)
    requires
        body.len() <= 0xffffff,
    ensures
        be24(handshake_bytes(1, body) + more, 1) == body.len(),
        (handshake_bytes(1, body) + more)[0] == 1,
{
    let s = handshake_bytes(1, body) + more;
    let n = body.len() as int;
    assert(s[1] == n / 65536);
    assert(s[2] == n / 256 % 256);
    assert(s[3] == n % 256);
    assert(n / 65536 * 65536 + n / 256 % 256 * 256 + n % 256 == n) by (nonlinear_arith)
        requires
            0 <= n <= 0xffffff,
    ;
}

/// A ClientHello in a handshake message is read, whatever follows it; a handshake message of any
/// other type, or one that is cut short, is none.
pub proof fn law_handshake_holds_hello(kind: u8, body: Seq<u8>, more: Seq<u8>, k: int)
    requires
        body.len() <= 0xffffff,
        0 <= k < 4 + body.len(),
    ensures
        handshake_hello(handshake_bytes(1, body) + more) == hello_body(body),
        kind != 1 ==> handshake_hello(handshake_bytes(kind, body) + more) is None,
        handshake_hello(handshake_bytes(1, body).take(k)) is None,
{
    lemma_handshake_len(body, more);
    let s = handshake_bytes(1, body) + more;
    assert(s.subrange(4, 4 + body.len() as int) =~= body);
    assert((handshake_bytes(kind, body) + more)[0] == kind);
    let whole = handshake_bytes(1, body);
    let none = Seq::<u8>::empty();
    lemma_handshake_len(body, none);
    assert(whole + none =~= whole);
    let cut = whole.take(k);
    if k >= 4 {
        assert(be24(cut, 1) == be24(whole, 1));
    }
}

/// However a ClientHello is cut into handshake records, it is read as it was, and all bytes of
/// these records are taken and none that follow.
pub proof fn law_hello_is_read_from_any_records(
    version: Seq<u8>,
    pieces: Seq<Seq<u8>>,
    body: Seq<u8>,
    more: Seq<u8>,
)
    requires
        version.len() == 2,
        pieces.len() > 0,
        forall|i: int| 0 <= i < pieces.len() ==> 0 < (#[trigger] pieces[i]).len() <= 0xffff,
        all_pieces(pieces) == handshake_bytes(1, body),
        body.len() <= 0xffffff,
        hello_body(body) is Some,
    ensures
        hello_in_records(record_bytes(version, pieces) + more, 0, seq![]) == Some(
            (hello_body(body)->0, record_bytes(version, pieces).len() as int),
        ),
{
    let none = Seq::<u8>::empty();
    let whole = handshake_bytes(1, body);
    law_handshake_holds_hello(1, body, none, 0);
    assert(whole + none =~= whole);
    assert forall|k: int| 0 <= k < whole.len() implies handshake_hello(
        #[trigger] whole.take(k),
    ) is None by {
        law_handshake_holds_hello(1, body, none, k);
    }
    assert(none + record_bytes(version, pieces) + more =~= record_bytes(version, pieces) + more);
    assert(none + record_bytes(version, pieces) =~= record_bytes(version, pieces));
    assert(none + all_pieces(pieces) =~= all_pieces(pieces));
    lemma_records_back(none, none, version, pieces, whole, more);
}

/// A record behind some bytes is found there.
proof fn lemma_record_at(before: Seq<u8>, version: Seq<u8>, piece: Seq<u8>, rest: Seq<u8>)
    requires
        version.len() == 2,
        piece.len() <= 0xffff,
    ensures
        ({
            let buf = before + (seq![0x16u8] + version + behind_len16(piece)) + rest;
            let at = before.len() as int;
            &&& buf.len() == at + 5 + piece.len() + rest.len()
            &&& buf[at] == 0x16
            &&& be16(buf, at + 3) == piece.len()
            &&& buf.subrange(at + 5, at + 5 + piece.len()) == piece
        }),
{
    let buf = before + (seq![0x16u8] + version + behind_len16(piece)) + rest;
    let at = before.len() as int;
    assert(buf[at + 3] == two_bytes(piece.len() as int)[0]);
    assert(buf[at + 4] == two_bytes(piece.len() as int)[1]);
    assert(buf.subrange(at + 5, at + 5 + piece.len()) =~= piece);
}

/// One record is read, and then those behind it unless the message is whole.
proof fn lemma_one_record(
    before: Seq<u8>,
    so_far: Seq<u8>,
    version: Seq<u8>,
    piece: Seq<u8>,
    rest: Seq<u8>,
)
    requires
        version.len() == 2,
        piece.len() <= 0xffff,
    ensures
        ({
            let buf = before + (seq![0x16u8] + version + behind_len16(piece)) + rest;
            let end: int = before.len() + 5int + piece.len();
            hello_in_records(buf, before.len() as int, so_far) == match handshake_hello(
                so_far + piece,
            ) {
                Some(hello) => Some((hello, end)),
                None => hello_in_records(buf, end, so_far + piece),
            }
        }),
{
    lemma_record_at(before, version, piece, rest);
}

proof fn lemma_grouping(a: Seq<u8>, b: Seq<u8>, c: Seq<u8>, d: Seq<u8>)
    ensures
        a + (b + c) + d == a + b + (c + d),
        a + b + c + d == a + b + (c + d),
        a + b + c == a + (b + c),
{
    assert(a + (b + c) + d =~= a + b + (c + d));
    assert(a + b + c + d =~= a + b + (c + d));
    assert(a + b + c =~= a + (b + c));
}

#[verifier::rlimit(40)]
proof fn lemma_records_back(
    before: Seq<u8>,
    so_far: Seq<u8>,
    version: Seq<u8>,
    pieces: Seq<Seq<u8>>,
    whole: Seq<u8>,
    more: Seq<u8>,
)
    requires
        version.len() == 2,
        pieces.len() > 0,
        forall|i: int| 0 <= i < pieces.len() ==> 0 < (#[trigger] pieces[i]).len() <= 0xffff,
        so_far + all_pieces(pieces) == whole,
        handshake_hello(whole) is Some,
        forall|k: int| 0 <= k < whole.len() ==> handshake_hello(#[trigger] whole.take(k)) is None,
    ensures
        hello_in_records(
            before + record_bytes(version, pieces) + more,
            before.len() as int,
            so_far,
        ) == Some(
            (handshake_hello(whole)->0, (before + record_bytes(version, pieces)).len() as int),
        ),
    decreases pieces.len(),
{
    let piece = pieces[0];
    let tail = pieces.drop_first();
    let rest = record_bytes(version, tail);
    let head = seq![0x16u8] + version + behind_len16(piece);
    let now = so_far + piece;
    let none = Seq::<u8>::empty();
    assert(0 < pieces[0].len() <= 0xffff);
    assert(record_bytes(version, pieces) == head + rest);
    lemma_grouping(before, head, rest, more);
    lemma_one_record(before, so_far, version, piece, rest + more);
    assert(now + all_pieces(tail) == whole) by {
        lemma_grouping(so_far, piece, all_pieces(tail), none);
    }
    assert((before + head).len() == before.len() + 5 + piece.len());
    if tail.len() == 0 {
        assert(now + none =~= now);
        assert(rest =~= none);
    } else {
        assert(all_pieces(tail).len() > 0) by {
            assert(tail[0] == pieces[1]);
        }
        assert(now == whole.take(now.len() as int)) by {
            assert((now + all_pieces(tail)).take(now.len() as int) =~= now);
        }
        assert forall|i: int| 0 <= i < tail.len() implies 0 < (#[trigger] tail[i]).len()
            <= 0xffff by {
            assert(tail[i] == pieces[i + 1]);
        }
        lemma_records_back(before + head, now, version, tail, whole, more);
    }
}

/// Bytes that do not begin with a handshake record hold no ClientHello.
pub proof fn law_other_records_hold_no_hello(buf: Seq<u8>)
    requires
        buf.len() < 5 || buf[0] != 0x16,
    ensures
        hello_in_records(buf, 0, seq![]) is None,
{
}

proof fn lemma_cut8(s: Seq<u8>, rest: Seq<u8>, k: int)
    requires
        s.len() <= 255,
        0 <= k <= 1 + s.len() + rest.len(),
    ensures
        vec8((behind_len8(s) + rest).take(k)) == if k < 1 + s.len() {
            None
        } else {
            Some((s, rest.take(k - 1 - s.len())))
        },
{
    let cut = (behind_len8(s) + rest).take(k);
    if k > 0 {
        assert(cut[0] == s.len());
    }
    if k >= 1 + s.len() {
        assert(cut =~= behind_len8(s) + rest.take(k - 1 - s.len()));
        lemma_vec8(s, rest.take(k - 1 - s.len()));
    }
}

proof fn lemma_cut16(s: Seq<u8>, rest: Seq<u8>, k: int)
    requires
        s.len() <= 0xffff,
        0 <= k <= 2 + s.len() + rest.len(),
    ensures
        vec16((behind_len16(s) + rest).take(k)) == if k < 2 + s.len() {
            None
        } else {
            Some((s, rest.take(k - 2 - s.len())))
        },
{
    let all = behind_len16(s) + rest;
    let cut = all.take(k);
    if k >= 2 {
        lemma_vec16(s, rest);
        assert(be16(cut, 0) == be16(all, 0));
        assert(all =~= two_bytes(s.len() as int) + (s + rest));
        lemma_two_bytes(s.len() as int, s + rest);
    }
    if k >= 2 + s.len() {
        assert(cut =~= behind_len16(s) + rest.take(k - 2 - s.len()));
        lemma_vec16(s, rest.take(k - 2 - s.len()));
    }
}

/// A ClientHello of which bytes are missing at its end is none.
pub proof fn law_cut_hello_is_none(
    version_and_random: Seq<u8>,
    session_id: Seq<u8>,
    cipher_suites: Seq<u16>,
    compression: Seq<u8>,
    exts: Seq<(u16, Seq<u8>)>,
    k: int,
)
    requires
        hello_parts(version_and_random, session_id, cipher_suites, compression, exts),
        0 <= k < hello_bytes(
            version_and_random,
            session_id,
            cipher_suites,
            compression,
            exts,
        ).len(),
    ensures
        hello_body(
            hello_bytes(
                version_and_random,
                session_id,
                cipher_suites,
                compression,
                exts,
            ).take(k),
        ) is None,
{
    let ciphers = id_bytes(cipher_suites);
    let ext_bytes = extension_bytes(exts);
    let none = Seq::<u8>::empty();
    let body = hello_bytes(version_and_random, session_id, cipher_suites, compression, exts);
    let after_compression = behind_len16(ext_bytes) + none;
    let after_ciphers = behind_len8(compression) + after_compression;
    let after_session = behind_len16(ciphers) + after_ciphers;
    let from_session = behind_len8(session_id) + after_session;
    assert(behind_len16(ext_bytes) + none =~= behind_len16(ext_bytes));
    if k >= 34 {
        assert(body.take(k).skip(34) =~= from_session.take(k - 34));
        lemma_cut8(session_id, after_session, k - 34);
        let a = k - 34 - 1 - session_id.len();
        if a >= 0 {
            lemma_cut16(ciphers, after_ciphers, a);
            let b = a - 2 - ciphers.len();
            if b >= 0 {
                lemma_cut8(compression, after_compression, b);
                let c = b - 1 - compression.len();
                if c >= 0 {
                    lemma_cut16(ext_bytes, none, c);
                }
            }
        }
    }
}

} // verus!
