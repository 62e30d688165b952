//! What is offered upstream of a ClientHello: which ids are passed on and in what order, under
//! which names, and which authority a profile is found under.
use vstd::prelude::*;
use crate::number::{decimal, hex4, hex_digit, is_digit, lemma_decimal, without_plus};
use crate::text::{ascii_lowercase, join, last_of};
use crate::tls_hello::{
    all_ids, alpn_diff, alps_diff, ascending, at_most, debug_list, flag_diff, grease, hello_diffs,
    hex_commas, hex_list, ids_only_in, lemma_ascending, not_grease, only_in, opt_bool_word,
    plain_ids, protocol_texts, set_diff, some_grease, HelloView,
};
use crate::tls_mimic::{
    alps_for, authority_word, compiled, encrypted_scheme, h2, http11, name_list, observed,
    unbracketed, version_range, wide, word_of, words_of, AuthorityState, NameTable, ProfileView,
    TlsVersion,
};

verus! {

// ---------------------------------------------------------------------------
// Ids.
// ---------------------------------------------------------------------------

/// An id is GREASE where both of its bytes end in the hexadecimal digit `a`.
pub proof fn law_grease_ends_both_bytes(id: u16)
    ensures
        grease(id) <==> id % 16 == 10 && id / 256 % 16 == 10,
{
    assert(id & 0x0f0f == 0x0a0a <==> id % 16 == 10 && id / 256 % 16 == 10) by (bit_vector);
}

/// Of a list of ids all are passed on in their order, but for those that are GREASE.
pub proof fn law_grease_is_left_out(front: Seq<u16>, id: u16, back: Seq<u16>)
    ensures
        plain_ids(seq![]) == Seq::<u16>::empty(),
        id % 16 == 10 && id / 256 % 16 == 10 ==> plain_ids(front + seq![id] + back) == plain_ids(
            front + back,
        ),
        !(id % 16 == 10 && id / 256 % 16 == 10) ==> plain_ids(front + seq![id] + back) == plain_ids(
            front,
        ) + seq![id] + plain_ids(back),
{
    reveal(Seq::filter);
    law_grease_ends_both_bytes(id);
    lemma_plain_of_both(front, back);
    lemma_plain_of_both(front + seq![id], back);
    lemma_plain_of_both(front, seq![id]);
    assert(seq![id].drop_last() =~= seq![]);
    if grease(id) {
        assert(plain_ids(seq![id]) =~= seq![]);
        assert(plain_ids(front) + Seq::<u16>::empty() =~= plain_ids(front));
    } else {
        assert(plain_ids(seq![id]) =~= seq![id]);
    }
}

proof fn lemma_plain_of_both(a: Seq<u16>, b: Seq<u16>)
    ensures
        plain_ids(a + b) == plain_ids(a) + plain_ids(b),
    decreases b.len(),
{
    reveal(Seq::filter);
    if b.len() == 0 {
        assert(a + b =~= a);
        assert(plain_ids(a) + Seq::<u16>::empty() =~= plain_ids(a));
    } else {
        lemma_plain_of_both(a, b.drop_last());
        assert((a + b).drop_last() =~= a + b.drop_last());
        assert((a + b).last() == b.last());
        assert(plain_ids(a + b) =~= plain_ids(a) + plain_ids(b));
    }
}

/// A hello has GREASE where one of its cipher suites, extensions or groups is such an id.
pub proof fn law_hello_with_grease(hello: HelloView, i: int)
    ensures
        0 <= i < hello.cipher_suites.len() && hello.cipher_suites[i] % 16 == 10
            && hello.cipher_suites[i] / 256 % 16 == 10 ==> hello.grease(),
        0 <= i < hello.extensions.len() && hello.extensions[i] % 16 == 10 && hello.extensions[i]
            / 256 % 16 == 10 ==> hello.grease(),
        0 <= i < hello.groups.len() && hello.groups[i] % 16 == 10 && hello.groups[i] / 256 % 16
            == 10 ==> hello.grease(),
        plain_ids(hello.cipher_suites) == hello.cipher_suites && plain_ids(hello.extensions)
            == hello.extensions && plain_ids(hello.groups) == hello.groups ==> !hello.grease(),
{
    if 0 <= i < hello.cipher_suites.len() {
        law_grease_ends_both_bytes(hello.cipher_suites[i]);
    }
    if 0 <= i < hello.extensions.len() {
        law_grease_ends_both_bytes(hello.extensions[i]);
    }
    if 0 <= i < hello.groups.len() {
        law_grease_ends_both_bytes(hello.groups[i]);
    }
    lemma_all_plain(hello.cipher_suites);
    lemma_all_plain(hello.extensions);
    lemma_all_plain(hello.groups);
}

proof fn lemma_all_plain(ids: Seq<u16>)
    ensures
        plain_ids(ids) == ids ==> !some_grease(ids),
{
    if plain_ids(ids) == ids {
        assert forall|i: int| 0 <= i < ids.len() implies !grease(#[trigger] ids[i]) by {
            ids.lemma_filter_pred(not_grease(), i);
        }
    }
}

/// The extensions of an identity stand in ascending order, each as often as it was offered.
pub proof fn law_extensions_are_put_in_order(ids: Seq<u16>)
    ensures
        forall|i: int, j: int|
            0 <= i < j < ascending(ids).len() ==> #[trigger] ascending(ids)[i]
                <= #[trigger] ascending(ids)[j],
        ascending(ids).to_multiset() == ids.to_multiset(),
{
    lemma_ascending(ids);
    let s = ascending(ids);
    assert forall|i: int, j: int| 0 <= i < j < s.len() implies #[trigger] s[i]
        <= #[trigger] s[j] by {
        assert(at_most()(s[i], s[j]));
    }
}

/// An id is written as four hexadecimal digits, the highest first.
pub proof fn law_id_is_four_hex_digits(id: u16)
    ensures
        hex4(id).len() == 4,
        hex_place(hex4(id)[0]) * 4096 + hex_place(hex4(id)[1]) * 256 + hex_place(hex4(id)[2]) * 16
            + hex_place(hex4(id)[3]) == id,
        forall|i: int| 0 <= i < 4 ==> 0 <= #[trigger] hex_place(hex4(id)[i]) < 16,
{
    lemma_hex_place(id as int / 4096);
    lemma_hex_place(id as int / 256 % 16);
    lemma_hex_place(id as int / 16 % 16);
    lemma_hex_place(id as int % 16);
    let n = id as int;
    assert(n == n / 4096 * 4096 + n / 256 % 16 * 256 + n / 16 % 16 * 16 + n % 16) by {
        assert(n / 256 / 16 == n / 4096);
        assert(n / 16 / 16 == n / 256);
    }
    let s = hex4(id);
    assert forall|i: int| 0 <= i < 4 implies 0 <= #[trigger] hex_place(s[i]) < 16 by {
        assert(i == 0 || i == 1 || i == 2 || i == 3);
    }
}

/// The value of a hexadecimal digit, -1 for another character.
pub open spec fn hex_place(c: char) -> int {
    if '0' <= c <= '9' {
        c as int - '0' as int
    } else if 'a' <= c <= 'f' {
        c as int - 'a' as int + 10
    } else {
        -1
    }
}

proof fn lemma_hex_place(d: int)
    requires
        0 <= d < 16,
    ensures
        hex_place(hex_digit(d)) == d,
{
}

// ---------------------------------------------------------------------------
// Names.
// ---------------------------------------------------------------------------

/// The cipher suites that the TLS library has a name for, and their names; every other id has none.
pub proof fn law_named_ciphers(id: u16)
    ensures
        match word_of(NameTable::Ciphers, id) {
            Some(word) => {
                ||| id == 47 && word == "AES128-SHA"@
                ||| id == 53 && word == "AES256-SHA"@
                ||| id == 156 && word == "AES128-GCM-SHA256"@
                ||| id == 157 && word == "AES256-GCM-SHA384"@
                ||| id == 49161 && word == "ECDHE-ECDSA-AES128-SHA"@
                ||| id == 49162 && word == "ECDHE-ECDSA-AES256-SHA"@
                ||| id == 49171 && word == "ECDHE-RSA-AES128-SHA"@
                ||| id == 49172 && word == "ECDHE-RSA-AES256-SHA"@
                ||| id == 49195 && word == "ECDHE-ECDSA-AES128-GCM-SHA256"@
                ||| id == 49196 && word == "ECDHE-ECDSA-AES256-GCM-SHA384"@
                ||| id == 49199 && word == "ECDHE-RSA-AES128-GCM-SHA256"@
                ||| id == 49200 && word == "ECDHE-RSA-AES256-GCM-SHA384"@
                ||| id == 52392 && word == "ECDHE-RSA-CHACHA20-POLY1305"@
                ||| id == 52393 && word == "ECDHE-ECDSA-CHACHA20-POLY1305"@
            },
            None => {
                &&& id != 47
                &&& id != 53
                &&& id != 156
                &&& id != 157
                &&& id != 49161
                &&& id != 49162
                &&& id != 49171
                &&& id != 49172
                &&& id != 49195
                &&& id != 49196
                &&& id != 49199
                &&& id != 49200
                &&& id != 52392
                &&& id != 52393
            },
        },
{
}

/// The groups that the TLS library has a name for, and their names; every other id has none.
pub proof fn law_named_groups(id: u16)
    ensures
        match word_of(NameTable::Groups, id) {
            Some(word) => {
                ||| id == 23 && word == "P-256"@
                ||| id == 24 && word == "P-384"@
                ||| id == 25 && word == "P-521"@
                ||| id == 29 && word == "X25519"@
                ||| id == 30 && word == "X448"@
                ||| id == 256 && word == "ffdhe2048"@
                ||| id == 257 && word == "ffdhe3072"@
                ||| id == 4587 && word == "SecP256r1MLKEM768"@
                ||| id == 4588 && word == "X25519MLKEM768"@
                ||| id == 25497 && word == "X25519Kyber768Draft00"@
            },
            None => {
                &&& id != 23
                &&& id != 24
                &&& id != 25
                &&& id != 29
                &&& id != 30
                &&& id != 256
                &&& id != 257
                &&& id != 4587
                &&& id != 4588
                &&& id != 25497
            },
        },
{
}

/// The signature algorithms that the TLS library has a name for, and their names; every other id
/// has none.
pub proof fn law_named_signature_algorithms(id: u16)
    ensures
        match word_of(NameTable::Sigalgs, id) {
            Some(word) => {
                ||| id == 513 && word == "rsa_pkcs1_sha1"@
                ||| id == 515 && word == "ecdsa_sha1"@
                ||| id == 771 && word == "ecdsa_sha384"@
                ||| id == 1025 && word == "rsa_pkcs1_sha256"@
                ||| id == 1027 && word == "ecdsa_secp256r1_sha256"@
                ||| id == 1281 && word == "rsa_pkcs1_sha384"@
                ||| id == 1283 && word == "ecdsa_secp384r1_sha384"@
                ||| id == 1537 && word == "rsa_pkcs1_sha512"@
                ||| id == 1539 && word == "ecdsa_secp521r1_sha512"@
                ||| id == 2052 && word == "rsa_pss_rsae_sha256"@
                ||| id == 2053 && word == "rsa_pss_rsae_sha384"@
                ||| id == 2054 && word == "rsa_pss_rsae_sha512"@
                ||| id == 2055 && word == "ed25519"@
                ||| id == 2056 && word == "ed448"@
                ||| id == 2057 && word == "rsa_pss_pss_sha256"@
                ||| id == 2058 && word == "rsa_pss_pss_sha384"@
                ||| id == 2059 && word == "rsa_pss_pss_sha512"@
                ||| id == 2308 && word == "mldsa44"@
                ||| id == 2309 && word == "mldsa65"@
                ||| id == 2310 && word == "mldsa87"@
            },
            None => {
                &&& id != 513
                &&& id != 515
                &&& id != 771
                &&& id != 1025
                &&& id != 1027
                &&& id != 1281
                &&& id != 1283
                &&& id != 1537
                &&& id != 1539
                &&& id != 2052
                &&& id != 2053
                &&& id != 2054
                &&& id != 2055
                &&& id != 2056
                &&& id != 2057
                &&& id != 2058
                &&& id != 2059
                &&& id != 2308
                &&& id != 2309
                &&& id != 2310
            },
        },
{
}

/// The names of a list of ids stand in the order of the ids; an id without a name, and one that is
/// GREASE, leaves no trace.
pub proof fn law_names_stand_in_order(table: NameTable, front: Seq<u16>, id: u16, back: Seq<u16>)
    ensures
        word_of(table, id) is None || (id % 16 == 10 && id / 256 % 16 == 10) ==> name_list(
            table,
            front + seq![id] + back,
        ) == name_list(table, front + back),
        word_of(table, id) is Some && !(id % 16 == 10 && id / 256 % 16 == 10) ==> name_list(
            table,
            front + seq![id] + back,
        ) == join(
            words_of(table, plain_ids(front)) + seq![word_of(table, id)->0] + words_of(
                table,
                plain_ids(back),
            ),
            ":"@,
        ),
{
    law_grease_is_left_out(front, id, back);
    law_grease_ends_both_bytes(id);
    lemma_plain_of_both(front, back);
    lemma_words_of_both(table, plain_ids(front), plain_ids(back));
    lemma_words_of_both(table, plain_ids(front) + seq![id], plain_ids(back));
    lemma_words_of_both(table, plain_ids(front), seq![id]);
    reveal_with_fuel(words_of, 2);
    assert(seq![id].drop_last() =~= seq![]);
    if word_of(table, id) is None {
        assert(words_of(table, seq![id]) =~= seq![]);
        assert(words_of(table, plain_ids(front)) + Seq::<Seq<char>>::empty() =~= words_of(
            table,
            plain_ids(front),
        ));
    } else {
        assert(words_of(table, seq![id]) =~= seq![word_of(table, id)->0]);
    }
}

proof fn lemma_words_of_both(table: NameTable, a: Seq<u16>, b: Seq<u16>)
    ensures
        words_of(table, a + b) == words_of(table, a) + words_of(table, b),
    decreases b.len(),
{
    if b.len() == 0 {
        assert(a + b =~= a);
        assert(words_of(table, a) + Seq::<Seq<char>>::empty() =~= words_of(table, a));
    } else {
        lemma_words_of_both(table, a, b.drop_last());
        assert((a + b).drop_last() =~= a + b.drop_last());
        assert((a + b).last() == b.last());
        assert(words_of(table, a + b) =~= words_of(table, a) + words_of(table, b));
    }
}

/// TLS 1.2 and TLS 1.3 are offered upstream where the client offers them, and no other version.
pub proof fn law_versions_are_those_offered(versions: Seq<u16>)
    ensures
        version_range(versions) is None <==> !versions.contains(771) && !versions.contains(772),
        version_range(versions) is Some ==> {
            let (low, high) = version_range(versions)->0;
            &&& low == TlsVersion::Tls12 <==> versions.contains(771)
            &&& high == TlsVersion::Tls13 <==> versions.contains(772)
        },
{
}

/// Settings for HTTP/2 are offered where the client offers both them and HTTP/2, under the old
/// codepoint where it uses that one.
pub proof fn law_settings_need_h2(hello: HelloView)
    ensures
        alps_for(hello) is Some <==> hello.alpn.contains(seq![104u8, 50u8]) && (
        hello.extensions.contains(17513) || hello.extensions.contains(17613)),
        alps_for(hello) is Some ==> alps_for(hello)->0 == !hello.extensions.contains(17513),
{
}

// ---------------------------------------------------------------------------
// Authorities and profiles.
// ---------------------------------------------------------------------------

/// An authority with a port is its own key, in lowercase; to one without the port 443 is added.
pub proof fn law_authority_has_a_port(host: Seq<char>, port: u16)
    ensures
        authority_word(host + seq![':'] + decimal(port as nat)) == ascii_lowercase(host) + seq![':']
            + decimal(port as nat),
        !host.contains(':') ==> authority_word(host) == ascii_lowercase(host) + ":443"@,
        host.len() > 0 && host.last() == ']' ==> authority_word(host) == ascii_lowercase(host)
            + ":443"@,
{
    let digits = decimal(port as nat);
    lemma_decimal(port as nat);
    let all = host + seq![':'] + digits;
    let low = ascii_lowercase(host) + seq![':'] + digits;
    assert(ascii_lowercase(all) =~= low) by {
        assert forall|i: int| 0 <= i < all.len() implies ascii_lowercase(all)[i] == low[i] by {
            if i > host.len() {
                assert(is_digit(digits[i - host.len() - 1]));
            }
        }
    }
    assert(!digits.contains(':')) by {
        if digits.contains(':') {
            let i = choose|i: int| 0 <= i < digits.len() && digits[i] == ':';
            assert(is_digit(digits[i]));
        }
    }
    lemma_last_colon(ascii_lowercase(host), digits);
    assert(low.skip(host.len() as int + 1) =~= digits);
    assert(is_digit(digits[0]));
    assert(without_plus(digits) == digits);
    let h = ascii_lowercase(host);
    if !host.contains(':') {
        assert forall|i: int| 0 <= i < h.len() implies h[i] != ':' by {
            assert(host.contains(host[i]));
        }
        lemma_no_colon(h);
    }
    if host.len() > 0 && host.last() == ']' {
        lemma_last_of_place(h);
        let colon = last_of(h, ':');
        if colon >= 0 {
            let tail = h.skip(colon + 1);
            assert(h.last() == ']');
            assert(tail.last() == ']');
            assert(without_plus(tail).last() == ']');
            assert(!is_digit(without_plus(tail)[without_plus(tail).len() - 1]));
        }
    }
}

proof fn lemma_last_colon(s: Seq<char>, tail: Seq<char>)
    requires
        !tail.contains(':'),
    ensures
        last_of(s + seq![':'] + tail, ':') == s.len(),
    decreases tail.len(),
{
    let all = s + seq![':'] + tail;
    if tail.len() > 0 {
        assert(tail.contains(tail[tail.len() - 1]));
        let head = tail.drop_last();
        assert(!head.contains(':')) by {
            if head.contains(':') {
                let i = choose|i: int| 0 <= i < head.len() && head[i] == ':';
                assert(tail[i] == ':');
            }
        }
        assert(all.drop_last() =~= s + seq![':'] + head);
        lemma_last_colon(s, head);
    }
}

proof fn lemma_no_colon(s: Seq<char>)
    requires
        forall|i: int| 0 <= i < s.len() ==> s[i] != ':',
    ensures
        last_of(s, ':') < 0,
    decreases s.len(),
{
    if s.len() > 0 {
        lemma_no_colon(s.drop_last());
    }
}

proof fn lemma_last_of_place(s: Seq<char>)
    ensures
        last_of(s, ':') < s.len(),
        last_of(s, ':') >= 0 ==> s[last_of(s, ':')] == ':',
    decreases s.len(),
{
    if s.len() > 0 {
        lemma_last_of_place(s.drop_last());
    }
}

/// The brackets of an IPv6 address are taken off, and nothing else is.
pub proof fn law_brackets_are_taken_off(inner: Seq<char>, host: Seq<char>)
    ensures
        unbracketed(seq!['['] + inner + seq![']']) == inner,
        host.len() > 0 && (host[0] != '[' || host.last() != ']') ==> unbracketed(host) == host,
{
    let all = seq!['['] + inner + seq![']'];
    assert(all.subrange(1, all.len() - 1) =~= inner);
}

/// A hello is compiled unless the profile has its identity, or has HTTP/2 where the hello has not.
/// Each compilation has the number behind the last one, and the first has the number one.
pub proof fn law_new_hello_is_compiled<C>(state: AuthorityState<C>, hello: HelloView)
    ensures
        observed(state, hello).1 is None <==> {
            &&& state.profile is Some
            &&& {
                ||| state.profile->0.identity == hello.identity_key()
                ||| state.profile->0.hello.alpn.contains(seq![104u8, 50u8]) && !hello.alpn.contains(
                    seq![104u8, 50u8],
                )
            }
        },
        observed(state, hello).1 is None ==> observed(state, hello).0 == state,
        observed(state, hello).1 is Some ==> {
            let (after, n) = observed(state, hello);
            &&& after.profile == state.profile
            &&& after.revision == n
            &&& state.revision is None ==> n == Some(1u64)
            &&& state.revision is Some && state.revision->0 < u64::MAX ==> n->0
                == state.revision->0 + 1
            &&& state.revision is Some && state.revision->0 == u64::MAX ==> n == Some(0u64)
        },
{
}

/// The end of the last compilation that was begun puts its profile in place, or takes the profile
/// away where it failed; the end of any other changes nothing.
pub proof fn law_last_compilation_counts<C>(
    state: AuthorityState<C>,
    n: u64,
    profile: Option<ProfileView<C>>,
)
    ensures
        state.revision == Some(n) ==> compiled(state, n, profile).profile == profile,
        state.revision != Some(n) ==> compiled(state, n, profile).profile == state.profile,
        compiled(state, n, profile).revision == state.revision,
{
}

/// A WebSocket is encrypted under `wss` and `https`, and under no other scheme.
pub proof fn law_encrypted_schemes(scheme: Seq<char>)
    ensures
        encrypted_scheme(Some(scheme)) <==> scheme == "wss"@ || scheme == "https"@,
        !encrypted_scheme(None),
{
}

// ---------------------------------------------------------------------------
// Differences.
// ---------------------------------------------------------------------------

/// The ids that are missing are those of the first list that are not in the second, each once, in
/// ascending order.
pub proof fn law_missing_ids(a: Seq<u16>, b: Seq<u16>)
    ensures
        forall|id: u16|
            #[trigger] ids_only_in(a, b).contains(id) <==> a.contains(id) && !b.contains(id),
        forall|i: int, j: int|
            0 <= i < j < ids_only_in(a, b).len() ==> #[trigger] ids_only_in(a, b)[i]
                < #[trigger] ids_only_in(a, b)[j],
{
    let pred = only_in(a, b);
    let found = ids_only_in(a, b);
    assert forall|id: u16| #[trigger] found.contains(id) <==> a.contains(id) && !b.contains(
        id,
    ) by {
        if found.contains(id) {
            let i = choose|i: int| 0 <= i < found.len() && found[i] == id;
            all_ids().lemma_filter_pred(pred, i);
        }
        if a.contains(id) && !b.contains(id) {
            assert(all_ids()[id as int] == id);
            assert(all_ids().contains(id));
            all_ids().lemma_filter_contains(pred, id as int);
        }
    }
    lemma_filter_keeps_order(all_ids(), pred);
}

proof fn lemma_filter_keeps_order(s: Seq<u16>, pred: spec_fn(u16) -> bool)
    requires
        forall|i: int, j: int| 0 <= i < j < s.len() ==> s[i] < s[j],
    ensures
        forall|i: int, j: int|
            0 <= i < j < s.filter(pred).len() ==> s.filter(pred)[i] < s.filter(pred)[j],
        forall|j: int| 0 <= j < s.filter(pred).len() ==> s.contains(#[trigger] s.filter(pred)[j]),
    decreases s.len(),
{
    reveal(Seq::filter);
    if s.len() > 0 {
        let t = s.drop_last();
        lemma_filter_keeps_order(t, pred);
        let f = t.filter(pred);
        assert forall|j: int| 0 <= j < s.filter(pred).len() implies s.contains(
            #[trigger] s.filter(pred)[j],
        ) by {
            if j < f.len() {
                assert(t.contains(f[j]));
                let k = choose|k: int| 0 <= k < t.len() && t[k] == f[j];
                assert(s[k] == f[j]);
            } else {
                assert(s[s.len() - 1] == s.last());
            }
        }
        assert forall|j: int| 0 <= j < f.len() implies #[trigger] f[j] < s.last() by {
            assert(t.contains(f[j]));
            let k = choose|k: int| 0 <= k < t.len() && t[k] == f[j];
            assert(s[k] < s[s.len() - 1]);
        }
    }
}

/// Where two lists of ids differ, one line says what is missing in the second and what it has in
/// addition; GREASE does not count.
pub proof fn law_difference_names_both_sides(name: Seq<char>, a: Seq<u16>, b: Seq<u16>)
    ensures
        ({
            let missing = ids_only_in(plain_ids(a), plain_ids(b));
            let extra = ids_only_in(plain_ids(b), plain_ids(a));
            if missing.len() == 0 && extra.len() == 0 {
                set_diff(name, a, b).len() == 0
            } else {
                &&& set_diff(name, a, b).len() == 1
                &&& set_diff(name, a, b)[0] == name + ": missing_outbound="@ + hex_commas(missing)
                    + " extra_outbound="@ + hex_commas(extra)
                &&& set_diff(name, b, a)[0] == name + ": missing_outbound="@ + hex_commas(extra)
                    + " extra_outbound="@ + hex_commas(missing)
            }
        }),
{
}

/// Each part in which two hellos differ has its line among the differences.
pub proof fn law_each_difference_has_a_line(a: HelloView, b: HelloView)
    ensures
        ({
            let lines = hello_diffs(a, b);
            &&& holds_all(lines, set_diff("ciphers"@, a.cipher_suites, b.cipher_suites))
            &&& holds_all(lines, set_diff("extensions"@, a.extensions, b.extensions))
            &&& holds_all(lines, set_diff("groups"@, a.groups, b.groups))
            &&& holds_all(
                lines,
                set_diff("sigalgs"@, a.signature_algorithms, b.signature_algorithms),
            )
            &&& holds_all(lines, set_diff("key_share"@, a.key_share_groups, b.key_share_groups))
            &&& holds_all(
                lines,
                set_diff("supported_versions"@, a.supported_versions, b.supported_versions),
            )
            &&& holds_all(
                lines,
                set_diff("cert_compression"@, a.cert_compression, b.cert_compression),
            )
            &&& tells_flag(lines, "grease"@, a.grease(), b.grease())
            &&& tells_flag(
                lines,
                "ech"@,
                a.extensions.contains(65037),
                b.extensions.contains(65037),
            )
            &&& tells_flag(lines, "ocsp"@, a.extensions.contains(5), b.extensions.contains(5))
            &&& tells_flag(lines, "sct"@, a.extensions.contains(18), b.extensions.contains(18))
            &&& tells_flag(
                lines,
                "brotli_cert"@,
                a.cert_compression.contains(2),
                b.cert_compression.contains(2),
            )
        }),
{
    let l1 = set_diff("ciphers"@, a.cipher_suites, b.cipher_suites);
    let l2 = set_diff("extensions"@, a.extensions, b.extensions);
    let l3 = set_diff("groups"@, a.groups, b.groups);
    let l4 = set_diff("sigalgs"@, a.signature_algorithms, b.signature_algorithms);
    let l5 = set_diff("key_share"@, a.key_share_groups, b.key_share_groups);
    let l6 = set_diff("supported_versions"@, a.supported_versions, b.supported_versions);
    let l7 = set_diff("cert_compression"@, a.cert_compression, b.cert_compression);
    let l8 = alpn_diff(a.alpn, b.alpn);
    let l9 = flag_diff("grease"@, a.grease(), b.grease());
    let l10 = flag_diff("ech"@, a.extensions.contains(65037), b.extensions.contains(65037));
    let l11 = flag_diff("ocsp"@, a.extensions.contains(5), b.extensions.contains(5));
    let l12 = flag_diff("sct"@, a.extensions.contains(18), b.extensions.contains(18));
    let l13 = flag_diff(
        "brotli_cert"@,
        a.cert_compression.contains(2),
        b.cert_compression.contains(2),
    );
    let l14 = alps_diff(a.alps_new_codepoint(), b.alps_new_codepoint());
    let s7 = l1 + l2 + l3 + l4 + l5 + l6 + l7;
    let rest = l8 + l9 + l10 + l11 + l12 + l13 + l14;
    lemma_seven(l1, l2, l3, l4, l5, l6, l7);
    lemma_seven(l8, l9, l10, l11, l12, l13, l14);
    lemma_two_sevens(s7, l8, l9, l10, l11, l12, l13, l14);
    lemma_tells_flag("grease"@, a.grease(), b.grease());
    lemma_tells_flag("ech"@, a.extensions.contains(65037), b.extensions.contains(65037));
    lemma_tells_flag("ocsp"@, a.extensions.contains(5), b.extensions.contains(5));
    lemma_tells_flag("sct"@, a.extensions.contains(18), b.extensions.contains(18));
    lemma_tells_flag(
        "brotli_cert"@,
        a.cert_compression.contains(2),
        b.cert_compression.contains(2),
    );
    let lines = hello_diffs(a, b);
    assert(lines == s7 + rest);
    lemma_holds_in_sum(s7, rest);
    lemma_holds_through(lines, s7, l1);
    lemma_holds_through(lines, s7, l2);
    lemma_holds_through(lines, s7, l3);
    lemma_holds_through(lines, s7, l4);
    lemma_holds_through(lines, s7, l5);
    lemma_holds_through(lines, s7, l6);
    lemma_holds_through(lines, s7, l7);
    lemma_holds_through(lines, rest, l9);
    lemma_holds_through(lines, rest, l10);
    lemma_holds_through(lines, rest, l11);
    lemma_holds_through(lines, rest, l12);
    lemma_holds_through(lines, rest, l13);
    lemma_flag_told(lines, l9, "grease"@, a.grease(), b.grease());
    lemma_flag_told(
        lines,
        l10,
        "ech"@,
        a.extensions.contains(65037),
        b.extensions.contains(65037),
    );
    lemma_flag_told(lines, l11, "ocsp"@, a.extensions.contains(5), b.extensions.contains(5));
    lemma_flag_told(lines, l12, "sct"@, a.extensions.contains(18), b.extensions.contains(18));
    lemma_flag_told(
        lines,
        l13,
        "brotli_cert"@,
        a.cert_compression.contains(2),
        b.cert_compression.contains(2),
    );
}

/// Each of these lines stands among the others.
pub open spec fn holds_all(lines: Seq<Seq<char>>, some: Seq<Seq<char>>) -> bool {
    forall|i: int| 0 <= i < some.len() ==> lines.contains(#[trigger] some[i])
}

/// Where the two sides differ in what is named, a line says what it is on either side.
pub open spec fn tells_flag(
    lines: Seq<Seq<char>>,
    name: Seq<char>,
    inbound: bool,
    outbound: bool,
) -> bool {
    &&& inbound && !outbound ==> lines.contains(name + ": inbound="@ + "true"@ + " outbound="@
        + "false"@)
    &&& !inbound && outbound ==> lines.contains(name + ": inbound="@ + "false"@ + " outbound="@
        + "true"@)
}

proof fn lemma_tells_flag(name: Seq<char>, inbound: bool, outbound: bool)
    ensures
        tells_flag(flag_diff(name, inbound, outbound), name, inbound, outbound),
{
    let lines = flag_diff(name, inbound, outbound);
    if inbound != outbound {
        assert(lines.contains(lines[0]));
    }
}

proof fn lemma_flag_told(
    lines: Seq<Seq<char>>,
    some: Seq<Seq<char>>,
    name: Seq<char>,
    inbound: bool,
    outbound: bool,
)
    requires
        holds_all(lines, some),
        tells_flag(some, name, inbound, outbound),
    ensures
        tells_flag(lines, name, inbound, outbound),
{
    assert forall|line: Seq<char>| some.contains(line) implies lines.contains(line) by {
        let i = choose|i: int| 0 <= i < some.len() && some[i] == line;
        assert(lines.contains(some[i]));
    }
}

proof fn lemma_holds_in_sum(front: Seq<Seq<char>>, back: Seq<Seq<char>>)
    ensures
        holds_all(front + back, front),
        holds_all(front + back, back),
{
    let all = front + back;
    assert forall|i: int| 0 <= i < front.len() implies all.contains(#[trigger] front[i]) by {
        assert(all[i] == front[i]);
    }
    assert forall|i: int| 0 <= i < back.len() implies all.contains(#[trigger] back[i]) by {
        assert(all[front.len() + i] == back[i]);
    }
}

proof fn lemma_holds_through(
    lines: Seq<Seq<char>>,
    part: Seq<Seq<char>>,
    some: Seq<Seq<char>>,
)
    requires
        holds_all(lines, part),
        holds_all(part, some),
    ensures
        holds_all(lines, some),
{
    assert forall|i: int| 0 <= i < some.len() implies lines.contains(#[trigger] some[i]) by {
        let k = choose|k: int| 0 <= k < part.len() && part[k] == some[i];
        assert(lines.contains(part[k]));
    }
}

proof fn lemma_seven(
    l1: Seq<Seq<char>>,
    l2: Seq<Seq<char>>,
    l3: Seq<Seq<char>>,
    l4: Seq<Seq<char>>,
    l5: Seq<Seq<char>>,
    l6: Seq<Seq<char>>,
    l7: Seq<Seq<char>>,
)
    ensures
        ({
            let all = l1 + l2 + l3 + l4 + l5 + l6 + l7;
            &&& holds_all(all, l1)
            &&& holds_all(all, l2)
            &&& holds_all(all, l3)
            &&& holds_all(all, l4)
            &&& holds_all(all, l5)
            &&& holds_all(all, l6)
            &&& holds_all(all, l7)
        }),
{
    let s2 = l1 + l2;
    let s3 = s2 + l3;
    let s4 = s3 + l4;
    let s5 = s4 + l5;
    let s6 = s5 + l6;
    let s7 = s6 + l7;
    lemma_holds_in_sum(l1, l2);
    lemma_holds_in_sum(s2, l3);
    lemma_holds_in_sum(s3, l4);
    lemma_holds_in_sum(s4, l5);
    lemma_holds_in_sum(s5, l6);
    lemma_holds_in_sum(s6, l7);
    lemma_holds_through(s7, s6, l6);
    lemma_holds_through(s7, s6, s5);
    lemma_holds_through(s7, s5, l5);
    lemma_holds_through(s7, s5, s4);
    lemma_holds_through(s7, s4, l4);
    lemma_holds_through(s7, s4, s3);
    lemma_holds_through(s7, s3, l3);
    lemma_holds_through(s7, s3, s2);
    lemma_holds_through(s7, s2, l2);
    lemma_holds_through(s7, s2, l1);
}

proof fn lemma_two_sevens(
    front: Seq<Seq<char>>,
    l1: Seq<Seq<char>>,
    l2: Seq<Seq<char>>,
    l3: Seq<Seq<char>>,
    l4: Seq<Seq<char>>,
    l5: Seq<Seq<char>>,
    l6: Seq<Seq<char>>,
    l7: Seq<Seq<char>>,
)
    ensures
        front + l1 + l2 + l3 + l4 + l5 + l6 + l7 == front + (l1 + l2 + l3 + l4 + l5 + l6 + l7),
{
    assert(front + l1 + l2 + l3 + l4 + l5 + l6 + l7 =~= front + (l1 + l2 + l3 + l4 + l5 + l6 + l7));
}

/// A difference in the protocols, or in the settings for HTTP/2, has its line too.
pub proof fn law_other_differences_have_lines(a: HelloView, b: HelloView)
    ensures
        a.alpn != b.alpn ==> hello_diffs(a, b).contains(
            "alpn inbound="@ + debug_list(protocol_texts(a.alpn)) + " outbound="@ + debug_list(
                protocol_texts(b.alpn),
            ),
        ),
        settings_word(a) != settings_word(b) ==> hello_diffs(a, b).contains(
            "alps: inbound="@ + settings_word(a) + " outbound="@ + settings_word(b),
        ),
{
    lemma_words_of_settings(a);
    lemma_words_of_settings(b);
    let last = alps_diff(a.alps_new_codepoint(), b.alps_new_codepoint());
    let names = alpn_diff(a.alpn, b.alpn);
    let lines = hello_diffs(a, b);
    if settings_word(a) != settings_word(b) {
        assert(lines[lines.len() - 1] == last[0]);
        assert(lines.contains(lines[lines.len() - 1]));
    }
    if a.alpn != b.alpn {
        let k = (set_diff("ciphers"@, a.cipher_suites, b.cipher_suites).len() + set_diff(
            "extensions"@,
            a.extensions,
            b.extensions,
        ).len() + set_diff("groups"@, a.groups, b.groups).len() + set_diff(
            "sigalgs"@,
            a.signature_algorithms,
            b.signature_algorithms,
        ).len() + set_diff("key_share"@, a.key_share_groups, b.key_share_groups).len() + set_diff(
            "supported_versions"@,
            a.supported_versions,
            b.supported_versions,
        ).len() + set_diff("cert_compression"@, a.cert_compression, b.cert_compression).len()) as int;
        assert(lines[k] == names[0]);
        assert(lines.contains(lines[k]));
    }
}

/// Which codepoint the settings for HTTP/2 are offered under, in words.
pub open spec fn settings_word(hello: HelloView) -> Seq<char> {
    if hello.extensions.contains(17513) {
        "Some(false)"@
    } else if hello.extensions.contains(17613) {
        "Some(true)"@
    } else {
        "None"@
    }
}

proof fn lemma_words_of_settings(hello: HelloView)
    ensures
        opt_bool_word(hello.alps_new_codepoint()) == settings_word(hello),
{
}

/// The summary of a hello counts what is offered, without GREASE, and names the rest.
pub proof fn law_summary_counts_the_offer(hello: HelloView)
    ensures
        hello.summary() == "ciphers="@ + decimal(plain_ids(hello.cipher_suites).len()) + " ext="@
            + decimal(plain_ids(hello.extensions).len()) + " groups="@ + decimal(
            plain_ids(hello.groups).len(),
        ) + " sigalgs="@ + decimal(plain_ids(hello.signature_algorithms).len()) + " alpn=["@ + join(
            protocol_texts(hello.alpn),
            ","@,
        ) + "] shares="@ + hex_list(plain_ids(hello.key_share_groups)) + " grease="@ + (
        if hello.grease() {
            "true"@
        } else {
            "false"@
        }) + " ech="@ + (if hello.extensions.contains(65037) {
            "true"@
        } else {
            "false"@
        }) + " alps="@ + settings_word(hello),
{
    lemma_words_of_settings(hello);
}

/// The protocols are offered under their names in ASCII, and ids are passed on as the numbers that
/// they are.
pub proof fn law_protocols_have_their_names(ids: Seq<u16>, i: int)
    ensures
        h2().len() == 2 && http11().len() == 8,
        0 <= i < 2 ==> h2()[i] as char == "h2"@[i],
        0 <= i < 8 ==> http11()[i] as char == "http/1.1"@[i],
        wide(ids).len() == ids.len(),
        0 <= i < ids.len() ==> wide(ids)[i] == ids[i],
{
    reveal_strlit("h2");
    reveal_strlit("http/1.1");
    assert(http11()[0] == 104 && http11()[1] == 116 && http11()[2] == 116 && http11()[3] == 112
        && http11()[4] == 47 && http11()[5] == 49 && http11()[6] == 46 && http11()[7] == 49);
    if 0 <= i < 8 {
        assert(i == 0 || i == 1 || i == 2 || i == 3 || i == 4 || i == 5 || i == 6 || i == 7);
    }
}

} // verus!
