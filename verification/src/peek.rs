//! Watching the bytes that a client sends for the ClientHello behind a `CONNECT` request.
use vstd::prelude::*;
use vstd::slice::slice_to_vec;
use vstd::utf8::{decode_utf8, valid_utf8};
use crate::http_raw::{blank_line_at, find_subslice, position_of};
use crate::text::{
    begins_with, first_of, first_word, is_plain_word, law_next_word, lemma_first_of_is, next_word,
    opt_text, place_from, same, stands_at, trim_end_char, trim_start, utf8_text, without_trailing,
};
use crate::tls_hello::{
    extract_client_hello, hello_in_records, law_hello_is_kept_as_bytes_arrive, ClientHelloInfo,
    HelloView,
};

verus! {

/// How many bytes are kept for a ClientHello that is not complete.
pub const MAX_HELLO_BYTES: usize = 32_768;

/// What is known of the bytes that a client sent.
pub struct HelloPeek {
    pending: Vec<u8>,
    looking_for_hello: bool,
    seen_http_headers: bool,
    connect_authority: Option<String>,
}

/// The model of what is known.
#[verifier::ext_equal]
pub struct PeekView {
    /// The bytes that were not done with.
    pub pending: Seq<u8>,
    /// Whether a ClientHello can still come.
    pub looking_for_hello: bool,
    /// Whether the request before the TLS connection was read.
    pub seen_http_headers: bool,
    /// The authority that the client asked to be connected to.
    pub connect_authority: Option<Seq<char>>,
}

impl View for HelloPeek {
    type V = PeekView;

    closed spec fn view(&self) -> PeekView {
        PeekView {
            pending: self.pending@,
            looking_for_hello: self.looking_for_hello,
            seen_http_headers: self.seen_http_headers,
            connect_authority: opt_text(self.connect_authority),
        }
    }
}

/// Where the header block at the beginning of `buf` ends.
pub open spec fn double_crlf_end(buf: Seq<u8>) -> Option<int> {
    match place_from(buf, seq![13u8, 10, 13, 10], 0) {
        Some(i) => Some(i + 4),
        None => None,
    }
}

/// `CONNECT` and a blank.
pub open spec fn connect_word() -> Seq<u8> {
    seq![67u8, 79, 78, 78, 69, 67, 84, 32]
}

/// The second word of a first line that has `CONNECT` as its first and is UTF-8.
pub open spec fn authority_of(headers: Seq<u8>) -> Option<Seq<char>> {
    let line = headers.take(first_of(headers, 10u8) as int);
    if !valid_utf8(line) {
        None
    } else {
        match next_word(trim_end_char(decode_utf8(line), '\r')) {
            Some((word, rest)) => if word == "CONNECT"@ {
                match next_word(rest) {
                    Some((authority, _)) => Some(authority),
                    None => None,
                }
            } else {
                None
            },
            None => None,
        }
    }
}

/// What is known once a header block was found in `pending`, where none was before. After any
/// request but `CONNECT` no ClientHello can come.
pub open spec fn after_headers(state: PeekView) -> PeekView {
    match double_crlf_end(state.pending) {
        Some(end) => {
            let is_connect = begins_with(state.pending, connect_word());
            PeekView {
                pending: state.pending.skip(end),
                looking_for_hello: is_connect,
                seen_http_headers: true,
                connect_authority: if is_connect {
                    authority_of(state.pending.take(end))
                } else {
                    state.connect_authority
                },
            }
        },
        None => state,
    }
}

/// What is known once `pending` was searched for a ClientHello, and the hello.
pub open spec fn after_search(state: PeekView) -> (PeekView, Option<HelloView>) {
    if !state.looking_for_hello || !state.seen_http_headers || state.pending.len() == 0 {
        (state, None)
    } else if state.pending[0] != 0x16 {
        (PeekView { looking_for_hello: false, ..state }, None)
    } else {
        match hello_in_records(state.pending, 0, seq![]) {
            Some((hello, _)) => (
                PeekView { pending: seq![], looking_for_hello: false, ..state },
                Some(hello),
            ),
            None => if state.pending.len() > MAX_HELLO_BYTES {
                (PeekView { pending: seq![], looking_for_hello: false, ..state }, None)
            } else {
                (state, None)
            },
        }
    }
}

/// What is known after more bytes, and the ClientHello that they complete.
pub open spec fn after_chunk(state: PeekView, chunk: Seq<u8>) -> (PeekView, Option<HelloView>) {
    if !state.looking_for_hello {
        (state, None)
    } else {
        let more = PeekView { pending: state.pending + chunk, ..state };
        after_search(
            if more.seen_http_headers {
                more
            } else {
                after_headers(more)
            },
        )
    }
}

/// Where the header block at the beginning of `buf` ends.
pub fn find_double_crlf(buf: &[u8]) -> (r: Option<usize>)
    ensures
        match r {
            Some(end) => double_crlf_end(buf@) == Some(end as int) && end <= buf@.len(),
            None => double_crlf_end(buf@) is None,
        },
{
    let mark: [u8; 4] = [13, 10, 13, 10];
    assert(mark@ =~= seq![13u8, 10, 13, 10]);
    match find_subslice(buf, mark.as_slice()) {
        Some(i) => {
            assert(i + 4 <= buf.len());
            Some(i + 4)
        },
        None => None,
    }
}

/// The authority that a `CONNECT` request names.
pub fn parse_connect_authority(headers: &[u8]) -> (r: Option<String>)
    ensures
        opt_text(r) == authority_of(headers@),
{
    let n: usize = position_of(headers, 10);
    let line = &headers[0..n];
    assert(line@ =~= headers@.take(n as int));
    let text = match utf8_text(line) {
        Some(text) => without_trailing(text.as_str(), '\r'),
        None => return None,
    };
    match first_word(text.as_str()) {
        Some((word, rest)) => if same(word.as_str(), "CONNECT") {
            match first_word(rest.as_str()) {
                Some((authority, _)) => Some(authority),
                None => None,
            }
        } else {
            None
        },
        None => None,
    }
}

fn begins_with_connect(buf: &[u8]) -> (r: bool)
    ensures
        r == begins_with(buf@, connect_word()),
{
    let word: [u8; 8] = [67, 79, 78, 78, 69, 67, 84, 32];
    if buf.len() < 8 {
        return false;
    }
    let mut i: usize = 0;
    while i < 8
        invariant
            i <= 8 <= buf@.len(),
            word@ =~= connect_word(),
            forall|j: int| 0 <= j < i ==> buf@[j] == connect_word()[j],
        decreases 8 - i,
    {
        if buf[i] != word[i] {
            assert(buf@.take(8)[i as int] != connect_word()[i as int]);
            return false;
        }
        i = i + 1;
    }
    assert(buf@.take(8) =~= connect_word());
    true
}

impl HelloPeek {
    /// A client that has sent nothing.
    pub fn new() -> (r: Self)
        ensures
            r@ == (PeekView {
                pending: seq![],
                looking_for_hello: true,
                seen_http_headers: false,
                connect_authority: None,
            }),
    {
        let r = HelloPeek {
            pending: Vec::new(),
            looking_for_hello: true,
            seen_http_headers: false,
            connect_authority: None,
        };
        assert(r.pending@ =~= Seq::<u8>::empty());
        r
    }

    fn read_headers(&mut self)
        requires
            old(self)@.looking_for_hello,
            !old(self)@.seen_http_headers,
        ensures
            final(self)@ == after_headers(old(self)@),
    {
        if let Some(end) = find_double_crlf(self.pending.as_slice()) {
            self.seen_http_headers = true;
            let is_connect = begins_with_connect(self.pending.as_slice());
            if is_connect {
                let head = &self.pending.as_slice()[0..end];
                assert(head@ =~= self.pending@.take(end as int));
                self.connect_authority = parse_connect_authority(head);
            } else {
                self.looking_for_hello = false;
            }
            let rest = &self.pending.as_slice()[end..self.pending.len()];
            assert(rest@ =~= self.pending@.skip(end as int));
            self.pending = slice_to_vec(rest);
        }
    }

    fn search(&mut self) -> (r: Option<ClientHelloInfo>)
        ensures
            final(self)@ == after_search(old(self)@).0,
            match r {
                Some(hello) => after_search(old(self)@).1 == Some(hello@),
                None => after_search(old(self)@).1 is None,
            },
    {
        if !self.looking_for_hello || !self.seen_http_headers || self.pending.len() == 0 {
            return None;
        }
        if self.pending[0] != 0x16 {
            self.looking_for_hello = false;
            return None;
        }
        match extract_client_hello(self.pending.as_slice()) {
            Some((hello, _)) => {
                self.looking_for_hello = false;
                self.pending = Vec::new();
                assert(self.pending@ =~= Seq::<u8>::empty());
                Some(hello)
            },
            None => {
                if self.pending.len() > MAX_HELLO_BYTES {
                    self.looking_for_hello = false;
                    self.pending = Vec::new();
                    assert(self.pending@ =~= Seq::<u8>::empty());
                }
                None
            },
        }
    }

    /// Takes more bytes of the client. Gives the ClientHello that they complete, with the
    /// authority that the client asked to be connected to, where it is known.
    pub fn feed(&mut self, chunk: &[u8]) -> (r: Option<(String, ClientHelloInfo)>)
        ensures
            final(self)@ == after_chunk(old(self)@, chunk@).0,
            match r {
                Some((authority, hello)) => after_chunk(old(self)@, chunk@).1 == Some(hello@)
                    && final(self)@.connect_authority == Some(authority@),
                None => after_chunk(old(self)@, chunk@).1 is None
                    || final(self)@.connect_authority is None,
            },
    {
        if !self.looking_for_hello {
            return None;
        }
        let ghost before = self.pending@;
        self.pending.extend_from_slice(chunk);
        assert(self.pending@ =~= before + chunk@);
        if !self.seen_http_headers {
            self.read_headers();
        }
        match self.search() {
            Some(hello) => match &self.connect_authority {
                Some(authority) => Some((authority.clone(), hello)),
                None => None,
            },
            None => None,
        }
    }
}

/// A connection gives one ClientHello at most: after it nothing is searched any more.
pub proof fn law_one_hello_for_a_connection(state: PeekView, chunk: Seq<u8>, later: Seq<u8>)
    requires
        after_chunk(state, chunk).1 is Some,
    ensures
        after_chunk(after_chunk(state, chunk).0, later) == (
            after_chunk(state, chunk).0,
            None::<HelloView>,
        ),
{
}

/// Behind any request but `CONNECT` no ClientHello is searched for.
pub proof fn law_only_connect_is_followed_by_hello(state: PeekView, chunk: Seq<u8>, later: Seq<u8>)
    requires
        state.looking_for_hello,
        !state.seen_http_headers,
        double_crlf_end(state.pending + chunk) is Some,
        !begins_with(state.pending + chunk, connect_word()),
    ensures
        after_chunk(state, chunk).1 is None,
        after_chunk(after_chunk(state, chunk).0, later).1 is None,
{
}

/// The bytes that are given to the search do not depend on how they were cut: what one chunk tells,
/// two tell together, as long as no more bytes wait than are kept.
pub proof fn law_chunks_do_not_matter(state: PeekView, a: Seq<u8>, b: Seq<u8>)
    requires
        state.pending.len() + a.len() + b.len() <= 32768,
    ensures
        ({
            let (middle, early) = after_chunk(state, a);
            let (end, late) = after_chunk(middle, b);
            let (whole, found) = after_chunk(state, a + b);
            &&& found == if early is Some {
                early
            } else {
                late
            }
            &&& whole.connect_authority == end.connect_authority
            &&& whole.looking_for_hello == end.looking_for_hello
            &&& whole.seen_http_headers == end.seen_http_headers
        }),
{
    let p = state.pending + a;
    assert(state.pending + (a + b) =~= p + b);
    if state.looking_for_hello {
        if state.seen_http_headers {
            let more = PeekView { pending: p, ..state };
            lemma_search_goes_on(more, b);
        } else {
            lemma_place_bounds(p, seq![13u8, 10, 13, 10], 0);
            match place_from(p, seq![13u8, 10, 13, 10], 0) {
                Some(i) => {
                    lemma_place_is_kept(p, b, seq![13u8, 10, 13, 10], 0);
                    let end = i + 4;
                    assert((p + b).take(end) =~= p.take(end));
                    assert((p + b).skip(end) =~= p.skip(end) + b);
                    let word = connect_word();
                    assert(begins_with(p, word) == begins_with(p + b, word)) by {
                        lemma_connect_word_before_end(p, b, i);
                    }
                    let more = after_headers(PeekView { pending: p, ..state });
                    lemma_search_goes_on(more, b);
                },
                None => {},
            }
        }
    }
}

/// A header block that is not whole leaves all as it was; one that is whole begins with the same
/// word however many bytes follow it.
proof fn lemma_connect_word_before_end(p: Seq<u8>, b: Seq<u8>, i: int)
    requires
        place_from(p, seq![13u8, 10, 13, 10], 0) == Some(i),
        0 <= i,
        i + 4 <= p.len(),
    ensures
        begins_with(p, connect_word()) == begins_with(p + b, connect_word()),
{
    let word = connect_word();
    if p.len() >= 8 {
        assert((p + b).take(8) =~= p.take(8));
    } else {
        let mark = seq![13u8, 10, 13, 10];
        lemma_place_stands(p, mark, 0);
        assert(p.subrange(i, i + 4)[0] == 13);
        assert(p[i] == 13);
        if begins_with(p + b, word) {
            assert((p + b).take(8)[i] == 13);
            assert(word[i] != 13);
        }
    }
}

proof fn lemma_place_stands(s: Seq<u8>, part: Seq<u8>, from: int)
    requires
        0 <= from,
    ensures
        match place_from(s, part, from) {
            Some(i) => stands_at(s, part, i),
            None => true,
        },
    decreases s.len() - from + 1,
{
    if from + part.len() <= s.len() && !stands_at(s, part, from) {
        lemma_place_stands(s, part, from + 1);
    }
}

proof fn lemma_place_bounds(s: Seq<u8>, part: Seq<u8>, from: int)
    requires
        0 <= from,
    ensures
        match place_from(s, part, from) {
            Some(i) => from <= i && i + part.len() <= s.len(),
            None => true,
        },
    decreases s.len() - from + 1,
{
    if from + part.len() <= s.len() && !stands_at(s, part, from) {
        lemma_place_bounds(s, part, from + 1);
    }
}

proof fn lemma_place_is_kept(s: Seq<u8>, more: Seq<u8>, part: Seq<u8>, from: int)
    requires
        0 <= from,
        place_from(s, part, from) is Some,
    ensures
        place_from(s + more, part, from) == place_from(s, part, from),
    decreases s.len() - from + 1,
{
    assert((s + more).subrange(from, from + part.len()) =~= s.subrange(from, from + part.len()));
    if !stands_at(s, part, from) {
        lemma_place_is_kept(s, more, part, from + 1);
    }
}

/// A search that goes on with more bytes ends as one with all bytes at once.
proof fn lemma_search_goes_on(more: PeekView, b: Seq<u8>)
    requires
        more.seen_http_headers,
        more.pending.len() <= MAX_HELLO_BYTES,
    ensures
        ({
            let (middle, early) = after_search(more);
            let (end, late) = after_chunk(middle, b);
            let (whole, found) = after_search(
                PeekView { pending: more.pending + b, ..more },
            );
            &&& found == if early is Some {
                early
            } else {
                late
            }
            &&& whole.connect_authority == end.connect_authority
            &&& whole.looking_for_hello == end.looking_for_hello
            &&& whole.seen_http_headers == end.seen_http_headers
        }),
{
    if more.looking_for_hello && more.pending.len() > 0 {
        assert((more.pending + b)[0] == more.pending[0]);
        if more.pending[0] == 0x16 && hello_in_records(more.pending, 0, seq![]) is Some {
            law_hello_is_kept_as_bytes_arrive(more.pending, b);
        }
    }
}

/// Behind a whole `CONNECT` request the ClientHello is found that the bytes behind it hold, and the
/// authority is the one that the request names.
pub proof fn law_hello_behind_connect_is_found(
    state: PeekView,
    request: Seq<u8>,
    records: Seq<u8>,
)
    requires
        state.looking_for_hello,
        !state.seen_http_headers,
        state.pending.len() == 0,
        request.len() >= 12,
        request.take(8) == seq![67u8, 79, 78, 78, 69, 67, 84, 32],
        blank_line_at(request, request.len() - 4),
        forall|i: int|
            0 <= i < request.len() - 4 ==> !#[trigger] blank_line_at(request + records, i),
        records.len() > 0,
        records[0] == 0x16,
        hello_in_records(records, 0, seq![]) is Some,
    ensures
        ({
            let (after, hello) = after_chunk(state, request + records);
            &&& hello == Some((hello_in_records(records, 0, seq![])->0).0)
            &&& after.connect_authority == authority_of(request)
            &&& !after.looking_for_hello
        }),
{
    let all = request + records;
    let n = request.len() - 4;
    let mark = seq![13u8, 10, 13, 10];
    assert(state.pending + all =~= all);
    assert forall|i: int| 0 <= i < n implies !#[trigger] stands_at(all, mark, i) by {
        if stands_at(all, mark, i) {
            let w = all.subrange(i, i + 4);
            assert(w[0] == 13 && w[1] == 10 && w[2] == 13 && w[3] == 10);
            assert(blank_line_at(all, i));
        }
    }
    assert(all.subrange(n, n + 4) =~= mark);
    lemma_place_found(all, mark, 0, n);
    assert(all.take(8) =~= request.take(8));
    assert(connect_word() =~= seq![67u8, 79, 78, 78, 69, 67, 84, 32]);
    assert(all.take(n + 4) =~= request);
    assert(all.skip(n + 4) =~= records);
}

proof fn lemma_place_found(s: Seq<u8>, part: Seq<u8>, from: int, at: int)
    requires
        0 <= from <= at,
        stands_at(s, part, at),
        forall|i: int| from <= i < at ==> !#[trigger] stands_at(s, part, i),
    ensures
        place_from(s, part, from) == Some(at),
    decreases at - from,
{
    if from < at {
        lemma_place_found(s, part, from + 1, at);
    }
}

/// The authority of a `CONNECT` request is the second word of its first line; another method, or a
/// line without a second word, names none.
pub proof fn law_authority_is_the_second_word(
    headers: Seq<u8>,
    line: Seq<u8>,
    rest: Seq<u8>,
    method: Seq<char>,
    authority: Seq<char>,
    behind: Seq<char>,
)
    requires
        headers == line + seq![10u8] + rest,
        !line.contains(10),
        valid_utf8(line),
        trim_end_char(decode_utf8(line), '\r') == method + seq![' '] + authority + behind,
        is_plain_word(method),
        is_plain_word(authority),
        behind.len() == 0 || behind[0] == ' ',
    ensures
        method == "CONNECT"@ ==> authority_of(headers) == Some(authority),
        method != "CONNECT"@ ==> authority_of(headers) is None,
{
    assert forall|j: int| 0 <= j < line.len() implies headers[j] != 10 by {
        assert(headers[j] == line[j]);
        assert(line.contains(line[j]));
    }
    lemma_first_of_is(headers, 10u8, line.len() as int);
    assert(headers.take(line.len() as int) =~= line);
    law_next_word(method, seq![' '] + authority + behind);
    assert(method + seq![' '] + authority + behind =~= method + (seq![' '] + authority + behind));
    let tail = seq![' '] + authority + behind;
    assert(tail.drop_first() =~= authority + behind);
    law_next_word(authority, behind);
    assert(trim_start(tail) == trim_start(authority + behind));
    assert((authority + behind)[0] == authority[0]);
}

/// Bytes that are no handshake record end the search at once.
pub proof fn law_other_bytes_end_the_search(state: PeekView, chunk: Seq<u8>)
    requires
        state.looking_for_hello,
        state.seen_http_headers,
        (state.pending + chunk).len() > 0,
        (state.pending + chunk)[0] != 0x16,
    ensures
        after_chunk(state, chunk).1 is None,
        !after_chunk(state, chunk).0.looking_for_hello,
{
}

/// A ClientHello that is not whole after 32768 bytes is given up, and its bytes are let go.
pub proof fn law_endless_hello_is_given_up(state: PeekView, chunk: Seq<u8>)
    requires
        state.looking_for_hello,
        state.seen_http_headers,
        (state.pending + chunk).len() > 32768,
        hello_in_records(state.pending + chunk, 0, seq![]) is None,
    ensures
        after_chunk(state, chunk).1 is None,
        !after_chunk(state, chunk).0.looking_for_hello,
{
}

/// While the ClientHello is not whole, and no more than 32768 bytes wait, all bytes are kept; once
/// it was found, or given up, none are, and no further byte is looked at.
pub proof fn law_bytes_wait_for_the_rest(state: PeekView, chunk: Seq<u8>)
    requires
        state.seen_http_headers,
    ensures
        !state.looking_for_hello ==> after_chunk(state, chunk) == (state, None::<HelloView>),
        ({
            let all = state.pending + chunk;
            let (after, hello) = after_chunk(state, chunk);
            state.looking_for_hello && all.len() > 0 && all[0] == 0x16 ==> {
                &&& hello_in_records(all, 0, seq![]) is Some ==> hello == Some(
                    (hello_in_records(all, 0, seq![])->0).0,
                ) && after.pending.len() == 0 && !after.looking_for_hello
                &&& hello_in_records(all, 0, seq![]) is None && all.len() <= 32768 ==> hello
                    is None && after.pending == all && after.looking_for_hello
                &&& hello_in_records(all, 0, seq![]) is None && all.len() > 32768 ==> hello is None
                    && after.pending.len() == 0 && !after.looking_for_hello
            }
        }),
        after_chunk(state, chunk).0.connect_authority == state.connect_authority,
{
}

/// Bytes are kept until a header block is whole; behind any request but `CONNECT` no ClientHello is
/// looked for.
pub proof fn law_headers_are_waited_for(state: PeekView, chunk: Seq<u8>)
    requires
        state.looking_for_hello,
        !state.seen_http_headers,
    ensures
        ({
            let all = state.pending + chunk;
            let (after, hello) = after_chunk(state, chunk);
            &&& (forall|i: int| !#[trigger] blank_line_at(all, i)) ==> hello is None
                && after.pending == all && after.looking_for_hello && !after.seen_http_headers
            &&& (exists|i: int| 0 <= i <= all.len() - 4 && #[trigger] blank_line_at(all, i))
                && !begins_with(all, seq![67u8, 79, 78, 78, 69, 67, 84, 32]) ==> hello is None
                && !after.looking_for_hello
        }),
{
    let all = state.pending + chunk;
    let mark = seq![13u8, 10, 13, 10];
    assert(connect_word() =~= seq![67u8, 79, 78, 78, 69, 67, 84, 32]);
    lemma_place_stands(all, mark, 0);
    match place_from(all, mark, 0) {
        Some(i) => {
            let w = all.subrange(i, i + 4);
            assert(w[0] == 13 && w[1] == 10 && w[2] == 13 && w[3] == 10);
            assert(blank_line_at(all, i));
        },
        None => {
            if exists|i: int| 0 <= i <= all.len() - 4 && #[trigger] blank_line_at(all, i) {
                let i = choose|i: int| 0 <= i <= all.len() - 4 && #[trigger] blank_line_at(all, i);
                assert(all.subrange(i, i + 4) =~= mark);
                lemma_place_is_somewhere(all, mark, 0, i);
            }
        },
    }
}

proof fn lemma_place_is_somewhere(s: Seq<u8>, part: Seq<u8>, from: int, at: int)
    requires
        0 <= from <= at,
        stands_at(s, part, at),
    ensures
        place_from(s, part, from) is Some,
    decreases at - from,
{
    if from < at && !stands_at(s, part, from) {
        lemma_place_is_somewhere(s, part, from + 1, at);
    }
}

} // verus!
