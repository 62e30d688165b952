//! HTTP messages as raw bytes: the header block and the body, header values, the first line,
//! and the form in which a message is kept on disk.
use vstd::prelude::*;
use vstd::slice::slice_to_vec;
use vstd::string::StringExecFns;
use crate::number::{parse_u16, parsed_u16};
use crate::text::{
    begins_with, chars_of, find_char, first_of, first_word, is_plain_word, law_next_word,
    lemma_first_of, lemma_first_of_is, lowercase, next_word, opt_text, place_from, same,
    split_char, split_on, stands_at, starts_with, text_of, texts, trim, trim_end_char, trimmed,
    without_trailing,
};

verus! {

/// A message cut into its header block, with the line that ends it, and its body.
pub struct HeaderBodySplit<'a> {
    pub headers_raw: &'a [u8],
    pub body_raw: &'a [u8],
}

// ---------------------------------------------------------------------------
// Where the header block ends.
// ---------------------------------------------------------------------------

/// The line without one carriage return at its end.
pub open spec fn without_return(line: Seq<u8>) -> Seq<u8> {
    if line.len() > 0 && line.last() == 13 {
        line.drop_last()
    } else {
        line
    }
}

/// A byte that may stand in a header name.
pub open spec fn name_byte(b: u8) -> bool {
    0x21 <= b <= 0x7e || b == 9
}

/// A line that has a header name, one byte at least, before its first colon.
pub open spec fn field_line(line: Seq<u8>) -> bool {
    let colon = first_of(line, 58u8) as int;
    &&& 0 < colon < line.len()
    &&& forall|i: int| 0 <= i < colon ==> name_byte(#[trigger] line[i])
}

/// The length of a header block that no blank line marks off, read line by line from `start`:
/// it ends before the first line behind the first that is no header field, or behind the first
/// empty line. A last line without a line feed belongs to the body.
pub open spec fn unmarked_header_len(raw: Seq<u8>, start: int, first: bool) -> Option<int>
    decreases raw.len() - start,
{
    if start < 0 || start >= raw.len() {
        None
    } else {
        let rest = raw.skip(start);
        let n = first_of(rest, 10u8) as int;
        let line = without_return(rest.take(n));
        if n >= rest.len() {
            if first {
                None
            } else {
                Some(start)
            }
        } else if line.len() == 0 {
            Some(start + n + 1)
        } else if !first && !field_line(line) {
            Some(start)
        } else {
            unmarked_header_len(raw, start + n + 1, false)
        }
    }
}

/// The length of the header block of a message, with the blank line that ends it.
pub open spec fn header_len(raw: Seq<u8>) -> Option<int> {
    match place_from(raw, seq![13u8, 10, 13, 10], 0) {
        Some(i) => Some(i + 4),
        None => match place_from(raw, seq![10u8, 10], 0) {
            Some(i) => Some(i + 2),
            None => unmarked_header_len(raw, 0, true),
        },
    }
}

/// What a split of `raw` says of the length of the header block.
pub open spec fn splits_at(raw: Seq<u8>, r: Option<HeaderBodySplit<'_>>, n: Option<int>) -> bool {
    match r {
        Some(s) => {
            &&& n is Some
            &&& 0 <= n->0 <= raw.len()
            &&& s.headers_raw@ == raw.take(n->0)
            &&& s.body_raw@ == raw.skip(n->0)
        },
        None => n is None,
    }
}

/// The first position where `needle` stands in `haystack`.
pub fn find_subslice(haystack: &[u8], needle: &[u8]) -> (r: Option<usize>)
    requires
        needle@.len() > 0,
    ensures
        match r {
            Some(i) => place_from(haystack@, needle@, 0) == Some(i as int) && i + needle@.len()
                <= haystack@.len(),
            None => place_from(haystack@, needle@, 0) is None,
        },
{
    let mut i: usize = 0;
    while i < haystack.len() && haystack.len() - i >= needle.len()
        invariant
            i <= haystack@.len(),
            needle@.len() > 0,
            place_from(haystack@, needle@, 0) == place_from(haystack@, needle@, i as int),
        decreases haystack@.len() - i,
    {
        if same_bytes(&haystack[i..i + needle.len()], needle) {
            assert(stands_at(haystack@, needle@, i as int));
            return Some(i);
        }
        i = i + 1;
    }
    None
}

fn same_bytes(a: &[u8], b: &[u8]) -> (r: bool)
    ensures
        r == (a@ == b@),
{
    if a.len() != b.len() {
        return false;
    }
    let mut i: usize = 0;
    while i < a.len()
        invariant
            i <= a@.len(),
            a@.len() == b@.len(),
            forall|j: int| 0 <= j < i ==> a@[j] == b@[j],
        decreases a@.len() - i,
    {
        if a[i] != b[i] {
            return false;
        }
        i = i + 1;
    }
    assert(a@ =~= b@);
    true
}

/// The first position of a byte, or the length where it is not there.
pub fn position_of(bytes: &[u8], b: u8) -> (r: usize)
    ensures
        r == first_of(bytes@, b),
        r <= bytes@.len(),
        r < bytes@.len() ==> bytes@[r as int] == b,
        forall|j: int| 0 <= j < r ==> bytes@[j] != b,
{
    let mut i: usize = 0;
    while i < bytes.len() && bytes[i] != b
        invariant
            i <= bytes@.len(),
            forall|j: int| 0 <= j < i ==> bytes@[j] != b,
        decreases bytes@.len() - i,
    {
        i = i + 1;
    }
    proof {
        lemma_first_of_is(bytes@, b, i as int);
    }
    i
}

fn trim_line_ending(line: &[u8]) -> (r: &[u8])
    ensures
        r@ == without_return(line@),
{
    if line.len() > 0 && line[line.len() - 1] == 13 {
        let r = &line[0..line.len() - 1];
        assert(r@ =~= line@.drop_last());
        r
    } else {
        line
    }
}

fn is_header_field_line(line: &[u8]) -> (r: bool)
    ensures
        r == field_line(line@),
{
    let colon: usize = position_of(line, 58);
    if colon == 0 || colon == line.len() {
        return false;
    }
    let mut i: usize = 0;
    while i < colon
        invariant
            i <= colon < line@.len(),
            colon == first_of(line@, 58u8),
            forall|j: int| 0 <= j < i ==> name_byte(#[trigger] line@[j]),
        decreases colon - i,
    {
        let b: u8 = line[i];
        if !((0x21 <= b && b <= 0x7e) || b == 9) {
            assert(!name_byte(line@[i as int]));
            return false;
        }
        i = i + 1;
    }
    true
}

fn split_at(raw: &[u8], n: usize) -> (r: HeaderBodySplit<'_>)
    requires
        n <= raw@.len(),
    ensures
        r.headers_raw@ == raw@.take(n as int),
        r.body_raw@ == raw@.skip(n as int),
{
    let headers_raw = &raw[0..n];
    let body_raw = &raw[n..raw.len()];
    assert(headers_raw@ =~= raw@.take(n as int));
    assert(body_raw@ =~= raw@.skip(n as int));
    HeaderBodySplit { headers_raw, body_raw }
}

/// The split of a message whose header block is followed directly by the body.
fn split_headers_and_body_without_blank_line(raw: &[u8]) -> (r: Option<HeaderBodySplit<'_>>)
    ensures
        splits_at(raw@, r, unmarked_header_len(raw@, 0, true)),
{
    let mut line_start: usize = 0;
    let mut first_line = true;
    while line_start < raw.len()
        invariant
            line_start <= raw@.len(),
            unmarked_header_len(raw@, 0, true) == unmarked_header_len(
                raw@,
                line_start as int,
                first_line,
            ),
        decreases raw@.len() - line_start,
    {
        let rest = &raw[line_start..raw.len()];
        assert(rest@ =~= raw@.skip(line_start as int));
        let n: usize = position_of(rest, 10);
        if n == rest.len() {
            if first_line {
                return None;
            }
            return Some(split_at(raw, line_start));
        }
        let whole = &rest[0..n];
        assert(whole@ =~= rest@.take(n as int));
        let line = trim_line_ending(whole);
        assert(line_start + n + 1 <= raw.len());
        let next: usize = line_start + n + 1;
        if line.len() == 0 {
            return Some(split_at(raw, next));
        }
        if !first_line && !is_header_field_line(line) {
            return Some(split_at(raw, line_start));
        }
        first_line = false;
        line_start = next;
    }
    None
}

/// Cuts a message into its header block, with the line that ends it, and its body.
pub fn split_headers_and_body(raw: &[u8]) -> (r: Option<HeaderBodySplit<'_>>)
    ensures
        splits_at(raw@, r, header_len(raw@)),
{
    let crlf: [u8; 4] = [13, 10, 13, 10];
    let lf: [u8; 2] = [10, 10];
    assert(crlf@ =~= seq![13u8, 10, 13, 10]);
    assert(lf@ =~= seq![10u8, 10]);
    if let Some(i) = find_subslice(raw, crlf.as_slice()) {
        assert(i + 4 <= raw.len());
        return Some(split_at(raw, i + 4));
    }
    if let Some(i) = find_subslice(raw, lf.as_slice()) {
        assert(i + 2 <= raw.len());
        return Some(split_at(raw, i + 2));
    }
    split_headers_and_body_without_blank_line(raw)
}

// ---------------------------------------------------------------------------
// Header values.
// ---------------------------------------------------------------------------

/// Bytes read as Latin-1: each is the character with its number.
pub open spec fn latin1(bytes: Seq<u8>) -> Seq<char> {
    Seq::new(bytes.len(), |i: int| bytes[i] as char)
}

/// Characters written as Latin-1: each is the byte with the low eight bits of its number.
pub open spec fn latin1_encoded(text: Seq<char>) -> Seq<u8> {
    Seq::new(text.len(), |i: int| text[i] as u8)
}

/// Each line without the carriage returns at its end.
pub open spec fn without_returns(lines: Seq<Seq<char>>) -> Seq<Seq<char>> {
    Seq::new(lines.len(), |i: int| trim_end_char(lines[i], '\r'))
}

/// The list without its last line, where that is empty.
pub open spec fn without_last_empty(lines: Seq<Seq<char>>) -> Seq<Seq<char>> {
    if lines.len() > 0 && lines.last().len() == 0 {
        lines.drop_last()
    } else {
        lines
    }
}

/// The lines of a header block.
pub open spec fn lines_of(raw: Seq<u8>) -> Seq<Seq<char>> {
    without_last_empty(without_returns(split_on(latin1(raw), '\n')))
}

/// The name and the value of a header line, where it has both. The name of a pseudo header keeps
/// the colon that it begins with.
pub open spec fn header_parts(line: Seq<char>) -> Option<(Seq<char>, Seq<char>)> {
    if line.len() > 0 && line[0] == ':' {
        let rest = line.skip(1);
        let colon = first_of(rest, ':') as int;
        if colon < rest.len() {
            Some((":"@ + rest.take(colon), trim(rest.skip(colon + 1))))
        } else {
            None
        }
    } else {
        let colon = first_of(line, ':') as int;
        if colon < line.len() {
            Some((trim(line.take(colon)), trim(line.skip(colon + 1))))
        } else {
            None
        }
    }
}

/// The header fields that the lines hold, in their order, with the names in lowercase.
pub open spec fn fields_of(lines: Seq<Seq<char>>) -> Seq<(Seq<char>, Seq<char>)>
    decreases lines.len(),
{
    if lines.len() == 0 {
        seq![]
    } else {
        match header_parts(lines.last()) {
            Some((name, value)) => fields_of(lines.drop_last()).push((lowercase(name), value)),
            None => fields_of(lines.drop_last()),
        }
    }
}

/// The value of the first field with this name.
pub open spec fn first_value(fields: Seq<(Seq<char>, Seq<char>)>, name: Seq<char>) -> Option<
    Seq<char>,
>
    decreases fields.len(),
{
    if fields.len() == 0 {
        None
    } else if fields[0].0 == name {
        Some(fields[0].1)
    } else {
        first_value(fields.drop_first(), name)
    }
}

/// The value of a header, whatever the case of its name.
pub open spec fn header_of(headers_raw: Seq<u8>, name: Seq<char>) -> Option<Seq<char>> {
    first_value(fields_of(lines_of(headers_raw)), lowercase(name))
}

/// The views of a list of header fields.
pub open spec fn field_views(fields: Seq<(String, String)>) -> Seq<(Seq<char>, Seq<char>)> {
    Seq::new(fields.len(), |i: int| (fields[i].0@, fields[i].1@))
}

pub fn latin1_to_string(bytes: &[u8]) -> (r: String)
    ensures
        r@ == latin1(bytes@),
{
    let mut out = String::new();
    let mut i: usize = 0;
    while i < bytes.len()
        invariant
            i <= bytes@.len(),
            out@ == latin1(bytes@).take(i as int),
        decreases bytes@.len() - i,
    {
        out.push(bytes[i] as char);
        i = i + 1;
        assert(out@ =~= latin1(bytes@).take(i as int));
    }
    assert(out@ =~= latin1(bytes@));
    out
}

pub fn latin1_bytes(text: &str) -> (r: Vec<u8>)
    ensures
        r@ == latin1_encoded(text@),
{
    let chars = chars_of(text);
    let mut out: Vec<u8> = Vec::new();
    let mut i: usize = 0;
    while i < chars.len()
        invariant
            i <= chars@.len(),
            out@ == latin1_encoded(chars@).take(i as int),
        decreases chars@.len() - i,
    {
        out.push(#[verifier::truncate] (chars[i] as u8));
        i = i + 1;
        assert(out@ =~= latin1_encoded(chars@).take(i as int));
    }
    assert(out@ =~= latin1_encoded(chars@));
    out
}

/// The lines of a header block.
pub fn header_lines(headers_raw: &[u8]) -> (r: Vec<String>)
    ensures
        texts(r@) == lines_of(headers_raw@),
{
    let text = latin1_to_string(headers_raw);
    let pieces = split_char(text.as_str(), '\n');
    let mut lines: Vec<String> = Vec::new();
    let mut i: usize = 0;
    let ghost all = without_returns(texts(pieces@));
    while i < pieces.len()
        invariant
            i <= pieces@.len(),
            all == without_returns(texts(pieces@)),
            texts(lines@) == all.take(i as int),
        decreases pieces@.len() - i,
    {
        let line = without_trailing(pieces[i].as_str(), '\r');
        assert(line@ == all[i as int]);
        assert(texts(lines@.push(line)) =~= texts(lines@).push(line@));
        assert(all.take(i + 1) =~= all.take(i as int).push(line@));
        lines.push(line);
        i = i + 1;
    }
    assert(texts(lines@) =~= all);
    if lines.len() > 0 && lines[lines.len() - 1].as_str().is_empty() {
        assert(all.last() == lines@.last()@);
        lines.pop();
        assert(texts(lines@) =~= all.drop_last());
    } else {
        assert(lines@.len() > 0 ==> all.last() == lines@.last()@);
    }
    lines
}

/// The name, in lowercase, and the value of a header line.
pub fn split_header_line(line: &str) -> (r: Option<(String, String)>)
    ensures
        match r {
            Some((name, value)) => header_parts(line@) is Some && name@ == lowercase(
                (header_parts(line@)->0).0,
            ) && value@ == (header_parts(line@)->0).1,
            None => header_parts(line@) is None,
        },
{
    let c = chars_of(line);
    if c.len() > 0 && c[0] == ':' {
        let rest = text_of(c.as_slice(), 1, c.len());
        let rc = chars_of(rest.as_str());
        assert(rest@ =~= line@.skip(1));
        match find_char(rc.as_slice(), ':') {
            Some(colon) => {
                let mut name = ":".to_owned();
                let head = text_of(rc.as_slice(), 0, colon);
                let tail = text_of(rc.as_slice(), colon + 1, rc.len());
                assert(head@ =~= rest@.take(colon as int));
                assert(tail@ =~= rest@.skip(colon + 1));
                name.append(head.as_str());
                Some((name.as_str().to_lowercase(), trimmed(tail.as_str())))
            },
            None => None,
        }
    } else {
        match find_char(c.as_slice(), ':') {
            Some(colon) => {
                let head = text_of(c.as_slice(), 0, colon);
                let tail = text_of(c.as_slice(), colon + 1, c.len());
                assert(head@ =~= line@.take(colon as int));
                assert(tail@ =~= line@.skip(colon + 1));
                Some((trimmed(head.as_str()).as_str().to_lowercase(), trimmed(tail.as_str())))
            },
            None => None,
        }
    }
}

/// The value of the first field with this name.
pub fn value_of(fields: &[(String, String)], name: &str) -> (r: Option<String>)
    ensures
        opt_text(r) == first_value(field_views(fields@), name@),
{
    let ghost all = field_views(fields@);
    let mut i: usize = 0;
    assert(all.skip(0) =~= all);
    while i < fields.len()
        invariant
            i <= fields@.len(),
            all == field_views(fields@),
            first_value(all, name@) == first_value(all.skip(i as int), name@),
        decreases fields@.len() - i,
    {
        assert(all.skip(i as int)[0] == all[i as int]);
        if same(fields[i].0.as_str(), name) {
            return Some(fields[i].1.clone());
        }
        assert(all.skip(i as int).drop_first() =~= all.skip(i + 1));
        i = i + 1;
    }
    None
}

/// The value of a header, whatever the case of its name.
pub fn parse_header_value(headers_raw: &[u8], name: &str) -> (r: Option<String>)
    ensures
        opt_text(r) == header_of(headers_raw@, name@),
{
    let target = name.to_lowercase();
    let lines = header_lines(headers_raw);
    let ghost all = texts(lines@);
    let mut fields: Vec<(String, String)> = Vec::new();
    let mut i: usize = 0;
    assert(field_views(fields@) =~= fields_of(all.take(0)));
    while i < lines.len()
        invariant
            i <= lines@.len(),
            all == texts(lines@),
            field_views(fields@) == fields_of(all.take(i as int)),
        decreases lines@.len() - i,
    {
        assert(all.take(i + 1).drop_last() =~= all.take(i as int));
        assert(all.take(i + 1).last() == lines@[i as int]@);
        let ghost before = field_views(fields@);
        if let Some((name, value)) = split_header_line(lines[i].as_str()) {
            fields.push((name, value));
            assert(field_views(fields@) =~= before.push((name@, value@)));
        }
        i = i + 1;
    }
    assert(all.take(i as int) =~= all);
    value_of(fields.as_slice(), target.as_str())
}

/// The encoding that the header block says the body is in.
pub fn parse_content_encoding(headers_raw: &[u8]) -> (r: Option<String>)
    ensures
        opt_text(r) == header_of(headers_raw@, "content-encoding"@),
{
    parse_header_value(headers_raw, "content-encoding")
}

// ---------------------------------------------------------------------------
// The body, and the message as it is kept.
// ---------------------------------------------------------------------------

/// What `flate2::read::GzDecoder` reads from bytes: the data of the gzip member that they begin
/// with, or nothing where it cannot be read.
pub uninterp spec fn gzip_decoded(body: Seq<u8>) -> Option<Seq<u8>>;

/// What `flate2::read::DeflateDecoder` reads from bytes.
pub uninterp spec fn deflate_decoded(body: Seq<u8>) -> Option<Seq<u8>>;

/// What `brotli::Decompressor` reads from bytes.
pub uninterp spec fn brotli_decoded(body: Seq<u8>) -> Option<Seq<u8>>;

/// The view of optional bytes.
pub open spec fn opt_bytes(v: Option<Vec<u8>>) -> Option<Seq<u8>> {
    match v {
        Some(b) => Some(b@),
        None => None,
    }
}

/// `flate2::read::GzDecoder`, read to its end: all that it yields, or `None` where it reports an
/// error. What it yields depends on the bytes alone.
#[verifier::external_body]
fn gunzip(body: &[u8]) -> (r: Option<Vec<u8>>)
    ensures
        opt_bytes(r) == gzip_decoded(body@),
{
    let mut out = Vec::new();
    std::io::Read::read_to_end(&mut flate2::read::GzDecoder::new(body), &mut out).ok()?;
    Some(out)
}

/// `flate2::read::DeflateDecoder`, read to its end: all that it yields, or `None` where it
/// reports an error. What it yields depends on the bytes alone.
#[verifier::external_body]
fn inflate(body: &[u8]) -> (r: Option<Vec<u8>>)
    ensures
        opt_bytes(r) == deflate_decoded(body@),
{
    let mut out = Vec::new();
    std::io::Read::read_to_end(&mut flate2::read::DeflateDecoder::new(body), &mut out).ok()?;
    Some(out)
}

/// `brotli::Decompressor`, read to its end: all that it yields, or `None` where it reports an
/// error. What it yields depends on the bytes alone, not on the size of its buffer.
#[verifier::external_body]
pub(crate) fn unbrotli(body: &[u8]) -> (r: Option<Vec<u8>>)
    ensures
        opt_bytes(r) == brotli_decoded(body@),
{
    let mut out = Vec::new();
    std::io::Read::read_to_end(&mut brotli::Decompressor::new(body, 4096), &mut out).ok()?;
    Some(out)
}

/// Why a body could not be decompressed.
#[derive(Debug)]
pub enum DecompressError {
    Gzip,
    Deflate,
    Brotli,
    /// The encoding is not known.
    Unsupported(String),
}

impl DecompressError {
    pub open spec fn text(&self) -> Seq<char> {
        match self {
            DecompressError::Gzip => "gzip decompress failed"@,
            DecompressError::Deflate => "deflate decompress failed"@,
            DecompressError::Brotli => "brotli decompress failed"@,
            DecompressError::Unsupported(coding) => "unsupported content-encoding: "@ + coding@,
        }
    }

    /// The error in words.
    pub fn message(&self) -> (r: String)
        ensures
            r@ == self.text(),
    {
        match self {
            DecompressError::Gzip => "gzip decompress failed".to_owned(),
            DecompressError::Deflate => "deflate decompress failed".to_owned(),
            DecompressError::Brotli => "brotli decompress failed".to_owned(),
            DecompressError::Unsupported(coding) => {
                let mut s = "unsupported content-encoding: ".to_owned();
                s.append(coding.as_str());
                s
            },
        }
    }
}

/// The first of the encodings that a header value lists, in lowercase.
pub open spec fn primary_coding(encoding: Seq<char>) -> Seq<char> {
    lowercase(trim(split_on(encoding, ',')[0]))
}

/// The body that was encoded with `coding`, where it can be had.
pub open spec fn decoded(body: Seq<u8>, coding: Seq<char>) -> Option<Seq<u8>> {
    if coding == "gzip"@ || coding == "x-gzip"@ {
        gzip_decoded(body)
    } else if coding == "deflate"@ {
        deflate_decoded(body)
    } else if coding == "br"@ {
        brotli_decoded(body)
    } else {
        None
    }
}

/// Whether `e` is the error for a body that was encoded with `coding` and cannot be had.
pub open spec fn fails_with(coding: Seq<char>, e: DecompressError) -> bool {
    if coding == "gzip"@ || coding == "x-gzip"@ {
        e is Gzip
    } else if coding == "deflate"@ {
        e is Deflate
    } else if coding == "br"@ {
        e is Brotli
    } else {
        e is Unsupported && e->0@ == coding
    }
}

/// The body that was encoded with `coding`, whose name is in lowercase.
pub fn decompress_coding(body: &[u8], coding: &str) -> (r: Result<Vec<u8>, DecompressError>)
    ensures
        match r {
            Ok(out) => decoded(body@, coding@) == Some(out@),
            Err(e) => decoded(body@, coding@) is None && fails_with(coding@, e),
        },
{
    if same(coding, "gzip") || same(coding, "x-gzip") {
        match gunzip(body) {
            Some(out) => Ok(out),
            None => Err(DecompressError::Gzip),
        }
    } else if same(coding, "deflate") {
        match inflate(body) {
            Some(out) => Ok(out),
            None => Err(DecompressError::Deflate),
        }
    } else if same(coding, "br") {
        match unbrotli(body) {
            Some(out) => Ok(out),
            None => Err(DecompressError::Brotli),
        }
    } else {
        Err(DecompressError::Unsupported(coding.to_owned()))
    }
}

/// The body without the encoding that a header value names first.
pub fn decompress_body(body: &[u8], encoding: &str) -> (r: Result<Vec<u8>, DecompressError>)
    ensures
        match r {
            Ok(out) => decoded(body@, primary_coding(encoding@)) == Some(out@),
            Err(e) => decoded(body@, primary_coding(encoding@)) is None && fails_with(
                primary_coding(encoding@),
                e,
            ),
        },
{
    let pieces = split_char(encoding, ',');
    assert(texts(pieces@).len() >= 1);
    assert(texts(pieces@)[0] == pieces@[0]@);
    let primary = trimmed(pieces[0].as_str());
    decompress_coding(body, primary.as_str().to_lowercase().as_str())
}

/// The message with its body replaced by what it was decompressed to, where there is such.
pub open spec fn with_body(raw: Seq<u8>, body: Option<Seq<u8>>) -> Seq<u8> {
    match (header_len(raw), body) {
        (Some(n), Some(b)) => raw.take(n) + b,
        _ => raw,
    }
}

/// What the body of a message decompresses to, where its header block names an encoding.
pub open spec fn body_decoded(raw: Seq<u8>) -> Option<Seq<u8>> {
    match header_len(raw) {
        Some(n) => match header_of(raw.take(n), "content-encoding"@) {
            Some(encoding) => decoded(raw.skip(n), primary_coding(encoding)),
            None => None,
        },
        None => None,
    }
}

/// The message with its body replaced by what it was decompressed to.
pub fn replace_body(raw: &[u8], body: Option<Vec<u8>>) -> (r: Vec<u8>)
    ensures
        r@ == with_body(raw@, opt_bytes(body)),
{
    match (split_headers_and_body(raw), body) {
        (Some(split), Some(b)) => {
            let mut out = slice_to_vec(split.headers_raw);
            out.extend_from_slice(b.as_slice());
            assert(out@ =~= split.headers_raw@ + b@);
            out
        },
        _ => slice_to_vec(raw),
    }
}

/// The form in which a message is kept on disk: with the body decompressed where the header
/// block names an encoding that can be undone, else byte for byte.
pub fn prepare_message_for_disk(raw: &[u8]) -> (r: Vec<u8>)
    ensures
        r@ == with_body(raw@, body_decoded(raw@)),
{
    let body = match split_headers_and_body(raw) {
        Some(split) => match parse_content_encoding(split.headers_raw) {
            Some(encoding) => match decompress_body(split.body_raw, encoding.as_str()) {
                Ok(out) => Some(out),
                Err(_) => None,
            },
            None => None,
        },
        None => None,
    };
    replace_body(raw, body)
}

// ---------------------------------------------------------------------------
// The first line.
// ---------------------------------------------------------------------------

/// The first line of a message, without its line ending.
pub open spec fn first_line_of(raw: Seq<u8>) -> Seq<char> {
    trim_end_char(latin1(raw.take(first_of(raw, 10u8) as int)), '\r')
}

/// The method and the target of a request line.
pub open spec fn request_line(raw: Seq<u8>) -> Option<(Seq<char>, Seq<char>)> {
    let parts = split_on(first_line_of(raw), ' ');
    if parts.len() < 2 {
        None
    } else {
        Some((parts[0], parts[1]))
    }
}

/// The status of a response: the second word of a first line that begins with `HTTP/`.
pub open spec fn response_status(raw: Seq<u8>) -> Option<u16> {
    let line = first_line_of(raw);
    if begins_with(line, "HTTP/"@) {
        match next_word(line) {
            Some((_, rest)) => match next_word(rest) {
                Some((word, _)) => parsed_u16(word),
                None => None,
            },
            None => None,
        }
    } else {
        None
    }
}

/// The first line of a message, without its line ending.
pub fn first_line(raw: &[u8]) -> (r: String)
    ensures
        r@ == first_line_of(raw@),
{
    let n: usize = position_of(raw, 10);
    let slice = &raw[0..n];
    assert(slice@ =~= raw@.take(n as int));
    without_trailing(latin1_to_string(slice).as_str(), '\r')
}

/// The method and the target of a request.
pub fn parse_request_line(raw: &[u8]) -> (r: Option<(String, String)>)
    ensures
        match r {
            Some((method, target)) => request_line(raw@) == Some((method@, target@)),
            None => request_line(raw@) is None,
        },
{
    let line = first_line(raw);
    let parts = split_char(line.as_str(), ' ');
    assert(texts(parts@).len() == parts@.len());
    if parts.len() < 2 {
        return None;
    }
    assert(texts(parts@)[0] == parts@[0]@ && texts(parts@)[1] == parts@[1]@);
    Some((parts[0].clone(), parts[1].clone()))
}

/// The status of a response.
pub fn parse_response_status(raw: &[u8]) -> (r: Option<u16>)
    ensures
        r == response_status(raw@),
{
    let line = first_line(raw);
    if !starts_with(line.as_str(), "HTTP/") {
        return None;
    }
    match first_word(line.as_str()) {
        Some((_, rest)) => match first_word(rest.as_str()) {
            Some((word, _)) => parse_u16(word.as_str()),
            None => None,
        },
        None => None,
    }
}

// ---------------------------------------------------------------------------
// Laws.
// ---------------------------------------------------------------------------

proof fn lemma_place_in_bounds(s: Seq<u8>, part: Seq<u8>, from: int)
    requires
        0 <= from,
    ensures
        match place_from(s, part, from) {
            Some(i) => from <= i && i + part.len() <= s.len(),
            None => true,
        },
    decreases s.len() - from + 1,
{
    if from + part.len() <= s.len() && !stands_at(s, part, from) {
        lemma_place_in_bounds(s, part, from + 1);
    }
}

proof fn lemma_unmarked_in_bounds(raw: Seq<u8>, start: int, first: bool)
    requires
        0 <= start <= raw.len(),
    ensures
        match unmarked_header_len(raw, start, first) {
            Some(n) => start <= n <= raw.len(),
            None => true,
        },
    decreases raw.len() - start,
{
    if start < raw.len() {
        let rest = raw.skip(start);
        let n = first_of(rest, 10u8) as int;
        if n < rest.len() {
            lemma_unmarked_in_bounds(raw, start + n + 1, false);
        }
    }
}

/// The header block and the body of a message are the message.
pub proof fn law_split_loses_nothing(raw: Seq<u8>)
    ensures
        match header_len(raw) {
            Some(n) => 0 <= n <= raw.len() && raw.take(n) + raw.skip(n) == raw,
            None => true,
        },
{
    lemma_place_in_bounds(raw, seq![13u8, 10, 13, 10], 0);
    lemma_place_in_bounds(raw, seq![10u8, 10], 0);
    lemma_unmarked_in_bounds(raw, 0, true);
    if let Some(n) = header_len(raw) {
        assert(raw.take(n) + raw.skip(n) =~= raw);
    }
}

/// A message whose header block names no encoding is kept byte for byte.
pub proof fn law_message_without_encoding_is_kept(raw: Seq<u8>)
    requires
        match header_len(raw) {
            Some(n) => header_of(raw.take(n), "content-encoding"@) is None,
            None => true,
        },
    ensures
        with_body(raw, body_decoded(raw)) == raw,
{
}

/// Whatever becomes of the body, the header block is kept byte for byte.
pub proof fn law_header_block_is_kept(raw: Seq<u8>)
    requires
        header_len(raw) is Some,
    ensures
        begins_with(with_body(raw, body_decoded(raw)), raw.take(header_len(raw)->0)),
{
    law_split_loses_nothing(raw);
    let n = header_len(raw)->0;
    let kept = with_body(raw, body_decoded(raw));
    assert(kept.take(n) =~= raw.take(n));
}

/// A header is found whatever the case of the name that it is asked for by.
pub proof fn law_header_names_ignore_case(headers_raw: Seq<u8>, a: Seq<char>, b: Seq<char>)
    requires
        lowercase(a) == lowercase(b),
    ensures
        header_of(headers_raw, a) == header_of(headers_raw, b),
{
}

/// A header value that names a coding first: alone, or in front of a comma, with white space
/// around it, whatever the case of its letters.
pub open spec fn names_first(value: Seq<char>, coding: Seq<char>) -> bool {
    exists|piece: Seq<char>, rest: Seq<char>|
        #![trigger piece + rest]
        {
            &&& value == piece + rest
            &&& !piece.contains(',')
            &&& rest.len() == 0 || rest[0] == ','
            &&& lowercase(trim(piece)) == coding
        }
}

/// What is kept of a message whose header block, the bytes `head`, names a coding first.
pub open spec fn encoded_with(raw: Seq<u8>, head: Seq<u8>, body: Seq<u8>, coding: Seq<char>) -> bool {
    &&& raw == head + body
    &&& header_len(raw) == Some(head.len() as int)
    &&& exists|value: Seq<char>| #[trigger]
        names_first(value, coding) && header_of(head, "content-encoding"@) == Some(value)
}

proof fn lemma_first_piece(piece: Seq<char>, rest: Seq<char>)
    requires
        !piece.contains(','),
        rest.len() == 0 || rest[0] == ',',
    ensures
        split_on(piece + rest, ',')[0] == piece,
{
    let value = piece + rest;
    assert forall|j: int| 0 <= j < piece.len() implies value[j] != ',' by {
        assert(value[j] == piece[j]);
        assert(piece.contains(piece[j]));
    }
    lemma_first_of_is(value, ',', piece.len() as int);
    assert(value.take(piece.len() as int) =~= piece);
    if rest.len() == 0 {
        assert(value =~= piece);
    }
}

proof fn lemma_encoded_with(raw: Seq<u8>, head: Seq<u8>, body: Seq<u8>, coding: Seq<char>)
    requires
        encoded_with(raw, head, body, coding),
    ensures
        with_body(raw, body_decoded(raw)) == match decoded(body, coding) {
            Some(plain) => head + plain,
            None => raw,
        },
{
    let value = choose|value: Seq<char>| #[trigger]
        names_first(value, coding) && header_of(head, "content-encoding"@) == Some(value);
    let (piece, rest) = choose|piece: Seq<char>, rest: Seq<char>|
        #![trigger piece + rest]
        {
            &&& value == piece + rest
            &&& !piece.contains(',')
            &&& rest.len() == 0 || rest[0] == ','
            &&& lowercase(trim(piece)) == coding
        };
    lemma_first_piece(piece, rest);
    let n = head.len() as int;
    assert(raw.take(n) =~= head);
    assert(raw.skip(n) =~= body);
}

/// A message whose header block names `br` first, and whose body the brotli decoder reads, is
/// kept as its header block and what the decoder gave.
pub proof fn law_brotli_is_undone_on_disk(raw: Seq<u8>, head: Seq<u8>, body: Seq<u8>, plain: Seq<u8>)
    requires
        encoded_with(raw, head, body, "br"@),
        brotli_decoded(body) == Some(plain),
    ensures
        with_body(raw, body_decoded(raw)) == head + plain,
{
    reveal_strlit("br");
    reveal_strlit("gzip");
    reveal_strlit("x-gzip");
    reveal_strlit("deflate");
    assert("br"@.len() != "gzip"@.len() && "br"@.len() != "x-gzip"@.len() && "br"@.len()
        != "deflate"@.len());
    lemma_encoded_with(raw, head, body, "br"@);
}

/// A message whose header block names `deflate` first, and whose body the deflate decoder reads,
/// is kept as its header block and what the decoder gave.
pub proof fn law_deflate_is_undone_on_disk(
    raw: Seq<u8>,
    head: Seq<u8>,
    body: Seq<u8>,
    plain: Seq<u8>,
)
    requires
        encoded_with(raw, head, body, "deflate"@),
        deflate_decoded(body) == Some(plain),
    ensures
        with_body(raw, body_decoded(raw)) == head + plain,
{
    reveal_strlit("gzip");
    reveal_strlit("x-gzip");
    reveal_strlit("deflate");
    assert("deflate"@.len() != "gzip"@.len() && "deflate"@.len() != "x-gzip"@.len());
    lemma_encoded_with(raw, head, body, "deflate"@);
}

/// A message whose header block names `gzip` or `x-gzip` first, and whose body the gzip decoder
/// reads, is kept as its header block and what the decoder gave.
pub proof fn law_gzip_is_undone_on_disk(raw: Seq<u8>, head: Seq<u8>, body: Seq<u8>, plain: Seq<u8>)
    requires
        encoded_with(raw, head, body, "gzip"@) || encoded_with(raw, head, body, "x-gzip"@),
        gzip_decoded(body) == Some(plain),
    ensures
        with_body(raw, body_decoded(raw)) == head + plain,
{
    if encoded_with(raw, head, body, "gzip"@) {
        lemma_encoded_with(raw, head, body, "gzip"@);
    } else {
        lemma_encoded_with(raw, head, body, "x-gzip"@);
    }
}

/// A message whose body its decoder cannot read, or whose coding is none of these, is kept byte for
/// byte.
pub proof fn law_unreadable_body_is_kept(
    raw: Seq<u8>,
    head: Seq<u8>,
    body: Seq<u8>,
    coding: Seq<char>,
)
    requires
        encoded_with(raw, head, body, coding),
        coding == "br"@ ==> brotli_decoded(body) is None,
        coding == "deflate"@ ==> deflate_decoded(body) is None,
        coding == "gzip"@ || coding == "x-gzip"@ ==> gzip_decoded(body) is None,
    ensures
        with_body(raw, body_decoded(raw)) == raw,
{
    lemma_encoded_with(raw, head, body, coding);
}

/// A body is decompressed by the decoder of the coding that is named first, whatever else is named
/// behind it: what one of the other decoders would give does not count.
pub proof fn law_first_coding_decides(body: Seq<u8>, piece: Seq<char>, rest: Seq<char>)
    requires
        !piece.contains(','),
        rest.len() == 0 || rest[0] == ',',
    ensures
        ({
            let name = lowercase(trim(piece));
            let r = decoded(body, primary_coding(piece + rest));
            &&& name == "br"@ ==> r == brotli_decoded(body)
            &&& name == "deflate"@ ==> r == deflate_decoded(body)
            &&& name == "gzip"@ || name == "x-gzip"@ ==> r == gzip_decoded(body)
            &&& name != "br"@ && name != "deflate"@ && name != "gzip"@ && name != "x-gzip"@
                ==> r is None
        }),
{
    reveal_strlit("br");
    reveal_strlit("gzip");
    reveal_strlit("x-gzip");
    reveal_strlit("deflate");
    assert("br"@.len() == 2 && "gzip"@.len() == 4 && "x-gzip"@.len() == 6 && "deflate"@.len() == 7);
    lemma_first_piece(piece, rest);
}

proof fn lemma_place_at<T>(s: Seq<T>, part: Seq<T>, from: int, at: int)
    requires
        0 <= from <= at,
        stands_at(s, part, at),
        forall|i: int| from <= i < at ==> !#[trigger] stands_at(s, part, i),
    ensures
        place_from(s, part, from) == Some(at),
    decreases at - from,
{
    if from < at {
        lemma_place_at(s, part, from + 1, at);
    }
}

proof fn lemma_no_place<T>(s: Seq<T>, part: Seq<T>, from: int)
    requires
        0 <= from,
        forall|i: int| from <= i ==> !#[trigger] stands_at(s, part, i),
    ensures
        place_from(s, part, from) is None,
    decreases s.len() - from + 1,
{
    if from + part.len() <= s.len() {
        lemma_no_place(s, part, from + 1);
    }
}

/// CR LF CR LF at a place.
pub open spec fn blank_line_at(raw: Seq<u8>, i: int) -> bool {
    &&& 0 <= i
    &&& i + 4 <= raw.len()
    &&& raw[i] == 13 && raw[i + 1] == 10 && raw[i + 2] == 13 && raw[i + 3] == 10
}

/// LF LF at a place.
pub open spec fn two_line_feeds_at(raw: Seq<u8>, i: int) -> bool {
    0 <= i && i + 2 <= raw.len() && raw[i] == 10 && raw[i + 1] == 10
}

proof fn lemma_marks(raw: Seq<u8>, i: int)
    ensures
        stands_at(raw, seq![13u8, 10, 13, 10], i) <==> blank_line_at(raw, i),
        stands_at(raw, seq![10u8, 10], i) <==> two_line_feeds_at(raw, i),
{
    let a = seq![13u8, 10, 13, 10];
    let b = seq![10u8, 10];
    if 0 <= i && i + 4 <= raw.len() {
        let w = raw.subrange(i, i + 4);
        if blank_line_at(raw, i) {
            assert(w =~= a);
        }
        if w == a {
            assert(w[0] == 13 && w[1] == 10 && w[2] == 13 && w[3] == 10);
        }
    }
    if 0 <= i && i + 2 <= raw.len() {
        let w = raw.subrange(i, i + 2);
        if two_line_feeds_at(raw, i) {
            assert(w =~= b);
        }
        if w == b {
            assert(w[0] == 10 && w[1] == 10);
        }
    }
}

/// The header block ends behind the first blank line, CR LF CR LF, and the body is all that
/// follows it, blank lines too. Where there is none, the first LF LF ends it.
pub proof fn law_first_blank_line_ends_headers(raw: Seq<u8>, at: int)
    ensures
        blank_line_at(raw, at) && (forall|i: int|
            0 <= i < at ==> !#[trigger] blank_line_at(raw, i)) ==> header_len(raw) == Some(at + 4),
        two_line_feeds_at(raw, at) && (forall|i: int|
            0 <= i < at ==> !#[trigger] two_line_feeds_at(raw, i)) && (forall|i: int|
            !#[trigger] blank_line_at(raw, i)) ==> header_len(raw) == Some(at + 2),
{
    let crlf = seq![13u8, 10, 13, 10];
    let lf = seq![10u8, 10];
    assert forall|i: int| #[trigger] stands_at(raw, crlf, i) == blank_line_at(raw, i) by {
        lemma_marks(raw, i);
    }
    assert forall|i: int| #[trigger] stands_at(raw, lf, i) == two_line_feeds_at(raw, i) by {
        lemma_marks(raw, i);
    }
    lemma_marks(raw, at);
    if blank_line_at(raw, at) && (forall|i: int| 0 <= i < at ==> !#[trigger] blank_line_at(raw, i)) {
        lemma_place_at(raw, crlf, 0, at);
    }
    if two_line_feeds_at(raw, at) && (forall|i: int|
        0 <= i < at ==> !#[trigger] two_line_feeds_at(raw, i)) && (forall|i: int|
        !#[trigger] blank_line_at(raw, i)) {
        lemma_no_place(raw, crlf, 0);
        lemma_place_at(raw, lf, 0, at);
    }
}

proof fn lemma_first_value(fields: Seq<(Seq<char>, Seq<char>)>, name: Seq<char>, i: int)
    requires
        0 <= i < fields.len(),
        fields[i].0 == name,
        forall|j: int| 0 <= j < i ==> (#[trigger] fields[j]).0 != name,
    ensures
        first_value(fields, name) == Some(fields[i].1),
    decreases i,
{
    if i > 0 {
        assert(fields[0].0 != name);
        let tail = fields.drop_first();
        assert forall|j: int| 0 <= j < i - 1 implies (#[trigger] tail[j]).0 != name by {
            assert(tail[j] == fields[j + 1]);
        }
        lemma_first_value(tail, name, i - 1);
    }
}

/// Of several fields with one name the first counts, and one whose name differs does not.
pub proof fn law_first_field_counts(
    fields: Seq<(Seq<char>, Seq<char>)>,
    name: Seq<char>,
    i: int,
)
    requires
        0 <= i <= fields.len(),
        i < fields.len() ==> fields[i].0 == name,
        forall|j: int| 0 <= j < i ==> (#[trigger] fields[j]).0 != name,
    ensures
        first_value(fields, name) == if i < fields.len() {
            Some(fields[i].1)
        } else {
            None
        },
    decreases fields.len(),
{
    if i < fields.len() {
        lemma_first_value(fields, name, i);
    } else if fields.len() > 0 {
        assert(fields[0].0 != name);
        let tail = fields.drop_first();
        assert forall|j: int| 0 <= j < tail.len() implies (#[trigger] tail[j]).0 != name by {
            assert(tail[j] == fields[j + 1]);
        }
        law_first_field_counts(tail, name, tail.len() as int);
    }
}

/// A header line is its name, a colon and its value, without the white space around both. Only the
/// first colon parts them: the value keeps its own.
pub proof fn law_header_line_is_name_and_value(name: Seq<char>, value: Seq<char>)
    requires
        !name.contains(':'),
    ensures
        name.len() > 0 ==> header_parts(name + seq![':'] + value) == Some((trim(name), trim(value))),
        header_parts(seq![':'] + name + seq![':'] + value) == Some((":"@ + name, trim(value))),
        header_parts(name) is None,
{
    reveal_strlit(":");
    let line = name + seq![':'] + value;
    let n = name.len() as int;
    assert forall|j: int| 0 <= j < n implies name[j] != ':' by {
        assert(name.contains(name[j]));
    }
    assert forall|j: int| 0 <= j < n implies line[j] != ':' by {
        assert(line[j] == name[j]);
    }
    lemma_first_of_is(line, ':', n);
    lemma_first_of_is(name, ':', n);
    assert(line.take(n) =~= name);
    assert(line.skip(n + 1) =~= value);
    if n > 0 {
        assert(line[0] == name[0]);
    }
    let pseudo = seq![':'] + name + seq![':'] + value;
    assert(pseudo.skip(1) =~= line);
}

/// The method and the target of a request line are its first two words, whatever follows them.
pub proof fn law_request_line_is_two_words(
    method: Seq<char>,
    target: Seq<char>,
    rest: Seq<char>,
    raw: Seq<u8>,
)
    requires
        !method.contains(' '),
        !target.contains(' '),
        rest.len() == 0 || rest[0] == ' ',
        first_line_of(raw) == method + seq![' '] + target + rest,
    ensures
        request_line(raw) == Some((method, target)),
{
    let line = method + seq![' '] + target + rest;
    let m = method.len() as int;
    let t = target.len() as int;
    assert forall|j: int| 0 <= j < m implies line[j] != ' ' by {
        assert(line[j] == method[j]);
        assert(method.contains(method[j]));
    }
    lemma_first_of_is(line, ' ', m);
    let tail = line.skip(m + 1);
    assert(tail =~= target + rest);
    assert forall|j: int| 0 <= j < t implies tail[j] != ' ' by {
        assert(tail[j] == target[j]);
        assert(target.contains(target[j]));
    }
    lemma_first_of_is(tail, ' ', t);
    assert(line.take(m) =~= method);
    assert(tail.take(t) =~= target);
    if rest.len() == 0 {
        assert(tail =~= target);
    }
    assert(split_on(line, ' ') == seq![method] + split_on(tail, ' '));
    assert(split_on(tail, ' ')[0] == target);
}

/// The first line ends before the first line feed, and carriage returns before it do not count.
pub proof fn law_first_line_ends_at_line_feed(line: Seq<u8>, rest: Seq<u8>)
    requires
        !line.contains(10),
        !line.contains(13),
    ensures
        first_line_of(line + seq![13u8, 10] + rest) == latin1(line),
        first_line_of(line + seq![10u8] + rest) == latin1(line),
        first_line_of(line) == latin1(line),
{
    let n = line.len() as int;
    assert forall|j: int| 0 <= j < n implies line[j] != 10 && line[j] != 13 by {
        assert(line.contains(line[j]));
    }
    let a = line + seq![13u8, 10] + rest;
    let b = line + seq![10u8] + rest;
    assert forall|j: int| 0 <= j < n + 1 implies a[j] != 10 by {
        if j < n {
            assert(a[j] == line[j]);
        }
    }
    assert forall|j: int| 0 <= j < n implies b[j] != 10 by {
        assert(b[j] == line[j]);
    }
    lemma_first_of_is(a, 10u8, n + 1);
    lemma_first_of_is(b, 10u8, n);
    lemma_first_of_is(line, 10u8, n);
    let text = latin1(line);
    assert(b.take(n) =~= line);
    assert(line.take(n) =~= line);
    let long = latin1(a.take(n + 1));
    assert(long.last() == '\r');
    assert(long.drop_last() =~= text);
    if n > 0 {
        assert(text.last() == line[n - 1] as char);
        assert(text.last() != '\r');
    }
    assert(trim_end_char(text, '\r') == text);
    assert(trim_end_char(long, '\r') == trim_end_char(text, '\r'));
}

/// Lines, each with the line feed that ends it.
pub open spec fn lines_with_feeds(lines: Seq<Seq<u8>>) -> Seq<u8>
    decreases lines.len(),
{
    if lines.len() == 0 {
        seq![]
    } else {
        lines[0] + seq![10u8] + lines_with_feeds(lines.drop_first())
    }
}

/// A line with a colon at `colon`, behind a name of printable bytes other than the colon.
pub open spec fn named_line(line: Seq<u8>, colon: int) -> bool {
    &&& 0 < colon < line.len()
    &&& line[colon] == 58
    &&& line.last() != 13
    &&& !line.contains(10)
    &&& forall|i: int|
        0 <= i < colon ==> (33 <= #[trigger] line[i] <= 126 || line[i] == 9) && line[i] != 58
}

/// Without a blank line the header block is the first line and the header lines behind it; the
/// body begins with the first line that is none, or with a last line that does not end.
pub proof fn law_headers_end_before_other_line(
    start: Seq<u8>,
    lines: Seq<Seq<u8>>,
    colons: Seq<int>,
    body: Seq<u8>,
)
    requires
        start.len() > 0,
        start.last() != 13,
        !start.contains(10),
        colons.len() == lines.len(),
        forall|i: int| 0 <= i < lines.len() ==> named_line(#[trigger] lines[i], colons[i]),
        body.len() > 0,
        !body.contains(58),
        body[0] != 10,
        body[0] != 13,
        forall|i: int|
            !#[trigger] blank_line_at(start + seq![10u8] + lines_with_feeds(lines) + body, i),
        forall|i: int|
            !#[trigger] two_line_feeds_at(start + seq![10u8] + lines_with_feeds(lines) + body, i),
    ensures
        header_len(start + seq![10u8] + lines_with_feeds(lines) + body) == Some(
            start.len() + 1int + lines_with_feeds(lines).len(),
        ),
{
    let raw = start + seq![10u8] + lines_with_feeds(lines) + body;
    lemma_no_mark(raw, seq![13u8, 10, 13, 10], 0);
    lemma_no_mark(raw, seq![10u8, 10], 0);
    let n = start.len() as int;
    assert(raw.skip(0) =~= raw);
    assert forall|j: int| 0 <= j < n implies raw[j] != 10 by {
        assert(raw[j] == start[j]);
        assert(start.contains(start[j]));
    }
    lemma_first_of_is(raw, 10u8, n);
    assert(raw.take(n) =~= start);
    let rest = lines_with_feeds(lines) + body;
    assert(raw =~= (start + seq![10u8]) + rest);
    lemma_header_lines(raw, start + seq![10u8], lines, colons, body);
}

proof fn lemma_no_mark(raw: Seq<u8>, mark: Seq<u8>, from: int)
    requires
        0 <= from,
        mark == seq![13u8, 10, 13, 10] || mark == seq![10u8, 10],
        forall|i: int| !#[trigger] blank_line_at(raw, i),
        forall|i: int| !#[trigger] two_line_feeds_at(raw, i),
    ensures
        place_from(raw, mark, from) is None,
    decreases raw.len() - from + 1,
{
    if from + mark.len() <= raw.len() {
        if stands_at(raw, mark, from) {
            let w = raw.subrange(from, from + mark.len());
            assert(w[0] == raw[from] && w[1] == raw[from + 1]);
            if mark == seq![13u8, 10, 13, 10] {
                assert(w[2] == raw[from + 2] && w[3] == raw[from + 3]);
                assert(blank_line_at(raw, from));
            } else {
                assert(two_line_feeds_at(raw, from));
            }
        }
        lemma_no_mark(raw, mark, from + 1);
    }
}

proof fn lemma_header_lines(
    raw: Seq<u8>,
    before: Seq<u8>,
    lines: Seq<Seq<u8>>,
    colons: Seq<int>,
    body: Seq<u8>,
)
    requires
        raw == before + (lines_with_feeds(lines) + body),
        colons.len() == lines.len(),
        forall|i: int| 0 <= i < lines.len() ==> named_line(#[trigger] lines[i], colons[i]),
        body.len() > 0,
        !body.contains(58),
        body[0] != 10,
        body[0] != 13,
    ensures
        unmarked_header_len(raw, before.len() as int, false) == Some(
            before.len() as int + lines_with_feeds(lines).len(),
        ),
    decreases lines.len(),
{
    let start = before.len() as int;
    let rest = raw.skip(start);
    assert(rest =~= lines_with_feeds(lines) + body);
    lemma_first_of(rest, 10u8);
    let n = first_of(rest, 10u8) as int;
    if lines.len() == 0 {
        assert(rest =~= body);
        if n < rest.len() {
            let line = without_return(rest.take(n));
            assert(rest[0] != 10);
            assert(n > 0);
            if n == 1 {
                assert(rest.take(n).last() == body[0]);
            }
            assert(line.len() > 0);
            lemma_first_of(line, 58u8);
            if (first_of(line, 58u8) as int) < line.len() {
                let k = first_of(line, 58u8) as int;
                assert(line[k] == 58);
                assert(body[k] == 58);
                assert(body.contains(58));
            }
        }
    } else {
        let line = lines[0];
        let m = line.len() as int;
        assert(named_line(line, colons[0]));
        let more = lines.drop_first();
        assert(rest =~= line + seq![10u8] + (lines_with_feeds(more) + body));
        assert forall|j: int| 0 <= j < m implies rest[j] != 10 by {
            assert(rest[j] == line[j]);
            assert(line.contains(line[j]));
        }
        lemma_first_of_is(rest, 10u8, m);
        assert(rest.take(m) =~= line);
        assert forall|j: int| 0 <= j < colons[0] implies line[j] != 58u8 by {
            assert(33 <= line[j] <= 126 || line[j] == 9);
        }
        lemma_first_of_is(line, 58u8, colons[0]);
        assert(field_line(line)) by {
            assert forall|i: int| 0 <= i < colons[0] implies name_byte(#[trigger] line[i]) by {}
        }
        let next = before + line + seq![10u8];
        assert(raw =~= next + (lines_with_feeds(more) + body));
        let fewer = colons.drop_first();
        assert forall|i: int| 0 <= i < more.len() implies named_line(#[trigger] more[i], fewer[i]) by {
            assert(named_line(lines[i + 1], colons[i + 1]));
        }
        lemma_header_lines(raw, next, more, fewer, body);
        assert(next.len() == start + m + 1);
    }
}

/// The error of a body that cannot be had names its coding.
pub proof fn law_error_names_the_coding(coding: Seq<char>, e: DecompressError)
    ensures
        coding == "gzip"@ || coding == "x-gzip"@ ==> (fails_with(coding, e) <==> e
            == DecompressError::Gzip),
        coding == "deflate"@ ==> (fails_with(coding, e) <==> e == DecompressError::Deflate),
        coding == "br"@ ==> (fails_with(coding, e) <==> e == DecompressError::Brotli),
        coding != "gzip"@ && coding != "x-gzip"@ && coding != "deflate"@ && coding != "br"@ ==> (
        fails_with(coding, e) <==> e is Unsupported && e->0@ == coding),
        fails_with(coding, e) && e is Unsupported ==> e.text() == "unsupported content-encoding: "@
            + coding,
{
    reveal_strlit("gzip");
    reveal_strlit("x-gzip");
    reveal_strlit("deflate");
    reveal_strlit("br");
    assert("gzip"@.len() == 4 && "x-gzip"@.len() == 6 && "deflate"@.len() == 7 && "br"@.len() == 2);
}

/// A status is read from a first line that begins with `HTTP/` alone, as its second word.
pub proof fn law_status_is_the_second_word(
    raw: Seq<u8>,
    version: Seq<char>,
    status: Seq<char>,
    rest: Seq<char>,
)
    requires
        first_line_of(raw) == version + seq![' '] + status + rest,
        is_plain_word(version),
        is_plain_word(status),
        rest.len() == 0 || rest[0] == ' ',
    ensures
        begins_with(version, "HTTP/"@) ==> response_status(raw) == parsed_u16(status),
        version.len() >= 5 && !begins_with(version, "HTTP/"@) ==> response_status(raw) is None,
{
    reveal_strlit("HTTP/");
    let line = first_line_of(raw);
    if version.len() >= 5 {
        assert(line.take(5) =~= version.take(5));
    }
    let tail = seq![' '] + status + rest;
    assert(line =~= version + tail);
    law_next_word(version, tail);
    law_next_word(status, rest);
}

/// An error in words names what failed.
pub proof fn law_error_in_words(e: DecompressError)
    ensures
        match e {
            DecompressError::Gzip => e.text() == "gzip"@ + " decompress failed"@,
            DecompressError::Deflate => e.text() == "deflate"@ + " decompress failed"@,
            DecompressError::Brotli => e.text() == "brotli"@ + " decompress failed"@,
            DecompressError::Unsupported(coding) => e.text() == "unsupported content-encoding: "@
                + coding@,
        },
{
    reveal_strlit("gzip");
    reveal_strlit("deflate");
    reveal_strlit("brotli");
    reveal_strlit(" decompress failed");
    reveal_strlit("gzip decompress failed");
    reveal_strlit("deflate decompress failed");
    reveal_strlit("brotli decompress failed");
    assert("gzip"@ + " decompress failed"@ =~= "gzip decompress failed"@);
    assert("deflate"@ + " decompress failed"@ =~= "deflate decompress failed"@);
    assert("brotli"@ + " decompress failed"@ =~= "brotli decompress failed"@);
}

} // verus!
