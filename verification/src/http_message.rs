//! Requests and responses as the proxy sees them: what is read from their heads, and the bytes
//! that they are written as.
use vstd::prelude::*;
use vstd::string::StringExecFns;
use crate::http_raw::{
    body_decoded, brotli_decoded, deflate_decoded, encoded_with, fields_of, first_line_of,
    first_value, gzip_decoded, header_len, header_of, header_parts, latin1, latin1_bytes,
    latin1_encoded, latin1_to_string, law_brotli_is_undone_on_disk, law_deflate_is_undone_on_disk,
    law_first_field_counts, law_gzip_is_undone_on_disk, law_split_loses_nothing, lines_of,
    names_first, parse_header_value, parse_request_line, request_line, response_status, with_body,
    without_returns,
};
use crate::number::{decimal, decimal_text, is_digit, lemma_decimal, without_plus};
use crate::text::{
    all_white_space, ascii_lowercase, begins_with, ends_with, finishes_with, join, joined,
    law_trim_takes_white_space_off, lemma_first_of_is, lemma_join_front, lemma_word_len,
    lowercase, opt_str, opt_text, place_from, same, same_ignoring_ascii_case, split_on, stands_at,
    starts_with, texts, trim, trim_end_char, trim_start, white_space,
};
use crate::weburl::{
    is_web_scheme, opt_url, parse_url, url_parse, web_scheme, web_url, ParsedUrl, UrlView,
};

verus! {

// ---------------------------------------------------------------------------
// The heads.
// ---------------------------------------------------------------------------

#[derive(Debug, Clone, Copy, PartialEq, Eq, Structural)]
pub enum HttpVersion {
    Http10,
    Http11,
    Http2,
    Http3,
    Other,
}

/// A header field. Its value need not be text.
#[derive(Debug, Clone)]
pub struct HeaderField {
    pub name: String,
    pub value: Vec<u8>,
}

/// What a request says before its body.
#[derive(Debug, Clone)]
pub struct RequestHead {
    pub method: String,
    /// The target as it is written.
    pub target: String,
    /// The scheme and the authority of the target, where it has them.
    pub scheme: Option<String>,
    pub authority: Option<String>,
    pub version: HttpVersion,
    pub headers: Vec<HeaderField>,
}

/// What a response says before its body.
#[derive(Debug, Clone)]
pub struct ResponseHead {
    pub version: HttpVersion,
    pub status: u16,
    pub headers: Vec<HeaderField>,
}

/// The model of a header field.
#[verifier::ext_equal]
pub struct FieldView {
    pub name: Seq<char>,
    pub value: Seq<u8>,
}

/// The model of a request head.
#[verifier::ext_equal]
pub struct RequestView {
    pub method: Seq<char>,
    pub target: Seq<char>,
    pub scheme: Option<Seq<char>>,
    pub authority: Option<Seq<char>>,
    pub version: HttpVersion,
    pub headers: Seq<FieldView>,
}

/// The model of a response head.
#[verifier::ext_equal]
pub struct ResponseView {
    pub version: HttpVersion,
    pub status: u16,
    pub headers: Seq<FieldView>,
}

impl View for HeaderField {
    type V = FieldView;

    open spec fn view(&self) -> FieldView {
        FieldView { name: self.name@, value: self.value@ }
    }
}

/// The views of a list of header fields.
pub open spec fn header_views(headers: Seq<HeaderField>) -> Seq<FieldView> {
    Seq::new(headers.len(), |i: int| headers[i]@)
}

impl View for RequestHead {
    type V = RequestView;

    open spec fn view(&self) -> RequestView {
        RequestView {
            method: self.method@,
            target: self.target@,
            scheme: opt_text(self.scheme),
            authority: opt_text(self.authority),
            version: self.version,
            headers: header_views(self.headers@),
        }
    }
}

impl View for ResponseHead {
    type V = ResponseView;

    open spec fn view(&self) -> ResponseView {
        ResponseView {
            version: self.version,
            status: self.status,
            headers: header_views(self.headers@),
        }
    }
}

// ---------------------------------------------------------------------------
// Header values.
// ---------------------------------------------------------------------------

/// A byte of text: printable ASCII or a tab.
pub open spec fn text_byte(b: u8) -> bool {
    32 <= b <= 126 || b == 9
}

/// A header value as text, where it is made of text bytes alone.
pub open spec fn value_text(value: Seq<u8>) -> Option<Seq<char>> {
    if forall|i: int| 0 <= i < value.len() ==> text_byte(#[trigger] value[i]) {
        Some(latin1(value))
    } else {
        None
    }
}

/// The text of the first header with this name, whatever its case; none where it is no text.
pub open spec fn header_text(headers: Seq<FieldView>, name: Seq<char>) -> Option<Seq<char>>
    decreases headers.len(),
{
    if headers.len() == 0 {
        None
    } else if lowercase(headers[0].name) == lowercase(name) {
        value_text(headers[0].value)
    } else {
        header_text(headers.drop_first(), name)
    }
}

/// A header value as text.
pub fn text_of_value(value: &[u8]) -> (r: Option<String>)
    ensures
        opt_text(r) == value_text(value@),
{
    let mut i: usize = 0;
    while i < value.len()
        invariant
            i <= value@.len(),
            forall|j: int| 0 <= j < i ==> text_byte(#[trigger] value@[j]),
        decreases value@.len() - i,
    {
        let b: u8 = value[i];
        if !((32 <= b && b <= 126) || b == 9) {
            assert(!text_byte(value@[i as int]));
            return None;
        }
        i = i + 1;
    }
    Some(latin1_to_string(value))
}

/// The text of the first header with this name, whatever its case.
pub fn header_value(headers: &[HeaderField], name: &str) -> (r: Option<String>)
    ensures
        opt_text(r) == header_text(header_views(headers@), name@),
{
    let target = name.to_lowercase();
    let ghost all = header_views(headers@);
    let mut i: usize = 0;
    assert(all.skip(0) =~= all);
    while i < headers.len()
        invariant
            i <= headers@.len(),
            all == header_views(headers@),
            target@ == lowercase(name@),
            header_text(all, name@) == header_text(all.skip(i as int), name@),
        decreases headers@.len() - i,
    {
        assert(all.skip(i as int)[0] == headers@[i as int]@);
        if headers[i].name.as_str().to_lowercase() == target {
            return text_of_value(headers[i].value.as_slice());
        }
        assert(all.skip(i as int).drop_first() =~= all.skip(i + 1));
        i = i + 1;
    }
    None
}

// ---------------------------------------------------------------------------
// Writing a message.
// ---------------------------------------------------------------------------

/// What `http::StatusCode::canonical_reason` gives for a status.
pub uninterp spec fn status_reason(status: u16) -> Option<Seq<char>>;

/// `http::StatusCode::canonical_reason`: the phrase that belongs to a status, which is printable
/// ASCII; none where the number is no status or has no phrase.
#[verifier::external_body]
fn reason_phrase(status: u16) -> (r: Option<&'static str>)
    ensures
        opt_str(r) == status_reason(status),
        r is Some ==> forall|i: int| 0 <= i < r->0@.len() ==> ' ' <= #[trigger] r->0@[i] <= '~',
{
    hudsucker::hyper::StatusCode::from_u16(status).ok()?.canonical_reason()
}

pub open spec fn version_text(version: HttpVersion) -> Seq<char> {
    match version {
        HttpVersion::Http10 => "1.0"@,
        HttpVersion::Http2 => "2"@,
        HttpVersion::Http3 => "3"@,
        _ => "1.1"@,
    }
}

/// The text of a value; empty where it is none.
pub open spec fn text_or_empty(text: Option<Seq<char>>) -> Seq<char> {
    match text {
        Some(t) => t,
        None => seq![],
    }
}

/// The line of a header field.
pub open spec fn field_text(field: FieldView) -> Seq<char> {
    field.name + ": "@ + text_or_empty(value_text(field.value))
}

/// The lines of the header fields.
pub open spec fn field_texts(headers: Seq<FieldView>) -> Seq<Seq<char>> {
    Seq::new(headers.len(), |i: int| field_text(headers[i]))
}

/// The header fields, one in each line.
pub open spec fn header_block(headers: Seq<FieldView>) -> Seq<char> {
    join(field_texts(headers), "\r\n"@)
}

/// The request line.
pub open spec fn request_start(head: RequestView) -> Seq<char> {
    head.method + " "@ + head.target + " HTTP/"@ + version_text(head.version)
}

/// The status line.
pub open spec fn response_start(head: ResponseView, reason: Seq<char>) -> Seq<char> {
    "HTTP/"@ + version_text(head.version) + " "@ + decimal(head.status as nat) + " "@ + reason
}

/// The text before the body of a message.
pub open spec fn head_text(start: Seq<char>, headers: Seq<FieldView>) -> Seq<char> {
    start + "\r\n"@ + header_block(headers) + "\r\n\r\n"@
}

/// A request in full.
pub open spec fn request_bytes(head: RequestView, body: Seq<u8>) -> Seq<u8> {
    latin1_encoded(head_text(request_start(head), head.headers)) + body
}

/// A response in full.
pub open spec fn response_bytes(head: ResponseView, reason: Seq<char>, body: Seq<u8>) -> Seq<u8> {
    latin1_encoded(head_text(response_start(head, reason), head.headers)) + body
}

pub fn http_version_string(version: HttpVersion) -> (r: &'static str)
    ensures
        r@ == version_text(version),
{
    match version {
        HttpVersion::Http10 => "1.0",
        HttpVersion::Http2 => "2",
        HttpVersion::Http3 => "3",
        HttpVersion::Http11 => "1.1",
        HttpVersion::Other => "1.1",
    }
}

/// The header fields, one in each line.
pub fn serialize_raw_headers(headers: &[HeaderField]) -> (r: String)
    ensures
        r@ == header_block(header_views(headers@)),
{
    let ghost all = field_texts(header_views(headers@));
    let mut lines: Vec<String> = Vec::new();
    let mut i: usize = 0;
    while i < headers.len()
        invariant
            i <= headers@.len(),
            all == field_texts(header_views(headers@)),
            texts(lines@) == all.take(i as int),
        decreases headers@.len() - i,
    {
        let mut line = headers[i].name.as_str().to_owned();
        line.append(": ");
        match text_of_value(headers[i].value.as_slice()) {
            Some(value) => {
                line.append(value.as_str());
            },
            None => {
                assert(line@ + Seq::<char>::empty() =~= line@);
            },
        }
        assert(line@ == all[i as int]);
        assert(texts(lines@.push(line)) =~= texts(lines@).push(line@));
        assert(all.take(i + 1) =~= all.take(i as int).push(line@));
        lines.push(line);
        i = i + 1;
    }
    assert(all.take(i as int) =~= all);
    joined(lines.as_slice(), "\r\n")
}

fn head_bytes(start: &str, headers: &[HeaderField], body: &[u8]) -> (r: Vec<u8>)
    ensures
        r@ == latin1_encoded(head_text(start@, header_views(headers@))) + body@,
{
    let mut text = start.to_owned();
    text.append("\r\n");
    text.append(serialize_raw_headers(headers).as_str());
    text.append("\r\n\r\n");
    let mut out = latin1_bytes(text.as_str());
    let ghost before = out@;
    out.extend_from_slice(body);
    assert(out@ =~= before + body@);
    out
}

/// A request in full.
pub fn serialize_request(head: &RequestHead, body: &[u8]) -> (r: Vec<u8>)
    ensures
        r@ == request_bytes(head@, body@),
{
    let mut start = head.method.as_str().to_owned();
    start.append(" ");
    start.append(head.target.as_str());
    start.append(" HTTP/");
    start.append(http_version_string(head.version));
    head_bytes(start.as_str(), head.headers.as_slice(), body)
}

/// A response in full, with this phrase in its status line.
pub fn serialize_response_as(head: &ResponseHead, reason: &str, body: &[u8]) -> (r: Vec<u8>)
    ensures
        r@ == response_bytes(head@, reason@, body@),
{
    let mut start = "HTTP/".to_owned();
    start.append(http_version_string(head.version));
    start.append(" ");
    start.append(decimal_text(head.status as u64).as_str());
    start.append(" ");
    start.append(reason);
    head_bytes(start.as_str(), head.headers.as_slice(), body)
}

/// A response in full, with the phrase that belongs to its status.
pub fn serialize_response(head: &ResponseHead, body: &[u8]) -> (r: Vec<u8>)
    ensures
        r@ == response_bytes(head@, text_or_empty(status_reason(head.status)), body@),
        response_status(r@) == Some(head.status),
        head@.headers.len() > 0 && one_line_names(head@.headers) ==> header_len(r@) == Some(
            r@.len() - body@.len(),
        ),
{
    let phrase = reason_phrase(head.status);
    let ghost reason = text_or_empty(opt_str(phrase));
    proof {
        reveal_strlit("");
        assert(""@ =~= Seq::<char>::empty());
        assert(one_line(reason)) by {
            assert forall|i: int| 0 <= i < reason.len() implies (#[trigger] reason[i] as u32) < 256
                && reason[i] != '\r' && reason[i] != '\n' by {
                assert(' ' <= phrase->0@[i] <= '~');
            }
        }
        law_status_is_read_back(head@, reason, body@);
        if head@.headers.len() > 0 && one_line_names(head@.headers) {
            law_response_splits_back(head@, reason, body@);
            let raw = response_bytes(head@, reason, body@);
            law_split_loses_nothing(raw);
        }
    }
    match phrase {
        Some(reason) => serialize_response_as(head, reason, body),
        None => serialize_response_as(head, "", body),
    }
}

// ---------------------------------------------------------------------------
// The URL of a request.
// ---------------------------------------------------------------------------

/// A target that is a URL of the web in itself.
pub open spec fn absolute_target(target: Seq<char>) -> bool {
    begins_with(target, "http://"@) || begins_with(target, "https://"@)
}

/// The URL of a target on a host.
pub open spec fn absolute_url(target: Seq<char>, host: Seq<char>, scheme: Seq<char>) -> Seq<char> {
    if absolute_target(target) {
        target
    } else {
        scheme + "://"@ + host + target
    }
}

/// The first of two where there is one, else the second.
pub open spec fn first_some(a: Option<Seq<char>>, b: Option<Seq<char>>) -> Option<Seq<char>> {
    if a is Some {
        a
    } else {
        b
    }
}

/// The host that raw header lines name.
pub open spec fn raw_host(raw: Seq<u8>) -> Option<Seq<char>> {
    first_some(header_of(raw, "host"@), header_of(raw, ":authority"@))
}

/// The URL that a raw request asks for.
pub open spec fn raw_request_url(raw: Seq<u8>) -> Option<Seq<char>> {
    match request_line(raw) {
        Some((_, target)) => if absolute_target(target) {
            Some(target)
        } else {
            match raw_host(raw) {
                Some(host) => {
                    let scheme = first_some(
                        first_some(
                            header_of(raw, ":scheme"@),
                            header_of(raw, "x-forwarded-proto"@),
                        ),
                        Some("https"@),
                    );
                    Some(absolute_url(target, host, scheme->0))
                },
                None => None,
            }
        },
        None => None,
    }
}

/// The host that a request names: `Host`, else `:authority`, else the authority of its target.
pub open spec fn host_of(head: RequestView) -> Option<Seq<char>> {
    first_some(
        first_some(header_text(head.headers, "host"@), header_text(head.headers, ":authority"@)),
        head.authority,
    )
}

/// The URL that a request asks for.
pub open spec fn request_url(head: RequestView, is_ssl: bool) -> Option<Seq<char>> {
    if absolute_target(head.target) {
        Some(head.target)
    } else {
        match host_of(head) {
            Some(host) => {
                let scheme = first_some(
                    first_some(head.scheme, header_text(head.headers, ":scheme"@)),
                    Some(if is_ssl { "https"@ } else { "http"@ }),
                );
                Some(absolute_url(head.target, host, scheme->0))
            },
            None => None,
        }
    }
}

/// The page that a request comes from.
pub open spec fn page_url(head: RequestView) -> Option<Seq<char>> {
    first_some(header_text(head.headers, "referer"@), header_text(head.headers, "origin"@))
}

fn is_absolute_target(target: &str) -> (r: bool)
    ensures
        r == absolute_target(target@),
{
    starts_with(target, "http://") || starts_with(target, "https://")
}

/// The URL of a target on a host.
pub fn absolute_http_url(target: &str, host: &str, scheme: &str) -> (r: String)
    ensures
        r@ == absolute_url(target@, host@, scheme@),
{
    if is_absolute_target(target) {
        target.to_owned()
    } else {
        let mut s = scheme.to_owned();
        s.append("://");
        s.append(host);
        s.append(target);
        s
    }
}

/// The host that raw header lines name.
pub fn request_host_from_raw(raw: &[u8]) -> (r: Option<String>)
    ensures
        opt_text(r) == raw_host(raw@),
{
    match parse_header_value(raw, "host") {
        Some(host) => Some(host),
        None => parse_header_value(raw, ":authority"),
    }
}

/// The URL that a raw request asks for.
pub fn resolve_request_url(raw: &[u8]) -> (r: Option<String>)
    ensures
        opt_text(r) == raw_request_url(raw@),
{
    match parse_request_line(raw) {
        Some((_, target)) => {
            if is_absolute_target(target.as_str()) {
                return Some(target);
            }
            match request_host_from_raw(raw) {
                Some(host) => {
                    let scheme = match parse_header_value(raw, ":scheme") {
                        Some(scheme) => scheme,
                        None => match parse_header_value(raw, "x-forwarded-proto") {
                            Some(scheme) => scheme,
                            None => "https".to_owned(),
                        },
                    };
                    Some(absolute_http_url(target.as_str(), host.as_str(), scheme.as_str()))
                },
                None => None,
            }
        },
        None => None,
    }
}

/// The host that a request names.
pub fn request_host(head: &RequestHead) -> (r: Option<String>)
    ensures
        opt_text(r) == host_of(head@),
{
    match header_value(head.headers.as_slice(), "host") {
        Some(host) => Some(host),
        None => match header_value(head.headers.as_slice(), ":authority") {
            Some(host) => Some(host),
            None => match &head.authority {
                Some(authority) => Some(authority.clone()),
                None => None,
            },
        },
    }
}

/// The URL that a request asks for.
pub fn request_url_from_message(head: &RequestHead, is_ssl: bool) -> (r: Option<String>)
    ensures
        opt_text(r) == request_url(head@, is_ssl),
{
    if is_absolute_target(head.target.as_str()) {
        return Some(head.target.clone());
    }
    match request_host(head) {
        Some(host) => {
            let scheme = match &head.scheme {
                Some(scheme) => scheme.clone(),
                None => match header_value(head.headers.as_slice(), ":scheme") {
                    Some(scheme) => scheme,
                    None => if is_ssl {
                        "https".to_owned()
                    } else {
                        "http".to_owned()
                    },
                },
            };
            Some(absolute_http_url(head.target.as_str(), host.as_str(), scheme.as_str()))
        },
        None => None,
    }
}

/// The page that a request comes from.
pub fn page_url_from_request(head: &RequestHead) -> (r: Option<String>)
    ensures
        opt_text(r) == page_url(head@),
{
    match header_value(head.headers.as_slice(), "referer") {
        Some(url) => Some(url),
        None => header_value(head.headers.as_slice(), "origin"),
    }
}

// ---------------------------------------------------------------------------
// Origins.
// ---------------------------------------------------------------------------

/// The port that a scheme of the web has by default.
pub open spec fn default_port(scheme: Seq<char>) -> u16 {
    if scheme == "https"@ {
        443
    } else {
        80
    }
}

/// The origin of a URL of the web: the port is left out where it is the one of the scheme.
pub open spec fn origin_of(url: UrlView) -> Option<Seq<char>> {
    if !web_scheme(url.scheme) || url.host is None {
        None
    } else if url.port is Some && url.port->0 != default_port(url.scheme) {
        Some(url.scheme + "://"@ + url.host->0 + ":"@ + decimal(url.port->0 as nat))
    } else {
        Some(url.scheme + "://"@ + url.host->0)
    }
}

/// The origin of a text that is a URL of the web.
pub open spec fn origin_of_text(url: Option<Seq<char>>) -> Option<Seq<char>> {
    match url {
        Some(text) => match url_parse(text) {
            Some(u) => origin_of(u),
            None => None,
        },
        None => None,
    }
}

/// The origin of a URL of the web.
pub fn url_origin(url: &ParsedUrl) -> (r: Option<String>)
    ensures
        opt_text(r) == origin_of(url@),
{
    if !is_web_scheme(url.scheme.as_str()) {
        return None;
    }
    let default: u16 = if same(url.scheme.as_str(), "https") { 443 } else { 80 };
    match &url.host {
        Some(host) => {
            let mut s = url.scheme.as_str().to_owned();
            s.append("://");
            s.append(host.as_str());
            if let Some(port) = url.port {
                if port != default {
                    s.append(":");
                    s.append(decimal_text(port as u64).as_str());
                }
            }
            Some(s)
        },
        None => None,
    }
}

/// The origin of a text that is a URL of the web.
pub fn extract_origin_from_url(url: Option<&str>) -> (r: Option<String>)
    ensures
        opt_text(r) == origin_of_text(opt_str(url)),
        r is Some <==> url is Some && web_url(url->0@) is Some,
{
    match url {
        Some(text) => match parse_url(text) {
            Some(u) => url_origin(&u),
            None => None,
        },
        None => None,
    }
}

// ---------------------------------------------------------------------------
// What a request is for.
// ---------------------------------------------------------------------------

/// A text that is the same as `word` but for the case of ASCII letters.
pub open spec fn is_word(text: Option<Seq<char>>, word: Seq<char>) -> bool {
    text is Some && ascii_lowercase(text->0) == ascii_lowercase(word)
}

/// An origin or page that is no web page, where `parsed` is the URL that it is.
pub open spec fn ui_origin(value: Seq<char>, parsed: Option<UrlView>) -> bool {
    &&& ascii_lowercase(value) != ascii_lowercase("null"@)
    &&& parsed is Some
    &&& !web_scheme(parsed->0.scheme)
}

/// A header that names a page which is no web page.
pub open spec fn names_ui_page(text: Option<Seq<char>>) -> bool {
    text is Some && ui_origin(text->0, url_parse(text->0))
}

/// A request that the browser makes for itself: one that no page asked for and that loads
/// nothing, or one that comes from a page of the browser's own.
pub open spec fn browser_internal(head: RequestView) -> bool {
    ||| is_word(header_text(head.headers, "sec-fetch-site"@), "none"@) && is_word(
        header_text(head.headers, "sec-fetch-dest"@),
        "empty"@,
    )
    ||| names_ui_page(header_text(head.headers, "origin"@))
    ||| names_ui_page(header_text(head.headers, "referer"@))
}

/// What kind of resource a fetch destination stands for; nothing where it is not known.
pub open spec fn type_of_dest(dest: Seq<char>) -> Option<Seq<char>> {
    if dest == "document"@ {
        Some("main_frame"@)
    } else if dest == "iframe"@ {
        Some("sub_frame"@)
    } else if dest == "script"@ {
        Some("script"@)
    } else if dest == "style"@ {
        Some("stylesheet"@)
    } else if dest == "image"@ {
        Some("image"@)
    } else if dest == "font"@ {
        Some("font"@)
    } else if dest == "empty"@ {
        Some("fetch"@)
    } else {
        None
    }
}

/// What kind of resource a fetch mode stands for; nothing where it says too little.
pub open spec fn type_of_mode(mode: Seq<char>) -> Option<Seq<char>> {
    if mode == "navigate"@ {
        Some("main_frame"@)
    } else if mode == "cors"@ || mode == "no-cors"@ {
        Some("fetch"@)
    } else {
        None
    }
}

/// What kind of resource the end of a path stands for.
pub open spec fn type_of_path(path: Seq<char>) -> Option<Seq<char>> {
    if finishes_with(path, ".js"@) {
        Some("script"@)
    } else if finishes_with(path, ".css"@) {
        Some("stylesheet"@)
    } else {
        None
    }
}

/// The kind of a resource: what its destination, else its mode, else its path stands for.
/// All three are in lowercase.
pub open spec fn resource_type(
    dest: Option<Seq<char>>,
    mode: Option<Seq<char>>,
    path: Option<Seq<char>>,
) -> Seq<char> {
    let by_dest = if dest is Some {
        type_of_dest(dest->0)
    } else {
        None
    };
    let by_mode = if mode is Some {
        type_of_mode(mode->0)
    } else {
        None
    };
    let by_path = if path is Some {
        type_of_path(path->0)
    } else {
        None
    };
    first_some(first_some(first_some(by_dest, by_mode), by_path), Some("other"@))->0
}

/// The lowercase form of an optional text.
pub open spec fn opt_lowercase(text: Option<Seq<char>>) -> Option<Seq<char>> {
    match text {
        Some(t) => Some(lowercase(t)),
        None => None,
    }
}

/// The path of a URL.
pub open spec fn path_of(url: Option<UrlView>) -> Option<Seq<char>> {
    match url {
        Some(u) => Some(u.path),
        None => None,
    }
}

/// The kind of resource that a request is for.
pub open spec fn request_type(head: RequestView, url: Seq<char>) -> Seq<char> {
    resource_type(
        opt_lowercase(header_text(head.headers, "sec-fetch-dest"@)),
        opt_lowercase(header_text(head.headers, "sec-fetch-mode"@)),
        opt_lowercase(path_of(url_parse(url))),
    )
}

fn header_is(head: &RequestHead, name: &str, word: &str) -> (r: bool)
    ensures
        r == is_word(header_text(head@.headers, name@), word@),
{
    match header_value(head.headers.as_slice(), name) {
        Some(text) => same_ignoring_ascii_case(text.as_str(), word),
        None => false,
    }
}

/// Whether an origin or page is no web page, where `parsed` is the URL that it is.
pub fn is_ui_origin(value: &str, parsed: &Option<ParsedUrl>) -> (r: bool)
    ensures
        r == ui_origin(value@, opt_url(*parsed)),
{
    if same_ignoring_ascii_case(value, "null") {
        return false;
    }
    match parsed {
        Some(u) => !is_web_scheme(u.scheme.as_str()),
        None => false,
    }
}

/// Whether an origin or page is no web page.
pub fn is_browser_ui_origin(value: &str) -> (r: bool)
    ensures
        r == ui_origin(value@, url_parse(value@)),
{
    is_ui_origin(value, &parse_url(value))
}

fn header_names_ui_page(head: &RequestHead, name: &str) -> (r: bool)
    ensures
        r == names_ui_page(header_text(head@.headers, name@)),
{
    match header_value(head.headers.as_slice(), name) {
        Some(value) => is_browser_ui_origin(value.as_str()),
        None => false,
    }
}

/// Whether the browser makes the request for itself.
pub fn is_browser_internal_request(head: &RequestHead) -> (r: bool)
    ensures
        r == browser_internal(head@),
{
    (header_is(head, "sec-fetch-site", "none") && header_is(head, "sec-fetch-dest", "empty"))
        || header_names_ui_page(head, "origin") || header_names_ui_page(head, "referer")
}

/// The kind of a resource, from its destination, mode and path, all in lowercase.
pub fn classify_resource(
    dest: &Option<String>,
    mode: &Option<String>,
    path: &Option<String>,
) -> (r: String)
    ensures
        r@ == resource_type(opt_text(*dest), opt_text(*mode), opt_text(*path)),
{
    if let Some(dest) = dest {
        let d = dest.as_str();
        if same(d, "document") {
            return "main_frame".to_owned();
        }
        if same(d, "iframe") {
            return "sub_frame".to_owned();
        }
        if same(d, "script") {
            return "script".to_owned();
        }
        if same(d, "style") {
            return "stylesheet".to_owned();
        }
        if same(d, "image") {
            return "image".to_owned();
        }
        if same(d, "font") {
            return "font".to_owned();
        }
        if same(d, "empty") {
            return "fetch".to_owned();
        }
    }
    if let Some(mode) = mode {
        let m = mode.as_str();
        if same(m, "navigate") {
            return "main_frame".to_owned();
        }
        if same(m, "cors") || same(m, "no-cors") {
            return "fetch".to_owned();
        }
    }
    if let Some(path) = path {
        let p = path.as_str();
        if ends_with(p, ".js") {
            return "script".to_owned();
        }
        if ends_with(p, ".css") {
            return "stylesheet".to_owned();
        }
    }
    "other".to_owned()
}

fn lowered(text: Option<String>) -> (r: Option<String>)
    ensures
        opt_text(r) == opt_lowercase(opt_text(text)),
{
    match text {
        Some(t) => Some(t.as_str().to_lowercase()),
        None => None,
    }
}

/// The kind of resource that a request is for.
pub fn infer_resource_type(head: &RequestHead, url: &str) -> (r: String)
    ensures
        r@ == request_type(head@, url@),
{
    let dest = lowered(header_value(head.headers.as_slice(), "sec-fetch-dest"));
    let mode = lowered(header_value(head.headers.as_slice(), "sec-fetch-mode"));
    let path = lowered(
        match parse_url(url) {
            Some(u) => Some(u.path),
            None => None,
        },
    );
    classify_resource(&dest, &mode, &path)
}

// ---------------------------------------------------------------------------
// What is written can be read back.
// ---------------------------------------------------------------------------

/// A text that Latin-1 can hold and that has no line ending in it.
pub open spec fn one_line(s: Seq<char>) -> bool {
    forall|i: int|
        0 <= i < s.len() ==> (#[trigger] s[i] as u32) < 256 && s[i] != '\r' && s[i] != '\n'
}

/// Header fields whose names have no line ending in them.
pub open spec fn one_line_names(headers: Seq<FieldView>) -> bool {
    forall|i: int| 0 <= i < headers.len() ==> one_line(#[trigger] headers[i].name)
}

proof fn lemma_latin1_char(c: char)
    requires
        (c as u32) < 256,
    ensures
        (c as u8) as char == c,
        (c as u8) as int == c as int,
{
}

proof fn lemma_one_line_concat(a: Seq<char>, b: Seq<char>)
    requires
        one_line(a),
        one_line(b),
    ensures
        one_line(a + b),
{
    assert forall|i: int| 0 <= i < (a + b).len() implies (#[trigger] (a + b)[i] as u32) < 256 && (a
        + b)[i] != '\r' && (a + b)[i] != '\n' by {
        if i < a.len() {
            assert((a + b)[i] == a[i]);
        } else {
            assert((a + b)[i] == b[i - a.len()]);
        }
    }
}

proof fn lemma_field_text(field: FieldView)
    requires
        one_line(field.name),
    ensures
        one_line(field_text(field)),
        field_text(field).len() > 0,
{
    reveal_strlit(": ");
    let value = text_or_empty(value_text(field.value));
    assert(one_line(value)) by {
        if value_text(field.value) is Some {
            assert forall|i: int| 0 <= i < value.len() implies (#[trigger] value[i] as u32) < 256
                && value[i] != '\r' && value[i] != '\n' by {
                assert(text_byte(field.value[i]));
                assert(value[i] == field.value[i] as char);
            }
        }
    }
    lemma_one_line_concat(field.name, ": "@);
    lemma_one_line_concat(field.name + ": "@, value);
}

/// In lines that are joined no empty line stands.
proof fn lemma_no_empty_line(lines: Seq<Seq<char>>)
    requires
        lines.len() > 0,
        forall|i: int| 0 <= i < lines.len() ==> one_line(#[trigger] lines[i]) && lines[i].len() > 0,
    ensures
        ({
            let b = join(lines, "\r\n"@);
            &&& b.len() > 0
            &&& b[0] != '\r'
            &&& b.last() != '\n'
            &&& forall|i: int| 0 <= i < b.len() - 1 && #[trigger] b[i] == '\n' ==> b[i + 1] != '\r'
            &&& forall|i: int| 0 <= i < b.len() ==> (#[trigger] b[i] as u32) < 256
        }),
    decreases lines.len(),
{
    reveal_strlit("\r\n");
    let b = join(lines, "\r\n"@);
    if lines.len() == 1 {
        assert(one_line(lines[0]));
        assert(b == lines[0]);
    } else {
        let head = lines.drop_last();
        assert forall|i: int| 0 <= i < head.len() implies one_line(#[trigger] head[i])
            && head[i].len() > 0 by {
            assert(head[i] == lines[i]);
        }
        lemma_no_empty_line(head);
        let h = join(head, "\r\n"@);
        let last = lines.last();
        assert(one_line(lines[lines.len() - 1]));
        assert(b == h + "\r\n"@ + last);
        assert forall|i: int| 0 <= i < b.len() - 1 && #[trigger] b[i] == '\n' implies b[i + 1]
            != '\r' by {
            if i < h.len() - 1 {
                assert(h[i] == b[i]);
            } else if i == h.len() - 1 {
                assert(b[i] == h.last());
            } else if i == h.len() + 1 {
                assert(b[i + 1] == last[0]);
            } else if i > h.len() + 1 {
                assert(b[i] == last[i - h.len() - 2]);
            }
        }
        assert forall|i: int| 0 <= i < b.len() implies (#[trigger] b[i] as u32) < 256 by {
            if i < h.len() {
                assert(b[i] == h[i]);
            } else if i >= h.len() + 2 {
                assert(b[i] == last[i - h.len() - 2]);
            }
        }
        assert(b.last() == last.last());
        assert(b[0] == h[0]);
    }
}

/// Where nothing equal stands before, the first place is the one where the part stands.
proof fn lemma_place_from<T>(s: Seq<T>, part: Seq<T>, from: int, at: int)
    requires
        0 <= from <= at,
        stands_at(s, part, at),
        forall|i: int| from <= i < at ==> !#[trigger] stands_at(s, part, i),
    ensures
        place_from(s, part, from) == Some(at),
    decreases at - from,
{
    if from < at {
        lemma_place_from(s, part, from + 1, at);
    }
}

/// The header block of a message that was written from its parts ends before the body.
proof fn lemma_head_splits_back(start: Seq<char>, headers: Seq<FieldView>, body: Seq<u8>)
    requires
        one_line(start),
        one_line_names(headers),
        headers.len() > 0,
    ensures
        header_len(latin1_encoded(head_text(start, headers)) + body) == Some(
            head_text(start, headers).len() as int,
        ),
{
    reveal_strlit("\r\n");
    reveal_strlit("\r\n\r\n");
    let lines = field_texts(headers);
    assert forall|i: int| 0 <= i < lines.len() implies one_line(#[trigger] lines[i])
        && lines[i].len() > 0 by {
        assert(one_line(headers[i].name));
        lemma_field_text(headers[i]);
    }
    lemma_no_empty_line(lines);
    let block = header_block(headers);
    let text = head_text(start, headers);
    let raw = latin1_encoded(text) + body;
    let mark = seq![13u8, 10, 13, 10];
    let at: int = start.len() + 2int + block.len();
    assert forall|i: int| 0 <= i < text.len() implies raw[i] == #[trigger] text[i] as u8 && (
    text[i] as u32) < 256 by {
        if i < start.len() {
            assert(text[i] == start[i]);
        } else if start.len() + 2 <= i < at {
            assert(text[i] == block[i - start.len() - 2]);
        }
    }
    assert(raw.subrange(at, at + 4) =~= mark) by {
        assert(text[at] == '\r' && text[at + 1] == '\n');
        assert(text[at + 2] == '\r' && text[at + 3] == '\n');
    }
    assert forall|i: int| 0 <= i < at implies !#[trigger] stands_at(raw, mark, i) by {
        if stands_at(raw, mark, i) {
            let w = raw.subrange(i, i + 4);
            assert(w[1] == 10 && w[2] == 13);
            assert(raw[i + 1] == 10 && raw[i + 2] == 13);
            lemma_latin1_char(text[i + 1]);
            lemma_latin1_char(text[i + 2]);
            assert(text[i + 1] == '\n' && text[i + 2] == '\r');
            if i + 1 < start.len() {
                assert(text[i + 1] == start[i + 1]);
            } else if i + 1 == start.len() + 1 {
                assert(text[i + 2] == block[0]);
            } else if i + 1 >= start.len() + 2 && i + 2 < at {
                assert(text[i + 1] == block[i - 1 - start.len()]);
                assert(text[i + 2] == block[i - start.len()]);
            } else if i + 2 == at {
                assert(text[i + 1] == block.last());
            }
        }
    }
    lemma_place_from(raw, mark, 0, at);
}

/// A request that is written splits into its head and its body again, where it has a header.
pub proof fn law_request_splits_back(head: RequestView, body: Seq<u8>)
    requires
        one_line(head.method),
        one_line(head.target),
        one_line_names(head.headers),
        head.headers.len() > 0,
    ensures
        ({
            let raw = request_bytes(head, body);
            let n = header_len(raw);
            &&& n is Some
            &&& raw.take(n->0) == latin1_encoded(head_text(request_start(head), head.headers))
            &&& raw.skip(n->0) == body
        }),
{
    reveal_strlit(" ");
    reveal_strlit(" HTTP/");
    lemma_version(head.version);
    let a = head.method + " "@;
    lemma_one_line_concat(head.method, " "@);
    lemma_one_line_concat(a, head.target);
    lemma_one_line_concat(a + head.target, " HTTP/"@);
    lemma_one_line_concat(a + head.target + " HTTP/"@, version_text(head.version));
    lemma_head_splits_back(request_start(head), head.headers, body);
    let text = latin1_encoded(head_text(request_start(head), head.headers));
    let raw = request_bytes(head, body);
    assert(raw.take(text.len() as int) =~= text);
    assert(raw.skip(text.len() as int) =~= body);
}

proof fn lemma_version(version: HttpVersion)
    ensures
        one_line(version_text(version)),
        version_text(version).len() > 0,
        forall|i: int|
            0 <= i < version_text(version).len() ==> !white_space(
                #[trigger] version_text(version)[i],
            ),
{
    reveal_strlit("1.0");
    reveal_strlit("1.1");
    reveal_strlit("2");
    reveal_strlit("3");
}

pub proof fn lemma_response_start(head: ResponseView, reason: Seq<char>)
    requires
        one_line(reason),
    ensures
        one_line(response_start(head, reason)),
{
    reveal_strlit(" ");
    reveal_strlit("HTTP/");
    lemma_version(head.version);
    lemma_decimal(head.status as nat);
    let number = decimal(head.status as nat);
    assert(one_line(number)) by {
        assert forall|i: int| 0 <= i < number.len() implies (#[trigger] number[i] as u32) < 256
            && number[i] != '\r' && number[i] != '\n' by {
            assert(is_digit(number[i]));
        }
    }
    let a = "HTTP/"@ + version_text(head.version);
    lemma_one_line_concat("HTTP/"@, version_text(head.version));
    lemma_one_line_concat(a, " "@);
    lemma_one_line_concat(a + " "@, number);
    lemma_one_line_concat(a + " "@ + number, " "@);
    lemma_one_line_concat(a + " "@ + number + " "@, reason);
}

/// A response that is written splits into its head and its body again, where it has a header.
pub proof fn law_response_splits_back(head: ResponseView, reason: Seq<char>, body: Seq<u8>)
    requires
        one_line(reason),
        one_line_names(head.headers),
        head.headers.len() > 0,
    ensures
        ({
            let raw = response_bytes(head, reason, body);
            let n = header_len(raw);
            &&& n is Some
            &&& raw.take(n->0) == latin1_encoded(
                head_text(response_start(head, reason), head.headers),
            )
            &&& raw.skip(n->0) == body
        }),
{
    lemma_response_start(head, reason);
    lemma_head_splits_back(response_start(head, reason), head.headers, body);
    let text = latin1_encoded(head_text(response_start(head, reason), head.headers));
    let raw = response_bytes(head, reason, body);
    assert(raw.take(text.len() as int) =~= text);
    assert(raw.skip(text.len() as int) =~= body);
}

/// The first line of what is written is the line that it was begun with.
proof fn lemma_first_line_back(start: Seq<char>, headers: Seq<FieldView>, body: Seq<u8>)
    requires
        one_line(start),
    ensures
        first_line_of(latin1_encoded(head_text(start, headers)) + body) == start,
{
    reveal_strlit("\r\n");
    let text = head_text(start, headers);
    let raw = latin1_encoded(text) + body;
    let n = start.len() as int;
    assert forall|i: int| 0 <= i < n implies #[trigger] raw[i] as char == start[i] by {
        assert(text[i] == start[i]);
        lemma_latin1_char(start[i]);
    }
    assert(text[n] == '\r' && text[n + 1] == '\n');
    assert(raw[n] == 13 && raw[n + 1] == 10);
    lemma_first_of_is(raw, 10u8, n + 1);
    let line = latin1(raw.take(n + 1));
    assert(line.last() == '\r');
    assert(line.drop_last() =~= start);
    assert(start.len() > 0 ==> start.last() != '\r');
    assert(trim_end_char(line, '\r') == trim_end_char(start, '\r'));
}

/// The method and the target of a request that is written are read back, where neither has a
/// blank in it.
pub proof fn law_request_line_is_read_back(head: RequestView, body: Seq<u8>)
    requires
        one_line(head.method),
        one_line(head.target),
        !head.method.contains(' '),
        !head.target.contains(' '),
    ensures
        request_line(request_bytes(head, body)) == Some((head.method, head.target)),
{
    reveal_strlit(" ");
    reveal_strlit(" HTTP/");
    lemma_version(head.version);
    let a = head.method + " "@;
    lemma_one_line_concat(head.method, " "@);
    lemma_one_line_concat(a, head.target);
    lemma_one_line_concat(a + head.target, " HTTP/"@);
    lemma_one_line_concat(a + head.target + " HTTP/"@, version_text(head.version));
    let start = request_start(head);
    lemma_first_line_back(start, head.headers, body);
    let m = head.method.len() as int;
    let t = head.target.len() as int;
    assert forall|j: int| 0 <= j < m implies start[j] != ' ' by {
        assert(start[j] == head.method[j]);
    }
    lemma_first_of_is(start, ' ', m);
    let rest = start.skip(m + 1);
    assert forall|j: int| 0 <= j < t implies rest[j] == head.target[j] by {}
    assert forall|j: int| 0 <= j < t implies rest[j] != ' ' by {
        assert(rest[j] == head.target[j]);
    }
    assert(rest[t] == ' ');
    lemma_first_of_is(rest, ' ', t);
    assert(start.take(m) =~= head.method);
    assert(rest.take(t) =~= head.target);
    let parts = split_on(start, ' ');
    assert(parts == seq![head.method] + split_on(rest, ' '));
    assert(split_on(rest, ' ') == seq![head.target] + split_on(rest.skip(t + 1), ' '));
    assert(parts[0] == head.method);
    assert(parts[1] == split_on(rest, ' ')[0]);
}

/// The status of a response that is written is read back.
pub proof fn law_status_is_read_back(head: ResponseView, reason: Seq<char>, body: Seq<u8>)
    requires
        one_line(reason),
    ensures
        response_status(response_bytes(head, reason, body)) == Some(head.status),
{
    reveal_strlit(" ");
    reveal_strlit("HTTP/");
    lemma_response_start(head, reason);
    let start = response_start(head, reason);
    lemma_first_line_back(start, head.headers, body);
    lemma_version(head.version);
    lemma_decimal(head.status as nat);
    let version = version_text(head.version);
    let number = decimal(head.status as nat);
    let v = 5 + version.len() as int;
    let d = number.len() as int;
    assert(start.take(5) =~= "HTTP/"@);
    assert forall|j: int| 0 <= j < v implies !white_space(start[j]) by {
        if j >= 5 {
            assert(start[j] == version[j - 5]);
        }
    }
    assert(start[v] == ' ');
    assert(trim_start(start) == start);
    lemma_word_len(start, v);
    let rest = start.skip(v);
    let word = start.skip(v + 1);
    assert(rest.drop_first() =~= word);
    assert forall|j: int| 0 <= j < d implies word[j] == number[j] by {}
    assert forall|j: int| 0 <= j < d implies !white_space(word[j]) by {
        assert(is_digit(number[j]));
    }
    assert(word[0] == number[0]);
    assert(trim_start(rest) == trim_start(word));
    assert(trim_start(word) == word);
    assert(word[d] == ' ');
    lemma_word_len(word, d);
    assert(word.take(d) =~= number);
    assert(is_digit(number[0]));
    assert(without_plus(number) == number);
}

/// A header name: one character at least, and neither a colon nor white space.
pub open spec fn header_name(name: Seq<char>) -> bool {
    &&& name.len() > 0
    &&& one_line(name)
    &&& forall|i: int|
        0 <= i < name.len() ==> #[trigger] name[i] != ':' && !white_space(name[i])
}

/// What is written for the first header with this name, whatever its case.
pub open spec fn written_value(headers: Seq<FieldView>, name: Seq<char>) -> Option<Seq<char>>
    decreases headers.len(),
{
    if headers.len() == 0 {
        None
    } else if lowercase(headers[0].name) == lowercase(name) {
        Some(text_or_empty(value_text(headers[0].value)))
    } else {
        written_value(headers.drop_first(), name)
    }
}

/// A line in front of a text is the first of its lines.
proof fn lemma_line_in_front(line: Seq<char>, rest: Seq<char>)
    requires
        one_line(line),
    ensures
        without_returns(split_on(line + "\r\n"@ + rest, '\n')) == seq![line] + without_returns(
            split_on(rest, '\n'),
        ),
{
    reveal_strlit("\r\n");
    let text = line + "\r\n"@ + rest;
    let n = line.len() as int;
    assert forall|j: int| 0 <= j < n + 1 implies text[j] != '\n' by {
        if j < n {
            assert(text[j] == line[j]);
        }
    }
    assert(text[n + 1] == '\n');
    lemma_first_of_is(text, '\n', n + 1);
    let piece = text.take(n + 1);
    assert(piece.last() == '\r');
    assert(piece.drop_last() =~= line);
    assert(line.len() > 0 ==> line.last() != '\r');
    assert(trim_end_char(piece, '\r') == trim_end_char(line, '\r'));
    assert(text.skip(n + 2) =~= rest);
    assert(split_on(text, '\n') == seq![piece] + split_on(rest, '\n'));
    assert(without_returns(split_on(text, '\n')) =~= seq![line] + without_returns(
        split_on(rest, '\n'),
    ));
}

/// The lines of a header block are those that it was made of, and an empty one.
proof fn lemma_lines_back(lines: Seq<Seq<char>>)
    requires
        lines.len() > 0,
        forall|i: int| 0 <= i < lines.len() ==> one_line(#[trigger] lines[i]),
    ensures
        without_returns(split_on(join(lines, "\r\n"@) + "\r\n\r\n"@, '\n')) == lines + seq![
            seq![],
            seq![],
        ],
    decreases lines.len(),
{
    reveal_strlit("\r\n");
    reveal_strlit("\r\n\r\n");
    let none: Seq<char> = seq![];
    if lines.len() == 1 {
        assert(one_line(lines[0]));
        assert("\r\n\r\n"@ =~= "\r\n"@ + "\r\n"@);
        assert(lines[0] + "\r\n\r\n"@ =~= lines[0] + "\r\n"@ + "\r\n"@);
        lemma_line_in_front(lines[0], "\r\n"@);
        assert("\r\n"@ =~= none + "\r\n"@ + none);
        lemma_line_in_front(none, none);
        assert(split_on(none, '\n') =~= seq![none]);
        assert(trim_end_char(none, '\r') == none);
        assert(without_returns(seq![none]) =~= seq![none]);
        assert(seq![lines[0]] + (seq![none] + seq![none]) =~= lines + seq![none, none]);
    } else {
        lemma_join_front(lines, "\r\n"@);
        let tail = lines.drop_first();
        assert forall|i: int| 0 <= i < tail.len() implies one_line(#[trigger] tail[i]) by {
            assert(tail[i] == lines[i + 1]);
        }
        lemma_lines_back(tail);
        let rest = join(tail, "\r\n"@) + "\r\n\r\n"@;
        assert(join(lines, "\r\n"@) + "\r\n\r\n"@ =~= lines[0] + "\r\n"@ + rest);
        assert(one_line(lines[0]));
        lemma_line_in_front(lines[0], rest);
        assert(seq![lines[0]] + (tail + seq![none, none]) =~= lines + seq![none, none]);
    }
}

proof fn lemma_trim_name(name: Seq<char>)
    requires
        header_name(name),
    ensures
        trim(name) == name,
{
    assert(name[0] != ':');
    assert(name[name.len() - 1] != ':');
}

/// The name and the value of the line of a field.
proof fn lemma_field_parts(field: FieldView)
    requires
        header_name(field.name),
    ensures
        header_parts(field_text(field)) == Some(
            (field.name, trim(text_or_empty(value_text(field.value)))),
        ),
{
    reveal_strlit(": ");
    let value = text_or_empty(value_text(field.value));
    let line = field_text(field);
    let n = field.name.len() as int;
    assert forall|j: int| 0 <= j < n implies line[j] != ':' by {
        assert(line[j] == field.name[j]);
    }
    assert(line[n] == ':');
    lemma_first_of_is(line, ':', n);
    assert(line.take(n) =~= field.name);
    lemma_trim_name(field.name);
    let tail = line.skip(n + 1);
    assert(tail[0] == ' ');
    assert(tail.drop_first() =~= value);
    assert(trim_start(tail) == trim_start(value));
}

/// The fields that the lines of headers hold.
proof fn lemma_fields_back(headers: Seq<FieldView>)
    requires
        forall|i: int| 0 <= i < headers.len() ==> header_name(#[trigger] headers[i].name),
    ensures
        fields_of(field_texts(headers)) == Seq::new(
            headers.len(),
            |i: int|
                (
                    lowercase(headers[i].name),
                    trim(text_or_empty(value_text(headers[i].value))),
                ),
        ),
    decreases headers.len(),
{
    let pairs = Seq::new(
        headers.len(),
        |i: int|
            (lowercase(headers[i].name), trim(text_or_empty(value_text(headers[i].value)))),
    );
    if headers.len() == 0 {
        assert(fields_of(field_texts(headers)) =~= pairs);
    } else {
        let head = headers.drop_last();
        assert forall|i: int| 0 <= i < head.len() implies header_name(#[trigger] head[i].name) by {
            assert(head[i] == headers[i]);
        }
        lemma_fields_back(head);
        assert(field_texts(headers).drop_last() =~= field_texts(head));
        assert(header_name(headers[headers.len() - 1].name));
        lemma_field_parts(headers.last());
        assert(fields_of(field_texts(headers)) =~= pairs);
    }
}

/// Behind lines that hold no field, the fields are those of the other lines.
proof fn lemma_fields_behind(first: Seq<char>, lines: Seq<Seq<char>>)
    requires
        header_parts(first) is None,
    ensures
        fields_of(seq![first] + lines) == fields_of(lines),
    decreases lines.len(),
{
    let all = seq![first] + lines;
    if lines.len() == 0 {
        assert(all.drop_last() =~= lines);
    } else {
        assert(all.drop_last() =~= seq![first] + lines.drop_last());
        assert(all.last() == lines.last());
        lemma_fields_behind(first, lines.drop_last());
    }
}

proof fn lemma_first_written(headers: Seq<FieldView>, name: Seq<char>)
    ensures
        first_value(
            Seq::new(
                headers.len(),
                |i: int|
                    (
                        lowercase(headers[i].name),
                        trim(text_or_empty(value_text(headers[i].value))),
                    ),
            ),
            lowercase(name),
        ) == match written_value(headers, name) {
            Some(v) => Some(trim(v)),
            None => None,
        },
    decreases headers.len(),
{
    let pairs = Seq::new(
        headers.len(),
        |i: int|
            (lowercase(headers[i].name), trim(text_or_empty(value_text(headers[i].value)))),
    );
    if headers.len() > 0 {
        let tail = headers.drop_first();
        lemma_first_written(tail, name);
        assert(pairs.drop_first() =~= Seq::new(
            tail.len(),
            |i: int| (lowercase(tail[i].name), trim(text_or_empty(value_text(tail[i].value)))),
        ));
    }
}

/// The header block of a message that is written gives each header back as it was written, but
/// for white space at its ends, whatever the case of the name, where the first line has no colon.
pub proof fn law_headers_are_read_back(start: Seq<char>, headers: Seq<FieldView>, name: Seq<char>)
    requires
        one_line(start),
        !start.contains(':'),
        headers.len() > 0,
        forall|i: int| 0 <= i < headers.len() ==> header_name(#[trigger] headers[i].name),
    ensures
        header_of(latin1_encoded(head_text(start, headers)), name) == match written_value(
            headers,
            name,
        ) {
            Some(v) => Some(trim(v)),
            None => None,
        },
{
    let text = head_text(start, headers);
    let lines = seq![start] + field_texts(headers);
    assert forall|i: int| 0 <= i < lines.len() implies one_line(#[trigger] lines[i]) by {
        if i > 0 {
            assert(header_name(headers[i - 1].name));
            lemma_field_text(headers[i - 1]);
            assert(lines[i] == field_text(headers[i - 1]));
        }
    }
    lemma_join_front(lines, "\r\n"@);
    assert(lines.drop_first() =~= field_texts(headers));
    assert(text == join(lines, "\r\n"@) + "\r\n\r\n"@);
    lemma_lines_back(lines);
    lemma_latin1_back(start, headers);
    let none: Seq<char> = seq![];
    let split = lines + seq![none, none];
    assert(split.drop_last() =~= lines + seq![none]);
    let kept = lines + seq![none];
    assert(lines_of(latin1_encoded(text)) == kept);
    assert(kept.drop_last() =~= lines);
    assert(header_parts(none) is None) by {
        lemma_first_of_is(none, ':', 0);
    }
    assert(fields_of(kept) == fields_of(lines));
    assert(header_parts(start) is None) by {
        assert forall|j: int| 0 <= j < start.len() implies start[j] != ':' by {
            assert(start.contains(start[j]));
        }
        lemma_first_of_is(start, ':', start.len() as int);
    }
    lemma_fields_behind(start, field_texts(headers));
    lemma_fields_back(headers);
    lemma_first_written(headers, name);
}

proof fn lemma_latin1_back(start: Seq<char>, headers: Seq<FieldView>)
    requires
        one_line(start),
        headers.len() > 0,
        forall|i: int| 0 <= i < headers.len() ==> header_name(#[trigger] headers[i].name),
    ensures
        latin1(latin1_encoded(head_text(start, headers))) == head_text(start, headers),
{
    reveal_strlit("\r\n");
    reveal_strlit("\r\n\r\n");
    let lines = field_texts(headers);
    assert forall|i: int| 0 <= i < lines.len() implies one_line(#[trigger] lines[i])
        && lines[i].len() > 0 by {
        assert(header_name(headers[i].name));
        lemma_field_text(headers[i]);
    }
    lemma_no_empty_line(lines);
    let text = head_text(start, headers);
    let block = header_block(headers);
    let back = latin1(latin1_encoded(text));
    assert forall|i: int| 0 <= i < text.len() implies back[i] == text[i] by {
        if i < start.len() {
            assert(text[i] == start[i]);
        } else if start.len() + 2 <= i < start.len() + 2 + block.len() {
            assert(text[i] == block[i - start.len() - 2]);
        }
        lemma_latin1_char(text[i]);
    }
    assert(back =~= text);
}

// ---------------------------------------------------------------------------
// What is read of a message in terms of what was written.
// ---------------------------------------------------------------------------

/// The lines of a header block with more behind it are those that it was made of, an empty one,
/// and those of what is behind.
proof fn lemma_lines_with_rest(lines: Seq<Seq<char>>, rest: Seq<char>)
    requires
        lines.len() > 0,
        forall|i: int| 0 <= i < lines.len() ==> one_line(#[trigger] lines[i]),
    ensures
        without_returns(split_on(join(lines, "\r\n"@) + "\r\n\r\n"@ + rest, '\n')) == lines + seq![
            seq![],
        ] + without_returns(split_on(rest, '\n')),
    decreases lines.len(),
{
    reveal_strlit("\r\n");
    reveal_strlit("\r\n\r\n");
    let none: Seq<char> = seq![];
    let behind = without_returns(split_on(rest, '\n'));
    if lines.len() == 1 {
        assert(one_line(lines[0]));
        let second = none + "\r\n"@ + rest;
        assert(lines[0] + "\r\n\r\n"@ + rest =~= lines[0] + "\r\n"@ + second);
        lemma_line_in_front(lines[0], second);
        lemma_line_in_front(none, rest);
        assert(seq![lines[0]] + (seq![none] + behind) =~= lines + seq![none] + behind);
    } else {
        lemma_join_front(lines, "\r\n"@);
        let tail = lines.drop_first();
        assert forall|i: int| 0 <= i < tail.len() implies one_line(#[trigger] tail[i]) by {
            assert(tail[i] == lines[i + 1]);
        }
        lemma_lines_with_rest(tail, rest);
        let later = join(tail, "\r\n"@) + "\r\n\r\n"@ + rest;
        assert(join(lines, "\r\n"@) + "\r\n\r\n"@ + rest =~= lines[0] + "\r\n"@ + later);
        assert(one_line(lines[0]));
        lemma_line_in_front(lines[0], later);
        assert(seq![lines[0]] + (tail + seq![none] + behind) =~= lines + seq![none] + behind);
    }
}

proof fn lemma_fields_concat(a: Seq<Seq<char>>, b: Seq<Seq<char>>)
    ensures
        fields_of(a + b) == fields_of(a) + fields_of(b),
    decreases b.len(),
{
    if b.len() == 0 {
        assert(a + b =~= a);
        assert(fields_of(a) + fields_of(b) =~= fields_of(a));
    } else {
        assert((a + b).drop_last() =~= a + b.drop_last());
        assert((a + b).last() == b.last());
        lemma_fields_concat(a, b.drop_last());
        assert(fields_of(a + b) =~= fields_of(a) + fields_of(b));
    }
}

/// The fields of a written message are those that were written, in their order, and then those
/// that lines of its body look like.
proof fn lemma_fields_of_message(start: Seq<char>, headers: Seq<FieldView>, body: Seq<u8>)
    requires
        one_line(start),
        !start.contains(':'),
        headers.len() > 0,
        forall|i: int| 0 <= i < headers.len() ==> header_name(#[trigger] headers[i].name),
    ensures
        ({
            let fields = fields_of(lines_of(latin1_encoded(head_text(start, headers)) + body));
            &&& fields.len() >= headers.len()
            &&& forall|i: int|
                0 <= i < headers.len() ==> #[trigger] fields[i] == (
                    lowercase(headers[i].name),
                    trim(text_or_empty(value_text(headers[i].value))),
                )
        }),
{
    let text = head_text(start, headers);
    let lines = seq![start] + field_texts(headers);
    assert forall|i: int| 0 <= i < lines.len() implies one_line(#[trigger] lines[i]) by {
        if i > 0 {
            assert(header_name(headers[i - 1].name));
            lemma_field_text(headers[i - 1]);
            assert(lines[i] == field_text(headers[i - 1]));
        }
    }
    lemma_join_front(lines, "\r\n"@);
    assert(lines.drop_first() =~= field_texts(headers));
    assert(text == join(lines, "\r\n"@) + "\r\n\r\n"@);
    lemma_latin1_back(start, headers);
    let rest = latin1(body);
    let raw = latin1_encoded(text) + body;
    assert(latin1(raw) =~= text + rest);
    lemma_lines_with_rest(lines, rest);
    let none: Seq<char> = seq![];
    let behind = without_returns(split_on(rest, '\n'));
    let all = lines + seq![none] + behind;
    assert(behind.len() > 0);
    assert(all.drop_last() =~= lines + (seq![none] + behind.drop_last()));
    assert(all =~= lines + (seq![none] + behind));
    let later = if all.last().len() == 0 {
        seq![none] + behind.drop_last()
    } else {
        seq![none] + behind
    };
    assert(lines_of(raw) == lines + later);
    lemma_fields_concat(lines, later);
    assert(header_parts(start) is None) by {
        assert forall|j: int| 0 <= j < start.len() implies start[j] != ':' by {
            assert(start.contains(start[j]));
        }
        lemma_first_of_is(start, ':', start.len() as int);
    }
    lemma_fields_behind(start, field_texts(headers));
    lemma_fields_back(headers);
}

proof fn lemma_first_value_at(fields: Seq<(Seq<char>, Seq<char>)>, name: Seq<char>, i: int)
    requires
        0 <= i < fields.len(),
        fields[i].0 == name,
        forall|j: int| 0 <= j < i ==> (#[trigger] fields[j]).0 != name,
    ensures
        first_value(fields, name) == Some(fields[i].1),
{
    law_first_field_counts(fields, name, i);
}

/// The header at `i` is the first with this name, whatever the case of the letters.
pub open spec fn first_with_name(headers: Seq<FieldView>, name: Seq<char>, i: int) -> bool {
    &&& 0 <= i < headers.len()
    &&& lowercase(headers[i].name) == lowercase(name)
    &&& forall|j: int|
        0 <= j < i ==> lowercase((#[trigger] headers[j]).name) != lowercase(name)
}

/// Header names that can be read back, and one header at least.
pub open spec fn readable_headers(headers: Seq<FieldView>) -> bool {
    &&& headers.len() > 0
    &&& forall|i: int| 0 <= i < headers.len() ==> header_name(#[trigger] headers[i].name)
}

/// Bytes that are printable ASCII or tabs.
pub open spec fn printable(value: Seq<u8>) -> bool {
    forall|i: int| 0 <= i < value.len() ==> 32 <= #[trigger] value[i] <= 126 || value[i] == 9
}

/// A header of a message that is written whole, with its body, is read back from all of its bytes:
/// the first with its name, and its value in full but for white space at its ends.
pub proof fn law_header_is_read_back_from_message(
    start: Seq<char>,
    headers: Seq<FieldView>,
    body: Seq<u8>,
    name: Seq<char>,
    i: int,
)
    requires
        one_line(start),
        !start.contains(':'),
        readable_headers(headers),
        first_with_name(headers, name, i),
        printable(headers[i].value),
    ensures
        header_of(latin1_encoded(head_text(start, headers)) + body, name) == Some(
            trim(Seq::new(headers[i].value.len(), |k: int| headers[i].value[k] as char)),
        ),
{
    lemma_fields_of_message(start, headers, body);
    let fields = fields_of(lines_of(latin1_encoded(head_text(start, headers)) + body));
    assert forall|j: int| 0 <= j < i implies (#[trigger] fields[j]).0 != lowercase(name) by {
        assert(lowercase(headers[j].name) != lowercase(name));
    }
    lemma_first_value_at(fields, lowercase(name), i);
    let value = headers[i].value;
    assert forall|k: int| 0 <= k < value.len() implies text_byte(#[trigger] value[k]) by {}
    assert(latin1(value) =~= Seq::new(value.len(), |k: int| value[k] as char));
}

proof fn lemma_request_start_is_one_line(head: RequestView)
    requires
        one_line(head.method),
        one_line(head.target),
    ensures
        one_line(request_start(head)),
{
    reveal_strlit(" ");
    reveal_strlit(" HTTP/");
    lemma_version(head.version);
    let a = head.method + " "@;
    lemma_one_line_concat(head.method, " "@);
    lemma_one_line_concat(a, head.target);
    lemma_one_line_concat(a + head.target, " HTTP/"@);
    lemma_one_line_concat(a + head.target + " HTTP/"@, version_text(head.version));
}

proof fn lemma_request_start_has_no_colon(head: RequestView)
    requires
        !head.method.contains(':'),
        !head.target.contains(':'),
    ensures
        !request_start(head).contains(':'),
{
    reveal_strlit(" ");
    reveal_strlit(" HTTP/");
    reveal_strlit("1.0");
    reveal_strlit("1.1");
    reveal_strlit("2");
    reveal_strlit("3");
    let start = request_start(head);
    let m = head.method.len() as int;
    let t = head.target.len() as int;
    let v = version_text(head.version);
    if start.contains(':') {
        let i = choose|i: int| 0 <= i < start.len() && start[i] == ':';
        if i < m {
            assert(start[i] == head.method[i]);
        } else if i == m {
        } else if i < m + 1 + t {
            assert(start[i] == head.target[i - m - 1]);
        } else if i < m + 1 + t + 6 {
            assert(start[i] == " HTTP/"@[i - m - 1 - t]);
        } else {
            assert(start[i] == v[i - m - 1 - t - 6]);
        }
    }
}

/// A request that can be written and read back: the target is a path.
pub open spec fn readable_request(head: RequestView) -> bool {
    &&& one_line(head.method)
    &&& one_line(head.target)
    &&& !head.method.contains(' ')
    &&& !head.target.contains(' ')
    &&& !head.method.contains(':')
    &&& !head.target.contains(':')
    &&& head.target.len() > 0
    &&& head.target[0] == '/'
    &&& readable_headers(head.headers)
}

proof fn lemma_path_is_not_absolute(target: Seq<char>)
    requires
        target.len() > 0,
        target[0] == '/',
    ensures
        !absolute_target(target),
{
    reveal_strlit("http://");
    reveal_strlit("https://");
    if begins_with(target, "http://"@) {
        assert(target.take(7)[0] == 'h');
    }
    if begins_with(target, "https://"@) {
        assert(target.take(8)[0] == 'h');
    }
}

/// The URL of a raw request for a path: behind `://` stand the value of its `Host` header, in full
/// and with its port, and the path; before it the scheme that a header names, else `https`.
pub proof fn law_host_is_in_the_url_in_full(head: RequestView, body: Seq<u8>, i: int)
    requires
        readable_request(head),
        first_with_name(head.headers, "host"@, i),
        printable(head.headers[i].value),
    ensures
        ({
            let raw = request_bytes(head, body);
            let value = head.headers[i].value;
            let host = trim(Seq::new(value.len(), |k: int| value[k] as char));
            let scheme = match header_of(raw, ":scheme"@) {
                Some(s) => s,
                None => match header_of(raw, "x-forwarded-proto"@) {
                    Some(s) => s,
                    None => "https"@,
                },
            };
            raw_request_url(raw) == Some(scheme + "://"@ + host + head.target)
        }),
{
    lemma_request_start_is_one_line(head);
    lemma_request_start_has_no_colon(head);
    law_request_line_is_read_back(head, body);
    law_header_is_read_back_from_message(
        request_start(head),
        head.headers,
        body,
        "host"@,
        i,
    );
    lemma_path_is_not_absolute(head.target);
}

/// The URL of a raw request in terms of its request line and its headers: the target itself where
/// it is a URL, else the host that `Host` names in full, or `:authority` where there is none, with
/// the target behind it. A request that names no host has no URL.
pub proof fn law_raw_request_url(raw: Seq<u8>, method: Seq<char>, target: Seq<char>)
    requires
        request_line(raw) == Some((method, target)),
    ensures
        target.len() >= 7 && target.take(7) == "http://"@ ==> raw_request_url(raw) == Some(target),
        target.len() >= 8 && target.take(8) == "https://"@ ==> raw_request_url(raw) == Some(target),
        target.len() > 0 && target[0] == '/' ==> {
            let scheme = match header_of(raw, ":scheme"@) {
                Some(s) => s,
                None => match header_of(raw, "x-forwarded-proto"@) {
                    Some(s) => s,
                    None => "https"@,
                },
            };
            match header_of(raw, "host"@) {
                Some(host) => raw_request_url(raw) == Some(scheme + "://"@ + host + target),
                None => match header_of(raw, ":authority"@) {
                    Some(host) => raw_request_url(raw) == Some(scheme + "://"@ + host + target),
                    None => raw_request_url(raw) is None,
                },
            }
        },
{
    reveal_strlit("http://");
    reveal_strlit("https://");
    if target.len() > 0 && target[0] == '/' {
        lemma_path_is_not_absolute(target);
    }
}

proof fn lemma_header_text_at(headers: Seq<FieldView>, name: Seq<char>, i: int)
    requires
        first_with_name(headers, name, i),
    ensures
        header_text(headers, name) == value_text(headers[i].value),
    decreases i,
{
    if i > 0 {
        assert(lowercase(headers[0].name) != lowercase(name));
        let tail = headers.drop_first();
        assert forall|j: int| 0 <= j < i - 1 implies lowercase((#[trigger] tail[j]).name)
            != lowercase(name) by {
            assert(tail[j] == headers[j + 1]);
        }
        lemma_header_text_at(tail, name, i - 1);
    }
}

proof fn lemma_header_text_none(headers: Seq<FieldView>, name: Seq<char>)
    requires
        forall|j: int|
            0 <= j < headers.len() ==> lowercase((#[trigger] headers[j]).name) != lowercase(name),
    ensures
        header_text(headers, name) is None,
    decreases headers.len(),
{
    if headers.len() > 0 {
        assert(lowercase(headers[0].name) != lowercase(name));
        let tail = headers.drop_first();
        assert forall|j: int| 0 <= j < tail.len() implies lowercase((#[trigger] tail[j]).name)
            != lowercase(name) by {
            assert(tail[j] == headers[j + 1]);
        }
        lemma_header_text_none(tail, name);
    }
}

/// The text of a header is the value of the first with its name, byte for byte, where that is
/// printable; none where it is not, or where there is no such header.
pub proof fn law_first_header_is_the_text(headers: Seq<FieldView>, name: Seq<char>, i: int)
    ensures
        first_with_name(headers, name, i) && printable(headers[i].value) ==> header_text(
            headers,
            name,
        ) == Some(Seq::new(headers[i].value.len(), |k: int| headers[i].value[k] as char)),
        first_with_name(headers, name, i) && !printable(headers[i].value) ==> header_text(
            headers,
            name,
        ) is None,
        (forall|j: int|
            0 <= j < headers.len() ==> lowercase((#[trigger] headers[j]).name) != lowercase(name))
            ==> header_text(headers, name) is None,
{
    if first_with_name(headers, name, i) {
        lemma_header_text_at(headers, name, i);
        let value = headers[i].value;
        if printable(value) {
            assert forall|k: int| 0 <= k < value.len() implies text_byte(#[trigger] value[k]) by {}
            assert(latin1(value) =~= Seq::new(value.len(), |k: int| value[k] as char));
        } else {
            let k = choose|k: int|
                0 <= k < value.len() && !(32 <= #[trigger] value[k] <= 126 || value[k] == 9);
            assert(!text_byte(value[k]));
        }
    }
    if forall|j: int|
        0 <= j < headers.len() ==> lowercase((#[trigger] headers[j]).name) != lowercase(name) {
        lemma_header_text_none(headers, name);
    }
}

/// The URL of a request in terms of its target and its headers: a target that is a URL is that URL;
/// to a path belong the host of `Host`, else of `:authority`, else of the target, and the scheme of
/// the target, else of `:scheme`, else of the connection.
pub proof fn law_request_url_is_scheme_host_and_target(head: RequestView, is_ssl: bool)
    ensures
        head.target.len() >= 7 && head.target.take(7) == "http://"@ ==> request_url(head, is_ssl)
            == Some(head.target),
        head.target.len() >= 8 && head.target.take(8) == "https://"@ ==> request_url(head, is_ssl)
            == Some(head.target),
        head.target.len() > 0 && head.target[0] == '/' ==> {
            let scheme = match head.scheme {
                Some(s) => s,
                None => match header_text(head.headers, ":scheme"@) {
                    Some(s) => s,
                    None => if is_ssl {
                        "https"@
                    } else {
                        "http"@
                    },
                },
            };
            let host = match header_text(head.headers, "host"@) {
                Some(h) => Some(h),
                None => match header_text(head.headers, ":authority"@) {
                    Some(h) => Some(h),
                    None => head.authority,
                },
            };
            match host {
                Some(h) => request_url(head, is_ssl) == Some(scheme + "://"@ + h + head.target),
                None => request_url(head, is_ssl) is None,
            }
        },
{
    reveal_strlit("http://");
    reveal_strlit("https://");
    if head.target.len() > 0 && head.target[0] == '/' {
        lemma_path_is_not_absolute(head.target);
    }
}

/// The page of a request is what `Referer` names, and what `Origin` names where it says nothing.
pub proof fn law_page_is_referer_or_origin(head: RequestView)
    ensures
        header_text(head.headers, "referer"@) is Some ==> page_url(head) == header_text(
            head.headers,
            "referer"@,
        ),
        header_text(head.headers, "referer"@) is None ==> page_url(head) == header_text(
            head.headers,
            "origin"@,
        ),
{
}

/// The first line of a written request is its method, its target and its version, in this order.
pub proof fn law_request_begins_with_its_line(head: RequestView, body: Seq<u8>)
    requires
        one_line(head.method),
        one_line(head.target),
    ensures
        ({
            let line = first_line_of(request_bytes(head, body));
            let before = head.method + seq![' '] + head.target;
            &&& head.version is Http10 ==> line == before + " HTTP/1.0"@
            &&& head.version is Http11 ==> line == before + " HTTP/1.1"@
            &&& head.version is Http2 ==> line == before + " HTTP/2"@
            &&& head.version is Http3 ==> line == before + " HTTP/3"@
            &&& head.version is Other ==> line == before + " HTTP/1.1"@
        }),
{
    reveal_strlit(" ");
    reveal_strlit(" HTTP/");
    reveal_strlit("1.0");
    reveal_strlit("1.1");
    reveal_strlit("2");
    reveal_strlit("3");
    reveal_strlit(" HTTP/1.0");
    reveal_strlit(" HTTP/1.1");
    reveal_strlit(" HTTP/2");
    reveal_strlit(" HTTP/3");
    lemma_request_start_is_one_line(head);
    lemma_first_line_back(request_start(head), head.headers, body);
    let before = head.method + seq![' '] + head.target;
    let line = request_start(head);
    if head.version is Http10 {
        assert(line =~= before + " HTTP/1.0"@);
    } else if head.version is Http2 {
        assert(line =~= before + " HTTP/2"@);
    } else if head.version is Http3 {
        assert(line =~= before + " HTTP/3"@);
    } else {
        assert(line =~= before + " HTTP/1.1"@);
    }
}

/// Every header of a written message is read back, those with the same name too, in their order.
pub proof fn law_all_headers_are_written(
    start: Seq<char>,
    headers: Seq<FieldView>,
    body: Seq<u8>,
    i: int,
)
    requires
        one_line(start),
        !start.contains(':'),
        readable_headers(headers),
        0 <= i < headers.len(),
        printable(headers[i].value),
    ensures
        ({
            let fields = fields_of(lines_of(latin1_encoded(head_text(start, headers)) + body));
            let value = headers[i].value;
            i < fields.len() && fields[i] == (
                lowercase(headers[i].name),
                trim(Seq::new(value.len(), |k: int| value[k] as char)),
            )
        }),
{
    lemma_fields_of_message(start, headers, body);
    let value = headers[i].value;
    assert forall|k: int| 0 <= k < value.len() implies text_byte(#[trigger] value[k]) by {}
    assert(latin1(value) =~= Seq::new(value.len(), |k: int| value[k] as char));
}

/// The body of a written message stands at its end, byte for byte.
pub proof fn law_body_is_written_last(
    request: RequestView,
    response: ResponseView,
    reason: Seq<char>,
    body: Seq<u8>,
)
    ensures
        finishes_with(request_bytes(request, body), body),
        finishes_with(response_bytes(response, reason, body), body),
{
    let a = request_bytes(request, body);
    let b = response_bytes(response, reason, body);
    assert(a.skip(a.len() - body.len()) =~= body);
    assert(b.skip(b.len() - body.len()) =~= body);
}

/// A coding that the headers of a response name is undone where the response is kept: what is kept
/// is its head as it was written and what the decoder gave.
pub proof fn law_written_response_is_kept_decoded(
    head: ResponseView,
    reason: Seq<char>,
    body: Seq<u8>,
    plain: Seq<u8>,
    i: int,
)
    requires
        one_line(reason),
        !reason.contains(':'),
        readable_headers(head.headers),
        first_with_name(head.headers, "content-encoding"@, i),
        printable(head.headers[i].value),
        !head.headers[i].value.contains(44),
    ensures
        ({
            let raw = response_bytes(head, reason, body);
            let value = head.headers[i].value;
            let coding = lowercase(trim(Seq::new(value.len(), |k: int| value[k] as char)));
            let block = raw.take(raw.len() - body.len());
            &&& coding == "br"@ && brotli_decoded(body) == Some(plain) ==> with_body(
                raw,
                body_decoded(raw),
            ) == block + plain
            &&& coding == "deflate"@ && deflate_decoded(body) == Some(plain) ==> with_body(
                raw,
                body_decoded(raw),
            ) == block + plain
            &&& coding == "gzip"@ && gzip_decoded(body) == Some(plain) ==> with_body(
                raw,
                body_decoded(raw),
            ) == block + plain
            &&& coding == "x-gzip"@ && gzip_decoded(body) == Some(plain) ==> with_body(
                raw,
                body_decoded(raw),
            ) == block + plain
        }),
{
    let start = response_start(head, reason);
    let raw = response_bytes(head, reason, body);
    let block = latin1_encoded(head_text(start, head.headers));
    let none = Seq::<u8>::empty();
    lemma_response_start(head, reason);
    lemma_response_start_has_no_colon(head, reason);
    assert forall|j: int| 0 <= j < head.headers.len() implies one_line(
        #[trigger] head.headers[j].name,
    ) by {
        assert(header_name(head.headers[j].name));
    }
    law_response_splits_back(head, reason, body);
    law_header_is_read_back_from_message(start, head.headers, none, "content-encoding"@, i);
    assert(block + none =~= block);
    assert(raw.take(raw.len() - body.len()) =~= block);
    let value = head.headers[i].value;
    let text = Seq::new(value.len(), |k: int| value[k] as char);
    let piece = trim(text);
    lemma_trim_twice(text);
    lemma_trim_without(text, ',');
    assert(!piece.contains(',')) by {
        if text.contains(',') {
            let k = choose|k: int| 0 <= k < text.len() && text[k] == ',';
            assert(value[k] == 44);
        }
    }
    let rest = Seq::<char>::empty();
    assert(piece + rest =~= piece);
    let coding = lowercase(piece);
    assert(names_first(piece, coding)) by {
        assert(piece == piece + rest);
        assert(lowercase(trim(piece)) == coding);
    }
    assert(header_len(raw) == Some(block.len() as int)) by {
        law_split_loses_nothing(raw);
        let n = header_len(raw)->0;
        assert(raw.skip(n).len() == raw.len() - n);
    }
    assert(encoded_with(raw, block, body, coding));
    if coding == "br"@ && brotli_decoded(body) == Some(plain) {
        law_brotli_is_undone_on_disk(raw, block, body, plain);
    }
    if coding == "deflate"@ && deflate_decoded(body) == Some(plain) {
        law_deflate_is_undone_on_disk(raw, block, body, plain);
    }
    if (coding == "gzip"@ || coding == "x-gzip"@) && gzip_decoded(body) == Some(plain) {
        law_gzip_is_undone_on_disk(raw, block, body, plain);
    }
}

pub proof fn lemma_response_start_has_no_colon(head: ResponseView, reason: Seq<char>)
    requires
        !reason.contains(':'),
    ensures
        !response_start(head, reason).contains(':'),
{
    reveal_strlit(" ");
    reveal_strlit("HTTP/");
    reveal_strlit("1.0");
    reveal_strlit("1.1");
    reveal_strlit("2");
    reveal_strlit("3");
    lemma_decimal(head.status as nat);
    let number = decimal(head.status as nat);
    let start = response_start(head, reason);
    let v = version_text(head.version);
    let a: int = 5int + v.len();
    let b: int = a + 1 + number.len();
    if start.contains(':') {
        let i = choose|i: int| 0 <= i < start.len() && start[i] == ':';
        if i < 5 {
            assert(start[i] == "HTTP/"@[i]);
        } else if i < a {
            assert(start[i] == v[i - 5]);
        } else if i == a {
        } else if i < b {
            assert(start[i] == number[i - a - 1]);
            assert(is_digit(number[i - a - 1]));
        } else if i == b {
        } else {
            assert(start[i] == reason[i - b - 1]);
        }
    }
}

/// The origin of a web URL: its scheme and its host, and its port unless it is 80 for `http` or 443
/// for `https`. Other URLs have none.
pub proof fn law_origin_is_scheme_host_and_port(url: UrlView)
    ensures
        url.scheme == "http"@ && url.host is Some && url.port == Some(80u16) ==> origin_of(url)
            == Some("http://"@ + url.host->0),
        url.scheme == "https"@ && url.host is Some && url.port == Some(443u16) ==> origin_of(url)
            == Some("https://"@ + url.host->0),
        url.scheme == "http"@ && url.host is Some && url.port is Some && url.port->0 != 80
            ==> origin_of(url) == Some(
            "http://"@ + url.host->0 + seq![':'] + decimal(url.port->0 as nat),
        ),
        url.scheme == "https"@ && url.host is Some && url.port is Some && url.port->0 != 443
            ==> origin_of(url) == Some(
            "https://"@ + url.host->0 + seq![':'] + decimal(url.port->0 as nat),
        ),
        url.scheme != "http"@ && url.scheme != "https"@ ==> origin_of(url) is None,
        url.host is None ==> origin_of(url) is None,
{
    reveal_strlit("http");
    reveal_strlit("https");
    reveal_strlit("://");
    reveal_strlit("http://");
    reveal_strlit("https://");
    reveal_strlit(":");
    assert("http"@ + "://"@ =~= "http://"@);
    assert("https"@ + "://"@ =~= "https://"@);
    assert(":"@ =~= seq![':']);
    assert("http"@.len() != "https"@.len());
}

/// A request that no page asked for and that loads nothing is the browser's own; so is one whose
/// `Origin` or `Referer` is a URL that is none of the web, unless it says `null`. One with neither
/// of these headers, and that is not of the first kind, is not.
pub proof fn law_requests_of_the_browser_itself(head: RequestView)
    ensures
        header_text(head.headers, "sec-fetch-site"@) == Some("none"@) && header_text(
            head.headers,
            "sec-fetch-dest"@,
        ) == Some("empty"@) ==> browser_internal(head),
        ({
            let origin = header_text(head.headers, "origin"@);
            origin is Some && url_parse(origin->0) is Some && (url_parse(origin->0)->0).scheme
                != "http"@ && (url_parse(origin->0)->0).scheme != "https"@ && origin->0.len() != 4
                ==> browser_internal(head)
        }),
        ({
            let page = header_text(head.headers, "referer"@);
            page is Some && url_parse(page->0) is Some && (url_parse(page->0)->0).scheme
                != "http"@ && (url_parse(page->0)->0).scheme != "https"@ && page->0.len() != 4
                ==> browser_internal(head)
        }),
        header_text(head.headers, "origin"@) is None && header_text(head.headers, "referer"@)
            is None && (header_text(head.headers, "sec-fetch-site"@) is None || header_text(
            head.headers,
            "sec-fetch-dest"@,
        ) is None) ==> !browser_internal(head),
        ({
            let site = header_text(head.headers, "sec-fetch-site"@);
            let dest = header_text(head.headers, "sec-fetch-dest"@);
            let origin = header_text(head.headers, "origin"@);
            let page = header_text(head.headers, "referer"@);
            (site is Some ==> site->0.len() != 4) && (origin is Some ==> url_parse(origin->0)
                is None || (url_parse(origin->0)->0).scheme == "https"@ || (url_parse(
                origin->0,
            )->0).scheme == "http"@) && (page is Some ==> url_parse(page->0) is None || (
            url_parse(page->0)->0).scheme == "https"@ || (url_parse(page->0)->0).scheme
                == "http"@) ==> !browser_internal(head)
        }),
{
    reveal_strlit("null");
    reveal_strlit("none");
    reveal_strlit("empty");
    let origin = header_text(head.headers, "origin"@);
    let page = header_text(head.headers, "referer"@);
    let site = header_text(head.headers, "sec-fetch-site"@);
    assert(ascii_lowercase("null"@).len() == 4);
    assert(ascii_lowercase("none"@).len() == 4);
    if origin is Some {
        assert(ascii_lowercase(origin->0).len() == origin->0.len());
    }
    if page is Some {
        assert(ascii_lowercase(page->0).len() == page->0.len());
    }
    if site is Some {
        assert(ascii_lowercase(site->0).len() == site->0.len());
    }
}

/// The kind of a resource is what its destination says, whatever its mode and its path are; where
/// that is not known, what its mode says; and else what its path ends with.
pub proof fn law_destination_decides_the_kind(
    dest: Option<Seq<char>>,
    mode: Option<Seq<char>>,
    path: Option<Seq<char>>,
)
    ensures
        dest == Some("document"@) ==> resource_type(dest, mode, path) == "main_frame"@,
        dest == Some("iframe"@) ==> resource_type(dest, mode, path) == "sub_frame"@,
        dest == Some("script"@) ==> resource_type(dest, mode, path) == "script"@,
        dest == Some("style"@) ==> resource_type(dest, mode, path) == "stylesheet"@,
        dest == Some("image"@) ==> resource_type(dest, mode, path) == "image"@,
        dest == Some("font"@) ==> resource_type(dest, mode, path) == "font"@,
        dest == Some("empty"@) ==> resource_type(dest, mode, path) == "fetch"@,
        dest is None && mode == Some("navigate"@) ==> resource_type(dest, mode, path)
            == "main_frame"@,
        dest is None && (mode == Some("cors"@) || mode == Some("no-cors"@)) ==> resource_type(
            dest,
            mode,
            path,
        ) == "fetch"@,
        dest is None && mode is None && path is Some && finishes_with(path->0, ".js"@)
            ==> resource_type(dest, mode, path) == "script"@,
        dest is None && mode is None && path is Some && finishes_with(path->0, ".css"@)
            ==> resource_type(dest, mode, path) == "stylesheet"@,
        dest is None && mode is None && (path is None || !finishes_with(path->0, ".js"@)
            && !finishes_with(path->0, ".css"@)) ==> resource_type(dest, mode, path) == "other"@,
        dest is Some && dest->0 != "document"@ && dest->0 != "iframe"@ && dest->0 != "script"@
            && dest->0 != "style"@ && dest->0 != "image"@ && dest->0 != "font"@ && dest->0
            != "empty"@ ==> resource_type(dest, mode, path) == resource_type(None, mode, path),
        mode is Some && mode->0 != "navigate"@ && mode->0 != "cors"@ && mode->0 != "no-cors"@
            ==> resource_type(None, mode, path) == resource_type(None, None, path),
{
    reveal_strlit("document");
    reveal_strlit("iframe");
    reveal_strlit("script");
    reveal_strlit("style");
    reveal_strlit("image");
    reveal_strlit("font");
    reveal_strlit("empty");
    reveal_strlit("navigate");
    reveal_strlit("cors");
    reveal_strlit("no-cors");
    reveal_strlit(".js");
    reveal_strlit(".css");
    assert("document"@[0] == 'd' && "iframe"@[0] == 'i' && "script"@[1] == 'c' && "style"@[1]
        == 't' && "image"@[1] == 'm' && "font"@[0] == 'f' && "empty"@[0] == 'e');
    assert("iframe"@[1] == 'f' && "script"@[0] == 's' && "style"@[0] == 's');
    assert("image"@[0] == 'i');
    assert("navigate"@.len() == 8 && "cors"@.len() == 4 && "no-cors"@.len() == 7);
    if path is Some && finishes_with(path->0, ".css"@) && finishes_with(path->0, ".js"@) {
        let p = path->0;
        assert(p.skip(p.len() - 3)[1] == 'j');
        assert(p.skip(p.len() - 4)[2] == 's');
        assert(p[p.len() - 2] == 'j' && p[p.len() - 2] == 's');
    }
}

/// The kind of resource that a request is for is told by its `Sec-Fetch-Dest` header, else by its
/// `Sec-Fetch-Mode` header, else by the path of its URL, each in lowercase.
pub proof fn law_kind_is_read_from_fetch_headers(head: RequestView, url: Seq<char>)
    ensures
        ({
            let dest = header_text(head.headers, "sec-fetch-dest"@);
            let mode = header_text(head.headers, "sec-fetch-mode"@);
            request_type(head, url) == resource_type(
                if dest is Some {
                    Some(lowercase(dest->0))
                } else {
                    None
                },
                if mode is Some {
                    Some(lowercase(mode->0))
                } else {
                    None
                },
                if url_parse(url) is Some {
                    Some(lowercase((url_parse(url)->0).path))
                } else {
                    None
                },
            )
        }),
{
}

proof fn lemma_trim_without(s: Seq<char>, c: char)
    ensures
        !s.contains(c) ==> !trim(s).contains(c),
{
    law_trim_takes_white_space_off(s);
    let (a, b) = choose|a: Seq<char>, b: Seq<char>|
        #![trigger a + trim(s) + b]
        s == a + trim(s) + b && all_white_space(a) && all_white_space(b);
    if trim(s).contains(c) {
        let i = choose|i: int| 0 <= i < trim(s).len() && trim(s)[i] == c;
        assert(s[a.len() + i] == c);
    }
}

proof fn lemma_trim_twice(s: Seq<char>)
    ensures
        trim(trim(s)) == trim(s),
{
    law_trim_takes_white_space_off(s);
}

/// A URL without a port has an origin without one.
pub proof fn law_origin_without_port(url: UrlView)
    requires
        url.host is Some,
        url.port is None,
        url.scheme == "http"@ || url.scheme == "https"@,
    ensures
        origin_of(url) == Some(url.scheme + "://"@ + url.host->0),
{
}

/// A header field is written as a line of its own, with a colon and a blank between its name and its
/// value; a value that is not printable is written as an empty one.
pub proof fn law_header_is_written_as_line(
    start: Seq<char>,
    headers: Seq<FieldView>,
    field: FieldView,
)
    ensures
        ({
            let value = if printable(field.value) {
                Seq::new(field.value.len(), |k: int| field.value[k] as char)
            } else {
                Seq::<char>::empty()
            };
            let line = field.name + seq![':', ' '] + value;
            let end = seq!['\r', '\n', '\r', '\n'];
            &&& head_text(start, seq![]) == start + seq!['\r', '\n'] + end
            &&& head_text(start, seq![field]) == start + seq!['\r', '\n'] + line + end
            &&& headers.len() > 0 ==> {
                let before = head_text(start, headers);
                head_text(start, headers.push(field)) == before.take(before.len() - 4) + seq![
                    '\r',
                    '\n',
                ] + line + end
            }
        }),
{
    reveal_strlit("\r\n");
    reveal_strlit("\r\n\r\n");
    reveal_strlit(": ");
    assert("\r\n"@ =~= seq!['\r', '\n']);
    assert("\r\n\r\n"@ =~= seq!['\r', '\n', '\r', '\n']);
    assert(": "@ =~= seq![':', ' ']);
    let value = if printable(field.value) {
        Seq::new(field.value.len(), |k: int| field.value[k] as char)
    } else {
        Seq::<char>::empty()
    };
    assert(text_or_empty(value_text(field.value)) =~= value);
    let line = field_text(field);
    let none = Seq::<FieldView>::empty();
    reveal_with_fuel(join, 3);
    assert(field_texts(none) =~= seq![]);
    assert(start + "\r\n"@ + Seq::<char>::empty() =~= start + "\r\n"@);
    assert(field_texts(seq![field]) =~= seq![line]);
    if headers.len() > 0 {
        let all = field_texts(headers.push(field));
        assert(all.drop_last() =~= field_texts(headers));
        assert(all.last() == line);
        let before = head_text(start, headers);
        let front = start + "\r\n"@ + header_block(headers);
        assert(before.take(before.len() - 4) =~= front);
        assert(header_block(headers.push(field)) == header_block(headers) + "\r\n"@ + line);
        assert(head_text(start, headers.push(field)) =~= front + "\r\n"@ + line + "\r\n\r\n"@);
    }
}

/// The first line of a response names the version, the status and the reason.
pub proof fn law_response_begins_with_its_line(
    head: ResponseView,
    reason: Seq<char>,
    body: Seq<u8>,
)
    requires
        one_line(reason),
    ensures
        ({
            let line = first_line_of(response_bytes(head, reason, body));
            let behind = seq![' '] + decimal(head.status as nat) + seq![' '] + reason;
            &&& head.version is Http10 ==> line == "HTTP/1.0"@ + behind
            &&& head.version is Http11 ==> line == "HTTP/1.1"@ + behind
            &&& head.version is Http2 ==> line == "HTTP/2"@ + behind
            &&& head.version is Http3 ==> line == "HTTP/3"@ + behind
            &&& head.version is Other ==> line == "HTTP/1.1"@ + behind
        }),
{
    reveal_strlit(" ");
    reveal_strlit("HTTP/");
    reveal_strlit("1.0");
    reveal_strlit("1.1");
    reveal_strlit("2");
    reveal_strlit("3");
    reveal_strlit("HTTP/1.0");
    reveal_strlit("HTTP/1.1");
    reveal_strlit("HTTP/2");
    reveal_strlit("HTTP/3");
    assert(" "@ =~= seq![' ']);
    lemma_response_start(head, reason);
    lemma_first_line_back(response_start(head, reason), head.headers, body);
    let behind = seq![' '] + decimal(head.status as nat) + seq![' '] + reason;
    assert("HTTP/"@ + "1.0"@ =~= "HTTP/1.0"@);
    assert("HTTP/"@ + "1.1"@ =~= "HTTP/1.1"@);
    assert("HTTP/"@ + "2"@ =~= "HTTP/2"@);
    assert("HTTP/"@ + "3"@ =~= "HTTP/3"@);
    assert(response_start(head, reason) =~= "HTTP/"@ + version_text(head.version) + behind);
}

/// A value that names a page of the browser itself: a URL that is not one of the web, and not `null`
/// in any case of its letters.
pub open spec fn page_of_the_browser(value: Option<Seq<char>>) -> bool {
    match value {
        Some(text) => match url_parse(text) {
            Some(url) => url.scheme != "http"@ && url.scheme != "https"@ && ascii_lowercase(text)
                != "null"@,
            None => false,
        },
        None => false,
    }
}

/// A request is one of the browser itself if and only if no page asked for it and it loads nothing,
/// or its origin or its page is one of the browser. The case of the letters does not count.
pub proof fn law_when_a_request_is_the_browsers_own(head: RequestView)
    ensures
        browser_internal(head) <==> {
            ||| page_of_the_browser(header_text(head.headers, "origin"@))
            ||| page_of_the_browser(header_text(head.headers, "referer"@))
            ||| {
                let site = header_text(head.headers, "sec-fetch-site"@);
                let dest = header_text(head.headers, "sec-fetch-dest"@);
                site is Some && dest is Some && ascii_lowercase(site->0) == "none"@
                    && ascii_lowercase(dest->0) == "empty"@
            }
        },
{
    reveal_strlit("none");
    reveal_strlit("empty");
    reveal_strlit("null");
    assert(ascii_lowercase("none"@) =~= "none"@);
    assert(ascii_lowercase("empty"@) =~= "empty"@);
    assert(ascii_lowercase("null"@) =~= "null"@);
}

} // verus!
