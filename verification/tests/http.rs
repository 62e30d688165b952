use httplogger::http_message::{
    classify_resource, extract_origin_from_url, header_value, infer_resource_type,
    is_browser_internal_request, is_browser_ui_origin, page_url_from_request,
    request_url_from_message, resolve_request_url, serialize_request, serialize_response,
    text_of_value, url_origin, HeaderField, HttpVersion, RequestHead, ResponseHead,
};
use httplogger::http_raw::{
    decompress_body, decompress_coding, first_line, header_lines, latin1_bytes, latin1_to_string,
    parse_content_encoding, parse_header_value, parse_request_line, parse_response_status,
    prepare_message_for_disk, split_header_line, split_headers_and_body, DecompressError,
};
use httplogger::weburl::{try_parse_http_url, ParsedUrl};
use std::io::Write;

fn split(raw: &[u8]) -> Option<(Vec<u8>, Vec<u8>)> {
    split_headers_and_body(raw).map(|s| (s.headers_raw.to_vec(), s.body_raw.to_vec()))
}

fn parts(head: &[u8], body: &[u8]) -> Option<(Vec<u8>, Vec<u8>)> {
    Some((head.to_vec(), body.to_vec()))
}

fn field(name: &str, value: &[u8]) -> HeaderField {
    HeaderField {
        name: name.to_string(),
        value: value.to_vec(),
    }
}

fn request(target: &str, headers: Vec<HeaderField>) -> RequestHead {
    RequestHead {
        method: "GET".to_string(),
        target: target.to_string(),
        scheme: None,
        authority: None,
        version: HttpVersion::Http11,
        headers,
    }
}

fn gzip(data: &[u8]) -> Vec<u8> {
    let mut e = flate2::write::GzEncoder::new(Vec::new(), flate2::Compression::default());
    e.write_all(data).unwrap();
    e.finish().unwrap()
}

fn deflate(data: &[u8]) -> Vec<u8> {
    let mut e = flate2::write::DeflateEncoder::new(Vec::new(), flate2::Compression::default());
    e.write_all(data).unwrap();
    e.finish().unwrap()
}

fn brotli_bytes(data: &[u8]) -> Vec<u8> {
    let mut out = Vec::new();
    {
        let mut w = brotli::CompressorWriter::new(&mut out, 4096, 5, 22);
        w.write_all(data).unwrap();
    }
    out
}

#[test]
fn splits_at_the_blank_line() {
    assert_eq!(
        split(b"GET / HTTP/1.1\r\nHost: a\r\n\r\nbody"),
        parts(b"GET / HTTP/1.1\r\nHost: a\r\n\r\n", b"body")
    );
    assert_eq!(split(b"A: b\n\nbody\r\n\r\nx"), parts(b"A: b\n\nbody\r\n\r\n", b"x"));
    assert_eq!(split(b"A: b\n\nbody"), parts(b"A: b\n\n", b"body"));
    assert_eq!(split(b"\r\n\r\n"), parts(b"\r\n\r\n", b""));
}

#[test]
fn splits_without_a_blank_line() {
    assert_eq!(
        split(b"HTTP/1.1 200 OK\r\nA: b\r\n<html>\r\nx: y\r\n"),
        parts(b"HTTP/1.1 200 OK\r\nA: b\r\n", b"<html>\r\nx: y\r\n")
    );
    assert_eq!(
        split(b"HTTP/1.1 200 OK\nA: b\nplain text"),
        parts(b"HTTP/1.1 200 OK\nA: b\n", b"plain text")
    );
    assert_eq!(split(b"only one line"), None);
    assert_eq!(split(b""), None);
    assert_eq!(split(b"first\r\nA: b\r\n"), None);
    assert_eq!(split(b"\nrest"), parts(b"\n", b"rest"));
    assert_eq!(split(b"\r\nrest"), parts(b"\r\n", b"rest"));
    assert_eq!(split(b"first\n: no name\nA: b\n"), parts(b"first\n", b": no name\nA: b\n"));
    assert_eq!(split(b"first\nbad name: b\n"), parts(b"first\n", b"bad name: b\n"));
}

#[test]
fn header_values_whatever_the_case() {
    let raw = b"GET / HTTP/1.1\r\nHost:  example.com \r\nX-Twice: 1\r\nx-twice: 2\r\n:authority: pseudo\r\n\r\n";
    assert_eq!(parse_header_value(raw, "HOST").as_deref(), Some("example.com"));
    assert_eq!(parse_header_value(raw, "x-tWice").as_deref(), Some("1"));
    assert_eq!(parse_header_value(raw, ":Authority").as_deref(), Some("pseudo"));
    assert_eq!(parse_header_value(raw, "missing"), None);
    assert_eq!(parse_content_encoding(b"Content-Encoding: br\r\n").as_deref(), Some("br"));
}

#[test]
fn header_lines_and_their_parts() {
    assert_eq!(
        header_lines(b"a: b\r\nc\xe9\r\r\n\r\n"),
        vec!["a: b", "c\u{e9}", ""]
    );
    assert_eq!(
        split_header_line("Name : value : more "),
        Some(("name".to_string(), "value : more".to_string()))
    );
    assert_eq!(
        split_header_line(":Path:/x"),
        Some((":path".to_string(), "/x".to_string()))
    );
    assert_eq!(split_header_line(":path"), None);
    assert_eq!(split_header_line("no colon"), None);
}

#[test]
fn latin1_both_ways() {
    let all: Vec<u8> = (0..=255).collect();
    assert_eq!(latin1_bytes(&latin1_to_string(&all)), all);
    assert_eq!(latin1_bytes("\u{10a}"), vec![0x0a]);
}

#[test]
fn bodies_are_decompressed() {
    let data = b"hello hello hello hello".to_vec();
    assert_eq!(decompress_body(&gzip(&data), " GZIP , br").unwrap(), data);
    assert_eq!(decompress_body(&gzip(&data), "x-gzip").unwrap(), data);
    assert_eq!(decompress_body(&deflate(&data), "deflate").unwrap(), data);
    assert_eq!(decompress_body(&brotli_bytes(&data), "br").unwrap(), data);
}

#[test]
fn decompression_errors() {
    let message = |r: Result<Vec<u8>, DecompressError>| r.unwrap_err().message();
    assert_eq!(message(decompress_body(b"no", "gzip")), "gzip decompress failed");
    assert_eq!(message(decompress_body(b"\xff\xff\xff", "deflate")), "deflate decompress failed");
    assert_eq!(message(decompress_body(b"\xff\xff\xff", "br")), "brotli decompress failed");
    assert_eq!(
        message(decompress_body(b"x", "Zstd, gzip")),
        "unsupported content-encoding: zstd"
    );
    assert!(matches!(
        decompress_coding(b"x", ""),
        Err(DecompressError::Unsupported(c)) if c.is_empty()
    ));
    assert!(matches!(decompress_coding(b"x", "GZIP"), Err(DecompressError::Unsupported(_))));
}

#[test]
fn messages_as_they_are_kept() {
    let head = b"HTTP/1.1 200 OK\r\nContent-Encoding: gzip\r\n\r\n".to_vec();
    let mut raw = head.clone();
    raw.extend(gzip(b"body"));
    let mut want = head.clone();
    want.extend(b"body");
    assert_eq!(prepare_message_for_disk(&raw), want);

    let plain = b"HTTP/1.1 200 OK\r\nA: b\r\n\r\n\x1f\x8b".to_vec();
    assert_eq!(prepare_message_for_disk(&plain), plain);

    let mut broken = head.clone();
    broken.extend(b"not gzip");
    assert_eq!(prepare_message_for_disk(&broken), broken);

    assert_eq!(prepare_message_for_disk(b"no headers"), b"no headers");
}

#[test]
fn first_lines() {
    assert_eq!(first_line(b"GET / HTTP/1.1\r\nHost: a"), "GET / HTTP/1.1");
    assert_eq!(first_line(b"all\r\r"), "all");
    assert_eq!(
        parse_request_line(b"GET /x HTTP/1.1\r\n"),
        Some(("GET".to_string(), "/x".to_string()))
    );
    assert_eq!(parse_request_line(b"GET"), None);
    assert_eq!(parse_request_line(b""), None);
    assert_eq!(parse_response_status(b"HTTP/1.1 404 Not Found\r\n"), Some(404));
    assert_eq!(parse_response_status(b"HTTP/2  204\n"), Some(204));
    assert_eq!(parse_response_status(b"HTTP/1.1 abc"), None);
    assert_eq!(parse_response_status(b"HTTP/1.1"), None);
    assert_eq!(parse_response_status(b"GET / HTTP/1.1"), None);
    assert_eq!(parse_response_status(b"HTTP/1.1 70000 x"), None);
}

#[test]
fn urls_of_raw_requests() {
    let url = |raw: &[u8]| resolve_request_url(raw);
    assert_eq!(
        url(b"GET http://a.test/x HTTP/1.1\r\n\r\n").as_deref(),
        Some("http://a.test/x")
    );
    assert_eq!(
        url(b"GET /x HTTP/1.1\r\nHost: a.test\r\n\r\n").as_deref(),
        Some("https://a.test/x")
    );
    assert_eq!(
        url(b"GET /x HTTP/1.1\r\nHost: a.test\r\nX-Forwarded-Proto: http\r\n\r\n").as_deref(),
        Some("http://a.test/x")
    );
    assert_eq!(
        url(b"GET /x HTTP/2\r\n:authority: b.test\r\n:scheme: wss\r\n\r\n").as_deref(),
        Some("wss://b.test/x")
    );
    assert_eq!(url(b"GET /x HTTP/1.1\r\n\r\n"), None);
    assert_eq!(url(b"GET"), None);
}

#[test]
fn origins_of_urls() {
    let origin = |u: &str| extract_origin_from_url(Some(u));
    assert_eq!(origin("https://Example.com/x?y").as_deref(), Some("https://example.com"));
    assert_eq!(origin("https://example.com:443/").as_deref(), Some("https://example.com"));
    assert_eq!(origin("http://example.com:8080").as_deref(), Some("http://example.com:8080"));
    assert_eq!(origin("http://example.com:443/").as_deref(), Some("http://example.com:443"));
    assert_eq!(origin("http://[::1]:9/").as_deref(), Some("http://[::1]:9"));
    assert_eq!(origin("wss://example.com/"), None);
    assert_eq!(origin("chrome://newtab"), None);
    assert_eq!(origin("not a url"), None);
    assert_eq!(extract_origin_from_url(None), None);
}

#[test]
fn origin_of_a_parsed_url() {
    let mut url = ParsedUrl {
        scheme: "https".to_string(),
        host: Some("h".to_string()),
        port: Some(444),
        authority: "h:444".to_string(),
        path: "/".to_string(),
    };
    assert_eq!(url_origin(&url).as_deref(), Some("https://h:444"));
    url.port = None;
    assert_eq!(url_origin(&url).as_deref(), Some("https://h"));
    url.host = None;
    assert_eq!(url_origin(&url), None);
    url.scheme = "ftp".to_string();
    assert_eq!(url_origin(&url), None);
}

#[test]
fn parts_of_web_urls() {
    let url = try_parse_http_url("HTTP://User@Example.COM/a/../b?c#d").unwrap();
    assert_eq!(url.scheme, "http");
    assert_eq!(url.host.as_deref(), Some("example.com"));
    assert_eq!(url.port, Some(80));
    assert_eq!(url.authority, "User@example.com");
    assert_eq!(url.path, "/b");
    assert!(try_parse_http_url("ws://example.com/").is_none());
    assert!(try_parse_http_url("example.com").is_none());
}

#[test]
fn serialized_request_is_read_back() {
    let head = request(
        "/x?y",
        vec![field("host", b"a.test"), field("x-bytes", b"\xff"), field("accept", b"*/*")],
    );
    let raw = serialize_request(&head, b"body\r\n\r\nmore");
    assert_eq!(
        raw,
        b"GET /x?y HTTP/1.1\r\nhost: a.test\r\nx-bytes: \r\naccept: */*\r\n\r\nbody\r\n\r\nmore"
    );
    let (headers, body) = split(&raw).unwrap();
    assert_eq!(body, b"body\r\n\r\nmore");
    assert_eq!(parse_header_value(&headers, "Host").as_deref(), Some("a.test"));
    assert_eq!(parse_header_value(&headers, "X-Bytes").as_deref(), Some(""));
    assert_eq!(
        parse_request_line(&raw),
        Some(("GET".to_string(), "/x?y".to_string()))
    );
}

#[test]
fn serialized_response_is_read_back() {
    let head = |status, version, headers| ResponseHead {
        version,
        status,
        headers,
    };
    let raw = serialize_response(&head(404, HttpVersion::Http2, vec![field("a", b"b")]), b"x");
    assert_eq!(raw, b"HTTP/2 404 Not Found\r\na: b\r\n\r\nx");
    assert_eq!(parse_response_status(&raw), Some(404));
    assert_eq!(split(&raw), parts(b"HTTP/2 404 Not Found\r\na: b\r\n\r\n", b"x"));
    let raw = serialize_response(&head(599, HttpVersion::Http10, vec![]), b"");
    assert_eq!(raw, b"HTTP/1.0 599 \r\n\r\n\r\n");
    let raw = serialize_response(&head(200, HttpVersion::Http3, vec![]), b"");
    assert_eq!(raw, b"HTTP/3 200 OK\r\n\r\n\r\n");
    let raw = serialize_response(&head(418, HttpVersion::Other, vec![]), b"");
    assert_eq!(raw, b"HTTP/1.1 418 I'm a teapot\r\n\r\n\r\n");
}

#[test]
fn message_without_headers_keeps_an_empty_line() {
    let raw = serialize_request(&request("/", vec![]), b"body");
    assert_eq!(raw, b"GET / HTTP/1.1\r\n\r\n\r\nbody");
    assert_eq!(split(&raw), parts(b"GET / HTTP/1.1\r\n\r\n", b"\r\nbody"));
}

#[test]
fn header_values_of_a_head() {
    assert_eq!(text_of_value(b"a\tb ~").as_deref(), Some("a\tb ~"));
    assert_eq!(text_of_value(b"a\x7f"), None);
    assert_eq!(text_of_value(b"a\n"), None);
    let headers = vec![field("X-A", b"\x80"), field("x-a", b"second"), field("b", b"")];
    assert_eq!(header_value(&headers, "x-A"), None);
    assert_eq!(header_value(&headers, "B").as_deref(), Some(""));
    assert_eq!(header_value(&headers, "c"), None);
}

#[test]
fn urls_of_requests() {
    let host = || vec![field("host", b"a.test")];
    assert_eq!(
        request_url_from_message(&request("/x", host()), true).as_deref(),
        Some("https://a.test/x")
    );
    assert_eq!(
        request_url_from_message(&request("/x", host()), false).as_deref(),
        Some("http://a.test/x")
    );
    assert_eq!(
        request_url_from_message(&request("https://b.test/y", host()), false).as_deref(),
        Some("https://b.test/y")
    );
    let mut head = request("/x", vec![]);
    assert_eq!(request_url_from_message(&head, true), None);
    head.authority = Some("c.test:8443".to_string());
    head.scheme = Some("wss".to_string());
    assert_eq!(
        request_url_from_message(&head, false).as_deref(),
        Some("wss://c.test:8443/x")
    );
}

#[test]
fn pages_of_requests() {
    let head = request("/", vec![field("origin", b"https://o"), field("referer", b"https://r/p")]);
    assert_eq!(page_url_from_request(&head).as_deref(), Some("https://r/p"));
    let head = request("/", vec![field("origin", b"https://o")]);
    assert_eq!(page_url_from_request(&head).as_deref(), Some("https://o"));
    assert_eq!(page_url_from_request(&request("/", vec![])), None);
}

#[test]
fn requests_of_the_browser_itself() {
    let internal = |headers| is_browser_internal_request(&request("/", headers));
    assert!(internal(vec![field("Sec-Fetch-Site", b"None"), field("sec-fetch-dest", b"EMPTY")]));
    assert!(!internal(vec![field("sec-fetch-site", b"none")]));
    assert!(!internal(vec![field("sec-fetch-site", b"none"), field("sec-fetch-dest", b"document")]));
    assert!(internal(vec![field("origin", b"chrome-untrusted://new-tab-page")]));
    assert!(internal(vec![field("referer", b"chrome://settings/")]));
    assert!(!internal(vec![field("origin", b"null")]));
    assert!(!internal(vec![field("origin", b"https://example.com")]));
    assert!(!internal(vec![]));
    assert!(is_browser_ui_origin("moz-extension://x"));
    assert!(!is_browser_ui_origin("NULL"));
    assert!(!is_browser_ui_origin("no url"));
}

#[test]
fn kinds_of_resources() {
    let kind = |headers, url: &str| infer_resource_type(&request("/", headers), url);
    let dest = |d: &[u8]| vec![field("sec-fetch-dest", d)];
    for (d, want) in [
        ("Document", "main_frame"),
        ("iframe", "sub_frame"),
        ("script", "script"),
        ("style", "stylesheet"),
        ("image", "image"),
        ("font", "font"),
        ("empty", "fetch"),
    ] {
        assert_eq!(kind(dest(d.as_bytes()), "https://a/x.css"), want);
    }
    assert_eq!(kind(dest(b"video"), "https://a/x.JS"), "script");
    assert_eq!(
        kind(vec![field("sec-fetch-dest", b"video"), field("sec-fetch-mode", b"Navigate")], "https://a/"),
        "main_frame"
    );
    assert_eq!(kind(vec![field("sec-fetch-mode", b"no-cors")], "https://a/x.js"), "fetch");
    assert_eq!(kind(vec![field("sec-fetch-mode", b"cors")], "https://a/"), "fetch");
    assert_eq!(kind(vec![field("sec-fetch-mode", b"websocket")], "https://a/b.css?x=1"), "stylesheet");
    assert_eq!(kind(vec![], "https://a/x.png"), "other");
    assert_eq!(kind(vec![], "x.js"), "other");
    let some = |s: &str| Some(s.to_string());
    assert_eq!(classify_resource(&None, &None, &some("/a.js")), "script");
    assert_eq!(classify_resource(&some("DOCUMENT"), &some("cors"), &None), "fetch");
}
