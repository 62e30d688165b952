use httplogger::config::{AppConfig, HttpRequestFilterConfig};
use httplogger::http_message::{HeaderField, HttpVersion, RequestHead, ResponseHead};
use httplogger::peek::{find_double_crlf, parse_connect_authority, HelloPeek};
use httplogger::proxy::{
    capture_request, keep_response, media_type_of, plan_request, plan_upgrade, upgrade_request,
    CaptureHandler, CapturePlan, PendingFlow, QueueEntry, RequestStep, MAX_CAPTURE_BODY_BYTES,
};
use httplogger::queues::KeyedQueues;
use httplogger::websocket::{PeerAddr, WsContext, WsMessage};

fn config(scope: &[&str]) -> AppConfig {
    AppConfig {
        scope: scope.iter().map(|s| s.to_string()).collect(),
        mitm_proxy_port: 8079,
        user_agent: None,
        filters: HttpRequestFilterConfig::default(),
    }
}

fn request(method: &str, target: &str, headers: &[(&str, &str)]) -> RequestHead {
    RequestHead {
        method: method.to_string(),
        target: target.to_string(),
        scheme: None,
        authority: None,
        version: HttpVersion::Http11,
        headers: headers
            .iter()
            .map(|(n, v)| HeaderField {
                name: n.to_string(),
                value: v.as_bytes().to_vec(),
            })
            .collect(),
    }
}

fn response(status: u16, headers: &[(&str, &str)]) -> ResponseHead {
    ResponseHead {
        version: HttpVersion::Http11,
        status,
        headers: request("GET", "/", headers).headers,
    }
}

fn peer(port: u16) -> PeerAddr {
    PeerAddr::V4 {
        ip: 0x7f00_0001,
        port,
    }
}

fn page() -> RequestHead {
    request(
        "GET",
        "https://example.com/page",
        &[("host", "example.com"), ("sec-fetch-dest", "document")],
    )
}

fn plan(step: RequestStep) -> CapturePlan {
    match step {
        RequestStep::Capture(plan) => plan,
        other => panic!("not captured: {other:?}"),
    }
}

#[test]
fn steps_of_requests() {
    let all = config(&["*"]);
    let step = |head: &RequestHead, c: &AppConfig| plan_request(head, c);
    assert!(matches!(step(&request("CONNECT", "a:443", &[]), &all), RequestStep::Forward));
    assert!(matches!(
        step(&request("GET", "/", &[("host", "a"), ("Upgrade", "WebSocket")]), &all),
        RequestStep::Upgrade
    ));
    assert!(matches!(
        step(&request("GET", "/", &[("host", "a"), ("origin", "chrome://x")]), &all),
        RequestStep::Skip
    ));
    assert!(matches!(step(&request("GET", "/", &[]), &all), RequestStep::Skip));
    assert!(matches!(step(&page(), &config(&["other.test"])), RequestStep::Skip));
    assert!(matches!(
        step(&request("GET", "https://a/x.css", &[("referer", "https://a/")]), &all),
        RequestStep::Skip
    ));
    assert!(matches!(
        step(&request("GET", "https://a/api", &[]), &all),
        RequestStep::Skip
    ));
    let p = plan(step(&page(), &all));
    assert_eq!(p.url, "https://example.com/page");
    assert_eq!(p.resource_type, "main_frame");
    assert_eq!(p.page_url.as_deref(), Some("https://example.com/page"));
    let p = plan(step(
        &request("GET", "/api", &[("host", "a.test"), ("referer", "https://example.com/")]),
        &config(&["example.com"]),
    ));
    assert_eq!(p.url, "http://a.test/api");
    assert_eq!(p.page_url.as_deref(), Some("https://example.com/"));
    let mut head = request("GET", "/api", &[("host", "a.test"), ("referer", "https://a.test/")]);
    head.scheme = Some("https".to_string());
    assert_eq!(plan(step(&head, &all)).url, "https://a.test/api");
}

#[test]
fn large_bodies_are_not_captured() {
    let all = config(&["*"]);
    let capture = |body: Option<&[u8]>| {
        capture_request(&page(), plan(plan_request(&page(), &all)), body, "t".to_string())
    };
    assert!(matches!(capture(None), QueueEntry::Skipped));
    let large = vec![0u8; MAX_CAPTURE_BODY_BYTES + 1];
    assert!(matches!(capture(Some(&large)), QueueEntry::Skipped));
    match capture(Some(&large[..MAX_CAPTURE_BODY_BYTES])) {
        QueueEntry::Captured(flow) => {
            assert_eq!(flow.request_body_bytes, 8 * 1024 * 1024);
            assert_eq!(flow.url, "https://example.com/page");
            assert_eq!(flow.method, "GET");
        }
        QueueEntry::Skipped => panic!("skipped"),
    }
    let flow = |bytes| PendingFlow {
        request_sent_at: "t".to_string(),
        request_raw: vec![],
        request_body_bytes: bytes,
        page_url: Some("https://a/".to_string()),
        method: "GET".to_string(),
        url: "https://a/".to_string(),
        resource_type: "fetch".to_string(),
    };
    let raw = || b"HTTP/1.1 200 OK\r\nA: b\r\n\r\n".to_vec();
    assert!(keep_response(&flow(MAX_CAPTURE_BODY_BYTES), raw(), 0, &all).is_some());
    assert!(keep_response(&flow(MAX_CAPTURE_BODY_BYTES), raw(), 1, &all).is_none());
    assert!(keep_response(&flow(usize::MAX), raw(), 0, &all).is_none());
}

#[test]
fn media_types_without_parameters() {
    let media = |v: &str| media_type_of(&Some(v.to_string()));
    assert_eq!(media("text/html; charset=utf-8").as_deref(), Some("text/html"));
    assert_eq!(media(" text/html "). as_deref(), Some("text/html"));
    assert_eq!(media(" ; x"), None);
    assert_eq!(media_type_of(&None), None);
}

#[test]
fn responses_meet_requests_in_order() {
    let mut handler = CaptureHandler::new(config(&["*"]));
    let client = peer(1);
    for url in ["https://a.test/1", "https://a.test/2"] {
        let head = request("GET", url, &[("referer", "https://a.test/")]);
        let step = handler.begin_request(client, &head);
        handler.finish_request(client, &head, plan(step), Some(b""), "t".to_string());
        let skipped = request("GET", "https://a.test/x.css", &[]);
        assert!(matches!(handler.begin_request(client, &skipped), RequestStep::Skip));
    }
    assert!(handler.begin_response(peer(2)).is_none());
    assert_eq!(handler.begin_response(client).unwrap().url, "https://a.test/1");
    assert!(handler.begin_response(client).is_none());
    assert_eq!(handler.begin_response(client).unwrap().url, "https://a.test/2");
    assert!(handler.begin_response(client).is_none());
    assert!(handler.begin_response(client).is_none());
}

#[test]
fn a_flow_from_request_to_response() {
    let mut handler = CaptureHandler::new(config(&["*"]));
    let client = peer(1);
    let step = handler.begin_request(client, &page());
    handler.finish_request(client, &page(), plan(step), Some(b"body"), "sent".to_string());
    let flow = handler.begin_response(client).unwrap();
    assert_eq!(flow.request_sent_at, "sent");
    assert_eq!(
        flow.request_raw,
        b"GET https://example.com/page HTTP/1.1\r\nhost: example.com\r\nsec-fetch-dest: document\r\n\r\nbody"
    );
    let head = response(200, &[("content-type", "text/html; charset=x")]);
    let kept = handler.finish_response(&flow, &head, b"<p>").unwrap();
    assert_eq!(kept.status_code, Some(200));
    assert_eq!(kept.mime_type.as_deref(), Some("text/html"));
    assert_eq!(
        kept.response_raw,
        b"HTTP/1.1 200 OK\r\ncontent-type: text/html; charset=x\r\n\r\n<p>"
    );
    let image = response(200, &[("content-type", "image/png")]);
    assert!(handler.finish_response(&flow, &image, b"x").is_none());
}

#[test]
fn empty_responses_are_seen_by_the_filters() {
    let mut c = config(&["*"]);
    c.filters.skip_empty_responses = true;
    let mut handler = CaptureHandler::new(c);
    let step = handler.begin_request(peer(1), &page());
    handler.finish_request(peer(1), &page(), plan(step), Some(b""), "t".to_string());
    let flow = handler.begin_response(peer(1)).unwrap();
    assert!(handler.finish_response(&flow, &response(204, &[("a", "b")]), b"").is_none());
    assert!(handler.finish_response(&flow, &response(204, &[("a", "b")]), b"x").is_some());
    assert!(handler.finish_response(&flow, &response(200, &[("a", "b")]), b"").is_some());
}

#[test]
fn upgrades_in_scope_are_recorded() {
    let head = request(
        "GET",
        "/socket",
        &[("host", "a.test"), ("upgrade", "websocket"), (":scheme", "https")],
    );
    let plan = plan_upgrade(&head, &config(&["a.test"])).unwrap();
    assert_eq!(plan.url, "https://a.test/socket");
    assert_eq!(plan.page_url, None);
    assert!(plan_upgrade(&head, &config(&["b.test"])).is_none());
    assert!(plan_upgrade(&request("GET", "/socket", &[]), &config(&["*"])).is_none());
    let mut over_tls = request("GET", "/s", &[("host", "a.test")]);
    assert_eq!(plan_upgrade(&over_tls, &config(&["*"])).unwrap().url, "http://a.test/s");
    over_tls.scheme = Some("https".to_string());
    assert_eq!(plan_upgrade(&over_tls, &config(&["*"])).unwrap().url, "https://a.test/s");
    assert!(upgrade_request(&head, None).is_none());
    assert!(upgrade_request(&head, Some(&vec![0; MAX_CAPTURE_BODY_BYTES + 1])).is_none());
    assert!(upgrade_request(&head, Some(b"")).unwrap().starts_with(b"GET /socket HTTP/1.1\r\n"));
}

#[test]
fn messages_find_their_recorders() {
    let mut handler = CaptureHandler::new(config(&["*"]));
    let client = peer(9);
    let to_server = WsContext::ClientToServer {
        src: client,
        dst: "wss://a.test/s".to_string(),
    };
    let to_client = WsContext::ServerToClient {
        src: "ws://a.test/s".to_string(),
        dst: client,
    };
    let text = WsMessage::Text("x".to_string());
    assert_eq!(handler.handle_message(&to_server, &text), None);
    handler.register_session(client, "https://a.test/s", 1);
    handler.register_session(client, "https://a.test/s", 2);
    assert_eq!(handler.handle_message(&to_server, &text), Some((1, "c2s")));
    assert_eq!(handler.handle_message(&to_client, &text), Some((1, "s2c")));
    assert_eq!(handler.handle_message(&to_client, &WsMessage::Close(None)), Some((1, "s2c")));
    assert_eq!(handler.handle_message(&to_server, &text), Some((2, "c2s")));
}

#[test]
fn queues_are_kept_apart() {
    let mut queues: KeyedQueues<PeerAddr, u8> = KeyedQueues::new();
    assert!(queues.is_empty());
    let v6 = PeerAddr::V6 {
        ip: 1,
        port: 1,
        flow_info: 0,
        scope_id: 0,
    };
    queues.push_back(peer(1), 10);
    queues.push_back(v6, 20);
    queues.push_back(peer(1), 11);
    assert_eq!(queues.front(&peer(1)), Some(&10));
    assert_eq!(queues.pop_front(&peer(1)), Some(10));
    assert_eq!(queues.pop_front(&peer(2)), None);
    assert_eq!(queues.pop_front(&peer(1)), Some(11));
    assert_eq!(queues.pop_front(&peer(1)), None);
    assert!(!queues.is_empty());
    assert_eq!(queues.pop_front(&v6), Some(20));
    assert!(queues.is_empty());
}

fn hello_record() -> Vec<u8> {
    let mut body = vec![3, 3];
    body.extend([7u8; 32]);
    body.extend([0, 0, 2, 0x13, 0x01, 1, 0, 0, 0]);
    let mut record = vec![0x16, 3, 1, 0, (body.len() + 4) as u8, 1, 0, 0, body.len() as u8];
    record.extend(body);
    record
}

#[test]
fn hello_behind_connect_is_seen() {
    let mut bytes = b"CONNECT Example.com:443 HTTP/1.1\r\nHost: x\r\n\r\n".to_vec();
    bytes.extend(hello_record());
    let mut peek = HelloPeek::new();
    let mut seen = vec![];
    for b in &bytes {
        seen.extend(peek.feed(&[*b]));
    }
    assert_eq!(seen.len(), 1);
    assert_eq!(seen[0].0, "Example.com:443");
    assert_eq!(seen[0].1.cipher_suites, vec![0x1301]);
    assert!(peek.feed(&bytes).is_none());

    let mut whole = HelloPeek::new();
    assert_eq!(whole.feed(&bytes).unwrap().0, "Example.com:443");
}

#[test]
fn no_hello_where_none_can_come() {
    let mut get = HelloPeek::new();
    let mut bytes = b"GET http://a/ HTTP/1.1\r\n\r\n".to_vec();
    bytes.extend(hello_record());
    assert!(get.feed(&bytes).is_none());
    assert!(get.feed(&hello_record()).is_none());

    let mut plain = HelloPeek::new();
    assert!(plain.feed(b"CONNECT a:80 HTTP/1.1\r\n\r\nGET / HTTP/1.1").is_none());
    assert!(plain.feed(&hello_record()).is_none());

    let mut large = HelloPeek::new();
    assert!(large.feed(b"CONNECT a:443 HTTP/1.1\r\n\r\n").is_none());
    let mut part = vec![0x16, 3, 1, 0xff, 0xff];
    part.resize(33_000, 0);
    assert!(large.feed(&part).is_none());
    assert!(large.feed(&hello_record()).is_none());

    let mut nameless = HelloPeek::new();
    let mut bytes = b"CONNECT \r\n\r\n".to_vec();
    bytes.extend(hello_record());
    assert!(nameless.feed(&bytes).is_none());
}

#[test]
fn authorities_of_connect_requests() {
    let authority = |h: &[u8]| parse_connect_authority(h);
    assert_eq!(authority(b"CONNECT  a.test:443  HTTP/1.1\r\nX: y").as_deref(), Some("a.test:443"));
    assert_eq!(authority(b"CONNECT\r\n"), None);
    assert_eq!(authority(b"connect a.test:443\r\n"), None);
    assert_eq!(authority(b"CONNECT \xff\r\n"), None);
    assert_eq!(authority(b"CONNECT a.test\n\xff").as_deref(), Some("a.test"));
    assert_eq!(find_double_crlf(b"a\r\n\r\nb"), Some(5));
    assert_eq!(find_double_crlf(b"a\n\nb"), None);
    assert_eq!(find_double_crlf(b"\r\n\r"), None);
}
