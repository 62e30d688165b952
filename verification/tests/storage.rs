use httplogger::storage::{
    now_iso, page_origin, record_message, record_message_at, RequestStore, StoreError,
};
use httplogger::websocket::{
    direction_from_context, encode_message, endpoint_text, normalize_ws_endpoint, session_key,
    ws_session_key, CloseFrame, PeerAddr, WebSocketMessagePayload, WebSocketSessionRegistry,
    WsContext, WsMessage,
};
use std::io::Write;

const PEER: PeerAddr = PeerAddr::V4 {
    ip: 0x7f00_0001,
    port: 5000,
};

#[test]
fn places_of_the_store() {
    let store = RequestStore::open("/w");
    assert_eq!(store.data_root, "/w/httplogger");
    assert_eq!(store.db_path(), "/w/httplogger/metadata.db");
    assert_eq!(store.requests_dir(), "/w/httplogger/requests");
    assert_eq!(store.websockets_dir(), "/w/httplogger/websockets");
    let file = store.export_csv(&[]);
    assert_eq!(file.path, "/w/httplogger/requests.csv");
    assert!(file.content.starts_with("id,method,url,"));
}

#[test]
fn row_of_a_flow() {
    let store = RequestStore::open("/w");
    let row = store
        .persist_flow(
            "t1",
            Some("t2"),
            Some("https://page.test/x"),
            "GET",
            "https://a.test/y",
            "fetch",
            Some(200),
            Some("text/html"),
        )
        .unwrap();
    assert_eq!(row.page_origin, "https://page.test");
    assert_eq!(row.status_code, Some(200));
    assert_eq!(row.initiator_type, "fetch");
    assert_eq!(row.initiator_url.as_deref(), Some("https://page.test/x"));
    assert_eq!(row.page_url.as_deref(), Some("https://page.test/x"));
    assert_eq!(row.frame_url, None);
    assert_eq!(row.req_path, "");
    assert_eq!(row.res_path, None);
    assert_eq!(row.response_received_at.as_deref(), Some("t2"));
    let err = store
        .persist_flow("t1", None, Some("null"), "GET", "ftp://a", "fetch", None, None)
        .unwrap_err();
    assert_eq!(err, StoreError::MissingPageOrigin);
    assert_eq!(err.message(), "missing page origin");
    assert_eq!(page_origin(Some("null"), "http://a:81/").as_deref(), Some("http://a:81"));
}

#[test]
fn files_of_a_flow() {
    let store = RequestStore::open("/w");
    let mut gz = flate2::write::GzEncoder::new(Vec::new(), flate2::Compression::default());
    gz.write_all(b"body").unwrap();
    let mut response = b"HTTP/1.1 200 OK\r\ncontent-encoding: gzip\r\n\r\n".to_vec();
    response.extend(gz.finish().unwrap());
    let files = store.flow_files(3, b"GET / HTTP/1.1\r\n\r\n", Some(&response));
    assert_eq!(files.request.path, "/w/httplogger/requests/00003.req");
    assert_eq!(files.request.content, b"GET / HTTP/1.1\r\n\r\n");
    assert_eq!(files.req_path, "httplogger/requests/00003.req");
    assert_eq!(files.res_path.as_deref(), Some("httplogger/requests/00003.res"));
    let res = files.response.unwrap();
    assert_eq!(res.path, "/w/httplogger/requests/00003.res");
    assert_eq!(res.content, b"HTTP/1.1 200 OK\r\ncontent-encoding: gzip\r\n\r\nbody");
    let files = store.flow_files(123_456, b"x", None);
    assert_eq!(files.req_path, "httplogger/requests/123456.req");
    assert!(files.response.is_none() && files.res_path.is_none());
}

#[test]
fn recording_a_session() {
    let store = RequestStore::open("w");
    let row = store.create_websocket_session("wss://a.test/s", None, "t0");
    assert_eq!(row.page_origin, None);
    assert_eq!(row.file_path, "");
    let mut recorder = store.recorder(4, b"GET /s\xff", &row);
    assert_eq!(recorder.id(), 4);
    assert_eq!(recorder.relative_path(), "httplogger/websockets/00004.ws.json");
    let file = recorder.flush().unwrap();
    assert_eq!(file.path, "w/httplogger/websockets/00004.ws.json");
    assert!(file.content.contains("\"request\": \"GET /s\u{fffd}\""));
    let text = WsMessage::Text("hi".to_string());
    let first = record_message_at(&mut recorder, "c2s", "t1".to_string(), &text).unwrap();
    assert!(first
        .content
        .contains("\n    {\"direction\":\"c2s\",\"timestamp\":\"t1\",\"type\":\"text\",\"data\":\"hi\"}\n"));
    let second = record_message(&mut recorder, "s2c", &WsMessage::Binary(vec![1, 2, 3])).unwrap();
    assert!(second.content.contains("\"data\":\"hi\"},\n"));
    assert!(second.content.contains("\"type\":\"binary\",\"data\":\"AQID\"}\n  ]\n}"));
    assert_eq!(recorder.flush().unwrap().content, second.content);
}

#[test]
fn origin_of_a_session_is_that_of_its_page() {
    let store = RequestStore::open("w");
    let row = store.create_websocket_session("wss://a.test/s", Some("https://p.test:1/"), "t");
    assert_eq!(row.page_origin.as_deref(), Some("https://p.test:1"));
    let row = store.create_websocket_session("https://a.test/s", Some("null"), "t");
    assert_eq!(row.page_origin.as_deref(), Some("https://a.test"));
}

#[test]
fn the_time_is_rfc3339() {
    let now = now_iso();
    assert_eq!(now.len(), 24, "{now}");
    assert!(now.ends_with('Z'));
    assert_eq!(&now[10..11], "T");
    assert_eq!(&now[19..20], ".");
    assert!(chrono::DateTime::parse_from_rfc3339(&now).is_ok());
    let shape: String = now
        .chars()
        .map(|c| if c.is_ascii_digit() { '0' } else { c })
        .collect();
    assert_eq!(shape, "0000-00-00T00:00:00.000Z");
}

#[test]
fn payloads_of_messages() {
    let data = |m: WsMessage| match encode_message(&m) {
        WebSocketMessagePayload::Text { data } => ("text", data),
        WebSocketMessagePayload::Binary { data } => ("binary", data),
        WebSocketMessagePayload::Ping { data } => ("ping", data),
        WebSocketMessagePayload::Pong { data } => ("pong", data),
        WebSocketMessagePayload::Close { code, reason } => {
            ("close", format!("{code:?} {reason}"))
        }
    };
    let want = |k, d: &str| (k, d.to_string());
    assert_eq!(data(WsMessage::Text("ü".to_string())), want("text", "ü"));
    assert_eq!(data(WsMessage::Binary(vec![])), want("binary", ""));
    assert_eq!(data(WsMessage::Binary(vec![0xff])), want("binary", "/w=="));
    assert_eq!(data(WsMessage::Binary(vec![0, 16])), want("binary", "ABA="));
    assert_eq!(data(WsMessage::Binary(b"Man".to_vec())), want("binary", "TWFu"));
    assert_eq!(data(WsMessage::Binary(vec![0xfb, 0xef, 0xff, 9])), want("binary", "++//CQ=="));
    assert_eq!(data(WsMessage::Frame(vec![0xfb, 0xff])), want("binary", "+/8="));
    assert_eq!(data(WsMessage::Ping(vec![0x41, 0xe9])), want("ping", "A\u{e9}"));
    assert_eq!(data(WsMessage::Pong(vec![0])), want("pong", "\0"));
    assert_eq!(data(WsMessage::Close(None)), want("close", "None "));
    assert_eq!(
        data(WsMessage::Close(Some(CloseFrame { code: 1001, reason: "away".to_string() }))),
        want("close", "Some(1001) away")
    );
}

#[test]
fn endpoints_ignore_the_scheme() {
    for url in ["http://host/", "ws://host/", "wss://HOST", "https://host:443/"] {
        assert_eq!(normalize_ws_endpoint(url), "host", "{url}");
    }
    assert_eq!(normalize_ws_endpoint("ws://host:443/"), "host:443");
    assert_eq!(normalize_ws_endpoint("wss://host:8080/a?b#c"), "host:8080/a");
    assert_eq!(normalize_ws_endpoint("http://host:8080/a"), "host:8080/a");
    assert_eq!(normalize_ws_endpoint("no url"), "no url");
    for rest in ["://host:80/a", "://host:443/a", "://u:p@HOST/x/../y?q", "://[::1]:9/", "://\u{fc}.de"] {
        for (web, socket) in [("http", "ws"), ("https", "wss")] {
            assert_eq!(
                normalize_ws_endpoint(&format!("{web}{rest}")),
                normalize_ws_endpoint(&format!("{socket}{rest}")),
                "{rest}"
            );
        }
    }
    assert_eq!(endpoint_text("x", &None), "x");
}

#[test]
fn keys_and_directions_of_messages() {
    let up = WsContext::ClientToServer {
        src: PEER,
        dst: "ws://a.test/s".to_string(),
    };
    let down = WsContext::ServerToClient {
        src: "wss://a.test/s".to_string(),
        dst: PEER,
    };
    assert_eq!(direction_from_context(&up), "c2s");
    assert_eq!(direction_from_context(&down), "s2c");
    for key in [session_key(&up), session_key(&down), ws_session_key(PEER, "https://a.test/s")] {
        assert_eq!(key.client, PEER);
        assert_eq!(key.endpoint, "a.test/s");
    }
}

#[test]
fn registry_of_sessions() {
    let mut registry = WebSocketSessionRegistry::new();
    let key = || ws_session_key(PEER, "ws://a.test/");
    let other = || ws_session_key(PEER, "ws://b.test/");
    assert_eq!(registry.resolve_recorder(key()), None);
    registry.register_pending(key(), 1);
    registry.register_pending(key(), 2);
    registry.register_pending(other(), 3);
    assert_eq!(registry.resolve_recorder(key()), Some(1));
    assert_eq!(registry.resolve_recorder(key()), Some(1));
    registry.close_session(key());
    assert_eq!(registry.resolve_recorder(key()), Some(2));
    assert_eq!(registry.resolve_recorder(other()), Some(3));
    registry.close_session(key());
    registry.close_session(key());
    assert_eq!(registry.resolve_recorder(key()), None);
    assert_eq!(registry.resolve_recorder(other()), Some(3));
}
