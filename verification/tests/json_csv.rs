use httplogger::csv::csv_escape;
use httplogger::storage::{to_requests_csv, HttpRequestRecord};
use httplogger::websocket::{
    message_text, serialize_capture_file, WebSocketCaptureFile, WebSocketMessagePayload,
    WebSocketMessageRecord,
};

fn text_message(data: &str) -> WebSocketMessageRecord {
    WebSocketMessageRecord {
        direction: "c2s".to_string(),
        timestamp: "2026-01-02T03:04:05.678Z".to_string(),
        payload: WebSocketMessagePayload::Text {
            data: data.to_string(),
        },
    }
}

fn record() -> HttpRequestRecord {
    HttpRequestRecord {
        id: 12,
        page_origin: "https://example.com".to_string(),
        method: "GET".to_string(),
        url: "https://example.com/a,b".to_string(),
        status_code: Some(200),
        resource_type: "fetch".to_string(),
        mime_type: Some("text/html".to_string()),
        initiator_type: "fetch".to_string(),
        initiator_url: None,
        page_url: Some("say \"hi\"".to_string()),
        frame_url: None,
        request_sent_at: "t1".to_string(),
        response_received_at: Some("t2".to_string()),
        req_path: "httplogger/requests/00012.req".to_string(),
        res_path: None,
    }
}

#[test]
fn cells_are_quoted_only_where_needed() {
    assert_eq!(csv_escape("plain"), "plain");
    assert_eq!(csv_escape(""), "");
    assert_eq!(csv_escape("a,b"), "\"a,b\"");
    assert_eq!(csv_escape("a\"b"), "\"a\"\"b\"");
    assert_eq!(csv_escape("a\nb"), "\"a\nb\"");
    assert_eq!(csv_escape("a\rb"), "\"a\rb\"");
    assert_eq!(csv_escape("\""), "\"\"\"\"");
}

#[test]
fn table_of_requests() {
    let header = "id,method,url,status_code,resource_type,mime_type,initiator_type,initiator_url,page_origin,page_url,frame_url,request_sent_at,response_received_at,req_file,res_file\n";
    assert_eq!(to_requests_csv(&[]), header);
    let mut other = record();
    other.id = -3;
    other.status_code = None;
    let csv = to_requests_csv(&[record(), other]);
    let want = format!(
        "{header}12,GET,\"https://example.com/a,b\",200,fetch,text/html,fetch,,https://example.com,\"say \"\"hi\"\"\",,t1,t2,httplogger/requests/00012.req,\n-3,GET,\"https://example.com/a,b\",,fetch,text/html,fetch,,https://example.com,\"say \"\"hi\"\"\",,t1,t2,httplogger/requests/00012.req,\n"
    );
    assert_eq!(csv, want);
}

#[test]
fn message_is_one_json_line() {
    let data = "line\nfeed \"quoted\" back\\slash \u{1} \u{8}\u{c}\r\t ü 😀 \u{7f}";
    let line = message_text(&text_message(data)).unwrap();
    assert!(!line.contains('\n'));
    assert_eq!(
        line,
        "{\"direction\":\"c2s\",\"timestamp\":\"2026-01-02T03:04:05.678Z\",\"type\":\"text\",\"data\":\"line\\nfeed \\\"quoted\\\" back\\\\slash \\u0001 \\b\\f\\r\\t ü 😀 \u{7f}\"}"
    );
    let value: serde_json::Value = serde_json::from_str(&line).unwrap();
    assert_eq!(value["data"].as_str(), Some(data));
    assert_eq!(value["type"].as_str(), Some("text"));
}

#[test]
fn json_text_of_every_control_character() {
    for n in 0..0x80u8 {
        let data = (n as char).to_string();
        let line = message_text(&text_message(&data)).unwrap();
        let value: serde_json::Value = serde_json::from_str(&line).unwrap();
        assert_eq!(value["data"].as_str(), Some(data.as_str()));
        assert!(line.chars().all(|c| c >= ' '));
    }
}

#[test]
fn payloads_of_each_type() {
    let payload = |payload| WebSocketMessageRecord {
        direction: "s2c".to_string(),
        timestamp: "t".to_string(),
        payload,
    };
    let head = "{\"direction\":\"s2c\",\"timestamp\":\"t\",";
    let data = || "d".to_string();
    let cases = vec![
        (WebSocketMessagePayload::Text { data: data() }, "\"type\":\"text\",\"data\":\"d\"}"),
        (WebSocketMessagePayload::Binary { data: data() }, "\"type\":\"binary\",\"data\":\"d\"}"),
        (WebSocketMessagePayload::Ping { data: data() }, "\"type\":\"ping\",\"data\":\"d\"}"),
        (WebSocketMessagePayload::Pong { data: data() }, "\"type\":\"pong\",\"data\":\"d\"}"),
        (
            WebSocketMessagePayload::Close { code: Some(1000), reason: "bye".to_string() },
            "\"type\":\"close\",\"code\":1000,\"reason\":\"bye\"}",
        ),
        (
            WebSocketMessagePayload::Close { code: None, reason: String::new() },
            "\"type\":\"close\",\"reason\":\"\"}",
        ),
    ];
    for (p, tail) in cases {
        assert_eq!(message_text(&payload(p)).unwrap(), format!("{head}{tail}"));
    }
}

#[test]
fn capture_file_layout() {
    let mut capture = WebSocketCaptureFile {
        id: 7,
        url: "https://example.com/socket".to_string(),
        page_url: None,
        opened_at: "t0".to_string(),
        request: "GET /socket HTTP/1.1\r\n\r\n".to_string(),
        messages: vec![],
    };
    assert_eq!(
        serialize_capture_file(&capture).unwrap(),
        "{\n  \"id\": 7,\n  \"url\": \"https://example.com/socket\",\n  \"openedAt\": \"t0\",\n  \"request\": \"GET /socket HTTP/1.1\\r\\n\\r\\n\",\n  \"messages\": [\n  ]\n}"
    );
    capture.page_url = Some("https://example.com/".to_string());
    capture.messages = vec![text_message("one"), text_message("two\nlines")];
    let text = serialize_capture_file(&capture).unwrap();
    let lines: Vec<&str> = text.split('\n').collect();
    assert_eq!(lines.len(), 11);
    assert_eq!(lines[3], "  \"pageUrl\": \"https://example.com/\",");
    assert_eq!(
        lines[7],
        "    {\"direction\":\"c2s\",\"timestamp\":\"2026-01-02T03:04:05.678Z\",\"type\":\"text\",\"data\":\"one\"},"
    );
    assert!(lines[8].ends_with("\"data\":\"two\\nlines\"}"));
    let value: serde_json::Value = serde_json::from_str(&text).unwrap();
    assert_eq!(value["id"].as_i64(), Some(7));
    assert_eq!(value["messages"][1]["data"].as_str(), Some("two\nlines"));
}
