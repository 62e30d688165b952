//! WebSocket sessions: the messages as they are recorded, the file that holds them, and the
//! sessions that are open.
use vstd::prelude::*;
use vstd::string::StringExecFns;
use crate::http_raw::{latin1, latin1_to_string};
use crate::json::{json_string, json_text, law_json_string_is_one_line};
use crate::number::{
    decimal, decimal_text, is_digit, lemma_decimal, signed_decimal, signed_decimal_text,
};
use crate::queues::{KeyTable, KeyedQueues, TableKey};
use crate::text::{
    begins_with, finishes_with, join, joined, lemma_split_of_join, opt_text, same, split_on, texts,
};
use crate::weburl::{opt_url, parse_url, socket_url, url_parse, ParsedUrl, UrlView};

verus! {

// ---------------------------------------------------------------------------
// Messages.
// ---------------------------------------------------------------------------

/// The reason that a session is closed for.
#[derive(Debug, Clone)]
pub struct CloseFrame {
    pub code: u16,
    pub reason: String,
}

/// A message of a session.
#[derive(Debug, Clone)]
pub enum WsMessage {
    Text(String),
    Binary(Vec<u8>),
    Ping(Vec<u8>),
    Pong(Vec<u8>),
    Close(Option<CloseFrame>),
    /// The payload of a raw frame.
    Frame(Vec<u8>),
}

/// What is recorded of a message.
#[derive(Debug, Clone)]
pub enum WebSocketMessagePayload {
    Text { data: String },
    Binary { data: String },
    Ping { data: String },
    Pong { data: String },
    Close { code: Option<u16>, reason: String },
}

/// A message as it is recorded.
#[derive(Debug, Clone)]
pub struct WebSocketMessageRecord {
    pub direction: String,
    pub timestamp: String,
    pub payload: WebSocketMessagePayload,
}

/// A session as it is recorded.
#[derive(Debug, Clone)]
pub struct WebSocketCaptureFile {
    pub id: i64,
    pub url: String,
    pub page_url: Option<String>,
    pub opened_at: String,
    pub request: String,
    pub messages: Vec<WebSocketMessageRecord>,
}

/// The model of what is recorded of a message.
pub enum PayloadView {
    Text { data: Seq<char> },
    Binary { data: Seq<char> },
    Ping { data: Seq<char> },
    Pong { data: Seq<char> },
    Close { code: Option<u16>, reason: Seq<char> },
}

/// The model of a message as it is recorded.
#[verifier::ext_equal]
pub struct MessageView {
    pub direction: Seq<char>,
    pub timestamp: Seq<char>,
    pub payload: PayloadView,
}

/// The model of a session as it is recorded.
#[verifier::ext_equal]
pub struct CaptureView {
    pub id: i64,
    pub url: Seq<char>,
    pub page_url: Option<Seq<char>>,
    pub opened_at: Seq<char>,
    pub request: Seq<char>,
    pub messages: Seq<MessageView>,
}

impl View for WebSocketMessagePayload {
    type V = PayloadView;

    open spec fn view(&self) -> PayloadView {
        match self {
            WebSocketMessagePayload::Text { data } => PayloadView::Text { data: data@ },
            WebSocketMessagePayload::Binary { data } => PayloadView::Binary { data: data@ },
            WebSocketMessagePayload::Ping { data } => PayloadView::Ping { data: data@ },
            WebSocketMessagePayload::Pong { data } => PayloadView::Pong { data: data@ },
            WebSocketMessagePayload::Close { code, reason } => PayloadView::Close {
                code: *code,
                reason: reason@,
            },
        }
    }
}

impl View for WebSocketMessageRecord {
    type V = MessageView;

    open spec fn view(&self) -> MessageView {
        MessageView {
            direction: self.direction@,
            timestamp: self.timestamp@,
            payload: self.payload@,
        }
    }
}

/// The views of a list of messages.
pub open spec fn message_views(messages: Seq<WebSocketMessageRecord>) -> Seq<MessageView> {
    Seq::new(messages.len(), |i: int| messages[i]@)
}

impl View for WebSocketCaptureFile {
    type V = CaptureView;

    open spec fn view(&self) -> CaptureView {
        CaptureView {
            id: self.id,
            url: self.url@,
            page_url: opt_text(self.page_url),
            opened_at: self.opened_at@,
            request: self.request@,
            messages: message_views(self.messages@),
        }
    }
}

// ---------------------------------------------------------------------------
// What is recorded of a message.
// ---------------------------------------------------------------------------

/// The character of the standard base64 alphabet for a value below 64.
pub open spec fn base64_char(v: int) -> char {
    if v < 26 {
        (65 + v) as char
    } else if v < 52 {
        (71 + v) as char
    } else if v < 62 {
        (v - 4) as char
    } else if v == 62 {
        '+'
    } else {
        '/'
    }
}

/// Bytes in base64: each group of three bytes is four characters of six bits each. A group of one
/// or two bytes at the end is filled up with zero bits, and to four characters with `=`.
pub open spec fn base64_text(bytes: Seq<u8>) -> Seq<char>
    decreases bytes.len(),
{
    if bytes.len() == 0 {
        seq![]
    } else if bytes.len() == 1 {
        let a = bytes[0] as int;
        seq![base64_char(a / 4), base64_char(a % 4 * 16), '=', '=']
    } else if bytes.len() == 2 {
        let (a, b) = (bytes[0] as int, bytes[1] as int);
        seq![
            base64_char(a / 4),
            base64_char(a % 4 * 16 + b / 16),
            base64_char(b % 16 * 4),
            '=',
        ]
    } else {
        let (a, b, c) = (bytes[0] as int, bytes[1] as int, bytes[2] as int);
        seq![
            base64_char(a / 4),
            base64_char(a % 4 * 16 + b / 16),
            base64_char(b % 16 * 4 + c / 64),
            base64_char(c % 64),
        ] + base64_text(bytes.skip(3))
    }
}

/// The length of the base64 form of `n` bytes, with its padding.
pub open spec fn base64_len(n: nat) -> nat {
    (n + 2) / 3 * 4
}

/// `base64::engine::general_purpose::STANDARD.encode`: the bytes in base64, in the standard
/// alphabet and with padding. The call panics where the length of the result overflows.
#[verifier::external_body]
fn base64_encode(bytes: &[u8]) -> (r: String)
    requires
        base64_len(bytes@.len()) <= usize::MAX,
    ensures
        r@ == base64_text(bytes@),
{
    base64::Engine::encode(&base64::engine::general_purpose::STANDARD, bytes)
}

proof fn lemma_base64_char(v: int, w: int)
    requires
        0 <= v < 64,
        0 <= w < 64,
    ensures
        base64_char(v) != '=',
        base64_char(v) == base64_char(w) ==> v == w,
{
}

proof fn lemma_base64_len(bytes: Seq<u8>)
    ensures
        base64_text(bytes).len() == base64_len(bytes.len()),
    decreases bytes.len(),
{
    if bytes.len() > 2 {
        lemma_base64_len(bytes.skip(3));
    }
}

/// The base64 form tells the bytes: different bytes have different forms. It has as many
/// characters as there are bytes, and a third more.
pub proof fn law_base64_tells_bytes(a: Seq<u8>, b: Seq<u8>)
    ensures
        base64_text(a) == base64_text(b) ==> a == b,
        base64_text(a).len() == base64_len(a.len()),
    decreases a.len(),
{
    lemma_base64_len(a);
    lemma_base64_len(b);
    if base64_text(a) == base64_text(b) {
        if a.len() == 0 || b.len() == 0 {
            assert(a =~= b);
        } else {
            lemma_base64_group(a, b);
            if a.len() > 2 {
                let (s, t) = (base64_text(a), base64_text(b));
                assert(s.skip(4) =~= base64_text(a.skip(3)));
                assert(t.skip(4) =~= base64_text(b.skip(3)));
                law_base64_tells_bytes(a.skip(3), b.skip(3));
                assert forall|i: int| 0 <= i < a.len() implies a[i] == b[i] by {
                    if i >= 3 {
                        assert(a[i] == a.skip(3)[i - 3]);
                        assert(b[i] == b.skip(3)[i - 3]);
                    }
                }
            }
            assert(a =~= b);
        }
    }
}

/// The values of the four characters of the first group; 64 stands for the padding.
spec fn base64_group(bytes: Seq<u8>) -> (int, int, int, int) {
    let a = bytes[0] as int;
    let b = if bytes.len() > 1 { bytes[1] as int } else { 0 };
    let c = if bytes.len() > 2 { bytes[2] as int } else { 0 };
    (
        a / 4,
        a % 4 * 16 + b / 16,
        if bytes.len() > 1 { b % 16 * 4 + c / 64 } else { 64 },
        if bytes.len() > 2 { c % 64 } else { 64 },
    )
}

spec fn base64_or_padding(v: int) -> char {
    if v == 64 {
        '='
    } else {
        base64_char(v)
    }
}

proof fn lemma_base64_first(bytes: Seq<u8>)
    requires
        bytes.len() > 0,
    ensures
        base64_text(bytes).len() >= 4,
        base64_text(bytes)[0] == base64_or_padding(base64_group(bytes).0),
        base64_text(bytes)[1] == base64_or_padding(base64_group(bytes).1),
        base64_text(bytes)[2] == base64_or_padding(base64_group(bytes).2),
        base64_text(bytes)[3] == base64_or_padding(base64_group(bytes).3),
        0 <= base64_group(bytes).0 < 64,
        0 <= base64_group(bytes).1 < 64,
        0 <= base64_group(bytes).2 <= 64,
        0 <= base64_group(bytes).3 <= 64,
        base64_group(bytes).2 == 64 <==> bytes.len() == 1,
        base64_group(bytes).3 == 64 <==> bytes.len() <= 2,
{
}

proof fn lemma_base64_or_padding(v: int, w: int)
    requires
        0 <= v <= 64,
        0 <= w <= 64,
        base64_or_padding(v) == base64_or_padding(w),
    ensures
        v == w,
{
    if v < 64 {
        lemma_base64_char(v, v);
    }
    if w < 64 {
        lemma_base64_char(w, w);
    }
    if v < 64 && w < 64 {
        lemma_base64_char(v, w);
    }
}

proof fn lemma_base64_group(a: Seq<u8>, b: Seq<u8>)
    requires
        a.len() > 0,
        b.len() > 0,
        base64_text(a) == base64_text(b),
    ensures
        a[0] == b[0],
        a.len() == 1 <==> b.len() == 1,
        a.len() == 2 <==> b.len() == 2,
        a.len() > 1 ==> a[1] == b[1],
        a.len() > 2 ==> a[2] == b[2],
{
    lemma_base64_first(a);
    lemma_base64_first(b);
    let (x, y) = (base64_group(a), base64_group(b));
    lemma_base64_or_padding(x.0, y.0);
    lemma_base64_or_padding(x.1, y.1);
    lemma_base64_or_padding(x.2, y.2);
    lemma_base64_or_padding(x.3, y.3);
}

/// A message whose base64 form, where it gets one, has a length that memory can have.
pub open spec fn encodable(message: WsMessage) -> bool {
    match message {
        WsMessage::Binary(bytes) => base64_len(bytes@.len()) <= usize::MAX,
        WsMessage::Frame(bytes) => base64_len(bytes@.len()) <= usize::MAX,
        _ => true,
    }
}

/// What is recorded of a message: text as it is, binary data and raw frames in base64, pings and
/// pongs byte by byte as characters, and the code and the reason of a close.
pub open spec fn payload_of(message: WsMessage) -> PayloadView {
    match message {
        WsMessage::Text(text) => PayloadView::Text { data: text@ },
        WsMessage::Binary(bytes) => PayloadView::Binary { data: base64_text(bytes@) },
        WsMessage::Ping(bytes) => PayloadView::Ping { data: latin1(bytes@) },
        WsMessage::Pong(bytes) => PayloadView::Pong { data: latin1(bytes@) },
        WsMessage::Close(Some(frame)) => PayloadView::Close {
            code: Some(frame.code),
            reason: frame.reason@,
        },
        WsMessage::Close(None) => PayloadView::Close { code: None, reason: seq![] },
        WsMessage::Frame(bytes) => PayloadView::Binary { data: base64_text(bytes@) },
    }
}

/// What is recorded of a message.
pub fn encode_message(message: &WsMessage) -> (r: WebSocketMessagePayload)
    requires
        encodable(*message),
    ensures
        r@ == payload_of(*message),
{
    match message {
        WsMessage::Text(text) => WebSocketMessagePayload::Text { data: text.clone() },
        WsMessage::Binary(bytes) => WebSocketMessagePayload::Binary {
            data: base64_encode(bytes.as_slice()),
        },
        WsMessage::Ping(bytes) => WebSocketMessagePayload::Ping {
            data: latin1_to_string(bytes.as_slice()),
        },
        WsMessage::Pong(bytes) => WebSocketMessagePayload::Pong {
            data: latin1_to_string(bytes.as_slice()),
        },
        WsMessage::Close(frame) => match frame {
            Some(frame) => WebSocketMessagePayload::Close {
                code: Some(frame.code),
                reason: frame.reason.clone(),
            },
            None => {
                let reason = String::new();
                assert(reason@ =~= Seq::<char>::empty());
                WebSocketMessagePayload::Close { code: None, reason }
            },
        },
        WsMessage::Frame(bytes) => WebSocketMessagePayload::Binary {
            data: base64_encode(bytes.as_slice()),
        },
    }
}

// ---------------------------------------------------------------------------
// The file of a session.
// ---------------------------------------------------------------------------

/// The members that a payload adds to the object of its message.
pub open spec fn payload_json(payload: PayloadView) -> Seq<char> {
    match payload {
        PayloadView::Text { data } => "\"type\":\"text\",\"data\":"@ + json_string(data),
        PayloadView::Binary { data } => "\"type\":\"binary\",\"data\":"@ + json_string(data),
        PayloadView::Ping { data } => "\"type\":\"ping\",\"data\":"@ + json_string(data),
        PayloadView::Pong { data } => "\"type\":\"pong\",\"data\":"@ + json_string(data),
        PayloadView::Close { code: Some(code), reason } => "\"type\":\"close\",\"code\":"@ + decimal(
            code as nat,
        ) + ",\"reason\":"@ + json_string(reason),
        PayloadView::Close { code: None, reason } => "\"type\":\"close\",\"reason\":"@
            + json_string(reason),
    }
}

/// The object of a message, without white space.
pub open spec fn message_json(message: MessageView) -> Seq<char> {
    "{\"direction\":"@ + json_string(message.direction) + ",\"timestamp\":"@ + json_string(
        message.timestamp,
    ) + ","@ + payload_json(message.payload) + "}"@
}

/// The line of the message at `i`, with a comma behind it unless it is the last.
pub open spec fn message_line(messages: Seq<MessageView>, i: int) -> Seq<char> {
    if i + 1 < messages.len() {
        "    "@ + message_json(messages[i]) + ","@
    } else {
        "    "@ + message_json(messages[i])
    }
}

/// The lines of the messages.
pub open spec fn message_lines(messages: Seq<MessageView>) -> Seq<Seq<char>> {
    Seq::new(messages.len(), |i: int| message_line(messages, i))
}

/// The line of a member whose value is a string.
pub open spec fn member_line(name: Seq<char>, value: Seq<char>) -> Seq<char> {
    "  \""@ + name + "\": "@ + json_string(value) + ","@
}

/// The lines before the messages.
pub open spec fn opening_lines(capture: CaptureView) -> Seq<Seq<char>> {
    seq![
        "{"@,
        "  \"id\": "@ + signed_decimal(capture.id as int) + ","@,
        member_line("url"@, capture.url),
    ] + (match capture.page_url {
        Some(page_url) => seq![member_line("pageUrl"@, page_url)],
        None => seq![],
    }) + seq![
        member_line("openedAt"@, capture.opened_at),
        member_line("request"@, capture.request),
        "  \"messages\": ["@,
    ]
}

/// The lines of the file of a session: an indented object, with each message in one line.
pub open spec fn capture_lines(capture: CaptureView) -> Seq<Seq<char>> {
    opening_lines(capture) + message_lines(capture.messages) + seq!["  ]"@, "}"@]
}

/// The file of a session.
pub open spec fn capture_text(capture: CaptureView) -> Seq<char> {
    join(capture_lines(capture), "\n"@)
}

fn append_json(out: &mut String, lead: &str, value: &str) -> (r: Result<(), serde_json::Error>)
    ensures
        r is Ok,
        final(out)@ == old(out)@ + (lead@ + json_string(value@)),
{
    match json_text(value) {
        Ok(text) => {
            let ghost before = out@;
            out.append(lead);
            out.append(text.as_str());
            assert(out@ =~= before + (lead@ + text@));
            Ok(())
        },
        Err(e) => Err(e),
    }
}

fn payload_text(payload: &WebSocketMessagePayload) -> (r: Result<String, serde_json::Error>)
    ensures
        r is Ok,
        (r->Ok_0)@ == payload_json(payload@),
{
    let mut out = String::new();
    let done = match payload {
        WebSocketMessagePayload::Text { data } => append_json(
            &mut out,
            "\"type\":\"text\",\"data\":",
            data.as_str(),
        ),
        WebSocketMessagePayload::Binary { data } => append_json(
            &mut out,
            "\"type\":\"binary\",\"data\":",
            data.as_str(),
        ),
        WebSocketMessagePayload::Ping { data } => append_json(
            &mut out,
            "\"type\":\"ping\",\"data\":",
            data.as_str(),
        ),
        WebSocketMessagePayload::Pong { data } => append_json(
            &mut out,
            "\"type\":\"pong\",\"data\":",
            data.as_str(),
        ),
        WebSocketMessagePayload::Close { code, reason } => match code {
            Some(code) => {
                let mut lead = "\"type\":\"close\",\"code\":".to_owned();
                lead.append(decimal_text(*code as u64).as_str());
                lead.append(",\"reason\":");
                append_json(&mut out, lead.as_str(), reason.as_str())
            },
            None => append_json(&mut out, "\"type\":\"close\",\"reason\":", reason.as_str()),
        },
    };
    match done {
        Ok(()) => {
            assert(out@ =~= payload_json(payload@));
            Ok(out)
        },
        Err(e) => Err(e),
    }
}

/// The object of a message, in one line.
pub fn message_text(message: &WebSocketMessageRecord) -> (r: Result<String, serde_json::Error>)
    ensures
        r is Ok,
        (r->Ok_0)@ == message_json(message@),
{
    let direction = match json_text(message.direction.as_str()) {
        Ok(text) => text,
        Err(e) => return Err(e),
    };
    let timestamp = match json_text(message.timestamp.as_str()) {
        Ok(text) => text,
        Err(e) => return Err(e),
    };
    let payload = match payload_text(&message.payload) {
        Ok(text) => text,
        Err(e) => return Err(e),
    };
    let mut out = "{\"direction\":".to_owned();
    out.append(direction.as_str());
    out.append(",\"timestamp\":");
    out.append(timestamp.as_str());
    out.append(",");
    out.append(payload.as_str());
    out.append("}");
    Ok(out)
}

fn member_text(name: &str, value: &str) -> (r: Result<String, serde_json::Error>)
    ensures
        r is Ok,
        (r->Ok_0)@ == member_line(name@, value@),
{
    match json_text(value) {
        Ok(text) => {
            let mut out = "  \"".to_owned();
            out.append(name);
            out.append("\": ");
            out.append(text.as_str());
            out.append(",");
            Ok(out)
        },
        Err(e) => Err(e),
    }
}

fn push_line(lines: &mut Vec<String>, line: String)
    ensures
        texts(final(lines)@) == texts(old(lines)@).push(line@),
{
    lines.push(line);
    assert(texts(lines@) =~= texts(old(lines)@).push(line@));
}

/// The file of a session: the outer object is indented, and each message is one line.
pub fn serialize_capture_file(capture: &WebSocketCaptureFile) -> (r: Result<
    String,
    serde_json::Error,
>)
    ensures
        r is Ok,
        (r->Ok_0)@ == capture_text(capture@),
{
    let mut lines: Vec<String> = Vec::new();
    let mut id = "  \"id\": ".to_owned();
    id.append(signed_decimal_text(capture.id).as_str());
    id.append(",");
    push_line(&mut lines, "{".to_owned());
    push_line(&mut lines, id);
    match member_text("url", capture.url.as_str()) {
        Ok(line) => push_line(&mut lines, line),
        Err(e) => return Err(e),
    }
    if let Some(page_url) = &capture.page_url {
        match member_text("pageUrl", page_url.as_str()) {
            Ok(line) => push_line(&mut lines, line),
            Err(e) => return Err(e),
        }
    }
    match member_text("openedAt", capture.opened_at.as_str()) {
        Ok(line) => push_line(&mut lines, line),
        Err(e) => return Err(e),
    }
    match member_text("request", capture.request.as_str()) {
        Ok(line) => push_line(&mut lines, line),
        Err(e) => return Err(e),
    }
    push_line(&mut lines, "  \"messages\": [".to_owned());
    assert(texts(lines@) =~= opening_lines(capture@));
    let ghost all = message_lines(capture@.messages);
    let mut i: usize = 0;
    assert(opening_lines(capture@) + all.take(0) =~= opening_lines(capture@));
    while i < capture.messages.len()
        invariant
            i <= capture.messages@.len(),
            all == message_lines(capture@.messages),
            texts(lines@) == opening_lines(capture@) + all.take(i as int),
        decreases capture.messages@.len() - i,
    {
        let text = match message_text(&capture.messages[i]) {
            Ok(text) => text,
            Err(e) => return Err(e),
        };
        let mut line = "    ".to_owned();
        line.append(text.as_str());
        if capture.messages.len() - i > 1 {
            line.append(",");
        }
        assert(line@ == all[i as int]);
        assert(opening_lines(capture@) + all.take(i + 1) =~= (opening_lines(capture@) + all.take(
            i as int,
        )).push(line@));
        push_line(&mut lines, line);
        i = i + 1;
    }
    assert(all.take(i as int) =~= all);
    push_line(&mut lines, "  ]".to_owned());
    push_line(&mut lines, "}".to_owned());
    assert(texts(lines@) =~= capture_lines(capture@));
    Ok(joined(lines.as_slice(), "\n"))
}

/// A text without control characters.
pub open spec fn no_controls(s: Seq<char>) -> bool {
    forall|i: int| 0 <= i < s.len() ==> #[trigger] s[i] as u32 >= 32
}

proof fn lemma_no_controls_concat(a: Seq<char>, b: Seq<char>)
    requires
        no_controls(a),
        no_controls(b),
    ensures
        no_controls(a + b),
{
    assert forall|i: int| 0 <= i < (a + b).len() implies #[trigger] (a + b)[i] as u32 >= 32 by {
        if i < a.len() {
            assert((a + b)[i] == a[i]);
        } else {
            assert((a + b)[i] == b[i - a.len()]);
        }
    }
}

proof fn lemma_digits_no_controls(n: nat)
    ensures
        no_controls(decimal(n)),
{
    lemma_decimal(n);
    assert forall|i: int| 0 <= i < decimal(n).len() implies #[trigger] decimal(n)[i] as u32 >= 32 by {
        assert(is_digit(decimal(n)[i]));
    }
}

proof fn lemma_payload_no_controls(payload: PayloadView)
    ensures
        no_controls(payload_json(payload)),
{
    reveal_strlit("\"type\":\"text\",\"data\":");
    reveal_strlit("\"type\":\"binary\",\"data\":");
    reveal_strlit("\"type\":\"ping\",\"data\":");
    reveal_strlit("\"type\":\"pong\",\"data\":");
    reveal_strlit("\"type\":\"close\",\"code\":");
    reveal_strlit(",\"reason\":");
    reveal_strlit("\"type\":\"close\",\"reason\":");
    match payload {
        PayloadView::Text { data } => {
            law_json_string_is_one_line(data);
            lemma_no_controls_concat("\"type\":\"text\",\"data\":"@, json_string(data));
        },
        PayloadView::Binary { data } => {
            law_json_string_is_one_line(data);
            lemma_no_controls_concat("\"type\":\"binary\",\"data\":"@, json_string(data));
        },
        PayloadView::Ping { data } => {
            law_json_string_is_one_line(data);
            lemma_no_controls_concat("\"type\":\"ping\",\"data\":"@, json_string(data));
        },
        PayloadView::Pong { data } => {
            law_json_string_is_one_line(data);
            lemma_no_controls_concat("\"type\":\"pong\",\"data\":"@, json_string(data));
        },
        PayloadView::Close { code: Some(code), reason } => {
            let lead = "\"type\":\"close\",\"code\":"@;
            law_json_string_is_one_line(reason);
            lemma_digits_no_controls(code as nat);
            lemma_no_controls_concat(lead, decimal(code as nat));
            lemma_no_controls_concat(lead + decimal(code as nat), ",\"reason\":"@);
            lemma_no_controls_concat(
                lead + decimal(code as nat) + ",\"reason\":"@,
                json_string(reason),
            );
        },
        PayloadView::Close { code: None, reason } => {
            law_json_string_is_one_line(reason);
            lemma_no_controls_concat("\"type\":\"close\",\"reason\":"@, json_string(reason));
        },
    }
}

/// The object of a message has no control character in it, and so no line ending.
pub proof fn law_message_is_one_line(message: MessageView)
    ensures
        no_controls(message_json(message)),
{
    reveal_strlit("{\"direction\":");
    reveal_strlit(",\"timestamp\":");
    reveal_strlit(",");
    reveal_strlit("}");
    law_json_string_is_one_line(message.direction);
    law_json_string_is_one_line(message.timestamp);
    lemma_payload_no_controls(message.payload);
    let a = "{\"direction\":"@;
    let d = json_string(message.direction);
    let t = json_string(message.timestamp);
    let p = payload_json(message.payload);
    lemma_no_controls_concat(a, d);
    lemma_no_controls_concat(a + d, ",\"timestamp\":"@);
    lemma_no_controls_concat(a + d + ",\"timestamp\":"@, t);
    lemma_no_controls_concat(a + d + ",\"timestamp\":"@ + t, ","@);
    lemma_no_controls_concat(a + d + ",\"timestamp\":"@ + t + ","@, p);
    lemma_no_controls_concat(a + d + ",\"timestamp\":"@ + t + ","@ + p, "}"@);
}

proof fn lemma_member_no_controls(name: Seq<char>, value: Seq<char>)
    requires
        no_controls(name),
    ensures
        no_controls(member_line(name, value)),
{
    reveal_strlit("  \"");
    reveal_strlit("\": ");
    reveal_strlit(",");
    law_json_string_is_one_line(value);
    lemma_no_controls_concat("  \""@, name);
    lemma_no_controls_concat("  \""@ + name, "\": "@);
    lemma_no_controls_concat("  \""@ + name + "\": "@, json_string(value));
    lemma_no_controls_concat("  \""@ + name + "\": "@ + json_string(value), ","@);
}

proof fn lemma_opening_no_controls(capture: CaptureView)
    ensures
        forall|i: int|
            0 <= i < opening_lines(capture).len() ==> no_controls(
                #[trigger] opening_lines(capture)[i],
            ),
{
    reveal_strlit("{");
    reveal_strlit("  \"id\": ");
    reveal_strlit(",");
    reveal_strlit("  \"messages\": [");
    reveal_strlit("url");
    reveal_strlit("pageUrl");
    reveal_strlit("openedAt");
    reveal_strlit("request");
    let n = capture.id as int;
    let number = signed_decimal(n);
    lemma_digits_no_controls(if n < 0 { (-n) as nat } else { n as nat });
    assert(no_controls(seq!['-']));
    if n < 0 {
        lemma_no_controls_concat(seq!['-'], decimal((-n) as nat));
    }
    lemma_no_controls_concat("  \"id\": "@, number);
    lemma_no_controls_concat("  \"id\": "@ + number, ","@);
    lemma_member_no_controls("url"@, capture.url);
    if capture.page_url is Some {
        lemma_member_no_controls("pageUrl"@, capture.page_url->0);
    }
    lemma_member_no_controls("openedAt"@, capture.opened_at);
    lemma_member_no_controls("request"@, capture.request);
}

proof fn lemma_message_line_no_controls(messages: Seq<MessageView>, i: int)
    ensures
        no_controls(message_line(messages, i)),
{
    reveal_strlit("    ");
    reveal_strlit(",");
    law_message_is_one_line(messages[i]);
    lemma_no_controls_concat("    "@, message_json(messages[i]));
    lemma_no_controls_concat("    "@ + message_json(messages[i]), ","@);
}

/// The lines of the file of a session are those that it was made of: each message has one.
pub proof fn law_capture_file_has_a_line_for_each_message(capture: CaptureView)
    ensures
        split_on(capture_text(capture), '\n') == capture_lines(capture),
{
    reveal_strlit("\n");
    reveal_strlit("  ]");
    reveal_strlit("}");
    let lines = capture_lines(capture);
    let opening = opening_lines(capture);
    let middle = message_lines(capture.messages);
    lemma_opening_no_controls(capture);
    assert forall|i: int| 0 <= i < lines.len() implies !(#[trigger] lines[i]).contains('\n') by {
        if i < opening.len() {
            assert(lines[i] == opening[i]);
        } else if i < opening.len() + middle.len() {
            assert(lines[i] == middle[i - opening.len()]);
            lemma_message_line_no_controls(capture.messages, i - opening.len());
        }
        assert(no_controls(lines[i]));
    }
    assert("\n"@ =~= seq!['\n']);
    lemma_split_of_join(lines, '\n');
}

// ---------------------------------------------------------------------------
// Sessions and their endpoints.
// ---------------------------------------------------------------------------

/// The authority of a URL, and its path unless that is the root.
pub open spec fn endpoint_of(url: UrlView) -> Seq<char> {
    if url.path.len() == 0 || url.path == "/"@ {
        url.authority
    } else {
        url.authority + url.path
    }
}

/// The endpoint that a text names, where `parsed` is the URL that it is: the scheme does not
/// count. A text that is no URL names itself.
pub open spec fn endpoint(url: Seq<char>, parsed: Option<UrlView>) -> Seq<char> {
    match parsed {
        Some(u) => endpoint_of(u),
        None => url,
    }
}

/// The endpoint that a text names, where `parsed` is the URL that it is.
pub fn endpoint_text(url: &str, parsed: &Option<ParsedUrl>) -> (r: String)
    ensures
        r@ == endpoint(url@, opt_url(*parsed)),
{
    match parsed {
        Some(u) => {
            if u.path.as_str().is_empty() || same(u.path.as_str(), "/") {
                u.authority.clone()
            } else {
                let mut s = u.authority.as_str().to_owned();
                s.append(u.path.as_str());
                s
            }
        },
        None => url.to_owned(),
    }
}

/// The endpoint that a text names, whatever its scheme: a URL with the scheme `http` names the
/// one that it names with `ws`, and with `https` the one that it names with `wss`.
pub fn normalize_ws_endpoint(url: &str) -> (r: String)
    ensures
        r@ == endpoint(url@, url_parse(url@)),
        url_parse(url@) is Some ==> forall|rest: Seq<char>|
            begins_with(rest, "://"@) && url@ == #[trigger] ("http"@ + rest) ==> r@ == endpoint(
                "ws"@ + rest,
                url_parse("ws"@ + rest),
            ),
        url_parse(url@) is Some ==> forall|rest: Seq<char>|
            begins_with(rest, "://"@) && url@ == #[trigger] ("https"@ + rest) ==> r@ == endpoint(
                "wss"@ + rest,
                url_parse("wss"@ + rest),
            ),
{
    let parsed = parse_url(url);
    proof {
        reveal_strlit("http");
        reveal_strlit("https");
        reveal_strlit("http://");
        reveal_strlit("https://");
        reveal_strlit("://");
        assert forall|rest: Seq<char>|
            begins_with(rest, "://"@) && url@ == #[trigger] ("http"@ + rest) implies socket_url(
            url@,
        ) == Some("ws"@ + rest) by {
            assert(url@.take(4) + rest.take(3) =~= url@.take(7));
            assert("http"@ + "://"@ =~= "http://"@);
            assert(url@.take(4) =~= "http"@);
            assert(url@.skip(4) =~= rest);
        }
        assert forall|rest: Seq<char>|
            begins_with(rest, "://"@) && url@ == #[trigger] ("https"@ + rest) implies socket_url(
            url@,
        ) == Some("wss"@ + rest) by {
            assert(url@.take(5) + rest.take(3) =~= url@.take(8));
            assert("https"@ + "://"@ =~= "https://"@);
            assert(url@.take(5) =~= "https"@);
            assert(url@.skip(5) =~= rest);
            assert(url@[4] == 's');
            assert(!begins_with(url@, "http://"@)) by {
                if begins_with(url@, "http://"@) {
                    assert(url@.take(7)[4] == ':');
                }
            }
        }
    }
    endpoint_text(url, &parsed)
}

/// The address of a client.
#[derive(Debug, Clone, Copy, PartialEq, Eq, Structural)]
pub enum PeerAddr {
    V4 { ip: u32, port: u16 },
    V6 { ip: u128, port: u16, flow_info: u32, scope_id: u32 },
}

/// The client and the endpoint of a session.
#[derive(Debug, Clone)]
pub struct SessionKey {
    pub client: PeerAddr,
    pub endpoint: String,
}

/// The model of a session key.
#[verifier::ext_equal]
pub struct SessionKeyView {
    pub client: PeerAddr,
    pub endpoint: Seq<char>,
}

impl View for SessionKey {
    type V = SessionKeyView;

    open spec fn view(&self) -> SessionKeyView {
        SessionKeyView { client: self.client, endpoint: self.endpoint@ }
    }
}

/// Where a message comes from and where it goes.
#[derive(Debug, Clone)]
pub enum WsContext {
    ClientToServer { src: PeerAddr, dst: String },
    ServerToClient { src: String, dst: PeerAddr },
}

pub open spec fn direction(ctx: WsContext) -> Seq<char> {
    match ctx {
        WsContext::ClientToServer { .. } => "c2s"@,
        WsContext::ServerToClient { .. } => "s2c"@,
    }
}

pub open spec fn key_of_url(client: PeerAddr, url: Seq<char>) -> SessionKeyView {
    SessionKeyView { client, endpoint: endpoint(url, url_parse(url)) }
}

/// The key of the session that a message belongs to, whichever way it goes.
pub open spec fn key_of_context(ctx: WsContext) -> SessionKeyView {
    match ctx {
        WsContext::ClientToServer { src, dst } => key_of_url(src, dst@),
        WsContext::ServerToClient { src, dst } => key_of_url(dst, src@),
    }
}

/// The direction of a message.
pub fn direction_from_context(ctx: &WsContext) -> (r: &'static str)
    ensures
        r@ == direction(*ctx),
{
    match ctx {
        WsContext::ClientToServer { src: _, dst: _ } => "c2s",
        WsContext::ServerToClient { src: _, dst: _ } => "s2c",
    }
}

/// The key of a session.
pub fn ws_session_key(client_addr: PeerAddr, url: &str) -> (r: SessionKey)
    ensures
        r@ == key_of_url(client_addr, url@),
{
    SessionKey { client: client_addr, endpoint: normalize_ws_endpoint(url) }
}

/// The key of the session that a message belongs to.
pub fn session_key(ctx: &WsContext) -> (r: SessionKey)
    ensures
        r@ == key_of_context(*ctx),
{
    match ctx {
        WsContext::ClientToServer { src, dst } => ws_session_key(*src, dst.as_str()),
        WsContext::ServerToClient { src, dst } => ws_session_key(*dst, src.as_str()),
    }
}

/// A message to a server and one back to the client belong to one session.
pub proof fn law_both_directions_share_a_session(client: PeerAddr, a: String, b: String)
    requires
        a@ == b@,
    ensures
        key_of_context(WsContext::ClientToServer { src: client, dst: a }) == key_of_context(
            WsContext::ServerToClient { src: b, dst: client },
        ),
{
}

// ---------------------------------------------------------------------------
// The sessions that are open.
// ---------------------------------------------------------------------------

impl TableKey for SessionKey {
    fn same_key(&self, other: &Self) -> (r: bool) {
        assert(self@ == other@ <==> self.client == other.client && self.endpoint@
            == other.endpoint@);
        self.client == other.client && same(self.endpoint.as_str(), other.endpoint.as_str())
    }
}

/// The recorders of the sessions, by their numbers: those that wait for the first message of
/// their session, and the one that each open session has.
pub struct WebSocketSessionRegistry {
    pending: KeyedQueues<SessionKey, i64>,
    active: KeyTable<SessionKey, i64>,
}

/// What the registry holds for one key.
#[verifier::ext_equal]
pub struct SessionState {
    pub pending: Seq<i64>,
    pub active: Option<i64>,
}

/// The recorder for a message, and what is held after it: the one of the open session, else the
/// one that has waited longest, whose session is open from then on.
pub open spec fn resolved(state: SessionState) -> (Option<i64>, SessionState) {
    if state.active is Some {
        (state.active, state)
    } else if state.pending.len() > 0 {
        (
            Some(state.pending[0]),
            SessionState { pending: state.pending.drop_first(), active: Some(state.pending[0]) },
        )
    } else {
        (None, state)
    }
}

/// What is held after a session was closed.
pub open spec fn without_active(state: SessionState) -> SessionState {
    SessionState { pending: state.pending, active: None }
}

/// What is held after a recorder was registered.
pub open spec fn with_pending(state: SessionState, recorder: i64) -> SessionState {
    SessionState { pending: state.pending.push(recorder), active: state.active }
}

impl WebSocketSessionRegistry {
    /// Each session has one recorder at most.
    pub closed spec fn valid(&self) -> bool {
        self.pending.valid() && self.active.valid()
    }

    /// What is held for a key.
    pub closed spec fn state(&self, key: SessionKeyView) -> SessionState {
        SessionState {
            pending: self.pending.waiting(key),
            active: self.active.at(key),
        }
    }

    /// A registry without sessions.
    pub fn new() -> (r: Self)
        ensures
            r.valid(),
            forall|key: SessionKeyView|
                #[trigger] r.state(key) == (SessionState { pending: seq![], active: None }),
    {
        WebSocketSessionRegistry { pending: KeyedQueues::new(), active: KeyTable::new() }
    }

    /// Lets a recorder wait for the first message of its session.
    pub fn register_pending(&mut self, key: SessionKey, recorder: i64)
        requires
            old(self).valid(),
        ensures
            final(self).valid(),
            final(self).state(key@) == with_pending(old(self).state(key@), recorder),
            forall|other: SessionKeyView|
                other != key@ ==> #[trigger] final(self).state(other) == old(self).state(other),
    {
        self.pending.push_back(key, recorder);
    }

    /// The recorder for a message.
    pub fn resolve_recorder(&mut self, key: SessionKey) -> (r: Option<i64>)
        requires
            old(self).valid(),
        ensures
            final(self).valid(),
            (r, final(self).state(key@)) == resolved(old(self).state(key@)),
            forall|other: SessionKeyView|
                other != key@ ==> #[trigger] final(self).state(other) == old(self).state(other),
    {
        if let Some(recorder) = self.active.get(&key) {
            return Some(*recorder);
        }
        match self.pending.pop_front(&key) {
            Some(recorder) => {
                self.active.insert(key, recorder);
                Some(recorder)
            },
            None => None,
        }
    }

    /// Closes a session.
    pub fn close_session(&mut self, key: SessionKey)
        requires
            old(self).valid(),
        ensures
            final(self).valid(),
            final(self).state(key@) == without_active(old(self).state(key@)),
            forall|other: SessionKeyView|
                other != key@ ==> #[trigger] final(self).state(other) == old(self).state(other),
    {
        self.active.remove(&key);
    }
}

/// A session keeps its recorder until it is closed, whatever is registered meanwhile.
pub proof fn law_session_keeps_its_recorder(state: SessionState, other: i64)
    requires
        resolved(state).0 is Some,
    ensures
        resolved(with_pending(resolved(state).1, other)).0 == resolved(state).0,
        resolved(resolved(state).1) == (resolved(state).0, resolved(state).1),
{
}

/// Sessions get the recorders in the order in which they were registered.
pub proof fn law_recorders_come_in_order(a: i64, b: i64)
    ensures
        ({
            let none = SessionState { pending: seq![], active: None };
            let first = resolved(with_pending(with_pending(none, a), b));
            let second = resolved(without_active(first.1));
            &&& first.0 == Some(a)
            &&& second.0 == Some(b)
            &&& resolved(without_active(second.1)).0 is None
        }),
{
}

/// A session that is not open gets the recorder that has waited longest, and those behind it go on
/// waiting in their order; one that is open keeps its own, and closing it touches none that waits.
pub proof fn law_longest_waiting_recorder_is_next(first: i64, others: Seq<i64>, open: i64)
    ensures
        ({
            let state = SessionState { pending: seq![first] + others, active: None };
            let (r, after) = resolved(state);
            r == Some(first) && after.active == Some(first) && after.pending == others
        }),
        ({
            let state = SessionState { pending: others, active: Some(open) };
            let (r, after) = resolved(state);
            r == Some(open) && after.pending == others && after.active == Some(open)
        }),
        resolved(SessionState { pending: seq![], active: None }).0 is None,
        without_active(SessionState { pending: others, active: Some(open) }).pending == others,
        without_active(SessionState { pending: others, active: Some(open) }).active is None,
        with_pending(SessionState { pending: others, active: Some(open) }, first).pending
            == others.push(first),
        with_pending(SessionState { pending: others, active: Some(open) }, first).active == Some(
            open,
        ),
{
    assert((seq![first] + others).drop_first() =~= others);
}

/// The key of a session is the client and the endpoint that the URL names: messages to the server
/// and back have the same, and those of another client another one.
pub proof fn law_session_is_client_and_endpoint(ctx: WsContext, other: PeerAddr)
    ensures
        match ctx {
            WsContext::ClientToServer { src, dst } => {
                &&& key_of_context(ctx).client == src
                &&& direction(ctx) == "c2s"@
                &&& key_of_context(ctx) == key_of_url(src, dst@)
                &&& other != src ==> key_of_context(ctx) != key_of_url(other, dst@)
            },
            WsContext::ServerToClient { src, dst } => {
                &&& key_of_context(ctx).client == dst
                &&& direction(ctx) == "s2c"@
                &&& key_of_context(ctx) == key_of_url(dst, src@)
                &&& other != dst ==> key_of_context(ctx) != key_of_url(other, src@)
            },
        },
{
}

/// The endpoint of a URL is its authority and its path; the path of the root does not count, and
/// neither do the scheme and whatever else a URL has. A text that is no URL is its own endpoint.
pub proof fn law_endpoint_is_authority_and_path(client: PeerAddr, text: Seq<char>, url: UrlView)
    requires
        url_parse(text) == Some(url) || url_parse(text) is None,
    ensures
        url_parse(text) is None ==> key_of_url(client, text).endpoint == text,
        url_parse(text) is Some && url.path == seq!['/'] ==> key_of_url(client, text).endpoint
            == url.authority,
        url_parse(text) is Some && url.path.len() == 0 ==> key_of_url(client, text).endpoint
            == url.authority,
        url_parse(text) is Some && url.path.len() > 1 ==> key_of_url(client, text).endpoint
            == url.authority + url.path,
        key_of_url(client, text).client == client,
{
    reveal_strlit("/");
    assert("/"@ =~= seq!['/']);
}

/// What is recorded of a message: text as it is, the bytes of pings and pongs as characters with
/// their numbers, binary data and raw frames in base64, and the code and the reason of a close.
pub proof fn law_payload_keeps_the_message(message: WsMessage)
    ensures
        match message {
            WsMessage::Text(text) => payload_of(message) == (PayloadView::Text { data: text@ }),
            WsMessage::Binary(bytes) => payload_of(message) is Binary && payload_of(
                message,
            )->Binary_data == base64_text(bytes@),
            WsMessage::Frame(bytes) => payload_of(message) is Binary && payload_of(
                message,
            )->Binary_data == base64_text(bytes@),
            WsMessage::Ping(bytes) => payload_of(message) is Ping && payload_of(
                message,
            )->Ping_data.len() == bytes@.len() && forall|i: int|
                0 <= i < bytes@.len() ==> #[trigger] payload_of(message)->Ping_data[i]
                    == bytes@[i] as char,
            WsMessage::Pong(bytes) => payload_of(message) is Pong && payload_of(
                message,
            )->Pong_data.len() == bytes@.len() && forall|i: int|
                0 <= i < bytes@.len() ==> #[trigger] payload_of(message)->Pong_data[i]
                    == bytes@[i] as char,
            WsMessage::Close(Some(frame)) => payload_of(message) == (PayloadView::Close {
                code: Some(frame.code),
                reason: frame.reason@,
            }),
            WsMessage::Close(None) => payload_of(message) is Close && payload_of(message)->code
                is None && payload_of(message)->reason.len() == 0,
        },
{
}

/// A message in JSON begins with its direction, has its time behind that, and then its payload.
pub proof fn law_message_json_in_order(message: MessageView)
    ensures
        begins_with(message_json(message), "{\"direction\":"@ + json_string(message.direction)),
        finishes_with(message_json(message), payload_json(message.payload) + "}"@),
        message_json(message) == "{\"direction\":"@ + json_string(message.direction)
            + ",\"timestamp\":"@ + json_string(message.timestamp) + ","@ + payload_json(
            message.payload,
        ) + "}"@,
{
    let a = "{\"direction\":"@ + json_string(message.direction);
    let b = payload_json(message.payload) + "}"@;
    let m = message_json(message);
    assert(m.take(a.len() as int) =~= a);
    assert(m.skip(m.len() - b.len()) =~= b);
}

/// A payload in JSON names its type first, and ends with its data, or its reason, as a JSON string.
pub proof fn law_payload_json_names_its_type(data: Seq<char>, code: u16)
    ensures
        payload_json(PayloadView::Text { data }) == "\"type\":\"text\",\"data\":"@ + json_string(
            data,
        ),
        payload_json(PayloadView::Binary { data }) == "\"type\":\"binary\",\"data\":"@
            + json_string(data),
        payload_json(PayloadView::Ping { data }) == "\"type\":\"ping\",\"data\":"@ + json_string(
            data,
        ),
        payload_json(PayloadView::Pong { data }) == "\"type\":\"pong\",\"data\":"@ + json_string(
            data,
        ),
        payload_json(PayloadView::Close { code: Some(code), reason: data })
            == "\"type\":\"close\",\"code\":"@ + decimal(code as nat) + ",\"reason\":"@
            + json_string(data),
        payload_json(PayloadView::Close { code: None, reason: data })
            == "\"type\":\"close\",\"reason\":"@ + json_string(data),
{
}

/// The file of a session has its number, its URL, the page where there is one, the time that it was
/// opened and its request, each in a line of its own, and then its messages in their order.
pub proof fn law_capture_file_holds_the_session(capture: CaptureView)
    ensures
        ({
            let lines = split_on(capture_text(capture), '\n');
            let k = if capture.page_url is Some {
                1int
            } else {
                0int
            };
            let n = capture.messages.len() as int;
            &&& lines.len() == 8 + k + n
            &&& lines[0] == "{"@
            &&& lines[1] == "  \"id\": "@ + signed_decimal(capture.id as int) + ","@
            &&& lines[2] == "  \"url\": "@ + json_string(capture.url) + ","@
            &&& capture.page_url is Some ==> lines[3] == "  \"pageUrl\": "@ + json_string(
                capture.page_url->0,
            ) + ","@
            &&& lines[3 + k] == "  \"openedAt\": "@ + json_string(capture.opened_at) + ","@
            &&& lines[4 + k] == "  \"request\": "@ + json_string(capture.request) + ","@
            &&& lines[5 + k] == "  \"messages\": ["@
            &&& forall|i: int|
                0 <= i < n - 1 ==> #[trigger] lines[6 + k + i] == "    "@ + message_json(
                    capture.messages[i],
                ) + ","@
            &&& n > 0 ==> lines[5 + k + n] == "    "@ + message_json(capture.messages[n - 1])
            &&& lines[6 + k + n] == "  ]"@
            &&& lines[7 + k + n] == "}"@
        }),
{
    reveal_strlit("  \"");
    reveal_strlit("\": ");
    reveal_strlit("url");
    reveal_strlit("pageUrl");
    reveal_strlit("openedAt");
    reveal_strlit("request");
    reveal_strlit("  \"url\": ");
    reveal_strlit("  \"pageUrl\": ");
    reveal_strlit("  \"openedAt\": ");
    reveal_strlit("  \"request\": ");
    assert("  \""@ + "url"@ + "\": "@ =~= "  \"url\": "@);
    assert("  \""@ + "pageUrl"@ + "\": "@ =~= "  \"pageUrl\": "@);
    assert("  \""@ + "openedAt"@ + "\": "@ =~= "  \"openedAt\": "@);
    assert("  \""@ + "request"@ + "\": "@ =~= "  \"request\": "@);
    law_capture_file_has_a_line_for_each_message(capture);
    let lines = capture_lines(capture);
    let k = if capture.page_url is Some {
        1int
    } else {
        0int
    };
    let n = capture.messages.len() as int;
    assert forall|i: int| 0 <= i < n - 1 implies #[trigger] lines[6 + k + i] == "    "@
        + message_json(capture.messages[i]) + ","@ by {
        assert(lines[6 + k + i] == message_lines(capture.messages)[i]);
    }
    if n > 0 {
        assert(lines[5 + k + n] == message_lines(capture.messages)[n - 1]);
    }
}

} // verus!
