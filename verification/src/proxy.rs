//! What is captured of the traffic that passes: the decisions on a request, on its response and
//! on the upgrade to a WebSocket, and the flows that wait for their responses.
use vstd::prelude::*;
use crate::config::{AppConfig, AppConfigView};
use crate::filter::{
    left_out, matches_http_request_scope, request_in_scope, should_filter_http_request,
    FilterInputView, HttpRequestFilterInput,
};
use crate::http_message::{
    browser_internal, first_some, first_with_name, header_text, header_value, infer_resource_type,
    is_browser_internal_request, is_word, law_body_is_written_last,
    law_header_is_read_back_from_message, law_host_is_in_the_url_in_full,
    law_page_is_referer_or_origin, law_request_url_is_scheme_host_and_target,
    law_response_splits_back, law_status_is_read_back, lemma_response_start,
    lemma_response_start_has_no_colon, one_line, one_line_names, page_url,
    page_url_from_request, printable, raw_request_url, readable_headers, readable_request,
    request_bytes, request_type, request_url, request_url_from_message, resolve_request_url,
    response_bytes, response_start, serialize_request, serialize_response, status_reason,
    text_or_empty, HttpVersion, RequestHead, RequestView, ResponseHead, ResponseView,
};
use crate::http_raw::{
    header_len, header_of, parse_header_value, parse_response_status, response_status,
    split_headers_and_body,
};
use crate::queues::{KeyedQueues, TableKey};
use crate::text::{
    ascii_lowercase, finishes_with, law_ascii_case, lemma_first_of, lemma_first_of_is, opt_text, same,
    same_ignoring_ascii_case, split_char, split_on, texts, trim, trimmed,
};
use crate::websocket::{
    direction, direction_from_context, key_of_context, key_of_url, resolved, session_key, with_pending,
    without_active, ws_session_key, PeerAddr, SessionKeyView, SessionState, WebSocketSessionRegistry,
    WsContext, WsMessage,
};

verus! {

/// How many bytes the bodies of a flow may have together for it to be captured.
pub const MAX_CAPTURE_BODY_BYTES: usize = 8_388_608;

// ---------------------------------------------------------------------------
// Requests.
// ---------------------------------------------------------------------------

/// What is known of a request that is to be captured, before its body is read.
#[derive(Debug)]
pub struct CapturePlan {
    pub url: String,
    pub resource_type: String,
    pub page_url: Option<String>,
}

/// What is to be done with a request.
#[derive(Debug)]
pub enum RequestStep {
    /// It is passed on, and its response is not asked for.
    Forward,
    /// It asks for a WebSocket.
    Upgrade,
    /// It is passed on, and its response is left alone.
    Skip,
    /// Its body is read.
    Capture(CapturePlan),
}

/// The model of a capture plan.
#[verifier::ext_equal]
pub struct PlanView {
    pub url: Seq<char>,
    pub resource_type: Seq<char>,
    pub page_url: Option<Seq<char>>,
}

/// The model of what is to be done with a request.
pub enum StepView {
    Forward,
    Upgrade,
    Skip,
    Capture(PlanView),
}

impl View for CapturePlan {
    type V = PlanView;

    open spec fn view(&self) -> PlanView {
        PlanView {
            url: self.url@,
            resource_type: self.resource_type@,
            page_url: opt_text(self.page_url),
        }
    }
}

impl View for RequestStep {
    type V = StepView;

    open spec fn view(&self) -> StepView {
        match self {
            RequestStep::Forward => StepView::Forward,
            RequestStep::Upgrade => StepView::Upgrade,
            RequestStep::Skip => StepView::Skip,
            RequestStep::Capture(plan) => StepView::Capture(plan@),
        }
    }
}

/// A request that asks for a WebSocket.
pub open spec fn asks_for_websocket(head: RequestView) -> bool {
    is_word(header_text(head.headers, "upgrade"@), "websocket"@)
}

/// A request that came in over TLS, as far as it says so.
pub open spec fn over_tls(head: RequestView) -> bool {
    head.scheme == Some("https"@) || header_text(head.headers, ":scheme"@) == Some("https"@)
}

/// The page that a request belongs to: a page that is loaded belongs to itself.
pub open spec fn flow_page(head: RequestView, url: Seq<char>) -> Option<Seq<char>> {
    first_some(
        page_url(head),
        if request_type(head, url) == "main_frame"@ {
            Some(url)
        } else {
            None
        },
    )
}

/// What the filters look at before there is a response.
pub open spec fn request_input(head: RequestView, url: Seq<char>) -> FilterInputView {
    FilterInputView {
        method: head.method,
        url,
        resource_type: request_type(head, url),
        mime_type: None,
        status_code: None,
        has_response_body: None,
        page_url: flow_page(head, url),
    }
}

/// What is to be done with a request that has a URL: it is captured where it is in scope and no
/// filter leaves it out.
pub open spec fn url_step(head: RequestView, url: Seq<char>, config: AppConfigView) -> StepView {
    if request_in_scope(flow_page(head, url), url, config.scope) && !left_out(
        request_input(head, url),
        config.filters,
    ) {
        StepView::Capture(
            PlanView {
                url,
                resource_type: request_type(head, url),
                page_url: flow_page(head, url),
            },
        )
    } else {
        StepView::Skip
    }
}

/// What is to be done with a request.
pub open spec fn request_step(head: RequestView, config: AppConfigView) -> StepView {
    if head.method == "CONNECT"@ {
        StepView::Forward
    } else if asks_for_websocket(head) {
        StepView::Upgrade
    } else if browser_internal(head) {
        StepView::Skip
    } else {
        match request_url(head, over_tls(head)) {
            Some(url) => url_step(head, url, config),
            None => StepView::Skip,
        }
    }
}

fn header_is_exactly(head: &RequestHead, name: &str, value: &str) -> (r: bool)
    ensures
        r == (header_text(head@.headers, name@) == Some(value@)),
{
    match header_value(head.headers.as_slice(), name) {
        Some(text) => same(text.as_str(), value),
        None => false,
    }
}

fn scheme_is(head: &RequestHead, value: &str) -> (r: bool)
    ensures
        r == (head@.scheme == Some(value@)),
{
    match &head.scheme {
        Some(scheme) => same(scheme.as_str(), value),
        None => false,
    }
}

fn copy_opt(text: &Option<String>) -> (r: Option<String>)
    ensures
        opt_text(r) == opt_text(*text),
{
    match text {
        Some(t) => Some(t.clone()),
        None => None,
    }
}

fn page_in_scope(page_url: &Option<String>, url: &str, scope: &[String]) -> (r: bool)
    ensures
        r == request_in_scope(opt_text(*page_url), url@, texts(scope@)),
{
    match page_url {
        Some(page) => matches_http_request_scope(Some(page.as_str()), url, scope),
        None => matches_http_request_scope(None, url, scope),
    }
}

/// What the filters look at.
fn filter_input(
    method: &str,
    url: &str,
    resource_type: &str,
    page_url: &Option<String>,
    mime_type: &Option<String>,
    status_code: Option<u16>,
    has_response_body: Option<bool>,
) -> (r: HttpRequestFilterInput)
    ensures
        r@ == (FilterInputView {
            method: method@,
            url: url@,
            resource_type: resource_type@,
            mime_type: opt_text(*mime_type),
            status_code,
            has_response_body,
            page_url: opt_text(*page_url),
        }),
{
    HttpRequestFilterInput {
        method: method.to_owned(),
        url: url.to_owned(),
        resource_type: resource_type.to_owned(),
        mime_type: copy_opt(mime_type),
        status_code,
        has_response_body,
        page_url: copy_opt(page_url),
    }
}

/// What is to be done with a request.
pub fn plan_request(head: &RequestHead, config: &AppConfig) -> (r: RequestStep)
    ensures
        r@ == request_step(head@, config@),
{
    if same(head.method.as_str(), "CONNECT") {
        return RequestStep::Forward;
    }
    if let Some(upgrade) = header_value(head.headers.as_slice(), "upgrade") {
        if same_ignoring_ascii_case(upgrade.as_str(), "websocket") {
            return RequestStep::Upgrade;
        }
    }
    if is_browser_internal_request(head) {
        return RequestStep::Skip;
    }
    let is_ssl = scheme_is(head, "https") || header_is_exactly(head, ":scheme", "https");
    let url = match request_url_from_message(head, is_ssl) {
        Some(url) => url,
        None => return RequestStep::Skip,
    };
    let resource_type = infer_resource_type(head, url.as_str());
    let page_url = match page_url_from_request(head) {
        Some(page) => Some(page),
        None => if same(resource_type.as_str(), "main_frame") {
            Some(url.clone())
        } else {
            None
        },
    };
    if !page_in_scope(&page_url, url.as_str(), config.scope.as_slice()) {
        return RequestStep::Skip;
    }
    let input = filter_input(
        head.method.as_str(),
        url.as_str(),
        resource_type.as_str(),
        &page_url,
        &None,
        None,
        None,
    );
    if should_filter_http_request(&input, &config.filters) {
        return RequestStep::Skip;
    }
    RequestStep::Capture(CapturePlan { url, resource_type, page_url })
}

// ---------------------------------------------------------------------------
// Flows.
// ---------------------------------------------------------------------------

/// A request that waits for its response.
#[derive(Debug)]
pub struct PendingFlow {
    pub request_sent_at: String,
    pub request_raw: Vec<u8>,
    pub request_body_bytes: usize,
    pub page_url: Option<String>,
    pub method: String,
    pub url: String,
    pub resource_type: String,
}

/// The model of a request that waits for its response.
#[verifier::ext_equal]
pub struct FlowView {
    pub request_sent_at: Seq<char>,
    pub request_raw: Seq<u8>,
    pub request_body_bytes: nat,
    pub page_url: Option<Seq<char>>,
    pub method: Seq<char>,
    pub url: Seq<char>,
    pub resource_type: Seq<char>,
}

impl View for PendingFlow {
    type V = FlowView;

    open spec fn view(&self) -> FlowView {
        FlowView {
            request_sent_at: self.request_sent_at@,
            request_raw: self.request_raw@,
            request_body_bytes: self.request_body_bytes as nat,
            page_url: opt_text(self.page_url),
            method: self.method@,
            url: self.url@,
            resource_type: self.resource_type@,
        }
    }
}

/// What waits for the responses to a client, in the order of its requests.
#[derive(Debug)]
pub enum QueueEntry {
    Skipped,
    Captured(PendingFlow),
}

/// What waits once the body of a request that is to be captured was read: nothing of it where the
/// body could not be read or is too large.
pub open spec fn entry_of(
    head: RequestView,
    plan: PlanView,
    body: Option<Seq<u8>>,
    sent_at: Seq<char>,
) -> Option<FlowView> {
    match body {
        Some(bytes) => if bytes.len() > MAX_CAPTURE_BODY_BYTES {
            None
        } else {
            let raw = request_bytes(head, bytes);
            Some(
                FlowView {
                    request_sent_at: sent_at,
                    request_raw: raw,
                    request_body_bytes: bytes.len(),
                    page_url: plan.page_url,
                    method: head.method,
                    url: first_some(raw_request_url(raw), Some(plan.url))->0,
                    resource_type: plan.resource_type,
                },
            )
        },
        None => None,
    }
}

/// The view of what waits.
pub open spec fn entry_view(entry: QueueEntry) -> Option<FlowView> {
    match entry {
        QueueEntry::Skipped => None,
        QueueEntry::Captured(flow) => Some(flow@),
    }
}

/// The view of optional bytes.
pub open spec fn opt_slice(body: Option<&[u8]>) -> Option<Seq<u8>> {
    match body {
        Some(b) => Some(b@),
        None => None,
    }
}

/// What waits once the body of a request was read.
pub fn capture_request(
    head: &RequestHead,
    plan: CapturePlan,
    body: Option<&[u8]>,
    sent_at: String,
) -> (r: QueueEntry)
    ensures
        entry_view(r) == entry_of(head@, plan@, opt_slice(body), sent_at@),
{
    match body {
        Some(bytes) => {
            if bytes.len() > MAX_CAPTURE_BODY_BYTES {
                return QueueEntry::Skipped;
            }
            let request_raw = serialize_request(head, bytes);
            let url = match resolve_request_url(request_raw.as_slice()) {
                Some(url) => url,
                None => plan.url,
            };
            QueueEntry::Captured(
                PendingFlow {
                    request_sent_at: sent_at,
                    request_raw,
                    request_body_bytes: bytes.len(),
                    page_url: plan.page_url,
                    method: head.method.clone(),
                    url,
                    resource_type: plan.resource_type,
                },
            )
        },
        None => QueueEntry::Skipped,
    }
}

/// What is kept of a response.
#[derive(Debug)]
pub struct CapturedResponse {
    pub response_raw: Vec<u8>,
    pub status_code: Option<u16>,
    pub mime_type: Option<String>,
}

/// The model of what is kept of a response.
#[verifier::ext_equal]
pub struct CapturedView {
    pub response_raw: Seq<u8>,
    pub status_code: Option<u16>,
    pub mime_type: Option<Seq<char>>,
}

impl View for CapturedResponse {
    type V = CapturedView;

    open spec fn view(&self) -> CapturedView {
        CapturedView {
            response_raw: self.response_raw@,
            status_code: self.status_code,
            mime_type: opt_text(self.mime_type),
        }
    }
}

/// The media type of a content type, without its parameters; none where it is empty.
pub open spec fn media_type(content_type: Option<Seq<char>>) -> Option<Seq<char>> {
    match content_type {
        Some(v) => {
            let media = trim(split_on(v, ';')[0]);
            if media.len() == 0 {
                None
            } else {
                Some(media)
            }
        },
        None => None,
    }
}

/// Whether a raw message has a body.
pub open spec fn has_body(raw: Seq<u8>) -> bool {
    match header_len(raw) {
        Some(n) => raw.skip(n).len() > 0,
        None => false,
    }
}

/// What the filters look at once there is a response.
pub open spec fn response_input(flow: FlowView, raw: Seq<u8>) -> FilterInputView {
    FilterInputView {
        method: flow.method,
        url: flow.url,
        resource_type: flow.resource_type,
        mime_type: media_type(header_of(raw, "content-type"@)),
        status_code: response_status(raw),
        has_response_body: Some(has_body(raw)),
        page_url: flow.page_url,
    }
}

/// What is kept of a raw response with a body of this length: nothing where the bodies of the
/// flow are too large together or a filter leaves it out.
pub open spec fn captured_of(
    flow: FlowView,
    raw: Seq<u8>,
    body_bytes: nat,
    config: AppConfigView,
) -> Option<CapturedView> {
    if flow.request_body_bytes + body_bytes > MAX_CAPTURE_BODY_BYTES {
        None
    } else if left_out(response_input(flow, raw), config.filters) {
        None
    } else {
        Some(
            CapturedView {
                response_raw: raw,
                status_code: response_status(raw),
                mime_type: media_type(header_of(raw, "content-type"@)),
            },
        )
    }
}

/// The view of what is kept of a response.
pub open spec fn opt_captured(v: Option<CapturedResponse>) -> Option<CapturedView> {
    match v {
        Some(c) => Some(c@),
        None => None,
    }
}

/// The media type of a content type.
pub fn media_type_of(content_type: &Option<String>) -> (r: Option<String>)
    ensures
        opt_text(r) == media_type(opt_text(*content_type)),
{
    match content_type {
        Some(v) => {
            let pieces = split_char(v.as_str(), ';');
            assert(texts(pieces@).len() >= 1);
            assert(texts(pieces@)[0] == pieces@[0]@);
            let media = trimmed(pieces[0].as_str());
            if media.as_str().is_empty() {
                None
            } else {
                Some(media)
            }
        },
        None => None,
    }
}

/// What is kept of a raw response with a body of this length.
pub fn keep_response(
    flow: &PendingFlow,
    response_raw: Vec<u8>,
    body_bytes: usize,
    config: &AppConfig,
) -> (r: Option<CapturedResponse>)
    ensures
        opt_captured(r) == captured_of(flow@, response_raw@, body_bytes as nat, config@),
{
    if flow.request_body_bytes > MAX_CAPTURE_BODY_BYTES || body_bytes > MAX_CAPTURE_BODY_BYTES
        - flow.request_body_bytes {
        return None;
    }
    let status_code = parse_response_status(response_raw.as_slice());
    let mime_type = media_type_of(&parse_header_value(response_raw.as_slice(), "content-type"));
    let has_response_body = match split_headers_and_body(response_raw.as_slice()) {
        Some(split) => split.body_raw.len() > 0,
        None => false,
    };
    let input = filter_input(
        flow.method.as_str(),
        flow.url.as_str(),
        flow.resource_type.as_str(),
        &flow.page_url,
        &mime_type,
        status_code,
        Some(has_response_body),
    );
    if should_filter_http_request(&input, &config.filters) {
        return None;
    }
    Some(CapturedResponse { response_raw, status_code, mime_type })
}

/// What is kept of a response.
pub fn capture_response(
    flow: &PendingFlow,
    head: &ResponseHead,
    body: &[u8],
    config: &AppConfig,
) -> (r: Option<CapturedResponse>)
    ensures
        opt_captured(r) == captured_of(
            flow@,
            response_bytes(head@, text_or_empty(status_reason(head.status)), body@),
            body@.len(),
            config@,
        ),
{
    keep_response(flow, serialize_response(head, body), body.len(), config)
}

// ---------------------------------------------------------------------------
// WebSockets.
// ---------------------------------------------------------------------------

/// What is known of a WebSocket session that is to be recorded.
#[derive(Debug)]
pub struct UpgradePlan {
    pub url: String,
    pub page_url: Option<String>,
}

/// A scheme of an encrypted connection.
pub open spec fn secure_scheme(scheme: Option<Seq<char>>) -> bool {
    scheme == Some("https"@) || scheme == Some("wss"@)
}

/// The URL of a WebSocket that is asked for.
pub open spec fn upgrade_url(head: RequestView) -> Option<Seq<char>> {
    request_url(
        head,
        secure_scheme(head.scheme) || secure_scheme(header_text(head.headers, ":scheme"@)),
    )
}

/// A WebSocket that is asked for is recorded where it has a URL and is in scope.
pub fn plan_upgrade(head: &RequestHead, config: &AppConfig) -> (r: Option<UpgradePlan>)
    ensures
        match r {
            Some(plan) => {
                &&& upgrade_url(head@) == Some(plan.url@)
                &&& opt_text(plan.page_url) == page_url(head@)
                &&& request_in_scope(page_url(head@), plan.url@, config@.scope)
            },
            None => upgrade_url(head@) is None || !request_in_scope(
                page_url(head@),
                upgrade_url(head@)->0,
                config@.scope,
            ),
        },
{
    let is_ssl = scheme_is(head, "https") || scheme_is(head, "wss") || header_is_exactly(
        head,
        ":scheme",
        "https",
    ) || header_is_exactly(head, ":scheme", "wss");
    match request_url_from_message(head, is_ssl) {
        Some(url) => {
            let page_url = page_url_from_request(head);
            if page_in_scope(&page_url, url.as_str(), config.scope.as_slice()) {
                Some(UpgradePlan { url, page_url })
            } else {
                None
            }
        },
        None => None,
    }
}

/// The raw request that a session is recorded with: none where its body could not be read or is
/// too large.
pub fn upgrade_request(head: &RequestHead, body: Option<&[u8]>) -> (r: Option<Vec<u8>>)
    ensures
        match r {
            Some(raw) => {
                &&& body is Some
                &&& body->0@.len() <= MAX_CAPTURE_BODY_BYTES
                &&& raw@ == request_bytes(head@, body->0@)
            },
            None => body is None || body->0@.len() > MAX_CAPTURE_BODY_BYTES,
        },
{
    match body {
        Some(bytes) => if bytes.len() > MAX_CAPTURE_BODY_BYTES {
            None
        } else {
            Some(serialize_request(head, bytes))
        },
        None => None,
    }
}

// ---------------------------------------------------------------------------
// The handler.
// ---------------------------------------------------------------------------

impl View for PeerAddr {
    type V = PeerAddr;

    open spec fn view(&self) -> PeerAddr {
        *self
    }
}

impl TableKey for PeerAddr {
    fn same_key(&self, other: &Self) -> (r: bool) {
        *self == *other
    }
}

/// What the proxy remembers between requests and responses.
pub struct CaptureHandler {
    config: AppConfig,
    pending: KeyedQueues<PeerAddr, QueueEntry>,
    ws_sessions: WebSocketSessionRegistry,
}

/// The views of what waits.
pub open spec fn entry_views(entries: Seq<QueueEntry>) -> Seq<Option<FlowView>> {
    Seq::new(entries.len(), |i: int| entry_view(entries[i]))
}

impl CaptureHandler {
    pub closed spec fn valid(&self) -> bool {
        self.pending.valid() && self.ws_sessions.valid()
    }

    /// The settings.
    pub closed spec fn settings(&self) -> AppConfigView {
        self.config@
    }

    /// What waits for the responses to a client, the oldest first.
    pub closed spec fn waiting(&self, client: PeerAddr) -> Seq<Option<FlowView>> {
        entry_views(self.pending.waiting(client))
    }

    /// What is held for a WebSocket session.
    pub closed spec fn session(&self, key: SessionKeyView) -> SessionState {
        self.ws_sessions.state(key)
    }

    /// The same settings and sessions, and the same that waits for all clients but one.
    pub open spec fn same_but_for(&self, before: &Self, client: PeerAddr) -> bool {
        &&& self.settings() == before.settings()
        &&& forall|key: SessionKeyView| #[trigger] self.session(key) == before.session(key)
        &&& forall|other: PeerAddr|
            other != client ==> #[trigger] self.waiting(other) == before.waiting(other)
    }

    /// A handler that nothing waits in.
    pub fn new(config: AppConfig) -> (r: Self)
        ensures
            r.valid(),
            r.settings() == config@,
            forall|client: PeerAddr| #[trigger] r.waiting(client) == Seq::<Option<FlowView>>::empty(),
            forall|key: SessionKeyView|
                #[trigger] r.session(key) == (SessionState { pending: seq![], active: None }),
    {
        let r = CaptureHandler {
            config,
            pending: KeyedQueues::new(),
            ws_sessions: WebSocketSessionRegistry::new(),
        };
        assert forall|client: PeerAddr| #[trigger] r.waiting(client) == Seq::<
            Option<FlowView>,
        >::empty() by {
            assert(r.pending.waiting(client) == Seq::<QueueEntry>::empty());
            assert(r.waiting(client) =~= Seq::<Option<FlowView>>::empty());
        }
        r
    }

    /// Lets an entry wait for the next response to the client that nothing waits for yet.
    pub fn push_entry(&mut self, client_addr: PeerAddr, entry: QueueEntry)
        requires
            old(self).valid(),
        ensures
            final(self).valid(),
            final(self).same_but_for(old(self), client_addr),
            final(self).waiting(client_addr) == old(self).waiting(client_addr).push(
                entry_view(entry),
            ),
    {
        let ghost before = *self;
        self.pending.push_back(client_addr, entry);
        proof {
            assert(self.waiting(client_addr) =~= before.waiting(client_addr).push(
                entry_view(entry),
            ));
            assert forall|other: PeerAddr| other != client_addr implies #[trigger] self.waiting(
                other,
            ) == before.waiting(other) by {
                assert(self.pending.waiting(other) == before.pending.waiting(other));
            }
        }
    }

    /// Lets the next response to the client that nothing waits for yet be left alone.
    pub fn push_skip(&mut self, client_addr: PeerAddr)
        requires
            old(self).valid(),
        ensures
            final(self).valid(),
            final(self).same_but_for(old(self), client_addr),
            final(self).waiting(client_addr) == old(self).waiting(client_addr).push(None),
    {
        self.push_entry(client_addr, QueueEntry::Skipped);
    }

    /// Takes what has waited longest for a response to the client.
    pub fn pop_entry(&mut self, client_addr: PeerAddr) -> (r: Option<QueueEntry>)
        requires
            old(self).valid(),
        ensures
            final(self).valid(),
            final(self).same_but_for(old(self), client_addr),
            match r {
                Some(entry) => old(self).waiting(client_addr).len() > 0 && entry_view(entry)
                    == old(self).waiting(client_addr)[0] && final(self).waiting(client_addr)
                    == old(self).waiting(client_addr).drop_first(),
                None => old(self).waiting(client_addr).len() == 0 && final(self).waiting(
                    client_addr,
                ).len() == 0,
            },
    {
        let ghost before = *self;
        let r = self.pending.pop_front(&client_addr);
        proof {
            if r is Some {
                assert(self.waiting(client_addr) =~= before.waiting(client_addr).drop_first());
            }
            assert forall|other: PeerAddr| other != client_addr implies #[trigger] self.waiting(
                other,
            ) == before.waiting(other) by {
                assert(self.pending.waiting(other) == before.pending.waiting(other));
            }
        }
        r
    }

    /// What is to be done with a request of a client. A request that is skipped waits for its
    /// response from then on.
    pub fn begin_request(&mut self, client_addr: PeerAddr, head: &RequestHead) -> (r: RequestStep)
        requires
            old(self).valid(),
        ensures
            final(self).valid(),
            final(self).same_but_for(old(self), client_addr),
            r@ == request_step(head@, old(self).settings()),
            final(self).waiting(client_addr) == if r is Skip {
                old(self).waiting(client_addr).push(None)
            } else {
                old(self).waiting(client_addr)
            },
    {
        let step = plan_request(head, &self.config);
        if let RequestStep::Skip = step {
            self.push_skip(client_addr);
        }
        step
    }

    /// Lets a request wait for its response, once its body was read.
    pub fn finish_request(
        &mut self,
        client_addr: PeerAddr,
        head: &RequestHead,
        plan: CapturePlan,
        body: Option<&[u8]>,
        sent_at: String,
    )
        requires
            old(self).valid(),
        ensures
            final(self).valid(),
            final(self).same_but_for(old(self), client_addr),
            final(self).waiting(client_addr) == old(self).waiting(client_addr).push(
                entry_of(head@, plan@, opt_slice(body), sent_at@),
            ),
    {
        let entry = capture_request(head, plan, body, sent_at);
        self.push_entry(client_addr, entry);
    }

    /// The request that a response to a client belongs to, where it is captured.
    pub fn begin_response(&mut self, client_addr: PeerAddr) -> (r: Option<PendingFlow>)
        requires
            old(self).valid(),
        ensures
            final(self).valid(),
            final(self).same_but_for(old(self), client_addr),
            match r {
                Some(flow) => old(self).waiting(client_addr).len() > 0 && old(self).waiting(
                    client_addr,
                )[0] == Some(flow@),
                None => old(self).waiting(client_addr).len() == 0 || old(self).waiting(
                    client_addr,
                )[0] is None,
            },
            final(self).waiting(client_addr) == if old(self).waiting(client_addr).len() > 0 {
                old(self).waiting(client_addr).drop_first()
            } else {
                old(self).waiting(client_addr)
            },
    {
        match self.pop_entry(client_addr) {
            Some(entry) => match entry {
                QueueEntry::Captured(flow) => Some(flow),
                QueueEntry::Skipped => None,
            },
            None => {
                assert(self.waiting(client_addr) =~= old(self).waiting(client_addr));
                None
            },
        }
    }

    /// What is kept of the response to a request.
    pub fn finish_response(&self, flow: &PendingFlow, head: &ResponseHead, body: &[u8]) -> (r:
        Option<CapturedResponse>)
        ensures
            opt_captured(r) == captured_of(
                flow@,
                response_bytes(head@, text_or_empty(status_reason(head.status)), body@),
                body@.len(),
                self.settings(),
            ),
    {
        capture_response(flow, head, body, &self.config)
    }

    /// Whether and how a WebSocket that is asked for is recorded.
    pub fn begin_upgrade(&self, head: &RequestHead) -> (r: Option<UpgradePlan>)
        ensures
            match r {
                Some(plan) => {
                    &&& upgrade_url(head@) == Some(plan.url@)
                    &&& opt_text(plan.page_url) == page_url(head@)
                    &&& request_in_scope(page_url(head@), plan.url@, self.settings().scope)
                },
                None => upgrade_url(head@) is None || !request_in_scope(
                    page_url(head@),
                    upgrade_url(head@)->0,
                    self.settings().scope,
                ),
            },
    {
        plan_upgrade(head, &self.config)
    }

    /// Lets the recorder of a WebSocket session wait for its first message.
    pub fn register_session(&mut self, client_addr: PeerAddr, url: &str, recorder: i64)
        requires
            old(self).valid(),
        ensures
            final(self).valid(),
            final(self).settings() == old(self).settings(),
            forall|client: PeerAddr| #[trigger]
                final(self).waiting(client) == old(self).waiting(client),
            final(self).session(key_of_url(client_addr, url@)) == with_pending(
                old(self).session(key_of_url(client_addr, url@)),
                recorder,
            ),
            forall|other: SessionKeyView|
                other != key_of_url(client_addr, url@) ==> #[trigger] final(self).session(other)
                    == old(self).session(other),
    {
        let key = ws_session_key(client_addr, url);
        self.ws_sessions.register_pending(key, recorder);
    }

    /// The recorder for a message of a WebSocket session, and the direction of the message. A
    /// session that a message closes is forgotten.
    pub fn handle_message(&mut self, ctx: &WsContext, message: &WsMessage) -> (r: Option<
        (i64, &'static str),
    >)
        requires
            old(self).valid(),
        ensures
            final(self).valid(),
            final(self).settings() == old(self).settings(),
            forall|client: PeerAddr| #[trigger]
                final(self).waiting(client) == old(self).waiting(client),
            match r {
                Some((recorder, way)) => resolved(old(self).session(key_of_context(*ctx))).0
                    == Some(recorder) && way@ == direction(*ctx),
                None => resolved(old(self).session(key_of_context(*ctx))).0 is None,
            },
            final(self).session(key_of_context(*ctx)) == after_message(
                old(self).session(key_of_context(*ctx)),
                *message,
            ),
            forall|other: SessionKeyView|
                other != key_of_context(*ctx) ==> #[trigger] final(self).session(other) == old(
                    self,
                ).session(other),
    {
        match self.ws_sessions.resolve_recorder(session_key(ctx)) {
            Some(recorder) => {
                if let WsMessage::Close(_) = message {
                    self.ws_sessions.close_session(session_key(ctx));
                }
                Some((recorder, direction_from_context(ctx)))
            },
            None => None,
        }
    }
}

/// What is held for a session after a message of it: nothing is open after one that closes it.
pub open spec fn after_message(state: SessionState, message: WsMessage) -> SessionState {
    let (recorder, after) = resolved(state);
    if recorder is Some && message is Close {
        without_active(after)
    } else {
        after
    }
}

/// What waits for a client once `k` responses came.
pub open spec fn after_responses(
    waiting: Seq<Option<FlowView>>,
    k: nat,
) -> Seq<Option<FlowView>>
    decreases k,
{
    if k == 0 || waiting.len() == 0 {
        waiting
    } else {
        after_responses(waiting.drop_first(), (k - 1) as nat)
    }
}

/// Responses meet the requests of their client in the order in which those were made, whatever
/// comes behind them.
pub proof fn law_responses_meet_requests_in_order(
    waiting: Seq<Option<FlowView>>,
    later: Seq<Option<FlowView>>,
    k: nat,
)
    requires
        k < waiting.len(),
    ensures
        after_responses(waiting + later, k).len() > 0,
        after_responses(waiting + later, k)[0] == waiting[k as int],
    decreases k,
{
    let all = waiting + later;
    if k > 0 {
        assert(all.drop_first() =~= waiting.drop_first() + later);
        law_responses_meet_requests_in_order(waiting.drop_first(), later, (k - 1) as nat);
    }
}

/// A request that is captured has a URL, is in scope, and is none that the browser makes for
/// itself.
pub proof fn law_only_requests_in_scope_are_captured(head: RequestView, config: AppConfigView)
    requires
        request_step(head, config) is Capture,
    ensures
        !browser_internal(head),
        request_url(head, over_tls(head)) == Some((request_step(head, config)->Capture_0).url),
        request_in_scope(
            (request_step(head, config)->Capture_0).page_url,
            (request_step(head, config)->Capture_0).url,
            config.scope,
        ),
{
}

/// The filters see the status of a response, and whether it has a body, as they came.
pub proof fn law_filters_see_the_response(
    flow: FlowView,
    head: ResponseView,
    reason: Seq<char>,
    body: Seq<u8>,
)
    requires
        one_line(reason),
        one_line_names(head.headers),
        head.headers.len() > 0,
    ensures
        response_input(flow, response_bytes(head, reason, body)).status_code == Some(head.status),
        response_input(flow, response_bytes(head, reason, body)).has_response_body == Some(
            body.len() > 0,
        ),
{
    law_status_is_read_back(head, reason, body);
    law_response_splits_back(head, reason, body);
}

/// A `CONNECT` request is passed on, a request with `Upgrade: websocket` begins a session, a
/// request of the browser itself and one whose URL is not known are skipped.
pub proof fn law_requests_that_are_not_captured(head: RequestView, config: AppConfigView)
    ensures
        request_step(head, config) is Forward <==> head.method == "CONNECT"@,
        head.method != "CONNECT"@ ==> (request_step(head, config) is Upgrade <==> {
            let upgrade = header_text(head.headers, "upgrade"@);
            upgrade is Some && ascii_lowercase(upgrade->0) == "websocket"@
        }),
        browser_internal(head) ==> !(request_step(head, config) is Capture),
        head.target.len() > 0 && head.target[0] == '/' && header_text(head.headers, "host"@) is None
            && header_text(head.headers, ":authority"@) is None && head.authority is None
            ==> !(request_step(head, config) is Capture),
{
    reveal_strlit("websocket");
    let word = "websocket"@;
    assert(ascii_lowercase(word) =~= word) by {
        assert forall|i: int| 0 <= i < word.len() implies #[trigger] ascii_lowercase(word)[i]
            == word[i] by {
            law_ascii_case(word[i]);
        }
    }
    law_request_url_is_scheme_host_and_target(head, over_tls(head));
}

/// A request for a URL is captured if and only if the page or the URL is in scope and the filters
/// let the request through, of which they then know the method, the URL, the kind and the page.
pub proof fn law_request_is_captured(head: RequestView, config: AppConfigView, url: Seq<char>)
    requires
        head.method != "CONNECT"@,
        !(request_step(head, config) is Upgrade),
        !browser_internal(head),
        request_url(
            head,
            head.scheme == Some("https"@) || header_text(head.headers, ":scheme"@) == Some(
                "https"@,
            ),
        ) == Some(url),
    ensures
        ({
            let kind = request_type(head, url);
            let page = match header_text(head.headers, "referer"@) {
                Some(p) => Some(p),
                None => match header_text(head.headers, "origin"@) {
                    Some(p) => Some(p),
                    None => if kind == "main_frame"@ {
                        Some(url)
                    } else {
                        None
                    },
                },
            };
            let input = FilterInputView {
                method: head.method,
                url,
                resource_type: kind,
                mime_type: None,
                status_code: None,
                has_response_body: None,
                page_url: page,
            };
            if request_in_scope(page, url, config.scope) && !left_out(input, config.filters) {
                request_step(head, config) == StepView::Capture(
                    PlanView { url, resource_type: kind, page_url: page },
                )
            } else {
                request_step(head, config) is Skip
            }
        }),
{
    law_page_is_referer_or_origin(head);
}

/// A request over a connection without a scheme of its own and with a host is captured under a
/// plain URL on that host.
pub proof fn law_captured_url_names_the_host(head: RequestView, config: AppConfigView)
    requires
        request_step(head, config) is Capture,
        head.target.len() > 0,
        head.target[0] == '/',
        header_text(head.headers, "host"@) is Some,
    ensures
        ({
            let url = (request_step(head, config)->Capture_0).url;
            let host = header_text(head.headers, "host"@)->0;
            let scheme = match head.scheme {
                Some(s) => s,
                None => match header_text(head.headers, ":scheme"@) {
                    Some(s) => s,
                    None => "http"@,
                },
            };
            url == scheme + "://"@ + host + head.target
        }),
{
    law_request_url_is_scheme_host_and_target(head, over_tls(head));
}

/// What waits for a response is the request as it was sent: the bytes end with its body, and the
/// method, the page, the kind and the time are those that were known before. A body that could not
/// be read, or of more than 8388608 bytes, is not captured.
pub proof fn law_waiting_request_is_the_request(
    head: RequestView,
    plan: PlanView,
    body: Seq<u8>,
    sent_at: Seq<char>,
)
    ensures
        entry_of(head, plan, None, sent_at) is None,
        entry_of(head, plan, Some(body), sent_at) is Some <==> body.len() <= 8388608,
        body.len() <= 8388608 ==> {
            let flow = entry_of(head, plan, Some(body), sent_at)->0;
            &&& flow.request_raw == request_bytes(head, body)
            &&& finishes_with(flow.request_raw, body)
            &&& flow.request_body_bytes == body.len()
            &&& flow.method == head.method
            &&& flow.page_url == plan.page_url
            &&& flow.resource_type == plan.resource_type
            &&& flow.request_sent_at == sent_at
            &&& raw_request_url(flow.request_raw) is None ==> flow.url == plan.url
            &&& raw_request_url(flow.request_raw) is Some ==> Some(flow.url) == raw_request_url(
                flow.request_raw,
            )
        },
{
    law_body_is_written_last(
        head,
        ResponseView { version: HttpVersion::Http11, status: 0, headers: seq![] },
        seq![],
        body,
    );
}

/// A request with a `Host` header is filed under a URL on that host, with the port where the header
/// has one.
pub proof fn law_waiting_request_is_filed_under_its_host(
    head: RequestView,
    plan: PlanView,
    body: Seq<u8>,
    sent_at: Seq<char>,
    i: int,
)
    requires
        body.len() <= 8388608,
        readable_request(head),
        first_with_name(head.headers, "host"@, i),
        printable(head.headers[i].value),
    ensures
        ({
            let value = head.headers[i].value;
            let host = trim(Seq::new(value.len(), |k: int| value[k] as char));
            finishes_with(
                (entry_of(head, plan, Some(body), sent_at)->0).url,
                "://"@ + host + head.target,
            )
        }),
{
    law_host_is_in_the_url_in_full(head, body, i);
    let raw = request_bytes(head, body);
    let value = head.headers[i].value;
    let host = trim(Seq::new(value.len(), |k: int| value[k] as char));
    let scheme = match header_of(raw, ":scheme"@) {
        Some(s) => s,
        None => match header_of(raw, "x-forwarded-proto"@) {
            Some(s) => s,
            None => "https"@,
        },
    };
    let url = scheme + "://"@ + host + head.target;
    let tail = "://"@ + host + head.target;
    assert(url =~= scheme + tail);
    assert(url.skip(url.len() - tail.len()) =~= tail);
}

/// The media type is the value up to the first semicolon without the white space around it; where
/// nothing is left there is none.
pub proof fn law_media_type_ends_at_semicolon(media: Seq<char>, parameters: Seq<char>)
    requires
        !media.contains(';'),
    ensures
        media_type(None) is None,
        media_type(Some(media)) == media_type(Some(media + seq![';'] + parameters)),
        trim(media).len() > 0 ==> media_type(Some(media)) == Some(trim(media)),
        trim(media).len() == 0 ==> media_type(Some(media)) is None,
{
    let long = media + seq![';'] + parameters;
    assert forall|j: int| 0 <= j < media.len() implies media[j] != ';' by {
        assert(media.contains(media[j]));
    }
    lemma_first_of_is(long, ';', media.len() as int);
    assert(long.take(media.len() as int) =~= media);
    lemma_first_of(media, ';');
    assert(media.take(media.len() as int) =~= media);
}

/// Of a response is kept what came, with its status, unless the bodies of both have more than
/// 8388608 bytes together or the filters leave the flow out, of which they then know everything.
pub proof fn law_response_is_kept(
    flow: FlowView,
    head: ResponseView,
    reason: Seq<char>,
    body: Seq<u8>,
    config: AppConfigView,
)
    requires
        one_line(reason),
        one_line_names(head.headers),
        head.headers.len() > 0,
    ensures
        ({
            let raw = response_bytes(head, reason, body);
            let media = media_type(header_of(raw, "content-type"@));
            let input = FilterInputView {
                method: flow.method,
                url: flow.url,
                resource_type: flow.resource_type,
                mime_type: media,
                status_code: Some(head.status),
                has_response_body: Some(body.len() > 0),
                page_url: flow.page_url,
            };
            let kept = captured_of(flow, raw, body.len(), config);
            if flow.request_body_bytes + body.len() > 8388608 || left_out(input, config.filters) {
                kept is None
            } else {
                kept == Some(
                    CapturedView {
                        response_raw: raw,
                        status_code: Some(head.status),
                        mime_type: media,
                    },
                )
            }
        }),
{
    law_filters_see_the_response(flow, head, reason, body);
}

/// The media type of a response is read from its first `Content-Type` header.
pub proof fn law_media_type_is_read_from_response(
    head: ResponseView,
    reason: Seq<char>,
    body: Seq<u8>,
    i: int,
)
    requires
        one_line(reason),
        !reason.contains(':'),
        readable_headers(head.headers),
        first_with_name(head.headers, "content-type"@, i),
        printable(head.headers[i].value),
    ensures
        media_type(header_of(response_bytes(head, reason, body), "content-type"@)) == media_type(
            Some(
                trim(
                    Seq::new(head.headers[i].value.len(), |k: int| head.headers[i].value[k] as char),
                ),
            ),
        ),
{
    lemma_response_start(head, reason);
    lemma_response_start_has_no_colon(head, reason);
    law_header_is_read_back_from_message(
        response_start(head, reason),
        head.headers,
        body,
        "content-type"@,
        i,
    );
}

/// The URL of a WebSocket is the one of any request.
pub proof fn law_upgrade_url_names_the_host(head: RequestView)
    requires
        head.target.len() > 0,
        head.target[0] == '/',
        header_text(head.headers, "host"@) is Some,
    ensures
        ({
            let host = header_text(head.headers, "host"@)->0;
            let scheme = match head.scheme {
                Some(s) => s,
                None => match header_text(head.headers, ":scheme"@) {
                    Some(s) => s,
                    None => "http"@,
                },
            };
            upgrade_url(head) == Some(scheme + "://"@ + host + head.target)
        }),
{
    law_request_url_is_scheme_host_and_target(
        head,
        secure_scheme(head.scheme) || secure_scheme(header_text(head.headers, ":scheme"@)),
    );
}

/// The recorder that a session has stays until a message closes the session; then the next that
/// waits has its turn.
pub proof fn law_close_ends_the_session(state: SessionState, message: WsMessage)
    ensures
        state.active is Some && !(message is Close) ==> after_message(state, message) == state,
        state.active is Some && message is Close ==> after_message(state, message).active is None
            && after_message(state, message).pending == state.pending,
        state.active is None && state.pending.len() > 0 ==> after_message(state, message).pending
            == state.pending.skip(1) && after_message(state, message).active == if message is Close {
            None
        } else {
            Some(state.pending[0])
        },
        state.active is None && state.pending.len() == 0 ==> after_message(state, message) == state,
{
    if state.active is None && state.pending.len() > 0 {
        assert(state.pending.drop_first() =~= state.pending.skip(1));
    }
}

} // verus!
