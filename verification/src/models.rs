//! That the models show the values as they are: each part of a model is what the field of the same
//! name holds.
use vstd::prelude::*;
use crate::browser::{choice, link_views, BrowserSelection, LinkPlan};
use crate::cli::{parse_view, Command, CommandView, ParseView};
use crate::config::{AppConfig, HttpRequestFilterConfig};
use crate::filter::HttpRequestFilterInput;
use crate::http_message::{HeaderField, RequestHead, ResponseHead};
use crate::http_raw::{field_views, opt_bytes, splits_at, HeaderBodySplit};
use crate::proxy::{
    entry_view, opt_captured, opt_slice, CapturePlan, CapturedResponse, PendingFlow, QueueEntry,
    RequestStep, StepView,
};
use crate::storage::{opt_status, record_views, FlowRow, HttpRequestRecord};
use crate::text::opt_str;
use crate::tls_hello::{opt_byte_lists, opt_hello, opt_list, ClientHelloInfo};
use crate::tls_mimic::CompiledProfile;
use crate::websocket::{
    PayloadView, WebSocketCaptureFile, WebSocketMessagePayload, WebSocketMessageRecord,
};
use crate::weburl::{opt_url, ParsedUrl};

verus! {

/// An optional text is shown as what it holds.
pub open spec fn shows(shown: Option<Seq<char>>, held: Option<String>) -> bool {
    match held {
        Some(text) => shown == Some(text@),
        None => shown is None,
    }
}

/// A list of texts is shown text by text.
pub open spec fn shows_each(shown: Seq<Seq<char>>, held: Vec<String>) -> bool {
    &&& shown.len() == held@.len()
    &&& forall|i: int| 0 <= i < held@.len() ==> #[trigger] shown[i] == held@[i]@
}

/// The settings are shown as they are.
pub proof fn law_settings_are_shown(filters: HttpRequestFilterConfig, config: AppConfig)
    ensures
        shows_each(filters@.exclude_resource_types, filters.exclude_resource_types),
        shows_each(filters@.exclude_extensions, filters.exclude_extensions),
        shows_each(filters@.exclude_mime_types, filters.exclude_mime_types),
        shows_each(filters@.include_methods, filters.include_methods),
        shows_each(filters@.exclude_url_patterns, filters.exclude_url_patterns),
        filters@.skip_requests_without_origin == filters.skip_requests_without_origin,
        filters@.skip_empty_responses == filters.skip_empty_responses,
        shows_each(config@.scope, config.scope),
        config@.mitm_proxy_port == config.mitm_proxy_port,
        shows(config@.user_agent, config.user_agent),
        config@.filters == config.filters@,
{
}

/// What the filters are asked of is shown as it is.
pub proof fn law_filter_input_is_shown(input: HttpRequestFilterInput)
    ensures
        input@.method == input.method@,
        input@.url == input.url@,
        input@.resource_type == input.resource_type@,
        shows(input@.mime_type, input.mime_type),
        input@.status_code == input.status_code,
        input@.has_response_body == input.has_response_body,
        shows(input@.page_url, input.page_url),
{
}

/// Requests and responses are shown with all their header fields.
pub proof fn law_messages_are_shown(
    field: HeaderField,
    request: RequestHead,
    response: ResponseHead,
)
    ensures
        field@.name == field.name@,
        field@.value == field.value@,
        request@.method == request.method@,
        request@.target == request.target@,
        shows(request@.scheme, request.scheme),
        shows(request@.authority, request.authority),
        request@.version == request.version,
        request@.headers.len() == request.headers@.len(),
        forall|i: int|
            0 <= i < request.headers@.len() ==> #[trigger] request@.headers[i]
                == request.headers@[i]@,
        response@.version == response.version,
        response@.status == response.status,
        response@.headers.len() == response.headers@.len(),
        forall|i: int|
            0 <= i < response.headers@.len() ==> #[trigger] response@.headers[i]
                == response.headers@[i]@,
{
}

/// What waits for a response, and what is kept of one, is shown as it is.
pub proof fn law_flows_are_shown(plan: CapturePlan, flow: PendingFlow, kept: CapturedResponse)
    ensures
        plan@.url == plan.url@,
        plan@.resource_type == plan.resource_type@,
        shows(plan@.page_url, plan.page_url),
        flow@.request_sent_at == flow.request_sent_at@,
        flow@.request_raw == flow.request_raw@,
        flow@.request_body_bytes == flow.request_body_bytes,
        shows(flow@.page_url, flow.page_url),
        flow@.method == flow.method@,
        flow@.url == flow.url@,
        flow@.resource_type == flow.resource_type@,
        kept@.response_raw == kept.response_raw@,
        kept@.status_code == kept.status_code,
        shows(kept@.mime_type, kept.mime_type),
{
}

/// A record is shown as it is.
pub proof fn law_record_is_shown(record: HttpRequestRecord)
    ensures
        record@.id == record.id,
        record@.page_origin == record.page_origin@,
        record@.method == record.method@,
        record@.url == record.url@,
        record@.status_code == record.status_code,
        record@.resource_type == record.resource_type@,
        shows(record@.mime_type, record.mime_type),
        record@.initiator_type == record.initiator_type@,
        shows(record@.initiator_url, record.initiator_url),
        shows(record@.page_url, record.page_url),
        shows(record@.frame_url, record.frame_url),
        record@.request_sent_at == record.request_sent_at@,
        shows(record@.response_received_at, record.response_received_at),
        record@.req_path == record.req_path@,
        shows(record@.res_path, record.res_path),
{
}

/// A ClientHello, and a profile that was compiled from one, is shown as it is.
pub proof fn law_hello_is_shown<C>(hello: ClientHelloInfo, profile: CompiledProfile<C>)
    ensures
        hello@.cipher_suites == hello.cipher_suites@,
        hello@.extensions == hello.extensions@,
        hello@.groups == hello.groups@,
        hello@.signature_algorithms == hello.signature_algorithms@,
        hello@.alpn.len() == hello.alpn@.len(),
        forall|i: int| 0 <= i < hello.alpn@.len() ==> #[trigger] hello@.alpn[i] == hello.alpn@[i]@,
        hello@.key_share_groups == hello.key_share_groups@,
        hello@.supported_versions == hello.supported_versions@,
        hello@.cert_compression == hello.cert_compression@,
        profile@.identity == profile.identity@,
        profile@.hello == profile.hello@,
        profile@.connector == profile.connector,
{
}

/// A WebSocket session, its messages and their payloads are shown as they are.
pub proof fn law_session_is_shown(
    payload: WebSocketMessagePayload,
    message: WebSocketMessageRecord,
    capture: WebSocketCaptureFile,
)
    ensures
        match payload {
            WebSocketMessagePayload::Text { data } => payload@ == (PayloadView::Text {
                data: data@,
            }),
            WebSocketMessagePayload::Binary { data } => payload@ == (PayloadView::Binary {
                data: data@,
            }),
            WebSocketMessagePayload::Ping { data } => payload@ == (PayloadView::Ping {
                data: data@,
            }),
            WebSocketMessagePayload::Pong { data } => payload@ == (PayloadView::Pong {
                data: data@,
            }),
            WebSocketMessagePayload::Close { code, reason } => payload@ == (PayloadView::Close {
                code,
                reason: reason@,
            }),
        },
        message@.direction == message.direction@,
        message@.timestamp == message.timestamp@,
        message@.payload == message.payload@,
        capture@.id == capture.id,
        capture@.url == capture.url@,
        shows(capture@.page_url, capture.page_url),
        capture@.opened_at == capture.opened_at@,
        capture@.request == capture.request@,
        capture@.messages.len() == capture.messages@.len(),
        forall|i: int|
            0 <= i < capture.messages@.len() ==> #[trigger] capture@.messages[i]
                == capture.messages@[i]@,
{
}

/// A URL is shown part by part.
pub proof fn law_url_is_shown(url: ParsedUrl)
    ensures
        url@.scheme == url.scheme@,
        shows(url@.host, url.host),
        url@.port == url.port,
        url@.authority == url.authority@,
        url@.path == url.path@,
{
}

/// A command is shown with what it was given.
pub proof fn law_command_is_shown(command: Command)
    ensures
        match command {
            Command::Help => command@ is Help,
            Command::Init { force } => command@ == (CommandView::Init { force }),
            Command::Proxy { key_path } => command@ is Proxy && shows(
                command@->Proxy_key_path,
                key_path,
            ),
            Command::Launch { key_path, browser, browser_args } => {
                &&& command@ is Launch
                &&& shows(command@->Launch_key_path, key_path)
                &&& shows(command@->browser, browser)
                &&& shows_each(command@->browser_args, browser_args)
            },
        },
{
}

/// What may be missing is shown where it is there, and nothing is shown where it is not.
pub proof fn law_optional_values_are_shown(
    bytes: Option<Vec<u8>>,
    ids: Option<Vec<u16>>,
    hello: Option<ClientHelloInfo>,
    url: Option<ParsedUrl>,
    kept: Option<CapturedResponse>,
    status: Option<u16>,
)
    ensures
        opt_bytes(bytes) is Some <==> bytes is Some,
        bytes is Some ==> opt_bytes(bytes)->0 == (bytes->0)@,
        opt_list(ids) is Some <==> ids is Some,
        ids is Some ==> opt_list(ids)->0 == (ids->0)@,
        opt_hello(hello) is Some <==> hello is Some,
        hello is Some ==> opt_hello(hello)->0 == (hello->0)@,
        opt_url(url) is Some <==> url is Some,
        url is Some ==> opt_url(url)->0 == (url->0)@,
        opt_captured(kept) is Some <==> kept is Some,
        kept is Some ==> opt_captured(kept)->0 == (kept->0)@,
        opt_status(status) is Some <==> status is Some,
        status is Some ==> opt_status(status)->0 == status->0,
{
}

/// Texts and bytes that are borrowed are shown as those that are owned.
pub proof fn law_borrowed_values_are_shown(text: Option<&str>, bytes: Option<&[u8]>)
    ensures
        opt_str(text) is Some <==> text is Some,
        text is Some ==> opt_str(text)->0 == (text->0)@,
        opt_slice(bytes) is Some <==> bytes is Some,
        bytes is Some ==> opt_slice(bytes)->0 == (bytes->0)@,
{
}

/// Lists are shown item by item.
pub proof fn law_lists_are_shown(
    lists: Option<Vec<Vec<u8>>>,
    records: Seq<HttpRequestRecord>,
    links: Seq<LinkPlan>,
    fields: Seq<(String, String)>,
    i: int,
)
    ensures
        opt_byte_lists(lists) is Some <==> lists is Some,
        lists is Some ==> (opt_byte_lists(lists)->0).len() == (lists->0)@.len(),
        lists is Some && 0 <= i < (lists->0)@.len() ==> (opt_byte_lists(lists)->0)[i] == (
        lists->0)@[i]@,
        record_views(records).len() == records.len(),
        0 <= i < records.len() ==> record_views(records)[i] == records[i]@,
        link_views(links).len() == links.len(),
        0 <= i < links.len() ==> link_views(links)[i].0 == links[i].link@ && link_views(links)[i].1
            == links[i].target@,
        field_views(fields).len() == fields.len(),
        0 <= i < fields.len() ==> field_views(fields)[i].0 == fields[i].0@ && field_views(
            fields,
        )[i].1 == fields[i].1@,
{
}

/// A row of the store is read back under its number, field by field.
pub proof fn law_row_is_read_back(row: FlowRow, id: i64)
    ensures
        row.record(id).id == id,
        row.record(id).page_origin == row.page_origin@,
        row.record(id).method == row.method@,
        row.record(id).url == row.url@,
        row.record(id).status_code == row.status_code,
        row.record(id).resource_type == row.resource_type@,
        shows(row.record(id).mime_type, row.mime_type),
        row.record(id).initiator_type == row.initiator_type@,
        shows(row.record(id).initiator_url, row.initiator_url),
        shows(row.record(id).page_url, row.page_url),
        shows(row.record(id).frame_url, row.frame_url),
        row.record(id).request_sent_at == row.request_sent_at@,
        shows(row.record(id).response_received_at, row.response_received_at),
        row.record(id).req_path == row.req_path@,
        shows(row.record(id).res_path, row.res_path),
{
}

/// What was decided is shown as it was decided.
pub proof fn law_decisions_are_shown(
    step: RequestStep,
    entry: QueueEntry,
    parsed: Result<Command, String>,
    chosen: Result<BrowserSelection, String>,
)
    ensures
        match step {
            RequestStep::Forward => step@ is Forward,
            RequestStep::Upgrade => step@ is Upgrade,
            RequestStep::Skip => step@ is Skip,
            RequestStep::Capture(plan) => step@ == StepView::Capture(plan@),
        },
        match entry {
            QueueEntry::Skipped => entry_view(entry) is None,
            QueueEntry::Captured(flow) => entry_view(entry) == Some(flow@),
        },
        match parsed {
            Ok(command) => parse_view(parsed) == ParseView::Command(command@),
            Err(message) => parse_view(parsed) == ParseView::Refused(message@),
        },
        match chosen {
            Ok(selection) => choice(chosen) is Ok && (choice(chosen)->Ok_0).0 == selection.kind && (
            choice(chosen)->Ok_0).1 == selection.executable@,
            Err(message) => choice(chosen) is Err && choice(chosen)->Err_0 == message@,
        },
{
}

/// A split of a message is its header block and its body.
pub proof fn law_split_is_shown(raw: Seq<u8>, split: HeaderBodySplit<'_>, n: int)
    ensures
        splits_at(raw, Some(split), Some(n)) <==> 0 <= n <= raw.len() && split.headers_raw@
            == raw.take(n) && split.body_raw@ == raw.skip(n),
        splits_at(raw, None, None),
        !splits_at(raw, None, Some(n)),
        !splits_at(raw, Some(split), None),
{
}

} // verus!
