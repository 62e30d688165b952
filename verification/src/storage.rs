//! What is kept of the traffic: the rows and the files of flows and of WebSocket sessions, and
//! the table of all requests.
use vstd::prelude::*;
use vstd::string::StringExecFns;
use crate::config::FileWrite;
use crate::csv::{
    csv_cell, csv_cells, csv_escape, csv_row, csv_rows, csv_split, csv_table, csv_value,
    law_cell_gives_value_back, law_row_gives_cells_back, law_table_gives_rows_back,
};
use crate::http_message::{extract_origin_from_url, first_some, origin_of, origin_of_text};
use crate::http_raw::{body_decoded, prepare_message_for_disk, with_body};
use crate::number::{
    decimal, decimal_value, is_digit, lemma_decimal, lemma_value_of_zeros, padded_decimal,
    padded_decimal_text, signed_decimal, signed_decimal_text, zeros,
};
use crate::paths::{join_path, joined_path};
use crate::text::{joined, lossy_text, opt_str, opt_text, owned_opt, texts, utf8_lossy};
use crate::weburl::url_parse;
use crate::websocket::{
    capture_text, encodable, encode_message, message_views, payload_of, serialize_capture_file,
    CaptureView, MessageView, WebSocketCaptureFile, WebSocketMessageRecord, WsMessage,
};

verus! {

pub const DATA_DIR: &'static str = "httplogger";

pub const REQUESTS_DIR: &'static str = "requests";

pub const WEBSOCKETS_DIR: &'static str = "websockets";

pub const METADATA_DB_FILE: &'static str = "metadata.db";

pub const REQUESTS_CSV_FILE: &'static str = "requests.csv";

/// A request as it is kept.
#[derive(Debug, Clone)]
pub struct HttpRequestRecord {
    pub id: i64,
    pub page_origin: String,
    pub method: String,
    pub url: String,
    pub status_code: Option<i64>,
    pub resource_type: String,
    pub mime_type: Option<String>,
    pub initiator_type: String,
    pub initiator_url: Option<String>,
    pub page_url: Option<String>,
    pub frame_url: Option<String>,
    pub request_sent_at: String,
    pub response_received_at: Option<String>,
    pub req_path: String,
    pub res_path: Option<String>,
}

/// The model of a request as it is kept.
#[verifier::ext_equal]
pub struct RecordView {
    pub id: i64,
    pub page_origin: Seq<char>,
    pub method: Seq<char>,
    pub url: Seq<char>,
    pub status_code: Option<i64>,
    pub resource_type: Seq<char>,
    pub mime_type: Option<Seq<char>>,
    pub initiator_type: Seq<char>,
    pub initiator_url: Option<Seq<char>>,
    pub page_url: Option<Seq<char>>,
    pub frame_url: Option<Seq<char>>,
    pub request_sent_at: Seq<char>,
    pub response_received_at: Option<Seq<char>>,
    pub req_path: Seq<char>,
    pub res_path: Option<Seq<char>>,
}

impl View for HttpRequestRecord {
    type V = RecordView;

    open spec fn view(&self) -> RecordView {
        RecordView {
            id: self.id,
            page_origin: self.page_origin@,
            method: self.method@,
            url: self.url@,
            status_code: self.status_code,
            resource_type: self.resource_type@,
            mime_type: opt_text(self.mime_type),
            initiator_type: self.initiator_type@,
            initiator_url: opt_text(self.initiator_url),
            page_url: opt_text(self.page_url),
            frame_url: opt_text(self.frame_url),
            request_sent_at: self.request_sent_at@,
            response_received_at: opt_text(self.response_received_at),
            req_path: self.req_path@,
            res_path: opt_text(self.res_path),
        }
    }
}

/// The views of a list of records.
pub open spec fn record_views(records: Seq<HttpRequestRecord>) -> Seq<RecordView> {
    Seq::new(records.len(), |i: int| records[i]@)
}

// ---------------------------------------------------------------------------
// The table of all requests.
// ---------------------------------------------------------------------------

/// The names of the columns.
pub open spec fn csv_columns() -> Seq<Seq<char>> {
    seq![
        "id"@,
        "method"@,
        "url"@,
        "status_code"@,
        "resource_type"@,
        "mime_type"@,
        "initiator_type"@,
        "initiator_url"@,
        "page_origin"@,
        "page_url"@,
        "frame_url"@,
        "request_sent_at"@,
        "response_received_at"@,
        "req_file"@,
        "res_file"@,
    ]
}

/// A text that may be missing, as a value of the table.
pub open spec fn or_empty(text: Option<Seq<char>>) -> Seq<char> {
    match text {
        Some(t) => t,
        None => seq![],
    }
}

/// A number that may be missing, as a value of the table.
pub open spec fn number_or_empty(n: Option<i64>) -> Seq<char> {
    match n {
        Some(n) => signed_decimal(n as int),
        None => seq![],
    }
}

/// The values of a record, in the order of the columns.
pub open spec fn record_values(record: RecordView) -> Seq<Seq<char>> {
    seq![
        signed_decimal(record.id as int),
        record.method,
        record.url,
        number_or_empty(record.status_code),
        record.resource_type,
        or_empty(record.mime_type),
        record.initiator_type,
        or_empty(record.initiator_url),
        record.page_origin,
        or_empty(record.page_url),
        or_empty(record.frame_url),
        record.request_sent_at,
        or_empty(record.response_received_at),
        record.req_path,
        or_empty(record.res_path),
    ]
}

/// The values of all rows: the names of the columns, and those of each record.
pub open spec fn table_values(records: Seq<RecordView>) -> Seq<Seq<Seq<char>>> {
    seq![csv_columns()] + Seq::new(records.len(), |i: int| record_values(records[i]))
}

/// The table of all requests.
pub open spec fn requests_csv(records: Seq<RecordView>) -> Seq<char> {
    csv_table(csv_rows(table_values(records)))
}

/// The values of the cells of a row.
pub open spec fn row_values(row: Seq<char>) -> Seq<Seq<char>> {
    Seq::new(csv_split(row, ',').len(), |i: int| csv_value(csv_split(row, ',')[i]))
}

fn row_text(values: &[String]) -> (r: String)
    ensures
        r@ == csv_row(texts(values@)),
{
    let ghost all = csv_cells(texts(values@));
    let mut cells: Vec<String> = Vec::new();
    let mut i: usize = 0;
    while i < values.len()
        invariant
            i <= values@.len(),
            all == csv_cells(texts(values@)),
            texts(cells@) == all.take(i as int),
        decreases values@.len() - i,
    {
        let cell = csv_escape(values[i].as_str());
        assert(cell@ == all[i as int]);
        assert(texts(cells@.push(cell)) =~= texts(cells@).push(cell@));
        assert(all.take(i + 1) =~= all.take(i as int).push(cell@));
        cells.push(cell);
        i = i + 1;
    }
    assert(texts(cells@) =~= all);
    proof {
        reveal_strlit(",");
        assert(","@ =~= seq![',']);
    }
    joined(cells.as_slice(), ",")
}

fn text_or_empty(text: &Option<String>) -> (r: String)
    ensures
        r@ == or_empty(opt_text(*text)),
{
    match text {
        Some(t) => t.clone(),
        None => {
            let s = String::new();
            assert(s@ =~= Seq::<char>::empty());
            s
        },
    }
}

fn number_text_or_empty(n: Option<i64>) -> (r: String)
    ensures
        r@ == number_or_empty(n),
{
    match n {
        Some(n) => signed_decimal_text(n),
        None => {
            let s = String::new();
            assert(s@ =~= Seq::<char>::empty());
            s
        },
    }
}

fn column_names() -> (r: Vec<String>)
    ensures
        texts(r@) == csv_columns(),
{
    let r: Vec<String> = vec![
        "id".to_owned(),
        "method".to_owned(),
        "url".to_owned(),
        "status_code".to_owned(),
        "resource_type".to_owned(),
        "mime_type".to_owned(),
        "initiator_type".to_owned(),
        "initiator_url".to_owned(),
        "page_origin".to_owned(),
        "page_url".to_owned(),
        "frame_url".to_owned(),
        "request_sent_at".to_owned(),
        "response_received_at".to_owned(),
        "req_file".to_owned(),
        "res_file".to_owned(),
    ];
    assert(texts(r@) =~= csv_columns());
    r
}

fn values_of(record: &HttpRequestRecord) -> (r: Vec<String>)
    ensures
        texts(r@) == record_values(record@),
{
    let r: Vec<String> = vec![
        signed_decimal_text(record.id),
        record.method.clone(),
        record.url.clone(),
        number_text_or_empty(record.status_code),
        record.resource_type.clone(),
        text_or_empty(&record.mime_type),
        record.initiator_type.clone(),
        text_or_empty(&record.initiator_url),
        record.page_origin.clone(),
        text_or_empty(&record.page_url),
        text_or_empty(&record.frame_url),
        record.request_sent_at.clone(),
        text_or_empty(&record.response_received_at),
        record.req_path.clone(),
        text_or_empty(&record.res_path),
    ];
    assert(texts(r@) =~= record_values(record@));
    r
}

/// The table of all requests.
pub fn to_requests_csv(records: &[HttpRequestRecord]) -> (r: String)
    ensures
        r@ == requests_csv(record_views(records@)),
{
    let ghost all = csv_rows(table_values(record_views(records@)));
    let mut out = row_text(column_names().as_slice());
    out.push('\n');
    let mut i: usize = 0;
    proof {
        let first = csv_row(csv_columns());
        assert(all[0] == first);
        assert(all.take(1).last() == first);
        assert(all.take(1).drop_last() =~= Seq::<Seq<char>>::empty());
        assert(csv_table(all.take(1).drop_last()) =~= Seq::<char>::empty());
        assert(out@ =~= csv_table(all.take(1)));
    }
    while i < records.len()
        invariant
            i <= records@.len(),
            all == csv_rows(table_values(record_views(records@))),
            out@ == csv_table(all.take(i + 1)),
        decreases records@.len() - i,
    {
        let row = row_text(values_of(&records[i]).as_slice());
        assert(row@ == all[i + 1]);
        assert(all.take(i + 2).drop_last() =~= all.take(i + 1));
        assert(all.take(i + 2).last() == row@);
        out.append(row.as_str());
        out.push('\n');
        i = i + 1;
        assert(out@ =~= csv_table(all.take(i as int)) + row@ + seq!['\n']);
    }
    assert(all.take(i + 1) =~= all);
    out
}

/// The table can be read back: behind the names of the columns its rows give the values of each
/// record, in their order, and nothing follows the last line ending.
pub proof fn law_requests_csv_is_read_back(records: Seq<RecordView>)
    ensures
        ({
            let rows = csv_split(requests_csv(records), '\n');
            &&& rows.len() == records.len() + 2
            &&& row_values(rows[0]) == csv_columns()
            &&& forall|i: int|
                0 <= i < records.len() ==> row_values(#[trigger] rows[i + 1]) == record_values(
                    records[i],
                )
            &&& rows.last().len() == 0
        }),
{
    let lists = table_values(records);
    let rows = csv_split(requests_csv(records), '\n');
    law_table_gives_rows_back(lists);
    lemma_row_values(csv_columns());
    assert(rows[0] == csv_row(lists[0]));
    assert forall|i: int| 0 <= i < records.len() implies row_values(#[trigger] rows[i + 1])
        == record_values(records[i]) by {
        assert(lists[i + 1] == record_values(records[i]));
        assert(rows[i + 1] == csv_row(lists[i + 1]));
        lemma_row_values(record_values(records[i]));
    }
}

proof fn lemma_row_values(values: Seq<Seq<char>>)
    requires
        values.len() > 0,
    ensures
        row_values(csv_row(values)) == values,
{
    law_row_gives_cells_back(values);
    assert forall|i: int| 0 <= i < values.len() implies csv_value(csv_cell(values[i])) == values[i] by {
        law_cell_gives_value_back(values[i]);
    }
    assert(row_values(csv_row(values)) =~= values);
}

// ---------------------------------------------------------------------------
// Flows.
// ---------------------------------------------------------------------------

/// The time as RFC 3339 text, in UTC and with milliseconds.
///
/// `chrono::Utc::now` and `to_rfc3339_opts`: the year, and then month, day, hour, minute and
/// second in two digits each and the milliseconds in three, with a `Z` at the end. Which time it
/// is, is not stated.
#[verifier::external_body]
pub fn now_iso() -> (r: String)
    ensures
        time_text(r@),
{
    chrono::Utc::now().to_rfc3339_opts(chrono::SecondsFormat::Millis, true)
}

/// How a time is written behind its year: `0` stands for any digit, and any other character for
/// itself.
pub open spec fn time_shape() -> Seq<char> {
    "-00-00T00:00:00.000Z"@
}

/// A year: four digits, or a sign and more digits.
pub open spec fn year_text(s: Seq<char>) -> bool {
    &&& s.len() >= 4
    &&& s.len() == 4 || s[0] == '+' || s[0] == '-'
    &&& forall|i: int|
        0 <= i < s.len() && (i > 0 || s.len() == 4) ==> is_digit(#[trigger] s[i])
}

/// A time as RFC 3339 text, in UTC and with milliseconds.
pub open spec fn time_text(s: Seq<char>) -> bool {
    let from = s.len() - time_shape().len();
    &&& from >= 4
    &&& year_text(s.take(from))
    &&& forall|i: int|
        from <= i < s.len() ==> if time_shape()[i - from] == '0' {
            is_digit(#[trigger] s[i])
        } else {
            s[i] == time_shape()[i - from]
        }
}

/// Why a flow is not kept.
#[derive(Debug, Clone, Copy, PartialEq, Eq, Structural)]
pub enum StoreError {
    /// Neither the page nor the URL has an origin.
    MissingPageOrigin,
}

impl StoreError {
    /// The error in words.
    pub fn message(&self) -> (r: &'static str)
        ensures
            r@ == "missing page origin"@,
    {
        "missing page origin"
    }
}

/// The row of a flow before its files are written.
#[derive(Debug, Clone)]
pub struct FlowRow {
    pub page_origin: String,
    pub method: String,
    pub url: String,
    pub status_code: Option<i64>,
    pub resource_type: String,
    pub mime_type: Option<String>,
    pub initiator_type: String,
    pub initiator_url: Option<String>,
    pub page_url: Option<String>,
    pub frame_url: Option<String>,
    pub request_sent_at: String,
    pub response_received_at: Option<String>,
    pub req_path: String,
    pub res_path: Option<String>,
}

impl FlowRow {
    /// The record that the row is read back as under a number.
    pub open spec fn record(&self, id: i64) -> RecordView {
        RecordView {
            id,
            page_origin: self.page_origin@,
            method: self.method@,
            url: self.url@,
            status_code: self.status_code,
            resource_type: self.resource_type@,
            mime_type: opt_text(self.mime_type),
            initiator_type: self.initiator_type@,
            initiator_url: opt_text(self.initiator_url),
            page_url: opt_text(self.page_url),
            frame_url: opt_text(self.frame_url),
            request_sent_at: self.request_sent_at@,
            response_received_at: opt_text(self.response_received_at),
            req_path: self.req_path@,
            res_path: opt_text(self.res_path),
        }
    }
}

/// A message to write.
#[derive(Debug, Clone)]
pub struct MessageFile {
    pub path: String,
    pub content: Vec<u8>,
}

/// The files of a flow, and the paths under which its row names them.
#[derive(Debug, Clone)]
pub struct FlowFiles {
    pub request: MessageFile,
    pub response: Option<MessageFile>,
    pub req_path: String,
    pub res_path: Option<String>,
}

/// The row of a WebSocket session before its file is written.
#[derive(Debug, Clone)]
pub struct SessionRow {
    pub url: String,
    pub page_url: Option<String>,
    pub page_origin: Option<String>,
    pub opened_at: String,
    pub file_path: String,
}

/// The origin that a request belongs to: that of its page, else that of its URL.
pub open spec fn flow_origin(page_url: Option<Seq<char>>, url: Seq<char>) -> Option<Seq<char>> {
    first_some(origin_of_text(page_url), origin_of_text(Some(url)))
}

/// The number of a flow or a session in the name of its file.
pub open spec fn file_number(id: i64) -> Seq<char> {
    padded_decimal(id as int, 5)
}

/// The path of a file, seen from the workspace.
pub open spec fn relative_path(dir: Seq<char>, name: Seq<char>) -> Seq<char> {
    DATA_DIR@ + "/"@ + dir + "/"@ + name
}

/// A status as the store keeps it.
pub open spec fn opt_status(status: Option<u16>) -> Option<i64> {
    match status {
        Some(s) => Some(s as i64),
        None => None,
    }
}

/// The origin that a request belongs to.
pub fn page_origin(page_url: Option<&str>, url: &str) -> (r: Option<String>)
    ensures
        opt_text(r) == flow_origin(opt_str(page_url), url@),
{
    match extract_origin_from_url(page_url) {
        Some(origin) => Some(origin),
        None => extract_origin_from_url(Some(url)),
    }
}

fn numbered(id: i64, extension: &str) -> (r: String)
    ensures
        r@ == file_number(id) + extension@,
{
    let mut s = padded_decimal_text(id, 5);
    s.append(extension);
    s
}

fn relative(dir: &str, name: &str) -> (r: String)
    ensures
        r@ == relative_path(dir@, name@),
{
    let mut s = DATA_DIR.to_owned();
    s.append("/");
    s.append(dir);
    s.append("/");
    s.append(name);
    s
}

/// Where the traffic of a workspace is kept.
#[derive(Debug, Clone)]
pub struct RequestStore {
    pub data_root: String,
}

impl RequestStore {
    /// The store of a workspace.
    pub fn open(workspace_root: &str) -> (r: Self)
        ensures
            r.data_root@ == joined_path(workspace_root@, DATA_DIR@),
    {
        RequestStore { data_root: join_path(workspace_root, DATA_DIR) }
    }

    /// The file of the database.
    pub fn db_path(&self) -> (r: String)
        ensures
            r@ == joined_path(self.data_root@, METADATA_DB_FILE@),
    {
        join_path(self.data_root.as_str(), METADATA_DB_FILE)
    }

    /// The directory of the messages.
    pub fn requests_dir(&self) -> (r: String)
        ensures
            r@ == joined_path(self.data_root@, REQUESTS_DIR@),
    {
        join_path(self.data_root.as_str(), REQUESTS_DIR)
    }

    /// The directory of the WebSocket sessions.
    pub fn websockets_dir(&self) -> (r: String)
        ensures
            r@ == joined_path(self.data_root@, WEBSOCKETS_DIR@),
    {
        join_path(self.data_root.as_str(), WEBSOCKETS_DIR)
    }

    /// The row of a flow. It has an empty path until its files are written.
    pub fn persist_flow(
        &self,
        request_sent_at: &str,
        response_received_at: Option<&str>,
        page_url: Option<&str>,
        method: &str,
        url: &str,
        resource_type: &str,
        status_code: Option<u16>,
        mime_type: Option<&str>,
    ) -> (r: Result<FlowRow, StoreError>)
        ensures
            match r {
                Ok(row) => {
                    &&& flow_origin(opt_str(page_url), url@) == Some(row.page_origin@)
                    &&& forall|id: i64| #[trigger]
                        row.record(id) == (RecordView {
                            id,
                            page_origin: row.page_origin@,
                            method: method@,
                            url: url@,
                            status_code: opt_status(status_code),
                            resource_type: resource_type@,
                            mime_type: opt_str(mime_type),
                            initiator_type: resource_type@,
                            initiator_url: opt_str(page_url),
                            page_url: opt_str(page_url),
                            frame_url: None,
                            request_sent_at: request_sent_at@,
                            response_received_at: opt_str(response_received_at),
                            req_path: seq![],
                            res_path: None,
                        })
                },
                Err(e) => e == StoreError::MissingPageOrigin && flow_origin(
                    opt_str(page_url),
                    url@,
                ) is None,
            },
    {
        match page_origin(page_url, url) {
            Some(page_origin) => {
                let req_path = String::new();
                assert(req_path@ =~= Seq::<char>::empty());
                Ok(
                    FlowRow {
                        page_origin,
                        method: method.to_owned(),
                        url: url.to_owned(),
                        status_code: match status_code {
                            Some(s) => Some(s as i64),
                            None => None,
                        },
                        resource_type: resource_type.to_owned(),
                        mime_type: owned_opt(mime_type),
                        initiator_type: resource_type.to_owned(),
                        initiator_url: owned_opt(page_url),
                        page_url: owned_opt(page_url),
                        frame_url: None,
                        request_sent_at: request_sent_at.to_owned(),
                        response_received_at: owned_opt(response_received_at),
                        req_path,
                        res_path: None,
                    },
                )
            },
            None => Err(StoreError::MissingPageOrigin),
        }
    }

    /// The files of a flow under its number, and the paths that its row gets.
    pub fn flow_files(&self, id: i64, request_raw: &[u8], response_raw: Option<&[u8]>) -> (r:
        FlowFiles)
        ensures
            r.request.path@ == joined_path(
                joined_path(self.data_root@, REQUESTS_DIR@),
                file_number(id) + ".req"@,
            ),
            r.request.content@ == with_body(request_raw@, body_decoded(request_raw@)),
            r.req_path@ == relative_path(REQUESTS_DIR@, file_number(id) + ".req"@),
            match response_raw {
                Some(raw) => {
                    &&& r.response is Some
                    &&& r.response->0.path@ == joined_path(
                        joined_path(self.data_root@, REQUESTS_DIR@),
                        file_number(id) + ".res"@,
                    )
                    &&& r.response->0.content@ == with_body(raw@, body_decoded(raw@))
                    &&& r.res_path is Some
                    &&& (r.res_path->0)@ == relative_path(
                        REQUESTS_DIR@,
                        file_number(id) + ".res"@,
                    )
                },
                None => r.response is None && r.res_path is None,
            },
    {
        let dir = self.requests_dir();
        let req_name = numbered(id, ".req");
        let request = MessageFile {
            path: join_path(dir.as_str(), req_name.as_str()),
            content: prepare_message_for_disk(request_raw),
        };
        let req_path = relative(REQUESTS_DIR, req_name.as_str());
        match response_raw {
            Some(raw) => {
                let res_name = numbered(id, ".res");
                let response = MessageFile {
                    path: join_path(dir.as_str(), res_name.as_str()),
                    content: prepare_message_for_disk(raw),
                };
                FlowFiles {
                    request,
                    response: Some(response),
                    req_path,
                    res_path: Some(relative(REQUESTS_DIR, res_name.as_str())),
                }
            },
            None => FlowFiles { request, response: None, req_path, res_path: None },
        }
    }

    /// The file of the table of all requests.
    pub fn export_csv(&self, records: &[HttpRequestRecord]) -> (r: FileWrite)
        ensures
            r.path@ == joined_path(self.data_root@, REQUESTS_CSV_FILE@),
            r.content@ == requests_csv(record_views(records@)),
    {
        FileWrite {
            path: join_path(self.data_root.as_str(), REQUESTS_CSV_FILE),
            content: to_requests_csv(records),
        }
    }

    /// The row of a WebSocket session. It has an empty path until its file is written.
    pub fn create_websocket_session(
        &self,
        url: &str,
        page_url: Option<&str>,
        opened_at: &str,
    ) -> (r: SessionRow)
        ensures
            r.url@ == url@,
            opt_text(r.page_url) == opt_str(page_url),
            opt_text(r.page_origin) == flow_origin(opt_str(page_url), url@),
            r.opened_at@ == opened_at@,
            r.file_path@.len() == 0,
    {
        SessionRow {
            url: url.to_owned(),
            page_url: owned_opt(page_url),
            page_origin: page_origin(page_url, url),
            opened_at: opened_at.to_owned(),
            file_path: String::new(),
        }
    }

    /// The recorder of a WebSocket session under its number, without messages yet.
    pub fn recorder(&self, id: i64, request_raw: &[u8], row: &SessionRow) -> (r:
        WebSocketRecorder)
        ensures
            r@ == (CaptureView {
                id,
                url: row.url@,
                page_url: opt_text(row.page_url),
                opened_at: row.opened_at@,
                request: utf8_lossy(request_raw@),
                messages: seq![],
            }),
            r.path() == joined_path(
                joined_path(self.data_root@, WEBSOCKETS_DIR@),
                file_number(id) + ".ws.json"@,
            ),
            r.name() == relative_path(WEBSOCKETS_DIR@, file_number(id) + ".ws.json"@),
    {
        let file_name = numbered(id, ".ws.json");
        let page_url = match &row.page_url {
            Some(page_url) => Some(page_url.clone()),
            None => None,
        };
        let capture = WebSocketCaptureFile {
            id,
            url: row.url.clone(),
            page_url,
            opened_at: row.opened_at.clone(),
            request: lossy_text(request_raw),
            messages: Vec::new(),
        };
        assert(message_views(capture.messages@) =~= Seq::<MessageView>::empty());
        WebSocketRecorder {
            file_path: join_path(self.websockets_dir().as_str(), file_name.as_str()),
            relative_path: relative(WEBSOCKETS_DIR, file_name.as_str()),
            capture,
        }
    }
}

// ---------------------------------------------------------------------------
// The recorder of a WebSocket session.
// ---------------------------------------------------------------------------

/// What is recorded of a WebSocket session, and the file that it goes to.
pub struct WebSocketRecorder {
    capture: WebSocketCaptureFile,
    file_path: String,
    relative_path: String,
}

impl View for WebSocketRecorder {
    type V = CaptureView;

    closed spec fn view(&self) -> CaptureView {
        self.capture@
    }
}

/// A session with one message more.
pub open spec fn with_message(capture: CaptureView, message: MessageView) -> CaptureView {
    CaptureView { messages: capture.messages.push(message), ..capture }
}

impl WebSocketRecorder {
    /// The path of the file.
    pub closed spec fn path(&self) -> Seq<char> {
        self.file_path@
    }

    /// The path of the file, seen from the workspace.
    pub closed spec fn name(&self) -> Seq<char> {
        self.relative_path@
    }

    pub fn id(&self) -> (r: i64)
        ensures
            r == self@.id,
    {
        self.capture.id
    }

    pub fn relative_path(&self) -> (r: &str)
        ensures
            r@ == self.name(),
    {
        self.relative_path.as_str()
    }

    /// The file with all that was recorded.
    pub fn flush(&self) -> (r: Result<FileWrite, serde_json::Error>)
        ensures
            r is Ok,
            (r->Ok_0).path@ == self.path(),
            (r->Ok_0).content@ == capture_text(self@),
    {
        match serialize_capture_file(&self.capture) {
            Ok(content) => Ok(FileWrite { path: self.file_path.clone(), content }),
            Err(e) => Err(e),
        }
    }

    /// Records a message, and gives the file with all that was recorded.
    pub fn push_message(&mut self, message: WebSocketMessageRecord) -> (r: Result<
        FileWrite,
        serde_json::Error,
    >)
        ensures
            final(self)@ == with_message(old(self)@, message@),
            final(self).path() == old(self).path(),
            final(self).name() == old(self).name(),
            r is Ok,
            (r->Ok_0).path@ == final(self).path(),
            (r->Ok_0).content@ == capture_text(final(self)@),
    {
        let ghost before = self.capture@;
        self.capture.messages.push(message);
        assert(self.capture@ =~= with_message(before, message@)) by {
            assert(self.capture@.messages =~= before.messages.push(message@));
        }
        self.flush()
    }
}

/// Records a message of a WebSocket session at a time.
pub fn record_message_at(
    recorder: &mut WebSocketRecorder,
    direction: &str,
    timestamp: String,
    message: &WsMessage,
) -> (r: Result<FileWrite, serde_json::Error>)
    requires
        encodable(*message),
    ensures
        final(recorder)@ == with_message(
            old(recorder)@,
            (MessageView {
                direction: direction@,
                timestamp: timestamp@,
                payload: payload_of(*message),
            }),
        ),
        final(recorder).path() == old(recorder).path(),
        final(recorder).name() == old(recorder).name(),
        r is Ok,
        (r->Ok_0).path@ == final(recorder).path(),
        (r->Ok_0).content@ == capture_text(final(recorder)@),
{
    let entry = WebSocketMessageRecord {
        direction: direction.to_owned(),
        timestamp,
        payload: encode_message(message),
    };
    recorder.push_message(entry)
}

/// Records a message of a WebSocket session now.
pub fn record_message(recorder: &mut WebSocketRecorder, direction: &str, message: &WsMessage) -> (r:
    Result<FileWrite, serde_json::Error>)
    requires
        encodable(*message),
    ensures
        exists|timestamp: Seq<char>|
            #![trigger time_text(timestamp)]
            time_text(timestamp) && final(recorder)@ == with_message(
                old(recorder)@,
                (MessageView { direction: direction@, timestamp, payload: payload_of(*message) }),
            ),
        final(recorder).path() == old(recorder).path(),
        final(recorder).name() == old(recorder).name(),
        r is Ok,
        (r->Ok_0).path@ == final(recorder).path(),
        (r->Ok_0).content@ == capture_text(final(recorder)@),
{
    record_message_at(recorder, direction, now_iso(), message)
}

// ---------------------------------------------------------------------------
// The names of files.
// ---------------------------------------------------------------------------

proof fn lemma_padded(n: int, width: int)
    requires
        n >= 0,
    ensures
        decimal_value(padded_decimal(n, width)) == n,
        padded_decimal(n, width).len() > 0,
        forall|i: int|
            0 <= i < padded_decimal(n, width).len() ==> is_digit(
                #[trigger] padded_decimal(n, width)[i],
            ),
{
    let digits = decimal(n as nat);
    let fill = width - digits.len();
    lemma_decimal(n as nat);
    lemma_value_of_zeros(if fill < 0 { 0 } else { fill }, digits);
    assert(zeros(fill) =~= zeros(if fill < 0 { 0 } else { fill }));
    let s = padded_decimal(n, width);
    assert forall|i: int| 0 <= i < s.len() implies is_digit(#[trigger] s[i]) by {
        if i >= zeros(fill).len() {
            assert(s[i] == digits[i - zeros(fill).len()]);
        }
    }
}

/// Two flows with different numbers have files with different names, whatever the extension.
pub proof fn law_file_names_differ(a: i64, b: i64, extension: Seq<char>)
    requires
        file_number(a) + extension == file_number(b) + extension,
    ensures
        a == b,
{
    let x = file_number(a) + extension;
    let y = file_number(b) + extension;
    let n = x.len() - extension.len();
    assert(x.take(n) =~= file_number(a));
    assert(y.take(n) =~= file_number(b));
    lemma_number_tells(a as int);
    lemma_number_tells(b as int);
    let s = file_number(a);
    assert(s == file_number(b));
    assert(is_digit(s[0]) || s[0] == '-');
}

/// The sign and the digits of a number in a name tell the number.
proof fn lemma_number_tells(n: int)
    ensures
        padded_decimal(n, 5).len() > 0,
        n < 0 ==> padded_decimal(n, 5)[0] == '-' && decimal_value(padded_decimal(n, 5).drop_first())
            == -n,
        n >= 0 ==> is_digit(padded_decimal(n, 5)[0]) && decimal_value(padded_decimal(n, 5)) == n,
{
    if n >= 0 {
        lemma_padded(n, 5);
    } else {
        lemma_padded(-n, 4);
        let digits = decimal((-n) as nat);
        assert(padded_decimal(n, 5).drop_first() =~= padded_decimal(-n, 4));
    }
}

/// The table of requests is read back column by column: its first row names the columns, and under
/// each name the row of a record has that field of the record, and nothing where there is none.
pub proof fn law_columns_hold_the_fields(records: Seq<RecordView>, i: int)
    requires
        0 <= i < records.len(),
    ensures
        ({
            let rows = csv_split(requests_csv(records), '\n');
            let names = row_values(rows[0]);
            let row = row_values(rows[i + 1]);
            let record = records[i];
            &&& names.len() == 15 && row.len() == 15
            &&& names[0] == "id"@ && row[0] == signed_decimal(record.id as int)
            &&& names[1] == "method"@ && row[1] == record.method
            &&& names[2] == "url"@ && row[2] == record.url
            &&& names[3] == "status_code"@
            &&& record.status_code is Some ==> row[3] == signed_decimal(
                record.status_code->0 as int,
            )
            &&& record.status_code is None ==> row[3].len() == 0
            &&& names[4] == "resource_type"@ && row[4] == record.resource_type
            &&& names[5] == "mime_type"@
            &&& record.mime_type is Some ==> row[5] == record.mime_type->0
            &&& record.mime_type is None ==> row[5].len() == 0
            &&& names[6] == "initiator_type"@ && row[6] == record.initiator_type
            &&& names[7] == "initiator_url"@
            &&& record.initiator_url is Some ==> row[7] == record.initiator_url->0
            &&& record.initiator_url is None ==> row[7].len() == 0
            &&& names[8] == "page_origin"@ && row[8] == record.page_origin
            &&& names[9] == "page_url"@
            &&& record.page_url is Some ==> row[9] == record.page_url->0
            &&& record.page_url is None ==> row[9].len() == 0
            &&& names[10] == "frame_url"@
            &&& record.frame_url is Some ==> row[10] == record.frame_url->0
            &&& record.frame_url is None ==> row[10].len() == 0
            &&& names[11] == "request_sent_at"@ && row[11] == record.request_sent_at
            &&& names[12] == "response_received_at"@
            &&& record.response_received_at is Some ==> row[12] == record.response_received_at->0
            &&& record.response_received_at is None ==> row[12].len() == 0
            &&& names[13] == "req_file"@ && row[13] == record.req_path
            &&& names[14] == "res_file"@
            &&& record.res_path is Some ==> row[14] == record.res_path->0
            &&& record.res_path is None ==> row[14].len() == 0
        }),
{
    law_requests_csv_is_read_back(records);
    let rows = csv_split(requests_csv(records), '\n');
    assert(row_values(rows[i + 1]) == record_values(records[i]));
}

/// Records whose rows are the same have the same fields, where a field that is missing counts as an
/// empty one.
pub proof fn law_rows_tell_the_fields(records: Seq<RecordView>, i: int, j: int)
    requires
        0 <= i < records.len(),
        0 <= j < records.len(),
        csv_split(requests_csv(records), '\n')[i + 1] == csv_split(
            requests_csv(records),
            '\n',
        )[j + 1],
    ensures
        records[i].method == records[j].method,
        records[i].url == records[j].url,
        records[i].resource_type == records[j].resource_type,
        records[i].page_origin == records[j].page_origin,
        records[i].req_path == records[j].req_path,
        records[i].request_sent_at == records[j].request_sent_at,
        records[i].res_path is Some && records[j].res_path is Some ==> records[i].res_path
            == records[j].res_path,
        records[i].page_url is Some && records[j].page_url is Some ==> records[i].page_url
            == records[j].page_url,
        records[i].frame_url is Some && records[j].frame_url is Some ==> records[i].frame_url
            == records[j].frame_url,
        records[i].mime_type is Some && records[j].mime_type is Some ==> records[i].mime_type
            == records[j].mime_type,
{
    law_columns_hold_the_fields(records, i);
    law_columns_hold_the_fields(records, j);
}

/// A flow belongs to the origin of its page, and where that has none to the origin of its own URL.
pub proof fn law_flow_belongs_to_its_page(page: Seq<char>, url: Seq<char>)
    ensures
        origin_of_text(Some(page)) is Some ==> flow_origin(Some(page), url) == origin_of_text(
            Some(page),
        ),
        origin_of_text(Some(page)) is None ==> flow_origin(Some(page), url) == origin_of_text(
            Some(url),
        ),
        flow_origin(None, url) == origin_of_text(Some(url)),
        url_parse(page) is Some ==> origin_of_text(Some(page)) == origin_of(url_parse(page)->0),
        url_parse(page) is None ==> origin_of_text(Some(page)) is None,
{
}

/// The number of a file has five digits at least, and behind its zeros it is the id.
pub proof fn law_file_number_is_the_id(id: i64)
    requires
        id >= 0,
    ensures
        file_number(id).len() >= 5,
        forall|i: int| 0 <= i < file_number(id).len() ==> is_digit(#[trigger] file_number(id)[i]),
        decimal_value(file_number(id)) == id,
        file_number(id).len() > 5 ==> file_number(id)[0] != '0',
{
    let n = id as nat;
    lemma_decimal(n);
    let pad = 5 - decimal(n).len();
    lemma_value_of_zeros(zeros(pad).len() as int, decimal(n));
    assert forall|i: int| 0 <= i < file_number(id).len() implies is_digit(
        #[trigger] file_number(id)[i],
    ) by {
        let z = zeros(pad).len() as int;
        if i >= z {
            assert(file_number(id)[i] == decimal(n)[i - z]);
        }
    }
    if file_number(id).len() > 5 {
        assert(file_number(id) =~= decimal(n));
    }
}

/// The path that a row has for a file, put behind the workspace, is the path that the file is
/// written to.
pub proof fn law_relative_path_leads_to_the_file(root: Seq<char>, dir: Seq<char>, name: Seq<char>)
    requires
        name.len() > 0,
        name[0] != '/',
        dir.len() > 0,
        dir[0] != '/',
        dir.last() != '/',
    ensures
        joined_path(root, relative_path(dir, name)) == joined_path(
            joined_path(joined_path(root, "httplogger"@), dir),
            name,
        ),
        relative_path(dir, name) == "httplogger/"@ + dir + seq!['/'] + name,
{
    reveal_strlit("httplogger");
    reveal_strlit("httplogger/");
    reveal_strlit("/");
    assert("httplogger"@ + "/"@ =~= "httplogger/"@);
    assert("/"@ =~= seq!['/']);
    let a = joined_path(root, "httplogger"@);
    let b = joined_path(a, dir);
    assert(a.last() == 'r');
    assert(b.last() == dir.last());
    assert(joined_path(root, relative_path(dir, name)) =~= joined_path(b, name));
}

/// A message that is recorded comes last, and all that was recorded before stays.
pub proof fn law_message_is_recorded_last(capture: CaptureView, message: MessageView)
    ensures
        with_message(capture, message).messages.len() == capture.messages.len() + 1,
        with_message(capture, message).messages.last() == message,
        with_message(capture, message).messages.drop_last() == capture.messages,
        with_message(capture, message).id == capture.id,
        with_message(capture, message).url == capture.url,
        with_message(capture, message).page_url == capture.page_url,
        with_message(capture, message).opened_at == capture.opened_at,
        with_message(capture, message).request == capture.request,
{
    assert(with_message(capture, message).messages.drop_last() =~= capture.messages);
}

} // verus!
