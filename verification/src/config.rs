//! The settings: what is captured, on which port, and what is left out.
use vstd::prelude::*;
use vstd::string::StringExecFns;
use crate::paths::{join_path, joined_path};
use crate::text::{opt_text, texts};

verus! {

pub const DEFAULT_MITM_PROXY_PORT: u16 = 8079;

pub const CONFIG_FILE: &'static str = "httplogger.yml";

/// Which requests are left out.
#[derive(Debug, Clone)]
pub struct HttpRequestFilterConfig {
    pub exclude_resource_types: Vec<String>,
    pub exclude_extensions: Vec<String>,
    pub exclude_mime_types: Vec<String>,
    pub include_methods: Vec<String>,
    pub exclude_url_patterns: Vec<String>,
    pub skip_requests_without_origin: bool,
    pub skip_empty_responses: bool,
}

/// The model of the filter settings.
#[verifier::ext_equal]
pub struct FilterConfigView {
    pub exclude_resource_types: Seq<Seq<char>>,
    pub exclude_extensions: Seq<Seq<char>>,
    pub exclude_mime_types: Seq<Seq<char>>,
    pub include_methods: Seq<Seq<char>>,
    pub exclude_url_patterns: Seq<Seq<char>>,
    pub skip_requests_without_origin: bool,
    pub skip_empty_responses: bool,
}

impl View for HttpRequestFilterConfig {
    type V = FilterConfigView;

    open spec fn view(&self) -> FilterConfigView {
        FilterConfigView {
            exclude_resource_types: texts(self.exclude_resource_types@),
            exclude_extensions: texts(self.exclude_extensions@),
            exclude_mime_types: texts(self.exclude_mime_types@),
            include_methods: texts(self.include_methods@),
            exclude_url_patterns: texts(self.exclude_url_patterns@),
            skip_requests_without_origin: self.skip_requests_without_origin,
            skip_empty_responses: self.skip_empty_responses,
        }
    }
}

/// All settings.
#[derive(Debug, Clone)]
pub struct AppConfig {
    pub scope: Vec<String>,
    pub mitm_proxy_port: u16,
    pub user_agent: Option<String>,
    pub filters: HttpRequestFilterConfig,
}

/// The model of the settings.
#[verifier::ext_equal]
pub struct AppConfigView {
    pub scope: Seq<Seq<char>>,
    pub mitm_proxy_port: u16,
    pub user_agent: Option<Seq<char>>,
    pub filters: FilterConfigView,
}

impl View for AppConfig {
    type V = AppConfigView;

    open spec fn view(&self) -> AppConfigView {
        AppConfigView {
            scope: texts(self.scope@),
            mitm_proxy_port: self.mitm_proxy_port,
            user_agent: opt_text(self.user_agent),
            filters: self.filters@,
        }
    }
}

/// The filter settings of a configuration that says nothing of them.
pub open spec fn default_filters() -> FilterConfigView {
    FilterConfigView {
        exclude_resource_types: default_exclude_resource_types_list(),
        exclude_extensions: default_exclude_extensions_list(),
        exclude_mime_types: default_exclude_mime_types_list(),
        include_methods: seq![],
        exclude_url_patterns: seq![],
        skip_requests_without_origin: true,
        skip_empty_responses: false,
    }
}

impl Default for HttpRequestFilterConfig {
    fn default() -> (r: Self)
        ensures
            r@ == default_filters(),
    {
        let r = HttpRequestFilterConfig {
            exclude_resource_types: default_exclude_resource_types(),
            exclude_extensions: default_exclude_extensions(),
            exclude_mime_types: default_exclude_mime_types(),
            include_methods: Vec::new(),
            exclude_url_patterns: Vec::new(),
            skip_requests_without_origin: default_skip_requests_without_origin(),
            skip_empty_responses: false,
        };
        assert(texts(r.include_methods@) =~= Seq::<Seq<char>>::empty());
        assert(texts(r.exclude_url_patterns@) =~= Seq::<Seq<char>>::empty());
        r
    }
}

pub open spec fn default_scope_list() -> Seq<Seq<char>> {
    seq!["*"@]
}

/// The scope of a configuration that names none: everything.
pub fn default_scope() -> (r: Vec<String>)
    ensures
        texts(r@) == default_scope_list(),
{
    let r: Vec<String> = vec!["*".to_owned()];
    assert(texts(r@) =~= default_scope_list());
    r
}

pub fn default_mitm_proxy_port() -> (r: u16)
    ensures
        r == DEFAULT_MITM_PROXY_PORT,
{
    DEFAULT_MITM_PROXY_PORT
}

pub fn default_skip_requests_without_origin() -> (r: bool)
    ensures
        r,
{
    true
}

pub open spec fn default_exclude_resource_types_list() -> Seq<Seq<char>> {
    seq![
        "stylesheet"@,
        "image"@,
        "font"@,
        "media"@,
        "ping"@,
        "events"@,
        "beacon"@,
    ]
}

/// The resource types that are left out by default.
pub fn default_exclude_resource_types() -> (r: Vec<String>)
    ensures
        texts(r@) == default_exclude_resource_types_list(),
{
    let r: Vec<String> = vec![
        "stylesheet".to_owned(),
        "image".to_owned(),
        "font".to_owned(),
        "media".to_owned(),
        "ping".to_owned(),
        "events".to_owned(),
        "beacon".to_owned(),
    ];
    assert(texts(r@) =~= default_exclude_resource_types_list());
    r
}

pub open spec fn default_exclude_extensions_list() -> Seq<Seq<char>> {
    seq![
        ".css"@,
        ".woff"@,
        ".woff2"@,
        ".ttf"@,
        ".otf"@,
        ".eot"@,
        ".png"@,
        ".jpg"@,
        ".jpeg"@,
        ".gif"@,
        ".svg"@,
        ".ico"@,
        ".webp"@,
        ".avif"@,
        ".mp4"@,
        ".webm"@,
        ".mp3"@,
        ".wav"@,
        ".map"@,
    ]
}

/// The file extensions that are left out by default.
pub fn default_exclude_extensions() -> (r: Vec<String>)
    ensures
        texts(r@) == default_exclude_extensions_list(),
{
    let r: Vec<String> = vec![
        ".css".to_owned(),
        ".woff".to_owned(),
        ".woff2".to_owned(),
        ".ttf".to_owned(),
        ".otf".to_owned(),
        ".eot".to_owned(),
        ".png".to_owned(),
        ".jpg".to_owned(),
        ".jpeg".to_owned(),
        ".gif".to_owned(),
        ".svg".to_owned(),
        ".ico".to_owned(),
        ".webp".to_owned(),
        ".avif".to_owned(),
        ".mp4".to_owned(),
        ".webm".to_owned(),
        ".mp3".to_owned(),
        ".wav".to_owned(),
        ".map".to_owned(),
    ];
    assert(texts(r@) =~= default_exclude_extensions_list());
    r
}

pub open spec fn default_exclude_mime_types_list() -> Seq<Seq<char>> {
    seq![
        "text/css"@,
        "image/*"@,
        "font/*"@,
        "audio/*"@,
        "video/*"@,
    ]
}

/// The media types that are left out by default.
pub fn default_exclude_mime_types() -> (r: Vec<String>)
    ensures
        texts(r@) == default_exclude_mime_types_list(),
{
    let r: Vec<String> = vec![
        "text/css".to_owned(),
        "image/*".to_owned(),
        "font/*".to_owned(),
        "audio/*".to_owned(),
        "video/*".to_owned(),
    ];
    assert(texts(r@) =~= default_exclude_mime_types_list());
    r
}

/// The configuration file that is written where there is none.
pub const DEFAULT_CONFIG_YAML: &'static str = r#"# Scope = targets to analyze.
# Each entry supports:
# - an exact domain: example.com
# - a wildcard subdomain pattern: "*.example.com"
# - a base URL: https://example.com/app
# - "*" to analyze everything (except browser-internal background traffic)
scope:
    - "*"

# CA key/cert (ca-key.pem, ca.pem) and browser home (home/) are created on first run.
# Browser choice: `httplogger launch [NAME|PATH]` (default: system browser).
# Bodies are stored as httplogger/requests/00001.req and .res;
# WebSocket sessions as httplogger/websockets/00001.ws.json;
# metadata.db and requests.csv live in httplogger/.
mitmProxyPort: 8079
# Optional browser user-agent (Chromium flag / Firefox user.js).
# userAgent: Mozilla/5.0 (X11; Linux x86_64) AppleWebKit/537.36 (KHTML, like Gecko) Chrome/120.0.0.0 Safari/537.36
filters:
    excludeResourceTypes:
        - stylesheet
        - image
        - font
        - media
        - ping
        - events
        - beacon
    excludeExtensions:
        - .css
        - .woff
        - .woff2
        - .ttf
        - .otf
        - .eot
        - .png
        - .jpg
        - .jpeg
        - .gif
        - .svg
        - .ico
        - .webp
        - .avif
        - .mp4
        - .webm
        - .mp3
        - .wav
        - .map
    excludeMimeTypes:
        - text/css
        - image/*
        - font/*
        - audio/*
        - video/*
    includeMethods: []
    excludeUrlPatterns: []
    skipRequestsWithoutOrigin: true
    skipEmptyResponses: false
"#;

/// Where the configuration file of a workspace is.
pub fn config_path(workspace_root: &str) -> (r: String)
    ensures
        r@ == joined_path(workspace_root@, CONFIG_FILE@),
{
    join_path(workspace_root, CONFIG_FILE)
}

/// A file to write.
#[derive(Debug, Clone)]
pub struct FileWrite {
    pub path: String,
    pub content: String,
}

/// The default configuration file to write. It is refused where the file is there already,
/// unless `force` says to overwrite it.
pub fn init_config(workspace_root: &str, present: bool, force: bool) -> (r: Result<
    FileWrite,
    String,
>)
    ensures
        match r {
            Ok(file) => (!present || force) && file.path@ == joined_path(
                workspace_root@,
                CONFIG_FILE@,
            ) && file.content@ == DEFAULT_CONFIG_YAML@,
            Err(message) => present && !force && message@ == joined_path(
                workspace_root@,
                CONFIG_FILE@,
            ) + " already exists (run `init --force` to overwrite)"@,
        },
{
    let path = config_path(workspace_root);
    if present && !force {
        let mut message = path;
        message.append(" already exists (run `init --force` to overwrite)");
        return Err(message);
    }
    Ok(FileWrite { path, content: DEFAULT_CONFIG_YAML.to_owned() })
}

/// A configuration that names nothing has everything in scope and leaves out what pages are
/// decorated with.
pub proof fn law_defaults_leave_out_decoration()
    ensures
        default_scope_list() == seq!["*"@],
        ({
            let f = default_filters();
            &&& f.exclude_resource_types.to_set() == set![
                "stylesheet"@,
                "image"@,
                "font"@,
                "media"@,
                "ping"@,
                "events"@,
                "beacon"@,
            ]
            &&& f.exclude_mime_types.to_set() == set![
                "text/css"@,
                "image/*"@,
                "font/*"@,
                "audio/*"@,
                "video/*"@,
            ]
            &&& f.exclude_extensions.to_set() == set![
                ".avif"@,
                ".css"@,
                ".eot"@,
                ".gif"@,
                ".ico"@,
                ".jpeg"@,
                ".jpg"@,
                ".map"@,
                ".mp3"@,
                ".mp4"@,
                ".otf"@,
                ".png"@,
                ".svg"@,
                ".ttf"@,
                ".wav"@,
                ".webm"@,
                ".webp"@,
                ".woff"@,
                ".woff2"@,
            ]
            &&& f.include_methods.len() == 0
            &&& f.exclude_url_patterns.len() == 0
            &&& f.skip_requests_without_origin
            &&& !f.skip_empty_responses
        }),
{
    let f = default_filters();
    let t = f.exclude_resource_types;
    assert forall|x: Seq<char>| #[trigger] t.to_set().contains(x) <==> set![
        "stylesheet"@, "image"@, "font"@, "media"@, "ping"@, "events"@, "beacon"@,
    ].contains(x) by {
        lemma_in_list(t, x);
        assert(t[0] == "stylesheet"@ && t[1] == "image"@ && t[2] == "font"@ && t[3] == "media"@
            && t[4] == "ping"@ && t[5] == "events"@ && t[6] == "beacon"@);
    }
    assert(t.to_set() =~= set![
        "stylesheet"@, "image"@, "font"@, "media"@, "ping"@, "events"@, "beacon"@,
    ]);
    let m = f.exclude_mime_types;
    assert forall|x: Seq<char>| #[trigger] m.to_set().contains(x) <==> set![
        "text/css"@, "image/*"@, "font/*"@, "audio/*"@, "video/*"@,
    ].contains(x) by {
        lemma_in_list(m, x);
        assert(m[0] == "text/css"@ && m[1] == "image/*"@ && m[2] == "font/*"@ && m[3]
            == "audio/*"@ && m[4] == "video/*"@);
    }
    assert(m.to_set() =~= set!["text/css"@, "image/*"@, "font/*"@, "audio/*"@, "video/*"@]);
    let e = f.exclude_extensions;
    let all = set![
        ".avif"@, ".css"@, ".eot"@, ".gif"@, ".ico"@, ".jpeg"@, ".jpg"@, ".map"@, ".mp3"@,
        ".mp4"@, ".otf"@, ".png"@, ".svg"@, ".ttf"@, ".wav"@, ".webm"@, ".webp"@, ".woff"@,
        ".woff2"@,
    ];
    assert forall|x: Seq<char>| #[trigger] e.to_set().contains(x) <==> all.contains(x) by {
        lemma_in_list(e, x);
        assert(e[0] == ".css"@ && e[1] == ".woff"@ && e[2] == ".woff2"@ && e[3] == ".ttf"@ && e[4]
            == ".otf"@ && e[5] == ".eot"@ && e[6] == ".png"@ && e[7] == ".jpg"@ && e[8]
            == ".jpeg"@ && e[9] == ".gif"@ && e[10] == ".svg"@ && e[11] == ".ico"@ && e[12]
            == ".webp"@ && e[13] == ".avif"@ && e[14] == ".mp4"@ && e[15] == ".webm"@ && e[16]
            == ".mp3"@ && e[17] == ".wav"@ && e[18] == ".map"@);
    }
    assert(e.to_set() =~= all);
}

proof fn lemma_in_list(list: Seq<Seq<char>>, x: Seq<char>)
    ensures
        list.to_set().contains(x) <==> exists|i: int| 0 <= i < list.len() && #[trigger] list[i] == x,
{
    if exists|i: int| 0 <= i < list.len() && #[trigger] list[i] == x {
        assert(list.contains(x));
    }
}

} // verus!
