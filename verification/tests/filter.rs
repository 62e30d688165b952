use httplogger::config::{
    default_mitm_proxy_port, default_scope, init_config, HttpRequestFilterConfig, CONFIG_FILE,
    DEFAULT_CONFIG_YAML, DEFAULT_MITM_PROXY_PORT,
};
use httplogger::filter::{
    hostname_matches_pattern, matches_http_request_scope, matches_scope, mime_matches,
    normalize_method, normalize_path, path_excluded, should_filter_http_request, url_matches_base,
    url_matches_pattern, url_pathname, wildcard_match, HttpRequestFilterInput,
};
use httplogger::weburl::try_parse_http_url;

fn list(items: &[&str]) -> Vec<String> {
    items.iter().map(|s| s.to_string()).collect()
}

fn no_filters() -> HttpRequestFilterConfig {
    HttpRequestFilterConfig {
        exclude_resource_types: vec![],
        exclude_extensions: vec![],
        exclude_mime_types: vec![],
        include_methods: vec![],
        exclude_url_patterns: vec![],
        skip_requests_without_origin: false,
        skip_empty_responses: false,
    }
}

fn input(url: &str) -> HttpRequestFilterInput {
    HttpRequestFilterInput {
        method: "GET".to_string(),
        url: url.to_string(),
        resource_type: "fetch".to_string(),
        mime_type: None,
        status_code: None,
        has_response_body: None,
        page_url: None,
    }
}

#[test]
fn wildcards() {
    assert!(wildcard_match("*", ""));
    assert!(wildcard_match("*", "anything"));
    assert!(wildcard_match("a*c", "abc"));
    assert!(wildcard_match("a*c", "ac"));
    assert!(!wildcard_match("a*c", "abcd"));
    assert!(wildcard_match("*b*", "abc"));
    assert!(wildcard_match("a**c", "abc"));
    assert!(!wildcard_match("ab*ba", "aba"));
    assert!(wildcard_match("plain", "plain"));
    assert!(!wildcard_match("plain", "plain "));
    assert!(wildcard_match("*x*y", "axbxcy"));
    assert!(!wildcard_match("*x*y", "ayx"));
}

#[test]
fn scope_of_hosts() {
    assert!(hostname_matches_pattern("Example.com", "example.COM"));
    assert!(!hostname_matches_pattern("a.example.com", "example.com"));
    assert!(hostname_matches_pattern("a.example.com", "*.example.com"));
    assert!(!hostname_matches_pattern("example.com", "*.example.com"));
    assert!(!hostname_matches_pattern(".example.com", "*.example.com"));
    assert!(hostname_matches_pattern("x", "*"));
    assert!(matches_scope("https://api.example.com/x", &list(&["*.example.com"])));
    assert!(matches_scope("example.com", &list(&[" example.com "])));
    assert!(matches_scope("example.com", &list(&["https://example.com/path"])));
    assert!(!matches_scope("https://other.test/", &list(&["example.com", "", "  "])));
    assert!(!matches_scope("https://other.test/", &[]));
    assert!(matches_scope("whatever", &list(&["", " * "])));
}

#[test]
fn scope_of_urls() {
    let scope = list(&["https://example.com/api/"]);
    assert!(matches_scope("https://example.com/api", &scope));
    assert!(matches_scope("https://EXAMPLE.com:443/api/v1?x", &scope));
    assert!(!matches_scope("https://example.com/apiary", &scope));
    assert!(!matches_scope("http://example.com/api", &scope));
    assert!(!matches_scope("https://example.com:8443/api", &scope));
    assert!(!matches_scope("https://sub.example.com/api", &scope));
    assert!(matches_scope("https://example.com/x", &list(&["https://example.com"])));
    let url = |u: &str| try_parse_http_url(u).unwrap();
    assert!(url_matches_base(&url("http://a/x/y"), &url("http://a/x")));
    assert!(!url_matches_base(&url("http://a/x"), &url("http://a/x/y")));
}

#[test]
fn scope_of_requests() {
    let scope = list(&["page.test"]);
    assert!(matches_http_request_scope(Some("https://page.test/"), "https://cdn.test/x", &scope));
    assert!(matches_http_request_scope(Some("https://o.test/"), "https://page.test/x", &scope));
    assert!(!matches_http_request_scope(None, "https://cdn.test/x", &scope));
    assert!(!matches_http_request_scope(Some("https://o.test/"), "https://cdn.test/x", &scope));
}

#[test]
fn normal_forms() {
    assert_eq!(normalize_method(" post "), "POST");
    assert_eq!(normalize_method("straße"), "STRASSE");
    assert_eq!(normalize_path(""), "/");
    assert_eq!(normalize_path("/"), "/");
    assert_eq!(normalize_path("/a/"), "/a");
    assert_eq!(normalize_path("/a//"), "/a/");
    assert_eq!(url_pathname("https://A.test/Path/X.PNG?q=Y"), "/path/x.png");
    assert_eq!(url_pathname("No URL"), "no url");
}

#[test]
fn media_types_and_url_patterns() {
    assert!(mime_matches("image/*", " Image/PNG"));
    assert!(mime_matches("TEXT/css", "text/css"));
    assert!(!mime_matches("text/css", "text/css; charset=x"));
    assert!(!mime_matches("", "text/css"));
    assert!(mime_matches("*", "anything"));
    assert!(url_matches_pattern("Analytics", "https://x.test/analytics.js"));
    assert!(url_matches_pattern("*://x.test/*.js", "https://x.test/a/b.js"));
    assert!(!url_matches_pattern("*://x.test/*.js", "https://x.test/a.js?v"));
    assert!(!url_matches_pattern("  ", "https://x.test/"));
}

#[test]
fn each_filter_leaves_out() {
    let plain = input("https://a.test/Pic.PNG");
    let filters = |change: &dyn Fn(&mut HttpRequestFilterConfig)| {
        let mut f = no_filters();
        change(&mut f);
        f
    };
    assert!(!should_filter_http_request(&plain, &no_filters()));
    assert!(should_filter_http_request(&plain, &filters(&|f| f.include_methods = list(&["post", "put"]))));
    assert!(!should_filter_http_request(&plain, &filters(&|f| f.include_methods = list(&["post", " get "]))));
    assert!(should_filter_http_request(&plain, &filters(&|f| f.exclude_resource_types = list(&["FETCH"]))));
    assert!(should_filter_http_request(&plain, &filters(&|f| f.exclude_extensions = list(&["png"]))));
    assert!(should_filter_http_request(&plain, &filters(&|f| f.exclude_extensions = list(&[".PNG"]))));
    assert!(!should_filter_http_request(&plain, &filters(&|f| f.exclude_extensions = list(&["ng2"]))));
    assert!(should_filter_http_request(&plain, &filters(&|f| f.exclude_url_patterns = list(&["pic"]))));
    assert!(should_filter_http_request(&plain, &filters(&|f| f.skip_requests_without_origin = true)));
    let mut page = input("https://a.test/");
    page.resource_type = "main_frame".to_string();
    assert!(!should_filter_http_request(&page, &filters(&|f| f.skip_requests_without_origin = true)));
    let mut typed = input("https://a.test/");
    typed.mime_type = Some("image/png".to_string());
    assert!(should_filter_http_request(&typed, &filters(&|f| f.exclude_mime_types = list(&["image/*"]))));
    assert!(!should_filter_http_request(&plain, &filters(&|f| f.exclude_mime_types = list(&["*"]))));
}

#[test]
fn empty_responses() {
    let mut filters = no_filters();
    filters.skip_empty_responses = true;
    let mut i = input("https://a.test/");
    for (status, body, want) in [
        (Some(204), Some(false), true),
        (Some(304), Some(false), true),
        (Some(204), Some(true), false),
        (Some(204), None, false),
        (Some(200), Some(false), false),
        (None, Some(false), false),
    ] {
        i.status_code = status;
        i.has_response_body = body;
        assert_eq!(should_filter_http_request(&i, &filters), want);
    }
}

#[test]
fn more_is_known_only_to_leave_more_out() {
    let filters = HttpRequestFilterConfig::default();
    let mut i = input("https://a.test/x.css");
    assert!(should_filter_http_request(&i, &filters));
    i.mime_type = Some("text/html".to_string());
    i.status_code = Some(200);
    i.has_response_body = Some(true);
    assert!(should_filter_http_request(&i, &filters));
}

fn strings(value: &serde_yaml::Value) -> Vec<String> {
    value
        .as_sequence()
        .unwrap()
        .iter()
        .map(|v| v.as_str().unwrap().to_string())
        .collect()
}

#[test]
fn default_file_holds_the_defaults() {
    let yaml: serde_yaml::Value = serde_yaml::from_str(DEFAULT_CONFIG_YAML).unwrap();
    let defaults = HttpRequestFilterConfig::default();
    assert_eq!(strings(&yaml["scope"]), default_scope());
    assert_eq!(default_mitm_proxy_port(), DEFAULT_MITM_PROXY_PORT);
    assert_eq!(yaml["mitmProxyPort"].as_u64(), Some(DEFAULT_MITM_PROXY_PORT as u64));
    assert!(yaml.get("userAgent").is_none());
    let filters = &yaml["filters"];
    assert_eq!(strings(&filters["excludeResourceTypes"]), defaults.exclude_resource_types);
    assert_eq!(strings(&filters["excludeExtensions"]), defaults.exclude_extensions);
    assert_eq!(strings(&filters["excludeMimeTypes"]), defaults.exclude_mime_types);
    assert_eq!(strings(&filters["includeMethods"]), defaults.include_methods);
    assert_eq!(strings(&filters["excludeUrlPatterns"]), defaults.exclude_url_patterns);
    assert_eq!(
        filters["skipRequestsWithoutOrigin"].as_bool(),
        Some(defaults.skip_requests_without_origin)
    );
    assert_eq!(filters["skipEmptyResponses"].as_bool(), Some(defaults.skip_empty_responses));
}

#[test]
fn configuration_file_is_not_overwritten() {
    let file = init_config("/w", false, false).unwrap();
    assert_eq!(file.path, format!("/w/{CONFIG_FILE}"));
    assert_eq!(file.content, DEFAULT_CONFIG_YAML);
    assert_eq!(init_config("/w", true, true).unwrap().content, DEFAULT_CONFIG_YAML);
    assert_eq!(
        init_config("/w", true, false).unwrap_err(),
        format!("/w/{CONFIG_FILE} already exists (run `init --force` to overwrite)")
    );
}

#[test]
fn extensions_of_paths() {
    let excluded = list(&["png", ".TAR.gz"]);
    for (path, r) in [("/a.png", true), ("/a.tar.gz", true), ("/apng", false), ("/a.PNG", false)] {
        assert_eq!(path_excluded(path, &excluded), r, "{path}");
    }
    assert!(!path_excluded("/a.png", &[]));
    assert!(path_excluded("/a.", &list(&[""])));
}
