//! URLs: the parts that the rules read, as the `url` crate finds them.
use vstd::prelude::*;
use crate::text::{begins_with, opt_text, same};

verus! {

/// The parts of a URL.
#[derive(Debug, Clone)]
pub struct ParsedUrl {
    pub scheme: String,
    pub host: Option<String>,
    /// The port, or the one that the scheme has by default.
    pub port: Option<u16>,
    /// User, host and port as they stand in the URL.
    pub authority: String,
    pub path: String,
}

/// The model of a URL.
#[verifier::ext_equal]
pub struct UrlView {
    pub scheme: Seq<char>,
    pub host: Option<Seq<char>>,
    pub port: Option<u16>,
    pub authority: Seq<char>,
    pub path: Seq<char>,
}

impl View for ParsedUrl {
    type V = UrlView;

    open spec fn view(&self) -> UrlView {
        UrlView {
            scheme: self.scheme@,
            host: opt_text(self.host),
            port: self.port,
            authority: self.authority@,
            path: self.path@,
        }
    }
}

/// The view of an optional URL.
pub open spec fn opt_url(v: Option<ParsedUrl>) -> Option<UrlView> {
    match v {
        Some(u) => Some(u@),
        None => None,
    }
}

/// What `url::Url::parse` makes of a text: the parts of the URL, or nothing where it is none.
pub uninterp spec fn url_parse(value: Seq<char>) -> Option<UrlView>;

pub open spec fn web_scheme(scheme: Seq<char>) -> bool {
    scheme == "http"@ || scheme == "https"@
}

/// The URL of a WebSocket that differs from a URL of the web in its scheme alone.
pub open spec fn socket_url(value: Seq<char>) -> Option<Seq<char>> {
    if begins_with(value, "http://"@) {
        Some("ws"@ + value.skip(4))
    } else if begins_with(value, "https://"@) {
        Some("wss"@ + value.skip(5))
    } else {
        None
    }
}

/// `url::Url::parse`, with the parts that `scheme`, `host_str`, `port_or_known_default`,
/// `authority` and `path` give of the URL. A URL with the scheme `http` or `https` has a host,
/// which is not empty, and a port. Where a text that begins with `http://` or `https://` is a URL,
/// so is the text with `ws` or `wss` in place of these schemes, and it has the same authority and
/// path: the four schemes are read alike, and each two have the same port by default.
#[verifier::external_body]
pub(crate) fn parse_url(value: &str) -> (r: Option<ParsedUrl>)
    ensures
        opt_url(r) == url_parse(value@),
        match r {
            Some(u) => web_scheme(u.scheme@) ==> u.host is Some && (u.host->0)@.len() > 0
                && u.port is Some,
            None => true,
        },
        r is Some && socket_url(value@) is Some ==> match url_parse(socket_url(value@)->0) {
            Some(socket) => socket.authority == (r->0).authority@ && socket.path
                == (r->0).path@,
            None => false,
        },
{
    let u = url::Url::parse(value).ok()?;
    Some(
        ParsedUrl {
            scheme: u.scheme().to_owned(),
            host: u.host_str().map(|h| h.to_owned()),
            port: u.port_or_known_default(),
            authority: u.authority().to_owned(),
            path: u.path().to_owned(),
        },
    )
}

/// The URL that a text is, where its scheme is `http` or `https`.
pub open spec fn web_url(value: Seq<char>) -> Option<UrlView> {
    match url_parse(value) {
        Some(u) => if web_scheme(u.scheme) {
            Some(u)
        } else {
            None
        },
        None => None,
    }
}

/// Whether the scheme is one of the web.
pub fn is_web_scheme(scheme: &str) -> (r: bool)
    ensures
        r == web_scheme(scheme@),
{
    same(scheme, "http") || same(scheme, "https")
}

/// The URL that a text is, where its scheme is `http` or `https`.
pub fn try_parse_http_url(value: &str) -> (r: Option<ParsedUrl>)
    ensures
        opt_url(r) == web_url(value@),
        match r {
            Some(u) => u.host is Some && (u.host->0)@.len() > 0 && u.port is Some,
            None => true,
        },
{
    match parse_url(value) {
        Some(u) => if is_web_scheme(u.scheme.as_str()) {
            Some(u)
        } else {
            None
        },
        None => None,
    }
}

/// A URL of the web is one that can be parsed and has the scheme `http` or `https`.
pub proof fn law_web_urls(value: Seq<char>)
    ensures
        url_parse(value) is None ==> web_url(value) is None,
        url_parse(value) is Some && ((url_parse(value)->0).scheme == "http"@ || (url_parse(
            value,
        )->0).scheme == "https"@) ==> web_url(value) == url_parse(value),
        url_parse(value) is Some && (url_parse(value)->0).scheme != "http"@ && (url_parse(
            value,
        )->0).scheme != "https"@ ==> web_url(value) is None,
{
}

} // verus!
