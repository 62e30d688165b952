//! Which traffic is captured: the scope that it must be in, and the filters that leave it out.
use vstd::prelude::*;
use vstd::string::StringExecFns;
use crate::config::{FilterConfigView, HttpRequestFilterConfig};
use crate::text::{
    begins_with, chars_of, contains, contains_char, ends_with, find_part, finishes_with,
    holds_part, lowercase, opt_str, opt_text, part_at, same, stands_at, starts_with, text_of,
    texts, trim, trimmed, uppercase,
};
use crate::weburl::{
    opt_url, parse_url, try_parse_http_url, url_parse, web_url, ParsedUrl, UrlView,
};

verus! {

/// What the filters look at.
#[derive(Debug, Clone)]
pub struct HttpRequestFilterInput {
    pub method: String,
    pub url: String,
    pub resource_type: String,
    pub mime_type: Option<String>,
    pub status_code: Option<u16>,
    pub has_response_body: Option<bool>,
    pub page_url: Option<String>,
}

/// The model of what the filters look at.
#[verifier::ext_equal]
pub struct FilterInputView {
    pub method: Seq<char>,
    pub url: Seq<char>,
    pub resource_type: Seq<char>,
    pub mime_type: Option<Seq<char>>,
    pub status_code: Option<u16>,
    pub has_response_body: Option<bool>,
    pub page_url: Option<Seq<char>>,
}

impl View for HttpRequestFilterInput {
    type V = FilterInputView;

    open spec fn view(&self) -> FilterInputView {
        FilterInputView {
            method: self.method@,
            url: self.url@,
            resource_type: self.resource_type@,
            mime_type: opt_text(self.mime_type),
            status_code: self.status_code,
            has_response_body: self.has_response_body,
            page_url: opt_text(self.page_url),
        }
    }
}

// ---------------------------------------------------------------------------
// Wildcards.
// ---------------------------------------------------------------------------

/// The text fits the pattern, in which `*` stands for any run of characters.
pub open spec fn glob(pattern: Seq<char>, text: Seq<char>) -> bool
    decreases pattern.len() + text.len(),
{
    if pattern.len() == 0 {
        text.len() == 0
    } else if pattern[0] == '*' {
        glob(pattern.drop_first(), text) || (text.len() > 0 && glob(pattern, text.drop_first()))
    } else {
        text.len() > 0 && text[0] == pattern[0] && glob(pattern.drop_first(), text.drop_first())
    }
}

spec fn star(q: Seq<char>) -> Seq<char> {
    seq!['*'] + q
}

proof fn lemma_glob_literal(p: Seq<char>, q: Seq<char>, t: Seq<char>)
    requires
        !p.contains('*'),
    ensures
        glob(p + q, t) <==> begins_with(t, p) && glob(q, t.skip(p.len() as int)),
    decreases p.len(),
{
    if p.len() == 0 {
        assert(p + q =~= q);
        assert(t.skip(0) =~= t);
        assert(t.take(0) =~= p);
    } else {
        assert(p.contains(p[0]));
        let p1 = p.drop_first();
        assert(!p1.contains('*')) by {
            if p1.contains('*') {
                let i = choose|i: int| 0 <= i < p1.len() && p1[i] == '*';
                assert(p[i + 1] == '*');
            }
        }
        assert((p + q).drop_first() =~= p1 + q);
        if t.len() > 0 {
            let t1 = t.drop_first();
            lemma_glob_literal(p1, q, t1);
            if p.len() <= t.len() {
                assert(t1.skip(p1.len() as int) =~= t.skip(p.len() as int));
            }
            if begins_with(t, p) {
                assert(t[0] == t.take(p.len() as int)[0]);
                assert(t1.take(p1.len() as int) =~= t.take(p.len() as int).drop_first());
            }
            if t[0] == p[0] && begins_with(t1, p1) {
                assert forall|j: int| 0 <= j < p.len() implies t[j] == p[j] by {
                    if j > 0 {
                        assert(t1.take(p1.len() as int)[j - 1] == p1[j - 1]);
                    }
                }
                assert(t.take(p.len() as int) =~= p);
            }
        }
    }
}

proof fn lemma_glob_star(q: Seq<char>, t: Seq<char>)
    ensures
        glob(star(q), t) <==> exists|k: int| 0 <= k <= t.len() && #[trigger] glob(q, t.skip(k)),
    decreases t.len(),
{
    assert(star(q).drop_first() =~= q);
    assert(t.skip(0) =~= t);
    assert(glob(q, t.skip(0)) == glob(q, t));
    if t.len() > 0 {
        let t1 = t.drop_first();
        lemma_glob_star(q, t1);
        if glob(star(q), t1) {
            let k = choose|k: int| 0 <= k <= t1.len() && #[trigger] glob(q, t1.skip(k));
            assert(t1.skip(k) =~= t.skip(k + 1));
        }
        if exists|k: int| 0 <= k <= t.len() && #[trigger] glob(q, t.skip(k)) {
            let k = choose|k: int| 0 <= k <= t.len() && #[trigger] glob(q, t.skip(k));
            if k > 0 {
                assert(t1.skip(k - 1) =~= t.skip(k));
            }
        }
    }
}

/// What a leading star lets pass, it lets pass after any further characters.
proof fn lemma_glob_star_later(q: Seq<char>, t: Seq<char>, k: int)
    requires
        0 <= k <= t.len(),
        glob(star(q), t.skip(k)),
    ensures
        glob(star(q), t),
{
    lemma_glob_star(q, t.skip(k));
    let m = choose|m: int| 0 <= m <= t.skip(k).len() && #[trigger] glob(q, t.skip(k).skip(m));
    assert(t.skip(k).skip(m) =~= t.skip(k + m));
    lemma_glob_star(q, t);
}

/// Between two stars it is enough to look at the first place where the literal stands.
proof fn lemma_glob_first(p: Seq<char>, q: Seq<char>, t: Seq<char>, i: int)
    requires
        !p.contains('*'),
        stands_at(t, p, i),
        forall|j: int| 0 <= j < i ==> !#[trigger] stands_at(t, p, j),
    ensures
        glob(star(p + star(q)), t) <==> glob(star(q), t.skip(i + p.len())),
{
    let pq = p + star(q);
    lemma_glob_star(pq, t);
    if glob(star(pq), t) {
        let k = choose|k: int| 0 <= k <= t.len() && #[trigger] glob(pq, t.skip(k));
        lemma_glob_literal(p, star(q), t.skip(k));
        assert(t.skip(k).take(p.len() as int) =~= t.subrange(k, k + p.len()));
        assert(stands_at(t, p, k));
        assert(i <= k);
        let u = t.skip(i + p.len());
        assert(t.skip(k).skip(p.len() as int) =~= u.skip(k - i));
        lemma_glob_star_later(q, u, k - i);
    }
    if glob(star(q), t.skip(i + p.len())) {
        let u = t.skip(i);
        assert(u.take(p.len() as int) =~= t.subrange(i, i + p.len()));
        assert(u.skip(p.len() as int) =~= t.skip(i + p.len()));
        lemma_glob_literal(p, star(q), u);
        assert(glob(pq, t.skip(i)));
    }
}

proof fn lemma_glob_nowhere(p: Seq<char>, q: Seq<char>, t: Seq<char>)
    requires
        !p.contains('*'),
        forall|j: int| 0 <= j ==> !#[trigger] stands_at(t, p, j),
    ensures
        !glob(star(p + star(q)), t),
{
    let pq = p + star(q);
    lemma_glob_star(pq, t);
    if glob(star(pq), t) {
        let k = choose|k: int| 0 <= k <= t.len() && #[trigger] glob(pq, t.skip(k));
        lemma_glob_literal(p, star(q), t.skip(k));
        assert(t.skip(k).take(p.len() as int) =~= t.subrange(k, k + p.len()));
        assert(stands_at(t, p, k));
    }
}

/// After the last star the literal must end the text.
proof fn lemma_glob_last(p: Seq<char>, t: Seq<char>)
    requires
        !p.contains('*'),
    ensures
        glob(star(p), t) <==> finishes_with(t, p),
{
    lemma_glob_star(p, t);
    let none = Seq::<char>::empty();
    assert(p + none =~= p);
    if glob(star(p), t) {
        let k = choose|k: int| 0 <= k <= t.len() && #[trigger] glob(p, t.skip(k));
        lemma_glob_literal(p, none, t.skip(k));
        assert(t.skip(k).skip(p.len() as int).len() == 0);
        assert(t.skip(k).take(p.len() as int) =~= t.skip(t.len() - p.len()));
    }
    if finishes_with(t, p) {
        let k = t.len() - p.len();
        lemma_glob_literal(p, none, t.skip(k));
        assert(t.skip(k).take(p.len() as int) =~= p);
        assert(t.skip(k).skip(p.len() as int) =~= none);
        assert(glob(p, t.skip(k)));
    }
}

proof fn lemma_glob_two_stars(q: Seq<char>, t: Seq<char>)
    ensures
        glob(star(star(q)), t) <==> glob(star(q), t),
{
    lemma_glob_star(star(q), t);
    assert(t.skip(0) =~= t);
    if glob(star(star(q)), t) {
        let k = choose|k: int| 0 <= k <= t.len() && #[trigger] glob(star(q), t.skip(k));
        lemma_glob_star_later(q, t, k);
    }
}

proof fn lemma_no_star(p: Seq<char>, from: int, to: int)
    requires
        0 <= from <= to <= p.len(),
        forall|j: int| from <= j < to ==> p[j] != '*',
    ensures
        !p.subrange(from, to).contains('*'),
{
    let s = p.subrange(from, to);
    if s.contains('*') {
        let i = choose|i: int| 0 <= i < s.len() && s[i] == '*';
        assert(p[from + i] == '*');
    }
}

/// The position of the next star at or after `from`, or the end of the pattern.
fn next_star(p: &[char], from: usize) -> (r: usize)
    requires
        from <= p@.len(),
    ensures
        from <= r <= p@.len(),
        forall|j: int| from <= j < r ==> p@[j] != '*',
        r < p@.len() ==> p@[r as int] == '*',
{
    let mut i: usize = from;
    while i < p.len() && p[i] != '*'
        invariant
            from <= i <= p@.len(),
            forall|j: int| from <= j < i ==> p@[j] != '*',
        decreases p@.len() - i,
    {
        i = i + 1;
    }
    i
}

/// Whether the text fits the pattern, in which `*` stands for any run of characters.
pub fn wildcard_match(pattern: &str, text: &str) -> (r: bool)
    ensures
        r == glob(pattern@, text@),
{
    let p = chars_of(pattern);
    let t = chars_of(text);
    let first: usize = next_star(p.as_slice(), 0);
    proof {
        lemma_no_star(p@, 0, first as int);
    }
    if first == p.len() {
        proof {
            let none = Seq::<char>::empty();
            assert(p@.subrange(0, first as int) =~= p@);
            lemma_glob_literal(p@, none, t@);
            assert(p@ + none =~= p@);
            if t@ == p@ {
                assert(t@.take(p@.len() as int) =~= p@);
            } else if begins_with(t@, p@) {
                assert(t@.skip(p@.len() as int).len() > 0) by {
                    if t@.len() == p@.len() {
                        assert(t@.take(p@.len() as int) =~= t@);
                    }
                }
            }
        }
        return same(text, pattern);
    }
    let head = text_of(p.as_slice(), 0, first);
    let head_chars = chars_of(head.as_str());
    proof {
        let q = p@.skip(first + 1);
        assert(p@ =~= head@ + star(q));
        lemma_glob_literal(head@, star(q), t@);
        assert(head@.len() <= t@.len() ==> t@.subrange(0, 0int + head@.len()) =~= t@.take(
            head@.len() as int,
        ));
    }
    if !part_at(t.as_slice(), head_chars.as_slice(), 0) {
        return false;
    }
    let mut pos: usize = first;
    let mut pi: usize = first + 1;
    loop
        invariant
            pi <= p@.len(),
            pos <= t@.len(),
            p@ == pattern@,
            t@ == text@,
            glob(pattern@, text@) == glob(star(p@.skip(pi as int)), t@.skip(pos as int)),
        decreases p@.len() - pi,
    {
        let e: usize = next_star(p.as_slice(), pi);
        let ghost part = p@.subrange(pi as int, e as int);
        let ghost rest = t@.skip(pos as int);
        proof {
            lemma_no_star(p@, pi as int, e as int);
        }
        let part_text = text_of(p.as_slice(), pi, e);
        let part_chars = chars_of(part_text.as_str());
        if e == p.len() {
            proof {
                assert(p@.skip(pi as int) =~= part);
                lemma_glob_last(part, rest);
                if finishes_with(rest, part) {
                    assert(t@.skip(t@.len() - part.len()) =~= rest.skip(
                        rest.len() - part.len(),
                    ));
                }
                if finishes_with(t@, part) && pos <= t@.len() - part.len() {
                    assert(rest.skip(rest.len() - part.len()) =~= t@.skip(
                        t@.len() - part.len(),
                    ));
                }
            }
            return ends_with(text, part_text.as_str()) && part_chars.len() <= t.len() && pos
                <= t.len() - part_chars.len();
        }
        let ghost q = p@.skip(e + 1);
        if pi == e {
            proof {
                assert(p@.skip(pi as int) =~= star(q));
                lemma_glob_two_stars(q, rest);
            }
            pi = e + 1;
            continue ;
        }
        proof {
            assert(p@.skip(pi as int) =~= part + star(q));
            assert forall|j: int| 0 <= j implies #[trigger] stands_at(rest, part, j) == stands_at(
                t@,
                part,
                pos + j,
            ) by {
                if j + part.len() <= rest.len() {
                    assert(rest.subrange(j, j + part.len()) =~= t@.subrange(
                        pos + j,
                        pos + j + part.len(),
                    ));
                }
            }
        }
        match find_part(t.as_slice(), part_chars.as_slice(), pos) {
            None => {
                proof {
                    assert forall|j: int| 0 <= j implies !#[trigger] stands_at(rest, part, j) by {
                        assert(!stands_at(t@, part, pos + j));
                    }
                    lemma_glob_nowhere(part, q, rest);
                }
                return false;
            },
            Some(found) => {
                proof {
                    let i = found - pos;
                    assert(stands_at(t@, part, pos + i));
                    assert forall|j: int| 0 <= j < i implies !#[trigger] stands_at(
                        rest,
                        part,
                        j,
                    ) by {
                        assert(!stands_at(t@, part, pos + j));
                    }
                    lemma_glob_first(part, q, rest, i);
                    assert(rest.skip(i + part.len()) =~= t@.skip(found + part.len()));
                }
                assert(found + part_chars@.len() <= t.len());
                pos = found + part_chars.len();
                pi = e + 1;
            },
        }
    }
}

// ---------------------------------------------------------------------------
// Scope.
// ---------------------------------------------------------------------------

/// The host fits the pattern: `*` is any host, `*.name` any host below `name`, and any other
/// pattern is the host itself.
pub open spec fn host_fits(host: Seq<char>, pattern: Seq<char>) -> bool {
    if pattern == "*"@ {
        true
    } else if begins_with(pattern, "*."@) {
        finishes_with(host, pattern.skip(1)) && host.len() > pattern.len() - 1
    } else {
        host == pattern
    }
}

/// The host fits the pattern, whatever the case of the letters.
pub open spec fn host_matches(hostname: Seq<char>, pattern: Seq<char>) -> bool {
    host_fits(lowercase(hostname), lowercase(pattern))
}

/// The path without a slash at its end; the root stays.
pub open spec fn plain_path(pathname: Seq<char>) -> Seq<char> {
    if pathname.len() == 0 || pathname == "/"@ {
        "/"@
    } else if pathname.last() == '/' {
        pathname.drop_last()
    } else {
        pathname
    }
}

/// The port of a URL, or the one that its scheme has by default.
pub open spec fn effective_port(url: UrlView) -> u16 {
    match url.port {
        Some(port) => port,
        None => if url.scheme == "https"@ {
            443
        } else {
            80
        },
    }
}

/// The URL lies at the base URL or below it.
pub open spec fn url_below(target: UrlView, base: UrlView) -> bool {
    &&& target.scheme == base.scheme
    &&& target.host == base.host
    &&& effective_port(target) == effective_port(base)
    &&& {
        let base_path = plain_path(base.path);
        let target_path = plain_path(target.path);
        ||| base_path == "/"@
        ||| target_path == base_path
        ||| begins_with(target_path, base_path + "/"@)
    }
}

/// A scope pattern takes the target in, where these are the web URLs that the two are, if they
/// are any: `*` takes everything in; a web URL what lies below it, or its host where the target
/// is no web URL; any other pattern is a host pattern. An empty pattern takes nothing in.
pub open spec fn pattern_takes_in(
    target: Seq<char>,
    target_url: Option<UrlView>,
    pattern: Seq<char>,
    pattern_url: Option<UrlView>,
) -> bool {
    &&& pattern.len() > 0
    &&& {
        ||| pattern == "*"@
        ||| match (pattern_url, target_url) {
            (Some(base), Some(url)) => url_below(url, base),
            (Some(base), None) => host_matches(target, match base.host {
                Some(host) => host,
                None => ""@,
            }),
            (None, Some(url)) => host_matches(match url.host {
                Some(host) => host,
                None => target,
            }, pattern),
            (None, None) => host_matches(target, pattern),
        }
    }
}

/// One entry of the scope, without white space around it, takes the target in.
pub open spec fn entry_takes_in(target: Seq<char>, entry: Seq<char>) -> bool {
    pattern_takes_in(target, web_url(target), trim(entry), web_url(trim(entry)))
}

/// The target is in scope: some entry takes it in.
pub open spec fn in_scope(target: Seq<char>, patterns: Seq<Seq<char>>) -> bool {
    exists|i: int| 0 <= i < patterns.len() && entry_takes_in(target, #[trigger] patterns[i])
}

/// Whether the host fits the pattern, the case of the letters as it is.
pub fn host_fits_pattern(host: &str, pattern: &str) -> (r: bool)
    ensures
        r == host_fits(host@, pattern@),
{
    if same(pattern, "*") {
        return true;
    }
    if starts_with(pattern, "*.") {
        let h = chars_of(host);
        let p = chars_of(pattern);
        proof {
            reveal_strlit("*.");
            assert(p@.take(2).len() == 2);
        }
        let suffix = text_of(p.as_slice(), 1, p.len());
        assert(suffix@ =~= p@.skip(1));
        return ends_with(host, suffix.as_str()) && h.len() > p.len() - 1;
    }
    same(host, pattern)
}

/// Whether the host fits the pattern.
pub fn hostname_matches_pattern(hostname: &str, pattern: &str) -> (r: bool)
    ensures
        r == host_matches(hostname@, pattern@),
{
    host_fits_pattern(hostname.to_lowercase().as_str(), pattern.to_lowercase().as_str())
}

/// The path without a slash at its end.
pub fn normalize_path(pathname: &str) -> (r: String)
    ensures
        r@ == plain_path(pathname@),
{
    let c = chars_of(pathname);
    if c.len() == 0 || same(pathname, "/") {
        return "/".to_owned();
    }
    if c[c.len() - 1] == '/' {
        assert(c@.subrange(0, c@.len() - 1) =~= c@.drop_last());
        text_of(c.as_slice(), 0, c.len() - 1)
    } else {
        pathname.to_owned()
    }
}

fn port_of(url: &ParsedUrl) -> (r: u16)
    ensures
        r == effective_port(url@),
{
    match url.port {
        Some(port) => port,
        None => if same(url.scheme.as_str(), "https") {
            443
        } else {
            80
        },
    }
}

fn same_host(a: &Option<String>, b: &Option<String>) -> (r: bool)
    ensures
        r == (opt_text(*a) == opt_text(*b)),
{
    match (a, b) {
        (Some(x), Some(y)) => same(x.as_str(), y.as_str()),
        (None, None) => true,
        _ => false,
    }
}

/// Whether the URL lies at the base URL or below it.
pub fn url_matches_base(target: &ParsedUrl, base: &ParsedUrl) -> (r: bool)
    ensures
        r == url_below(target@, base@),
{
    if !same(target.scheme.as_str(), base.scheme.as_str()) {
        return false;
    }
    if !same_host(&target.host, &base.host) {
        return false;
    }
    if port_of(target) != port_of(base) {
        return false;
    }
    let base_path = normalize_path(base.path.as_str());
    if same(base_path.as_str(), "/") {
        return true;
    }
    let target_path = normalize_path(target.path.as_str());
    if same(target_path.as_str(), base_path.as_str()) {
        return true;
    }
    let mut below = base_path;
    below.append("/");
    starts_with(target_path.as_str(), below.as_str())
}

/// Whether a scope pattern takes the target in, where these are the web URLs that the two are.
pub fn scope_pattern_matches(
    target: &str,
    target_url: &Option<ParsedUrl>,
    pattern: &str,
    pattern_url: &Option<ParsedUrl>,
) -> (r: bool)
    ensures
        r == pattern_takes_in(target@, opt_url(*target_url), pattern@, opt_url(*pattern_url)),
{
    if pattern.is_empty() {
        return false;
    }
    if same(pattern, "*") {
        return true;
    }
    match (pattern_url, target_url) {
        (Some(base), Some(url)) => url_matches_base(url, base),
        (Some(base), None) => match &base.host {
            Some(host) => hostname_matches_pattern(target, host.as_str()),
            None => hostname_matches_pattern(target, ""),
        },
        (None, Some(url)) => match &url.host {
            Some(host) => hostname_matches_pattern(host.as_str(), pattern),
            None => hostname_matches_pattern(target, pattern),
        },
        (None, None) => hostname_matches_pattern(target, pattern),
    }
}

/// Whether some entry of the scope takes the target in.
pub fn matches_scope(target: &str, patterns: &[String]) -> (r: bool)
    ensures
        r == in_scope(target@, texts(patterns@)),
{
    let target_url = try_parse_http_url(target);
    let mut i: usize = 0;
    while i < patterns.len()
        invariant
            i <= patterns@.len(),
            opt_url(target_url) == web_url(target@),
            forall|j: int|
                0 <= j < i ==> !entry_takes_in(target@, #[trigger] texts(patterns@)[j]),
        decreases patterns@.len() - i,
    {
        let pattern = trimmed(patterns[i].as_str());
        let pattern_url = try_parse_http_url(pattern.as_str());
        if scope_pattern_matches(target, &target_url, pattern.as_str(), &pattern_url) {
            assert(entry_takes_in(target@, texts(patterns@)[i as int]));
            return true;
        }
        i = i + 1;
    }
    false
}

/// A request is in scope where its page or its own URL is.
pub open spec fn request_in_scope(
    page_url: Option<Seq<char>>,
    request_url: Seq<char>,
    patterns: Seq<Seq<char>>,
) -> bool {
    ||| page_url is Some && in_scope(page_url->0, patterns)
    ||| in_scope(request_url, patterns)
}

/// Whether the page of a request or its own URL is in scope.
pub fn matches_http_request_scope(
    page_url: Option<&str>,
    request_url: &str,
    patterns: &[String],
) -> (r: bool)
    ensures
        r == request_in_scope(opt_str(page_url), request_url@, texts(patterns@)),
{
    if let Some(page) = page_url {
        if matches_scope(page, patterns) {
            return true;
        }
    }
    matches_scope(request_url, patterns)
}

// ---------------------------------------------------------------------------
// Filters.
// ---------------------------------------------------------------------------

/// The name of a method as it is compared.
pub open spec fn method_key(method: Seq<char>) -> Seq<char> {
    uppercase(trim(method))
}

/// Methods are listed, and the method is not among them.
pub open spec fn method_left_out(method: Seq<char>, include_methods: Seq<Seq<char>>) -> bool {
    include_methods.len() > 0 && !exists|i: int|
        0 <= i < include_methods.len() && method_key(#[trigger] include_methods[i]) == method_key(
            method,
        )
}

/// The resource type is among those that are left out.
pub open spec fn type_left_out(resource_type: Seq<char>, excluded: Seq<Seq<char>>) -> bool {
    exists|i: int|
        0 <= i < excluded.len() && lowercase(#[trigger] excluded[i]) == lowercase(
            trim(resource_type),
        )
}

/// The path of a URL in lowercase; a text that is no URL stands for its own path.
pub open spec fn pathname(url: Seq<char>) -> Seq<char> {
    match url_parse(url) {
        Some(u) => lowercase(u.path),
        None => lowercase(url),
    }
}

/// A file extension in lowercase with its dot.
pub open spec fn dotted(ext: Seq<char>) -> Seq<char> {
    if ext.len() > 0 && ext[0] == '.' {
        lowercase(ext)
    } else {
        "."@ + lowercase(ext)
    }
}

/// The path ends with one of the extensions that are left out.
pub open spec fn path_left_out(path: Seq<char>, excluded: Seq<Seq<char>>) -> bool {
    exists|i: int|
        0 <= i < excluded.len() && finishes_with(path, dotted(#[trigger] excluded[i]))
}

/// The path of the URL ends with one of the extensions that are left out.
pub open spec fn extension_left_out(url: Seq<char>, excluded: Seq<Seq<char>>) -> bool {
    path_left_out(pathname(url), excluded)
}

/// The media type fits the pattern: a pattern that ends with `*` is a prefix, any other the type
/// itself, and an empty one fits nothing.
pub open spec fn mime_fits_plain(pattern: Seq<char>, mime: Seq<char>) -> bool {
    if pattern.len() == 0 {
        false
    } else if pattern.last() == '*' {
        begins_with(mime, pattern.drop_last())
    } else {
        mime == pattern
    }
}

/// The media type fits the pattern, whatever the case of the letters and the white space around
/// them.
pub open spec fn mime_fits(pattern: Seq<char>, mime_type: Seq<char>) -> bool {
    mime_fits_plain(lowercase(trim(pattern)), lowercase(trim(mime_type)))
}

/// The URL fits the pattern: a pattern with `*` fits the whole URL, any other must stand
/// somewhere in it, and an empty one fits nothing.
pub open spec fn url_fits_plain(pattern: Seq<char>, url: Seq<char>) -> bool {
    if pattern.len() == 0 {
        false
    } else if pattern.contains('*') {
        glob(pattern, url)
    } else {
        holds_part(url, pattern)
    }
}

/// The URL fits the pattern, whatever the case of the letters.
pub open spec fn url_fits(pattern: Seq<char>, url: Seq<char>) -> bool {
    url_fits_plain(lowercase(trim(pattern)), lowercase(url))
}

/// The media type fits one of the patterns that are left out.
pub open spec fn mime_left_out(mime_type: Seq<char>, excluded: Seq<Seq<char>>) -> bool {
    exists|i: int| 0 <= i < excluded.len() && mime_fits(#[trigger] excluded[i], mime_type)
}

/// The URL fits one of the patterns that are left out.
pub open spec fn url_left_out(url: Seq<char>, excluded: Seq<Seq<char>>) -> bool {
    exists|i: int| 0 <= i < excluded.len() && url_fits(#[trigger] excluded[i], url)
}

/// The response is known to have no body, and its status says so.
pub open spec fn empty_response(status_code: Option<u16>, has_response_body: Option<bool>) -> bool {
    (status_code == Some(204u16) || status_code == Some(304u16)) && has_response_body == Some(false)
}

/// The filters leave the request out.
pub open spec fn left_out(input: FilterInputView, filters: FilterConfigView) -> bool {
    ||| method_left_out(input.method, filters.include_methods)
    ||| type_left_out(input.resource_type, filters.exclude_resource_types)
    ||| extension_left_out(input.url, filters.exclude_extensions)
    ||| input.mime_type is Some && mime_left_out(input.mime_type->0, filters.exclude_mime_types)
    ||| url_left_out(input.url, filters.exclude_url_patterns)
    ||| filters.skip_requests_without_origin && input.page_url is None && input.resource_type
        != "main_frame"@
    ||| filters.skip_empty_responses && empty_response(
        input.status_code,
        input.has_response_body,
    )
}

/// The name of a method as it is compared.
pub fn normalize_method(method: &str) -> (r: String)
    ensures
        r@ == method_key(method@),
{
    trimmed(method).as_str().to_uppercase()
}

/// The path of a URL in lowercase.
pub fn url_pathname(url: &str) -> (r: String)
    ensures
        r@ == pathname(url@),
{
    match parse_url(url) {
        Some(u) => u.path.as_str().to_lowercase(),
        None => url.to_lowercase(),
    }
}

/// Whether the media type fits the pattern, the case of the letters as it is.
pub fn mime_fits_pattern(pattern: &str, mime: &str) -> (r: bool)
    ensures
        r == mime_fits_plain(pattern@, mime@),
{
    let p = chars_of(pattern);
    if p.len() == 0 {
        return false;
    }
    if p[p.len() - 1] == '*' {
        let prefix = text_of(p.as_slice(), 0, p.len() - 1);
        assert(prefix@ =~= p@.drop_last());
        return starts_with(mime, prefix.as_str());
    }
    same(mime, pattern)
}

/// Whether the media type fits the pattern.
pub fn mime_matches(pattern: &str, mime_type: &str) -> (r: bool)
    ensures
        r == mime_fits(pattern@, mime_type@),
{
    mime_fits_pattern(
        trimmed(pattern).as_str().to_lowercase().as_str(),
        trimmed(mime_type).as_str().to_lowercase().as_str(),
    )
}

/// Whether the URL fits the pattern, the case of the letters as it is.
pub fn url_fits_pattern(pattern: &str, url: &str) -> (r: bool)
    ensures
        r == url_fits_plain(pattern@, url@),
{
    if pattern.is_empty() {
        return false;
    }
    if contains_char(pattern, '*') {
        return wildcard_match(pattern, url);
    }
    contains(url, pattern)
}

/// Whether the URL fits the pattern.
pub fn url_matches_pattern(pattern: &str, url: &str) -> (r: bool)
    ensures
        r == url_fits(pattern@, url@),
{
    url_fits_pattern(
        trimmed(pattern).as_str().to_lowercase().as_str(),
        url.to_lowercase().as_str(),
    )
}

fn wrong_method(method: &str, include_methods: &[String]) -> (r: bool)
    ensures
        r == method_left_out(method@, texts(include_methods@)),
{
    if include_methods.len() == 0 {
        return false;
    }
    let key = normalize_method(method);
    let mut i: usize = 0;
    while i < include_methods.len()
        invariant
            i <= include_methods@.len(),
            key@ == method_key(method@),
            forall|j: int|
                0 <= j < i ==> method_key(#[trigger] texts(include_methods@)[j]) != key@,
        decreases include_methods@.len() - i,
    {
        if same(normalize_method(include_methods[i].as_str()).as_str(), key.as_str()) {
            assert(method_key(texts(include_methods@)[i as int]) == key@);
            return false;
        }
        i = i + 1;
    }
    true
}

fn excluded_type(resource_type: &str, excluded: &[String]) -> (r: bool)
    ensures
        r == type_left_out(resource_type@, texts(excluded@)),
{
    let key = trimmed(resource_type).as_str().to_lowercase();
    let mut i: usize = 0;
    while i < excluded.len()
        invariant
            i <= excluded@.len(),
            key@ == lowercase(trim(resource_type@)),
            forall|j: int| 0 <= j < i ==> lowercase(#[trigger] texts(excluded@)[j]) != key@,
        decreases excluded@.len() - i,
    {
        if same(excluded[i].as_str().to_lowercase().as_str(), key.as_str()) {
            assert(lowercase(texts(excluded@)[i as int]) == key@);
            return true;
        }
        i = i + 1;
    }
    false
}

fn dotted_text(ext: &str) -> (r: String)
    ensures
        r@ == dotted(ext@),
{
    let c = chars_of(ext);
    if c.len() > 0 && c[0] == '.' {
        ext.to_lowercase()
    } else {
        let mut s = ".".to_owned();
        s.append(ext.to_lowercase().as_str());
        s
    }
}

/// Whether a path ends with one of the extensions that are left out.
pub fn path_excluded(path: &str, excluded: &[String]) -> (r: bool)
    ensures
        r == path_left_out(path@, texts(excluded@)),
{
    let mut i: usize = 0;
    while i < excluded.len()
        invariant
            i <= excluded@.len(),
            forall|j: int|
                0 <= j < i ==> !finishes_with(path@, dotted(#[trigger] texts(excluded@)[j])),
        decreases excluded@.len() - i,
    {
        if ends_with(path, dotted_text(excluded[i].as_str()).as_str()) {
            assert(finishes_with(path@, dotted(texts(excluded@)[i as int])));
            return true;
        }
        i = i + 1;
    }
    false
}

fn excluded_extension(url: &str, excluded: &[String]) -> (r: bool)
    ensures
        r == extension_left_out(url@, texts(excluded@)),
{
    path_excluded(url_pathname(url).as_str(), excluded)
}

fn excluded_mime(mime_type: &str, excluded: &[String]) -> (r: bool)
    ensures
        r == mime_left_out(mime_type@, texts(excluded@)),
{
    let mut i: usize = 0;
    while i < excluded.len()
        invariant
            i <= excluded@.len(),
            forall|j: int| 0 <= j < i ==> !mime_fits(#[trigger] texts(excluded@)[j], mime_type@),
        decreases excluded@.len() - i,
    {
        if mime_matches(excluded[i].as_str(), mime_type) {
            assert(mime_fits(texts(excluded@)[i as int], mime_type@));
            return true;
        }
        i = i + 1;
    }
    false
}

fn excluded_url(url: &str, excluded: &[String]) -> (r: bool)
    ensures
        r == url_left_out(url@, texts(excluded@)),
{
    let mut i: usize = 0;
    while i < excluded.len()
        invariant
            i <= excluded@.len(),
            forall|j: int| 0 <= j < i ==> !url_fits(#[trigger] texts(excluded@)[j], url@),
        decreases excluded@.len() - i,
    {
        if url_matches_pattern(excluded[i].as_str(), url) {
            assert(url_fits(texts(excluded@)[i as int], url@));
            return true;
        }
        i = i + 1;
    }
    false
}

/// Whether the filters leave the request out.
pub fn should_filter_http_request(
    input: &HttpRequestFilterInput,
    filters: &HttpRequestFilterConfig,
) -> (r: bool)
    ensures
        r == left_out(input@, filters@),
{
    if wrong_method(input.method.as_str(), filters.include_methods.as_slice()) {
        return true;
    }
    if excluded_type(input.resource_type.as_str(), filters.exclude_resource_types.as_slice()) {
        return true;
    }
    if excluded_extension(input.url.as_str(), filters.exclude_extensions.as_slice()) {
        return true;
    }
    if let Some(mime_type) = &input.mime_type {
        if excluded_mime(mime_type.as_str(), filters.exclude_mime_types.as_slice()) {
            return true;
        }
    }
    if excluded_url(input.url.as_str(), filters.exclude_url_patterns.as_slice()) {
        return true;
    }
    if filters.skip_requests_without_origin && input.page_url.is_none() && !same(
        input.resource_type.as_str(),
        "main_frame",
    ) {
        return true;
    }
    if filters.skip_empty_responses {
        let status: u16 = match input.status_code {
            Some(code) => code,
            None => 0,
        };
        if (status == 204 || status == 304) && input.has_response_body == Some(false) {
            return true;
        }
    }
    false
}

// ---------------------------------------------------------------------------
// Laws.
// ---------------------------------------------------------------------------

/// A scope with an entry `*` takes everything in.
pub proof fn law_star_takes_everything_in(target: Seq<char>, patterns: Seq<Seq<char>>, i: int)
    requires
        0 <= i < patterns.len(),
        trim(patterns[i]) == "*"@,
    ensures
        in_scope(target, patterns),
{
    reveal_strlit("*");
    assert(entry_takes_in(target, patterns[i]));
}

/// A scope without entries, or with empty ones alone, takes nothing in.
pub proof fn law_empty_scope_takes_nothing_in(target: Seq<char>, patterns: Seq<Seq<char>>)
    requires
        forall|i: int| 0 <= i < patterns.len() ==> trim(#[trigger] patterns[i]).len() == 0,
    ensures
        !in_scope(target, patterns),
{
}

/// What is in scope stays in scope when entries are added, in whatever place.
pub proof fn law_more_entries_take_more_in(
    target: Seq<char>,
    before: Seq<Seq<char>>,
    patterns: Seq<Seq<char>>,
    behind: Seq<Seq<char>>,
)
    requires
        in_scope(target, patterns),
    ensures
        in_scope(target, before + patterns + behind),
{
    let i = choose|i: int| 0 <= i < patterns.len() && entry_takes_in(target, #[trigger] patterns[i]);
    let all = before + patterns + behind;
    assert(all[before.len() + i] == patterns[i]);
}

/// A web URL is in a scope that has it as an entry.
pub proof fn law_url_is_in_its_own_scope(url: Seq<char>, patterns: Seq<Seq<char>>, i: int)
    requires
        0 <= i < patterns.len(),
        trim(patterns[i]) == url,
        url.len() > 0,
        web_url(url) is Some,
    ensures
        in_scope(url, patterns),
{
    assert(url_below(web_url(url)->0, web_url(url)->0));
    assert(entry_takes_in(url, patterns[i]));
}

/// What the filters leave out before there is a response they leave out with every response.
pub proof fn law_response_undoes_no_filter(
    input: FilterInputView,
    mime_type: Option<Seq<char>>,
    status_code: Option<u16>,
    has_response_body: Option<bool>,
    filters: FilterConfigView,
)
    requires
        input.mime_type is None,
        input.status_code is None,
        left_out(input, filters),
    ensures
        left_out(
            FilterInputView { mime_type, status_code, has_response_body, ..input },
            filters,
        ),
{
}

/// Two lists have the same entries, in whatever order and however often.
pub open spec fn same_entries(a: Seq<Seq<char>>, b: Seq<Seq<char>>) -> bool {
    forall|entry: Seq<char>| #[trigger] a.contains(entry) <==> b.contains(entry)
}

/// A list with all entries of another one.
pub open spec fn all_entries_of(a: Seq<Seq<char>>, b: Seq<Seq<char>>) -> bool {
    forall|entry: Seq<char>| #[trigger] a.contains(entry) ==> b.contains(entry)
}

/// A URL pattern without a star leaves a request out, at whatever place of the list it stands,
/// where it stands anywhere in the URL, whatever the case of the letters.
pub proof fn law_url_pattern_leaves_out(
    input: FilterInputView,
    filters: FilterConfigView,
    i: int,
    before: Seq<char>,
    part: Seq<char>,
    behind: Seq<char>,
)
    requires
        0 <= i < filters.exclude_url_patterns.len(),
        lowercase(trim(filters.exclude_url_patterns[i])) == part,
        part.len() > 0,
        !part.contains('*'),
        lowercase(input.url) == before + part + behind,
    ensures
        left_out(input, filters),
{
    let n = before.len() as int;
    assert(lowercase(input.url).subrange(n, n + part.len()) =~= part);
    assert(stands_at(lowercase(input.url), part, n));
    assert(url_fits(filters.exclude_url_patterns[i], input.url));
}

/// A URL pattern with a star leaves a request out, at whatever place of the list it stands, where
/// the URL begins as the pattern does before the star and ends as it does behind it.
pub proof fn law_url_pattern_with_star_leaves_out(
    input: FilterInputView,
    filters: FilterConfigView,
    i: int,
    start: Seq<char>,
    between: Seq<char>,
    end: Seq<char>,
)
    requires
        0 <= i < filters.exclude_url_patterns.len(),
        lowercase(trim(filters.exclude_url_patterns[i])) == start + seq!['*'] + end,
        !start.contains('*'),
        !end.contains('*'),
        lowercase(input.url) == start + between + end,
    ensures
        left_out(input, filters),
{
    let p = start + seq!['*'] + end;
    law_star_stands_for_anything(start, end, between, end);
    law_pattern_without_star_is_the_text(end, end);
    assert(p[start.len() as int] == '*');
    assert(url_fits(filters.exclude_url_patterns[i], input.url));
}

/// A pattern without a star fits the text that it is, and no other.
pub proof fn law_pattern_without_star_is_the_text(pattern: Seq<char>, text: Seq<char>)
    requires
        !pattern.contains('*'),
    ensures
        glob(pattern, text) <==> pattern == text,
    decreases pattern.len(),
{
    if pattern.len() > 0 {
        assert(pattern.contains(pattern[0]));
        let p = pattern.drop_first();
        assert(!p.contains('*')) by {
            if p.contains('*') {
                let i = choose|i: int| 0 <= i < p.len() && p[i] == '*';
                assert(pattern[i + 1] == '*');
            }
        }
        if text.len() > 0 {
            law_pattern_without_star_is_the_text(p, text.drop_first());
            if text[0] == pattern[0] && p == text.drop_first() {
                assert(seq![pattern[0]] + p =~= pattern);
                assert(seq![text[0]] + text.drop_first() =~= text);
            }
            if pattern == text {
                assert(p =~= text.drop_first());
            }
        }
    } else {
        assert(pattern == text <==> text.len() == 0) by {
            if text.len() == 0 {
                assert(pattern =~= text);
            }
        }
    }
}

/// A star stands for any run of characters, an empty one too: what is before it must begin the
/// text, and what is behind it must fit some end of what is left.
pub proof fn law_star_stands_for_anything(
    start: Seq<char>,
    rest: Seq<char>,
    between: Seq<char>,
    end: Seq<char>,
)
    requires
        !start.contains('*'),
    ensures
        glob(rest, end) ==> glob(start + seq!['*'] + rest, start + between + end),
        forall|text: Seq<char>| #[trigger]
            glob(start + seq!['*'] + rest, text) ==> begins_with(text, start) && exists|k: int|
                start.len() <= k <= text.len() && #[trigger] glob(rest, text.skip(k)),
{
    let p = start + seq!['*'] + rest;
    assert(p =~= start + star(rest));
    let text = start + between + end;
    let t = text.skip(start.len() as int);
    assert(t =~= between + end);
    assert(text.take(start.len() as int) =~= start);
    lemma_glob_literal(start, star(rest), text);
    lemma_glob_star(rest, t);
    assert(t.skip(between.len() as int) =~= end);
    if glob(rest, end) {
        assert(glob(rest, t.skip(between.len() as int)));
    }
    assert forall|text: Seq<char>| #[trigger] glob(p, text) implies begins_with(text, start)
        && exists|k: int|
        start.len() <= k <= text.len() && #[trigger] glob(rest, text.skip(k)) by {
        lemma_glob_literal(start, star(rest), text);
        let t = text.skip(start.len() as int);
        lemma_glob_star(rest, t);
        let k = choose|k: int| 0 <= k <= t.len() && #[trigger] glob(rest, t.skip(k));
        assert(t.skip(k) =~= text.skip(start.len() + k));
        assert(glob(rest, text.skip(start.len() + k)));
    }
}

/// A request is left out where its path, in lowercase, ends with a dot and the name of an
/// extension of the list, at whatever place it stands there, with or without its dot.
pub proof fn law_extension_leaves_out(
    input: FilterInputView,
    filters: FilterConfigView,
    i: int,
    path: Seq<char>,
    before: Seq<char>,
)
    requires
        0 <= i < filters.exclude_extensions.len(),
        url_parse(input.url) is Some ==> path == lowercase((url_parse(input.url)->0).path),
        url_parse(input.url) is None ==> path == lowercase(input.url),
        ({
            let ext = filters.exclude_extensions[i];
            if ext.len() > 0 && ext[0] == '.' {
                path == before + lowercase(ext)
            } else {
                path == before + seq!['.'] + lowercase(ext)
            }
        }),
    ensures
        left_out(input, filters),
{
    reveal_strlit(".");
    let ext = filters.exclude_extensions[i];
    let tail = dotted(ext);
    assert("."@ =~= seq!['.']);
    assert(path =~= before + tail);
    assert(path.skip(path.len() - tail.len()) =~= tail);
    assert(finishes_with(pathname(input.url), dotted(filters.exclude_extensions[i])));
}

/// A request whose media type is known is left out where an entry of the list, in whatever place,
/// is that type, or its beginning with a star behind it.
pub proof fn law_media_type_leaves_out(
    input: FilterInputView,
    filters: FilterConfigView,
    i: int,
    behind: Seq<char>,
)
    requires
        0 <= i < filters.exclude_mime_types.len(),
        input.mime_type is Some,
        ({
            let mime = lowercase(trim(input.mime_type->0));
            let entry = lowercase(trim(filters.exclude_mime_types[i]));
            ||| entry == mime && entry.len() > 0 && entry.last() != '*'
            ||| entry.len() > 0 && entry.last() == '*' && mime == entry.drop_last() + behind
        }),
    ensures
        left_out(input, filters),
{
    let mime = lowercase(trim(input.mime_type->0));
    let entry = lowercase(trim(filters.exclude_mime_types[i]));
    if entry.last() == '*' && mime == entry.drop_last() + behind {
        assert(mime.take(entry.drop_last().len() as int) =~= entry.drop_last());
    }
    assert(mime_fits(filters.exclude_mime_types[i], input.mime_type->0));
}

/// A request is left out where its resource type is an entry of the list, in whatever place, and
/// where methods are listed and its own is not one of them, whatever the case of the letters.
pub proof fn law_type_and_method_leave_out(
    input: FilterInputView,
    filters: FilterConfigView,
    i: int,
)
    ensures
        0 <= i < filters.exclude_resource_types.len() && lowercase(
            filters.exclude_resource_types[i],
        ) == lowercase(trim(input.resource_type)) ==> left_out(input, filters),
        filters.include_methods.len() > 0 && (forall|j: int|
            0 <= j < filters.include_methods.len() ==> uppercase(
                trim(#[trigger] filters.include_methods[j]),
            ) != uppercase(trim(input.method))) ==> left_out(input, filters),
{
}

/// A request that no page is known for is left out, unless it loads a page itself, where the
/// settings say so; and a response without a body, where its status is 204 or 304.
pub proof fn law_skipped_kinds_are_left_out(input: FilterInputView, filters: FilterConfigView)
    ensures
        filters.skip_requests_without_origin && input.page_url is None && input.resource_type
            != "main_frame"@ ==> left_out(input, filters),
        filters.skip_empty_responses && input.status_code == Some(204u16)
            && input.has_response_body == Some(false) ==> left_out(input, filters),
        filters.skip_empty_responses && input.status_code == Some(304u16)
            && input.has_response_body == Some(false) ==> left_out(input, filters),
{
}

/// Settings that list nothing and skip nothing leave nothing out.
pub proof fn law_empty_filters_leave_nothing_out(input: FilterInputView, filters: FilterConfigView)
    requires
        filters.include_methods.len() == 0,
        filters.exclude_resource_types.len() == 0,
        filters.exclude_extensions.len() == 0,
        filters.exclude_mime_types.len() == 0,
        filters.exclude_url_patterns.len() == 0,
        !filters.skip_requests_without_origin,
        !filters.skip_empty_responses,
    ensures
        !left_out(input, filters),
{
}

/// What is left out has a reason: it is left out too by settings that keep one of the lists, or one
/// of the switches, and nothing else.
pub proof fn law_one_filter_is_the_reason(input: FilterInputView, filters: FilterConfigView)
    ensures
        ({
            let none = Seq::<Seq<char>>::empty();
            let empty = FilterConfigView {
                exclude_resource_types: none,
                exclude_extensions: none,
                exclude_mime_types: none,
                exclude_url_patterns: none,
                include_methods: none,
                skip_empty_responses: false,
                skip_requests_without_origin: false,
            };
            left_out(input, filters) <==> {
                ||| left_out(
                    input,
                    (FilterConfigView { include_methods: filters.include_methods, ..empty }),
                )
                ||| left_out(
                    input,
                    (FilterConfigView {
                        exclude_resource_types: filters.exclude_resource_types,
                        ..empty
                    }),
                )
                ||| left_out(
                    input,
                    (FilterConfigView { exclude_extensions: filters.exclude_extensions, ..empty }),
                )
                ||| left_out(
                    input,
                    (FilterConfigView { exclude_mime_types: filters.exclude_mime_types, ..empty }),
                )
                ||| left_out(
                    input,
                    (FilterConfigView {
                        exclude_url_patterns: filters.exclude_url_patterns,
                        ..empty
                    }),
                )
                ||| left_out(
                    input,
                    (FilterConfigView {
                        skip_empty_responses: filters.skip_empty_responses,
                        ..empty
                    }),
                )
                ||| left_out(
                    input,
                    (FilterConfigView {
                        skip_requests_without_origin: filters.skip_requests_without_origin,
                        ..empty
                    }),
                )
            }
        }),
{
}

/// What each list leaves out alone is what one of its entries stands for, and nothing else.
pub proof fn law_single_list_leaves_out_its_entries(
    input: FilterInputView,
    filters: FilterConfigView,
    entry: Seq<char>,
)
    requires
        filters.include_methods.len() == 0,
        !filters.skip_requests_without_origin,
        !filters.skip_empty_responses,
    ensures
        ({
            let none = Seq::<Seq<char>>::empty();
            let types = filters.exclude_resource_types;
            let exts = filters.exclude_extensions;
            let mimes = filters.exclude_mime_types;
            let urls = filters.exclude_url_patterns;
            let path = if url_parse(input.url) is Some {
                lowercase((url_parse(input.url)->0).path)
            } else {
                lowercase(input.url)
            };
            let part = lowercase(trim(entry));
            &&& types == seq![entry] && exts == none && mimes == none && urls == none ==> (left_out(
                input,
                filters,
            ) <==> lowercase(entry) == lowercase(trim(input.resource_type)))
            &&& types == none && exts == none && mimes == none && urls == seq![entry] && part.len()
                == 0 ==> !left_out(input, filters)
            &&& types == none && exts == none && mimes == none && urls == seq![entry] && part.len()
                > 0 && !part.contains('*') ==> (left_out(input, filters) <==> exists|k: int|
                0 <= k && k + part.len() <= lowercase(input.url).len() && #[trigger] lowercase(
                    input.url,
                ).subrange(k, k + part.len()) == part)
            &&& types == none && exts == none && mimes == seq![entry] && urls == none && (
            input.mime_type is None || part.len() == 0) ==> !left_out(input, filters)
            &&& types == none && exts == none && mimes == seq![entry] && urls == none
                && input.mime_type is Some && part.len() > 0 ==> (left_out(input, filters) <==> {
                let mime = lowercase(trim(input.mime_type->0));
                if part.last() == '*' {
                    begins_with(mime, part.drop_last())
                } else {
                    mime == part
                }
            })
            &&& types == none && exts == seq![entry] && mimes == none && urls == none && entry.len()
                > 0 && entry[0] == '.' ==> (left_out(input, filters) <==> finishes_with(
                path,
                lowercase(entry),
            ))
            &&& types == none && exts == seq![entry] && mimes == none && urls == none && !(
            entry.len() > 0 && entry[0] == '.') ==> (left_out(input, filters) <==> finishes_with(
                path,
                seq!['.'] + lowercase(entry),
            ))
        }),
{
    reveal_strlit(".");
    assert("."@ =~= seq!['.']);
    let one = seq![entry];
    assert(one[0] == entry);
    let url = lowercase(input.url);
    let part = lowercase(trim(entry));
    if filters.exclude_url_patterns == one && part.len() > 0 && !part.contains('*') {
        if left_out(input, filters) && filters.exclude_resource_types.len() == 0
            && filters.exclude_extensions.len() == 0 && filters.exclude_mime_types.len() == 0 {
            assert(url_fits(one[0], input.url));
            let k = choose|k: int| #[trigger] stands_at(url, part, k);
            assert(url.subrange(k, k + part.len()) == part);
        }
        if exists|k: int|
            0 <= k && k + part.len() <= url.len() && #[trigger] url.subrange(k, k + part.len())
                == part {
            let k = choose|k: int|
                0 <= k && k + part.len() <= url.len() && #[trigger] url.subrange(
                    k,
                    k + part.len(),
                ) == part;
            assert(stands_at(url, part, k));
            assert(url_fits(one[0], input.url));
        }
    }
}

/// What the filters leave out they leave out with more entries too, wherever these are added to
/// the lists of what is left out.
pub proof fn law_more_exclusions_leave_more_out(
    input: FilterInputView,
    filters: FilterConfigView,
    more: FilterConfigView,
)
    requires
        left_out(input, filters),
        all_entries_of(filters.exclude_resource_types, more.exclude_resource_types),
        all_entries_of(filters.exclude_extensions, more.exclude_extensions),
        all_entries_of(filters.exclude_mime_types, more.exclude_mime_types),
        all_entries_of(filters.exclude_url_patterns, more.exclude_url_patterns),
        same_entries(filters.include_methods, more.include_methods),
        filters.skip_empty_responses ==> more.skip_empty_responses,
        filters.skip_requests_without_origin ==> more.skip_requests_without_origin,
    ensures
        left_out(input, more),
{
    if method_left_out(input.method, filters.include_methods) {
        let a = filters.include_methods;
        let b = more.include_methods;
        assert(a.contains(a[0]));
        assert(b.contains(a[0]));
        assert forall|i: int| 0 <= i < b.len() implies method_key(#[trigger] b[i]) != method_key(
            input.method,
        ) by {
            assert(b.contains(b[i]));
            assert(a.contains(b[i]));
            let j = choose|j: int| 0 <= j < a.len() && a[j] == b[i];
            assert(method_key(a[j]) != method_key(input.method));
        }
    }
    if type_left_out(input.resource_type, filters.exclude_resource_types) {
        let (a, b) = (filters.exclude_resource_types, more.exclude_resource_types);
        let i = choose|i: int|
            0 <= i < a.len() && lowercase(#[trigger] a[i]) == lowercase(trim(input.resource_type));
        assert(a.contains(a[i]));
        assert(b.contains(a[i]));
        let j = choose|j: int| 0 <= j < b.len() && b[j] == a[i];
        assert(lowercase(b[j]) == lowercase(trim(input.resource_type)));
    }
    if extension_left_out(input.url, filters.exclude_extensions) {
        let (a, b) = (filters.exclude_extensions, more.exclude_extensions);
        let i = choose|i: int|
            0 <= i < a.len() && finishes_with(pathname(input.url), dotted(#[trigger] a[i]));
        assert(a.contains(a[i]));
        assert(b.contains(a[i]));
        let j = choose|j: int| 0 <= j < b.len() && b[j] == a[i];
        assert(finishes_with(pathname(input.url), dotted(b[j])));
    }
    if input.mime_type is Some && mime_left_out(input.mime_type->0, filters.exclude_mime_types) {
        let (a, b) = (filters.exclude_mime_types, more.exclude_mime_types);
        let i = choose|i: int| 0 <= i < a.len() && mime_fits(#[trigger] a[i], input.mime_type->0);
        assert(a.contains(a[i]));
        assert(b.contains(a[i]));
        let j = choose|j: int| 0 <= j < b.len() && b[j] == a[i];
        assert(mime_fits(b[j], input.mime_type->0));
    }
    if url_left_out(input.url, filters.exclude_url_patterns) {
        let (a, b) = (filters.exclude_url_patterns, more.exclude_url_patterns);
        let i = choose|i: int| 0 <= i < a.len() && url_fits(#[trigger] a[i], input.url);
        assert(a.contains(a[i]));
        assert(b.contains(a[i]));
        let j = choose|j: int| 0 <= j < b.len() && b[j] == a[i];
        assert(url_fits(b[j], input.url));
    }
}

/// The order of the entries does not matter, nor how often one stands in its list.
pub proof fn law_order_of_filters_does_not_matter(
    input: FilterInputView,
    a: FilterConfigView,
    b: FilterConfigView,
)
    requires
        same_entries(a.exclude_resource_types, b.exclude_resource_types),
        same_entries(a.exclude_extensions, b.exclude_extensions),
        same_entries(a.exclude_mime_types, b.exclude_mime_types),
        same_entries(a.exclude_url_patterns, b.exclude_url_patterns),
        same_entries(a.include_methods, b.include_methods),
        a.skip_empty_responses == b.skip_empty_responses,
        a.skip_requests_without_origin == b.skip_requests_without_origin,
    ensures
        left_out(input, a) == left_out(input, b),
{
    if left_out(input, a) {
        law_more_exclusions_leave_more_out(input, a, b);
    }
    if left_out(input, b) {
        law_more_exclusions_leave_more_out(input, b, a);
    }
}

/// A method that is listed is not left out for its method, in whatever place of the list it stands
/// and whatever the case of its letters.
pub proof fn law_listed_method_is_let_through(
    input: FilterInputView,
    filters: FilterConfigView,
    i: int,
)
    requires
        0 <= i < filters.include_methods.len(),
        uppercase(trim(filters.include_methods[i])) == uppercase(trim(input.method)),
    ensures
        left_out(input, filters) == left_out(
            input,
            (FilterConfigView { include_methods: seq![], ..filters }),
        ),
{
    assert(method_key(filters.include_methods[i]) == method_key(input.method));
}

/// An entry that is no web URL is a host: a web URL with that host is in scope, whatever the case
/// of the letters and whatever its scheme, its port and its path are.
pub proof fn law_host_entry_takes_in_its_host(
    target: Seq<char>,
    url: UrlView,
    patterns: Seq<Seq<char>>,
    i: int,
)
    requires
        0 <= i < patterns.len(),
        web_url(target) == Some(url),
        url.host is Some,
        trim(patterns[i]).len() > 0,
        web_url(trim(patterns[i])) is None,
        lowercase(trim(patterns[i])) == lowercase(url.host->0),
        !begins_with(lowercase(trim(patterns[i])), "*."@),
    ensures
        in_scope(target, patterns),
{
    assert(entry_takes_in(target, patterns[i]));
}

/// An entry `*.name` takes in every host below `name`, and neither `name` itself nor another host.
pub proof fn law_star_host_entry_takes_in_hosts_below(
    target: Seq<char>,
    url: UrlView,
    entry: Seq<char>,
    name: Seq<char>,
    sub: Seq<char>,
)
    requires
        web_url(target) == Some(url),
        url.host is Some,
        web_url(trim(entry)) is None,
        lowercase(trim(entry)) == seq!['*', '.'] + name,
        trim(entry).len() > 0,
        trim(entry) != "*"@,
    ensures
        lowercase(url.host->0) == sub + seq!['.'] + name && sub.len() > 0 ==> in_scope(
            target,
            seq![entry],
        ),
        in_scope(target, seq![entry]) ==> finishes_with(
            lowercase(url.host->0),
            seq!['.'] + name,
        ) && lowercase(url.host->0).len() > 1 + name.len(),
        lowercase(url.host->0) == name ==> !in_scope(target, seq![entry]),
{
    reveal_strlit("*");
    reveal_strlit("*.");
    let p = lowercase(trim(entry));
    let host = lowercase(url.host->0);
    assert(p.len() == 2 + name.len());
    assert(p.take(2) =~= "*."@);
    assert(p.skip(1) =~= seq!['.'] + name);
    assert(p != "*"@);
    let one = seq![entry];
    assert(one[0] == entry);
    if host == sub + seq!['.'] + name && sub.len() > 0 {
        assert(host.skip(host.len() - (1 + name.len())) =~= seq!['.'] + name);
        assert(entry_takes_in(target, one[0]));
    }
    if in_scope(target, one) {
        let i = choose|i: int| 0 <= i < one.len() && entry_takes_in(target, #[trigger] one[i]);
        assert(entry_takes_in(target, entry));
    }
}

/// An entry that is a web URL takes a web URL in exactly where that has the same scheme, host and
/// port, and the path of the entry or one below it; a slash at the end of the path does not count.
pub proof fn law_url_entry_takes_in_what_is_below(
    target: Seq<char>,
    url: UrlView,
    entry: Seq<char>,
    base: UrlView,
    rest: Seq<char>,
)
    requires
        web_url(target) == Some(url),
        web_url(trim(entry)) == Some(base),
        trim(entry).len() > 0,
        trim(entry) != "*"@,
        url.port is Some,
        base.port is Some,
    ensures
        in_scope(target, seq![entry]) ==> url.scheme == base.scheme && url.host == base.host
            && url.port == base.port,
        url.scheme == base.scheme && url.host == base.host && url.port == base.port && (base.path
            == "/"@ || base.path == url.path) ==> in_scope(target, seq![entry]),
        url.scheme == base.scheme && url.host == base.host && url.port == base.port
            && base.path.len() > 1 && base.path.last() != '/' && rest.len() > 0 && url.path
            == base.path + seq!['/'] + rest ==> in_scope(target, seq![entry]),
        url.path.len() > 1 && url.path.last() != '/' && base.path.len() > 1 && base.path.last()
            != '/' && in_scope(target, seq![entry]) ==> begins_with(url.path, base.path) && (
        url.path == base.path || url.path[base.path.len() as int] == '/'),
{
    reveal_strlit("/");
    let one = seq![entry];
    assert(one[0] == entry);
    if in_scope(target, one) {
        let i = choose|i: int| 0 <= i < one.len() && entry_takes_in(target, #[trigger] one[i]);
        assert(entry_takes_in(target, entry));
    }
    if base.path.len() > 1 && base.path.last() != '/' && rest.len() > 0 && url.path == base.path
        + seq!['/'] + rest {
        let below = base.path + "/"@;
        let plain = plain_path(url.path);
        assert("/"@ =~= seq!['/']);
        assert(plain.take(below.len() as int) =~= below);
    }
    if begins_with(url.path, base.path + "/"@) {
        let below = base.path + "/"@;
        assert(url.path.take(below.len() as int)[base.path.len() as int] == '/');
        assert(url.path.take(base.path.len() as int) =~= below.take(base.path.len() as int));
        assert(below.take(base.path.len() as int) =~= base.path);
    }
    if url.path == base.path {
        assert(url.path.take(base.path.len() as int) =~= base.path);
    }
    if (base.path == "/"@ || base.path == url.path) && url.scheme == base.scheme && url.host
        == base.host && url.port == base.port {
        assert(entry_takes_in(target, one[0]));
    }
    if url.scheme == base.scheme && url.host == base.host && url.port == base.port
        && base.path.len() > 1 && base.path.last() != '/' && rest.len() > 0 && url.path
        == base.path + seq!['/'] + rest {
        assert(entry_takes_in(target, one[0]));
    }
}

/// A request is in scope where its page is, or where its own URL is, and not otherwise.
pub proof fn law_page_or_request_is_in_scope(
    page: Seq<char>,
    request: Seq<char>,
    patterns: Seq<Seq<char>>,
)
    ensures
        in_scope(page, patterns) ==> request_in_scope(Some(page), request, patterns),
        in_scope(request, patterns) ==> request_in_scope(Some(page), request, patterns)
            && request_in_scope(None, request, patterns),
        !in_scope(page, patterns) && !in_scope(request, patterns) ==> !request_in_scope(
            Some(page),
            request,
            patterns,
        ),
        !in_scope(request, patterns) ==> !request_in_scope(None, request, patterns),
{
}

/// Requests without a page are left out but for those of pages themselves, and responses without a
/// body where their status says so; for these two reasons nothing else is left out.
pub proof fn law_only_skipped_kinds_are_left_out(input: FilterInputView, filters: FilterConfigView)
    requires
        filters.include_methods.len() == 0,
        filters.exclude_resource_types.len() == 0,
        filters.exclude_extensions.len() == 0,
        filters.exclude_mime_types.len() == 0,
        filters.exclude_url_patterns.len() == 0,
    ensures
        left_out(input, filters) ==> {
            ||| filters.skip_requests_without_origin && input.page_url is None
                && input.resource_type != "main_frame"@
            ||| filters.skip_empty_responses && input.has_response_body == Some(false) && (
            input.status_code == Some(204u16) || input.status_code == Some(304u16))
        },
{
}

/// The port of a URL; that of its scheme where it has none.
pub open spec fn port_in_use(url: UrlView) -> int {
    if url.port is Some {
        url.port->0 as int
    } else if url.scheme == "https"@ {
        443
    } else {
        80
    }
}

proof fn lemma_single_entry(target: Seq<char>, entry: Seq<char>)
    ensures
        in_scope(target, seq![entry]) <==> entry_takes_in(target, entry),
{
    let list = seq![entry];
    assert(list[0] == entry);
    if entry_takes_in(target, entry) {
        assert(entry_takes_in(target, list[0]));
    }
}

/// An entry that is a URL takes in URLs with the same scheme and host and with the same port in
/// use, whose path is the one of the entry or below it; a slash at the end of either path does not
/// count.
pub proof fn law_url_entry_and_ports(
    target: Seq<char>,
    url: UrlView,
    entry: Seq<char>,
    base: UrlView,
)
    requires
        web_url(target) == Some(url),
        web_url(trim(entry)) == Some(base),
        trim(entry).len() > 0,
        trim(entry) != "*"@,
    ensures
        in_scope(target, seq![entry]) ==> url.scheme == base.scheme && url.host == base.host
            && port_in_use(url) == port_in_use(base),
        url.scheme == base.scheme && url.host == base.host && port_in_use(url) == port_in_use(base)
            ==> {
            &&& base.path.len() == 0 || base.path == "/"@ ==> in_scope(target, seq![entry])
            &&& url.path == base.path ==> in_scope(target, seq![entry])
            &&& url.path.len() > 0 && url.path.last() != '/' && base.path == url.path + seq!['/']
                ==> in_scope(target, seq![entry])
            &&& base.path.len() > 1 && base.path.last() == '/' && begins_with(url.path, base.path)
                ==> in_scope(target, seq![entry])
        },
{
    reveal_strlit("/");
    assert("/"@ =~= seq!['/']);
    lemma_single_entry(target, entry);
    if url.path.len() > 0 && url.path.last() != '/' && base.path == url.path + seq!['/'] {
        assert(base.path.drop_last() =~= url.path);
    }
    if base.path.len() > 1 && base.path.last() == '/' && begins_with(url.path, base.path) {
        lemma_path_below(url.path, base.path);
    }
}

proof fn lemma_path_below(path: Seq<char>, base: Seq<char>)
    requires
        base.len() > 1,
        base.last() == '/',
        begins_with(path, base),
    ensures
        plain_path(path) == plain_path(base) || begins_with(
            plain_path(path),
            plain_path(base) + "/"@,
        ),
{
    reveal_strlit("/");
    assert(base.drop_last() + "/"@ =~= base);
    assert(path.take(base.len() as int) == base);
    if path.len() == base.len() {
        assert(path =~= base);
    } else if path.last() == '/' {
        assert(path.drop_last().take(base.len() as int) =~= path.take(base.len() as int));
    }
}

/// An entry of a star alone takes in everything, and one of white space nothing.
pub proof fn law_star_and_empty_entries(target: Seq<char>, entry: Seq<char>)
    ensures
        trim(entry) == seq!['*'] ==> in_scope(target, seq![entry]),
        trim(entry).len() == 0 ==> !in_scope(target, seq![entry]),
        !in_scope(target, seq![]),
{
    reveal_strlit("*");
    assert("*"@ =~= seq!['*']);
    lemma_single_entry(target, entry);
}

/// An entry without a star that is no URL takes in its host alone, whatever the case of the letters;
/// a target that is no URL is taken as a host itself.
pub proof fn law_host_entry_takes_in_nothing_else(target: Seq<char>, entry: Seq<char>)
    requires
        web_url(trim(entry)) is None,
        trim(entry).len() > 0,
        !trim(entry).contains('*'),
        !lowercase(trim(entry)).contains('*'),
    ensures
        ({
            let host = match web_url(target) {
                Some(url) => match url.host {
                    Some(host) => host,
                    None => target,
                },
                None => target,
            };
            in_scope(target, seq![entry]) <==> lowercase(host) == lowercase(trim(entry))
        }),
{
    reveal_strlit("*");
    reveal_strlit("*.");
    lemma_single_entry(target, entry);
    let low = lowercase(trim(entry));
    if begins_with(low, "*."@) {
        assert(low.take(2)[0] == '*');
        assert(low[0] == '*');
        assert(low.contains('*'));
    }
    if low == "*"@ {
        assert(low[0] == '*');
        assert(low.contains('*'));
    }
    if trim(entry) == "*"@ {
        assert(trim(entry)[0] == '*');
        assert(trim(entry).contains('*'));
    }
}

/// A scope takes in what one of its entries takes in.
pub proof fn law_scope_is_its_entries(target: Seq<char>, a: Seq<Seq<char>>, b: Seq<Seq<char>>)
    ensures
        in_scope(target, a + b) <==> in_scope(target, a) || in_scope(target, b),
{
    let all = a + b;
    if in_scope(target, all) {
        let i = choose|i: int| 0 <= i < all.len() && entry_takes_in(target, #[trigger] all[i]);
        if i < a.len() {
            assert(entry_takes_in(target, a[i]));
        } else {
            assert(entry_takes_in(target, b[i - a.len()]));
        }
    }
    if in_scope(target, a) {
        let i = choose|i: int| 0 <= i < a.len() && entry_takes_in(target, #[trigger] a[i]);
        assert(all[i] == a[i]);
    }
    if in_scope(target, b) {
        let i = choose|i: int| 0 <= i < b.len() && entry_takes_in(target, #[trigger] b[i]);
        assert(all[a.len() + i] == b[i]);
    }
}

} // verus!
