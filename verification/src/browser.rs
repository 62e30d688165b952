//! Browsers that trust the certificate authority and go through the proxy: their homes and
//! profiles, the arguments that they are started with, and which one is chosen.
use vstd::prelude::*;
use vstd::string::StringExecFns;
use vstd::utf8::{decode_utf8, valid_utf8};
use crate::number::{decimal, decimal_text, decimal_value, lemma_decimal};
use crate::paths::{file_name, file_name_of, join_path, joined_path};
use crate::text::{
    begins_with, chars_of, contains, contains_char, debug_format, debug_text, ends_with,
    find_char, finishes_with, first_of, first_word, holds_part, is_plain_word, join, joined,
    law_next_word, law_white_space_has_no_word, lemma_first_of, lemma_first_of_is, lemma_trim_end,
    lemma_trim_start, lowercase, next_word, opt_str, opt_text, replace_char, same, split_char,
    split_on, stands_at, starts_with, text_of, texts, trim, trimmed, utf8_text, white_space,
    with_char_replaced,
};

verus! {

pub const BROWSER_HOME_DIR: &'static str = "home";

pub const CHROME_PROFILE_DIR: &'static str = "chrome-profile";

pub const FIREFOX_BASE_DIR: &'static str = ".mozilla/firefox";

pub const FIREFOX_PROFILE_ENTRY: &'static str = "httplogger.default";

pub const FIREFOX_PROFILES_INI: &'static str =
    "[General]\nStartWithLastProfile=1\nVersion=2\n\n[Profile0]\nName=httplogger\nIsRelative=1\nPath=httplogger.default\nDefault=1\n";

pub const CA_NICKNAME: &'static str = "httplogger-ca";

#[derive(Debug, Clone, Copy, PartialEq, Eq, Structural)]
pub enum BrowserKind {
    Chromium,
    Firefox,
}

/// A browser that was chosen.
#[derive(Debug, Clone)]
pub struct BrowserSelection {
    pub kind: BrowserKind,
    pub executable: String,
}

// ---------------------------------------------------------------------------
// Homes and profiles.
// ---------------------------------------------------------------------------

/// The home that browsers get in a workspace.
pub fn browser_home(workspace_root: &str) -> (r: String)
    ensures
        r@ == joined_path(workspace_root@, BROWSER_HOME_DIR@),
{
    join_path(workspace_root, BROWSER_HOME_DIR)
}

/// The Firefox profile in a home.
pub open spec fn firefox_profile(home: Seq<char>) -> Seq<char> {
    joined_path(joined_path(home, FIREFOX_BASE_DIR@), FIREFOX_PROFILE_ENTRY@)
}

/// The Firefox profile in a home.
pub fn firefox_profile_dir(home: &str) -> (r: String)
    ensures
        r@ == firefox_profile(home@),
{
    join_path(join_path(home, FIREFOX_BASE_DIR).as_str(), FIREFOX_PROFILE_ENTRY)
}

/// The settings file of a Firefox profile: the proxy, no greetings, and no accounts.
pub open spec fn user_js(proxy_port: u16, now_ms: u64, user_agent: Option<Seq<char>>) -> Seq<char> {
    let port = decimal(proxy_port as nat);
    let prefs = "user_pref(\"network.proxy.type\", 1);\nuser_pref(\"network.proxy.http\", \"127.0.0.1\");\nuser_pref(\"network.proxy.http_port\", "@
        + port
        + ");\nuser_pref(\"network.proxy.ssl\", \"127.0.0.1\");\nuser_pref(\"network.proxy.ssl_port\", "@
        + port
        + ");\nuser_pref(\"network.proxy.share_proxy_settings\", true);\nuser_pref(\"network.proxy.allow_hijacking_localhost\", true);\nuser_pref(\"network.proxy.no_proxies_on\", \"\");\nuser_pref(\"browser.aboutwelcome.enabled\", false);\nuser_pref(\"startup.homepage_welcome_url\", \"\");\nuser_pref(\"startup.homepage_welcome_url.additional\", \"\");\nuser_pref(\"browser.startup.homepage_override.mstone\", \"ignore\");\nuser_pref(\"datareporting.policy.dataSubmissionPolicyAcceptedVersion\", 999);\nuser_pref(\"datareporting.policy.dataSubmissionPolicyNotifiedTime\", \""@
        + decimal(now_ms as nat)
        + "\");\nuser_pref(\"toolkit.telemetry.reportingpolicy.firstRun\", false);\nuser_pref(\"identity.fxaccounts.enabled\", false);\nuser_pref(\"services.sync.enabled\", false);\nuser_pref(\"browser.shell.checkDefaultBrowser\", false);\n"@;
    match user_agent {
        Some(agent) => prefs + "user_pref(\"general.useragent.override\", "@ + debug_text(agent)
            + ");\n"@,
        None => prefs,
    }
}

/// The settings file of a Firefox profile.
pub fn firefox_user_js(proxy_port: u16, now_ms: u64, user_agent: Option<&str>) -> (r: String)
    ensures
        r@ == user_js(proxy_port, now_ms, opt_str(user_agent)),
{
    let port = decimal_text(proxy_port as u64);
    let mut prefs = "user_pref(\"network.proxy.type\", 1);\nuser_pref(\"network.proxy.http\", \"127.0.0.1\");\nuser_pref(\"network.proxy.http_port\", ".to_owned();
    prefs.append(port.as_str());
    prefs.append(
        ");\nuser_pref(\"network.proxy.ssl\", \"127.0.0.1\");\nuser_pref(\"network.proxy.ssl_port\", ",
    );
    prefs.append(port.as_str());
    prefs.append(
        ");\nuser_pref(\"network.proxy.share_proxy_settings\", true);\nuser_pref(\"network.proxy.allow_hijacking_localhost\", true);\nuser_pref(\"network.proxy.no_proxies_on\", \"\");\nuser_pref(\"browser.aboutwelcome.enabled\", false);\nuser_pref(\"startup.homepage_welcome_url\", \"\");\nuser_pref(\"startup.homepage_welcome_url.additional\", \"\");\nuser_pref(\"browser.startup.homepage_override.mstone\", \"ignore\");\nuser_pref(\"datareporting.policy.dataSubmissionPolicyAcceptedVersion\", 999);\nuser_pref(\"datareporting.policy.dataSubmissionPolicyNotifiedTime\", \"",
    );
    prefs.append(decimal_text(now_ms).as_str());
    prefs.append(
        "\");\nuser_pref(\"toolkit.telemetry.reportingpolicy.firstRun\", false);\nuser_pref(\"identity.fxaccounts.enabled\", false);\nuser_pref(\"services.sync.enabled\", false);\nuser_pref(\"browser.shell.checkDefaultBrowser\", false);\n",
    );
    if let Some(agent) = user_agent {
        prefs.append("user_pref(\"general.useragent.override\", ");
        prefs.append(debug_format(agent).as_str());
        prefs.append(");\n");
    }
    prefs
}

/// The lines of a text: without the line feeds, and without a carriage return before one.
pub open spec fn text_lines(s: Seq<char>) -> Seq<Seq<char>>
    decreases s.len(),
{
    let n = first_of(s, '\n') as int;
    if s.len() == 0 {
        seq![]
    } else if n >= s.len() {
        seq![s]
    } else {
        let line = if n > 0 && s[n - 1] == '\r' {
            s.take(n - 1)
        } else {
            s.take(n)
        };
        seq![line] + text_lines(s.skip(n + 1))
    }
}

/// A preference that makes Firefox greet its user.
pub open spec fn firstrun_pref(line: Seq<char>) -> bool {
    ||| holds_part(line, "startup.homepage_welcome"@)
    ||| holds_part(line, "trailhead.firstrun"@)
    ||| holds_part(line, "datareporting.policy.dataSubmissionPolicy"@)
    ||| holds_part(line, "browser.aboutwelcome"@)
}

/// The lines that are no such preference, in their order.
pub open spec fn other_prefs(lines: Seq<Seq<char>>) -> Seq<Seq<char>>
    decreases lines.len(),
{
    if lines.len() == 0 {
        seq![]
    } else if firstrun_pref(lines.last()) {
        other_prefs(lines.drop_last())
    } else {
        other_prefs(lines.drop_last()).push(lines.last())
    }
}

fn lines_of_text(s: &str) -> (r: Vec<String>)
    ensures
        texts(r@) == text_lines(s@),
{
    let c = chars_of(s);
    let mut out: Vec<String> = Vec::new();
    let mut start: usize = 0;
    assert(c@.skip(0) =~= c@);
    assert(texts(out@) + text_lines(c@) =~= text_lines(c@));
    while start < c.len()
        invariant
            start <= c@.len(),
            text_lines(c@) == texts(out@) + text_lines(c@.skip(start as int)),
        decreases c@.len() - start,
    {
        let ghost rest = c@.skip(start as int);
        let tail = text_of(c.as_slice(), start, c.len());
        assert(tail@ =~= rest);
        let t = chars_of(tail.as_str());
        let (line, next) = match find_char(t.as_slice(), '\n') {
            Some(n) => {
                let end: usize = if n > 0 && t[n - 1] == '\r' { n - 1 } else { n };
                let line = text_of(t.as_slice(), 0, end);
                assert(line@ =~= rest.take(end as int));
                assert(start + n + 1 <= c.len());
                (line, start + n + 1)
            },
            None => (tail.clone(), c.len()),
        };
        proof {
            assert(next == c@.len() || next == start + first_of(rest, '\n') + 1);
            if first_of(rest, '\n') < rest.len() {
                assert(rest.skip(first_of(rest, '\n') as int + 1) =~= c@.skip(next as int));
                assert(text_lines(rest) == seq![line@] + text_lines(c@.skip(next as int)));
            } else {
                assert(c@.skip(next as int) =~= Seq::<char>::empty());
                assert(text_lines(c@.skip(next as int)) =~= Seq::<Seq<char>>::empty());
                assert(text_lines(rest) =~= seq![line@] + text_lines(c@.skip(next as int)));
            }
            assert(texts(out@) + (seq![line@] + text_lines(c@.skip(next as int))) =~= texts(
                out@.push(line),
            ) + text_lines(c@.skip(next as int)));
        }
        out.push(line);
        start = next;
    }
    proof {
        assert(c@.skip(start as int) =~= Seq::<char>::empty());
        assert(texts(out@) + text_lines(c@.skip(start as int)) =~= texts(out@));
    }
    out
}

fn is_firstrun_pref(line: &str) -> (r: bool)
    ensures
        r == firstrun_pref(line@),
{
    contains(line, "startup.homepage_welcome") || contains(line, "trailhead.firstrun") || contains(
        line,
        "datareporting.policy.dataSubmissionPolicy",
    ) || contains(line, "browser.aboutwelcome")
}

/// The preferences without those that make Firefox greet its user; none where there are none.
pub fn strip_firstrun_prefs(content: &str) -> (r: Option<String>)
    ensures
        match r {
            Some(out) => {
                &&& other_prefs(text_lines(content@)).len() < text_lines(content@).len()
                &&& out@ == join(other_prefs(text_lines(content@)), "\n"@).push('\n')
            },
            None => other_prefs(text_lines(content@)).len() == text_lines(content@).len(),
        },
{
    let lines = lines_of_text(content);
    let ghost all = texts(lines@);
    let mut kept: Vec<String> = Vec::new();
    let mut i: usize = 0;
    assert(texts(kept@) =~= other_prefs(all.take(0)));
    while i < lines.len()
        invariant
            i <= lines@.len(),
            all == texts(lines@),
            texts(kept@) == other_prefs(all.take(i as int)),
            kept@.len() <= i,
        decreases lines@.len() - i,
    {
        assert(all.take(i + 1).drop_last() =~= all.take(i as int));
        assert(all.take(i + 1).last() == lines@[i as int]@);
        if !is_firstrun_pref(lines[i].as_str()) {
            let line = lines[i].clone();
            assert(texts(kept@.push(line)) =~= texts(kept@).push(line@));
            kept.push(line);
        }
        i = i + 1;
    }
    assert(all.take(i as int) =~= all);
    assert(texts(kept@).len() == kept@.len() && all.len() == lines@.len());
    if kept.len() == lines.len() {
        return None;
    }
    let mut out = joined(kept.as_slice(), "\n");
    out.push('\n');
    Some(out)
}

// ---------------------------------------------------------------------------
// Trust stores.
// ---------------------------------------------------------------------------

/// A trust store as `certutil` names it.
pub open spec fn store_name(nssdb_path: Seq<char>) -> Seq<char> {
    "sql:"@ + nssdb_path
}

fn store_text(nssdb_path: &str) -> (r: String)
    ensures
        r@ == store_name(nssdb_path@),
{
    let mut s = "sql:".to_owned();
    s.append(nssdb_path);
    s
}

/// The arguments of `certutil` that make a trust store.
pub fn init_nssdb_args(nssdb_path: &str) -> (r: Vec<String>)
    ensures
        texts(r@) == seq!["-N"@, "-d"@, store_name(nssdb_path@), "--empty-password"@],
{
    let r: Vec<String> = vec![
        "-N".to_owned(),
        "-d".to_owned(),
        store_text(nssdb_path),
        "--empty-password".to_owned(),
    ];
    assert(texts(r@) =~= seq!["-N"@, "-d"@, store_name(nssdb_path@), "--empty-password"@]);
    r
}

/// The arguments of `certutil` that take the certificate authority out of a trust store.
pub fn remove_ca_args(nssdb_path: &str) -> (r: Vec<String>)
    ensures
        texts(r@) == seq!["-D"@, "-d"@, store_name(nssdb_path@), "-n"@, CA_NICKNAME@],
{
    let r: Vec<String> = vec![
        "-D".to_owned(),
        "-d".to_owned(),
        store_text(nssdb_path),
        "-n".to_owned(),
        CA_NICKNAME.to_owned(),
    ];
    assert(texts(r@) =~= seq!["-D"@, "-d"@, store_name(nssdb_path@), "-n"@, CA_NICKNAME@]);
    r
}

/// The arguments of `certutil` that put the certificate authority into a trust store.
pub fn import_ca_args(nssdb_path: &str, ca_path: &str) -> (r: Vec<String>)
    ensures
        texts(r@) == seq![
            "-A"@,
            "-d"@,
            store_name(nssdb_path@),
            "-t"@,
            "C,,"@,
            "-n"@,
            CA_NICKNAME@,
            "-i"@,
            ca_path@,
        ],
{
    let r: Vec<String> = vec![
        "-A".to_owned(),
        "-d".to_owned(),
        store_text(nssdb_path),
        "-t".to_owned(),
        "C,,".to_owned(),
        "-n".to_owned(),
        CA_NICKNAME.to_owned(),
        "-i".to_owned(),
        ca_path.to_owned(),
    ];
    assert(texts(r@) =~= seq![
        "-A"@,
        "-d"@,
        store_name(nssdb_path@),
        "-t"@,
        "C,,"@,
        "-n"@,
        CA_NICKNAME@,
        "-i"@,
        ca_path@,
    ]);
    r
}

// ---------------------------------------------------------------------------
// The desktop session.
// ---------------------------------------------------------------------------

/// Where the desktop session keeps its files.
#[derive(Debug)]
pub struct SessionPaths {
    pub config: String,
    pub cache: String,
    pub state: String,
    pub data_share: String,
}

/// The value of a variable where it is set and not empty, else the default below the home.
pub open spec fn xdg_dir(
    value: Option<Seq<char>>,
    real_home: Seq<char>,
    relative_default: Seq<char>,
) -> Seq<char> {
    if value is Some && value->0.len() > 0 {
        value->0
    } else {
        joined_path(real_home, relative_default)
    }
}

/// The directory that a variable names, or the default below the home.
pub fn xdg_path(value: Option<&str>, real_home: &str, relative_default: &str) -> (r: String)
    ensures
        r@ == xdg_dir(opt_str(value), real_home@, relative_default@),
{
    match value {
        Some(path) => if path.is_empty() {
            join_path(real_home, relative_default)
        } else {
            path.to_owned()
        },
        None => join_path(real_home, relative_default),
    }
}

/// Where the desktop session keeps its files, from the values of `XDG_CONFIG_HOME`,
/// `XDG_CACHE_HOME`, `XDG_STATE_HOME` and `XDG_DATA_HOME`.
pub fn session_paths(
    config_home: Option<&str>,
    cache_home: Option<&str>,
    state_home: Option<&str>,
    data_home: Option<&str>,
    real_home: &str,
) -> (r: SessionPaths)
    ensures
        r.config@ == xdg_dir(opt_str(config_home), real_home@, ".config"@),
        r.cache@ == xdg_dir(opt_str(cache_home), real_home@, ".cache"@),
        r.state@ == xdg_dir(opt_str(state_home), real_home@, ".local/state"@),
        r.data_share@ == xdg_dir(opt_str(data_home), real_home@, ".local/share"@),
{
    SessionPaths {
        config: xdg_path(config_home, real_home, ".config"),
        cache: xdg_path(cache_home, real_home, ".cache"),
        state: xdg_path(state_home, real_home, ".local/state"),
        data_share: xdg_path(data_home, real_home, ".local/share"),
    }
}

/// A link to make, unless there is something in its place or nothing that it leads to.
#[derive(Debug)]
pub struct LinkPlan {
    pub link: String,
    pub target: String,
}

/// The model of links to make.
pub open spec fn link_views(links: Seq<LinkPlan>) -> Seq<(Seq<char>, Seq<char>)> {
    Seq::new(links.len(), |i: int| (links[i].link@, links[i].target@))
}

/// The links from the home of the browsers to the directories of the session.
pub fn session_links(ssl_home: &str, session: &SessionPaths) -> (r: Vec<LinkPlan>)
    ensures
        link_views(r@) == seq![
            (joined_path(ssl_home@, ".config"@), session.config@),
            (joined_path(ssl_home@, ".cache"@), session.cache@),
            (joined_path(ssl_home@, ".local/state"@), session.state@),
        ],
{
    let mut r: Vec<LinkPlan> = Vec::new();
    r.push(LinkPlan { link: join_path(ssl_home, ".config"), target: session.config.clone() });
    r.push(LinkPlan { link: join_path(ssl_home, ".cache"), target: session.cache.clone() });
    r.push(LinkPlan { link: join_path(ssl_home, ".local/state"), target: session.state.clone() });
    assert(link_views(r@) =~= seq![
        (joined_path(ssl_home@, ".config"@), session.config@),
        (joined_path(ssl_home@, ".cache"@), session.cache@),
        (joined_path(ssl_home@, ".local/state"@), session.state@),
    ]);
    r
}

/// The links to the entries of the shared data: all but the trust stores.
pub open spec fn shared_links(ssl_home: Seq<char>, real_share: Seq<char>, names: Seq<Seq<char>>)
    -> Seq<(Seq<char>, Seq<char>)>
    decreases names.len(),
{
    if names.len() == 0 {
        seq![]
    } else if names.last() == "pki"@ {
        shared_links(ssl_home, real_share, names.drop_last())
    } else {
        shared_links(ssl_home, real_share, names.drop_last()).push(
            (
                joined_path(joined_path(ssl_home, ".local/share"@), names.last()),
                joined_path(real_share, names.last()),
            ),
        )
    }
}

/// The links from the home of the browsers to the entries of the shared data.
pub fn local_share_links(ssl_home: &str, real_share: &str, names: &[String]) -> (r: Vec<LinkPlan>)
    ensures
        link_views(r@) == shared_links(ssl_home@, real_share@, texts(names@)),
{
    let ghost all = texts(names@);
    let fake_share = join_path(ssl_home, ".local/share");
    let mut r: Vec<LinkPlan> = Vec::new();
    let mut i: usize = 0;
    assert(link_views(r@) =~= shared_links(ssl_home@, real_share@, all.take(0)));
    while i < names.len()
        invariant
            i <= names@.len(),
            all == texts(names@),
            fake_share@ == joined_path(ssl_home@, ".local/share"@),
            link_views(r@) == shared_links(ssl_home@, real_share@, all.take(i as int)),
        decreases names@.len() - i,
    {
        assert(all.take(i + 1).drop_last() =~= all.take(i as int));
        assert(all.take(i + 1).last() == names@[i as int]@);
        if !same(names[i].as_str(), "pki") {
            let plan = LinkPlan {
                link: join_path(fake_share.as_str(), names[i].as_str()),
                target: join_path(real_share, names[i].as_str()),
            };
            assert(link_views(r@.push(plan)) =~= link_views(r@).push((plan.link@, plan.target@)));
            r.push(plan);
        }
        i = i + 1;
    }
    assert(all.take(i as int) =~= all);
    r
}

/// Trust stores of the user are never linked into the home of the browsers.
pub proof fn law_trust_stores_are_not_linked(
    ssl_home: Seq<char>,
    real_share: Seq<char>,
    names: Seq<Seq<char>>,
)
    ensures
        forall|i: int|
            0 <= i < shared_links(ssl_home, real_share, names).len() ==> exists|name: Seq<char>|
                name != "pki"@ && names.contains(name) && #[trigger] shared_links(
                    ssl_home,
                    real_share,
                    names,
                )[i] == (
                    #[trigger] joined_path(joined_path(ssl_home, ".local/share"@), name),
                    joined_path(real_share, name),
                ),
    decreases names.len(),
{
    if names.len() > 0 {
        let head = names.drop_last();
        law_trust_stores_are_not_linked(ssl_home, real_share, head);
        let links = shared_links(ssl_home, real_share, names);
        let before = shared_links(ssl_home, real_share, head);
        assert forall|i: int| 0 <= i < links.len() implies exists|name: Seq<char>|
            name != "pki"@ && names.contains(name) && #[trigger] links[i] == (
                #[trigger] joined_path(joined_path(ssl_home, ".local/share"@), name),
                joined_path(real_share, name),
            ) by {
            if i < before.len() {
                assert(links[i] == before[i]);
                let name = choose|name: Seq<char>|
                    name != "pki"@ && head.contains(name) && before[i] == (
                        #[trigger] joined_path(joined_path(ssl_home, ".local/share"@), name),
                        joined_path(real_share, name),
                    );
                let k = choose|k: int| 0 <= k < head.len() && head[k] == name;
                assert(names[k] == name);
                assert(links[i] == (
                    joined_path(joined_path(ssl_home, ".local/share"@), name),
                    joined_path(real_share, name),
                ));
            } else {
                let name = names.last();
                assert(names[names.len() - 1] == name);
                assert(links[i] == (
                    joined_path(joined_path(ssl_home, ".local/share"@), name),
                    joined_path(real_share, name),
                ));
            }
        }
    }
}

// ---------------------------------------------------------------------------
// Starting a browser.
// ---------------------------------------------------------------------------

/// The address of the proxy.
pub open spec fn proxy_url(proxy_port: u16) -> Seq<char> {
    "http://127.0.0.1:"@ + decimal(proxy_port as nat)
}

fn proxy_url_text(proxy_port: u16) -> (r: String)
    ensures
        r@ == proxy_url(proxy_port),
{
    let mut s = "http://127.0.0.1:".to_owned();
    s.append(decimal_text(proxy_port as u64).as_str());
    s
}

/// The arguments of Chromium before those of the user.
pub open spec fn chromium_args(
    home: Seq<char>,
    proxy_port: u16,
    user_agent: Option<Seq<char>>,
) -> Seq<Seq<char>> {
    let args = seq![
        "--user-data-dir="@ + joined_path(home, CHROME_PROFILE_DIR@),
        "--no-first-run"@,
        "--disable-sync"@,
        "--disable-background-networking"@,
        "--disable-features=ChromeWhatsNew"@,
        "--proxy-server="@ + proxy_url(proxy_port),
        "--proxy-bypass-list=<-loopback>"@,
    ];
    match user_agent {
        Some(agent) => args.push("--user-agent="@ + agent),
        None => args,
    }
}

/// An argument that Firefox opens.
pub open spec fn url_like(arg: Seq<char>) -> bool {
    begins_with(arg, "http://"@) || begins_with(arg, "https://"@) || begins_with(arg, "about:"@)
}

/// Whether the user gives Firefox something to open.
pub open spec fn opens_url(args: Seq<Seq<char>>) -> bool {
    exists|i: int| 0 <= i < args.len() && url_like(#[trigger] args[i])
}

/// The arguments of Firefox before those of the user: a new tab is opened unless the user gives
/// something to open.
pub open spec fn firefox_args(profile: Seq<char>, extra_args: Seq<Seq<char>>) -> Seq<Seq<char>> {
    let args = seq!["-no-remote"@, "-profile"@, profile];
    if opens_url(extra_args) {
        args
    } else {
        args + seq!["-url"@, "about:newtab"@]
    }
}

/// The arguments that a browser is started with: its own, and those of the user as they are.
pub open spec fn launch_argv(
    kind: BrowserKind,
    home: Seq<char>,
    proxy_port: u16,
    user_agent: Option<Seq<char>>,
    extra_args: Seq<Seq<char>>,
) -> Seq<Seq<char>> {
    match kind {
        BrowserKind::Chromium => chromium_args(home, proxy_port, user_agent) + extra_args,
        BrowserKind::Firefox => firefox_args(firefox_profile(home), extra_args) + extra_args,
    }
}

fn push_arg(args: &mut Vec<String>, arg: String)
    ensures
        texts(final(args)@) == texts(old(args)@).push(arg@),
{
    args.push(arg);
    assert(texts(args@) =~= texts(old(args)@).push(arg@));
}

fn prefixed(prefix: &str, text: &str) -> (r: String)
    ensures
        r@ == prefix@ + text@,
{
    let mut s = prefix.to_owned();
    s.append(text);
    s
}

/// The arguments of Chromium before those of the user.
pub fn chromium_argv(home: &str, proxy_port: u16, user_agent: Option<&str>) -> (r: Vec<String>)
    ensures
        texts(r@) == chromium_args(home@, proxy_port, opt_str(user_agent)),
{
    let profile_dir = join_path(home, CHROME_PROFILE_DIR);
    let mut args: Vec<String> = Vec::new();
    push_arg(&mut args, prefixed("--user-data-dir=", profile_dir.as_str()));
    push_arg(&mut args, "--no-first-run".to_owned());
    push_arg(&mut args, "--disable-sync".to_owned());
    push_arg(&mut args, "--disable-background-networking".to_owned());
    push_arg(&mut args, "--disable-features=ChromeWhatsNew".to_owned());
    push_arg(&mut args, prefixed("--proxy-server=", proxy_url_text(proxy_port).as_str()));
    push_arg(&mut args, "--proxy-bypass-list=<-loopback>".to_owned());
    if let Some(agent) = user_agent {
        push_arg(&mut args, prefixed("--user-agent=", agent));
    }
    assert(texts(args@) =~= chromium_args(home@, proxy_port, opt_str(user_agent)));
    args
}

/// Whether Firefox opens the argument.
pub fn is_url_like(arg: &str) -> (r: bool)
    ensures
        r == url_like(arg@),
{
    starts_with(arg, "http://") || starts_with(arg, "https://") || starts_with(arg, "about:")
}

fn any_url_like(args: &[String]) -> (r: bool)
    ensures
        r == opens_url(texts(args@)),
{
    let mut i: usize = 0;
    while i < args.len()
        invariant
            i <= args@.len(),
            forall|j: int| 0 <= j < i ==> !url_like(#[trigger] texts(args@)[j]),
        decreases args@.len() - i,
    {
        if is_url_like(args[i].as_str()) {
            assert(url_like(texts(args@)[i as int]));
            return true;
        }
        i = i + 1;
    }
    false
}

/// The arguments of Firefox before those of the user.
pub fn firefox_argv(profile: &str, extra_args: &[String]) -> (r: Vec<String>)
    ensures
        texts(r@) == firefox_args(profile@, texts(extra_args@)),
{
    let mut args: Vec<String> = Vec::new();
    push_arg(&mut args, "-no-remote".to_owned());
    push_arg(&mut args, "-profile".to_owned());
    push_arg(&mut args, profile.to_owned());
    if !any_url_like(extra_args) {
        push_arg(&mut args, "-url".to_owned());
        push_arg(&mut args, "about:newtab".to_owned());
    }
    assert(texts(args@) =~= firefox_args(profile@, texts(extra_args@)));
    args
}

/// The arguments that a browser is started with.
pub fn launch_args(
    kind: BrowserKind,
    home: &str,
    proxy_port: u16,
    user_agent: Option<&str>,
    extra_args: &[String],
) -> (r: Vec<String>)
    ensures
        texts(r@) == launch_argv(kind, home@, proxy_port, opt_str(user_agent), texts(extra_args@)),
{
    let mut args = match kind {
        BrowserKind::Chromium => chromium_argv(home, proxy_port, user_agent),
        BrowserKind::Firefox => firefox_argv(firefox_profile_dir(home).as_str(), extra_args),
    };
    let ghost own = texts(args@);
    let ghost all = texts(extra_args@);
    let mut i: usize = 0;
    assert(own + all.take(0) =~= own);
    while i < extra_args.len()
        invariant
            i <= extra_args@.len(),
            all == texts(extra_args@),
            texts(args@) == own + all.take(i as int),
        decreases extra_args@.len() - i,
    {
        assert(own + all.take(i + 1) =~= (own + all.take(i as int)).push(
            extra_args@[i as int]@,
        ));
        push_arg(&mut args, extra_args[i].clone());
        i = i + 1;
    }
    assert(all.take(i as int) =~= all);
    args
}

// ---------------------------------------------------------------------------
// Words of the shell.
// ---------------------------------------------------------------------------

/// A word of the shell for a value: in single quotes, with each of those in it written outside.
pub open spec fn quoted(value: Seq<char>) -> Seq<char> {
    "'"@ + replace_char(value, '\'', "'\\''"@) + "'"@
}

/// What the shell makes of a word that is all quotes and escaped characters.
pub open spec fn shell_value(word: Seq<char>, in_quotes: bool) -> Option<Seq<char>>
    decreases word.len(),
{
    if word.len() == 0 {
        if in_quotes {
            None
        } else {
            Some(seq![])
        }
    } else if word[0] == '\'' {
        shell_value(word.skip(1), !in_quotes)
    } else if in_quotes {
        match shell_value(word.skip(1), true) {
            Some(rest) => Some(seq![word[0]] + rest),
            None => None,
        }
    } else if word[0] == '\\' && word.len() >= 2 {
        match shell_value(word.skip(2), false) {
            Some(rest) => Some(seq![word[1]] + rest),
            None => None,
        }
    } else {
        None
    }
}

/// A word of the shell for a value.
pub fn shell_quote(value: &str) -> (r: String)
    ensures
        r@ == quoted(value@),
{
    let mut s = "'".to_owned();
    s.append(with_char_replaced(value, '\'', "'\\''").as_str());
    s.append("'");
    s
}

/// The text with every `c` replaced, with its first character apart.
proof fn lemma_replace_front(s: Seq<char>, c: char, with: Seq<char>)
    requires
        s.len() > 0,
    ensures
        replace_char(s, c, with) == (if s[0] == c {
            with
        } else {
            seq![s[0]]
        }) + replace_char(s.drop_first(), c, with),
    decreases s.len(),
{
    let first = if s[0] == c {
        with
    } else {
        seq![s[0]]
    };
    if s.len() == 1 {
        assert(s.drop_last() =~= Seq::<char>::empty());
        assert(s.drop_first() =~= Seq::<char>::empty());
        assert(replace_char(s, c, with) =~= first + replace_char(s.drop_first(), c, with));
    } else {
        lemma_replace_front(s.drop_last(), c, with);
        assert(s.drop_last().drop_first() =~= s.drop_first().drop_last());
        assert(s.drop_first().last() == s.last());
        assert(replace_char(s, c, with) =~= first + replace_char(s.drop_first(), c, with));
    }
}

proof fn lemma_quoted_tail(value: Seq<char>)
    ensures
        shell_value(replace_char(value, '\'', "'\\''"@) + "'"@, true) == Some(value),
    decreases value.len(),
{
    reveal_strlit("'");
    reveal_strlit("'\\''");
    let with = "'\\''"@;
    let word = replace_char(value, '\'', with) + "'"@;
    if value.len() == 0 {
        assert(word.skip(1) =~= Seq::<char>::empty());
        assert(shell_value(word.skip(1), false) == Some(Seq::<char>::empty()));
        assert(value =~= Seq::<char>::empty());
    } else {
        let tail = value.drop_first();
        let rest = replace_char(tail, '\'', with) + "'"@;
        lemma_replace_front(value, '\'', with);
        lemma_quoted_tail(tail);
        assert(value =~= seq![value[0]] + tail);
        if value[0] == '\'' {
            assert(word =~= with + rest);
            let a = word.skip(1);
            assert(a[0] == '\\' && a[1] == '\'');
            let b = a.skip(2);
            assert(b[0] == '\'');
            assert(b.skip(1) =~= rest);
            assert(shell_value(b, false) == shell_value(rest, true));
            assert(shell_value(a, false) == Some(seq![value[0]] + tail));
        } else {
            assert(word =~= seq![value[0]] + rest);
            assert(word.skip(1) =~= rest);
        }
    }
}

/// The shell makes the value again of the word that it was quoted as.
pub proof fn law_shell_gives_value_back(value: Seq<char>)
    ensures
        shell_value(quoted(value), false) == Some(value),
{
    reveal_strlit("'");
    let word = quoted(value);
    assert(word.skip(1) =~= replace_char(value, '\'', "'\\''"@) + "'"@);
    lemma_quoted_tail(value);
}

/// The words of arguments.
pub open spec fn quoted_args(args: Seq<Seq<char>>) -> Seq<Seq<char>> {
    Seq::new(args.len(), |i: int| quoted(args[i]))
}

/// The command line that starts a browser with a home.
pub open spec fn shell_command(home: Seq<char>, binary: Seq<char>, args: Seq<Seq<char>>) -> Seq<
    char,
> {
    join(seq!["HOME="@ + quoted(home), binary] + quoted_args(args), " "@)
}

/// The command line that starts a browser with a home.
pub fn format_shell_command(home: &str, binary: &str, args: &[String]) -> (r: String)
    ensures
        r@ == shell_command(home@, binary@, texts(args@)),
{
    let mut parts: Vec<String> = Vec::new();
    push_arg(&mut parts, prefixed("HOME=", shell_quote(home).as_str()));
    push_arg(&mut parts, binary.to_owned());
    let ghost own = seq!["HOME="@ + quoted(home@), binary@];
    let ghost all = quoted_args(texts(args@));
    let mut i: usize = 0;
    assert(texts(parts@) =~= own + all.take(0));
    while i < args.len()
        invariant
            i <= args@.len(),
            all == quoted_args(texts(args@)),
            texts(parts@) == own + all.take(i as int),
        decreases args@.len() - i,
    {
        let word = shell_quote(args[i].as_str());
        assert(own + all.take(i + 1) =~= (own + all.take(i as int)).push(word@));
        push_arg(&mut parts, word);
        i = i + 1;
    }
    assert(all.take(i as int) =~= all);
    joined(parts.as_slice(), " ")
}

// ---------------------------------------------------------------------------
// What is said when the proxy listens.
// ---------------------------------------------------------------------------

/// The text in a colour, where colours are shown.
pub open spec fn painted(color: bool, code: Seq<char>, text: Seq<char>) -> Seq<char> {
    if color {
        code + text + "\x1b[0m"@
    } else {
        text
    }
}

/// The text in a colour, where colours are shown.
pub fn paint(color: bool, code: &str, text: &str) -> (r: String)
    ensures
        r@ == painted(color, code@, text@),
{
    if color {
        let mut s = code.to_owned();
        s.append(text);
        s.append("\x1b[0m");
        s
    } else {
        text.to_owned()
    }
}

/// What is said of browsers of one family: where they trust the authority, how one is started,
/// and an empty line.
pub open spec fn family_lines(color: bool, title: Seq<char>, command: Seq<char>) -> Seq<Seq<char>> {
    seq![
        painted(color, "\x1b[1;33m"@, title),
        painted(color, "\x1b[36m"@, command),
        seq![],
    ]
}

/// The lines that are shown when the proxy listens: its address, how to start the browsers that
/// are there, and where the certificate is.
pub open spec fn usage_lines(
    color: bool,
    home: Seq<char>,
    ca_cert: Seq<char>,
    proxy_port: u16,
    user_agent: Option<Seq<char>>,
    has_chromium: bool,
    has_firefox: bool,
) -> Seq<Seq<char>> {
    let none: Seq<char> = seq![];
    seq![
        none,
        painted(color, "\x1b[1;32m"@, "MITM proxy listening on "@ + proxy_url(proxy_port)),
        none,
    ] + (if has_chromium {
        family_lines(
            color,
            "Chromium-based (CA trusted via ./"@ + BROWSER_HOME_DIR@ + "/.pki):"@,
            shell_command(home, "chromium"@, chromium_args(home, proxy_port, user_agent)),
        )
    } else {
        seq![]
    }) + (if has_firefox {
        family_lines(
            color,
            "Firefox-based (CA trusted via ./"@ + BROWSER_HOME_DIR@ + "/"@ + FIREFOX_BASE_DIR@
                + "/"@ + FIREFOX_PROFILE_ENTRY@ + "):"@,
            shell_command(home, "firefox"@, firefox_args(firefox_profile(home), seq![])),
        )
    } else {
        seq![]
    }) + seq![
        painted(color, "\x1b[1;33m"@, "CA certificate (manual import):"@),
        painted(color, "\x1b[2m"@, ca_cert),
        none,
    ]
}

fn push_family(lines: &mut Vec<String>, color: bool, title: &str, command: &str)
    ensures
        texts(final(lines)@) == texts(old(lines)@) + family_lines(color, title@, command@),
{
    let empty = String::new();
    assert(empty@ =~= Seq::<char>::empty());
    push_arg(lines, paint(color, "\x1b[1;33m", title));
    push_arg(lines, paint(color, "\x1b[36m", command));
    push_arg(lines, empty);
    assert(texts(lines@) =~= texts(old(lines)@) + family_lines(color, title@, command@));
}

fn push_empty(lines: &mut Vec<String>)
    ensures
        texts(final(lines)@) == texts(old(lines)@).push(seq![]),
{
    let empty = String::new();
    assert(empty@ =~= Seq::<char>::empty());
    push_arg(lines, empty);
}

/// The lines that are shown when the proxy listens.
pub fn proxy_usage(
    color: bool,
    home: &str,
    ca_cert: &str,
    proxy_port: u16,
    user_agent: Option<&str>,
    has_chromium: bool,
    has_firefox: bool,
) -> (r: Vec<String>)
    ensures
        texts(r@) == usage_lines(
            color,
            home@,
            ca_cert@,
            proxy_port,
            opt_str(user_agent),
            has_chromium,
            has_firefox,
        ),
{
    let mut lines: Vec<String> = Vec::new();
    let title = prefixed("MITM proxy listening on ", proxy_url_text(proxy_port).as_str());
    push_empty(&mut lines);
    push_arg(&mut lines, paint(color, "\x1b[1;32m", title.as_str()));
    push_empty(&mut lines);
    if has_chromium {
        let mut title = "Chromium-based (CA trusted via ./".to_owned();
        title.append(BROWSER_HOME_DIR);
        title.append("/.pki):");
        let args = chromium_argv(home, proxy_port, user_agent);
        let command = format_shell_command(home, "chromium", args.as_slice());
        push_family(&mut lines, color, title.as_str(), command.as_str());
    }
    if has_firefox {
        let mut title = "Firefox-based (CA trusted via ./".to_owned();
        title.append(BROWSER_HOME_DIR);
        title.append("/");
        title.append(FIREFOX_BASE_DIR);
        title.append("/");
        title.append(FIREFOX_PROFILE_ENTRY);
        title.append("):");
        let none: Vec<String> = Vec::new();
        assert(texts(none@) =~= Seq::<Seq<char>>::empty());
        let args = firefox_argv(firefox_profile_dir(home).as_str(), none.as_slice());
        let command = format_shell_command(home, "firefox", args.as_slice());
        push_family(&mut lines, color, title.as_str(), command.as_str());
    }
    push_arg(&mut lines, paint(color, "\x1b[1;33m", "CA certificate (manual import):"));
    push_arg(&mut lines, paint(color, "\x1b[2m", ca_cert));
    push_empty(&mut lines);
    assert(texts(lines@) =~= usage_lines(
        color,
        home@,
        ca_cert@,
        proxy_port,
        opt_str(user_agent),
        has_chromium,
        has_firefox,
    ));
    lines
}

// ---------------------------------------------------------------------------
// Choosing a browser.
// ---------------------------------------------------------------------------

/// The names of browsers based on Chromium, in the order in which they are looked for.
pub open spec fn chromium_names() -> Seq<Seq<char>> {
    seq![
        "chromium"@,
        "chromium-browser"@,
        "google-chrome-stable"@,
        "google-chrome"@,
        "brave-browser"@,
        "microsoft-edge-stable"@,
        "vivaldi-stable"@,
    ]
}

/// The names of browsers based on Firefox, in the order in which they are looked for.
pub open spec fn firefox_names() -> Seq<Seq<char>> {
    seq!["firefox"@, "firefox-esr"@, "librewolf"@, "waterfox"@, "floorp"@]
}

/// The names of browsers based on Chromium.
pub fn chromium_family() -> (r: Vec<String>)
    ensures
        texts(r@) == chromium_names(),
{
    let r: Vec<String> = vec![
        "chromium".to_owned(),
        "chromium-browser".to_owned(),
        "google-chrome-stable".to_owned(),
        "google-chrome".to_owned(),
        "brave-browser".to_owned(),
        "microsoft-edge-stable".to_owned(),
        "vivaldi-stable".to_owned(),
    ];
    assert(texts(r@) =~= chromium_names());
    r
}

/// The names of browsers based on Firefox.
pub fn firefox_family() -> (r: Vec<String>)
    ensures
        texts(r@) == firefox_names(),
{
    let r: Vec<String> = vec![
        "firefox".to_owned(),
        "firefox-esr".to_owned(),
        "librewolf".to_owned(),
        "waterfox".to_owned(),
        "floorp".to_owned(),
    ];
    assert(texts(r@) =~= firefox_names());
    r
}

/// A name of a browser based on Firefox.
pub open spec fn firefox_like(base: Seq<char>) -> bool {
    ||| holds_part(base, "firefox"@)
    ||| holds_part(base, "librewolf"@)
    ||| holds_part(base, "waterfox"@)
    ||| holds_part(base, "floorp"@)
    ||| holds_part(base, "zen"@)
    ||| holds_part(base, "iceweasel"@)
    ||| holds_part(base, "seamonkey"@)
    ||| holds_part(base, "palemoon"@)
    ||| base == "mozilla"@
}

/// A name of a browser based on Chromium.
pub open spec fn chromium_like(base: Seq<char>) -> bool {
    ||| holds_part(base, "chrom"@)
    ||| holds_part(base, "brave"@)
    ||| holds_part(base, "vivaldi"@)
    ||| holds_part(base, "msedge"@)
    ||| holds_part(base, "edge"@)
    ||| holds_part(base, "opera"@)
    ||| holds_part(base, "chrome"@) && !holds_part(base, "chromedriver"@)
}

/// The kind of a browser by the name of its executable, in lowercase.
pub open spec fn kind_of_name(base: Seq<char>) -> Option<BrowserKind> {
    if firefox_like(base) {
        Some(BrowserKind::Firefox)
    } else if chromium_like(base) {
        Some(BrowserKind::Chromium)
    } else {
        None
    }
}

/// The kind of a browser by its executable.
pub open spec fn kind_of(path: Seq<char>) -> Option<BrowserKind> {
    match file_name(path) {
        Some(name) => kind_of_name(lowercase(name)),
        None => None,
    }
}

pub fn is_firefox_like(base: &str) -> (r: bool)
    ensures
        r == firefox_like(base@),
{
    contains(base, "firefox") || contains(base, "librewolf") || contains(base, "waterfox")
        || contains(base, "floorp") || contains(base, "zen") || contains(base, "iceweasel")
        || contains(base, "seamonkey") || contains(base, "palemoon") || same(base, "mozilla")
}

pub fn is_chromium_like(base: &str) -> (r: bool)
    ensures
        r == chromium_like(base@),
{
    contains(base, "chrom") || contains(base, "brave") || contains(base, "vivaldi") || contains(
        base,
        "msedge",
    ) || contains(base, "edge") || contains(base, "opera") || (contains(base, "chrome")
        && !contains(base, "chromedriver"))
}

/// The kind of a browser by the name of its executable, in lowercase.
pub fn classify_name(base: &str) -> (r: Option<BrowserKind>)
    ensures
        r == kind_of_name(base@),
{
    if is_firefox_like(base) {
        Some(BrowserKind::Firefox)
    } else if is_chromium_like(base) {
        Some(BrowserKind::Chromium)
    } else {
        None
    }
}

/// The kind of a browser by its executable.
pub fn classify_executable(path: &str) -> (r: Option<BrowserKind>)
    ensures
        r == kind_of(path@),
{
    match file_name_of(path) {
        Some(name) => classify_name(name.as_str().to_lowercase().as_str()),
        None => None,
    }
}

/// A browser that is named by its path, not by its name.
pub open spec fn path_like(browser: Seq<char>) -> bool {
    browser.contains('/') || browser.contains('\\')
}

/// Whether a browser is named by its path.
pub fn is_path_like(browser: &str) -> (r: bool)
    ensures
        r == path_like(browser@),
{
    contains_char(browser, '/') || contains_char(browser, '\\')
}

/// The view of a choice: the kind and the executable, or why there is none.
pub open spec fn choice(r: Result<BrowserSelection, String>) -> Result<
    (BrowserKind, Seq<char>),
    Seq<char>,
> {
    match r {
        Ok(selection) => Ok((selection.kind, selection.executable@)),
        Err(message) => Err(message@),
    }
}

/// The browser that was asked for by its name or its path, where `found` is its executable.
pub open spec fn explicit_choice(browser: Seq<char>, found: Option<Seq<char>>) -> Result<
    (BrowserKind, Seq<char>),
    Seq<char>,
> {
    match found {
        Some(path) => match kind_of(path) {
            Some(kind) => Ok((kind, path)),
            None => Err("unsupported browser: "@ + path),
        },
        None => if path_like(browser) {
            Err("browser not found: "@ + browser)
        } else {
            Err("browser not found in PATH: "@ + browser)
        },
    }
}

/// The first of the executables that is a browser.
pub open spec fn default_choice(candidates: Seq<Seq<char>>) -> Result<
    (BrowserKind, Seq<char>),
    Seq<char>,
>
    decreases candidates.len(),
{
    if candidates.len() == 0 {
        Err(NO_BROWSER@)
    } else {
        match kind_of(candidates[0]) {
            Some(kind) => Ok((kind, candidates[0])),
            None => default_choice(candidates.drop_first()),
        }
    }
}

/// The browser that was asked for by its name or its path, where `found` is its executable.
pub fn resolve_explicit(browser: &str, found: Option<String>) -> (r: Result<
    BrowserSelection,
    String,
>)
    ensures
        choice(r) == explicit_choice(browser@, opt_text(found)),
{
    match found {
        Some(path) => match classify_executable(path.as_str()) {
            Some(kind) => Ok(BrowserSelection { kind, executable: path }),
            None => Err(prefixed("unsupported browser: ", path.as_str())),
        },
        None => if is_path_like(browser) {
            Err(prefixed("browser not found: ", browser))
        } else {
            Err(prefixed("browser not found in PATH: ", browser))
        },
    }
}

/// The commands that the value of `BROWSER` names: the first word of each part that has one.
pub open spec fn commands_of(parts: Seq<Seq<char>>) -> Seq<Seq<char>>
    decreases parts.len(),
{
    if parts.len() == 0 {
        seq![]
    } else {
        match next_word(trim(parts.last())) {
            Some((command, _)) => commands_of(parts.drop_last()).push(command),
            None => commands_of(parts.drop_last()),
        }
    }
}

/// The commands that the value of `BROWSER` names, where this character stands between its parts.
pub fn browser_commands(value: &str, separator: char) -> (r: Vec<String>)
    ensures
        texts(r@) == commands_of(split_on(value@, separator)),
{
    let parts = split_char(value, separator);
    let ghost all = texts(parts@);
    let mut commands: Vec<String> = Vec::new();
    let mut i: usize = 0;
    assert(texts(commands@) =~= commands_of(all.take(0)));
    while i < parts.len()
        invariant
            i <= parts@.len(),
            all == texts(parts@),
            texts(commands@) == commands_of(all.take(i as int)),
        decreases parts@.len() - i,
    {
        assert(all.take(i + 1).drop_last() =~= all.take(i as int));
        assert(all.take(i + 1).last() == parts@[i as int]@);
        let part = trimmed(parts[i].as_str());
        if let Some((command, _)) = first_word(part.as_str()) {
            push_arg(&mut commands, command);
        }
        i = i + 1;
    }
    assert(all.take(i as int) =~= all);
    commands
}

/// The default browser that a settings program named: its output where it succeeded and it is
/// text that is not empty.
pub fn desktop_entry(success: bool, output: &[u8]) -> (r: Option<String>)
    ensures
        match r {
            Some(entry) => {
                &&& success
                &&& valid_utf8(output@)
                &&& entry@ == trim(decode_utf8(output@))
                &&& entry@.len() > 0
            },
            None => !success || !valid_utf8(output@) || trim(decode_utf8(output@)).len() == 0,
        },
{
    if !success {
        return None;
    }
    match utf8_text(output) {
        Some(text) => {
            let entry = trimmed(text.as_str());
            if entry.as_str().is_empty() {
                None
            } else {
                Some(entry)
            }
        },
        None => None,
    }
}

/// The name of a desktop entry without its extension.
pub open spec fn entry_name(entry: Seq<char>) -> Seq<char> {
    if finishes_with(entry, ".desktop"@) {
        entry.take(entry.len() - 8)
    } else {
        entry
    }
}

/// The command that a desktop entry is named after.
pub fn desktop_command(entry: &str) -> (r: String)
    ensures
        r@ == entry_name(entry@),
{
    proof {
        reveal_strlit(".desktop");
    }
    if ends_with(entry, ".desktop") {
        let c = chars_of(entry);
        let s = text_of(c.as_slice(), 0, c.len() - 8);
        assert(s@ =~= entry@.take(entry@.len() - 8));
        s
    } else {
        entry.to_owned()
    }
}

/// A list of one where there is one, else an empty list.
pub open spec fn one_or_none(path: Option<Seq<char>>) -> Seq<Seq<char>> {
    match path {
        Some(p) => seq![p],
        None => seq![],
    }
}

/// The executables that come into question: the default browser of the desktop, those that
/// `BROWSER` names, and the first of each family that is there.
pub fn browser_candidates(
    desktop: Option<String>,
    named: Vec<String>,
    chromium: Option<String>,
    firefox: Option<String>,
) -> (r: Vec<String>)
    ensures
        texts(r@) == one_or_none(opt_text(desktop)) + texts(named@) + one_or_none(
            opt_text(chromium),
        ) + one_or_none(opt_text(firefox)),
{
    let ghost want = one_or_none(opt_text(desktop)) + texts(named@) + one_or_none(
        opt_text(chromium),
    ) + one_or_none(opt_text(firefox));
    let mut out: Vec<String> = Vec::new();
    if let Some(path) = desktop {
        push_arg(&mut out, path);
    }
    let ghost first = texts(out@);
    assert(first =~= one_or_none(opt_text(desktop)));
    let ghost all = texts(named@);
    let mut i: usize = 0;
    assert(first + all.take(0) =~= first);
    while i < named.len()
        invariant
            i <= named@.len(),
            all == texts(named@),
            texts(out@) == first + all.take(i as int),
        decreases named@.len() - i,
    {
        assert(first + all.take(i + 1) =~= (first + all.take(i as int)).push(named@[i as int]@));
        push_arg(&mut out, named[i].clone());
        i = i + 1;
    }
    assert(all.take(i as int) =~= all);
    if let Some(path) = chromium {
        push_arg(&mut out, path);
    }
    if let Some(path) = firefox {
        push_arg(&mut out, path);
    }
    assert(texts(out@) =~= want);
    out
}

pub const NO_BROWSER: &'static str =
    "no supported browser found (install chromium or firefox, or pass NAME|PATH to launch)";

/// The first of the executables that is a browser.
pub fn resolve_default_webbrowser(candidates: &[String]) -> (r: Result<BrowserSelection, String>)
    ensures
        choice(r) == default_choice(texts(candidates@)),
{
    let ghost all = texts(candidates@);
    let mut i: usize = 0;
    assert(all.skip(0) =~= all);
    while i < candidates.len()
        invariant
            i <= candidates@.len(),
            all == texts(candidates@),
            default_choice(all) == default_choice(all.skip(i as int)),
        decreases candidates@.len() - i,
    {
        assert(all.skip(i as int)[0] == candidates@[i as int]@);
        assert(all.skip(i as int).drop_first() =~= all.skip(i + 1));
        if let Some(kind) = classify_executable(candidates[i].as_str()) {
            return Ok(BrowserSelection { kind, executable: candidates[i].clone() });
        }
        i = i + 1;
    }
    Err(NO_BROWSER.to_owned())
}

/// The browser to start: the one that was asked for, where `found` is its executable, else the
/// first of the executables that come into question.
pub fn resolve_browser(browser: Option<&str>, found: Option<String>, candidates: &[String]) -> (r:
    Result<BrowserSelection, String>)
    ensures
        choice(r) == match browser {
            Some(browser) => explicit_choice(browser@, opt_text(found)),
            None => default_choice(texts(candidates@)),
        },
{
    match browser {
        Some(browser) => resolve_explicit(browser, found),
        None => resolve_default_webbrowser(candidates),
    }
}

/// An executable that no browser is made of never decides which one is chosen.
pub proof fn law_other_executables_do_not_count(candidates: Seq<Seq<char>>, i: int)
    requires
        0 <= i < candidates.len(),
        kind_of(candidates[i]) is None,
    ensures
        default_choice(candidates.remove(i)) == default_choice(candidates),
    decreases candidates.len(),
{
    if i == 0 {
        assert(candidates.remove(0) =~= candidates.drop_first());
    } else {
        law_other_executables_do_not_count(candidates.drop_first(), i - 1);
        assert(candidates.remove(i).drop_first() =~= candidates.drop_first().remove(i - 1));
        assert(candidates.remove(i)[0] == candidates[0]);
    }
}

/// Whatever browser is started, its own arguments come last, as they were given. Chromium is told
/// the proxy and its profile, and Firefox its profile; both profiles are below the home.
pub proof fn law_browser_goes_through_the_proxy(
    home: Seq<char>,
    port: u16,
    agent: Option<Seq<char>>,
    extra: Seq<Seq<char>>,
)
    ensures
        ({
            let args = launch_argv(BrowserKind::Chromium, home, port, agent, extra);
            &&& finishes_with(args, extra)
            &&& args.contains("--proxy-server=http://127.0.0.1:"@ + decimal(port as nat))
            &&& args.contains("--proxy-bypass-list=<-loopback>"@)
            &&& args.contains("--user-data-dir="@ + joined_path(home, "chrome-profile"@))
            &&& agent is Some ==> args.contains("--user-agent="@ + agent->0)
        }),
        ({
            let args = launch_argv(BrowserKind::Firefox, home, port, agent, extra);
            &&& finishes_with(args, extra)
            &&& args[1] == "-profile"@
            &&& args[2] == joined_path(
                joined_path(home, ".mozilla/firefox"@),
                "httplogger.default"@,
            )
        }),
{
    reveal_strlit("--proxy-server=");
    reveal_strlit("http://127.0.0.1:");
    reveal_strlit("--proxy-server=http://127.0.0.1:");
    assert("--proxy-server="@ + "http://127.0.0.1:"@ =~= "--proxy-server=http://127.0.0.1:"@);
    let d = decimal(port as nat);
    assert("--proxy-server="@ + ("http://127.0.0.1:"@ + d) =~= ("--proxy-server="@
        + "http://127.0.0.1:"@) + d);
    let own = chromium_args(home, port, agent);
    let args = launch_argv(BrowserKind::Chromium, home, port, agent, extra);
    assert(args.skip(args.len() - extra.len()) =~= extra);
    assert(args[0] == own[0]);
    assert(args[5] == own[5]);
    assert(args[6] == own[6]);
    if agent is Some {
        assert(args[7] == own[7]);
    }
    let fire = launch_argv(BrowserKind::Firefox, home, port, agent, extra);
    assert(fire.skip(fire.len() - extra.len()) =~= extra);
}

/// Firefox opens a new tab unless it is given a page.
pub proof fn law_firefox_opens_a_page(profile: Seq<char>, extra: Seq<Seq<char>>, i: int)
    ensures
        0 <= i < extra.len() && (begins_with(extra[i], "http://"@) || begins_with(
            extra[i],
            "https://"@,
        ) || begins_with(extra[i], "about:"@)) ==> firefox_args(profile, extra).len() == 3,
        (forall|j: int|
            0 <= j < extra.len() ==> !begins_with(#[trigger] extra[j], "http://"@) && !begins_with(
                extra[j],
                "https://"@,
            ) && !begins_with(extra[j], "about:"@)) ==> firefox_args(profile, extra).len() == 5
            && firefox_args(profile, extra)[3] == "-url"@ && firefox_args(profile, extra)[4]
            == "about:newtab"@,
        firefox_args(profile, extra)[0] == "-no-remote"@,
{
    if 0 <= i < extra.len() {
        if url_like(extra[i]) {
            assert(opens_url(extra));
        }
    }
}

/// The user agent of the settings is handed to Chromium, and nothing is where there is none.
pub proof fn law_user_agent_is_handed_on(home: Seq<char>, port: u16, agent: Seq<char>)
    ensures
        chromium_args(home, port, Some(agent)) == chromium_args(home, port, None).push(
            "--user-agent="@ + agent,
        ),
        user_js(port, 0, Some(agent)) == user_js(port, 0, None)
            + "user_pref(\"general.useragent.override\", "@ + debug_text(agent) + ");\n"@,
{
}

/// The preferences of Firefox name the port of the proxy for both kinds of pages.
pub proof fn law_preferences_name_the_proxy(port: u16, now_ms: u64, agent: Option<Seq<char>>)
    ensures
        ({
            let js = user_js(port, now_ms, agent);
            &&& begins_with(
                js,
                "user_pref(\"network.proxy.type\", 1);\nuser_pref(\"network.proxy.http\", \"127.0.0.1\");\nuser_pref(\"network.proxy.http_port\", "@
                    + decimal(port as nat)
                    + ");\nuser_pref(\"network.proxy.ssl\", \"127.0.0.1\");\nuser_pref(\"network.proxy.ssl_port\", "@
                    + decimal(port as nat) + ");\n"@,
            )
        }),
{
    let js = user_js(port, now_ms, agent);
    let d = decimal(port as nat);
    let a =
        "user_pref(\"network.proxy.type\", 1);\nuser_pref(\"network.proxy.http\", \"127.0.0.1\");\nuser_pref(\"network.proxy.http_port\", "@
        + d
        + ");\nuser_pref(\"network.proxy.ssl\", \"127.0.0.1\");\nuser_pref(\"network.proxy.ssl_port\", "@
        + d;
    reveal_strlit(
        ");\nuser_pref(\"network.proxy.share_proxy_settings\", true);\nuser_pref(\"network.proxy.allow_hijacking_localhost\", true);\nuser_pref(\"network.proxy.no_proxies_on\", \"\");\nuser_pref(\"browser.aboutwelcome.enabled\", false);\nuser_pref(\"startup.homepage_welcome_url\", \"\");\nuser_pref(\"startup.homepage_welcome_url.additional\", \"\");\nuser_pref(\"browser.startup.homepage_override.mstone\", \"ignore\");\nuser_pref(\"datareporting.policy.dataSubmissionPolicyAcceptedVersion\", 999);\nuser_pref(\"datareporting.policy.dataSubmissionPolicyNotifiedTime\", \"",
    );
    reveal_strlit(");\n");
    let want = a + ");\n"@;
    assert(js.len() >= want.len());
    assert(js.take(want.len() as int) =~= want);
}

/// The preferences that are kept are those of no greeting, in their order.
pub proof fn law_greeting_preferences_are_left_out(
    front: Seq<Seq<char>>,
    line: Seq<char>,
    back: Seq<Seq<char>>,
)
    ensures
        holds_part(line, "startup.homepage_welcome"@) || holds_part(line, "trailhead.firstrun"@)
            || holds_part(line, "datareporting.policy.dataSubmissionPolicy"@) || holds_part(
            line,
            "browser.aboutwelcome"@,
        ) ==> other_prefs(front + seq![line] + back) == other_prefs(front) + other_prefs(back),
        !holds_part(line, "startup.homepage_welcome"@) && !holds_part(line, "trailhead.firstrun"@)
            && !holds_part(line, "datareporting.policy.dataSubmissionPolicy"@) && !holds_part(
            line,
            "browser.aboutwelcome"@,
        ) ==> other_prefs(front + seq![line] + back) == other_prefs(front) + seq![line]
            + other_prefs(back),
        other_prefs(seq![]).len() == 0,
{
    lemma_prefs_of_both(front + seq![line], back);
    lemma_prefs_of_both(front, seq![line]);
    reveal_with_fuel(other_prefs, 2);
    assert(seq![line].drop_last() =~= seq![]);
    if firstrun_pref(line) {
        assert(other_prefs(seq![line]) =~= seq![]);
        assert(other_prefs(front) + Seq::<Seq<char>>::empty() =~= other_prefs(front));
    } else {
        assert(other_prefs(seq![line]) =~= seq![line]);
    }
}

proof fn lemma_prefs_of_both(a: Seq<Seq<char>>, b: Seq<Seq<char>>)
    ensures
        other_prefs(a + b) == other_prefs(a) + other_prefs(b),
    decreases b.len(),
{
    if b.len() == 0 {
        assert(a + b =~= a);
        assert(other_prefs(a) + Seq::<Seq<char>>::empty() =~= other_prefs(a));
    } else {
        lemma_prefs_of_both(a, b.drop_last());
        assert((a + b).drop_last() =~= a + b.drop_last());
        assert((a + b).last() == b.last());
        assert(other_prefs(a + b) =~= other_prefs(a) + other_prefs(b));
    }
}

/// A line ends at a line feed, with or without a carriage return before it; what follows the last
/// line feed is a line where it is not empty.
pub proof fn law_lines_end_at_line_feed(line: Seq<char>, rest: Seq<char>)
    requires
        !line.contains('\n'),
    ensures
        line.len() == 0 || line.last() != '\r' ==> text_lines(line + seq!['\n'] + rest) == seq![line]
            + text_lines(rest) && text_lines(line + seq!['\r', '\n'] + rest) == seq![line]
            + text_lines(rest),
        line.len() > 0 ==> text_lines(line) == seq![line],
        text_lines(seq![]).len() == 0,
{
    let n = line.len() as int;
    let s = line + seq!['\n'] + rest;
    let t = line + seq!['\r', '\n'] + rest;
    assert forall|j: int| 0 <= j < n implies line[j] != '\n' by {
        assert(line.contains(line[j]));
    }
    lemma_first_of_is(s, '\n', n);
    assert forall|j: int| 0 <= j < n + 1 implies t[j] != '\n' by {
        if j < n {
            assert(t[j] == line[j]);
        }
    }
    lemma_first_of_is(t, '\n', n + 1);
    assert(s.take(n) =~= line);
    assert(s.skip(n + 1) =~= rest);
    assert(t.take(n) =~= line);
    assert(t.skip(n + 2) =~= rest);
    assert(n > 0 ==> s[n - 1] == line.last());
    assert(t[n] == '\r');
    lemma_first_of(line, '\n');
}

/// The directories that are shared are linked under their own names, in their order; the trust
/// store alone is not.
pub proof fn law_shared_directories_keep_their_names(
    ssl_home: Seq<char>,
    real_share: Seq<char>,
    front: Seq<Seq<char>>,
    name: Seq<char>,
)
    ensures
        name == "pki"@ ==> shared_links(ssl_home, real_share, front.push(name)) == shared_links(
            ssl_home,
            real_share,
            front,
        ),
        name != "pki"@ ==> {
            let links = shared_links(ssl_home, real_share, front.push(name));
            &&& links.len() == shared_links(ssl_home, real_share, front).len() + 1
            &&& links.drop_last() == shared_links(ssl_home, real_share, front)
            &&& links.last().0 == joined_path(joined_path(ssl_home, ".local/share"@), name)
            &&& links.last().1 == joined_path(real_share, name)
        },
        shared_links(ssl_home, real_share, seq![]).len() == 0,
{
    assert(front.push(name).drop_last() =~= front);
    if name != "pki"@ {
        let links = shared_links(ssl_home, real_share, front.push(name));
        assert(links.drop_last() =~= shared_links(ssl_home, real_share, front));
    }
}

/// A directory of the session is the one that the environment names, unless that is empty.
pub proof fn law_session_directory(value: Seq<char>, home: Seq<char>, usual: Seq<char>)
    ensures
        value.len() > 0 ==> xdg_dir(Some(value), home, usual) == value,
        xdg_dir(Some(seq![]), home, usual) == joined_path(home, usual),
        xdg_dir(None, home, usual) == joined_path(home, usual),
{
}

/// The default browser is the first executable that is a browser.
pub proof fn law_first_browser_is_chosen(candidates: Seq<Seq<char>>, i: int)
    requires
        forall|j: int| 0 <= j < i && j < candidates.len() ==> kind_of(#[trigger] candidates[j])
            is None,
    ensures
        0 <= i < candidates.len() && kind_of(candidates[i]) is Some ==> default_choice(candidates)
            == Ok::<(BrowserKind, Seq<char>), Seq<char>>((kind_of(candidates[i])->0, candidates[i])),
        i >= candidates.len() ==> default_choice(candidates) is Err,
    decreases candidates.len(),
{
    if candidates.len() > 0 && i > 0 {
        let rest = candidates.drop_first();
        assert(kind_of(candidates[0]) is None);
        assert forall|j: int| 0 <= j < i - 1 && j < rest.len() implies kind_of(
            #[trigger] rest[j],
        ) is None by {
            assert(rest[j] == candidates[j + 1]);
        }
        law_first_browser_is_chosen(rest, i - 1);
    }
}

/// A browser that is asked for is taken where it was found and is a browser; nothing else is taken
/// in its place.
pub proof fn law_browser_that_is_asked_for(browser: Seq<char>, path: Seq<char>)
    ensures
        kind_of(path) is Some ==> explicit_choice(browser, Some(path)) == Ok::<
            (BrowserKind, Seq<char>),
            Seq<char>,
        >((kind_of(path)->0, path)),
        kind_of(path) is None ==> explicit_choice(browser, Some(path)) == Err::<
            (BrowserKind, Seq<char>),
            Seq<char>,
        >("unsupported browser: "@ + path),
        explicit_choice(browser, None) is Err,
        browser.contains('/') || browser.contains('\\') ==> explicit_choice(browser, None)
            == Err::<(BrowserKind, Seq<char>), Seq<char>>("browser not found: "@ + browser),
        !browser.contains('/') && !browser.contains('\\') ==> explicit_choice(browser, None)
            == Err::<(BrowserKind, Seq<char>), Seq<char>>("browser not found in PATH: "@ + browser),
{
}

/// A name with the name of a Firefox in it is a Firefox, whatever else it holds; one with the name
/// of a Chromium is a Chromium where it is no Firefox; any other name is no browser.
pub proof fn law_name_decides_the_family(base: Seq<char>)
    ensures
        ({
            let firefox = holds_part(base, "firefox"@) || holds_part(base, "librewolf"@)
                || holds_part(base, "waterfox"@) || holds_part(base, "floorp"@) || holds_part(
                base,
                "zen"@,
            ) || holds_part(base, "iceweasel"@) || holds_part(base, "seamonkey"@) || holds_part(
                base,
                "palemoon"@,
            ) || base == "mozilla"@;
            let chromium = holds_part(base, "chrom"@) || holds_part(base, "brave"@) || holds_part(
                base,
                "vivaldi"@,
            ) || holds_part(base, "msedge"@) || holds_part(base, "edge"@) || holds_part(
                base,
                "opera"@,
            );
            &&& firefox <==> kind_of_name(base) == Some(BrowserKind::Firefox)
            &&& chromium && !firefox <==> kind_of_name(base) == Some(BrowserKind::Chromium)
            &&& !firefox && !chromium <==> kind_of_name(base) is None
        }),
{
    reveal_strlit("chrome");
    reveal_strlit("chrom");
    if holds_part(base, "chrome"@) {
        let i = choose|i: int| #[trigger] stands_at(base, "chrome"@, i);
        assert(base.subrange(i, i + 5) =~= base.subrange(i, i + 6).take(5));
        assert("chrome"@.take(5) =~= "chrom"@);
        assert(stands_at(base, "chrom"@, i));
    }
}

/// The kind of an executable is decided by its name, whatever directory it is in and whatever the
/// case of its letters.
pub proof fn law_directory_does_not_decide(path: Seq<char>, other: Seq<char>)
    requires
        file_name(path) is Some,
        file_name(other) is Some,
        lowercase(file_name(path)->0) == lowercase(file_name(other)->0),
    ensures
        kind_of(path) == kind_of(other),
        kind_of(path) == kind_of_name(lowercase(file_name(path)->0)),
{
}

/// The commands are the first words of the parts that have one, in their order.
pub proof fn law_commands_are_first_words(
    front: Seq<Seq<char>>,
    word: Seq<char>,
    rest: Seq<char>,
    blank: Seq<char>,
)
    requires
        trim(blank).len() == 0,
        is_plain_word(word),
        rest.len() == 0 || white_space(rest[0]),
    ensures
        commands_of(seq![]).len() == 0,
        commands_of(front.push(blank)) == commands_of(front),
        commands_of(front.push(word)) == commands_of(front).push(word),
        trim(word + rest) == word + rest ==> commands_of(front.push(word + rest)) == commands_of(
            front,
        ).push(word),
{
    assert(front.push(blank).drop_last() =~= front);
    assert(front.push(word).drop_last() =~= front);
    assert(front.push(word + rest).drop_last() =~= front);
    law_white_space_has_no_word(trim(blank));
    law_next_word(word, rest);
    law_next_word(word, seq![]);
    assert(word + Seq::<char>::empty() =~= word);
    assert(trim(word) =~= word) by {
        lemma_trim_start(word, 0);
        lemma_trim_end(word, word.len() as int);
        assert(word.skip(0) =~= word);
        assert(word.take(word.len() as int) =~= word);
    }
}

/// The name of a desktop entry is what stands before its extension.
pub proof fn law_desktop_entry_is_named_after_its_command(name: Seq<char>)
    ensures
        entry_name(name + ".desktop"@) == name,
        !finishes_with(name, ".desktop"@) ==> entry_name(name) == name,
{
    reveal_strlit(".desktop");
    let all = name + ".desktop"@;
    assert(all.skip(all.len() - 8) =~= ".desktop"@);
    assert(all.take(all.len() - 8) =~= name);
}

/// A command for a shell names the home first, then the browser, then each argument in quotes.
pub proof fn law_shell_command_in_order(home: Seq<char>, binary: Seq<char>, args: Seq<Seq<char>>)
    ensures
        shell_command(home, binary, seq![]) == "HOME="@ + quoted(home) + " "@ + binary,
        args.len() > 0 ==> shell_command(home, binary, args) == shell_command(
            home,
            binary,
            args.drop_last(),
        ) + " "@ + quoted(args.last()),
{
    let head = seq!["HOME="@ + quoted(home), binary];
    assert(head + quoted_args(seq![]) =~= head);
    reveal_with_fuel(join, 3);
    assert(head.drop_last() =~= seq!["HOME="@ + quoted(home)]);
    if args.len() > 0 {
        let all = head + quoted_args(args);
        assert(all.drop_last() =~= head + quoted_args(args.drop_last()));
        assert(all.last() == quoted(args.last()));
    }
}

/// Color changes nothing of a text but what stands around it.
pub proof fn law_color_stands_around_text(code: Seq<char>, text: Seq<char>)
    ensures
        painted(false, code, text) == text,
        painted(true, code, text) == code + text + seq!['\x1b', '[', '0', 'm'],
{
    reveal_strlit("\x1b[0m");
    assert("\x1b[0m"@ =~= seq!['\x1b', '[', '0', 'm']);
}

/// What is said of the proxy names its address, and for each family that is there the command that
/// starts its browser.
pub proof fn law_usage_tells_the_commands(
    home: Seq<char>,
    ca_cert: Seq<char>,
    port: u16,
    agent: Option<Seq<char>>,
    has_chromium: bool,
    has_firefox: bool,
)
    ensures
        ({
            let lines = usage_lines(
                false,
                home,
                ca_cert,
                port,
                agent,
                has_chromium,
                has_firefox,
            );
            &&& lines.contains("MITM proxy listening on "@ + proxy_url(port))
            &&& has_chromium ==> lines.contains(
                shell_command(home, "chromium"@, chromium_args(home, port, agent)),
            )
            &&& has_firefox ==> lines.contains(
                shell_command(home, "firefox"@, firefox_args(firefox_profile(home), seq![])),
            )
            &&& lines.contains(ca_cert)
            &&& lines.len() == 6 + (if has_chromium {
                3int
            } else {
                0int
            }) + (if has_firefox {
                3int
            } else {
                0int
            })
        }),
{
    let lines = usage_lines(false, home, ca_cert, port, agent, has_chromium, has_firefox);
    let k = if has_chromium {
        3int
    } else {
        0int
    };
    let m = if has_firefox {
        3int
    } else {
        0int
    };
    assert(lines[1] == "MITM proxy listening on "@ + proxy_url(port));
    if has_chromium {
        assert(lines[4] == shell_command(home, "chromium"@, chromium_args(home, port, agent)));
    }
    if has_firefox {
        assert(lines[4 + k] == shell_command(
            home,
            "firefox"@,
            firefox_args(firefox_profile(home), seq![]),
        ));
    }
    assert(lines[4 + k + m] == ca_cert);
}

/// The URL of the proxy is on this machine.
pub proof fn law_proxy_is_local(port: u16)
    ensures
        proxy_url(port) == "http://127.0.0.1:"@ + decimal(port as nat),
        decimal_value(proxy_url(port).skip(17)) == port,
{
    reveal_strlit("http://127.0.0.1:");
    lemma_decimal(port as nat);
    assert(proxy_url(port).skip(17) =~= decimal(port as nat));
}

/// Browsers are looked for under these names, in this order.
pub proof fn law_browsers_are_looked_for_in_order()
    ensures
        join(chromium_names(), " "@) == "chromium"@ + " "@ + "chromium-browser"@ + " "@
            + "google-chrome-stable"@ + " "@ + "google-chrome"@ + " "@ + "brave-browser"@ + " "@
            + "microsoft-edge-stable"@ + " "@ + "vivaldi-stable"@,
        join(firefox_names(), " "@) == "firefox"@ + " "@ + "firefox-esr"@ + " "@ + "librewolf"@
            + " "@ + "waterfox"@ + " "@ + "floorp"@,
{
    reveal_with_fuel(join, 8);
    let c = chromium_names();
    assert(c.drop_last() =~= c.take(6));
    assert(c.take(6).drop_last() =~= c.take(5));
    assert(c.take(5).drop_last() =~= c.take(4));
    assert(c.take(4).drop_last() =~= c.take(3));
    assert(c.take(3).drop_last() =~= c.take(2));
    assert(c.take(2).drop_last() =~= c.take(1));
    let f = firefox_names();
    assert(f.drop_last() =~= f.take(4));
    assert(f.take(4).drop_last() =~= f.take(3));
    assert(f.take(3).drop_last() =~= f.take(2));
    assert(f.take(2).drop_last() =~= f.take(1));
}

/// A browser that was found is one candidate, and one that was not found is none.
pub proof fn law_found_browser_is_a_candidate(path: Seq<char>)
    ensures
        one_or_none(Some(path)).len() == 1 && one_or_none(Some(path))[0] == path,
        one_or_none(None).len() == 0,
{
}

/// What is said of the proxy in color is what is said of it without, with each title and each
/// command between the codes for its color.
pub proof fn law_usage_in_color(
    home: Seq<char>,
    ca_cert: Seq<char>,
    port: u16,
    agent: Option<Seq<char>>,
    has_chromium: bool,
    has_firefox: bool,
    i: int,
)
    ensures
        ({
            let plain = usage_lines(
                false,
                home,
                ca_cert,
                port,
                agent,
                has_chromium,
                has_firefox,
            );
            let color = usage_lines(true, home, ca_cert, port, agent, has_chromium, has_firefox);
            let n = plain.len();
            &&& color.len() == n
            &&& 0 <= i < n && i % 3 == 2 ==> plain[i].len() == 0 && color[i].len() == 0
            &&& color[1] == "\x1b[1;32m"@ + plain[1] + "\x1b[0m"@
            &&& 0 < i < n && i % 3 == 0 ==> color[i] == "\x1b[1;33m"@ + plain[i] + "\x1b[0m"@
            &&& 1 < i < n - 2 && i % 3 == 1 ==> color[i] == "\x1b[36m"@ + plain[i] + "\x1b[0m"@
            &&& color[n - 2] == "\x1b[2m"@ + plain[n - 2] + "\x1b[0m"@
        }),
{
}

/// A trust store is named as a database of its kind.
pub proof fn law_store_is_named_by_its_path(path: Seq<char>)
    ensures
        store_name(path).take(4) == seq!['s', 'q', 'l', ':'],
        store_name(path).skip(4) == path,
{
    reveal_strlit("sql:");
    assert(store_name(path).take(4) =~= seq!['s', 'q', 'l', ':']);
    assert(store_name(path).skip(4) =~= path);
}

} // verus!
