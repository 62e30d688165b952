use httplogger::browser::{
    browser_candidates, browser_commands, browser_home, chromium_argv, chromium_family,
    classify_executable, classify_name, desktop_command, desktop_entry, firefox_argv,
    firefox_family, firefox_profile_dir, firefox_user_js, format_shell_command, import_ca_args,
    init_nssdb_args, is_path_like, is_url_like, launch_args, local_share_links, paint,
    proxy_usage, remove_ca_args, resolve_browser, resolve_default_webbrowser, resolve_explicit, session_links,
    session_paths, shell_quote, strip_firstrun_prefs, xdg_path, BrowserKind,
};
use httplogger::ca::{
    ca_material, cert_path_for_key, default_ca_paths, ensure_ca, generate_key_pair, load_ca,
    CA_COMMON_NAME,
};
use httplogger::cli::{parse_command, split_at_double_dash, take_flag, usage, Command};

fn args(list: &[&str]) -> Vec<String> {
    list.iter().map(|s| s.to_string()).collect()
}

fn parse(list: &[&str]) -> Result<Command, String> {
    parse_command(&args(list))
}

fn refused(list: &[&str]) -> String {
    match parse(list) {
        Ok(c) => panic!("accepted: {c:?}"),
        Err(message) => message,
    }
}

#[test]
fn commands() {
    assert!(matches!(parse(&["init"]), Ok(Command::Init { force: false })));
    assert!(matches!(parse(&["init", "--force"]), Ok(Command::Init { force: true })));
    assert!(matches!(parse(&["proxy"]), Ok(Command::Proxy { key_path: None })));
    assert!(matches!(
        parse(&["proxy", "--key", "k.pem"]),
        Ok(Command::Proxy { key_path: Some(k) }) if k == "k.pem"
    ));
    for help in [&["--help"][..], &["-h"], &["launch", "-h"], &["proxy", "--key", "--help"]] {
        assert!(matches!(parse(help), Ok(Command::Help)));
    }
}

#[test]
fn launch_command() {
    match parse(&["launch", "--key", "./custom-ca-key.pem", "brave"]) {
        Ok(Command::Launch { key_path, browser, browser_args }) => {
            assert_eq!(key_path.as_deref(), Some("./custom-ca-key.pem"));
            assert_eq!(browser.as_deref(), Some("brave"));
            assert!(browser_args.is_empty());
        }
        other => panic!("{other:?}"),
    }
    match parse(&["launch", "/usr/bin/chromium", "--", "--new-window", "--", "--help"]) {
        Ok(Command::Launch { key_path, browser, browser_args }) => {
            assert_eq!(key_path, None);
            assert_eq!(browser.as_deref(), Some("/usr/bin/chromium"));
            assert_eq!(browser_args, args(&["--new-window", "--", "--help"]));
        }
        other => panic!("{other:?}"),
    }
}

#[test]
fn refused_command_lines() {
    assert_eq!(refused(&[]), usage());
    assert_eq!(refused(&["serve"]), format!("{}\n\nunknown command: serve", usage()));
    assert_eq!(refused(&["init", "x"]), "usage: httplogger init [--force]");
    assert_eq!(refused(&["proxy", "x"]), "usage: httplogger proxy [--key <ca-key.pem>]");
    assert_eq!(
        refused(&["proxy", "--key"]),
        "--key requires a path to the CA private key PEM file"
    );
    assert_eq!(
        refused(&["launch", "--key", "a", "--key", "b"]),
        "--key may only be specified once"
    );
    assert_eq!(
        refused(&["launch", "--key", "a", "--key"]),
        "--key requires a path to the CA private key PEM file"
    );
    assert_eq!(
        refused(&["launch", "--flag", "firefox", "more"]),
        format!("unexpected argument(s): --flag more\n\n{}", usage())
    );
}

#[test]
fn flags_and_dashes() {
    let (value, rest) = take_flag(&args(&["a", "--key", "v", "b"]), "--key", "x").unwrap();
    assert_eq!(value.as_deref(), Some("v"));
    assert_eq!(rest, args(&["a", "b"]));
    let (own, browser) = split_at_double_dash(&args(&["a", "--", "b", "--"]));
    assert_eq!(own, args(&["a"]));
    assert_eq!(browser, args(&["b", "--"]));
    assert!(usage().starts_with("usage: httplogger <command>\n\ncommands:\n  init "));
    assert!(usage().ends_with("\n\nlaunch:\n  browser args are only forwarded after --"));
}

#[test]
fn quoting_for_the_shell() {
    assert_eq!(shell_quote("plain"), "'plain'");
    assert_eq!(shell_quote(""), "''");
    assert_eq!(shell_quote("it's"), "'it'\\''s'");
    assert_eq!(
        format_shell_command("/my home", "firefox", &args(&["-url", "a'b"])),
        "HOME='/my home' firefox '-url' 'a'\\''b'"
    );
}

#[test]
fn arguments_of_browsers() {
    let chromium = chromium_argv("/h", 8079, Some("UA"));
    assert_eq!(
        chromium,
        args(&[
            "--user-data-dir=/h/chrome-profile",
            "--no-first-run",
            "--disable-sync",
            "--disable-background-networking",
            "--disable-features=ChromeWhatsNew",
            "--proxy-server=http://127.0.0.1:8079",
            "--proxy-bypass-list=<-loopback>",
            "--user-agent=UA",
        ])
    );
    assert_eq!(chromium_argv("/h", 1, None).len(), 7);
    let profile = firefox_profile_dir("/h");
    assert_eq!(profile, "/h/.mozilla/firefox/httplogger.default");
    assert_eq!(
        firefox_argv(&profile, &[]),
        args(&["-no-remote", "-profile", &profile, "-url", "about:newtab"])
    );
    assert_eq!(
        launch_args(BrowserKind::Firefox, "/h", 1, None, &args(&["-p", "https://x"])),
        args(&["-no-remote", "-profile", &profile, "-p", "https://x"])
    );
    let launched = launch_args(BrowserKind::Chromium, "/h", 8079, Some("UA"), &args(&["--x"]));
    assert_eq!(launched[..8], chromium[..]);
    assert_eq!(launched[8..], args(&["--x"])[..]);
    assert!(is_url_like("about:config"));
    assert!(!is_url_like("ftp://x"));
    assert_eq!(browser_home("/w"), "/w/home");
}

#[test]
fn lines_when_the_proxy_listens() {
    let lines = proxy_usage(false, "/w/home", "/w/ca.pem", 8079, None, false, false);
    assert_eq!(
        lines,
        args(&[
            "",
            "MITM proxy listening on http://127.0.0.1:8079",
            "",
            "CA certificate (manual import):",
            "/w/ca.pem",
            "",
        ])
    );
    let lines = proxy_usage(true, "/w/home", "/w/ca.pem", 8079, Some("UA"), true, true);
    assert_eq!(lines.len(), 12);
    assert_eq!(lines[1], "\x1b[1;32mMITM proxy listening on http://127.0.0.1:8079\x1b[0m");
    assert_eq!(lines[3], "\x1b[1;33mChromium-based (CA trusted via ./home/.pki):\x1b[0m");
    assert!(lines[4].starts_with("\x1b[36mHOME='/w/home' chromium '--user-data-dir=/w/home/chrome-profile' "));
    assert!(lines[4].ends_with(" '--user-agent=UA'\x1b[0m"));
    assert_eq!(
        lines[6],
        "\x1b[1;33mFirefox-based (CA trusted via ./home/.mozilla/firefox/httplogger.default):\x1b[0m"
    );
    assert_eq!(
        lines[7],
        "\x1b[36mHOME='/w/home' firefox '-no-remote' '-profile' '/w/home/.mozilla/firefox/httplogger.default' '-url' 'about:newtab'\x1b[0m"
    );
    assert_eq!(lines[10], "\x1b[2m/w/ca.pem\x1b[0m");
    assert_eq!(paint(false, "\x1b[2m", "x"), "x");
}

#[test]
fn settings_of_firefox() {
    let js = firefox_user_js(8079, 1_700_000_000_000, Some("a \"b\"\\"));
    let lines: Vec<&str> = js.lines().collect();
    assert_eq!(lines.len(), 19);
    assert_eq!(lines[0], "user_pref(\"network.proxy.type\", 1);");
    assert_eq!(lines[2], "user_pref(\"network.proxy.http_port\", 8079);");
    assert_eq!(lines[4], "user_pref(\"network.proxy.ssl_port\", 8079);");
    assert_eq!(
        lines[13],
        "user_pref(\"datareporting.policy.dataSubmissionPolicyNotifiedTime\", \"1700000000000\");"
    );
    assert_eq!(lines[17], "user_pref(\"browser.shell.checkDefaultBrowser\", false);");
    assert_eq!(
        lines[18],
        "user_pref(\"general.useragent.override\", \"a \\\"b\\\"\\\\\");"
    );
    assert_eq!(firefox_user_js(1, 2, None).lines().count(), 18);
}

#[test]
fn greetings_are_taken_out_of_preferences() {
    assert_eq!(strip_firstrun_prefs("a\nb\n"), None);
    assert_eq!(strip_firstrun_prefs(""), None);
    assert_eq!(
        strip_firstrun_prefs("a\r\nx trailhead.firstrun y\r\nb\r").as_deref(),
        Some("a\nb\r\n")
    );
    assert_eq!(
        strip_firstrun_prefs(
            "startup.homepage_welcome_url\ndatareporting.policy.dataSubmissionPolicyX\nbrowser.aboutwelcome.enabled"
        )
        .as_deref(),
        Some("\n")
    );
}

#[test]
fn trust_stores() {
    assert_eq!(init_nssdb_args("/d"), args(&["-N", "-d", "sql:/d", "--empty-password"]));
    assert_eq!(remove_ca_args("/d"), args(&["-D", "-d", "sql:/d", "-n", "httplogger-ca"]));
    assert_eq!(
        import_ca_args("/d", "/ca.pem"),
        args(&["-A", "-d", "sql:/d", "-t", "C,,", "-n", "httplogger-ca", "-i", "/ca.pem"])
    );
}

#[test]
fn desktop_session() {
    assert_eq!(xdg_path(Some("/x"), "/u", ".config"), "/x");
    assert_eq!(xdg_path(Some(""), "/u", ".config"), "/u/.config");
    let session = session_paths(Some("/c"), None, None, Some(""), "/u");
    assert_eq!(session.config, "/c");
    assert_eq!(session.cache, "/u/.cache");
    assert_eq!(session.state, "/u/.local/state");
    assert_eq!(session.data_share, "/u/.local/share");
    let links: Vec<_> = session_links("/h", &session)
        .into_iter()
        .map(|l| (l.link, l.target))
        .collect();
    assert_eq!(links[0], ("/h/.config".to_string(), "/c".to_string()));
    assert_eq!(links[2], ("/h/.local/state".to_string(), "/u/.local/state".to_string()));
    let links: Vec<_> = local_share_links("/h", "/s", &args(&["a", "pki", "b"]))
        .into_iter()
        .map(|l| (l.link, l.target))
        .collect();
    assert_eq!(
        links,
        vec![
            ("/h/.local/share/a".to_string(), "/s/a".to_string()),
            ("/h/.local/share/b".to_string(), "/s/b".to_string()),
        ]
    );
}

#[test]
fn kinds_of_browsers() {
    for name in chromium_family() {
        assert_eq!(classify_executable(&format!("/usr/bin/{name}")), Some(BrowserKind::Chromium));
    }
    for name in firefox_family() {
        assert_eq!(classify_executable(&name), Some(BrowserKind::Firefox));
    }
    assert_eq!(classify_executable("/opt/Mozilla"), Some(BrowserKind::Firefox));
    assert_eq!(classify_executable("/opt/GOOGLE-CHROME/"), Some(BrowserKind::Chromium));
    assert_eq!(classify_executable("/usr/bin/chromedriver"), Some(BrowserKind::Chromium));
    assert_eq!(classify_executable("/usr/bin/lynx"), None);
    assert_eq!(classify_executable("/"), None);
    assert_eq!(classify_name("mozilla-x"), None);
    assert_eq!(classify_name("Firefox"), None);
}

#[test]
fn choosing_a_browser() {
    let found = |p: &str| Some(p.to_string());
    let chosen = resolve_explicit("brave", found("/usr/bin/brave")).unwrap();
    assert_eq!((chosen.kind, chosen.executable.as_str()), (BrowserKind::Chromium, "/usr/bin/brave"));
    assert_eq!(resolve_explicit("x", None).unwrap_err(), "browser not found in PATH: x");
    assert_eq!(resolve_explicit("./x", None).unwrap_err(), "browser not found: ./x");
    assert_eq!(resolve_explicit("vim", found("/vim")).unwrap_err(), "unsupported browser: /vim");
    assert!(is_path_like("a\\b"));
    assert_eq!(
        browser_commands("firefox -new %s: :/opt/x --y", ':'),
        args(&["firefox", "/opt/x"])
    );
    assert_eq!(
        browser_commands("C:/x/firefox.exe %1; ;brave", ';'),
        args(&["C:/x/firefox.exe", "brave"])
    );
    assert_eq!(desktop_entry(true, b" firefox.desktop\n").as_deref(), Some("firefox.desktop"));
    assert_eq!(desktop_entry(false, b"firefox.desktop"), None);
    assert_eq!(desktop_entry(true, b" \n"), None);
    assert_eq!(desktop_entry(true, b"\xff"), None);
    assert_eq!(desktop_command("firefox.desktop"), "firefox");
    assert_eq!(desktop_command("firefox"), "firefox");
    let list = browser_candidates(
        found("/d"),
        args(&["/b1", "/b2"]),
        found("/chromium"),
        found("/firefox"),
    );
    assert_eq!(list, args(&["/d", "/b1", "/b2", "/chromium", "/firefox"]));
    let chosen = resolve_default_webbrowser(&list).unwrap();
    assert_eq!(chosen.executable, "/chromium");
    assert_eq!(resolve_browser(None, None, &list).unwrap().executable, "/chromium");
    let chosen = resolve_browser(Some("firefox"), found("/bin/firefox"), &list).unwrap();
    assert_eq!((chosen.kind, chosen.executable.as_str()), (BrowserKind::Firefox, "/bin/firefox"));
    assert!(resolve_browser(Some("firefox"), None, &list).is_err());
    assert_eq!(
        resolve_default_webbrowser(&args(&["/usr/bin/w3m"])).unwrap_err(),
        "no supported browser found (install chromium or firefox, or pass NAME|PATH to launch)"
    );
}

#[test]
fn files_of_the_authority() {
    assert_eq!(
        default_ca_paths("/w"),
        ("/w/ca-key.pem".to_string(), "/w/ca.pem".to_string())
    );
    for (key, cert) in [
        ("/w/ca-key.pem", "/w/ca.pem"),
        ("my-key.pem", "my.pem"),
        ("dir/my.pem", "dir/my-cert.pem"),
        ("/x/key", "/x/key.pem"),
        ("/k/server.key", "/k/server.pem"),
        ("/k/a.b.key", "/k/a.b.pem"),
        ("/k/.key", "/k/.key.pem"),
        ("/k/a.", "/k/a.pem"),
        ("/k/-key.pem", "/k/.pem"),
        ("/k/.pem", "/k/-cert.pem"),
        ("/k/my-key", "/k/my-key.pem"),
        ("..", "ca.pem"),
    ] {
        assert_eq!(cert_path_for_key(key), cert, "{key}");
    }
    assert_eq!(
        ensure_ca("/w", Some("k/a-key.pem")),
        ("k/a-key.pem".to_string(), "k/a.pem".to_string())
    );
    for root in ["/w", "/w/", "w", "", "/", ".", "./"] {
        assert_eq!(ensure_ca(root, None).1, default_ca_paths(root).1, "{root}");
    }
    assert_eq!(ensure_ca("w//", None).1, "w/ca.pem");
    assert_eq!(default_ca_paths("w//").1, "w//ca.pem");
}

#[test]
fn a_new_authority_can_be_loaded() {
    let files = generate_key_pair("/w/ca-key.pem", "/w/ca.pem", false, false, false).unwrap();
    assert_eq!(files.directory.as_deref(), Some("/w"));
    assert_eq!(files.key.path, "/w/ca-key.pem");
    assert_eq!(files.cert.path, "/w/ca.pem");
    assert!(files.key.content.contains("PRIVATE KEY"));
    assert!(files.cert.content.contains("BEGIN CERTIFICATE"));
    let ca = load_ca("/w/ca-key.pem", &files.key.content, files.cert.content.clone()).unwrap();
    assert_eq!(ca.cert_path, "/w/ca.pem");
    assert_eq!(ca.cert_pem, files.cert.content);
    assert_eq!(ca.issuer.key().serialize_pem(), files.key.content);
    let other = generate_key_pair("/w/b-key.pem", "/w/b.pem", false, false, false).unwrap();
    assert_ne!(other.key.content, files.key.content);
    let mixed = load_ca("/w/b-key.pem", &other.key.content, files.cert.content.clone()).unwrap();
    assert_eq!(mixed.issuer.key().serialize_pem(), other.key.content);
    assert_eq!(CA_COMMON_NAME, "httplogger CA");
    let error = |key: &str, cert: &str| match load_ca("k.pem", key, cert.to_string()) {
        Ok(_) => panic!("loaded"),
        Err(message) => message,
    };
    assert_eq!(error("no", &files.cert.content), "invalid k.pem");
    assert_eq!(error(&files.key.content, "no"), "failed to build CA issuer from PEM files");
}

#[test]
fn a_refused_key_comes_before_the_certificate() {
    let files = generate_key_pair("k.pem", "k-cert.pem", false, false, false).unwrap();
    let error = |key: &str, cert: &str| {
        match ca_material("d/k.pem", hudsucker::rcgen::KeyPair::from_pem(key), cert.to_string()) {
            Ok(_) => panic!("loaded"),
            Err(message) => message,
        }
    };
    assert_eq!(error("no", "no"), "invalid d/k.pem");
    assert_eq!(error("no", &files.cert.content), "invalid d/k.pem");
    assert_eq!(error(&files.key.content, "no"), "failed to build CA issuer from PEM files");
    let key_pair = hudsucker::rcgen::KeyPair::from_pem(&files.key.content);
    let ca = match ca_material("d/k.pem", key_pair, files.cert.content.clone()) {
        Ok(ca) => ca,
        Err(message) => panic!("{message}"),
    };
    assert_eq!(ca.cert_path, "d/k-cert.pem");
    assert_eq!(ca.cert_pem, files.cert.content);
    assert_eq!(ca.issuer.key().serialize_pem(), files.key.content);
    assert!(format!("{:?}", ca.issuer).contains(CA_COMMON_NAME));
}

#[test]
fn an_authority_is_not_overwritten() {
    let message = "CA files already exist (k and/or c); delete them to regenerate";
    for (key, cert) in [(true, false), (false, true), (true, true)] {
        assert_eq!(generate_key_pair("k", "c", key, cert, false).unwrap_err(), message);
    }
    assert!(generate_key_pair("k", "c", true, true, true).is_ok());
}
