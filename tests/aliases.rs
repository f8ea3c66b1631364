use web_alias::browser::{choose_browser, launch_command, BrowserChoice, Platform};
use web_alias::complete::{aliases_with_prefix, completion_line, starts_with};
use web_alias::error::AliasError;
use web_alias::import::{Decision, ImportOutcome, ImportSession};
use web_alias::names::parse_aliases;
use web_alias::store::{add_alias, list_aliases, remove_alias, resolve_alias, Config};

fn table(entries: &[(&str, &str)]) -> Config {
    let mut c = Config::new();
    for (a, t) in entries {
        c.insert(a.to_string(), t.to_string());
    }
    c
}

fn pairs(c: &Config) -> Vec<(String, String)> {
    list_aliases(c)
}

fn owned(entries: &[(&str, &str)]) -> Vec<(String, String)> {
    entries.iter().map(|(a, t)| (a.to_string(), t.to_string())).collect()
}

#[test]
fn parse_names_trims_and_drops_empty() {
    assert_eq!(parse_aliases(" docs, d ,,"), vec!["docs", "d"]);
}

#[test]
fn parse_names_edge_cases() {
    assert_eq!(parse_aliases(""), Vec::<&str>::new());
    assert_eq!(parse_aliases(",,,"), Vec::<&str>::new());
    assert_eq!(parse_aliases("a"), vec!["a"]);
    assert_eq!(parse_aliases("\ta b \n,x"), vec!["a b", "x"]);
}

#[test]
fn add_binds_every_name() {
    let mut c = Config::new();
    add_alias(&mut c, "docs, c", "https://docs.rs");
    assert_eq!(resolve_alias(&c, "docs"), Ok("https://docs.rs".to_string()));
    assert_eq!(resolve_alias(&c, "c"), Ok("https://docs.rs".to_string()));
    assert_eq!(c.len(), 2);
}

#[test]
fn add_overwrites_and_repeats_once() {
    let mut c = table(&[("a", "http://old")]);
    add_alias(&mut c, "a,a,b", "http://new");
    assert_eq!(pairs(&c), owned(&[("a", "http://new"), ("b", "http://new")]));
}

#[test]
fn remove_missing_name_keeps_table() {
    let mut c = table(&[("a", "http://url")]);
    let r = remove_alias(&mut c, "a,missing");
    assert_eq!(r, Err(AliasError::NotFound("missing".to_string())));
    assert_eq!(resolve_alias(&c, "a"), Ok("http://url".to_string()));
    assert_eq!(c.len(), 1);
}

#[test]
fn remove_repeated_name_fails_on_second() {
    let mut c = table(&[("a", "http://url"), ("b", "http://b")]);
    let r = remove_alias(&mut c, "a, a");
    assert_eq!(r, Err(AliasError::NotFound("a".to_string())));
    assert_eq!(c.len(), 2);
}

#[test]
fn remove_all_present_names() {
    let mut c = table(&[("a", "http://a"), ("b", "http://b"), ("c", "http://c")]);
    assert_eq!(remove_alias(&mut c, "c, a"), Ok(()));
    assert_eq!(pairs(&c), owned(&[("b", "http://b")]));
}

#[test]
fn resolve_missing_alias() {
    let c = table(&[("a", "http://a")]);
    assert_eq!(resolve_alias(&c, "b"), Err(AliasError::NotFound("b".to_string())));
    assert_eq!(resolve_alias(&Config::new(), ""), Err(AliasError::NotFound(String::new())));
}

#[test]
fn list_in_ascending_order() {
    let c = table(&[("z", "http://z"), ("a", "http://a"), ("ab", "http://ab"), ("B", "http://B")]);
    assert_eq!(
        pairs(&c),
        owned(&[("B", "http://B"), ("a", "http://a"), ("ab", "http://ab"), ("z", "http://z")])
    );
    assert!(list_aliases(&Config::new()).is_empty());
}

#[test]
fn import_consults_only_for_conflicts() {
    let current = table(&[("a", "http://x"), ("b", "http://y")]);
    let incoming = table(&[("a", "http://x"), ("b", "http://z"), ("c", "http://w")]);
    let mut session = ImportSession::begin(&current, &incoming);
    let mut asked: Vec<String> = Vec::new();
    while let Some(c) = session.pending() {
        asked.push(c.alias.clone());
        assert_eq!(c.existing, "http://y");
        assert_eq!(c.incoming, "http://z");
        assert!(!session.offers_bulk());
        session.decide(Decision::UseIncoming);
    }
    assert_eq!(asked, vec!["b".to_string()]);
    let out = session.finish();
    assert_eq!((out.added, out.unchanged, out.overwritten, out.skipped), (1, 1, 1, 0));
    assert!(out.changed());
    assert_eq!(resolve_alias(&out.config, "a"), Ok("http://x".to_string()));
    assert_eq!(resolve_alias(&out.config, "b"), Ok("http://z".to_string()));
    assert_eq!(resolve_alias(&out.config, "c"), Ok("http://w".to_string()));
}

#[test]
fn import_keep_existing_counts_skipped() {
    let current = table(&[("b", "http://y")]);
    let incoming = table(&[("b", "http://z")]);
    let mut session = ImportSession::begin(&current, &incoming);
    session.decide(Decision::KeepExisting);
    assert!(session.pending().is_none());
    let out = session.finish();
    assert_eq!((out.added, out.unchanged, out.overwritten, out.skipped), (0, 0, 0, 1));
    assert!(!out.changed());
    assert_eq!(resolve_alias(&out.config, "b"), Ok("http://y".to_string()));
}

#[test]
fn import_keep_all_stops_asking() {
    let current = table(&[("a", "1"), ("b", "2"), ("c", "3")]);
    let incoming = table(&[("a", "x"), ("b", "y"), ("c", "z"), ("d", "w")]);
    let mut session = ImportSession::begin(&current, &incoming);
    assert_eq!(session.remaining(), 3);
    assert!(session.offers_bulk());
    assert_eq!(session.pending().map(|c| c.alias.clone()), Some("a".to_string()));
    session.decide(Decision::KeepAllExisting);
    assert!(session.pending().is_none());
    assert_eq!(session.remaining(), 0);
    let out = session.finish();
    assert_eq!((out.added, out.unchanged, out.overwritten, out.skipped), (1, 0, 0, 3));
    assert_eq!(
        pairs(&out.config),
        owned(&[("a", "1"), ("b", "2"), ("c", "3"), ("d", "w")])
    );
}

#[test]
fn import_use_all_after_one_kept() {
    let current = table(&[("a", "1"), ("b", "2"), ("c", "3")]);
    let incoming = table(&[("a", "x"), ("b", "y"), ("c", "z")]);
    let mut session = ImportSession::begin(&current, &incoming);
    session.decide(Decision::KeepExisting);
    assert_eq!(session.pending().map(|c| c.alias.clone()), Some("b".to_string()));
    session.decide(Decision::UseAllIncoming);
    assert!(session.pending().is_none());
    let out = session.finish();
    assert_eq!((out.added, out.unchanged, out.overwritten, out.skipped), (0, 0, 2, 1));
    assert_eq!(pairs(&out.config), owned(&[("a", "1"), ("b", "y"), ("c", "z")]));
}

#[test]
fn import_of_nothing_changes_nothing() {
    let current = table(&[("a", "1")]);
    let session = ImportSession::begin(&current, &Config::new());
    assert!(session.pending().is_none());
    let out = session.finish();
    assert_eq!((out.added, out.unchanged, out.overwritten, out.skipped), (0, 0, 0, 0));
    assert!(!out.changed());
    assert_eq!(pairs(&out.config), owned(&[("a", "1")]));
}

#[test]
fn import_new_entries_into_empty_table() {
    let incoming = table(&[("a", "1"), ("b", "2")]);
    let session = ImportSession::begin(&Config::new(), &incoming);
    assert!(session.pending().is_none());
    let out = session.finish();
    assert_eq!(out.added, 2);
    assert_eq!(pairs(&out.config), owned(&[("a", "1"), ("b", "2")]));
}

#[test]
fn abandoned_import_leaves_current_table() {
    let current = table(&[("a", "1"), ("b", "2")]);
    let incoming = table(&[("a", "x"), ("b", "y"), ("c", "z")]);
    let mut session = ImportSession::begin(&current, &incoming);
    session.decide(Decision::UseIncoming);
    drop(session);
    assert_eq!(pairs(&current), owned(&[("a", "1"), ("b", "2")]));
}

#[test]
fn browser_flags_priority() {
    assert_eq!(choose_browser(false, false, false, false), BrowserChoice::Default);
    assert_eq!(choose_browser(true, true, false, false), BrowserChoice::Safari);
    assert_eq!(choose_browser(false, true, true, false), BrowserChoice::Chrome);
    assert_eq!(choose_browser(false, false, true, true), BrowserChoice::Firefox);
    assert_eq!(choose_browser(false, false, false, true), BrowserChoice::Brave);
}

#[test]
fn launch_on_mac() {
    let c = launch_command("http://x", BrowserChoice::Chrome, Platform::MacOs).unwrap();
    assert_eq!(c.program, "open");
    assert_eq!(c.args, vec!["-a", "Google Chrome", "http://x"]);
    let d = launch_command("http://x", BrowserChoice::Default, Platform::MacOs).unwrap();
    assert_eq!(d.program, "open");
    assert_eq!(d.args, vec!["http://x"]);
}

#[test]
fn launch_on_linux() {
    let c = launch_command("http://x", BrowserChoice::Firefox, Platform::Linux).unwrap();
    assert_eq!(c.program, "firefox");
    assert_eq!(c.args, vec!["http://x"]);
    let d = launch_command("http://x", BrowserChoice::Default, Platform::Linux).unwrap();
    assert_eq!(d.program, "xdg-open");
    assert!(matches!(
        launch_command("http://x", BrowserChoice::Safari, Platform::Linux),
        Err(AliasError::BrowserUnavailable(BrowserChoice::Safari))
    ));
}

#[test]
fn launch_elsewhere_unsupported() {
    assert!(matches!(
        launch_command("http://x", BrowserChoice::Default, Platform::Other),
        Err(AliasError::UnsupportedPlatform)
    ));
}

#[test]
fn completion_candidates_by_prefix() {
    let c = table(&[("cargo", "1"), ("c", "2"), ("gh", "3")]);
    assert_eq!(aliases_with_prefix(&c, "c"), vec!["c".to_string(), "cargo".to_string()]);
    assert_eq!(aliases_with_prefix(&c, ""), vec!["c", "cargo", "gh"]);
    assert!(aliases_with_prefix(&c, "x").is_empty());
    assert!(starts_with("cargo", "ca"));
    assert!(!starts_with("c", "ca"));
}

#[test]
fn completion_line_escapes() {
    assert_eq!(completion_line("a:b", "http://x"), "a\\:b:http://x");
    assert_eq!(completion_line("w\\", "c:\\d"), "w\\\\:c:\\\\d");
}

#[test]
fn summary_lists_nonzero_counts() {
    let out = ImportOutcome { config: Config::new(), added: 1, overwritten: 1, skipped: 0, unchanged: 1 };
    assert_eq!(out.summary(), "Import complete: 1 added, 1 overwritten, 1 unchanged.");
    let big = ImportOutcome { config: Config::new(), added: 12, overwritten: 0, skipped: 305, unchanged: 0 };
    assert_eq!(big.summary(), "Import complete: 12 added, 305 skipped.");
}

#[test]
fn summary_of_nothing() {
    let out = ImportOutcome { config: Config::new(), added: 0, overwritten: 0, skipped: 0, unchanged: 0 };
    assert_eq!(out.summary(), "Nothing to import.");
}

#[test]
fn listing_groups_aliases_by_target() {
    let c = table(&[("c", "https://docs.rs"), ("gh", "https://github.com"), ("docs", "https://docs.rs")]);
    let groups = web_alias::listing::group_by_target(&c);
    assert_eq!(
        groups,
        vec![
            (vec!["c".to_string(), "docs".to_string()], "https://docs.rs".to_string()),
            (vec!["gh".to_string()], "https://github.com".to_string()),
        ]
    );
    assert!(web_alias::listing::group_by_target(&Config::new()).is_empty());
}

#[test]
fn error_messages() {
    assert_eq!(AliasError::NotFound("gh".to_string()).message(), "Alias 'gh' not found");
    assert_eq!(
        AliasError::BrowserUnavailable(BrowserChoice::Safari).message(),
        "Safari is not available on Linux"
    );
    assert_eq!(AliasError::UnsupportedPlatform.message(), "Unsupported operating system");
}

fn stored_text(c: &Config) -> String {
    let mut file: std::collections::BTreeMap<String, std::collections::BTreeMap<String, String>> =
        std::collections::BTreeMap::new();
    file.insert("aliases".to_string(), list_aliases(c).into_iter().collect());
    toml::to_string_pretty(&file).unwrap()
}

fn from_stored_text(text: &str) -> Config {
    let mut file: std::collections::BTreeMap<String, std::collections::BTreeMap<String, String>> =
        toml::from_str(text).unwrap();
    let mut c = Config::new();
    for (alias, url) in file.remove("aliases").unwrap_or_default() {
        c.insert(alias, url);
    }
    c
}

#[test]
fn stored_table_round_trips() {
    let c = table(&[("a", "http://a"), ("b.c", "http://x?q=1&r=\"2\""), ("z z", "")]);
    let back = from_stored_text(&stored_text(&c));
    assert_eq!(pairs(&back), pairs(&c));
    let empty = from_stored_text(&stored_text(&Config::new()));
    assert!(empty.is_empty());
}

#[test]
fn listing_groups_ascend_by_target() {
    let c = table(&[("a", "z"), ("b", "y")]);
    assert_eq!(
        web_alias::listing::group_by_target(&c),
        vec![(vec!["b".to_string()], "y".to_string()), (vec!["a".to_string()], "z".to_string())]
    );
}

#[test]
fn import_conflicts_in_ascending_alias_order() {
    let current = table(&[("a", "1"), ("b", "2")]);
    let incoming = table(&[("b", "y"), ("a", "x")]);
    let mut session = ImportSession::begin(&current, &incoming);
    let mut asked: Vec<String> = Vec::new();
    while let Some(c) = session.pending() {
        asked.push(c.alias.clone());
        session.decide(Decision::KeepExisting);
    }
    assert_eq!(asked, vec!["a".to_string(), "b".to_string()]);
}

#[test]
fn insert_keeps_aliases_sorted() {
    let c = table(&[("b", "2"), ("a", "1"), ("c", "3"), ("b", "4")]);
    assert_eq!(pairs(&c), owned(&[("a", "1"), ("b", "4"), ("c", "3")]));
    let mut d = c;
    d.remove(&"b".to_string());
    assert_eq!(pairs(&d), owned(&[("a", "1"), ("c", "3")]));
}

#[test]
fn whitespace_matches_std_for_every_char() {
    for n in 0u32..=0x10FFFF {
        if let Some(c) = char::from_u32(n) {
            let text = c.to_string();
            let dropped = parse_aliases(&text).is_empty();
            assert_eq!(dropped, c.is_whitespace() || c == ',', "char U+{:04X}", n);
        }
    }
}

#[test]
fn summary_digits_match_std() {
    for n in [0usize, 7, 10, 99, 100, 4096, usize::MAX] {
        let out = ImportOutcome { config: Config::new(), added: 0, overwritten: 0, skipped: n, unchanged: 0 };
        let expected = if n == 0 {
            "Nothing to import.".to_string()
        } else {
            format!("Import complete: {} skipped.", n)
        };
        assert_eq!(out.summary(), expected);
    }
}
