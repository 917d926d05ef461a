use orakel::live::{explain, FailureLog, Fetched, Head};
use orakel::render::icon;
use orakel::shell::{failure_reason, fetch_error_banner, json_str, trail};

#[test]
fn json_literals_are_script_safe() {
    assert_eq!(json_str("plain"), "\"plain\"");
    assert_eq!(json_str("a\"b\\c"), "\"a\\\"b\\\\c\"");
    assert_eq!(json_str("</script>&"), "\"\\u003c/script\\u003e\\u0026\"");
    assert_eq!(json_str("l1\nl2\r\t"), "\"l1\\nl2\\r\\t\"");
    assert_eq!(json_str("\u{1}\u{1f}"), "\"\\u0001\\u001f\"");
    assert_eq!(json_str("é"), "\"é\"");
}

#[test]
fn banner_and_trail() {
    let b = fetch_error_banner("GitHub said <no>");
    assert!(b.starts_with("<div class=\"banner banner-bad\">"));
    assert!(b.contains(&icon("alert")));
    assert!(b.contains("GitHub said &lt;no&gt;"));
    assert!(!b.contains("<no>"));
    let t = trail(&[("Firm", ""), ("Wiki", "/wiki")]);
    assert_eq!(t.len(), 2);
    assert_eq!(t[0].label, "Firm");
    assert_eq!(t[1].href, "/wiki");
}

#[test]
fn failure_reasons_name_the_files() {
    assert_eq!(
        failure_reason(&[]),
        "A file this page needs could not be read from the repository."
    );
    assert_eq!(
        failure_reason(&["a.csv".to_string()]),
        "Could not read a.csv from the repository."
    );
    assert_eq!(
        failure_reason(&["a.csv".to_string(), "b.toml".to_string(), "c.md".to_string()]),
        "Could not read 3 files from the repository: a.csv, b.toml, c.md."
    );
}

#[test]
fn failed_reads_are_recorded_once() {
    let mut log = FailureLog::new();
    log.note_failure("a.csv");
    log.note_failure("b.md");
    log.note_failure("a.csv");
    assert_eq!(log.failed_paths(), vec!["a.csv".to_string(), "b.md".to_string()]);
}

#[test]
fn github_statuses_in_words() {
    assert!(explain(401).starts_with("GitHub rejected the token (401)."));
    assert!(explain(403).contains("rate limit exhausted"));
    assert!(explain(404).starts_with("GitHub returned 404"));
    assert!(explain(429).contains("(429)"));
    assert_eq!(explain(503), "GitHub returned a server error (503). This is upstream; reload shortly.");
    assert_eq!(explain(418), "GitHub returned an unexpected status (418).");
    let h = Head { sha: "abc".to_string(), date: "2026-07-24T00:00:00Z".to_string() };
    let f = Fetched { text: String::new(), live: false };
    assert_eq!(h.sha, "abc");
    assert!(!f.live);
}

#[test]
fn a_failure_log_lists_each_failed_path_once_in_order() {
    let mut log = FailureLog::new();
    assert!(log.failed_paths().is_empty());
    for p in ["a.csv", "b.md", "a.csv", "c.toml", "b.md"] {
        log.note_failure(p);
    }
    assert_eq!(log.failed_paths(), vec!["a.csv".to_string(), "b.md".to_string(), "c.toml".to_string()]);
}

#[test]
fn json_literals_parse_back_to_their_text() {
    for s in ["plain", "</script><b>&amp;\"q\"\\", "tab\tnew\nline\r\u{1}\u{1f}", "café ✓"] {
        let lit = json_str(s);
        assert!(lit.starts_with('"') && lit.ends_with('"'));
        assert_eq!(serde_json::from_str::<String>(&lit).unwrap(), s);
    }
}
