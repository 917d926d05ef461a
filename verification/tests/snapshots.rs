use orakel::snapshots::{date_string, key_epoch_ms, valid_date, valid_slug};

#[test]
fn request_shapes() {
    assert!(valid_date("2026-07-24"));
    assert!(!valid_date("2026-7-24"));
    assert!(!valid_date("2026/07/24"));
    assert!(!valid_date("2026-07-2x"));
    assert!(valid_slug("will-wti-reach-130"));
    assert!(!valid_slug("Will-WTI"));
    assert!(!valid_slug(""));
    assert!(!valid_slug(&"a".repeat(129)));
}

#[test]
fn dates_of_instants() {
    assert_eq!(date_string(0), "1970-01-01");
    assert_eq!(date_string(1_784_857_311_000), "2026-07-24");
    assert_eq!(date_string(86_399_999), "1970-01-01");
    assert_eq!(date_string(86_400_000), "1970-01-02");
}

#[test]
fn snapshot_keys() {
    assert_eq!(
        key_epoch_ms("snapshots/books/2026-07-24/01.json.gz"),
        Some(1_784_851_200_000 + 3_600_000)
    );
    assert_eq!(key_epoch_ms("snapshots/books/2026-07-24/24.json.gz"), None);
    assert_eq!(key_epoch_ms("snapshots/books/1969-12-31/01.json.gz"), None);
    assert_eq!(key_epoch_ms("other/2026-07-24/01.json.gz"), None);
    assert_eq!(key_epoch_ms("snapshots/books/2026-07-24/1"), None);
}
