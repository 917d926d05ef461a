use orakel::config::{toml_of, TomlTable, TomlValue};
use orakel::data::{days_between, days_from_civil, parse_variant_meta, ts_ms, weekday, Doc};
use orakel::dates::civil_from_days;

#[test]
fn doc_emptiness_ignores_whitespace() {
    assert!(Doc { text: " \n\t".to_string(), live: true }.is_empty());
    assert!(!Doc { text: " x ".to_string(), live: false }.is_empty());
}

#[test]
fn dates_from_strings() {
    assert_eq!(weekday("2026-07-24"), "Friday");
    assert_eq!(weekday("1970-01-01"), "Thursday");
    assert_eq!(weekday("not a date"), "");
    assert_eq!(days_from_civil(1970, 1, 1), 0);
    assert_eq!(days_from_civil(2026, 7, 24), 20658);
    assert_eq!(days_from_civil(1969, 12, 31), -1);
    assert_eq!(ts_ms("2026-07-25T01:52:10Z"), Some(1784944330000));
    assert_eq!(ts_ms("2026-07-25T01"), Some(1784937600000 + 3_600_000));
    assert_eq!(ts_ms("2026-07-25"), None);
    assert_eq!(days_between("2026-07-01", "2026-07-24"), Some(23));
    assert_eq!(days_between("2026-07-24T09:00:00Z", "2026-07-01"), Some(-23));
    assert_eq!(days_between("2026-07-01", "soon"), None);
}

#[test]
fn variant_meta_reads_its_manifest() {
    let src = "summary = \"Fades the favourite\"\nexplainer = \"  Long text.  \"\nstatus = \"trialing\"\nlabels = [\"a\", 3, \"b\"]\n\n[trial]\nslot = 2\nstarted = \"2026-07-01\"\n\n[parked]\nreason = \" no board \"\n";
    let m = parse_variant_meta("weather", "nyc-v1", src);
    assert_eq!(m.key(), "weather/nyc-v1");
    assert_eq!(m.href(), "/strategies/weather/nyc-v1");
    assert_eq!(m.summary, "Fades the favourite");
    assert_eq!(m.explainer, "Long text.");
    assert_eq!(m.status, "trialing");
    assert_eq!(m.labels, vec!["a".to_string(), "b".to_string()]);
    assert_eq!(m.slot, Some(2));
    assert_eq!(m.trial_started, "2026-07-01");
    assert_eq!(m.review_due, "");
    assert_eq!(m.park_reason, "no board");
    assert_eq!(m.retired_on, "");
    assert_eq!(m.created, "");
}

#[test]
fn variant_meta_of_a_short_manifest() {
    let m = parse_variant_meta(
        "bt",
        "lr",
        "summary = 'S'\nexplainer = '  Long.  '\nstatus = 'trial'\nlabels = ['a', 'b']\n[trial]\nslot = 2",
    );
    assert_eq!(m.family, "bt");
    assert_eq!(m.variant, "lr");
    assert_eq!(m.summary, "S");
    assert_eq!(m.explainer, "Long.");
    assert_eq!(m.status, "trial");
    assert_eq!(m.labels, vec!["a".to_string(), "b".to_string()]);
    assert_eq!(m.slot, Some(2));
    assert_eq!(m.created, "");
    assert_eq!(m.retired_on, "");
}

#[test]
fn variant_meta_of_text_that_is_not_toml_is_blank() {
    let m = parse_variant_meta("bt", "lr", "summary = = broken [");
    assert_eq!(m.family, "bt");
    assert_eq!(m.variant, "lr");
    assert_eq!(m.summary, "");
    assert_eq!(m.explainer, "");
    assert!(m.labels.is_empty());
    assert_eq!(m.slot, None);
    assert_eq!(m.trial_started, "");
}

#[test]
fn toml_of_reads_a_document() {
    let t = toml_of("a = 'x'\nn = 3\nf = 1.5\n[sub]\nok = true\n");
    assert_eq!(t.entries.len(), 4);
    assert!(matches!(tstr_of(&t, "a"), Some(x) if x == "x"));
    assert!(toml_of("= nope").entries.is_empty());
}

fn tstr_of(t: &TomlTable, key: &str) -> Option<String> {
    t.entries.iter().find(|(k, _)| k == key).and_then(|(_, v)| match v {
        TomlValue::Str(s) => Some(s.clone()),
        _ => None,
    })
}

#[test]
fn real_dates_survive_the_day_count() {
    use_round_trip(2024, 2, 29);
    use_round_trip(2000, 2, 29);
    use_round_trip(1900, 2, 28);
    use_round_trip(1970, 1, 1);
    use_round_trip(2026, 12, 31);
    use_round_trip(-400, 3, 1);
    assert_eq!(civil_from_days(days_from_civil(1900, 3, 1) - 1), (1900, 2, 28));
}

fn use_round_trip(y: i64, m: i64, d: i64) {
    assert_eq!(civil_from_days(days_from_civil(y, m, d)), (y, m, d));
}
