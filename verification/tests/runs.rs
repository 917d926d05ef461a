use orakel::config::{TomlTable, TomlValue};
use orakel::data::VariantMeta;
use orakel::runs::{
    is_last_run_of_day, mentions_variant, next_run_after, run_block, run_id_index, run_key,
    summary_line,
};
use orakel::table::Table;

fn strs(xs: &[&str]) -> Vec<String> {
    xs.iter().map(|s| s.to_string()).collect()
}

fn step(pairs: &[(&str, &str)]) -> TomlValue {
    TomlValue::Table(TomlTable {
        entries: pairs.iter().map(|(k, v)| (k.to_string(), TomlValue::Str(v.to_string()))).collect(),
    })
}

#[test]
fn run_keys_and_ids() {
    assert_eq!(run_key("2026-07-24"), ("2026-07-24".to_string(), 1));
    assert_eq!(run_key("2026-07-24-3"), ("2026-07-24".to_string(), 3));
    assert_eq!(run_key("2026-07-24-x"), ("2026-07-24".to_string(), 1));
    assert_eq!(run_key("notes"), ("notes".to_string(), 1));
    assert_eq!(run_id_index("2026-07-23/run2"), 2);
    assert_eq!(run_id_index("run7"), 7);
    assert_eq!(run_id_index("2026-07-23/first"), 1);
    assert_eq!(run_id_index("2026-07-23/runX"), 1);
}

#[test]
fn last_run_and_next_run() {
    let stems = strs(&["2026-07-24", "2026-07-24-2", "2026-07-25"]);
    assert!(!is_last_run_of_day("2026-07-24", &stems));
    assert!(is_last_run_of_day("2026-07-24-2", &stems));
    assert!(is_last_run_of_day("2026-07-25", &stems));
    let dates = strs(&["2026-07-20", "2026-07-26", "2026-07-28"]);
    assert_eq!(next_run_after("2026-07-24", &dates), Some("2026-07-26".to_string()));
    assert_eq!(next_run_after("2026-07-26", &dates), Some("2026-07-28".to_string()));
    assert_eq!(next_run_after("2026-07-28", &dates), None);
}

#[test]
fn a_manifest_mentions_a_variant_by_field_or_note() {
    let t = TomlTable {
        entries: vec![(
            "step".to_string(),
            TomlValue::Array(vec![
                step(&[("variant", "weather/nyc-v1")]),
                step(&[("note", "re-ran crypto/btc-v2 after the fix")]),
            ]),
        )],
    };
    assert!(mentions_variant(&t, "weather/nyc-v1"));
    assert!(mentions_variant(&t, "crypto/btc-v2"));
    assert!(!mentions_variant(&t, "weather/nyc"));
    assert!(!mentions_variant(&TomlTable { entries: vec![] }, "x"));
}

fn entry(k: &str, v: TomlValue) -> (String, TomlValue) {
    (k.to_string(), v)
}

fn text(v: &str) -> TomlValue {
    TomlValue::Str(v.to_string())
}

fn started_meta() -> VariantMeta {
    VariantMeta {
        family: "weather".to_string(),
        variant: "nyc".to_string(),
        summary: "Bets on NYC highs & lows".to_string(),
        explainer: String::new(),
        status: "trial".to_string(),
        created: "2026-07-23".to_string(),
        supersedes: String::new(),
        labels: vec![],
        slot: None,
        trial_started: String::new(),
        review_due: String::new(),
        success_guideline: String::new(),
        retired_on: String::new(),
        retire_reason: String::new(),
        parked_on: String::new(),
        park_reason: String::new(),
        reopen_when: String::new(),
    }
}

fn manifest(pushed: bool) -> TomlTable {
    TomlTable {
        entries: vec![
            entry("date", text("2026-07-23")),
            entry("trigger", text("cron")),
            entry("model", text("opus")),
            entry(
                "step",
                TomlValue::Array(vec![
                    step(&[("role", "researcher"), ("variant", "weather/nyc"), ("note", "did x")]),
                    step(&[("role", "ceo"), ("status", "ok")]),
                ]),
            ),
            entry(
                "health",
                TomlValue::Table(TomlTable {
                    entries: vec![
                        entry("all_slots_ran", TomlValue::Bool(true)),
                        entry("pushed", TomlValue::Bool(pushed)),
                        entry("notes", text("all good")),
                    ],
                }),
            ),
        ],
    }
}

#[test]
fn a_runs_story_is_assembled_from_the_facts_credited_to_it() {
    let p = Table::parse(
        "timestamp,run_id,family,variant\n\
         2026-07-23T10:00:00Z,2026-07-23/run2,weather,nyc\n\
         2026-07-23T11:00:00Z,2026-07-23/run2,weather,nyc\n\
         2026-07-23T12:00:00Z,2026-07-23/run2,crypto,btc\n\
         2026-07-23T12:00:00Z,2026-07-23/run1,crypto,btc\n",
    );
    let r = Table::parse("market_slug,resolved_date\nm1,2026-07-22\nm2,2026-07-22\nm3,\n");
    let d = Table::parse("market_slug,improvement\nm1,0.1\nm2,-0.2\nm9,0.3\n");
    let ahead = vec![true, false, true];
    let metas = vec![started_meta()];
    let ideas = vec![("2026-07-23".to_string(), "idea-a".to_string())];
    let dates = strs(&["2026-07-20", "2026-07-23"]);
    let dates_all = strs(&["2026-07-23", "2026-07-23-2"]);
    let owners = vec![(
        "weather/nyc".to_string(),
        "2026-07-23".to_string(),
        "2026-07-23-2".to_string(),
    )];
    let html = run_block(
        "2026-07-23-2",
        &manifest(false),
        &p,
        &r,
        &d,
        &ahead,
        &metas,
        &ideas,
        &dates,
        &dates_all,
        &owners,
        "600k",
    );
    assert!(html.starts_with(
        "<section class=\"run\"><div class=\"run-line\"><span class=\"run-when\"><b>2026-07-23</b> Thursday · run 2</span><span class=\"run-meta\">2 steps · 600k tokens · <span class=\"badge badge-warn\">check health</span></span></div>"
    ), "{html}");
    assert!(html.contains(
        "<p class=\"run-story\">Logged <b>3</b> new predictions from <a href=\"/strategies/weather/nyc\">weather/nyc</a> (2) and <a href=\"/strategies/crypto/btc\">crypto/btc</a> (1).</p>"
    ), "{html}");
    assert!(html.contains(
        "<p class=\"run-story\"><b>2</b> markets settled. Of the <b>2</b> predictions they covered, <b>1</b> beat the market's own price.</p>"
    ), "{html}");
    assert!(html.contains(
        "<p class=\"run-story\">Started <a href=\"/strategies/weather/nyc\">weather/nyc</a>: Bets on NYC highs &amp; lows</p>"
    ), "{html}");
    assert!(html.contains(
        "<p class=\"run-story\">Added 1 candidate to the idea backlog: <span class=\"mono\">idea-a</span>.</p>"
    ), "{html}");
    assert!(html.contains("researcher<span class=\"sub\"><a href=\"/strategies/weather/nyc\">weather/nyc</a></span>"), "{html}");
    assert!(html.contains("<p class=\"note\"><b>Closing note:</b> all good</p>"), "{html}");
    assert!(html.contains(
        "<p class=\"note\">Trigger: cron · models: opus · all slots ran: yes · pushed: no</p>"
    ), "{html}");
    assert!(html.ends_with("</div></details></section>"), "{html}");
}

#[test]
fn a_quiet_run_says_it_was_maintenance() {
    let empty = Table::parse("");
    let html = run_block(
        "2026-07-23",
        &manifest(true),
        &empty,
        &empty,
        &empty,
        &Vec::new(),
        &[],
        &[],
        &[],
        &[],
        &[],
        "12",
    );
    assert!(html.contains(
        "<p class=\"run-story\">Maintenance only — no predictions, settlements or strategy changes recorded for this run.</p>"
    ), "{html}");
    assert!(html.contains("<b>2026-07-23</b> Thursday</span>"), "{html}");
    assert!(html.contains("2 steps · 12 tokens</span>"), "{html}");
}

#[test]
fn the_summary_strip_counts_runs_days_work_and_health() {
    let mut older = manifest(true);
    older.entries[0] = entry("date", text("2026-07-20"));
    let runs = vec![
        ("2026-07-23".to_string(), manifest(false)),
        ("2026-07-20".to_string(), older),
    ];
    let p = Table::parse("timestamp\na\nb\nc\n");
    let html = summary_line(&runs, &p, "1.20M");
    assert_eq!(
        html,
        "<div class=\"statline\">\
         <span class=\"stat\"><b class=\"stat-v\">2</b><span class=\"stat-k\">runs in 4 days</span></span>\
         <span class=\"stat\"><b class=\"stat-v\">4</b><span class=\"stat-k\">pieces of work</span></span>\
         <span class=\"stat\"><b class=\"stat-v\">3</b><span class=\"stat-k\">predictions logged</span></span>\
         <span class=\"stat\"><b class=\"stat-v\">1.20M</b><span class=\"stat-k\">tokens spent</span></span>\
         <span class=\"stat\"><b class=\"stat-v s-warn\">1</b><span class=\"stat-k\">runs healthy</span></span>\
         </div>"
    );
    let none: Vec<(String, TomlTable)> = Vec::new();
    let empty = summary_line(&none, &Table::parse(""), "0");
    assert!(empty.contains("runs in 0 days"), "{empty}");
    assert!(empty.contains("<b class=\"stat-v s-ok\">all</b>"), "{empty}");
}
