use orakel::data::VariantMeta;
use orakel::predictions::{attribution, market_facts, resolutions_table};
use orakel::table::Table;

fn meta(family: &str, variant: &str, summary: &str) -> VariantMeta {
    VariantMeta {
        family: family.to_string(),
        variant: variant.to_string(),
        summary: summary.to_string(),
        explainer: String::new(),
        status: "trial".to_string(),
        created: String::new(),
        supersedes: String::new(),
        labels: vec![],
        slot: None,
        trial_started: String::new(),
        review_due: String::new(),
        success_guideline: String::new(),
        retired_on: String::new(),
        retire_reason: String::new(),
        parked_on: String::new(),
        park_reason: String::new(),
        reopen_when: String::new(),
    }
}

#[test]
fn attribution_lists_each_strategy_once_in_key_order() {
    let p = Table::parse("family,variant\nw,a\nc,b\nw,a\n");
    let html = attribution(&p, &[meta("w", "a", "Fades <wings>")]);
    let cb = html.find("<div class=\"item-title\">c/b</div>").expect("c/b listed");
    let wa = html.find("<div class=\"item-title\">w/a</div>").expect("w/a listed");
    assert!(cb < wa, "{html}");
    assert!(html.contains(
        "<div class=\"item\"><div class=\"item-main\"><div class=\"item-title\">c/b</div><div class=\"item-sub\"></div></div><span class=\"badge\">1 row</span></div>"
    ), "{html}");
    assert!(html.contains(
        "<a class=\"item\" href=\"/strategies/w/a\"><div class=\"item-main\"><div class=\"item-title\">w/a</div><div class=\"item-sub\"><span class=\"item-summary\">Fades &lt;wings&gt;</span></div></div><span class=\"badge\">2 rows</span></a>"
    ), "{html}");
    assert!(html.contains("Where these predictions come from"), "{html}");
    assert_eq!(attribution(&Table::parse(""), &[]), "");
}

#[test]
fn resolutions_are_listed_newest_first_and_linked_when_predicted() {
    let r = Table::parse(
        "market_slug,winning_outcome,resolved_date,note\nm1,Yes,2026-07-01,\nm2,No,2026-07-02,late\n",
    );
    let p = Table::parse("market_slug\nm2\n");
    let html = resolutions_table(&r, &p);
    let m2 = html.find("<a href=\"/markets/m2\">m2</a><span class=\"sub\">late</span>").expect("m2");
    let m1 = html.find("<td>m1</td>").or_else(|| html.find(">m1<")).expect("m1");
    assert!(m2 < m1, "{html}");
    assert!(html.contains("<span class=\"badge\">2 markets</span>"), "{html}");
    assert!(html.contains("<span class=\"mono\">2026-07-02</span>"), "{html}");
    let empty = resolutions_table(&Table::parse(""), &p);
    assert!(empty.contains("<strong>Nothing resolved yet</strong>"), "{empty}");
}

#[test]
fn market_facts_show_the_logged_identifiers() {
    let p = Table::parse(
        "timestamp,status,condition_id,token_id\n2026-07-01T10:00:00Z,open,0xabc,\n2026-07-02T11:30:00Z,open,0xabc,\n",
    );
    let r = Table::parse("market_slug,winning_outcome,resolved_date,note\n");
    let first = &p.rows[0];
    let latest = &p.rows[1];
    let rows: Vec<&Vec<String>> = p.rows.iter().collect();
    let html = market_facts(&p, &r, &rows, first, latest, None, "w", "a", &[meta("w", "a", "S")]);
    assert!(html.contains("<div class=\"row row-block\"><span class=\"k\">What it claims</span><span class=\"v\">S</span></div>"), "{html}");
    assert!(html.contains("<span class=\"mono\">2026-07-01 10:00</span>"), "{html}");
    assert!(html.contains("<span class=\"mono\">2026-07-02 11:30</span>"), "{html}");
    assert!(html.contains("<span class=\"k\">Rows</span><span class=\"v\">2</span>"), "{html}");
    assert!(html.contains("Condition id"), "{html}");
    assert!(!html.contains("Token id"), "{html}");
    assert!(html.contains("<span class=\"muted\">open</span>"), "{html}");
}
