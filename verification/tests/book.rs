use orakel::book::{
    days_held, parse_sel, selection_form, distinct_markets, enc, href, latest_pred, now_iso, paper_banner, rank, side_badge,
    split_list, strategy_links, symbol, symbol_tone, tabbar, today_utc, valid_variant_key, Sel,
};
use orakel::data::VariantMeta;
use orakel::render::{badge, icon};
use orakel::table::Table;

fn sel(tab: &str, strategies: &[&str], markets: &[&str], policy: &str) -> Sel {
    Sel {
        tab: tab.to_string(),
        strategies: strategies.iter().map(|s| s.to_string()).collect(),
        markets: markets.iter().map(|s| s.to_string()).collect(),
        policy: policy.to_string(),
    }
}

fn meta(family: &str, variant: &str, summary: &str) -> VariantMeta {
    VariantMeta {
        family: family.to_string(),
        variant: variant.to_string(),
        summary: summary.to_string(),
        explainer: String::new(),
        status: String::new(),
        created: String::new(),
        supersedes: String::new(),
        labels: vec![],
        slot: None,
        trial_started: String::new(),
        review_due: String::new(),
        success_guideline: String::new(),
        retired_on: String::new(),
        retire_reason: String::new(),
        parked_on: String::new(),
        park_reason: String::new(),
        reopen_when: String::new(),
    }
}

#[test]
fn selection_in_the_url() {
    assert_eq!(split_list(" a, b,,c ,"), vec!["a", "b", "c"]);
    assert!(valid_variant_key("weather/nyc-v1"));
    assert!(!valid_variant_key("weather"));
    assert!(!valid_variant_key("weather/../x"));
    assert!(!valid_variant_key("a/b/c"));
    assert_eq!(enc("weather/nyc-v1"), "weather%2Fnyc-v1");
    assert_eq!(enc("a b~_.é"), "a%20b~_.%C3%A9");
    assert_eq!(href(&sel("", &[], &[], ""), ""), "/execution");
    assert_eq!(
        href(&sel("x", &["w/n", "c/b"], &["will-x"], "fade-v2"), "plan"),
        "/execution?tab=plan&s=w%2Fn&s=c%2Fb&m=will-x&p=fade-v2"
    );
}

#[test]
fn the_book_tab_bar_keeps_the_selection() {
    let s = sel("plan", &["w/n"], &[], "");
    assert_eq!(
        tabbar(&s, 1234),
        "<nav class=\"subbar\" aria-label=\"Sections of this page\"><div class=\"subbar-in\">\
<a href=\"/execution?s=w%2Fn\">Holdings<span class=\"tab-n\">1,234</span></a>\
<a href=\"/execution?tab=plan&amp;s=w%2Fn\" aria-current=\"page\">Plan</a>\
</div></nav>"
    );
}

#[test]
fn labels_of_the_book() {
    assert!(paper_banner().starts_with(&format!("<div class=\"banner\">{} <div><strong>Paper book.</strong>", icon("alert"))));
    assert_eq!(side_badge("sell"), badge("sell", ""));
    assert_eq!(symbol("open"), "+");
    assert_eq!(symbol("reduce"), "~");
    assert_eq!(symbol("close"), "−");
    assert_eq!(symbol("hold"), "=");
    assert_eq!(symbol_tone("increase"), "s-warn");
    assert_eq!(symbol_tone("whatever"), "muted");
    assert_eq!(rank("open"), 0);
    assert_eq!(rank("no change"), 4);
    assert_eq!(rank("other"), 5);
    let metas = vec![meta("weather", "nyc-v1", "Fades \"the\" favourite")];
    assert_eq!(strategy_links("", "", &metas), "<span class=\"muted\">—</span>");
    assert_eq!(strategy_links("weather", "", &metas), "<a href=\"/strategies/weather\">weather</a>");
    assert_eq!(
        strategy_links("weather", "nyc-v1", &metas),
        "<a href=\"/strategies/weather\">weather</a><span class=\"muted\">/</span><a href=\"/strategies/weather/nyc-v1\" title=\"Fades &quot;the&quot; favourite\">nyc-v1</a>"
    );
    assert_eq!(
        strategy_links("weather", "other", &metas),
        "<a href=\"/strategies/weather\">weather</a><span class=\"muted\">/</span><a href=\"/strategies/weather/other\">other</a>"
    );
}

#[test]
fn book_tables() {
    let t = Table::parse(
        "market_slug,outcome,timestamp,p\nm1,Yes,2026-07-01,1\nm2,Yes,2026-07-03,2\nm1,Yes,2026-07-05,3\nm1,No,2026-07-09,4\nm1,Yes,2026-07-05,5\n",
    );
    assert_eq!(distinct_markets(&t), 2);
    let r = latest_pred(&t, "m1", "Yes").unwrap();
    assert_eq!(r[3], "5");
    assert!(latest_pred(&t, "m3", "Yes").is_none());
}

#[test]
fn dates_the_book_stamps() {
    assert_eq!(today_utc(1_784_857_311_000), "2026-07-24");
    assert_eq!(today_utc(-1), "1969-12-31");
    assert_eq!(now_iso(1_784_857_311_000), "2026-07-24T01:41:51Z");
    assert_eq!(now_iso(-1), "1969-12-31T23:59:59Z");
    assert_eq!(days_held("2026-07-01T09:00:00Z", "2026-07-24"), 23);
    assert_eq!(days_held("2026-07-24", "2026-07-24"), 0);
    assert_eq!(days_held("2026-07-30", "2026-07-24"), 0);
    assert_eq!(days_held("garbage", "2026-07-24"), 0);
}

fn qp(k: &str, v: &str) -> (String, String) {
    (k.to_string(), v.to_string())
}

#[test]
fn the_selection_is_read_from_repeated_and_comma_joined_values() {
    let pairs = vec![
        qp("tab", "plan"),
        qp("s", "weather/nyc-temp-v1, crypto/btc-close-v1"),
        qp("s", "weather/nyc-temp-v1"),
        qp("s", "not a key"),
        qp("m", "mkt-b,mkt-a,../etc"),
        qp("m", " mkt-a "),
        qp("p", "fade-v2"),
        qp("p", "../secrets"),
        qp("x", "ignored"),
        qp("tab", "   "),
    ];
    let sel = parse_sel(&pairs);
    assert_eq!(sel.tab, "plan");
    assert_eq!(sel.strategies, vec!["crypto/btc-close-v1", "weather/nyc-temp-v1"]);
    assert_eq!(sel.markets, vec!["mkt-a", "mkt-b"]);
    assert_eq!(sel.policy, "fade-v2");
}

#[test]
fn an_empty_query_is_the_default_selection() {
    let sel = parse_sel(&Vec::new());
    assert_eq!(sel.tab, "");
    assert!(sel.strategies.is_empty());
    assert!(sel.markets.is_empty());
    assert_eq!(sel.policy, "");
}

#[test]
fn the_plan_form_offers_live_strategies_markets_and_policies() {
    let sel = parse_sel(&vec![qp("m", "mkt-a")]);
    let mut retired = meta("old", "v1", "gone");
    retired.status = "retired".to_string();
    let mut live = meta("weather", "nyc-v1", "NYC <highs>");
    live.status = "trial".to_string();
    let html = selection_form(
        &sel,
        &[live, retired],
        &["weather/nyc-v1".to_string()],
        &["weather/nyc-v1".to_string()],
        &["mkt-a".to_string(), "mkt-b".to_string()],
        &["mkt-a".to_string()],
        &[("fade-v2".to_string(), "fades wings".to_string()), ("mirror-v1".to_string(), String::new())],
        "fade-v2",
    );
    assert!(html.contains("<input type=\"checkbox\" name=\"s\" value=\"weather/nyc-v1\" checked>"), "{html}");
    assert!(html.contains("<span class=\"pick-sub\">NYC &lt;highs&gt;</span>"), "{html}");
    assert!(!html.contains("old/v1"), "{html}");
    assert!(html.contains("<input type=\"checkbox\" name=\"m\" value=\"mkt-a\" checked><span>mkt-a</span>"), "{html}");
    assert!(html.contains("<input type=\"checkbox\" name=\"m\" value=\"mkt-b\"><span>mkt-b</span>"), "{html}");
    assert!(html.contains("<details class=\"pick-group\" open>"), "{html}");
    assert!(html.contains("1 of 2 chosen"), "{html}");
    assert!(html.contains("<option value=\"fade-v2\" selected>fade-v2 — fades wings</option>"), "{html}");
    assert!(html.contains("<option value=\"mirror-v1\">mirror-v1 — no description</option>"), "{html}");
    assert!(html.contains("defaults: weather/nyc-v1 · every market they have a live prediction on · <span class=\"mono\">fade-v2</span>"), "{html}");
}

fn decode(v: &str) -> String {
    let b = v.as_bytes();
    let mut out = Vec::new();
    let mut i = 0;
    while i < b.len() {
        if b[i] == b'%' {
            out.push(u8::from_str_radix(&v[i + 1..i + 3], 16).unwrap());
            i += 3;
        } else {
            out.push(b[i]);
            i += 1;
        }
    }
    String::from_utf8(out).unwrap()
}

fn pairs_of(address: &str) -> Vec<(String, String)> {
    match address.split_once('?') {
        Some((_, q)) => q
            .split('&')
            .map(|kv| {
                let (k, v) = kv.split_once('=').unwrap();
                (k.to_string(), decode(v))
            })
            .collect(),
        None => Vec::new(),
    }
}

#[test]
fn the_address_reads_back_as_the_same_selection() {
    let raw = vec![
        ("s".to_string(), "weather/nyc-temp-v2, crypto/btc-close-v1".to_string()),
        ("m".to_string(), "will-it-rain,btc-above-100k".to_string()),
        ("p".to_string(), "fade-v2".to_string()),
    ];
    let shown = parse_sel(&raw);
    let address = href(&shown, "plan");
    assert_eq!(
        address,
        "/execution?tab=plan&s=crypto%2Fbtc-close-v1&s=weather%2Fnyc-temp-v2&m=btc-above-100k&m=will-it-rain&p=fade-v2"
    );
    let back = parse_sel(&pairs_of(&address));
    assert_eq!(back.tab, "plan");
    assert_eq!(back.strategies, shown.strategies);
    assert_eq!(back.markets, shown.markets);
    assert_eq!(back.policy, shown.policy);
    let home = parse_sel(&pairs_of(&href(&shown, "")));
    assert_eq!(home.tab, "");
    assert_eq!(home.strategies, shown.strategies);
}

#[test]
fn encoded_values_decode_to_themselves() {
    for v in ["weather/nyc-temp-v2", "a b&c=d?e#f+g", "café – 100%", ""] {
        assert_eq!(decode(&enc(v)), v);
    }
}
