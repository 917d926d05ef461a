use orakel::strategies::{
    active_tab, anchor, clip, doc_target, lede, plain_english, plain_text, strip_links, tab,
    tab_label, tab_n, tabbar,
};

#[test]
fn markdown_flattened_to_prose() {
    assert_eq!(strip_links("see [the wiki](/wiki) and [x](y)."), "see the wiki and x.");
    assert_eq!(strip_links("a [broken link"), "a [broken link");
    assert_eq!(strip_links("a [b](c"), "a [b](c");
    assert_eq!(plain_text("**Bold** `code` *it* a_b [l](h)"), "Bold code it ab l");
}

#[test]
fn clipping() {
    assert_eq!(clip("hello world", 5), "hello…");
    assert_eq!(clip("hello world", 6), "hello…");
    assert_eq!(clip("short", 10), "short");
    assert_eq!(clip("short", 5), "short");
}

#[test]
fn the_plain_english_lede_is_lifted_out() {
    let src = "# Family\n\n> **In plain English:** We fade\n> the favourite.\n\nRest **here**.\n";
    let (l, rest) = plain_english(src);
    assert_eq!(l, "We fade the favourite.");
    assert_eq!(rest, "# Family\n\nRest **here**.\n");
    let (l2, rest2) = plain_english("no lede\n");
    assert_eq!(l2, "");
    assert_eq!(rest2, "no lede\n");
}

#[test]
fn ledes() {
    assert_eq!(lede("  a < b ", "<em>none</em>"), "<p class=\"lede\">a &lt; b</p>");
    assert_eq!(lede(" ", "<em>none</em>"), "<p class=\"lede lede-missing\"><em>none</em></p>");
}

#[test]
fn tabs() {
    let tabs = vec![tab("", "Overview"), tab_n("logs", "Logs", 3)];
    assert_eq!(tabs[1].count, "3");
    assert_eq!(active_tab(&tabs, &Some("logs".to_string())), "logs");
    assert_eq!(active_tab(&tabs, &Some("nope".to_string())), "");
    assert_eq!(active_tab(&tabs, &None), "");
    assert_eq!(tab_label(&tabs, "logs"), "Logs");
    assert_eq!(tab_label(&tabs, ""), "");
    assert_eq!(tab_label(&tabs, "nope"), "");
    let bar = tabbar("/s/f", &tabs, "logs");
    assert_eq!(
        bar,
        "<nav class=\"subbar\" aria-label=\"Sections of this page\"><div class=\"subbar-in\">\
<a href=\"/s/f\">Overview</a>\
<a href=\"/s/f?tab=logs\" aria-current=\"page\">Logs<span class=\"tab-n\">3</span></a>\
</div></nav>"
    );
}

#[test]
fn old_document_links() {
    assert_eq!(doc_target("STRATEGY.md"), ("how-it-works".to_string(), String::new()));
    assert_eq!(doc_target("memory/2026.md"), ("logs".to_string(), String::new()));
    assert_eq!(
        doc_target("results/backtest-2026-07-23.md"),
        ("results".to_string(), "backtest-2026-07-23".to_string())
    );
    assert_eq!(doc_target("other.md"), (String::new(), String::new()));
    assert_eq!(anchor("a b.c.md"), "a-b-c");
}

fn manifest(
    family: &str,
    variant: &str,
    summary: &str,
    status: &str,
    created: &str,
    trial_started: &str,
    review_due: &str,
    retired_on: &str,
) -> orakel::data::VariantMeta {
    orakel::data::VariantMeta {
        family: family.to_string(),
        variant: variant.to_string(),
        summary: summary.to_string(),
        explainer: String::new(),
        status: status.to_string(),
        created: created.to_string(),
        supersedes: String::new(),
        labels: vec![],
        slot: None,
        trial_started: trial_started.to_string(),
        review_due: review_due.to_string(),
        success_guideline: String::new(),
        retired_on: retired_on.to_string(),
        retire_reason: String::new(),
        parked_on: String::new(),
        park_reason: String::new(),
        reopen_when: String::new(),
    }
}

#[test]
fn the_index_lists_every_family_with_its_strategies() {
    let metas = vec![
        manifest("weather", "nyc-v1", "Fades the <favourite>", "retired", "2026-06-01", "", "", "2026-07-01"),
        manifest("weather", "nyc-v2", "Fades the favourite, smaller", "trial", "2026-07-01", "2026-07-02", "2026-08-01", ""),
        manifest("crypto", "btc-v1", "Old", "retired", "2026-05-01", "", "", ""),
        manifest("crypto", "btc-v2", "New", "parked", "2026-06-01", "", "", ""),
    ];
    let p = orakel::table::Table::parse("timestamp,family,variant\n1,weather,nyc-v2\n2,weather,nyc-v2\n3,crypto,btc-v1\n");
    let s = orakel::table::Table::parse("level,key,mean_improvement\nfamily,weather,0.01\nvariant,weather/nyc-v2,-0.02\n");
    let d = orakel::table::Table::parse("family,variant\nweather,nyc-v2\n");
    let cells = vec![("+0.0100".to_string(), true), ("\u{2212}0.0200".to_string(), false)];
    let families = vec!["crypto".to_string(), "macro".to_string(), "weather".to_string()];
    let docs = vec![
        String::new(),
        "# Macro\n\n> **In plain English:** We *nowcast* the `CPI` print.\n\nRest.\n".to_string(),
        String::new(),
    ];
    let html = orakel::strategies::index(
        &families,
        &docs,
        &metas,
        &p,
        &s,
        &d,
        &cells,
        false,
        "<div class=\"banner\">stale</div>",
    );
    assert_eq!(html, "<div class=\"banner\">stale</div><div class=\"statline\"><span class=\"stat\"><b class=\"stat-v\">3</b><span class=\"stat-k\">families</span></span><span class=\"stat\"><b class=\"stat-v\">4</b><span class=\"stat-k\">strategies</span></span><span class=\"stat\"><b class=\"stat-v s-warn\">1</b><span class=\"stat-k\">in trial</span></span><span class=\"stat\"><b class=\"stat-v\">0</b><span class=\"stat-k\">live</span></span><span class=\"stat\"><b class=\"stat-v\">2</b><span class=\"stat-k\">dropped</span></span><span class=\"stat\"><b class=\"stat-v\">3</b><span class=\"stat-k\">predictions logged</span></span></div><section class=\"sec\"><div class=\"sec-head\"><h2 class=\"sec-title\">Families</h2><span class=\"sec-sub\">click a family&#39;s name to open it, anywhere else on the row to see the strategies inside</span></div><div class=\"sec-body\"><div class=\"ftable\"><div class=\"fhead\"><span>Family</span><span>What it does</span><span>Status</span><span>Predictions</span><span>vs market</span></div><details class=\"frow\"><summary><span class=\"fname\"><a class=\"flink\" href=\"/strategies/crypto\">crypto</a><span class=\"fvar-when\">2 strategies</span></span><span class=\"fsum\">New</span><span class=\"fnum\"><span class=\"badge\">dropped</span></span><span class=\"fnum\">1</span><span class=\"fnum\"><span class=\"muted\">—</span></span></summary><div class=\"fvariants\"><div class=\"fvar\"><span class=\"fvar-name\"><a href=\"/strategies/crypto/btc-v1\">btc-v1</a><span class=\"fvar-when\">created 2026-05-01</span></span><span class=\"fsum\">Old</span><span class=\"fnum\"><span class=\"badge badge-bad\">retired</span></span><span class=\"fnum\">1</span><span class=\"fnum\"><span class=\"muted\">—</span></span></div><div class=\"fvar\"><span class=\"fvar-name\"><a href=\"/strategies/crypto/btc-v2\">btc-v2</a><span class=\"fvar-when\">created 2026-06-01</span></span><span class=\"fsum\"></span><span class=\"fnum\"><span class=\"badge\">parked</span></span><span class=\"fnum\">0</span><span class=\"fnum\"><span class=\"muted\">—</span></span></div></div></details><details class=\"frow\"><summary><span class=\"fname\"><a class=\"flink\" href=\"/strategies/macro\">macro</a><span class=\"fvar-when\">0 strategies</span></span><span class=\"fsum\">We nowcast the CPI print.</span><span class=\"fnum\"><span class=\"muted\">—</span></span><span class=\"fnum\">0</span><span class=\"fnum\"><span class=\"muted\">—</span></span></summary><div class=\"fvariants\"></div></details><details class=\"frow\" open><summary><span class=\"fname\"><a class=\"flink\" href=\"/strategies/weather\">weather</a><span class=\"fvar-when\">2 strategies</span></span><span class=\"fsum\">Fades the favourite, smaller</span><span class=\"fnum\"><span class=\"badge badge-warn\">1 in trial</span></span><span class=\"fnum\">2</span><span class=\"fnum\"><span class=\"s-ok\">+0.0100</span></span></summary><div class=\"fvariants\"><div class=\"fvar\"><span class=\"fvar-name\"><a href=\"/strategies/weather/nyc-v1\">nyc-v1</a><span class=\"fvar-when\">2026-06-01 → dropped 2026-07-01</span></span><span class=\"fsum\">Fades the &lt;favourite&gt;</span><span class=\"fnum\"><span class=\"badge badge-bad\">retired</span></span><span class=\"fnum\">0</span><span class=\"fnum\"><span class=\"muted\">—</span></span></div><div class=\"fvar\"><span class=\"fvar-name\"><a href=\"/strategies/weather/nyc-v2\">nyc-v2</a><span class=\"fvar-when\">trial since 2026-07-02 · review 2026-08-01</span></span><span class=\"fsum\"></span><span class=\"fnum\"><span class=\"badge badge-warn\">trial</span></span><span class=\"fnum\">2<div class=\"fvar-when\">1 scored</div></span><span class=\"fnum\"><span class=\"s-bad\">−0.0200</span></span></div></div></details></div></div><div class=\"sec-foot\"><span class=\"mono\">strategies/&lt;family&gt;/&lt;variant&gt;/strategy.toml</span><span>improvement = how much better than the market's quoted price, per scored prediction — being right is not the same as being able to trade on it, so open a strategy for its reachable count</span></div></section>");
}

#[test]
fn a_prediction_log_lists_rows_newest_first_with_their_scores() {
    let p = orakel::table::Table::parse(
        "timestamp,family,variant,market_slug,outcome,model\n\
2026-07-01T10:00:00Z,weather,nyc-v2,rain-nyc,Yes,m1\n\
2026-07-02T11:30:00Z,weather,nyc-v1,a<b,No,m2\n\
2026-07-03T09:00:00Z,weather,nyc-v2,snow,Yes,m1\n",
    );
    let d = orakel::table::Table::parse(
        "market_slug,outcome,timestamp\nrain-nyc,Yes,2026-07-01T10:00:00Z\na<b,No,2026-07-02T11:30:00Z\n",
    );
    let figs = |o: &str, m: &str, e: &str| orakel::strategies::PredFigs {
        ours: o.to_string(),
        mkt: m.to_string(),
        edge: e.to_string(),
    };
    let pf = vec![figs("0.60", "0.55", "\u{2212}0.05"), figs("0.20", "0.30", "+0.10"), figs("0.70", "0.70", "+0.00")];
    let dc = vec![("+0.0100".to_string(), true), ("\u{2212}0.0300".to_string(), false)];
    let html = orakel::strategies::prediction_table(&p, &d, &[0, 1], true, &pf, &dc);
    assert_eq!(
        html,
        "<section class=\"sec\"><div class=\"sec-head\"><h2 class=\"sec-title\">Predictions</h2>\
<span class=\"sec-sub\">every row logged, newest first \u{2014} ours against the market at the time</span>\
<span class=\"badge\">2 rows</span></div><div class=\"sec-body\">\
<div class=\"table-wrap table-scroll\"><table class=\"data\"><thead><tr>\
<th class=\"\">Logged</th><th class=\"\">Strategy</th><th class=\"\">Market</th><th class=\"\">Outcome</th>\
<th class=\"num\">Ours</th><th class=\"num\">Market</th><th class=\"num\">Edge</th>\
<th class=\"\">Improvement</th><th class=\"\">Model</th></tr></thead><tbody>\
<tr><td class=\"\"><span class=\"mono\">2026-07-02 11:30</span></td>\
<td class=\"\"><a href=\"/strategies/weather/nyc-v1\">nyc-v1</a></td>\
<td class=\"\"><a href=\"/markets/a&lt;b\">a&lt;b</a></td><td class=\"\">No</td>\
<td class=\"num\">0.20</td><td class=\"num\">0.30</td><td class=\"num\">+0.10</td>\
<td class=\"\"><span class=\"badge badge-bad\">\u{2212}0.0300</span></td>\
<td class=\"\"><span class=\"mono\">m2</span></td></tr>\
<tr><td class=\"\"><span class=\"mono\">2026-07-01 10:00</span></td>\
<td class=\"\"><a href=\"/strategies/weather/nyc-v2\">nyc-v2</a></td>\
<td class=\"\"><a href=\"/markets/rain-nyc\">rain-nyc</a></td><td class=\"\">Yes</td>\
<td class=\"num\">0.60</td><td class=\"num\">0.55</td><td class=\"num\">\u{2212}0.05</td>\
<td class=\"\"><span class=\"badge badge-ok\">+0.0100</span></td>\
<td class=\"\"><span class=\"mono\">m1</span></td></tr>\
</tbody></table></div></div></section>"
    );
    let open = orakel::strategies::prediction_table(&p, &d, &[2], false, &pf, &dc);
    assert!(open.contains("<td class=\"\"><span class=\"muted\">open</span></td>"));
    assert!(open.contains("<span class=\"badge\">1 row</span>"));
    assert!(!open.contains("Strategy"));
    let none = orakel::strategies::prediction_table(&p, &d, &[], true, &pf, &dc);
    assert_eq!(
        none,
        "<section class=\"sec\"><div class=\"sec-head\"><h2 class=\"sec-title\">Predictions</h2>\
<span class=\"sec-sub\">rows logged against this family</span></div><div class=\"sec-body\">\
<div class=\"empty\"><strong>Nothing logged yet</strong></div></div></section>"
    );
}

fn family_fixture() -> (
    Vec<orakel::data::VariantMeta>,
    orakel::table::Table,
    orakel::table::Table,
    orakel::table::Table,
    Vec<orakel::strategies::ScoreFigs>,
    Vec<orakel::strategies::PredFigs>,
    Vec<(String, bool)>,
) {
    let mut v1 = manifest("weather", "nyc-v1", "Fades the <favourite>", "retired", "2026-06-01", "", "", "2026-07-01");
    v1.summary = "Fades the <favourite>".to_string();
    let v2 = manifest("weather", "nyc-v2", "Smaller", "trial", "2026-07-01", "2026-07-02", "2026-08-01", "");
    let p = orakel::table::Table::parse(
        "timestamp,family,variant,market_slug,outcome,model\n\
2026-07-01T10:00:00Z,weather,nyc-v2,rain,Yes,m1\n\
2026-07-02T10:00:00Z,crypto,btc-v1,btc,Yes,m1\n\
2026-07-03T10:00:00Z,weather,nyc-v2,snow,No,m1\n",
    );
    let s = orakel::table::Table::parse(
        "level,key,n\nfamily,weather,5\nvariant,weather/nyc-v2,3\nfamily,crypto,9\nvariant,weatherman/x,1\n",
    );
    let d = orakel::table::Table::parse("market_slug,outcome,timestamp\nrain,Yes,2026-07-01T10:00:00Z\n");
    let figs = |imp: &str, up: bool| orakel::strategies::ScoreFigs {
        imp: imp.to_string(),
        up,
        brier: "0.2000".to_string(),
        market_brier: "0.2100".to_string(),
        logloss: "0.6000".to_string(),
    };
    let sc = vec![figs("+0.0100", true), figs("\u{2212}0.0200", false), figs("+0.5000", true), figs("+0.1000", true)];
    let pf = (0..3)
        .map(|_| orakel::strategies::PredFigs {
            ours: "0.60".to_string(),
            mkt: "0.50".to_string(),
            edge: "\u{2212}0.10".to_string(),
        })
        .collect();
    let dc = vec![("+0.0100".to_string(), true)];
    (vec![v1, v2], p, s, d, sc, pf, dc)
}

const FAMILY_DOC: &str = "# Weather\n\n> **In plain English:** We fade\n> the favourite.\n\nRest **here**.\n";

const FAMILY_STATS: &str = "<div class=\"statline\"><span class=\"stat\"><b class=\"stat-v\">2</b><span class=\"stat-k\">strategies</span></span><span class=\"stat\"><b class=\"stat-v\">2</b><span class=\"stat-k\">predictions</span></span><span class=\"stat\"><b class=\"stat-v\">5</b><span class=\"stat-k\">scored</span></span><span class=\"stat\"><b class=\"stat-v s-ok\">+0.0100</b><span class=\"stat-k\">better than the market, per prediction</span></span></div>";

#[test]
fn a_family_page_opens_on_its_strategies() {
    let (metas, p, s, d, sc, pf, dc) = family_fixture();
    let page = orakel::strategies::family(
        "weather", &None, FAMILY_DOC, &metas, &p, &s, &d, &sc, &pf, &dc, false,
        "<div class=\"banner\">stale</div>",
    );
    assert!(page.tabbed);
    assert!(!page.live);
    assert_eq!(page.leaf, "");
    assert_eq!(
        page.bar,
        "<nav class=\"subbar\" aria-label=\"Sections of this page\"><div class=\"subbar-in\">\
<a href=\"/strategies/weather\" aria-current=\"page\">Overview</a>\
<a href=\"/strategies/weather?tab=how-it-works\">How it works</a>\
<a href=\"/strategies/weather?tab=predictions\">Predictions<span class=\"tab-n\">2</span></a>\
</div></nav>"
    );
    let want = format!(
        "<div class=\"banner\">stale</div>{FAMILY_STATS}<p class=\"lede\">We fade the favourite.</p>\
<section class=\"sec\"><div class=\"sec-head\"><h2 class=\"sec-title\">Strategies in this family</h2>\
<span class=\"sec-sub\">each one is a separate experiment with its own clock</span>\
<span class=\"badge\">2 variants</span></div><div class=\"sec-body\"><div class=\"items\">\
<a class=\"item\" href=\"/strategies/weather/nyc-v1\"><div class=\"item-main\"><div class=\"item-title\">nyc-v1</div>\
<div class=\"item-sub\"><span class=\"item-summary\">Fades the &lt;favourite&gt;</span>dropped 2026-07-01 \u{b7} 0 predictions</div></div>\
<span class=\"badge badge-bad\">retired</span></a>\
<a class=\"item\" href=\"/strategies/weather/nyc-v2\"><div class=\"item-main\"><div class=\"item-title\">nyc-v2</div>\
<div class=\"item-sub\"><span class=\"item-summary\">Smaller</span>review due 2026-08-01 \u{b7} 2 predictions</div></div>\
<span class=\"badge badge-warn\">trial</span></a>\
</div></div></section>"
    );
    assert_eq!(page.body, want);
}

#[test]
fn a_family_page_shows_its_document_and_its_predictions() {
    let (metas, p, s, d, sc, pf, dc) = family_fixture();
    let how = orakel::strategies::family(
        "weather", &Some("how-it-works".to_string()), FAMILY_DOC, &metas, &p, &s, &d, &sc, &pf, &dc,
        true, "<div class=\"banner\">stale</div>",
    );
    assert_eq!(how.leaf, "How it works");
    assert_eq!(
        how.body,
        format!(
            "{FAMILY_STATS}<section class=\"sec\"><div class=\"sec-body\"><div class=\"prose\"><p>Rest <strong>here</strong>.</p>\n</div></div>\
<div class=\"sec-foot\"><span class=\"mono\">strategies/weather/FAMILY.md</span><span>written for the firm \u{2014} the plain-English version opens \
<a href=\"/strategies/weather\">Overview</a></span></div></section>"
        )
    );
    let preds = orakel::strategies::family(
        "weather", &Some("predictions".to_string()), FAMILY_DOC, &metas, &p, &s, &d, &sc, &pf, &dc,
        true, "",
    );
    assert_eq!(preds.leaf, "Predictions");
    assert!(preds.bar.contains("<a href=\"/strategies/weather?tab=predictions\" aria-current=\"page\">"));
    assert!(preds.body.starts_with(FAMILY_STATS));
    assert!(preds.body.contains("<h2 class=\"sec-title\">Scoring</h2>"));
    assert!(preds.body.contains("<span class=\"badge\">2 rows</span>"));
    assert!(preds.body.contains(
        "<tr><td class=\"\">family</td><td class=\"\"><a href=\"/strategies/weather\">weather</a></td><td class=\"num\">5</td>\
<td class=\"num\"><span class=\"badge badge-ok\">+0.0100</span></td><td class=\"num\">0.2000</td><td class=\"num\">0.2100</td>\
<td class=\"num\">0.6000</td></tr>"
    ));
    assert!(preds.body.contains("<a href=\"/strategies/weather/nyc-v2\">weather/nyc-v2</a>"));
    assert!(!preds.body.contains("weatherman"));
    assert!(!preds.body.contains("crypto"));
    assert!(preds.body.contains("<span class=\"mono\">2026-07-03 10:00</span>"));
    assert!(preds.body.find("2026-07-03 10:00").unwrap() < preds.body.find("2026-07-01 10:00").unwrap());
    let unknown_tab = orakel::strategies::family(
        "weather", &Some("nope".to_string()), FAMILY_DOC, &metas, &p, &s, &d, &sc, &pf, &dc, true, "",
    );
    assert_eq!(unknown_tab.leaf, "");
    assert!(unknown_tab.body.contains("Strategies in this family"));
}

#[test]
fn an_unknown_or_missing_family_gets_a_notice() {
    let (metas, p, s, d, sc, pf, dc) = family_fixture();
    let bad = orakel::strategies::family("../x", &None, FAMILY_DOC, &metas, &p, &s, &d, &sc, &pf, &dc, false, "b");
    assert!(!bad.tabbed);
    assert!(bad.live);
    assert_eq!(bad.body, "<div class=\"empty\"><strong>Unknown family</strong></div>");
    let gone = orakel::strategies::family("macro", &None, "  \n", &metas, &p, &s, &d, &sc, &pf, &dc, false, "b");
    assert!(!gone.tabbed);
    assert!(!gone.live);
    assert_eq!(gone.bar, "");
    assert_eq!(
        gone.body,
        "<section class=\"sec\"><div class=\"sec-head\"><h2 class=\"sec-title\">Family not found</h2>\
<span class=\"sec-sub\">strategies/macro/FAMILY.md</span></div><div class=\"sec-body\">\
<div class=\"empty\"><strong>Nothing here</strong><div>No such family in the repo. \
<a class=\"link\" href=\"/strategies\">Back to strategies</a>.</div></div></div></section>"
    );
}

fn variant_paths() -> Vec<String> {
    [
        "strategies/weather/nyc-v2/strategy.toml",
        "strategies/weather/nyc-v2/STRATEGY.md",
        "strategies/weather/nyc-v2/results/backtest-2026.md",
        "strategies/weather/nyc-v2/results/numbers.csv",
        "strategies/weather/nyc-v2/memory/WORKLOG.md",
        "strategies/weather/nyc-v2/applications/nyc.toml",
        "strategies/weather/nyc-v2/applications/sub/x.toml",
        "strategies/weather/nyc-v1/STRATEGY.md",
    ]
    .iter()
    .map(|s| s.to_string())
    .collect()
}

#[test]
fn a_strategy_page_offers_what_the_listing_holds() {
    let f = orakel::strategies::variant_files("weather", "nyc-v2", &variant_paths());
    assert!(f.has_md);
    assert_eq!(f.results, vec!["strategies/weather/nyc-v2/results/backtest-2026.md".to_string()]);
    assert_eq!(f.artifacts, vec!["strategies/weather/nyc-v2/results/numbers.csv".to_string()]);
    assert_eq!(f.logs, vec!["strategies/weather/nyc-v2/memory/WORKLOG.md".to_string()]);
    assert_eq!(f.apps, vec!["strategies/weather/nyc-v2/applications/nyc.toml".to_string()]);
    let g = orakel::strategies::variant_files("weather", "nyc-v1", &variant_paths());
    assert!(g.has_md);
    assert!(g.results.is_empty() && g.artifacts.is_empty() && g.logs.is_empty() && g.apps.is_empty());
    assert_eq!(orakel::strategies::file_name("a/b/c.md"), "c.md");
    assert_eq!(orakel::strategies::file_name("plain"), "plain");
    assert_eq!(orakel::strategies::file_name("dir/"), "");
}

struct VariantFixture {
    m: orakel::data::VariantMeta,
    p: orakel::table::Table,
    s: orakel::table::Table,
    d: orakel::table::Table,
    sc: Vec<orakel::strategies::ScoreFigs>,
    pf: Vec<orakel::strategies::PredFigs>,
    dc: Vec<(String, bool)>,
    ahead: Vec<bool>,
}

fn variant_fixture() -> VariantFixture {
    let mut m = manifest("weather", "nyc-v2", "Smaller", "trial", "2026-07-01", "2026-07-02", "2026-08-01", "");
    m.explainer = "We fade the favourite.".to_string();
    m.slot = Some(2);
    m.labels = vec!["a".to_string()];
    m.supersedes = "nyc-v1".to_string();
    m.success_guideline = "Beat the market".to_string();
    let p = orakel::table::Table::parse(
        "timestamp,family,variant,market_slug,outcome,model\n\
2026-07-01T10:00:00Z,weather,nyc-v2,rain,Yes,m1\n\
2026-07-02T10:00:00Z,weather,nyc-v1,snow,Yes,m1\n\
2026-07-03T10:00:00Z,weather,nyc-v2,hail,No,m1\n",
    );
    let s = orakel::table::Table::parse("level,key\nfamily,weather\nvariant,weather/nyc-v2\n");
    let d = orakel::table::Table::parse(
        "family,variant,market_slug,outcome,timestamp\nweather,nyc-v2,rain,Yes,2026-07-01T10:00:00Z\n\
weather,nyc-v2,hail,No,2026-07-03T10:00:00Z\nweather,nyc-v1,snow,Yes,2026-07-02T10:00:00Z\n",
    );
    let figs = |imp: &str, up: bool| orakel::strategies::ScoreFigs {
        imp: imp.to_string(),
        up,
        brier: String::new(),
        market_brier: String::new(),
        logloss: String::new(),
    };
    let pf = (0..3)
        .map(|_| orakel::strategies::PredFigs {
            ours: "0.60".to_string(),
            mkt: "0.50".to_string(),
            edge: "\u{2212}0.10".to_string(),
        })
        .collect();
    VariantFixture {
        m,
        p,
        s,
        d,
        sc: vec![figs("+0.2000", true), figs("+0.0100", true)],
        pf,
        dc: vec![("+0.0100".to_string(), true), ("\u{2212}0.0300".to_string(), false), ("+0.1".to_string(), true)],
        ahead: vec![true, false, true],
    }
}

const VARIANT_STATS: &str = "<div class=\"statline\"><span class=\"stat\"><b class=\"stat-v\"><span class=\"badge badge-warn\">trial</span></b><span class=\"stat-k\">on slot 2 since 2026-07-02</span></span><span class=\"stat\"><b class=\"stat-v\">2</b><span class=\"stat-k\">predictions</span></span><span class=\"stat\"><b class=\"stat-v\">2</b><span class=\"stat-k\">scored, 1 beat the market, 1 reachable</span></span><span class=\"stat\"><b class=\"stat-v s-ok\">+0.0100</b><span class=\"stat-k\">better than the market, per prediction</span></span><span class=\"stat\"><b class=\"stat-v s-warn\">2026-08-01</b><span class=\"stat-k\">trial review due</span></span></div>";

#[test]
fn a_strategy_page_opens_on_its_explainer_and_facts() {
    let x = variant_fixture();
    let files = orakel::strategies::variant_files("weather", "nyc-v2", &variant_paths());
    let app = orakel::config::toml_of(
        "market_slug = 'rain-nyc'\nadded = '2026-07-01'\nactive = true\nlegs = [1, 2]\n[params]\nasset = 'NYC'\ntier = 'a'\n",
    );
    let page = orakel::strategies::variant(
        "weather", "nyc-v2", &None, &files, "status = 'trial'", &x.m, "", &[], &[], &[app], &x.p, &x.s,
        &x.d, &x.sc, &x.pf, &x.dc, &x.ahead, ", 1 reachable", true, "",
    );
    assert!(page.tabbed);
    assert_eq!(page.leaf, "");
    assert_eq!(
        page.bar,
        "<nav class=\"subbar\" aria-label=\"Sections of this page\"><div class=\"subbar-in\">\
<a href=\"/strategies/weather/nyc-v2\" aria-current=\"page\">Overview</a>\
<a href=\"/strategies/weather/nyc-v2?tab=how-it-works\">How it works</a>\
<a href=\"/strategies/weather/nyc-v2?tab=results\">Results<span class=\"tab-n\">1</span></a>\
<a href=\"/strategies/weather/nyc-v2?tab=predictions\">Predictions<span class=\"tab-n\">2</span></a>\
<a href=\"/strategies/weather/nyc-v2?tab=logs\">Logs</a></div></nav>"
    );
    let want = format!(
        "{VARIANT_STATS}<div class=\"grid-main\"><div><p class=\"lede\">We fade the favourite.</p></div>\
<section class=\"sec\"><div class=\"sec-head\"><h2 class=\"sec-title\">Facts</h2>\
<span class=\"sec-sub\">status, trial clock and labels as recorded in the repo</span></div>\
<div class=\"sec-body\"><div class=\"rows\">\
<div class=\"row\"><span class=\"k\">Status</span><span class=\"v\"><span class=\"badge badge-warn\">trial</span></span></div>\
<div class=\"row\"><span class=\"k\">Created</span><span class=\"v\">2026-07-01</span></div>\
<div class=\"row\"><span class=\"k\">Replaces</span><span class=\"v\"><a href=\"/strategies/weather/nyc-v1\">nyc-v1</a></span></div>\
<div class=\"row\"><span class=\"k\">Family</span><span class=\"v\"><a href=\"/strategies/weather\">weather</a></span></div>\
<div class=\"row\"><span class=\"k\">Trial started</span><span class=\"v\">2026-07-02</span></div>\
<div class=\"row\"><span class=\"k\">Review due</span><span class=\"v\">2026-08-01</span></div>\
<div class=\"row\"><span class=\"k\">Labels</span><span class=\"v\"><div class=\"chip-row\"><span class=\"chip\">a</span></div></span></div>\
<div class=\"row row-block\"><span class=\"k\">What would make it a success</span><span class=\"v\">Beat the market</span></div>\
</div></div></section></div>\
<section class=\"sec\"><div class=\"sec-head\"><h2 class=\"sec-title\">Applications</h2>\
<span class=\"sec-sub\">the boards and markets this strategy is pointed at</span><span class=\"badge\">1 file</span></div>\
<div class=\"sec-body\"><div class=\"table-wrap\"><table class=\"data\"><thead><tr>\
<th class=\"\">File</th><th class=\"\">Market</th><th class=\"\">Added</th><th class=\"\">Active</th>\
<th class=\"num\">Legs</th><th class=\"\">Asset</th><th class=\"\">Tier</th></tr></thead><tbody><tr>\
<td class=\"\"><span class=\"mono\">nyc.toml</span></td><td class=\"\"><a href=\"/markets/rain-nyc\">rain-nyc</a></td>\
<td class=\"\">2026-07-01</td><td class=\"\"><span class=\"badge badge-ok\">active</span></td><td class=\"num\">2</td>\
<td class=\"\"><span class=\"muted\">NYC</span></td><td class=\"\"><span class=\"muted\">a</span></td>\
</tr></tbody></table></div></div></section>"
    );
    assert_eq!(page.body, want);
}

#[test]
fn a_strategy_page_shows_its_runbook_results_predictions_and_logs() {
    let x = variant_fixture();
    let files = orakel::strategies::variant_files("weather", "nyc-v2", &variant_paths());
    let open = |tab: &str, md: &str, results: &[String], logs: &[String]| {
        orakel::strategies::variant(
            "weather", "nyc-v2", &Some(tab.to_string()), &files, "status = 'trial'", &x.m, md, results,
            logs, &[], &x.p, &x.s, &x.d, &x.sc, &x.pf, &x.dc, &x.ahead, ", 1 reachable", false, "<b>stale</b>",
        )
    };
    let how = open("how-it-works", "# Runbook\n\nStep **one**.\n", &[], &[]);
    assert_eq!(how.leaf, "How it works");
    assert_eq!(
        how.body,
        format!(
            "<b>stale</b>{VARIANT_STATS}<section class=\"sec\"><div class=\"sec-body\"><div class=\"prose\"><p>Step <strong>one</strong>.</p>\n</div></div>\
<div class=\"sec-foot\"><span class=\"mono\">strategies/weather/nyc-v2/STRATEGY.md</span><span>the runbook: method, gates, and what would kill it</span></div></section>"
        )
    );
    let res = open("results", "", &["# Backtest\n\nUp.\n".to_string()], &[]);
    assert_eq!(res.leaf, "Results");
    assert!(res.body.contains(
        "<div id=\"backtest-2026\"><section class=\"sec\"><div class=\"sec-body\"><div class=\"prose prose-wide\"><h1>Backtest</h1>\n<p>Up.</p>\n</div></div>\
<div class=\"sec-foot\"><span class=\"mono\">strategies/weather/nyc-v2/results/backtest-2026.md</span></div></section></div>"
    ));
    assert!(res.body.contains("<h2 class=\"sec-title\">The numbers behind them</h2>"));
    assert!(res.body.contains(
        "<a href=\"https://github.com/felix-andreas/orakel/blob/main/strategies/weather/nyc-v2/results/numbers.csv\" target=\"_blank\" rel=\"noreferrer\">"
    ));
    assert!(res.body.contains(" numbers.csv</a></li></ul>"));
    let preds = open("predictions", "", &[], &[]);
    assert_eq!(preds.leaf, "Predictions");
    assert!(preds.body.contains("<span class=\"badge\">2 rows</span>"));
    assert!(!preds.body.contains("Strategy</th>"));
    assert!(!preds.body.contains("snow"));
    assert!(preds.body.contains("<span class=\"badge badge-bad\">\u{2212}0.0300</span>"));
    let logs = open("logs", "", &[], &["# Log\n\nRan.\n".to_string()]);
    assert_eq!(logs.leaf, "Logs");
    assert!(logs.body.ends_with(
        "<section class=\"sec\"><div class=\"sec-head\"><h2 class=\"sec-title\">Worklog</h2>\
<span class=\"sec-sub\">what this strategy&#39;s agents did, run by run</span></div>\
<div class=\"sec-body\"><div class=\"prose prose-wide\"><p>Ran.</p>\n</div></div>\
<div class=\"sec-foot\"><span class=\"mono\">strategies/weather/nyc-v2/memory/WORKLOG.md</span></div></section>"
    ));
}

#[test]
fn an_unknown_or_missing_strategy_gets_a_notice() {
    let x = variant_fixture();
    let files = orakel::strategies::variant_files("weather", "nyc-v9", &variant_paths());
    let bad = orakel::strategies::variant(
        "weather", "..", &None, &files, "", &x.m, "", &[], &[], &[], &x.p, &x.s, &x.d, &x.sc, &x.pf,
        &x.dc, &x.ahead, "", false, "",
    );
    assert!(!bad.tabbed && bad.live);
    assert_eq!(bad.body, "<div class=\"empty\"><strong>Unknown variant</strong></div>");
    let gone = orakel::strategies::variant(
        "weather", "nyc-v9", &None, &files, " \n", &x.m, "", &[], &[], &[], &x.p, &x.s, &x.d, &x.sc,
        &x.pf, &x.dc, &x.ahead, "", false, "",
    );
    assert!(!gone.tabbed && !gone.live);
    assert_eq!(
        gone.body,
        "<section class=\"sec\"><div class=\"sec-head\"><h2 class=\"sec-title\">Variant not found</h2>\
<span class=\"sec-sub\">strategies/weather/nyc-v9</span></div><div class=\"sec-body\">\
<div class=\"empty\"><strong>Nothing here</strong><div>No such variant in the repo. \
<a class=\"link\" href=\"/strategies\">Back to strategies</a>.</div></div></div></section>"
    );
}
