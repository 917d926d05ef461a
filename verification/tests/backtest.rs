use orakel::backtest::{
    equity_section, href, lookup, method, policy_characters, set_characters, set_runs,
    sub, tabbar, Run, Tab,
};

const README: &str = "# Execution\n\n| policy | character |\n|---|---|\n| `mirror` | Every signal, flat stake, no gates. |\n| `gate` |  |\n  | `kelly` | Sizes by edge. |\n\n- `orakel-live` — our own predictions\n  joined to resolutions.\n- `ladder-rv-hist` - the big one.\n\n  not continued\n";

#[test]
fn descriptions_from_the_readme() {
    let p = policy_characters(README);
    assert_eq!(
        p,
        vec![
            ("mirror".to_string(), "Every signal, flat stake, no gates.".to_string()),
            ("kelly".to_string(), "Sizes by edge.".to_string()),
        ]
    );
    let s = set_characters(README);
    assert_eq!(
        s,
        vec![
            ("orakel-live".to_string(), "our own predictions joined to resolutions.".to_string()),
            ("ladder-rv-hist".to_string(), "the big one.".to_string()),
        ]
    );
    assert_eq!(lookup(&p, "kelly"), "Sizes by edge.");
    assert_eq!(lookup(&p, "fade"), "");
}

#[test]
fn addresses_and_tabs() {
    assert_eq!(sub("a<b"), "<span class=\"sub\">a&lt;b</span>");
    assert_eq!(href("", 2), "/backtest");
    assert_eq!(href("", 1), "/backtest?fees=v1");
    assert_eq!(href("caveats", 2), "/backtest?tab=caveats");
    assert_eq!(href("caveats", 1), "/backtest?tab=caveats&fees=v1");
    let tabs = vec![
        Tab { key: String::new(), label: "Matrix".to_string(), count: "8".to_string() },
        Tab { key: "caveats".to_string(), label: "Caveats".to_string(), count: String::new() },
    ];
    assert_eq!(
        tabbar(&tabs, "caveats", 1),
        "<nav class=\"subbar\" aria-label=\"Sections of this page\"><div class=\"subbar-in\">\
<a href=\"/backtest?fees=v1\">Matrix<span class=\"tab-n\">8</span></a>\
<a href=\"/backtest?tab=caveats&amp;fees=v1\" aria-current=\"page\">Caveats</a>\
</div></nav>"
    );
}

fn run(set: &str, policy: &str, version: u32, fee_model: &str) -> Run {
    Run {
        set: set.to_string(),
        policy: policy.to_string(),
        version,
        fee_model: fee_model.to_string(),
        n_signals: 120,
        n_trades: 0,
        has_ann: false,
        underpowered: false,
        date_start: "2026-07-01".to_string(),
        date_end: "2026-07-20".to_string(),
    }
}

#[test]
fn set_runs_keeps_one_set_in_policy_order() {
    let runs = vec![
        run("orakel-live", "harvest", 2, ""),
        run("orakel-live", "mirror", 2, ""),
        run("orakel-live", "mirror", 1, ""),
        run("ladder-rv-hist", "gate", 2, ""),
        run("orakel-live", "custom", 2, ""),
        run("orakel-live", "gate", 2, ""),
        run("orakel-live", "mirror", 2, ""),
    ];
    assert_eq!(set_runs(&runs, "orakel-live", 2), vec![1, 6, 5, 0, 4]);
    assert_eq!(set_runs(&runs, "orakel-live", 1), vec![2]);
    assert_eq!(set_runs(&runs, "ladder-rv-hist", 2), vec![3]);
    assert!(set_runs(&runs, "nowhere", 2).is_empty());
}

#[test]
fn ranked_needs_thirty_trades_and_a_return() {
    let mut r = run("orakel-live", "gate", 2, "");
    r.n_trades = 30;
    r.has_ann = true;
    assert!(r.ranked());
    r.n_trades = 29;
    assert!(!r.ranked());
    r.n_trades = 40;
    r.underpowered = true;
    assert!(!r.ranked());
}

#[test]
fn equity_legend_keeps_canonical_colours() {
    let traded = vec![run("orakel-live", "kelly", 2, ""), run("orakel-live", "mirror", 2, "")];
    let expected = "<section class=\"sec\"><div class=\"sec-head\"><h2 class=\"sec-title\">What $1,000 would have become</h2><span class=\"sec-sub\">bankroll plus realized profit — an open position is not marked to market, because these signal sets carry no price for every day of every hold</span></div><div class=\"sec-body\"><div class=\"legend\"><span><i class=\"c1\"></i>mirror</span><span><i class=\"c3\"></i>kelly</span></div>\n<div class=\"chart\" id=\"chart-eq\"></div>\n<script src=\"/charts.js\"></script>\n<script>\n(function () {\n  var box = document.getElementById(\"chart-eq\");\n  fetch(\"/backtest/data/orakel-live/v2.json\")\n    .then(function (r) { return r.json(); })\n    .then(function (d) { box.innerHTML = \"\"; Chart.line(box, d, {yPrecision: 0}); })\n    .catch(function () { box.textContent = \"failed to load the equity curves\"; });\n})();\n</script></div><div class=\"sec-foot\"><span class=\"mono\">execution/results/&lt;set&gt;/&lt;policy&gt;-v2.json</span><span>drag to zoom, double-click to reset</span></div></section>";
    assert_eq!(equity_section("orakel-live", &traded, 2), expected);
}

#[test]
fn method_quotes_the_first_costed_fee_model() {
    let runs = vec![
        run("orakel-live", "mirror", 1, "none (fee-free)"),
        run("orakel-live", "gate", 2, ""),
        run("orakel-live", "kelly", 2, "shares × rate × p × (1 − p) [crypto 0.072] & co"),
        run("orakel-live", "fade", 2, "something else"),
    ];
    let expected = "<p class=\"lede\">Everything on this page is a replay. A signal is a probability the firm published for one outcome at one moment; a policy is a named way of turning that probability into a trade; a signal set is a frozen collection of signals whose outcomes are now known. The engine walks each policy through each set, prices every fill against the book that was recorded (or an assumed spread where none was), charges the venue's fee, and settles at the outcome that actually happened. Nothing is ordered, and the firm holds no positions.</p><section class=\"sec\"><div class=\"sec-head\"><h2 class=\"sec-title\">The number that decides</h2><span class=\"sec-sub\">annual return on locked capital, and why it is not cents per trade</span></div><div class=\"sec-body\"><ul class=\"notes\"><li><b>A binary outcome token trades between 0 and 1, and selling one costs collateral.</b> Selling YES at 15c means receiving 15c and posting the other 85c until the market settles — so the money a trade ties up, not the cents it earns, is what the return has to be measured against.</li><li><b>The formula.</b> Net profit ÷ (capital locked × days held) × 365. Three cents of edge on a 15c wing locks 85c for a few days; the same three cents on a 97c favourite locks 97c to earn it. Cents per trade calls those the same business. This does not (DESIGN.md §3).</li><li><b>It is a rate, not a fund result.</b> Multiply by the capital-used column to see what a bankroll would actually have earned — and where capital used exceeds 100%, the stated $1,000 bankroll could not have funded the policy at all.</li><li><b>Capital used is reported beside it, always.</b> A policy earning 40% a year on 3% of the bankroll is a rounding error on the firm, and a matrix that hides that is lying by omission.</li></ul></div></section><section class=\"sec\"><div class=\"sec-head\"><h2 class=\"sec-title\">What a fill costs</h2><span class=\"sec-sub\">the simulator is conservative on purpose</span></div><div class=\"sec-body\"><ul class=\"notes\"><li><b>Never at the midpoint.</b> A buy lifts the ask and a sell hits the bid. Where only a midpoint was recorded, an assumed 3c spread is applied symmetrically and the trade is marked synthetic — flagged, never celebrated (DESIGN.md §4).</li><li><b>Size is capped by the depth that was visible</b> within 5c of the touch. Below the minimum stake the signal is unfundable: counted and reported, never quietly dropped.</li><li><b>The venue's taker fee is charged per fill.</b> Polymarket has taken one since 2026-01-05 — <span class=\"mono\">shares × rate × p × (1 − p)</span>, by market category. It peaks at p = 0.50, which is exactly the band these policies target. Charged on entry, and again on an exit taken in the market; settling at resolution is a redemption, not a match, and costs nothing. In the engine's own words: <span class=\"mono\">shares × rate × p × (1 − p) [crypto 0.072] &amp; co</span>.</li><li><b>Two policy versions exist for exactly one reason.</b> <span class=\"mono\">v1</span> charged no fee, which was wrong; <span class=\"mono\">v2</span> is identical in every other respect and charges the real one. v1 rows are kept only so earlier reports stay attributable, and a policy is never edited in place — a change means a new version file.</li></ul></div></section><section class=\"sec\"><div class=\"sec-head\"><h2 class=\"sec-title\">What we refuse to conclude</h2><span class=\"sec-sub\">the rules the engine holds itself to, and this page with it</span></div><div class=\"sec-body\"><ul class=\"notes\"><li><b>Nothing below 30 trades is ranked.</b> The engine will not call a policy a winner or a loser on a smaller sample, and neither will this page. An underpowered row is shown and labelled, never quietly promoted (DESIGN.md §7).</li><li><b>Every signal set is one regime.</b> Each result is reported with its date span, and a span is a caveat, not a footnote.</li><li><b>A policy that never fired has not been beaten.</b> Taking no trades is a finding about the policy and the data together; it is not evidence that the policy is bad.</li><li><b>No real money is involved and none ever will be.</b> This is a measurement instrument that tells us which of our beliefs survive a spread, before anything is at stake (CONSTITUTION.md §5).</li></ul></div><div class=\"sec-foot\"><span class=\"mono\">execution/DESIGN.md · execution/results/summary.csv</span><span><a href=\"/backtest?doc=summary\">The engine's full write-up →</a> · <a href=\"/backtest?doc=design\">The design and its accounting rules →</a></span></div></section>";
    assert_eq!(method(&runs), expected);
    let none = method(&[run("orakel-live", "mirror", 1, "none")]);
    assert!(none.contains("In the engine's own words: <span class=\"mono\"></span>."));
}
