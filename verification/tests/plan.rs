use orakel::data::VariantMeta;
use orakel::plan::{
    actions_table, apply_section, gate_report, plan_id, plan_summary, v1_warning, Action, Cand,
    DiffRow, PlanPolicy,
};

fn policy(taker_fees: bool, version: i64) -> PlanPolicy {
    PlanPolicy {
        file: "fade-v2".to_string(),
        name: "fade".to_string(),
        version,
        character: "fades <wings>".to_string(),
        delayed: false,
        taker_fees,
    }
}

fn strs(xs: &[&str]) -> Vec<String> {
    xs.iter().map(|s| s.to_string()).collect()
}

#[test]
fn the_plan_summary_counts_actions_and_gates() {
    let kinds = strs(&["open", "open", "close", "no change", "unmanaged", "unmanaged"]);
    let gates = strs(&["", "spread too wide", "", "below the minimum edge"]);
    let html = plan_summary(&policy(true, 2), &kinds, &gates, Some(7), "p-0000abcd");
    assert!(html.contains(
        "<p class=\"plan-line\"><b>Plan:</b> 2 to open, 0 to increase, 0 to reduce, 1 to close.</p>"
    ), "{html}");
    assert!(html.contains(
        "<div class=\"stat\"><a class=\"stat-v\" href=\"/backtest\">fade</a><span class=\"stat-k\">policy</span><span class=\"stat-c\">fades &lt;wings&gt;</span></div>"
    ), "{html}");
    assert!(html.contains("<b class=\"stat-v\">4</b><span class=\"stat-k\">signals considered</span>"), "{html}");
    assert!(html.contains(
        "<b class=\"stat-v\">2</b><span class=\"stat-k\">passed every gate</span><span class=\"stat-c\">2 candidates were refused, and the table below says by which rule</span>"
    ), "{html}");
    assert!(html.contains(
        "<b class=\"stat-v\">3</b><span class=\"stat-k\">actions</span><span class=\"stat-c\">1 unchanged · 2 outside this plan</span>"
    ), "{html}");
    assert!(html.contains("<span class=\"badge badge-ok\">version 2</span>"), "{html}");
    assert!(html.contains("<span class=\"mono\">plan p-0000abcd</span><span>priced against the order book as of 7 minutes ago</span>"), "{html}");
}

#[test]
fn a_plan_where_every_candidate_was_refused_is_flagged() {
    let html = plan_summary(&policy(false, 1), &[], &strs(&["no quote"]), None, "p-1");
    assert!(html.contains("<b class=\"stat-v s-warn\">0</b><span class=\"stat-k\">passed every gate</span><span class=\"stat-c\">1 candidate was refused"), "{html}");
    assert!(html.contains("<span class=\"badge badge-warn\">version 1</span>"), "{html}");
    assert!(html.contains("no order-book snapshot could be read"), "{html}");
}

#[test]
fn only_a_fee_free_policy_gets_the_warning() {
    assert_eq!(v1_warning(&policy(true, 2)), "");
    let w = v1_warning(&policy(false, 1));
    assert!(w.starts_with("<div class=\"banner\"><svg "), "{w}");
    assert!(w.contains("<span class=\"mono\">fade-v2</span> charges no venue fee at all, and the venue has charged takers since 2026-01-05 (no fee at all — this policy is fee-free and its numbers are not costed)."), "{w}");
    assert!(w.ends_with("to see what it would actually cost.</div></div>"), "{w}");
}

#[test]
fn plan_id_of_empty_plan_is_the_fnv_offset() {
    assert_eq!(plan_id("", &[], &[], &[]), "p-cbf29ce4");
}

#[test]
fn plan_id_covers_policy_selection_and_actions() {
    let strategies = vec!["s1".to_string()];
    let markets = vec!["m1".to_string()];
    let actions = vec![(
        "buy".to_string(),
        "tok".to_string(),
        "YES".to_string(),
        "10.000000/0.500000".to_string(),
    )];
    assert_eq!(plan_id("balanced-v2", &[], &[], &[]), "p-bb89a8c0");
    assert_eq!(plan_id("balanced-v2", &strategies, &markets, &actions), "p-9245d09b");
    assert_ne!(
        plan_id("balanced-v2", &strategies, &markets, &[]),
        plan_id("balanced-v2", &strategies, &markets, &actions)
    );
}

#[test]
fn fee_label_says_whether_the_policy_is_costed() {
    assert_eq!(policy(true, 2).fee_label(), "the venue's real taker fee, charged per fill");
    assert_eq!(
        policy(false, 1).fee_label(),
        "no fee at all — this policy is fee-free and its numbers are not costed"
    );
}

#[allow(clippy::too_many_arguments)]
fn cand(
    slug: &str,
    outcome: &str,
    ts: &str,
    prob: &str,
    has_book: bool,
    bid: &str,
    ask: &str,
    synthetic: bool,
    side: &str,
    edge: &str,
    gate: &str,
    detail: &str,
) -> Cand {
    Cand {
        slug: slug.to_string(),
        outcome: outcome.to_string(),
        signal_ts: ts.to_string(),
        prob: prob.to_string(),
        has_book,
        bid: bid.to_string(),
        ask: ask.to_string(),
        synthetic,
        side: side.to_string(),
        edge: edge.to_string(),
        gate: gate.to_string(),
        detail: detail.to_string(),
    }
}

#[test]
fn gate_report_counts_each_rule_most_frequent_first() {
    let cands = vec![
        cand("nyc-temp", "YES", "2026-07-25T01:52:10Z", "0.4500", true, "0.4400", "0.4600", false, "buy", "+0.0100", "no quote", "no book & no midpoint"),
        cand("btc-close", "NO", "2026-07-24", "0.6000", false, "", "", true, "", "", "inside spread", "0.58 < p < 0.62"),
        cand("nba-totals", "OVER", "2026-07-25T03:00:00Z", "0.5500", true, "0.5000", "0.5200", false, "buy", "+0.0300", "", "passed"),
        cand("cpi", "YES", "2026-07-23T10:00:00Z", "0.3000", true, "0.2500", "0.2700", true, "buy", "+0.0300", "edge below threshold", "edge 0.03 < 0.05"),
        cand("approval", "NO", "2026-07-22T09:30:00Z", "0.5100", true, "0.5000", "0.5200", false, "", "", "inside spread", "0.50 < p < 0.52"),
        cand("eth", "YES", "2026-07-21T08:00:00Z", "0.2000", true, "0.1000", "0.1200", false, "sell", "-0.0800", "edge below threshold", "edge 0.02 < 0.05"),
    ];
    let expected = "<section class=\"sec\"><div class=\"sec-head\"><h2 class=\"sec-title\">Why the rest were not traded</h2><span class=\"sec-sub\">every candidate that did not make it, and the rule that stopped it</span><span class=\"badge\">5 refusals</span></div><div class=\"sec-body\"><div class=\"statline\"><span class=\"stat\"><b class=\"stat-v\">2</b><span class=\"stat-k\">inside spread</span></span><span class=\"stat\"><b class=\"stat-v\">2</b><span class=\"stat-k\">edge below threshold</span></span><span class=\"stat\"><b class=\"stat-v\">1</b><span class=\"stat-k\">no quote</span></span></div><div class=\"table-wrap\"><table class=\"data\"><thead><tr><th class=\"\">Market</th><th class=\"num\">Our probability</th><th class=\"num\">Book (bid / ask)</th><th class=\"\">Side and edge</th><th class=\"\">Stopped by</th><th class=\"wrap\">The numbers</th></tr></thead><tbody><tr><td class=\"\"><a href=\"/markets/nyc-temp\">nyc-temp</a><span class=\"sub\">YES</span></td><td class=\"num\">0.4500<span class=\"sub\">2026-07-25 01:52</span></td><td class=\"num\">0.4400 / 0.4600</td><td class=\"\">buy<span class=\"sub\">+0.0100</span></td><td class=\"\"><b>no quote</b></td><td class=\"wrap\">no book &amp; no midpoint</td></tr><tr><td class=\"\"><a href=\"/markets/btc-close\">btc-close</a><span class=\"sub\">NO</span></td><td class=\"num\">0.6000<span class=\"sub\">2026-07-24</span></td><td class=\"num\"><span class=\"muted\">—</span></td><td class=\"\"><span class=\"muted\">none</span></td><td class=\"\"><b>inside spread</b></td><td class=\"wrap\">0.58 &lt; p &lt; 0.62</td></tr><tr><td class=\"\"><a href=\"/markets/cpi\">cpi</a><span class=\"sub\">YES</span></td><td class=\"num\">0.3000<span class=\"sub\">2026-07-23 10:00</span></td><td class=\"num\">0.2500 / 0.2700<span class=\"sub\">assumed spread, not a real book</span></td><td class=\"\">buy<span class=\"sub\">+0.0300</span></td><td class=\"\"><b>edge below threshold</b></td><td class=\"wrap\">edge 0.03 &lt; 0.05</td></tr><tr><td class=\"\"><a href=\"/markets/approval\">approval</a><span class=\"sub\">NO</span></td><td class=\"num\">0.5100<span class=\"sub\">2026-07-22 09:30</span></td><td class=\"num\">0.5000 / 0.5200</td><td class=\"\"><span class=\"muted\">none</span></td><td class=\"\"><b>inside spread</b></td><td class=\"wrap\">0.50 &lt; p &lt; 0.52</td></tr><tr><td class=\"\"><a href=\"/markets/eth\">eth</a><span class=\"sub\">YES</span></td><td class=\"num\">0.2000<span class=\"sub\">2026-07-21 08:00</span></td><td class=\"num\">0.1000 / 0.1200</td><td class=\"\">sell<span class=\"sub\">-0.0800</span></td><td class=\"\"><b>edge below threshold</b></td><td class=\"wrap\">edge 0.02 &lt; 0.05</td></tr></tbody></table></div><ul class=\"notes\"><li>Gates are applied in the same order as the backtest engine (<span class=\"mono\">execution/engine/src/sim.rs</span>), so a candidate refused here would be refused there. The first rule to fire is the one reported.</li><li>This policy also declines to sell a barrier sitting within 0.2% of its running extreme. No signal set carries that distance yet, so the screen could not be applied to any row above — counted, not silently passed.</li><li>Rows marked <b>assumed spread</b> had no live order book. Their bid and ask were built by spreading the last logged midpoint apart, which is a guess about a price rather than an observation of one — treat any verdict on those rows as provisional.</li></ul></div><div class=\"sec-foot\"><span class=\"mono\">predictions/predictions.csv</span><a href=\"/backtest\">How these policies did in the backtest →</a></div></section>";
    assert_eq!(gate_report(&cands, true), expected);
}

#[test]
fn gate_report_with_no_candidates_or_no_refusals() {
    assert_eq!(gate_report(&[], false), "<section class=\"sec\"><div class=\"sec-head\"><h2 class=\"sec-title\">Why the rest were not traded</h2></div><div class=\"sec-body\"><div class=\"empty\"><strong>There were no candidates at all</strong><div>No selected strategy has an unresolved prediction on a selected market. Widen the selection above, or wait for the next run to log signals.</div></div></div></section>");
    let passed = vec![cand("cpi", "YES", "2026-07-23T10:00:00Z", "0.3000", true, "0.2500", "0.2700", false, "buy", "+0.0300", "", "")];
    assert_eq!(gate_report(&passed, false), "");
}

#[allow(clippy::too_many_arguments)]
fn action(
    kind: &str,
    slug: &str,
    condition_id: &str,
    outcome: &str,
    token_id: &str,
    side: &str,
    shares: &str,
    price: &str,
    fee: &str,
    cash_delta: &str,
    collateral: &str,
    note: &str,
) -> Action {
    Action {
        kind: kind.to_string(),
        slug: slug.to_string(),
        condition_id: condition_id.to_string(),
        outcome: outcome.to_string(),
        token_id: token_id.to_string(),
        side: side.to_string(),
        shares: shares.to_string(),
        price: price.to_string(),
        fee: fee.to_string(),
        cash_delta: cash_delta.to_string(),
        collateral: collateral.to_string(),
        note: note.to_string(),
    }
}

#[test]
fn apply_lists_the_ledger_rows_and_the_command() {
    let actions = vec![
        action("open", "nyc-temp", "0xabc", "YES", "111", "buy", "10.0000", "0.4500", "0.01234", "-0.01234", "4.5000", "edge 0.05, depth ok"),
        action("no change", "cpi", "0xdef", "NO", "222", "sell", "5.0000", "0.3000", "0.00000", "0.00000", "3.5000", ""),
        action("close", "eth", "0x123", "YES", "333", "sell", "3.0000", "0.9000", "0.00500", "2.69500", "-2.7000", "take-profit"),
    ];
    let expected = "<section class=\"sec\"><div class=\"sec-head\"><h2 class=\"sec-title\">Apply</h2><span class=\"sec-sub\">the exact rows this plan implies, for the CEO to append</span><span class=\"badge badge-warn\">nothing is written by this page</span></div><div class=\"sec-body\"><p class=\"finding\">Applying is something the CEO does in a commit, not something this page can do. The dashboard reads the repository over the network and has <b>no write path at all</b> — granting a web-facing service commit access to the firm's own state is Felix's decision, not a convenience. It is also the better shape: a plan that has to be applied by hand leaves a signed, auditable trail, and that trail is exactly what <span class=\"mono\">portfolio/ledger.csv</span> is for.</p><p class=\"finding\">Append these 2 rows to the ledger, then rebuild <span class=\"mono\">positions.csv</span> from it — the ledger is the authority and the positions file is only an index over it.</p><pre class=\"codeblock\">applied_at,action,market_slug,condition_id,outcome,token_id,side,shares,price,fee,cash_delta,collateral_delta,policy,plan_id,note\n2026-07-24T01:41:51Z,open,nyc-temp,0xabc,YES,111,buy,10.0000,0.4500,0.01234,-0.01234,4.5000,fade-v2,p-1234abcd,edge 0.05; depth ok\n2026-07-24T01:41:51Z,close,eth,0x123,YES,333,sell,3.0000,0.9000,0.00500,2.69500,-2.7000,fade-v2,p-1234abcd,take-profit\n</pre><p class=\"finding\">Or, from a checkout:</p><pre class=\"codeblock\">cat &gt;&gt; portfolio/ledger.csv &lt;&lt;&#39;EOF&#39;\n2026-07-24T01:41:51Z,open,nyc-temp,0xabc,YES,111,buy,10.0000,0.4500,0.01234,-0.01234,4.5000,fade-v2,p-1234abcd,edge 0.05; depth ok\n2026-07-24T01:41:51Z,close,eth,0x123,YES,333,sell,3.0000,0.9000,0.00500,2.69500,-2.7000,fade-v2,p-1234abcd,take-profit\nEOF\ngit commit portfolio/ledger.csv portfolio/positions.csv \\\n  -m &quot;paper book: apply plan p-1234abcd under fade-v2&quot;</pre><ul class=\"notes\"><li><b><span class=\"mono\">applied_at</span> is this page's clock.</b> Set it to the moment you actually commit; the rows are otherwise exact.</li><li><b><span class=\"mono\">cash_delta</span> on an entry is the fee alone.</b> Posting collateral does not spend cash, it commits it — cash minus the sum of open collateral is the free cash figure (portfolio/README.md).</li><li><b>Prices move.</b> These rows were priced against the book at the moment this page rendered; re-run the plan before committing if any time has passed. The plan id <span class=\"mono\">p-1234abcd</span> changes when they do.</li></ul></div><div class=\"sec-foot\"><span class=\"mono\">portfolio/ledger.csv</span><span>append-only, and the authority for every number on the Holdings tab</span></div></section>";
    assert_eq!(apply_section(&actions, &policy(true, 2), "p-1234abcd", 1_784_857_311_000), expected);
    assert_eq!(apply_section(&actions[1..2], &policy(true, 2), "p-1234abcd", 0), "<section class=\"sec\"><div class=\"sec-head\"><h2 class=\"sec-title\">Apply</h2></div><div class=\"sec-body\"><div class=\"empty\"><strong>Nothing to apply</strong><div>The plan proposes no changes, so there are no ledger rows to append. Nothing is written either way — this page only reads.</div></div></div></section>");
}

fn meta(family: &str, variant: &str, summary: &str) -> VariantMeta {
    VariantMeta {
        family: family.to_string(),
        variant: variant.to_string(),
        summary: summary.to_string(),
        explainer: String::new(),
        status: String::new(),
        created: String::new(),
        supersedes: String::new(),
        labels: vec![],
        slot: None,
        trial_started: String::new(),
        review_due: String::new(),
        success_guideline: String::new(),
        retired_on: String::new(),
        retire_reason: String::new(),
        parked_on: String::new(),
        park_reason: String::new(),
        reopen_when: String::new(),
    }
}

#[allow(clippy::too_many_arguments)]
fn diff_row(
    kind: &str,
    slug: &str,
    outcome: &str,
    family: &str,
    variant: &str,
    side: &str,
    shares: Option<&str>,
    price: &str,
    collateral: Option<&str>,
    fee: Option<&str>,
    why: &str,
    note: &str,
    at_book_end: bool,
) -> DiffRow {
    DiffRow {
        kind: kind.to_string(),
        slug: slug.to_string(),
        outcome: outcome.to_string(),
        family: family.to_string(),
        variant: variant.to_string(),
        side: side.to_string(),
        shares: shares.map(|x| x.to_string()),
        price: price.to_string(),
        collateral: collateral.map(|x| x.to_string()),
        fee: fee.map(|x| x.to_string()),
        why: why.to_string(),
        note: note.to_string(),
        at_book_end,
    }
}

#[test]
fn the_diff_shows_every_managed_position() {
    let rows = vec![
        diff_row("open", "nyc-temp", "YES", "weather", "nyc-temp-v2", "buy", Some("10.00"), "1.0000", Some("+$4.50"), Some("$0.01"), "edge 0.05 > 0.03", "walked", true),
        diff_row("no change", "cpi", "NO", "macro", "", "sell", Some("5.00"), "0.3000", None, None, "still wanted", "", false),
        diff_row("unmanaged", "eth", "YES", "crypto", "eth-v1", "buy", Some("1.00"), "0.5000", None, None, "outside selection", "", false),
        diff_row("close", "btc", "NO", "", "", "sell", None, "0.9000", Some("−$2.70"), None, "signal resolved", "", false),
    ];
    let metas = vec![meta("weather", "nyc-temp-v2", "Temperature <model>")];
    let expected = "<section class=\"sec\"><div class=\"sec-head\"><h2 class=\"sec-title\">The diff</h2><span class=\"sec-sub\">one row per position the plan touches, and why</span><span class=\"badge\">2 changes</span></div><div class=\"sec-body\"><div class=\"table-wrap\"><table class=\"data\"><thead><tr><th class=\"\"></th><th class=\"\">Action</th><th class=\"\">Market</th><th class=\"\">Strategy</th><th class=\"\">Side</th><th class=\"num\">Shares</th><th class=\"num\">Price</th><th class=\"num\">Collateral</th><th class=\"num\">Fee</th><th class=\"wrap\">Why</th></tr></thead><tbody><tr><td class=\"\"><span class=\"plan-sym s-ok\">+</span></td><td class=\"\"><b>open</b></td><td class=\"\"><a href=\"/markets/nyc-temp\">nyc-temp</a><span class=\"sub\">YES</span></td><td class=\"\"><a href=\"/strategies/weather\">weather</a><span class=\"muted\">/</span><a href=\"/strategies/weather/nyc-temp-v2\" title=\"Temperature &lt;model&gt;\">nyc-temp-v2</a></td><td class=\"\">buy</td><td class=\"num\">10.00</td><td class=\"num\">1.0000</td><td class=\"num\">+$4.50</td><td class=\"num\">$0.01</td><td class=\"wrap\">edge 0.05 &gt; 0.03<span class=\"sub\">walked</span></td></tr><tr><td class=\"\"><span class=\"plan-sym muted\">=</span></td><td class=\"\"><b>no change</b></td><td class=\"\"><a href=\"/markets/cpi\">cpi</a><span class=\"sub\">NO</span></td><td class=\"\"><a href=\"/strategies/macro\">macro</a></td><td class=\"\">sell</td><td class=\"num\">—</td><td class=\"num\">0.3000</td><td class=\"num\">—</td><td class=\"num\">—</td><td class=\"wrap\">still wanted</td></tr><tr><td class=\"\"><span class=\"plan-sym s-bad\">−</span></td><td class=\"\"><b>close</b></td><td class=\"\"><a href=\"/markets/btc\">btc</a><span class=\"sub\">NO</span></td><td class=\"\"><span class=\"muted\">—</span></td><td class=\"\">sell</td><td class=\"num\">—</td><td class=\"num\">0.9000</td><td class=\"num\">−$2.70</td><td class=\"num\">—</td><td class=\"wrap\">signal resolved</td></tr></tbody></table></div><ul class=\"notes\"><li>Rows priced at <b>0.0000</b> or <b>1.0000</b> have had the fill walked to the end of the book by slippage: this policy caps how much of the resting depth it will take at 100%, so the stake eats the whole book and the engine's linear penalty (<span class=\"mono\">apply_slippage</span>) moves the price the full width it has room for. It is the engine's arithmetic unchanged, and it is also a trade no counterparty would fill — read it as the policy failing a capacity test, not as a price.</li></ul></div><div class=\"sec-foot\"><span>1 open position not shown: outside this plan's market selection, so it leaves them alone</span></div></section>";
    assert_eq!(actions_table(&rows, &metas), expected);
    assert_eq!(actions_table(&rows[1..3], &metas), "<section class=\"sec\"><div class=\"sec-head\"><h2 class=\"sec-title\">The diff</h2><span class=\"sec-sub\">nothing to apply</span><span class=\"badge\">no changes</span></div><div class=\"sec-body\"><div class=\"empty\"><strong>This plan proposes no trades</strong><div>Every one of the 1 open positions is where this policy wants it, and no new candidate cleared the gates. The table below names the rule that stopped each one.</div></div></div></section>");
    assert_eq!(actions_table(&rows[2..3], &metas), "<section class=\"sec\"><div class=\"sec-head\"><h2 class=\"sec-title\">The diff</h2><span class=\"sec-sub\">nothing to apply</span><span class=\"badge\">no changes</span></div><div class=\"sec-body\"><div class=\"empty\"><strong>This plan proposes no trades</strong><div>The book is empty and this policy opens nothing against today's signals. That is a result, not a blank screen: the table below names the rule that stopped each candidate. It is also the backtest's headline finding — on our own live signals, seven of the eight policies take zero trades.</div></div></div></section>");
}
