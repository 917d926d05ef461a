use orakel::render::{
    badge, cell_text, chip, chip_row, count, crumb, doc, empty_state, esc, fmt_int, fmt_ts, icon,
    item, items, markdown, markdown_body, md_title, note, notes, row, rows, section, section_foot,
    split_frontmatter, stat, stat_grid, stat_line, status_badge, status_tone, table, table_scroll,
    table_sortable, tabbar,
};

#[test]
fn escaping() {
    assert_eq!(esc("a&b<c>\"d'"), "a&amp;b&lt;c&gt;&quot;d&#39;");
    assert_eq!(esc("plain é"), "plain é");
}

#[test]
fn small_components() {
    assert_eq!(badge("ok", "ok"), "<span class=\"badge badge-ok\">ok</span>");
    assert_eq!(badge("x<", "zzz"), "<span class=\"badge\">x&lt;</span>");
    assert_eq!(chip("a"), "<span class=\"chip\">a</span>");
    assert_eq!(
        chip_row(&["a".to_string(), "b".to_string()]),
        "<div class=\"chip-row\"><span class=\"chip\">a</span><span class=\"chip\">b</span></div>"
    );
    assert_eq!(status_tone("answered"), "ok");
    assert_eq!(status_tone("trial"), "warn");
    assert_eq!(status_tone("killed-2026"), "bad");
    assert_eq!(status_tone("parked"), "");
    assert_eq!(status_tone("something"), "");
    assert_eq!(status_badge("open"), "<span class=\"badge badge-warn\">open</span>");
    assert_eq!(empty_state("None", "<b>x</b>"), "<div class=\"empty\"><strong>None</strong><b>x</b></div>");
    assert_eq!(note("n"), "<p class=\"note\">n</p>");
    assert_eq!(notes(&["a".to_string()]), "<ul class=\"notes\"><li>a</li></ul>");
    assert_eq!(row("k<", "<i>v</i>"), "<div class=\"row\"><span class=\"k\">k&lt;</span><span class=\"v\"><i>v</i></span></div>");
    assert_eq!(rows("x"), "<div class=\"rows\">x</div>");
    assert_eq!(
        item("", "T", "S", "R"),
        "<div class=\"item\"><div class=\"item-main\"><div class=\"item-title\">T</div><div class=\"item-sub\">S</div></div>R</div>"
    );
    assert!(item("/a?b&c", "T", "S", "").starts_with("<a class=\"item\" href=\"/a?b&amp;c\">"));
    assert_eq!(items("x"), "<div class=\"items\">x</div>");
    assert_eq!(
        doc("S", "M", "B", true),
        "<details class=\"doc\" open><summary><span class=\"doc-title\">S</span><span class=\"doc-meta\">M</span></summary><div class=\"doc-body\">B</div></details>"
    );
}

#[test]
fn sections() {
    assert_eq!(section("", "", "", "b"), "<section class=\"sec\"><div class=\"sec-body\">b</div></section>");
    assert_eq!(
        section("T", "s", "C", "b"),
        "<section class=\"sec\"><div class=\"sec-head\"><h2 class=\"sec-title\">T</h2><span class=\"sec-sub\">s</span>C</div><div class=\"sec-body\">b</div></section>"
    );
    assert_eq!(
        section_foot("T", "", "", "b", "f"),
        "<section class=\"sec\"><div class=\"sec-head\"><h2 class=\"sec-title\">T</h2></div><div class=\"sec-body\">b</div><div class=\"sec-foot\">f</div></section>"
    );
}

#[test]
fn numbers_and_counts() {
    assert_eq!(fmt_int(0), "0");
    assert_eq!(fmt_int(108), "108");
    assert_eq!(fmt_int(2_050_000), "2,050,000");
    assert_eq!(fmt_int(-1234), "−1,234");
    assert_eq!(count(1, "strategy"), "1 strategy");
    assert_eq!(count(3, "strategy"), "3 strategies");
    assert_eq!(count(2, "day"), "2 days");
    assert_eq!(count(0, "variant"), "0 variants");
    assert_eq!(count(2, "y"), "2 ies");
}

#[test]
fn stats() {
    let s = stat("12", "runs").tone("ok").context("since <July>").href("/runs");
    assert_eq!(
        stat_grid(&[s, stat("3", "x")]),
        "<div class=\"statgrid\"><div class=\"stat\"><a class=\"stat-v s-ok\" href=\"/runs\">12</a><span class=\"stat-k\">runs</span><span class=\"stat-c\">since &lt;July&gt;</span></div><div class=\"stat\"><b class=\"stat-v\">3</b><span class=\"stat-k\">x</span></div></div>"
    );
    assert_eq!(
        stat_line(&[("1".to_string(), "a".to_string(), "bad")]),
        "<div class=\"statline\"><span class=\"stat\"><b class=\"stat-v s-bad\">1</b><span class=\"stat-k\">a</span></span></div>"
    );
    let c = crumb("Firm", "/state");
    assert_eq!(c.label, "Firm");
    assert_eq!(c.href, "/state");
}

#[test]
fn tables() {
    let head = [("Name", ""), ("N", "num")];
    let body = vec![vec!["a".to_string(), "1".to_string(), "extra".to_string()]];
    let t = table(&head, &body);
    assert_eq!(
        t,
        "<div class=\"table-wrap\"><table class=\"data\"><thead><tr><th class=\"\">Name</th><th class=\"num\">N</th></tr></thead><tbody><tr><td class=\"\">a</td><td class=\"num\">1</td><td class=\"\">extra</td></tr></tbody></table></div>"
    );
    assert!(table_sortable(&head, &body).ends_with("</table></div><script src=\"/table.js\"></script>"));
    assert!(table_sortable(&head, &body).starts_with("<div class=\"table-wrap\"><table class=\"data sortable\">"));
    assert!(table_scroll(&head, &body).starts_with("<div class=\"table-wrap table-scroll\"><table class=\"data\">"));
    assert_eq!(cell_text("short<"), "short&lt;");
    assert_eq!(
        cell_text("0123456789abcdefghijABCDEFGHIJ"),
        "<span class=\"mono\" title=\"0123456789abcdefghijABCDEFGHIJ\">01234567…GHIJ</span>"
    );
}

#[test]
fn timestamps_and_icons() {
    assert_eq!(fmt_ts("2026-07-25T01:52:10Z"), "2026-07-25 01:52");
    assert_eq!(fmt_ts("2026-07-25"), "2026-07-25");
    assert!(icon("alert").starts_with("<svg width=\"14\" height=\"14\" viewBox=\"0 0 24 24\""));
    assert!(icon("no-such-icon").contains("<circle cx=\"12\" cy=\"12\" r=\"9\"/>"));
}

#[test]
fn markdown_documents() {
    assert_eq!(md_title("\n\n# Title here \nbody"), Some("Title here".to_string()));
    assert_eq!(md_title("body\n# Late"), None);
    assert_eq!(markdown_body("# T\n\nPara"), markdown("Para"));
    assert_eq!(markdown_body("Para"), markdown("Para"));
    assert_eq!(markdown("*x*"), "<p><em>x</em></p>\n");
    let (fields, body) = split_frontmatter("---\nstatus: trialing # note\nsummary: >-\n  one\n  two\n---\n\nBody");
    assert_eq!(
        fields,
        vec![
            ("status".to_string(), "trialing".to_string()),
            ("summary".to_string(), "one two".to_string()),
        ]
    );
    assert_eq!(body, "Body");
    let (none, all) = split_frontmatter("no frontmatter");
    assert!(none.is_empty());
    assert_eq!(all, "no frontmatter");
}

#[test]
fn render_tabbar() {
    let tabs = [("", "Overview", String::new()), ("logs", "Logs & notes", "2".to_string())];
    assert_eq!(
        tabbar("/x", &tabs, ""),
        "<nav class=\"subbar\" aria-label=\"Sections of this page\"><div class=\"subbar-in\"><a href=\"/x\" aria-current=\"page\">Overview</a><a href=\"/x?tab=logs\">Logs &amp; notes<span class=\"tab-n\">2</span></a></div></nav>"
    );
}

fn unescape(s: &str) -> String {
    s.replace("&lt;", "<")
        .replace("&gt;", ">")
        .replace("&quot;", "\"")
        .replace("&#39;", "'")
        .replace("&amp;", "&")
}

#[test]
fn escaping_reads_back_and_leaves_plain_text_alone() {
    for s in ["<a href=\"x\">Tom & 'Jerry'</a>", "&amp; already", "plain text, no markup"] {
        assert_eq!(unescape(&esc(s)), s);
    }
    assert_eq!(esc("plain text, no markup"), "plain text, no markup");
}

#[test]
fn formatted_numbers_read_back() {
    for v in [0i64, 108, 2_050_000, -1234, i64::MAX, i64::MIN + 1] {
        let r = fmt_int(v).replace(',', "").replace('\u{2212}', "-");
        assert_eq!(r.parse::<i64>().unwrap(), v);
    }
    assert_eq!(fmt_int(2050000), "2,050,000");
    assert_eq!(fmt_int(-1234), "\u{2212}1,234");
}

#[test]
fn a_footed_section_is_the_section_with_its_foot() {
    let plain = section("T", "", "", "<p>b</p>");
    let footed = section_foot("T", "", "", "<p>b</p>", "f");
    assert_eq!(footed, format!("{}<div class=\"sec-foot\">f</div></section>", &plain[..plain.len() - 10]));
    assert!(!section("", "", "", "x").contains("sec-head"));
}
