use orakel::engine::{
    dominant_rejection, select_policies, Terminal,
    csv_escape, default_combine, default_true, first_number, fmt_date, fmt_ts, mask_digits,
    order_of, parse_ts, policy_name, span, span_i, Combine, Counts, FeeModel, Side,
};

#[test]
fn timestamp_round_trip() {
    assert_eq!(parse_ts("2026-07-24T01:41:51Z").unwrap(), 1784857311);
    assert_eq!(fmt_ts(1784857311), "2026-07-24T01:41:51Z");
    // bare date -> 12:00 UTC (scoring's convention)
    assert_eq!(
        parse_ts("2026-07-24").unwrap(),
        parse_ts("2026-07-24T12:00:00Z").unwrap()
    );
    assert!(parse_ts("nonsense").is_err());
    assert!(parse_ts("").is_err());
}

#[test]
fn parse_ts_trims_and_explains_errors() {
    assert_eq!(parse_ts("  2026-07-24T01:41:51Z \n").unwrap(), 1784857311);
    assert_eq!(parse_ts("   ").unwrap_err(), "empty timestamp");
    let e = parse_ts("2026-13-01").unwrap_err();
    assert!(e.starts_with("bad timestamp '2026-13-01': "), "{e}");
    assert_eq!(parse_ts("1970-01-01").unwrap(), 43_200);
    assert_eq!(parse_ts("1969-12-31").unwrap(), -43_200);
}

#[test]
fn utc_formats() {
    assert_eq!(fmt_ts(0), "1970-01-01T00:00:00Z");
    assert_eq!(fmt_date(0), "1970-01-01");
    assert_eq!(fmt_date(1784857311), "2026-07-24");
    assert_eq!(fmt_ts(i64::MAX), "");
    assert_eq!(fmt_date(i64::MIN), "");
}

#[test]
fn spans_take_the_extremes() {
    assert_eq!(span_i(&[5, 3, 9], &[1, 7]), (3, 7));
    assert_eq!(span_i(&[], &[]), (0, 0));
    assert_eq!(
        span(&[86_400, 0], &[86_400]),
        ("1970-01-01".to_string(), "1970-01-02".to_string())
    );
    assert_eq!(span(&[0], &[]), (String::new(), String::new()));
}

#[test]
fn policy_names_and_order() {
    assert_eq!(policy_name("anchor-v1"), "anchor");
    assert_eq!(policy_name("fade-v12"), "fade");
    assert_eq!(policy_name("anchor"), "anchor");
    assert_eq!(policy_name("my-very-v2x"), "my-very-v2x");
    assert_eq!(policy_name("a-v"), "a");
    assert_eq!(order_of("mirror"), 0);
    assert_eq!(order_of("kelly"), 2);
    assert_eq!(order_of("harvest"), 7);
    assert_eq!(order_of("martingale"), 8);
}

#[test]
fn report_text_helpers() {
    assert_eq!(mask_digits("fee 1,000.5 and 7%"), "fee # and #%");
    assert_eq!(mask_digits("no numbers"), "no numbers");
    assert_eq!(first_number("edge 12.5% now"), Some("12.5%".to_string()));
    assert_eq!(first_number("x 42 y 7"), Some("42".to_string()));
    assert_eq!(first_number("7."), Some("7.".to_string()));
    assert_eq!(first_number("abc"), None);
    assert_eq!(csv_escape("plain"), "plain");
    assert_eq!(csv_escape("a,b"), "\"a,b\"");
    assert_eq!(csv_escape("say \"hi\""), "\"say \"\"hi\"\"\"");
    assert_eq!(csv_escape("two\nlines"), "\"two\nlines\"");
}

#[test]
fn plain_data_defaults() {
    assert_eq!(Side::Buy.as_str(), "buy");
    assert_eq!(Side::Sell.as_str(), "sell");
    let c = Counts::default();
    assert_eq!(c.signals, 0);
    assert_eq!(c.traded + c.no_quote + c.book_synthetic, 0);
    assert!(FeeModel::default() == FeeModel::Free);
    assert_eq!(Combine::default().method, "best-improvement");
    assert_eq!(default_combine(), "best-improvement");
    assert!(default_true());
}

#[test]
fn every_landed_signal_is_in_exactly_one_terminal_bucket() {
    let mut c = Counts::default();
    c.signals = 4;
    c.land(Terminal::Traded);
    c.land(Terminal::NoQuote);
    c.land(Terminal::Traded);
    c.land(Terminal::Unfundable);
    assert_eq!(c.traded, 2);
    assert_eq!(c.no_quote, 1);
    assert_eq!(c.unfundable, 1);
    assert_eq!(c.count_of(Terminal::Traded), 2);
    assert_eq!(c.count_of(Terminal::StakeTooSmall), 0);
    let terminal = c.traded
        + c.no_quote
        + c.entry_after_resolution
        + c.delay_unavailable
        + c.no_executable_edge
        + c.side_excluded
        + c.below_min_edge
        + c.below_edge_percentile
        + c.spread_too_wide
        + c.depth_too_thin
        + c.unfundable
        + c.market_cap_full
        + c.stake_too_small;
    assert_eq!(terminal, c.signals);
    assert_eq!(c.book_synthetic + c.depth_unknown + c.fee_rate_unmapped, 0);
}

#[test]
fn dominant_rejection_names_the_biggest_bucket_and_the_last_of_equals() {
    let mut c = Counts::default();
    assert_eq!(dominant_rejection(&c), ("stake below the minimum ticket", 0));
    c.below_min_edge = 5;
    assert_eq!(dominant_rejection(&c), ("min_edge", 5));
    c.unfundable = 5;
    assert_eq!(dominant_rejection(&c), ("unfundable depth", 5));
    c.no_executable_edge = 9;
    assert_eq!(dominant_rejection(&c), ("no executable edge (our p sits inside the spread)", 9));
    // traded signals are not a rejection
    c.traded = 100;
    assert_eq!(dominant_rejection(&c).1, 9);
}

fn stems(xs: &[&str]) -> Vec<String> {
    xs.iter().map(|s| s.to_string()).collect()
}

#[test]
fn all_policies_in_reading_order_then_by_name() {
    let files = stems(&["anchor-v1", "anchor-v2", "custom-v1", "fade-v2", "gate-v1", "mirror-v2", "zeta"]);
    assert_eq!(select_policies(&files, "all"), Some(vec![5, 4, 0, 1, 3, 2, 6]));
}

#[test]
fn one_policy_keeps_every_version_in_listing_order() {
    let files = stems(&["anchor-v1", "anchor-v2", "gate-v1", "mirror-v2"]);
    assert_eq!(select_policies(&files, "anchor"), Some(vec![0, 1]));
    assert_eq!(select_policies(&files, "mirror"), Some(vec![3]));
    assert_eq!(select_policies(&files, "nope"), None);
    assert_eq!(select_policies(&[], "all"), Some(vec![]));
}

#[test]
fn utc_texts_at_the_edges_of_four_digit_years() {
    assert_eq!(fmt_ts(-1), "1969-12-31T23:59:59Z");
    assert_eq!(fmt_ts(253402300799), "9999-12-31T23:59:59Z");
    assert_eq!(fmt_ts(-62167219200), "0000-01-01T00:00:00Z");
    assert_eq!(fmt_date(-62167219200), "0000-01-01");
    assert_eq!(fmt_date(1784203200), "2026-07-16");
    assert_eq!(fmt_ts(253402300800), "+10000-01-01T00:00:00Z");
}
