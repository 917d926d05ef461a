use orakel::engine::parse_ts;
use orakel::signal::{
    column_index, header_error, read_signal_row, signal_header, synthetic_flag, Signal,
};

fn strings(xs: &[&str]) -> Vec<String> {
    xs.iter().map(|s| s.to_string()).collect()
}

fn sample() -> Signal {
    Signal {
        signal_set: "s".to_string(),
        t: 0,
        market_slug: "mkt-a".to_string(),
        condition_id: "0xa".to_string(),
        outcome: "Yes".to_string(),
        token_id: "tok1".to_string(),
        family: "barrier-touch".to_string(),
        variant: "ladder-rv".to_string(),
        model: "opus".to_string(),
        resolved_outcome: "No".to_string(),
        resolved_at: 0,
        synthetic_book: false,
        asset: "wti".to_string(),
    }
}

const ROW_A: [&str; 18] = [
    "s",
    "2026-07-24T01:41:51Z",
    "mkt-a",
    "0xa",
    "Yes",
    "tok1",
    "barrier-touch",
    "ladder-rv",
    "opus",
    "0.02",
    "0.10",
    "0.09",
    "0.11",
    "500",
    "400",
    "No",
    "2026-07-26",
    "0",
];

#[test]
fn the_header_lists_the_eighteen_required_columns() {
    let h = signal_header();
    assert_eq!(h.len(), 18);
    assert_eq!(h[0], "signal_set");
    assert_eq!(h[9], "p_model");
    assert_eq!(h[17], "synthetic_book");
}

#[test]
fn columns_are_found_by_their_trimmed_name() {
    let headers = strings(&["signal_set", " t ", "t", "asset"]);
    assert_eq!(column_index(&headers, "t"), Some(1));
    assert_eq!(column_index(&headers, "asset"), Some(3));
    assert_eq!(column_index(&headers, "bid"), None);
}

#[test]
fn missing_columns_are_all_named_in_order() {
    let err = header_error(&strings(&["signal_set", "t"])).unwrap();
    assert!(err.contains("missing column"), "{err}");
    assert_eq!(
        err,
        "missing column(s): market_slug, condition_id, outcome, token_id, family, variant, model, \
         p_model, p_market, bid, ask, depth_bid_usd, depth_ask_usd, resolved_outcome, \
         resolved_date, synthetic_book"
    );
    let full = signal_header();
    assert_eq!(header_error(&full), None);
    let mut one_short = full.clone();
    one_short.retain(|h| h != "ask");
    assert_eq!(header_error(&one_short).unwrap(), "missing column(s): ask");
}

#[test]
fn token_won_ignores_ascii_case() {
    let mut s = sample();
    assert!(!s.token_won()); // Yes token, market resolved No
    s.resolved_outcome = "YES".to_string();
    assert!(s.token_won());
}

#[test]
fn asset_key_falls_back_to_the_market() {
    let mut s = sample();
    assert_eq!(s.asset_key(), "wti");
    s.asset = String::new();
    assert_eq!(s.asset_key(), "mkt-a");
}

#[test]
fn variant_key_joins_family_and_variant() {
    assert_eq!(sample().variant_key(), "barrier-touch/ladder-rv");
}

#[test]
fn synthetic_flag_reads_the_usual_yeses() {
    for yes in ["1", "true", "TRUE", "Yes", "y", "Y"] {
        assert!(synthetic_flag(yes), "{yes}");
    }
    for no in ["0", "no", "", "false", "yes please"] {
        assert!(!synthetic_flag(no), "{no}");
    }
}

#[test]
fn a_good_row_becomes_a_signal() {
    let s = read_signal_row(&strings(&ROW_A), "wti".to_string(), true, 2).unwrap();
    assert_eq!(s.market_slug, "mkt-a");
    assert_eq!(s.t, parse_ts("2026-07-24T01:41:51Z").unwrap());
    // bare resolved_date -> 12:00 UTC
    assert_eq!(s.resolved_at, parse_ts("2026-07-26T12:00:00Z").unwrap());
    assert!(!s.synthetic_book);
    assert!(!s.token_won());
    assert_eq!(s.asset_key(), "wti");
}

#[test]
fn bad_rows_warn_and_say_they_were_skipped() {
    let mut row = ROW_A;
    row[1] = "not-a-time";
    let w = read_signal_row(&strings(&row), String::new(), true, 4).unwrap_err();
    assert!(w.starts_with("line 4: bad timestamp 'not-a-time': "), "{w}");
    assert!(w.ends_with(" — row skipped"), "{w}");

    let mut row = ROW_A;
    row[16] = "";
    let w = read_signal_row(&strings(&row), String::new(), true, 5).unwrap_err();
    assert_eq!(w, "line 5: resolved_date: empty timestamp — row skipped");

    let w = read_signal_row(&strings(&ROW_A), String::new(), false, 6).unwrap_err();
    assert_eq!(w, "line 6: p_model/p_market not probabilities — row skipped");

    let mut row = ROW_A;
    row[15] = "";
    let w = read_signal_row(&strings(&row), String::new(), true, 7).unwrap_err();
    assert_eq!(w, "line 7: no resolved_outcome — row skipped");
}

#[test]
fn market_key_prefers_the_condition_id() {
    let mut s = sample();
    assert_eq!(s.market_key(), "0xa");
    s.condition_id = String::new();
    assert_eq!(s.market_key(), "mkt-a");
}

const CSV_HEAD: &str = "signal_set,t,market_slug,condition_id,outcome,token_id,family,variant,model,p_model,p_market,bid,ask,depth_bid_usd,depth_ask_usd,resolved_outcome,resolved_date,synthetic_book,asset\n";

#[test]
fn every_record_of_a_signal_set_is_a_signal_or_a_warning() {
    let content = format!(
        "{CSV_HEAD}# a comment\n\
s1, 2026-07-01T00:00:00Z ,mkt,0xc,Yes,tok,fam,var,mod,0.6,0.5,,,,,Yes,2026-07-02,true, BTC \n\
s1,not-a-time,mkt,0xc,Yes,tok,fam,var,mod,0.6,0.5,,,,,Yes,2026-07-02,,\n\
s2,2026-07-01T00:00:00Z,mkt2,0xd,No,tok2,fam,var,mod,0.6,0.5,,,,,No,2026-07-02,,\n"
    );
    let (headers, records) = orakel::signal::signal_csv(&content).unwrap();
    assert_eq!(headers.len(), 19);
    assert_eq!(records.len(), 3);
    let (idx, sigs, warns) = orakel::signal::signal_rows(&headers, &records, &[true, true, false]);
    assert_eq!(idx, vec![0]);
    assert_eq!(idx.len() + warns.len(), records.len());
    let s = &sigs[0];
    assert_eq!(s.signal_set, "s1");
    assert_eq!(s.t, parse_ts("2026-07-01T00:00:00Z").unwrap());
    assert_eq!(s.market_slug, "mkt");
    assert_eq!(s.resolved_at, parse_ts("2026-07-02").unwrap());
    assert!(s.synthetic_book);
    assert_eq!(s.asset, "BTC");
    assert_eq!(warns.len(), 2);
    assert!(warns[0].starts_with("line ") && warns[0].ends_with(" \u{2014} row skipped"), "{}", warns[0]);
    assert!(warns[1].contains("p_model/p_market not probabilities"), "{}", warns[1]);
    let bad = vec![Err::<(u64, Vec<String>), String>("broken".to_string())];
    let (i2, s2, w2) = orakel::signal::signal_rows(&headers, &bad, &[true]);
    assert!(i2.is_empty() && s2.is_empty());
    assert_eq!(w2, vec!["unreadable row: broken".to_string()]);
}

#[test]
fn a_signal_set_needs_its_columns() {
    let (h, r) = orakel::signal::signal_csv("  \n").unwrap();
    assert!(h.is_empty() && r.is_empty());
    let err = orakel::signal::signal_csv("signal_set,t\ns,1\n").unwrap_err();
    assert!(err.starts_with("missing column(s): market_slug"), "{err}");
}
