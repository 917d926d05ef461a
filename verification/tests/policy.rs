use orakel::engine::FeeModel;
use orakel::policy::{Costs, FeeRate, Policy, RateSource};

fn rate(category: &str, text: &str, in_range: bool) -> FeeRate {
    FeeRate { category: category.to_string(), rate: text.to_string(), in_range }
}

fn free_costs() -> Costs {
    Costs {
        fee_model: FeeModel::Free,
        fee_bps_negative: false,
        fee_rate: Vec::new(),
        fee_rate_default: None,
        asset_category: Vec::new(),
    }
}

fn taker_costs() -> Costs {
    Costs {
        fee_model: FeeModel::PolymarketTaker,
        fee_bps_negative: false,
        fee_rate: vec![
            rate("crypto", "0.07", true),
            rate("finance", "0.04", true),
            rate("sports", "0.03", true),
        ],
        fee_rate_default: Some(("0.03".to_string(), true)),
        asset_category: vec![
            ("btc".to_string(), "crypto".to_string()),
            ("spy".to_string(), "finance".to_string()),
        ],
    }
}

fn mirror() -> Policy {
    Policy {
        name: "mirror".to_string(),
        combine_method: "best-improvement".to_string(),
        sides: vec!["buy".to_string(), "sell".to_string()],
        sizing_method: "flat".to_string(),
        has_stake_usd: true,
        has_kelly_fraction: false,
        exit_rule: "hold-to-resolution".to_string(),
        has_close_fraction: false,
        costs: free_costs(),
    }
}

#[test]
fn a_coherent_policy_validates() {
    assert_eq!(mirror().validate(), Ok(()));
    let mut p = mirror();
    p.sides = vec!["BUY".to_string()];
    p.combine_method = "single:weather/nyc-temp-v1".to_string();
    assert_eq!(p.validate(), Ok(()));
    assert_eq!(p.sides_normalized(), vec!["buy".to_string()]);
}

#[test]
fn incoherent_policies_are_refused_with_the_reason() {
    let mut p = mirror();
    p.sizing_method = "martingale".to_string();
    let e = p.validate().unwrap_err();
    assert!(e.contains("unknown sizing.method"), "{e}");
    assert_eq!(e, "unknown sizing.method 'martingale'");

    let mut p = mirror();
    p.has_stake_usd = false;
    assert!(p.validate().unwrap_err().contains("needs stake_usd"));

    let mut p = mirror();
    p.sizing_method = "fractional-kelly".to_string();
    assert_eq!(
        p.validate().unwrap_err(),
        "sizing.method = fractional-kelly needs kelly_fraction"
    );

    let mut p = mirror();
    p.exit_rule = "take-profit".to_string();
    assert_eq!(p.validate().unwrap_err(), "exit.rule = take-profit needs close_fraction");
    p.exit_rule = "stop-loss".to_string();
    assert_eq!(p.validate().unwrap_err(), "unknown exit.rule 'stop-loss'");

    let mut p = mirror();
    p.combine_method = "precision-weighted".to_string();
    let e = p.validate().unwrap_err();
    assert!(e.contains("unsupported combine.method"), "{e}");

    let mut p = mirror();
    p.sides = vec!["Hedge".to_string()];
    let e = p.validate().unwrap_err();
    assert!(e.contains("unknown entry side"), "{e}");
    assert_eq!(e, "unknown entry side 'hedge'");
}

#[test]
fn an_incomplete_fee_model_is_rejected() {
    let mut c = taker_costs();
    c.fee_rate.clear();
    c.asset_category.clear();
    assert!(c.validate_fees().unwrap_err().contains("[costs.fee_rate]"));

    let mut c = taker_costs();
    c.fee_rate_default = None;
    assert!(c.validate_fees().unwrap_err().contains("fee_rate_default"));

    let mut c = taker_costs();
    c.asset_category.push(("eth".to_string(), "defi".to_string()));
    let e = c.validate_fees().unwrap_err();
    assert!(e.contains("has no rate"), "{e}");
    assert_eq!(e, "costs.asset_category.eth = 'defi' has no rate in [costs.fee_rate]");

    let mut c = taker_costs();
    c.fee_rate[0] = rate("crypto", "7", false);
    let e = c.validate_fees().unwrap_err();
    assert!(e.contains("not a rate"), "{e}");
    assert_eq!(e, "costs.fee_rate.crypto = 7 is not a rate in [0,1]");

    let mut c = taker_costs();
    c.fee_rate_default = Some(("1.5".to_string(), false));
    assert_eq!(
        c.validate_fees().unwrap_err(),
        "costs.fee_rate_default = 1.5 is not a rate in [0,1]"
    );

    let mut c = free_costs();
    c.fee_bps_negative = true;
    assert_eq!(c.validate_fees().unwrap_err(), "costs.fee_bps must not be negative");

    assert_eq!(taker_costs().validate_fees(), Ok(()));
    // a fee-free model needs no table at all
    assert_eq!(free_costs().validate_fees(), Ok(()));
}

#[test]
fn the_rate_comes_from_the_assets_category() {
    let c = taker_costs();
    assert_eq!(c.fee_rate_for("btc"), RateSource::Category(0));
    assert_eq!(c.fee_rate_for("  SPY "), RateSource::Category(1));
    assert_eq!(c.fee_rate_for("dogecoin"), RateSource::Fallback);
}

#[test]
fn a_mapped_category_without_a_rate_falls_back() {
    let mut c = taker_costs();
    c.asset_category.push(("eth".to_string(), "defi".to_string()));
    assert_eq!(c.fee_rate_for("eth"), RateSource::Fallback);
}

#[test]
fn a_fee_free_policy_charges_nothing() {
    assert_eq!(free_costs().fee_rate_for("btc"), RateSource::Free);
}
