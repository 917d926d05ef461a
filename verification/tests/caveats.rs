use orakel::caveats::cannot_tell;

fn pair(p: &str, n: &str) -> (String, String) {
    (p.to_string(), n.to_string())
}

#[test]
fn caveats_that_differ_only_in_numbers_share_a_bullet() {
    let notes = vec![
        pair("mirror", "repeated signals share 1 outcome"),
        pair("mirror", "1161 of the trades taken carried no depth data"),
        pair("gate", "repeated signals share 1 outcome"),
        pair("gate", "793 of the trades taken carried no depth data"),
    ];
    let s = cannot_tell(&notes, 2, "####");
    assert_eq!(
        s,
        "#### What this sample cannot tell us\n\n\
         - **all policies** — repeated signals share 1 outcome\n\
         - **mirror** — 1161 of the trades taken carried no depth data\n\
         \x20 - same for: gate 793\n\n"
    );
}

#[test]
fn a_caveat_some_policies_share_names_them() {
    let notes = vec![
        pair("mirror", "no trades: this policy did not fire."),
        pair("kelly", "no trades: this policy did not fire."),
    ];
    let s = cannot_tell(&notes, 3, "###");
    assert_eq!(
        s,
        "### What this sample cannot tell us\n\n- **mirror, kelly** — no trades: this policy did not fire.\n\n"
    );
}

#[test]
fn differing_caveats_without_numbers_list_the_policy_alone() {
    let notes = vec![pair("a", "peak was 120% of bankroll"), pair("b", "peak was 95% of bankroll")];
    let s = cannot_tell(&notes, 2, "#");
    assert_eq!(
        s,
        "# What this sample cannot tell us\n\n- **a** — peak was 120% of bankroll\n  - same for: b 95%\n\n"
    );
    assert_eq!(cannot_tell(&Vec::new(), 0, "#"), "# What this sample cannot tell us\n\n\n");
}
