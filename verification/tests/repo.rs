use orakel::repo::{
    asset_of, families, files_in, run_paths, safe_path, safe_segment, short_market, variants,
    wiki_pages,
};

fn paths(xs: &[&str]) -> Vec<String> {
    xs.iter().map(|s| s.to_string()).collect()
}

#[test]
fn variants_and_families_from_the_listing() {
    let p = paths(&[
        "strategies/weather/nyc-v2/strategy.toml",
        "strategies/weather/FAMILY.md",
        "strategies/_template/x/strategy.toml",
        "strategies/crypto/btc-v1/strategy.toml",
        "strategies/crypto/btc-v1/deep/strategy.toml",
        "strategies/_template/FAMILY.md",
        "strategies/crypto/FAMILY.md",
        "README.md",
    ]);
    assert_eq!(
        variants(&p),
        vec![
            ("crypto".to_string(), "btc-v1".to_string()),
            ("weather".to_string(), "nyc-v2".to_string()),
        ]
    );
    assert_eq!(families(&p), vec!["crypto".to_string(), "weather".to_string()]);
}

#[test]
fn files_directly_in_a_directory() {
    let p = paths(&["ideas/b.md", "ideas/a.md", "ideas/sub/c.md", "ideas/x.txt", "ideasz/d.md"]);
    assert_eq!(files_in(&p, "ideas//", ".md"), vec!["ideas/a.md", "ideas/b.md"]);
    assert_eq!(files_in(&p, "ideas", ""), vec!["ideas/a.md", "ideas/b.md", "ideas/x.txt"]);
    let w = paths(&["wiki/z.md", "wiki/index.md", "wiki/a/b.md", "wiki/c.txt"]);
    assert_eq!(wiki_pages(&w), vec!["wiki/a/b.md", "wiki/z.md"]);
}

#[test]
fn run_manifests_newest_first() {
    let p = paths(&[
        "ops/runs/2026-07-23.toml",
        "ops/runs/2026-07-24-2.toml",
        "ops/runs/2026-07-24.toml",
        "README.md",
        "ops/runs/2026-07-24-10.toml",
    ]);
    assert_eq!(
        run_paths(&p),
        vec![
            "ops/runs/2026-07-24-10.toml",
            "ops/runs/2026-07-24-2.toml",
            "ops/runs/2026-07-24.toml",
            "ops/runs/2026-07-23.toml",
        ]
    );
    // equal keys keep the reverse of their listing order
    let q = paths(&["ops/runs/2026-07-24-x.toml", "ops/runs/2026-07-24.toml"]);
    assert_eq!(run_paths(&q), vec!["ops/runs/2026-07-24.toml", "ops/runs/2026-07-24-x.toml"]);
}

#[test]
fn market_slug_labels() {
    assert_eq!(asset_of("will-wti-reach-130-in-july-2026"), "wti");
    assert_eq!(asset_of("btc-up"), "btc-up");
    assert_eq!(asset_of("will--x"), "will--x");
    assert_eq!(short_market("will-spy-dip-to-715-by-july-20-2026"), "spy 715");
    assert_eq!(short_market("abc-def"), "abc");
    assert_eq!(short_market("will-btc-1234567-x"), "btc");
}

#[test]
fn path_safety() {
    assert!(safe_segment("ok-name_1.2"));
    assert!(!safe_segment(""));
    assert!(!safe_segment("a/b"));
    assert!(!safe_segment("a..b"));
    assert!(!safe_segment("_template"));
    assert!(!safe_segment("é"));
    assert!(!safe_segment(&"a".repeat(129)));
    assert!(safe_segment(&"a".repeat(128)));
    assert!(safe_path("wiki/recipes/a.md"));
    assert!(!safe_path("/etc/passwd"));
    assert!(!safe_path("a/../b"));
    assert!(!safe_path(""));
    assert!(!safe_path(&"a".repeat(201)));
}
