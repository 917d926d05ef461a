use orakel::table::{split_csv, Table};

fn chars(s: &str) -> Vec<char> {
    s.chars().collect()
}

#[test]
fn csv_line_quoting() {
    assert_eq!(split_csv(&chars("a, b ,c")), vec!["a", "b", "c"]);
    assert_eq!(split_csv(&chars("x,\"fee, per fill\",y")), vec!["x", "fee, per fill", "y"]);
    assert_eq!(split_csv(&chars("\"he said \"\"hi\"\"\",2")), vec!["he said \"hi\"", "2"]);
    assert_eq!(split_csv(&chars("\"open,to the end")), vec!["open,to the end"]);
    assert_eq!(split_csv(&chars("")), vec![""]);
    assert_eq!(split_csv(&chars("a,")), vec!["a", ""]);
    assert_eq!(split_csv(&chars("ab\"c\",d")), vec!["ab\"c\"", "d"]);
}

#[test]
fn tables_address_columns_by_name() {
    let t = Table::parse("market_slug,p\n\nwill-x,0.5\r\n  \nwill-y,\"0,7\"\n");
    assert_eq!(t.head, vec!["market_slug", "p"]);
    assert_eq!(t.rows.len(), 2);
    assert_eq!(t.col("p"), Some(1));
    assert_eq!(t.col("missing"), None);
    assert_eq!(t.cell(&t.rows[1], "p"), "0,7");
    assert_eq!(t.cell(&t.rows[0], "market_slug"), "will-x");
    assert_eq!(t.cell(&t.rows[0], "missing"), "");
    let short = vec!["only".to_string()];
    assert_eq!(t.cell(&short, "p"), "");
}

#[test]
fn an_empty_file_has_no_header() {
    let t = Table::parse("\n \n");
    assert!(t.head.is_empty());
    assert!(t.rows.is_empty());
}
