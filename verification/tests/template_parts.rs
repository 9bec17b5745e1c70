use xforme::data::FieldMap;
use xforme::xlsx_template::coords::{column_index, column_letter, coord, parse_cell_ref, parse_range};
use xforme::xlsx_template::{
    is_detail_label, is_singleton_label, parse_param, parse_tag, resolve_param, Param,
};

#[test]
fn column_letters_round_trip() {
    for (n, s) in [
        (1, "A"),
        (2, "B"),
        (26, "Z"),
        (27, "AA"),
        (28, "AB"),
        (53, "BA"),
    ] {
        assert_eq!(column_letter(n), s);
        assert_eq!(column_index(s), n);
    }
}

#[test]
fn column_letters_edges() {
    assert_eq!(column_letter(0), "");
    assert_eq!(column_letter(702), "ZZ");
    assert_eq!(column_letter(703), "AAA");
    assert_eq!(column_letter(16384), "XFD");
    assert_eq!(column_index("xfd"), 16384);
    assert_eq!(column_index(""), 0);
    assert_eq!(column_letter(u32::MAX), "MWLQKWU");
    assert_eq!(column_index("MWLQKWU"), u32::MAX);
    // Letters are read byte by byte: `é` is the two bytes C3 A9.
    assert_eq!(column_index("é"), 131 * 26 + 105);
    assert_eq!(column_index("[`"), 27 * 26 + 32);
}

#[test]
fn coordinates() {
    assert_eq!(coord(1, 1), "A1");
    assert_eq!(coord(28, 104), "AB104");
    assert_eq!(parse_cell_ref("$C$12"), (3, 12));
    assert_eq!(parse_cell_ref("D"), (4, 1));
    assert_eq!(parse_cell_ref("D1x"), (4, 1));
    assert_eq!(parse_cell_ref("é2"), (3511, 2));
}

#[test]
fn parses_ranges() {
    assert_eq!(parse_range("B1:E1"), (2, 1, 5, 1));
    assert_eq!(parse_range("E10"), (5, 10, 5, 10));
    assert_eq!(parse_range("$A$3:$C$3"), (1, 3, 3, 3));
}

#[test]
fn parses_column_a_tag_and_schema() {
    let (label, schema) = parse_tag("header(date, receipt, customer)");
    assert_eq!(label, "header");
    assert_eq!(
        schema,
        Some(vec!["date".into(), "receipt".into(), "customer".into()])
    );

    assert_eq!(parse_tag("row1"), ("row1".to_string(), None));
    assert_eq!(parse_tag("  footer  "), ("footer".to_string(), None));
}

#[test]
fn tag_schema_edges() {
    assert_eq!(parse_tag("row1()"), ("row1".to_string(), Some(vec![])));
    assert_eq!(
        parse_tag(" item ( a ,, b ) "),
        ("item".to_string(), Some(vec!["a".to_string(), "b".to_string()]))
    );
    assert_eq!(parse_tag("odd(x"), ("odd(x".to_string(), None));
    assert_eq!(parse_tag(""), (String::new(), None));
}

#[test]
fn parses_param_markers() {
    assert!(matches!(parse_param("#price"), Some(Param::Named(n)) if n == "price"));
    assert!(matches!(
        parse_param("see #2 here"),
        Some(Param::Indexed(2))
    ));
    assert!(parse_param("no marker").is_none());
    assert!(parse_param("#").is_none());
}

#[test]
fn param_marker_edges() {
    assert!(parse_param("#0").is_none());
    assert!(matches!(parse_param("#unit_price!"), Some(Param::Named(n)) if n == "unit_price"));
    assert!(matches!(parse_param("#2b"), Some(Param::Named(n)) if n == "2b"));
    assert!(matches!(parse_param("a # b #c"), None));
    assert!(matches!(
        parse_param("#99999999999999999999999"),
        Some(Param::Named(n)) if n == "99999999999999999999999"
    ));
    assert!(matches!(parse_param("x#007y"), Some(Param::Named(n)) if n == "007y"));
    assert!(matches!(parse_param("#007"), Some(Param::Indexed(7))));
}

#[test]
fn resolves_named_and_indexed_params() {
    let schema = vec!["date".to_string(), "receipt".to_string()];
    let fields = vec!["1/5/2009".to_string(), "22215".to_string()];
    let empty = FieldMap::new();

    // Positional: by schema name and by index.
    assert_eq!(
        resolve_param(
            &Param::Named("receipt".into()),
            Some(&schema),
            &fields,
            &empty
        ),
        "22215"
    );
    assert_eq!(
        resolve_param(&Param::Indexed(1), Some(&schema), &fields, &empty),
        "1/5/2009"
    );

    // Named data takes precedence and needs no schema/positional fields.
    let mut named = FieldMap::new();
    named.insert("receipt".to_string(), "99999".to_string());
    assert_eq!(
        resolve_param(&Param::Named("receipt".into()), None, &[], &named),
        "99999"
    );

    // Unknown name or out-of-range index → empty.
    assert_eq!(
        resolve_param(&Param::Named("nope".into()), Some(&schema), &fields, &empty),
        ""
    );
    assert_eq!(resolve_param(&Param::Indexed(9), None, &fields, &empty), "");
}

#[test]
fn named_field_wins_over_schema() {
    let schema = vec!["receipt".to_string()];
    let fields = vec!["22215".to_string()];
    let mut named = FieldMap::new();
    named.insert("receipt".to_string(), "99999".to_string());
    assert_eq!(
        resolve_param(&Param::Named("receipt".into()), Some(&schema), &fields, &named),
        "99999"
    );
    // A schema name beyond the positional fields resolves to empty.
    let schema = vec!["a".to_string(), "b".to_string()];
    assert_eq!(
        resolve_param(&Param::Named("b".into()), Some(&schema), &fields, &FieldMap::new()),
        ""
    );
}

#[test]
fn singleton_and_detail_labels() {
    assert!(is_singleton_label("header"));
    assert!(is_singleton_label("footer"));
    assert!(!is_singleton_label("row1"));
    assert!(!is_singleton_label("Header"));
    assert!(is_detail_label("row1"));
    assert!(!is_detail_label("header"));
    assert!(!is_detail_label(""));
}
