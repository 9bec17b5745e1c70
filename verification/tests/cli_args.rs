use xforme::cli::{default_prefix, format_of_extension, parse_args, prefix_from_stem, Args, DataFormat};

fn argv(items: &[&str]) -> Vec<String> {
    let mut v = vec!["xforme".to_string()];
    v.extend(items.iter().map(|s| s.to_string()));
    v
}

#[test]
fn parses_required_and_optional_arguments() {
    assert_eq!(
        parse_args(&argv(&["--template", "t.xlsx", "--data", "d.txt"])),
        Ok(Args { template: "t.xlsx".into(), data: "d.txt".into(), out: None, pdf: true })
    );
    assert_eq!(
        parse_args(&argv(&["--no-pdf", "--data", "d.json", "--out", "report", "--template", "t.xlsx"])),
        Ok(Args {
            template: "t.xlsx".into(),
            data: "d.json".into(),
            out: Some("report".into()),
            pdf: false
        })
    );
    // A later flag overrides an earlier one.
    assert_eq!(
        parse_args(&argv(&["--template", "a", "--template", "b", "--data", "d"])).unwrap().template,
        "b"
    );
}

#[test]
fn argument_errors() {
    assert_eq!(parse_args(&argv(&["--help"])), Err("help".to_string()));
    assert_eq!(parse_args(&argv(&["--data", "d", "-h"])), Err("help".to_string()));
    assert_eq!(parse_args(&argv(&["--template"])), Err("--template requires a path".to_string()));
    assert_eq!(parse_args(&argv(&["--data"])), Err("--data requires a path".to_string()));
    assert_eq!(parse_args(&argv(&["--out"])), Err("--out requires a prefix".to_string()));
    assert_eq!(parse_args(&argv(&["--pdf"])), Err("unexpected argument `--pdf`".to_string()));
    assert_eq!(
        parse_args(&argv(&["--data", "d"])),
        Err("missing required --template TEMPLATE.xlsx".to_string())
    );
    assert_eq!(
        parse_args(&argv(&["--template", "t"])),
        Err("missing required --data DATA.txt".to_string())
    );
    assert_eq!(
        parse_args(&[]),
        Err("missing required --template TEMPLATE.xlsx".to_string())
    );
}

#[test]
fn data_format_by_extension() {
    assert_eq!(format_of_extension(Some("json")), DataFormat::Json);
    assert_eq!(format_of_extension(Some("JSON")), DataFormat::Json);
    assert_eq!(format_of_extension(Some("yaml")), DataFormat::Yaml);
    assert_eq!(format_of_extension(Some("Yml")), DataFormat::Yaml);
    assert_eq!(format_of_extension(Some("csv")), DataFormat::Csv);
    assert_eq!(format_of_extension(Some("txt")), DataFormat::Tab);
    assert_eq!(format_of_extension(Some("jsonl")), DataFormat::Tab);
    assert_eq!(format_of_extension(None), DataFormat::Tab);
}

#[test]
fn default_prefix_is_the_data_file_stem() {
    assert_eq!(default_prefix("data/receipt.txt"), "receipt");
    assert_eq!(default_prefix("report.tar.gz"), "report.tar");
    assert_eq!(default_prefix(""), "output");
    assert_eq!(default_prefix("report"), "report");
    assert_eq!(default_prefix("data/sales_receipt.txt"), "sales_receipt");
    assert_eq!(prefix_from_stem(None), "output");
    assert_eq!(prefix_from_stem(Some("x".to_string())), "x");
}
