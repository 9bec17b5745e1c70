use xforme::data::{parse, FieldMap, ParseError, Record};

const SAMPLE: &str = "#sheet\tSalesReceipt\tSales Receipt\n\
                      header\t1/5/2009\t22215\tJose Maria Fernandez\t1010 Broadway\n\
                      row1\t1\t1\tIntroduction to Algebra\t53.0\n\
                      footer\t.0525\n\
                      ##end\n";

#[test]
fn parses_sheet_and_records() {
    let sheets = parse(SAMPLE).unwrap();
    assert_eq!(sheets.len(), 1);
    let s = &sheets[0];
    assert_eq!(s.template, "SalesReceipt");
    assert_eq!(s.title, "Sales Receipt");
    assert_eq!(s.records.len(), 3);
    assert_eq!(s.records[0].label, "header");
    assert_eq!(s.records[0].fields[2], "Jose Maria Fernandez");
    assert_eq!(
        s.records[1].fields,
        vec!["1", "1", "Introduction to Algebra", "53.0"]
    );
    assert_eq!(
        s.records[2],
        Record {
            label: "footer".into(),
            fields: vec![".0525".into()],
            ..Default::default()
        }
    );
}

#[test]
fn rejects_missing_header() {
    assert_eq!(parse("row1\t1\n"), Err(ParseError::MissingSheetHeader));
}

#[test]
fn rejects_sheet_line_without_template() {
    assert_eq!(parse("#sheet\n"), Err(ParseError::MalformedSheet(1)));
    // Leading blanks and tabs after `#sheet` are skipped before the template.
    assert_eq!(parse("#sheet\t\tTitle\n").unwrap()[0].template, "Title");
    assert_eq!(parse("\n#sheet   \n"), Err(ParseError::MalformedSheet(2)));
}

#[test]
fn rejects_end_without_open_sheet() {
    assert_eq!(
        parse("#sheet\tA\n##end\n##end\n"),
        Err(ParseError::UnexpectedEnd(3))
    );
}

#[test]
fn flushes_unterminated_sheets() {
    let sheets = parse("#sheet\tA\tFirst\nrow\t1\n#sheet\tB\nrow\t2\n").unwrap();
    assert_eq!(sheets.len(), 2);
    assert_eq!(sheets[0].template, "A");
    assert_eq!(sheets[0].title, "First");
    assert_eq!(sheets[0].records.len(), 1);
    assert_eq!(sheets[1].template, "B");
    assert_eq!(sheets[1].title, "");
    assert_eq!(sheets[1].records[0].fields, vec!["2"]);
}

#[test]
fn skips_blank_lines_and_trims_fields() {
    let sheets = parse("\r\n#sheet \t T \t  My Title \r\n\n   \nrow1\t a \t b\r\n##end\r\n").unwrap();
    assert_eq!(sheets.len(), 1);
    assert_eq!(sheets[0].template, "T");
    assert_eq!(sheets[0].title, "My Title");
    assert_eq!(sheets[0].records[0].label, "row1");
    assert_eq!(sheets[0].records[0].fields, vec!["a", "b"]);
}

#[test]
fn empty_input_has_no_sheets() {
    assert_eq!(parse("").unwrap().len(), 0);
    assert_eq!(parse("\n\n  \n").unwrap().len(), 0);
}

#[test]
fn parse_error_messages() {
    assert_eq!(
        ParseError::MissingSheetHeader.message(),
        "data does not start with a `#sheet` line"
    );
    assert_eq!(
        ParseError::MalformedSheet(4).message(),
        "malformed `#sheet` line at line 4"
    );
    assert_eq!(
        ParseError::UnexpectedEnd(12).message(),
        "`##end` without an open sheet at line 12"
    );
}

#[test]
fn field_map_insert_get_and_replace() {
    let mut m = FieldMap::new();
    assert_eq!(m.len(), 0);
    m.insert("qty".to_string(), "2".to_string());
    m.insert("price".to_string(), "9.99".to_string());
    assert_eq!(m.len(), 2);
    assert_eq!(m.get("qty").map(|s| s.as_str()), Some("2"));
    m.insert("qty".to_string(), "3".to_string());
    assert_eq!(m.len(), 2);
    assert_eq!(m.get("qty").map(|s| s.as_str()), Some("3"));
    assert_eq!(m.get("nope"), None);
    let c = m.copy();
    assert_eq!(c.get("price").map(|s| s.as_str()), Some("9.99"));
}

#[test]
fn crlf_line_ends_and_blank_lines_parse_the_same() {
    let lf = "#sheet\tTmpl\tReport\nheader\tA\titem\nrow1\t1\t2\n##end\n";
    let crlf = "#sheet\tTmpl\tReport\r\nheader\tA\titem\r\nrow1\t1\t2\r\n##end\r\n";
    let blank = "\n#sheet\tTmpl\tReport\n\n   \nheader\tA\titem\nrow1\t1\t2\n\n##end\n\n";
    let expected = parse(lf).unwrap();
    assert_eq!(parse(crlf).unwrap(), expected);
    assert_eq!(parse(blank).unwrap(), expected);
    assert_eq!(expected[0].records.len(), 2);
}
