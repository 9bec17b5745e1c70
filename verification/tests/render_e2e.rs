use umya_spreadsheet::{
    Comment, CommentText, ConditionalFormatValues, ConditionalFormatting,
    ConditionalFormattingRule, RichText, SequenceOfReferences, Style, TextElement, Workbook,
    Worksheet,
};
use xforme::data::{self, Sheet};
use xforme::xlsx_template::{extract_template, fill_in_place, fill_template, RenderError};

/// Bind a parameter: real sample value in the cell, `#name` in its comment.
fn param(ws: &mut Worksheet, at: &str, sample: &str, name: &str) {
    ws.cell_mut(at).set_value(sample);
    let mut c = Comment::default();
    c.new_comment(at);
    c.set_text_string(format!("#{name}"));
    ws.add_comments(c);
}

fn to_bytes(book: &Workbook) -> Vec<u8> {
    let mut buf = Vec::new();
    umya_spreadsheet::writer::xlsx::write_writer(book, &mut buf).unwrap();
    buf
}

fn from_bytes(bytes: Vec<u8>) -> Workbook {
    umya_spreadsheet::reader::xlsx::read_reader(std::io::Cursor::new(bytes), true).unwrap()
}

/// Read a template from bytes, fill it, and return the workbook and warnings.
fn render_with_warnings(bytes: &[u8], sheet: &Sheet) -> Result<(Workbook, Vec<String>), RenderError> {
    let mut book = from_bytes(bytes.to_vec());
    let warnings = fill_template(&mut book, sheet)?;
    Ok((book, warnings))
}

fn render(bytes: &[u8], sheet: &Sheet) -> Result<Workbook, RenderError> {
    render_with_warnings(bytes, sheet).map(|(book, _)| book)
}

fn render_to_bytes(bytes: &[u8], sheet: &Sheet) -> Result<Vec<u8>, RenderError> {
    render(bytes, sheet).map(|book| to_bytes(&book))
}

/// A minimal template: column-A labels declare schemas, parameters are
/// comment-bound with real sample values, and the footer sums the detail band
/// via mixed anchoring.
fn template_bytes() -> Vec<u8> {
    let mut book = umya_spreadsheet::new_file();
    book.set_sheet_name(0, "Tmpl").unwrap();
    let ws = book.sheet_by_name_mut("Tmpl").unwrap();
    ws.cell_mut("A1").set_value("header(title)");
    param(ws, "B1", "Sample Title", "title");
    ws.cell_mut("A2").set_value("item(qty)");
    param(ws, "B2", "1", "qty");
    ws.cell_mut("C2").set_formula("B2*10");
    ws.cell_mut("C2").set_formula_result_number(999.0);
    ws.cell_mut("A3").set_value("footer");
    ws.cell_mut("C3").set_formula("SUM(C$2:C2)");
    ws.row_dimension_mut(1).set_height(33.0);
    to_bytes(&book)
}

#[test]
fn renders_template_to_report() {
    let raw = "#sheet\tTmpl\tReport\n\
               header\tMy Report\n\
               item\t2\n\
               item\t3\n\
               item\t4\n\
               footer\n\
               ##end\n";
    let sheets = data::parse(raw).unwrap();
    let out = render_to_bytes(template_bytes().as_slice(), &sheets[0]).unwrap();
    let book = from_bytes(out);

    assert!(book.sheet_by_name("Tmpl").is_err(), "template sheet should be removed");
    let ws = book.sheet_by_name("Report").expect("rendered sheet present");
    assert_eq!(ws.value("B1"), "My Report");
    assert_eq!(ws.row_dimension(1).map(|r| r.height()), Some(33.0));
    assert_eq!(ws.value("B2"), "2");
    assert_eq!(ws.value("B3"), "3");
    assert_eq!(ws.value("B4"), "4");
    assert_eq!(ws.cell("C2").unwrap().formula(), "B2*10");
    assert_eq!(ws.cell("C3").unwrap().formula(), "B3*10");
    assert_eq!(ws.cell("C4").unwrap().formula(), "B4*10");
    assert_eq!(ws.cell("C5").unwrap().formula(), "SUM(C$2:C4)");
    assert_ne!(ws.cell("C2").unwrap().value(), "999");
    // The control column is hidden and the directive comments are gone.
    assert!(ws.column_dimension("A").map(|c| c.hidden()).unwrap_or(false));
    assert!(ws.comments().is_empty());
}

#[test]
fn warns_on_unmatched_data_label() {
    let raw = "#sheet\tTmpl\tReport\n\
               header\tTitle\n\
               item\t1\n\
               widget\t9\n\
               footer\n\
               ##end\n";
    let sheet = &data::parse(raw).unwrap()[0];
    let bytes = template_bytes();
    let (_book, warnings) = render_with_warnings(bytes.as_slice(), sheet).unwrap();
    assert_eq!(
        warnings,
        vec!["data label `widget` has no matching template row — those records are ignored"]
    );
}

#[test]
fn renders_template_from_bytes() {
    let raw = "#sheet\tTmpl\tReport\n\
               header\tIn-Memory\n\
               item\t5\n\
               footer\n\
               ##end\n";
    let sheets = data::parse(raw).unwrap();
    let out_bytes = render_to_bytes(template_bytes().as_slice(), &sheets[0]).unwrap();
    assert!(!out_bytes.is_empty());
    let book = from_bytes(out_bytes);
    assert!(book.sheet_by_name("Tmpl").is_err(), "template sheet removed");
    let ws = book.sheet_by_name("Report").expect("rendered sheet present");
    assert_eq!(ws.value("B1"), "In-Memory");
    assert_eq!(ws.value("B2"), "5");
    assert_eq!(ws.cell("C2").unwrap().formula(), "B2*10");
    assert_eq!(ws.cell("C3").unwrap().formula(), "SUM(C$2:C2)");
}

#[test]
fn removes_band_rows_for_fewer_records() {
    let raw = "#sheet\tTmpl\t\nheader\tNone\nfooter\n##end\n";
    let sheet = &data::parse(raw).unwrap()[0];
    let book = render(template_bytes().as_slice(), sheet).unwrap();
    // An empty title keeps the template's name.
    let ws = book.sheet_by_name("Tmpl").expect("sheet keeps its name");
    assert_eq!(ws.value("B1"), "None");
    // The footer moved up into the removed band row.
    assert_eq!(ws.value("A2"), "footer");
}

#[test]
fn reads_rich_text_comment_markers() {
    let mut book = umya_spreadsheet::new_file();
    book.set_sheet_name(0, "Tmpl").unwrap();
    let ws = book.sheet_by_name_mut("Tmpl").unwrap();
    ws.cell_mut("A1").set_value("header(title)");
    ws.cell_mut("B1").set_value("PLACEHOLDER");
    let mut element = TextElement::default();
    element.set_text("#title");
    let mut rich = RichText::default();
    rich.add_rich_text_elements(element);
    let mut text = CommentText::default();
    text.set_rich_text(rich);
    let mut comment = Comment::default();
    comment.new_comment("B1");
    comment.set_text(text);
    ws.add_comments(comment);
    let bytes = to_bytes(&book);

    let raw = "#sheet\tTmpl\tReport\nheader\tHello\n##end\n";
    let sheet = &data::parse(raw).unwrap()[0];
    let out = render_to_bytes(bytes.as_slice(), sheet).unwrap();
    let book = from_bytes(out);
    let ws = book.sheet_by_name("Report").unwrap();
    assert_eq!(ws.value("B1"), "Hello");
}

#[test]
fn preserves_and_grows_conditional_formatting() {
    let mut book = umya_spreadsheet::new_file();
    book.set_sheet_name(0, "T").unwrap();
    let ws = book.sheet_by_name_mut("T").unwrap();
    for (cell, label) in [("A1", "row1(amount)"), ("A2", "row2(amount)")] {
        ws.cell_mut(cell).set_value(label);
    }
    for cell in ["B1", "B2"] {
        param(ws, cell, "0", "amount");
    }
    let mut seq = SequenceOfReferences::default();
    seq.set_sqref("B1:B2");
    let mut style = Style::default();
    style.set_background_color("FFFFFF00");
    let mut rule = ConditionalFormattingRule::default();
    rule.set_type(ConditionalFormatValues::DuplicateValues);
    rule.set_priority(1);
    rule.set_style(style);
    let mut cf = ConditionalFormatting::default();
    cf.set_sequence_of_references(seq);
    cf.add_conditional_collection(rule);
    ws.add_conditional_formatting_collection(cf);
    let bytes = to_bytes(&book);

    let raw = "#sheet\tT\tOut\nrow1\t10\nrow2\t20\nrow1\t30\nrow2\t40\n##end\n";
    let sheet = &data::parse(raw).unwrap()[0];
    let out = render_to_bytes(bytes.as_slice(), sheet).unwrap();
    let book = from_bytes(out);
    let ws = book.sheet_by_name("Out").unwrap();
    // Records interleave their own template rows, in data order.
    assert_eq!(ws.value("B1"), "10");
    assert_eq!(ws.value("B2"), "20");
    assert_eq!(ws.value("B3"), "30");
    assert_eq!(ws.value("B4"), "40");
    let cf = ws.conditional_formatting_collection();
    assert_eq!(cf.len(), 1, "conditional formatting preserved");
    let sqref = cf[0].get_sequence_of_references().get_sqref();
    assert!(sqref.contains("B4"), "CF range grew with the band, got {sqref:?}");
}

#[test]
fn reports_missing_sheet_and_unreadable_bytes() {
    let raw = "#sheet\tNope\tReport\nheader\tx\n##end\n";
    let sheet = &data::parse(raw).unwrap()[0];
    match render(template_bytes().as_slice(), sheet) {
        Err(RenderError::SheetNotFound(name, _)) => assert_eq!(name, "Nope"),
        _ => panic!("expected SheetNotFound"),
    }
    // Unreadable bytes never reach the engine: the reader refuses them.
    let unreadable = umya_spreadsheet::reader::xlsx::read_reader(
        std::io::Cursor::new(b"not a workbook".to_vec()),
        true,
    );
    assert!(unreadable.is_err());
    // A missing sheet leaves the workbook as it was.
    let mut book = from_bytes(template_bytes());
    assert!(fill_template(&mut book, sheet).is_err());
    assert_eq!(book.sheet_by_name("Tmpl").unwrap().value("B1"), "Sample Title");
}

#[test]
fn detail_rows_take_template_styles_and_heights() {
    let mut book = umya_spreadsheet::new_file();
    book.set_sheet_name(0, "Tmpl").unwrap();
    let ws = book.sheet_by_name_mut("Tmpl").unwrap();
    ws.cell_mut("A1").set_value("item(qty)");
    param(ws, "B1", "1", "qty");
    ws.cell_mut("B1").style_mut().font_mut().set_bold(true);
    ws.row_dimension_mut(1).set_height(21.0);
    ws.add_merge_cells("C1:D1");
    let bytes = to_bytes(&book);

    let raw = "#sheet\tTmpl\tOut\nitem\t7\nitem\t8\nitem\t9\n##end\n";
    let sheet = &data::parse(raw).unwrap()[0];
    let (book, warnings) = render_with_warnings(&bytes, sheet).unwrap();
    assert!(warnings.is_empty());
    let ws = book.sheet_by_name("Out").unwrap();
    for (row, v) in [(1u32, "7"), (2, "8"), (3, "9")] {
        let cell = ws.cell((2, row)).unwrap();
        assert_eq!(cell.value(), v);
        assert!(cell.style().font().map(|f| f.bold()).unwrap_or(false), "row {row} bold");
        assert_eq!(ws.row_dimension(row).map(|r| r.height()), Some(21.0));
    }
    let merges: Vec<String> = ws.merge_cells().iter().map(|m| m.range()).collect();
    assert_eq!(merges, vec!["C1:D1", "C2:D2", "C3:D3"]);
}

#[test]
fn extracts_the_model_of_the_sheet_read() {
    let book = from_bytes(template_bytes());
    match extract_template(&book, "Missing") {
        Err(e) => {
            assert!(matches!(&e, RenderError::SheetNotFound(name, _) if name == "Missing"));
            assert_eq!(e.message(), "template sheet `Missing` not found: NotFound");
        }
        _ => panic!("expected SheetNotFound"),
    }
    let model = extract_template(&book, "Tmpl").unwrap();
    let labels: Vec<&str> = model.rows.iter().map(|r| r.label.as_str()).collect();
    assert_eq!(labels, vec!["header", "item", "footer"]);
    assert_eq!(model.rows[1].cells.len(), 2);
    assert!(model.rows[1].cells[1].is_formula);
    assert_eq!(model.rows[1].cells[1].content, "B2*10");
    assert_eq!(model.rows[0].height.map(f64::from_bits), Some(33.0));
}

#[test]
fn fill_in_place_keeps_other_sheets() {
    let mut book = from_bytes(template_bytes());
    let mut other = umya_spreadsheet::Worksheet::default();
    other.set_name("Notes");
    other.cell_mut("A1").set_value("keep me");
    book.add_sheet(other).unwrap();
    let raw = "#sheet\tTmpl\tReport\nheader\tT\nitem\t1\nitem\t2\nfooter\n##end\n";
    let sheet = &data::parse(raw).unwrap()[0];
    let model = extract_template(&book, "Tmpl").unwrap();
    fill_in_place(&mut book, sheet, &model).unwrap();
    assert_eq!(book.sheet_by_name("Notes").unwrap().value("A1"), "keep me");
    let ws = book.sheet_by_name("Report").unwrap();
    assert_eq!(ws.value("B1"), "T");
    assert_eq!(ws.cell("C3").unwrap().formula(), "B3*10");
    assert_eq!(ws.cell("C4").unwrap().formula(), "SUM(C$2:C3)");
    assert!(ws.comments().is_empty());
}

#[test]
fn refuses_to_shrink_a_band_under_a_whole_column_reference() {
    let mut book = umya_spreadsheet::new_file();
    book.set_sheet_name(0, "T").unwrap();
    let ws = book.sheet_by_name_mut("T").unwrap();
    ws.cell_mut("A1").set_value("row1(amount)");
    param(ws, "B1", "0", "amount");
    ws.cell_mut("A2").set_value("row1");
    param(ws, "B2", "0", "amount");
    ws.cell_mut("A3").set_value("footer");
    ws.cell_mut("B3").set_formula("SUM(B:B)");
    let mut book = from_bytes(to_bytes(&book));
    let raw = "#sheet\tT\tOut\nrow1\t10\n##end\n";
    let sheet = &data::parse(raw).unwrap()[0];
    match fill_template(&mut book, sheet) {
        Err(RenderError::WholeColumnReference) => {}
        other => panic!("expected WholeColumnReference, got {:?}", other.map(|_| ())),
    }
    assert!(book.sheet_by_name("T").is_ok());
    assert!(book.sheet_by_name("Out").is_err());
    // Growing the band needs no removal, so the same template renders.
    let raw = "#sheet\tT\tOut\nrow1\t10\nrow1\t20\nrow1\t30\n##end\n";
    let sheet = &data::parse(raw).unwrap()[0];
    fill_template(&mut book, sheet).unwrap();
    let ws = book.sheet_by_name("Out").unwrap();
    assert_eq!(ws.value("B3"), "30");
    assert_eq!(ws.value("A4"), "footer");
}
