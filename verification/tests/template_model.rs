use umya_spreadsheet::Style;
use xforme::data::{parse, Sheet};
use xforme::xlsx_template::plan::{plan_fill, CellContent, Resize};
use xforme::xlsx_template::workbook::{CellData, CommentData};
use xforme::xlsx_template::{
    build_model, collect_warnings, Param, RawCell, RawRow, RawTemplate, RenderError,
    TemplateSource, TplModel, TplRow,
};

fn cell(col: u32, value: &str) -> RawCell {
    RawCell {
        col,
        data: CellData {
            is_formula: false,
            formula: String::new(),
            value: value.to_string(),
            style: Style::default(),
        },
    }
}

fn formula(col: u32, f: &str) -> RawCell {
    RawCell {
        col,
        data: CellData {
            is_formula: true,
            formula: f.to_string(),
            value: "999".to_string(),
            style: Style::default(),
        },
    }
}

fn row(tag: &str, cells: Vec<RawCell>) -> RawRow {
    RawRow { tag: tag.to_string(), cells, dimension: None }
}

fn comment(col: u32, row: u32, text: &str) -> CommentData {
    CommentData { col, row, plain: Some(text.to_string()), rich: None }
}

/// header on row 1, a two-row detail band (`row1`, `row2`) on rows 2-3, and a
/// footer on row 4 that sums the band.
fn receipt_template() -> RawTemplate {
    RawTemplate {
        rows: vec![
            row("header(title)", vec![cell(2, "Sample")]),
            row("row1(qty)", vec![cell(2, "1"), formula(3, "B2*10")]),
            row("row2(qty)", vec![cell(2, "2"), formula(3, "B3*10")]),
            row("footer", vec![formula(3, "SUM(C$2:C3)")]),
        ],
        merges: vec!["B1:D1".to_string(), "B2:B3".to_string(), "nonsense".to_string()],
        comments: vec![
            comment(2, 1, "#title"),
            comment(2, 2, "#qty"),
            comment(2, 3, "#1"),
            comment(3, 3, "no marker"),
        ],
    }
}

fn sheet(raw: &str) -> Sheet {
    parse(raw).unwrap().remove(0)
}

#[test]
fn builds_the_template_model() {
    let m = build_model(receipt_template());
    assert_eq!(m.rows.len(), 4);
    assert_eq!(m.rows[0].row, 1);
    assert_eq!(m.rows[0].label, "header");
    assert_eq!(m.rows[1].label, "row1");
    assert_eq!(m.rows[3].label, "footer");
    assert!(matches!(&m.rows[0].cells[0].param, Some(Param::Named(n)) if n == "title"));
    assert!(matches!(&m.rows[2].cells[0].param, Some(Param::Indexed(1))));
    assert!(m.rows[2].cells[1].param.is_none());
    assert!(m.rows[1].cells[1].is_formula);
    assert_eq!(m.rows[1].cells[1].content, "B2*10");
    // Only single-row merges are kept, on their row.
    assert_eq!(m.rows[0].merges, vec![(2, 4)]);
    assert!(m.rows[1].merges.is_empty());
    // Schemas: first declaration per label, in order.
    let labels: Vec<&str> = m.schemas.iter().map(|(l, _)| l.as_str()).collect();
    assert_eq!(labels, vec!["header", "row1", "row2"]);
    assert_eq!(m.schemas[0].1, vec!["title"]);
}

#[test]
fn first_schema_declaration_wins() {
    let raw = RawTemplate {
        rows: vec![row("header(a,b)", vec![]), row("header(c)", vec![]), row("header", vec![])],
        merges: vec![],
        comments: vec![],
    };
    let m = build_model(raw);
    assert_eq!(m.schemas.len(), 1);
    assert_eq!(m.schemas[0].1, vec!["a", "b"]);
    assert!(m.rows.iter().all(|r| r.label == "header"));
}

#[test]
fn plans_one_band_row_per_detail_record() {
    let m = build_model(receipt_template());
    let s = sheet("#sheet\tT\tOut\nheader\tHi\nrow2\t5\nrow1\t6\nrow2\t7\nfooter\n##end\n");
    let plan = plan_fill(&m, &s).unwrap();
    // Three records in a two-row band: one row is inserted at the band's end.
    assert_eq!(plan.resize, Resize::Insert { at: 3, count: 1 });
    assert_eq!(plan.band_rows, Some((2, 4)));
    assert_eq!(plan.detail.len(), 3);
    let targets: Vec<u32> = plan.detail.iter().map(|d| d.target).collect();
    assert_eq!(targets, vec![2, 3, 4]);
    // Each record uses the template row of its own label.
    let sources: Vec<usize> = plan.detail.iter().map(|d| d.source).collect();
    assert_eq!(sources, vec![2, 1, 2]);
    // Parameters: `row2` binds by position (#1), `row1` by schema name.
    assert!(matches!(&plan.detail[0].cells[0].content, CellContent::Value(v) if v == "5"));
    assert!(matches!(&plan.detail[1].cells[0].content, CellContent::Value(v) if v == "6"));
    // Formulas move with their row: row2's template is on row 3.
    assert!(matches!(&plan.detail[0].cells[1].content, CellContent::Formula(f) if f == "B2*10"));
    assert!(matches!(&plan.detail[2].cells[1].content, CellContent::Formula(f) if f == "B4*10"));
    // The header stays on row 1; the footer (row 4) moves down by one.
    assert_eq!(plan.params.len(), 2);
    assert_eq!(plan.params[0].row, 1);
    assert_eq!(plan.params[0].values, vec![(2, "Hi".to_string())]);
    assert_eq!(plan.params[1].row, 5);
    assert_eq!(plan.rename, Some("Out".to_string()));
}

#[test]
fn plans_a_shrinking_band_and_unknown_labels() {
    let m = build_model(receipt_template());
    // One record whose label no detail row has: it falls back to the band's
    // rows in turn.
    let s = sheet("#sheet\tT\t  \nrow9\t5\n##end\n");
    let plan = plan_fill(&m, &s).unwrap();
    assert_eq!(plan.resize, Resize::Remove { at: 2, count: 1 });
    assert_eq!(plan.detail.len(), 1);
    assert_eq!(plan.detail[0].source, 1);
    assert_eq!(plan.params[1].row, 3);
    // A blank title keeps the template sheet's name.
    assert_eq!(plan.rename, None);
    // No detail records: the band is removed entirely.
    let s = sheet("#sheet\tT\tT\nheader\tx\n##end\n");
    let plan = plan_fill(&m, &s).unwrap();
    assert_eq!(plan.resize, Resize::Remove { at: 2, count: 2 });
    assert!(plan.detail.is_empty());
    assert_eq!(plan.band_rows, None);
    assert_eq!(plan.params[1].row, 2);
}

#[test]
fn warns_once_per_unmatched_label() {
    let m = build_model(receipt_template());
    let s = sheet("#sheet\tT\nwidget\t1\nrow1\t2\nwidget\t3\ngadget\n\tx\n##end\n");
    assert_eq!(
        collect_warnings(&m, &s),
        vec![
            "data label `widget` has no matching template row — those records are ignored",
            "data label `gadget` has no matching template row — those records are ignored",
            "data label `` has no matching template row — those records are ignored",
        ]
    );
}

#[test]
fn render_error_messages() {
    assert_eq!(
        RenderError::SheetNotFound("T".into(), "NotFound".into()).message(),
        "template sheet `T` not found: NotFound"
    );
    assert_eq!(RenderError::Write("x".into()).message(), "x");
}

#[test]
fn template_sources() {
    let bytes = vec![1u8, 2, 3];
    assert!(matches!(TemplateSource::from(bytes.as_slice()), TemplateSource::Bytes(b) if b == [1, 2, 3]));
    assert!(matches!(TemplateSource::from(&bytes), TemplateSource::Bytes(b) if b.len() == 3));
    let p = std::path::Path::new("t.xlsx");
    assert!(matches!(TemplateSource::from(p), TemplateSource::Path(q) if q == p));
}

#[test]
fn refuses_rows_beyond_the_sheet() {
    let tpl_row = |row: u32, label: &str| TplRow {
        row,
        label: label.to_string(),
        cells: vec![],
        merges: vec![],
        dimension: None,
        height: None,
    };
    let model = TplModel {
        rows: vec![tpl_row(1, "item"), tpl_row(u32::MAX, "footer")],
        schemas: vec![],
    };
    // Two records in a one-row band push the footer past the last sheet row.
    let s = sheet("#sheet\tT\nitem\t1\nitem\t2\nfooter\n##end\n");
    assert!(matches!(plan_fill(&model, &s), Err(RenderError::RowOverflow)));
    // One record keeps it in place.
    let s = sheet("#sheet\tT\nitem\t1\nfooter\n##end\n");
    let plan = plan_fill(&model, &s).unwrap();
    assert_eq!(plan.params[0].row, u32::MAX);
}
