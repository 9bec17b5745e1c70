//! The `umya_spreadsheet` items that the engine calls. Each function here makes
//! one call into `umya_spreadsheet` and converts its arguments and result; its
//! contract states what that call does, as `umya_spreadsheet`'s source shows
//! it. What a workbook holds is named by [`workbook_sheets`]: the reading
//! functions state their results over it, and the editing functions state how
//! they change it.

use vstd::prelude::*;
use crate::xlsx_template::{spec_keep_merge, CommentView};
use crate::xlsx_template::formula::removal_safe;

verus! {

/// A workbook in memory.
#[verifier::external_type_specification]
#[verifier::external_body]
pub struct ExWorkbook(umya_spreadsheet::Workbook);

/// A cell style, carried unchanged from a template cell to the cells made from it.
#[verifier::external_type_specification]
#[verifier::external_body]
pub struct ExStyle(umya_spreadsheet::Style);

/// A row's dimension record (height and related flags).
#[verifier::external_type_specification]
#[verifier::external_body]
pub struct ExRow(umya_spreadsheet::Row);

/// The error type of `umya_spreadsheet`'s reader and writer.
#[verifier::external_type_specification]
#[verifier::external_body]
pub struct ExXlsxError(umya_spreadsheet::XlsxError);

/// A cell comment, as plain values: where it sits and its text, both as a
/// plain text node and as rich-text runs (Excel and LibreOffice rewrite
/// comments into runs when they save).
pub struct CommentData {
    pub col: u32,
    pub row: u32,
    pub plain: Option<String>,
    pub rich: Option<String>,
}

/// A cell, as plain values: whether it holds a formula, its formula text, its
/// value, and its style.
pub struct CellData {
    pub is_formula: bool,
    pub formula: String,
    pub value: String,
    pub style: umya_spreadsheet::Style,
}

/// A cell, as the plain values the engine reads of it.
pub struct CellDataView {
    pub is_formula: bool,
    pub formula: Seq<char>,
    pub value: Seq<char>,
}

impl View for CellData {
    type V = CellDataView;

    open spec fn view(&self) -> CellDataView {
        CellDataView { is_formula: self.is_formula, formula: self.formula@, value: self.value@ }
    }
}

/// What a worksheet holds, as the engine reads it: its highest used column
/// and row, its existing cells by `(column, row)`, the height (as a bit
/// pattern) of each row that has a dimension record, its merged ranges and
/// its comments, in order, the columns whose dimension is hidden, the
/// style of each existing cell, and the ranges (`sqref`) of its conditional
/// formats, in order.
pub struct SheetContents {
    pub extent: (u32, u32),
    pub cells: Map<(u32, u32), CellDataView>,
    pub heights: Map<u32, u64>,
    pub merges: Seq<Seq<char>>,
    pub comments: Seq<CommentView>,
    pub hidden: Set<u32>,
    pub styles: Map<(u32, u32), umya_spreadsheet::Style>,
    pub formats: Seq<Seq<char>>,
}

/// What a workbook holds: the sheets that `Workbook::sheet_by_name` finds,
/// by name, with what each holds.
pub uninterp spec fn workbook_sheets(book: umya_spreadsheet::Workbook) -> Map<Seq<char>, SheetContents>;

/// What the sheet `sheet` of `book` holds, when `sheet_by_name` finds it.
pub open spec fn sheet_contents(book: umya_spreadsheet::Workbook, sheet: Seq<char>) -> Option<
    SheetContents,
> {
    if workbook_sheets(book).contains_key(sheet) {
        Some(workbook_sheets(book)[sheet])
    } else {
        None
    }
}

// ---------------------------------------------------------------------------
// Reading a sheet
// ---------------------------------------------------------------------------

/// The titles of the workbook's sheets, in order (`Worksheet::name` of each
/// sheet of the workbook).
pub uninterp spec fn sheet_titles(book: umya_spreadsheet::Workbook) -> Seq<Seq<char>>;

/// `Workbook::sheet_by_name`: `None` when it finds the sheet (found only by
/// one of the titles), else the `Debug` text of its error (which error is
/// not stated).
#[verifier::external_body]
pub(crate) fn sheet_lookup(book: &umya_spreadsheet::Workbook, sheet: &str) -> (r: Option<String>)
    ensures
        r is None <==> workbook_sheets(*book).contains_key(sheet@),
        r is None ==> sheet_titles(*book).contains(sheet@),
{
    book.sheet_by_name(sheet).err().map(|e| format!("{e:?}"))
}

/// `Worksheet::highest_column_and_row` of the sheet (`(0, 0)` for a sheet
/// that does not exist).
#[verifier::external_body]
pub(crate) fn highest_column_and_row(book: &umya_spreadsheet::Workbook, sheet: &str) -> (r: (u32, u32))
    ensures
        r == match sheet_contents(*book, sheet@) {
            Some(sc) => sc.extent,
            None => (0u32, 0u32),
        },
{
    match book.sheet_by_name(sheet) {
        Ok(ws) => ws.highest_column_and_row(),
        Err(_) => (0, 0),
    }
}

/// `Range::range` of every merged range of the sheet (`Worksheet::merge_cells`),
/// in order.
#[verifier::external_body]
pub(crate) fn merge_ranges(book: &umya_spreadsheet::Workbook, sheet: &str) -> (r: Vec<String>)
    ensures
        r@.map_values(|m: String| m@) == match sheet_contents(*book, sheet@) {
            Some(sc) => sc.merges,
            None => Seq::empty(),
        },
{
    match book.sheet_by_name(sheet) {
        Ok(ws) => ws.merge_cells().iter().map(|m| m.range()).collect(),
        Err(_) => Vec::new(),
    }
}

/// Every comment of the sheet (`Worksheet::comments`), in order, as plain
/// values.
#[verifier::external_body]
pub(crate) fn sheet_comments(book: &umya_spreadsheet::Workbook, sheet: &str) -> (r: Vec<CommentData>)
    ensures
        r@.map_values(|c: CommentData| c@) == match sheet_contents(*book, sheet@) {
            Some(sc) => sc.comments,
            None => Seq::empty(),
        },
{
    let Ok(ws) = book.sheet_by_name(sheet) else { return Vec::new() };
    ws.comments().iter().map(|c| CommentData {
        col: c.coordinate().col_num(),
        row: c.coordinate().row_num(),
        plain: c.text().text().map(|t| t.value().to_string()),
        rich: c.text().rich_text().map(|t| t.text().into_owned()),
    }).collect()
}

/// `Worksheet::value` of the cell at `(col, row)`: its value as text, empty
/// when there is no cell.
#[verifier::external_body]
pub(crate) fn cell_value(book: &umya_spreadsheet::Workbook, sheet: &str, col: u32, row: u32) -> (r: String)
    ensures
        r@ == match sheet_contents(*book, sheet@) {
            Some(sc) => if sc.cells.contains_key((col, row)) {
                sc.cells[(col, row)].value
            } else {
                Seq::empty()
            },
            None => Seq::empty(),
        },
{
    match book.sheet_by_name(sheet) {
        Ok(ws) => ws.value((col, row)),
        Err(_) => String::new(),
    }
}

/// `Worksheet::cell` at `(col, row)`, as plain values with a clone of its style.
#[verifier::external_body]
pub(crate) fn cell_data(book: &umya_spreadsheet::Workbook, sheet: &str, col: u32, row: u32) -> (r: Option<CellData>)
    ensures
        match sheet_contents(*book, sheet@) {
            Some(sc) => if sc.cells.contains_key((col, row)) {
                r matches Some(d) && d@ == sc.cells[(col, row)] && sc.styles.contains_key((col, row))
                    && d.style == sc.styles[(col, row)]
            } else {
                r is None
            },
            None => r is None,
        },
{
    let Ok(ws) = book.sheet_by_name(sheet) else { return None };
    ws.cell((col, row)).map(|c| CellData {
        is_formula: c.is_formula(),
        formula: c.formula().to_string(),
        value: c.value().to_string(),
        style: c.style().clone(),
    })
}

/// A clone of `Worksheet::row_dimension` of `row`, when the sheet has one,
/// with the bit pattern (`to_bits`) of its `Row::height`.
#[verifier::external_body]
pub(crate) fn row_dimension(book: &umya_spreadsheet::Workbook, sheet: &str, row: u32) -> (r: Option<(umya_spreadsheet::Row, u64)>)
    ensures
        match sheet_contents(*book, sheet@) {
            Some(sc) => if sc.heights.contains_key(row) {
                r matches Some(d) && d.1 == sc.heights[row]
            } else {
                r is None
            },
            None => r is None,
        },
{
    match book.sheet_by_name(sheet) {
        Ok(ws) => ws.row_dimension(row).map(|d| (d.clone(), d.height().to_bits())),
        Err(_) => None,
    }
}

// ---------------------------------------------------------------------------
// Editing a sheet
// ---------------------------------------------------------------------------

/// The text `Cell::value` gives after `Cell::set_value(v)` (the value that
/// `CellValue::guess_typed_data` makes of `v`, as text): a function of `v`.
pub uninterp spec fn typed_value_text(v: Seq<char>) -> Seq<char>;

/// The text `Range::range` gives of the range that `Range::set_range(r)`
/// reads: a function of `r`.
pub uninterp spec fn range_text(r: Seq<char>) -> Seq<char>;

/// The number of times `c` occurs in `s`.
pub open spec fn count_char(s: Seq<char>, c: char) -> nat
    decreases s.len(),
{
    if s.len() == 0 {
        0
    } else {
        count_char(s.drop_last(), c) + if s.last() == c {
            1nat
        } else {
            0nat
        }
    }
}

/// `s` holds no `c`.
pub open spec fn lacks(s: Seq<char>, c: char) -> bool {
    forall|i: int| 0 <= i < s.len() ==> s[i] != c
}

/// The ranges `Range::set_range` accepts: the text after the first `!` (all
/// of it when there is none) has at most one `:`; on any other text it
/// panics ("Non-standard coordinate").
pub open spec fn range_ok(r: Seq<char>) -> bool {
    if lacks(r, '!') {
        count_char(r, ':') <= 1
    } else {
        exists|i: int|
            0 <= i < r.len() && r[i] == '!' && lacks(r.subrange(0, i), '!') && count_char(
                #[trigger] r.subrange(i + 1, r.len() as int),
                ':',
            ) <= 1
    }
}

/// A cell as `Cell::default` makes it: no formula, an empty value.
pub open spec fn blank_cell() -> CellDataView {
    CellDataView { is_formula: false, formula: Seq::empty(), value: Seq::empty() }
}

/// The cell at `k` of a sheet, or a default cell where there is none.
pub open spec fn cell_or_blank(sc: SheetContents, k: (u32, u32)) -> CellDataView {
    if sc.cells.contains_key(k) {
        sc.cells[k]
    } else {
        blank_cell()
    }
}

/// A cell after `Cell::set_value(v)`: its formula removed, its value typed from `v`.
pub open spec fn value_cell(v: Seq<char>) -> CellDataView {
    CellDataView { is_formula: false, formula: Seq::empty(), value: typed_value_text(v) }
}

/// A cell after `Cell::set_formula(f)`: the formula `f`, its value kept.
pub open spec fn formula_cell(prev: CellDataView, f: Seq<char>) -> CellDataView {
    CellDataView { is_formula: true, formula: f, value: prev.value }
}

/// Every row height of `before` is kept; a new row dimension can appear at
/// `row` only.
pub open spec fn heights_grow(before: Map<u32, u64>, after: Map<u32, u64>, row: u32) -> bool {
    &&& forall|r: u32| #[trigger] before.contains_key(r) ==> after.contains_key(r) && after[r] == before[r]
    &&& forall|r: u32| #[trigger] after.contains_key(r) ==> before.contains_key(r) || r == row
}

/// `after` is `before` with the cell at `(col, row)` replaced by `cell`
/// (`Worksheet::cell_mut` creates the cell and its row dimension when
/// missing; its extent, and the style of a cell it creates, are not stated).
pub open spec fn cell_edit(before: SheetContents, after: SheetContents, col: u32, row: u32, cell: CellDataView) -> bool {
    &&& after.cells == before.cells.insert((col, row), cell)
    &&& heights_grow(before.heights, after.heights, row)
    &&& after.merges == before.merges
    &&& after.comments == before.comments
    &&& after.hidden == before.hidden
    &&& after.formats == before.formats
    &&& forall|k: (u32, u32)|
        k != (col, row) ==> (#[trigger] after.styles.contains_key(k) <==> before.styles.contains_key(k))
    &&& forall|k: (u32, u32)|
        k != (col, row) && before.styles.contains_key(k) ==> #[trigger] after.styles[k] == before.styles[k]
}

/// The style of the cell at `k`, when it exists, is kept.
pub open spec fn style_kept(before: SheetContents, after: SheetContents, k: (u32, u32)) -> bool {
    before.cells.contains_key(k) && before.styles.contains_key(k) ==> after.styles.contains_key(k)
        && after.styles[k] == before.styles[k]
}

/// Every sheet but `sheet` is found as before and holds what it held.
pub open spec fn others_kept(before: Map<Seq<char>, SheetContents>, after: Map<Seq<char>, SheetContents>, sheet: Seq<char>) -> bool {
    &&& after.dom() == before.dom()
    &&& forall|n: Seq<char>| n != sheet && before.contains_key(n) ==> #[trigger] after[n] == before[n]
}

/// The text `Worksheet::insert_new_row(at, count)` leaves of a formula of
/// the sheet `sheet` (each reference to that sheet at or past row `at`
/// moved down by `count`, the formula re-rendered from its tokens): a
/// function of its arguments.
pub uninterp spec fn formula_after_insert(formula: Seq<char>, sheet: Seq<char>, at: u32, count: u32) -> Seq<char>;

/// The text `Worksheet::remove_row(at, count)` leaves of a formula of the
/// sheet `sheet`: a function of its arguments.
pub uninterp spec fn formula_after_remove(formula: Seq<char>, sheet: Seq<char>, at: u32, count: u32) -> Seq<char>;

/// The text of a merged range after `Range::adjustment_insert_coordinate`
/// moves its rows at or past `at` down by `count`.
pub uninterp spec fn range_after_insert(range: Seq<char>, at: u32, count: u32) -> Seq<char>;

/// The text of a merged range after `Range::adjustment_remove_coordinate`
/// moves its rows past the removed ones up by `count`.
pub uninterp spec fn range_after_remove(range: Seq<char>, at: u32, count: u32) -> Seq<char>;

/// Whether `Range::is_remove_coordinate` drops the merged range when the
/// rows `at .. at + count` are removed (one of its rows lies among them).
pub uninterp spec fn range_removed(range: Seq<char>, at: u32, count: u32) -> bool;

/// The ranges of a conditional format after
/// `SequenceOfReferences::adjustment_insert_coordinate` moves their rows at
/// or past `at` down by `count`.
pub uninterp spec fn sqref_after_insert(sqref: Seq<char>, at: u32, count: u32) -> Seq<char>;

/// The ranges of a conditional format after
/// `SequenceOfReferences::adjustment_remove_coordinate`.
pub uninterp spec fn sqref_after_remove(sqref: Seq<char>, at: u32, count: u32) -> Seq<char>;

/// Whether `SequenceOfReferences::is_remove_coordinate` drops the
/// conditional format when the rows `at .. at + count` are removed.
pub uninterp spec fn sqref_removed(sqref: Seq<char>, at: u32, count: u32) -> bool;

/// The keys of `m` after rows are inserted: a key on a row at or past `at`
/// moves down by `count`.
pub open spec fn rows_inserted<V>(m: Map<(u32, u32), V>, at: u32, count: u32) -> Map<(u32, u32), V> {
    Map::new(
        |k: (u32, u32)|
            if k.1 < at {
                m.contains_key(k)
            } else {
                k.1 >= at + count && m.contains_key((k.0, (k.1 - count) as u32))
            },
        |k: (u32, u32)|
            if k.1 < at {
                m[k]
            } else {
                m[(k.0, (k.1 - count) as u32)]
            },
    )
}

/// The keys of `m` after the rows `at .. at + count` are removed: keys on
/// those rows go, keys past them move up by `count`.
pub open spec fn rows_removed<V>(m: Map<(u32, u32), V>, at: u32, count: u32) -> Map<(u32, u32), V> {
    Map::new(
        |k: (u32, u32)|
            if k.1 < at {
                m.contains_key(k)
            } else {
                k.1 + count <= u32::MAX && m.contains_key((k.0, (k.1 + count) as u32))
            },
        |k: (u32, u32)|
            if k.1 < at {
                m[k]
            } else {
                m[(k.0, (k.1 + count) as u32)]
            },
    )
}

/// Row heights after rows are inserted at `at`.
pub open spec fn heights_inserted(h: Map<u32, u64>, at: u32, count: u32) -> Map<u32, u64> {
    Map::new(
        |r: u32|
            if r < at {
                h.contains_key(r)
            } else {
                r >= at + count && h.contains_key((r - count) as u32)
            },
        |r: u32|
            if r < at {
                h[r]
            } else {
                h[(r - count) as u32]
            },
    )
}

/// Row heights after the rows `at .. at + count` are removed.
pub open spec fn heights_removed(h: Map<u32, u64>, at: u32, count: u32) -> Map<u32, u64> {
    Map::new(
        |r: u32|
            if r < at {
                h.contains_key(r)
            } else {
                r + count <= u32::MAX && h.contains_key((r + count) as u32)
            },
        |r: u32|
            if r < at {
                h[r]
            } else {
                h[(r + count) as u32]
            },
    )
}

/// A cell whose formula was adjusted by `adjust`.
pub open spec fn adjusted_cell(c: CellDataView, f: Seq<char>) -> CellDataView {
    if c.is_formula {
        CellDataView { formula: f, ..c }
    } else {
        c
    }
}

/// The row of a comment after rows are inserted (`RowReference` adds
/// saturating at `u32::MAX`).
pub open spec fn comment_inserted(c: CommentView, at: u32, count: u32) -> CommentView {
    CommentView {
        row: if c.row >= at {
            if c.row + count <= u32::MAX {
                (c.row + count) as u32
            } else {
                u32::MAX
            }
        } else {
            c.row
        },
        ..c
    }
}

/// The row of a comment after rows are removed.
pub open spec fn comment_removed(c: CommentView, at: u32, count: u32) -> CommentView {
    CommentView {
        row: if c.row >= at {
            (c.row - count) as u32
        } else {
            c.row
        },
        ..c
    }
}

/// What the sheet `name` holds after `Worksheet::insert_new_row(at, count)`
/// (its extent aside).
pub open spec fn sheet_after_insert(sc: SheetContents, name: Seq<char>, at: u32, count: u32) -> SheetContents {
    SheetContents {
        extent: sc.extent,
        cells: rows_inserted(sc.cells, at, count).map_values(
            |c: CellDataView| adjusted_cell(c, formula_after_insert(c.formula, name, at, count)),
        ),
        heights: heights_inserted(sc.heights, at, count),
        merges: sc.merges.map_values(|m: Seq<char>| range_after_insert(m, at, count)),
        comments: sc.comments.map_values(|c: CommentView| comment_inserted(c, at, count)),
        hidden: sc.hidden,
        styles: rows_inserted(sc.styles, at, count),
        formats: sc.formats.map_values(|f: Seq<char>| sqref_after_insert(f, at, count)),
    }
}

/// What the sheet `name` holds after `Worksheet::remove_row(at, count)`
/// (its extent aside).
pub open spec fn sheet_after_remove(sc: SheetContents, name: Seq<char>, at: u32, count: u32) -> SheetContents {
    SheetContents {
        extent: sc.extent,
        cells: rows_removed(sc.cells, at, count).map_values(
            |c: CellDataView| adjusted_cell(c, formula_after_remove(c.formula, name, at, count)),
        ),
        heights: heights_removed(sc.heights, at, count),
        merges: sc.merges.filter(|m: Seq<char>| !range_removed(m, at, count)).map_values(
            |m: Seq<char>| range_after_remove(m, at, count),
        ),
        comments: sc.comments.filter(|c: CommentView| !(at <= c.row && c.row < at + count)).map_values(
            |c: CommentView| comment_removed(c, at, count),
        ),
        hidden: sc.hidden,
        styles: rows_removed(sc.styles, at, count),
        formats: sc.formats.filter(|f: Seq<char>| !sqref_removed(f, at, count)).map_values(
            |f: Seq<char>| sqref_after_remove(f, at, count),
        ),
    }
}

/// `sc` and `t` hold the same, their extents aside.
pub open spec fn same_but_extent(sc: SheetContents, t: SheetContents) -> bool {
    SheetContents { extent: t.extent, ..sc } == t
}

/// The rows an insertion of `count` rows at `at` moves stay within `u32`:
/// every row dimension (which `Row` moves with an unchecked addition) and
/// every cell at or past `at`.
pub open spec fn insert_fits(sc: SheetContents, at: u32, count: u32) -> bool {
    &&& forall|r: u32| #[trigger] sc.heights.contains_key(r) && r >= at ==> r + count <= u32::MAX
    &&& forall|k: (u32, u32)| #[trigger] sc.cells.contains_key(k) && k.1 >= at ==> k.1 + count <= u32::MAX
}

/// A removal of `count` rows at `at` can be made: `at` is a row, the
/// removed rows end within `u32` (`is_remove_coordinate` adds them
/// unchecked), and every formula of the sheet is [`removal_safe`]. The
/// formula checked is the one a cell shows (`CellFormula::text`, the
/// rebased text of a shared formula's follower); a follower's own stored
/// text, which the workbook keeps empty when it reads a file, is not.
pub open spec fn remove_fits(sc: SheetContents, at: u32, count: u32) -> bool {
    &&& at >= 1
    &&& at + count <= u32::MAX
    &&& forall|k: (u32, u32)|
        #[trigger] sc.cells.contains_key(k) && sc.cells[k].is_formula ==> removal_safe(sc.cells[k].formula)
}

/// `Worksheet::insert_new_row(at, count)` on the sheet: cells, styles and
/// row dimensions at or past row `at` move down by `count`, merged ranges
/// and comments move with them, the ranges of conditional formats are
/// adjusted, and every formula of the sheet is adjusted. Its effect on what
/// the engine does not read (drawings, defined names, the rules of
/// conditional formats) is not stated, nor is the sheet's extent.
#[verifier::external_body]
pub(crate) fn insert_rows(book: &mut umya_spreadsheet::Workbook, sheet: &str, at: u32, count: u32)
    requires
        workbook_sheets(*old(book)).contains_key(sheet@),
        insert_fits(workbook_sheets(*old(book))[sheet@], at, count),
    ensures
        others_kept(workbook_sheets(*old(book)), workbook_sheets(*final(book)), sheet@),
        sheet_titles(*final(book)) == sheet_titles(*old(book)),
        workbook_sheets(*final(book))[sheet@].cells == rows_inserted(
            workbook_sheets(*old(book))[sheet@].cells,
            at,
            count,
        ).map_values(|c: CellDataView| adjusted_cell(c, formula_after_insert(c.formula, sheet@, at, count))),
        workbook_sheets(*final(book))[sheet@].merges == workbook_sheets(*old(book))[sheet@].merges.map_values(
            |m: Seq<char>| range_after_insert(m, at, count),
        ),
        workbook_sheets(*final(book))[sheet@].formats == workbook_sheets(*old(book))[sheet@].formats.map_values(
            |f: Seq<char>| sqref_after_insert(f, at, count),
        ),
        same_but_extent(
            sheet_after_insert(workbook_sheets(*old(book))[sheet@], sheet@, at, count),
            workbook_sheets(*final(book))[sheet@],
        ),
{
    if let Ok(ws) = book.sheet_by_name_mut(sheet) {
        ws.insert_new_row(at, count);
    }
}

/// `Worksheet::remove_row(at, count)` on the sheet: cells, styles, row
/// dimensions and comments on the rows `at .. at + count` go, those past
/// them move up by `count`, merged ranges with a row among the removed ones
/// go and the others move, conditional formats on the removed rows go and
/// the ranges of the others are adjusted, and every formula of the sheet is
/// adjusted. Its effect on what the engine does not read (drawings, defined
/// names, the rules of conditional formats) is not stated, nor is the
/// sheet's extent.
#[verifier::external_body]
pub(crate) fn remove_rows(book: &mut umya_spreadsheet::Workbook, sheet: &str, at: u32, count: u32)
    requires
        workbook_sheets(*old(book)).contains_key(sheet@),
        remove_fits(workbook_sheets(*old(book))[sheet@], at, count),
    ensures
        others_kept(workbook_sheets(*old(book)), workbook_sheets(*final(book)), sheet@),
        sheet_titles(*final(book)) == sheet_titles(*old(book)),
        workbook_sheets(*final(book))[sheet@].cells == rows_removed(
            workbook_sheets(*old(book))[sheet@].cells,
            at,
            count,
        ).map_values(|c: CellDataView| adjusted_cell(c, formula_after_remove(c.formula, sheet@, at, count))),
        workbook_sheets(*final(book))[sheet@].merges == workbook_sheets(*old(book))[sheet@].merges.filter(
            |m: Seq<char>| !range_removed(m, at, count),
        ).map_values(|m: Seq<char>| range_after_remove(m, at, count)),
        workbook_sheets(*final(book))[sheet@].formats == workbook_sheets(*old(book))[sheet@].formats.filter(
            |f: Seq<char>| !sqref_removed(f, at, count),
        ).map_values(|f: Seq<char>| sqref_after_remove(f, at, count)),
        same_but_extent(
            sheet_after_remove(workbook_sheets(*old(book))[sheet@], sheet@, at, count),
            workbook_sheets(*final(book))[sheet@],
        ),
{
    if let Ok(ws) = book.sheet_by_name_mut(sheet) {
        ws.remove_row(at, count);
    }
}

/// The row numbers of the sheet's row dimensions
/// (`Worksheet::row_dimensions`), in the order they come.
#[verifier::external_body]
pub(crate) fn row_dimension_rows(book: &umya_spreadsheet::Workbook, sheet: &str) -> (r: Vec<u32>)
    requires
        workbook_sheets(*book).contains_key(sheet@),
    ensures
        forall|i: int| 0 <= i < r@.len() ==> workbook_sheets(*book)[sheet@].heights.contains_key(#[trigger] r@[i]),
        forall|h: u32|
            #[trigger] workbook_sheets(*book)[sheet@].heights.contains_key(h) ==> exists|i: int|
                0 <= i < r@.len() && r@[i] == h,
{
    match book.sheet_by_name(sheet) {
        Ok(ws) => ws.row_dimensions().iter().map(|d| d.row_num()).collect(),
        Err(_) => Vec::new(),
    }
}

/// `Column::set_hidden(true)` on the dimension of column `col`: the column
/// is hidden, nothing else of the sheet changes.
#[verifier::external_body]
pub(crate) fn hide_column(book: &mut umya_spreadsheet::Workbook, sheet: &str, col: u32)
    requires
        workbook_sheets(*old(book)).contains_key(sheet@),
    ensures
        others_kept(workbook_sheets(*old(book)), workbook_sheets(*final(book)), sheet@),
        sheet_titles(*final(book)) == sheet_titles(*old(book)),
        workbook_sheets(*final(book))[sheet@] == (SheetContents {
            hidden: workbook_sheets(*old(book))[sheet@].hidden.insert(col),
            ..workbook_sheets(*old(book))[sheet@]
        }),
{
    if let Ok(ws) = book.sheet_by_name_mut(sheet) {
        ws.column_dimension_by_number_mut(col).set_hidden(true);
    }
}

/// Remove every comment of the sheet (`Worksheet::comments_mut().clear()`).
#[verifier::external_body]
pub(crate) fn clear_comments(book: &mut umya_spreadsheet::Workbook, sheet: &str)
    requires
        workbook_sheets(*old(book)).contains_key(sheet@),
    ensures
        others_kept(workbook_sheets(*old(book)), workbook_sheets(*final(book)), sheet@),
        sheet_titles(*final(book)) == sheet_titles(*old(book)),
        workbook_sheets(*final(book))[sheet@] == (SheetContents {
            comments: Seq::empty(),
            ..workbook_sheets(*old(book))[sheet@]
        }),
{
    if let Ok(ws) = book.sheet_by_name_mut(sheet) {
        ws.comments_mut().clear();
    }
}

/// `Cell::set_value` on the cell at `(col, row)`.
#[verifier::external_body]
pub(crate) fn set_cell_value(book: &mut umya_spreadsheet::Workbook, sheet: &str, col: u32, row: u32, value: String)
    requires
        workbook_sheets(*old(book)).contains_key(sheet@),
    ensures
        others_kept(workbook_sheets(*old(book)), workbook_sheets(*final(book)), sheet@),
        sheet_titles(*final(book)) == sheet_titles(*old(book)),
        cell_edit(
            workbook_sheets(*old(book))[sheet@],
            workbook_sheets(*final(book))[sheet@],
            col,
            row,
            CellDataView { is_formula: false, formula: Seq::empty(), value: typed_value_text(value@) },
        ),
        style_kept(workbook_sheets(*old(book))[sheet@], workbook_sheets(*final(book))[sheet@], (col, row)),
{
    if let Ok(ws) = book.sheet_by_name_mut(sheet) {
        ws.cell_mut((col, row)).set_value(value);
    }
}

/// `Cell::set_formula` on the cell at `(col, row)`.
#[verifier::external_body]
pub(crate) fn set_cell_formula(book: &mut umya_spreadsheet::Workbook, sheet: &str, col: u32, row: u32, formula: String)
    requires
        workbook_sheets(*old(book)).contains_key(sheet@),
    ensures
        others_kept(workbook_sheets(*old(book)), workbook_sheets(*final(book)), sheet@),
        sheet_titles(*final(book)) == sheet_titles(*old(book)),
        cell_edit(
            workbook_sheets(*old(book))[sheet@],
            workbook_sheets(*final(book))[sheet@],
            col,
            row,
            formula_cell(cell_or_blank(workbook_sheets(*old(book))[sheet@], (col, row)), formula@),
        ),
        style_kept(workbook_sheets(*old(book))[sheet@], workbook_sheets(*final(book))[sheet@], (col, row)),
{
    if let Ok(ws) = book.sheet_by_name_mut(sheet) {
        ws.cell_mut((col, row)).set_formula(formula);
    }
}

/// `Cell::set_style` with a clone of `style` (equal to it) on the cell at
/// `(col, row)`; the cell's formula and value are kept.
#[verifier::external_body]
pub(crate) fn set_cell_style(book: &mut umya_spreadsheet::Workbook, sheet: &str, col: u32, row: u32, style: &umya_spreadsheet::Style)
    requires
        workbook_sheets(*old(book)).contains_key(sheet@),
    ensures
        others_kept(workbook_sheets(*old(book)), workbook_sheets(*final(book)), sheet@),
        sheet_titles(*final(book)) == sheet_titles(*old(book)),
        cell_edit(
            workbook_sheets(*old(book))[sheet@],
            workbook_sheets(*final(book))[sheet@],
            col,
            row,
            cell_or_blank(workbook_sheets(*old(book))[sheet@], (col, row)),
        ),
        workbook_sheets(*final(book))[sheet@].styles.contains_key((col, row)),
        workbook_sheets(*final(book))[sheet@].styles[(col, row)] == *style,
{
    if let Ok(ws) = book.sheet_by_name_mut(sheet) {
        ws.cell_mut((col, row)).set_style(style.clone());
    }
}

/// `Row::set_height` of `row` to the height of `dimension`; the bit pattern
/// of that height (`to_bits`) is returned.
#[verifier::external_body]
pub(crate) fn set_row_height(book: &mut umya_spreadsheet::Workbook, sheet: &str, row: u32, dimension: &umya_spreadsheet::Row) -> (r: u64)
    requires
        workbook_sheets(*old(book)).contains_key(sheet@),
    ensures
        others_kept(workbook_sheets(*old(book)), workbook_sheets(*final(book)), sheet@),
        sheet_titles(*final(book)) == sheet_titles(*old(book)),
        workbook_sheets(*final(book))[sheet@] == (SheetContents {
            heights: workbook_sheets(*old(book))[sheet@].heights.insert(row, r),
            ..workbook_sheets(*old(book))[sheet@]
        }),
{
    let height = dimension.height();
    if let Ok(ws) = book.sheet_by_name_mut(sheet) {
        ws.row_dimension_mut(row).set_height(height);
    }
    height.to_bits()
}

/// `Worksheet::add_merge_cells(range)`: the range goes last among the
/// sheet's merged ranges.
#[verifier::external_body]
pub(crate) fn add_merge(book: &mut umya_spreadsheet::Workbook, sheet: &str, range: String)
    requires
        workbook_sheets(*old(book)).contains_key(sheet@),
        range_ok(range@),
    ensures
        others_kept(workbook_sheets(*old(book)), workbook_sheets(*final(book)), sheet@),
        sheet_titles(*final(book)) == sheet_titles(*old(book)),
        workbook_sheets(*final(book))[sheet@] == (SheetContents {
            merges: workbook_sheets(*old(book))[sheet@].merges.push(range_text(range@)),
            ..workbook_sheets(*old(book))[sheet@]
        }),
{
    if let Ok(ws) = book.sheet_by_name_mut(sheet) {
        ws.add_merge_cells(range);
    }
}

/// Keep the merged ranges `m` for which `keep_merge(m.range(), lo, hi)`
/// holds, in order (`Vec::retain` on `Worksheet::merge_cells_mut`).
#[verifier::external_body]
pub(crate) fn retain_merges(book: &mut umya_spreadsheet::Workbook, sheet: &str, lo: u32, hi: u32)
    requires
        workbook_sheets(*old(book)).contains_key(sheet@),
    ensures
        others_kept(workbook_sheets(*old(book)), workbook_sheets(*final(book)), sheet@),
        sheet_titles(*final(book)) == sheet_titles(*old(book)),
        workbook_sheets(*final(book))[sheet@] == (SheetContents {
            merges: workbook_sheets(*old(book))[sheet@].merges.filter(
                |m: Seq<char>| spec_keep_merge(m, lo, hi),
            ),
            ..workbook_sheets(*old(book))[sheet@]
        }),
{
    if let Ok(ws) = book.sheet_by_name_mut(sheet) {
        ws.merge_cells_mut().retain(|m| crate::xlsx_template::keep_merge(&m.range(), lo, hi));
    }
}

/// `(col, row, is_formula)` of every cell of the sheet (`Worksheet::cells`):
/// each entry is a cell of the sheet with its formula flag, and every cell
/// has an entry.
#[verifier::external_body]
pub(crate) fn cell_formula_flags(book: &umya_spreadsheet::Workbook, sheet: &str) -> (r: Vec<(u32, u32, bool)>)
    requires
        workbook_sheets(*book).contains_key(sheet@),
    ensures
        forall|i: int|
            0 <= i < r@.len() ==> workbook_sheets(*book)[sheet@].cells.contains_key(
                (#[trigger] r@[i].0, r@[i].1),
            ) && r@[i].2 == workbook_sheets(*book)[sheet@].cells[(r@[i].0, r@[i].1)].is_formula,
        forall|k: (u32, u32)|
            #[trigger] workbook_sheets(*book)[sheet@].cells.contains_key(k) ==> exists|i: int|
                0 <= i < r@.len() && r@[i].0 == k.0 && r@[i].1 == k.1,
{
    match book.sheet_by_name(sheet) {
        Ok(ws) => ws.cells().iter().map(|c| {
            (c.coordinate().col_num(), c.coordinate().row_num(), c.is_formula())
        }).collect(),
        Err(_) => Vec::new(),
    }
}

/// A formula cell after `Cell::set_formula_result_default("")`: its formula
/// kept, its cached value cleared.
pub open spec fn cleared_cell(prev: CellDataView) -> CellDataView {
    CellDataView { is_formula: true, formula: prev.formula, value: typed_value_text(Seq::empty()) }
}

/// `Cell::set_formula_result_default("")` on the formula cell at `(col, row)`.
#[verifier::external_body]
pub(crate) fn clear_formula_result(book: &mut umya_spreadsheet::Workbook, sheet: &str, col: u32, row: u32)
    requires
        workbook_sheets(*old(book)).contains_key(sheet@),
        workbook_sheets(*old(book))[sheet@].cells.contains_key((col, row)),
        workbook_sheets(*old(book))[sheet@].cells[(col, row)].is_formula,
    ensures
        others_kept(workbook_sheets(*old(book)), workbook_sheets(*final(book)), sheet@),
        sheet_titles(*final(book)) == sheet_titles(*old(book)),
        cell_edit(
            workbook_sheets(*old(book))[sheet@],
            workbook_sheets(*final(book))[sheet@],
            col,
            row,
            cleared_cell(workbook_sheets(*old(book))[sheet@].cells[(col, row)]),
        ),
        style_kept(workbook_sheets(*old(book))[sheet@], workbook_sheets(*final(book))[sheet@], (col, row)),
{
    if let Ok(ws) = book.sheet_by_name_mut(sheet) {
        ws.cell_mut((col, row)).set_formula_result_default("");
    }
}

/// The first of `titles` that is `name` is the one at `j`.
pub open spec fn first_titled(titles: Seq<Seq<char>>, name: Seq<char>, j: int) -> bool {
    titles[j] == name && forall|k: int| 0 <= k < j ==> titles[k] != name
}

/// `Worksheet::set_name(name)` on the sheet `Workbook::sheet_by_name` finds
/// (the first titled `sheet`): that title becomes `name`. Where no sheet is
/// titled `name`, the sheet is found under `name` and every sheet under
/// another title than the two as before. Only titled sheets are found.
#[verifier::external_body]
pub(crate) fn rename_sheet(book: &mut umya_spreadsheet::Workbook, sheet: &str, name: &str)
    requires
        workbook_sheets(*old(book)).contains_key(sheet@),
    ensures
        sheet_titles(*final(book)).len() == sheet_titles(*old(book)).len(),
        forall|j: int|
            0 <= j < sheet_titles(*old(book)).len() ==> #[trigger] sheet_titles(*final(book))[j] == if first_titled(
                sheet_titles(*old(book)),
                sheet@,
                j,
            ) {
                name@
            } else {
                sheet_titles(*old(book))[j]
            },
        forall|n: Seq<char>|
            #[trigger] workbook_sheets(*final(book)).contains_key(n) ==> sheet_titles(*final(book)).contains(n),
        !sheet_titles(*old(book)).contains(name@) ==> {
            &&& workbook_sheets(*final(book)).contains_key(name@)
            &&& workbook_sheets(*final(book))[name@] == workbook_sheets(*old(book))[sheet@]
            &&& forall|n: Seq<char>|
                n != sheet@ && n != name@ ==> (#[trigger] workbook_sheets(*final(book)).contains_key(n)
                    <==> workbook_sheets(*old(book)).contains_key(n))
            &&& forall|n: Seq<char>|
                n != sheet@ && workbook_sheets(*old(book)).contains_key(n) ==> #[trigger] workbook_sheets(
                    *final(book),
                )[n] == workbook_sheets(*old(book))[n]
        },
{
    if let Ok(ws) = book.sheet_by_name_mut(sheet) {
        ws.set_name(name);
    }
}

} // verus!
