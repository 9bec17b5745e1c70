//! What filling a template does to its sheet, decided over plain values.
//!
//! [`plan_fill`] takes the template model and the data sheet and returns every
//! edit the engine makes: how the detail band is resized, which parameter cells
//! of the `header`/`footer` rows receive which data, which merges inside the
//! band are dropped, what each rendered detail row holds (values, row-shifted
//! formulas, merges, height), and the sheet's new name.

use vstd::prelude::*;
use crate::data::{FieldMap, RecordView, Sheet, SheetView};
use crate::text::{chars_of, push_all, str_eq, trim, trim_window, string_of, win};
use crate::xlsx_template::{
    cell_param_ok, find_schema, first_record_with, lemma_first_record_with, lemma_index_of_name, is_detail, is_detail_label, is_singleton, is_singleton_label,
    record_data, resolve_param, schema_of, spec_record_data, spec_resolve_param, strings_view,
    ParamView, RenderError, TplCellView, TplModel, TplModelView, TplRow, TplRowView,
};
use crate::xlsx_template::coords::{coord, coord_text, col_letters, lemma_column_round_trip};
use crate::xlsx_template::workbook::{count_char, lacks, range_ok};
use crate::text::{decimal, digit_char};
use crate::xlsx_template::formula::{scan_fits, spec_shift_rows, try_shift_rows};

verus! {

// ---------------------------------------------------------------------------
// The plan
// ---------------------------------------------------------------------------

/// How the detail band is resized to the number of detail records.
#[derive(Clone, Copy, Debug, PartialEq, Eq, Structural)]
pub enum Resize {
    /// The band already has one row per record.
    Keep,
    /// Insert `count` rows before row `at` (the band's last row).
    Insert { at: u32, count: u32 },
    /// Remove `count` rows starting at row `at` (the band's first row).
    Remove { at: u32, count: u32 },
}

/// The parameter values written on one `header`/`footer` row.
pub struct RowParams {
    /// The row they land on, after the band was resized.
    pub row: u32,
    /// `(column, value)` per parameter cell of the template row.
    pub values: Vec<(u32, String)>,
}

/// What a rendered detail cell holds.
pub enum CellContent {
    Formula(String),
    Value(String),
}

/// One cell of a rendered detail row, made from the template cell at the same
/// position of the source row (whose style it takes).
pub struct DetailCell {
    pub col: u32,
    pub content: CellContent,
}

/// One rendered detail row.
pub struct DetailRow {
    /// The sheet row it is written to.
    pub target: u32,
    /// The index, among the template rows, of the row it is made from.
    pub source: usize,
    /// The height to give the row (a bit pattern of `f64`), when its source
    /// row has one.
    pub height: Option<u64>,
    pub cells: Vec<DetailCell>,
    /// Merged ranges to add, e.g. `C12:E12`.
    pub merges: Vec<String>,
}

/// Every edit that filling a template makes.
pub struct FillPlan {
    pub resize: Resize,
    pub params: Vec<RowParams>,
    /// When set, merges lying within these rows are dropped (they are
    /// re-added per rendered row).
    pub band_rows: Option<(u32, u32)>,
    pub detail: Vec<DetailRow>,
    /// The sheet's new name, when it changes.
    pub rename: Option<String>,
}

pub struct RowParamsView {
    pub row: int,
    pub values: Seq<(u32, Seq<char>)>,
}

pub enum CellContentView {
    Formula(Seq<char>),
    Value(Seq<char>),
}

pub struct DetailCellView {
    pub col: u32,
    pub content: CellContentView,
}

pub struct DetailRowView {
    pub target: int,
    pub source: int,
    pub height: Option<u64>,
    pub cells: Seq<DetailCellView>,
    pub merges: Seq<Seq<char>>,
}

pub struct FillPlanView {
    pub resize: Resize,
    pub params: Seq<RowParamsView>,
    pub band_rows: Option<(u32, u32)>,
    pub detail: Seq<DetailRowView>,
    pub rename: Option<Seq<char>>,
}

pub open spec fn params_view(v: Seq<RowParams>) -> Seq<RowParamsView> {
    v.map_values(|p: RowParams| p@)
}

pub open spec fn detail_view(v: Seq<DetailRow>) -> Seq<DetailRowView> {
    v.map_values(|d: DetailRow| d@)
}

pub open spec fn values_view(v: Seq<(u32, String)>) -> Seq<(u32, Seq<char>)> {
    v.map_values(|e: (u32, String)| (e.0, e.1@))
}

impl View for RowParams {
    type V = RowParamsView;

    open spec fn view(&self) -> RowParamsView {
        RowParamsView { row: self.row as int, values: values_view(self.values@) }
    }
}

impl View for CellContent {
    type V = CellContentView;

    open spec fn view(&self) -> CellContentView {
        match self {
            CellContent::Formula(s) => CellContentView::Formula(s@),
            CellContent::Value(s) => CellContentView::Value(s@),
        }
    }
}

impl View for DetailCell {
    type V = DetailCellView;

    open spec fn view(&self) -> DetailCellView {
        DetailCellView { col: self.col, content: self.content@ }
    }
}

impl View for DetailRow {
    type V = DetailRowView;

    open spec fn view(&self) -> DetailRowView {
        DetailRowView {
            target: self.target as int,
            source: self.source as int,
            height: self.height,
            cells: self.cells@.map_values(|c: DetailCell| c@),
            merges: strings_view(self.merges@),
        }
    }
}

impl View for FillPlan {
    type V = FillPlanView;

    open spec fn view(&self) -> FillPlanView {
        FillPlanView {
            resize: self.resize,
            params: params_view(self.params@),
            band_rows: self.band_rows,
            detail: detail_view(self.detail@),
            rename: match self.rename {
                Some(s) => Some(s@),
                None => None,
            },
        }
    }
}

// ---------------------------------------------------------------------------
// The plan, as a specification
// ---------------------------------------------------------------------------

/// Indices of the detail rows among the first `n` template rows.
pub open spec fn detail_rows(rows: Seq<TplRowView>, n: nat) -> Seq<int>
    decreases n,
{
    if n == 0 {
        Seq::empty()
    } else {
        let prev = detail_rows(rows, (n - 1) as nat);
        if is_detail(rows[n - 1].label) {
            prev.push(n - 1)
        } else {
            prev
        }
    }
}

/// Indices of the `header`/`footer` rows among the first `n` template rows.
pub open spec fn singleton_rows(rows: Seq<TplRowView>, n: nat) -> Seq<int>
    decreases n,
{
    if n == 0 {
        Seq::empty()
    } else {
        let prev = singleton_rows(rows, (n - 1) as nat);
        if is_singleton(rows[n - 1].label) {
            prev.push(n - 1)
        } else {
            prev
        }
    }
}

/// Indices of the detail records among the first `n` data records.
pub open spec fn detail_records(records: Seq<RecordView>, n: nat) -> Seq<int>
    decreases n,
{
    if n == 0 {
        Seq::empty()
    } else {
        let prev = detail_records(records, (n - 1) as nat);
        if is_detail(records[n - 1].label) {
            prev.push(n - 1)
        } else {
            prev
        }
    }
}

pub open spec fn all_detail_rows(model: TplModelView) -> Seq<int> {
    detail_rows(model.rows, model.rows.len())
}

pub open spec fn all_detail_records(sheet: SheetView) -> Seq<int> {
    detail_records(sheet.records, sheet.records.len())
}

/// The number of detail records: the rows the band will have.
pub open spec fn detail_count(sheet: SheetView) -> nat {
    all_detail_records(sheet).len()
}

/// The detail band: first and last detail template row, and how many detail
/// template rows there are; `None` without detail rows.
pub open spec fn spec_band(model: TplModelView) -> Option<(u32, u32, nat)> {
    let d = all_detail_rows(model);
    if d.len() == 0 {
        None
    } else {
        Some((model.rows[d[0]].row, model.rows[d.last()].row, d.len()))
    }
}

/// Where a template row lands once the band is resized: rows below the band
/// move by the change in its height.
pub open spec fn out_row(model: TplModelView, sheet: SheetView, row: u32) -> int {
    match spec_band(model) {
        Some((_, end, h)) => if row > end {
            row + detail_count(sheet) - h
        } else {
            row as int
        },
        None => row as int,
    }
}

/// The band grows at its end or shrinks from its start to one row per
/// detail record.
pub open spec fn spec_resize(model: TplModelView, sheet: SheetView) -> Resize {
    let m = detail_count(sheet);
    match spec_band(model) {
        None => Resize::Keep,
        Some((start, end, h)) => if m > h {
            Resize::Insert { at: end, count: (m - h) as u32 }
        } else if m < h {
            Resize::Remove { at: start, count: (h - m) as u32 }
        } else {
            Resize::Keep
        },
    }
}

/// `(column, value)` of the parameter cells among the first `n` cells.
pub open spec fn param_values(
    cells: Seq<TplCellView>,
    schema: Option<Seq<Seq<char>>>,
    fields: Seq<Seq<char>>,
    named: Map<Seq<char>, Seq<char>>,
    n: nat,
) -> Seq<(u32, Seq<char>)>
    decreases n,
{
    if n == 0 {
        Seq::empty()
    } else {
        let prev = param_values(cells, schema, fields, named, (n - 1) as nat);
        let c = cells[n - 1];
        match c.param {
            Some(p) => prev.push((c.col, spec_resolve_param(p, schema, fields, named))),
            None => prev,
        }
    }
}

/// The parameter writes of the template row `ri` (a `header` or `footer`
/// row): its data is that of the first record with its label.
pub open spec fn row_params(model: TplModelView, sheet: SheetView, ri: int) -> RowParamsView {
    let r = model.rows[ri];
    let d = spec_record_data(sheet, r.label);
    RowParamsView {
        row: out_row(model, sheet, r.row),
        values: param_values(r.cells, schema_of(model.schemas, r.label), d.0, d.1, r.cells.len()),
    }
}

pub open spec fn params_of(model: TplModelView, sheet: SheetView, idx: Seq<int>) -> Seq<
    RowParamsView,
> {
    idx.map_values(|ri: int| row_params(model, sheet, ri))
}

/// The parameter writes of every `header`/`footer` row, in sheet order.
pub open spec fn spec_params(model: TplModelView, sheet: SheetView) -> Seq<RowParamsView> {
    params_of(model, sheet, singleton_rows(model.rows, model.rows.len()))
}

/// The position, in `idx`, of the first template row with `label`.
pub open spec fn first_with_label(rows: Seq<TplRowView>, idx: Seq<int>, label: Seq<char>) -> Option<
    int,
>
    decreases idx.len(),
{
    if idx.len() == 0 {
        None
    } else if rows[idx[0]].label == label {
        Some(0)
    } else {
        match first_with_label(rows, idx.drop_first(), label) {
            Some(k) => Some(k + 1),
            None => None,
        }
    }
}

/// The template row that the `i`-th detail record is rendered from: the
/// first detail row with its label, else the band's rows in turn.
pub open spec fn source_row(model: TplModelView, sheet: SheetView, i: int) -> int {
    let d = all_detail_rows(model);
    let rec = sheet.records[all_detail_records(sheet)[i]];
    match first_with_label(model.rows, d, rec.label) {
        Some(k) => d[k],
        None => d[i % (d.len() as int)],
    }
}

/// What a detail cell holds: a formula row-shifted by `delta`, the data of a
/// parameter cell, or the template value.
pub open spec fn detail_content(
    c: TplCellView,
    delta: int,
    schema: Option<Seq<Seq<char>>>,
    rec: RecordView,
) -> CellContentView {
    if c.is_formula {
        CellContentView::Formula(spec_shift_rows(c.content, delta))
    } else {
        match c.param {
            Some(p) => CellContentView::Value(spec_resolve_param(p, schema, rec.fields, rec.named)),
            None => CellContentView::Value(c.content),
        }
    }
}

/// The text of a single-row merge placed on `row`: `C12:E12`.
pub open spec fn merge_text(m: (u32, u32), row: nat) -> Seq<char> {
    coord_text(m.0 as nat, row) + seq![':'] + coord_text(m.1 as nat, row)
}

pub open spec fn detail_cells(
    cells: Seq<TplCellView>,
    delta: int,
    schema: Option<Seq<Seq<char>>>,
    rec: RecordView,
) -> Seq<DetailCellView> {
    cells.map_values(
        |c: TplCellView| DetailCellView { col: c.col, content: detail_content(c, delta, schema, rec) },
    )
}

pub open spec fn detail_merges(merges: Seq<(u32, u32)>, row: nat) -> Seq<Seq<char>> {
    merges.map_values(|m: (u32, u32)| merge_text(m, row))
}

/// The first row of the detail band.
pub open spec fn band_start(model: TplModelView) -> u32 {
    match spec_band(model) {
        Some((start, _, _)) => start,
        None => 0,
    }
}

/// The `i`-th rendered detail row: the `i`-th detail record, on the `i`-th
/// row of the band.
pub open spec fn detail_row(model: TplModelView, sheet: SheetView, i: int) -> DetailRowView {
    let start = band_start(model);
    let si = source_row(model, sheet, i);
    let src = model.rows[si];
    let rec = sheet.records[all_detail_records(sheet)[i]];
    let target = start + i;
    DetailRowView {
        target,
        source: si,
        height: src.height,
        cells: detail_cells(
            src.cells,
            target - src.row,
            schema_of(model.schemas, src.label),
            rec,
        ),
        merges: detail_merges(src.merges, target as nat),
    }
}

/// The rendered detail rows (none without a band or detail records).
pub open spec fn spec_detail(model: TplModelView, sheet: SheetView) -> Seq<DetailRowView> {
    if spec_band(model) is Some && detail_count(sheet) > 0 {
        Seq::new(detail_count(sheet), |i: int| detail_row(model, sheet, i))
    } else {
        Seq::empty()
    }
}

/// The rows of the resized band.
pub open spec fn spec_band_rows(model: TplModelView, sheet: SheetView) -> Option<(u32, u32)> {
    match spec_band(model) {
        Some((start, _, _)) => if detail_count(sheet) > 0 {
            Some((start, (start + detail_count(sheet) - 1) as u32))
        } else {
            None
        },
        None => None,
    }
}

/// The output title: the sheet's trimmed title, or the template name when
/// the title is blank.
pub open spec fn spec_title(sheet: SheetView) -> Seq<char> {
    if trim(sheet.title).len() == 0 {
        sheet.template
    } else {
        trim(sheet.title)
    }
}

/// The new sheet name, when it differs from the template sheet's.
pub open spec fn spec_rename(sheet: SheetView) -> Option<Seq<char>> {
    if spec_title(sheet) != sheet.template {
        Some(spec_title(sheet))
    } else {
        None
    }
}

/// The plan of a fill.
pub open spec fn spec_plan(model: TplModelView, sheet: SheetView) -> FillPlanView {
    FillPlanView {
        resize: spec_resize(model, sheet),
        params: spec_params(model, sheet),
        band_rows: spec_band_rows(model, sheet),
        detail: spec_detail(model, sheet),
        rename: spec_rename(sheet),
    }
}

/// The `header`/`footer` row `ri` lands on a row that exists.
pub open spec fn singleton_fits(model: TplModelView, sheet: SheetView, ri: int) -> bool {
    0 <= out_row(model, sheet, model.rows[ri].row) <= u32::MAX
}

/// Every formula of the `i`-th rendered detail row can be row-shifted.
pub open spec fn detail_fits(model: TplModelView, sheet: SheetView, i: int) -> bool {
    let start = band_start(model);
    let src = model.rows[source_row(model, sheet, i)];
    let delta = start + i - src.row;
    forall|k: int|
        0 <= k < src.cells.len() && (#[trigger] src.cells[k]).is_formula && delta != 0
            ==> scan_fits(src.cells[k].content, 0, delta)
}

/// The inputs on which a fill can be carried out: every row it computes
/// fits a sheet row number, and every shifted formula row fits an `i64`.
pub open spec fn plan_ok(model: TplModelView, sheet: SheetView) -> bool {
    let m = detail_count(sheet);
    let s = singleton_rows(model.rows, model.rows.len());
    &&& m <= u32::MAX
    &&& spec_band(model) matches Some((start, _, h)) ==> {
        &&& h <= u32::MAX
        &&& m > 0 ==> start + m - 1 <= u32::MAX
    }
    &&& forall|k: int| 0 <= k < s.len() ==> #[trigger] singleton_fits(model, sheet, s[k])
    &&& (spec_band(model) is Some && m > 0) ==> forall|i: int|
        0 <= i < m ==> #[trigger] detail_fits(model, sheet, i)
}

// ---------------------------------------------------------------------------
// The rendered detail rows
// ---------------------------------------------------------------------------

/// The `i`-th rendered detail row is made from a template row of the model,
/// with one cell per cell of that row and its merges placed on its target.
pub open spec fn detail_row_shaped(model: TplModelView, sheet: SheetView, i: int) -> bool {
    let d = spec_detail(model, sheet)[i];
    &&& 0 <= d.source < model.rows.len()
    &&& d.cells.len() == model.rows[d.source].cells.len()
    &&& d.target == band_start(model) + i
    &&& d.height == model.rows[d.source].height
    &&& forall|k: int|
        0 <= k < d.cells.len() ==> #[trigger] d.cells[k].col == model.rows[d.source].cells[k].col
    &&& d.merges.len() == model.rows[d.source].merges.len()
    &&& forall|q: int|
        0 <= q < d.merges.len() ==> #[trigger] d.merges[q] == merge_text(
            model.rows[d.source].merges[q],
            d.target as nat,
        )
}

pub proof fn lemma_detail_rows_shaped(model: TplModelView, sheet: SheetView)
    ensures
        forall|i: int|
            0 <= i < spec_detail(model, sheet).len() ==> #[trigger] detail_row_shaped(model, sheet, i),
{
    assert forall|i: int| 0 <= i < spec_detail(model, sheet).len() implies #[trigger] detail_row_shaped(
        model,
        sheet,
        i,
    ) by {
        let dr = all_detail_rows(model);
        lemma_detail_rows(model.rows, model.rows.len());
        let rec = sheet.records[all_detail_records(sheet)[i]];
        lemma_first_with_label(model.rows, dr, rec.label);
        assert(dr.len() > 0);
        let si = source_row(model, sheet, i);
        match first_with_label(model.rows, dr, rec.label) {
            Some(k) => {
                assert(si == dr[k]);
            },
            None => {
                assert(0 <= i % (dr.len() as int) < dr.len());
            },
        }
        assert(0 <= si < model.rows.len());
    }
}

/// A `#name` parameter cell of a rendered detail row takes the value of the
/// named field `name` of the detail record the row renders, wherever that
/// record has such a field (whatever its positional fields and schema).
pub proof fn law_detail_named_field(model: TplModelView, sheet: SheetView, i: int, k: int, name: Seq<char>)
    requires
        0 <= i < spec_plan(model, sheet).detail.len(),
        ({
            let src = model.rows[spec_plan(model, sheet).detail[i].source];
            &&& 0 <= k < src.cells.len()
            &&& !src.cells[k].is_formula
            &&& src.cells[k].param == Some(ParamView::Named(name))
        }),
        sheet.records[all_detail_records(sheet)[i]].named.contains_key(name),
    ensures
        spec_plan(model, sheet).detail[i].cells[k].content == CellContentView::Value(
            sheet.records[all_detail_records(sheet)[i]].named[name],
        ),
        spec_plan(model, sheet).detail[i].cells[k].col == model.rows[spec_plan(
            model,
            sheet,
        ).detail[i].source].cells[k].col,
{
    lemma_detail_rows_shaped(model, sheet);
    assert(detail_row_shaped(model, sheet, i));
}

/// A `#n` parameter cell of a rendered detail row takes the `n`-th
/// positional field of the detail record the row renders (empty where the
/// record has fewer fields); a `#name` cell whose record has no such named
/// field takes the field at the first position of `name` in the schema of
/// the row's label (empty where there is none).
pub proof fn law_detail_positional_field(model: TplModelView, sheet: SheetView, i: int, k: int)
    requires
        0 <= i < spec_plan(model, sheet).detail.len(),
        ({
            let src = model.rows[spec_plan(model, sheet).detail[i].source];
            &&& 0 <= k < src.cells.len()
            &&& !src.cells[k].is_formula
            &&& src.cells[k].param is Some
            &&& cell_param_ok(src.cells[k])
        }),
    ensures
        ({
            let src = model.rows[spec_plan(model, sheet).detail[i].source];
            let rec = sheet.records[all_detail_records(sheet)[i]];
            let content = spec_plan(model, sheet).detail[i].cells[k].content;
            match src.cells[k].param->0 {
                ParamView::Indexed(n) => content == CellContentView::Value(
                    if 1 <= n <= rec.fields.len() {
                        rec.fields[n - 1]
                    } else {
                        Seq::empty()
                    },
                ),
                ParamView::Named(name) => !rec.named.contains_key(name) ==> match schema_of(
                    model.schemas,
                    src.label,
                ) {
                    Some(names) => ((forall|q: int| 0 <= q < names.len() ==> names[q] != name)
                        ==> content == CellContentView::Value(Seq::empty())) && (forall|q: int|
                        0 <= q < names.len() && names[q] == name && (forall|r: int|
                            0 <= r < q ==> names[r] != name) ==> content == CellContentView::Value(
                            if q < rec.fields.len() {
                                rec.fields[q]
                            } else {
                                Seq::empty()
                            },
                        )),
                    None => content == CellContentView::Value(Seq::empty()),
                },
            }
        }),
{
    lemma_detail_rows_shaped(model, sheet);
    assert(detail_row_shaped(model, sheet, i));
    let src = model.rows[spec_plan(model, sheet).detail[i].source];
    if let ParamView::Named(name) = src.cells[k].param->0 {
        if let Some(names) = schema_of(model.schemas, src.label) {
            lemma_index_of_name(names, name);
        }
    }
}

proof fn lemma_param_values_has(
    cells: Seq<TplCellView>,
    schema: Option<Seq<Seq<char>>>,
    fields: Seq<Seq<char>>,
    named: Map<Seq<char>, Seq<char>>,
    n: nat,
    k: int,
)
    requires
        0 <= k < n <= cells.len(),
        cells[k].param is Some,
    ensures
        param_values(cells, schema, fields, named, n).contains(
            (cells[k].col, spec_resolve_param(cells[k].param->0, schema, fields, named)),
        ),
    decreases n,
{
    let prev = param_values(cells, schema, fields, named, (n - 1) as nat);
    let v = (cells[k].col, spec_resolve_param(cells[k].param->0, schema, fields, named));
    if k < n - 1 {
        lemma_param_values_has(cells, schema, fields, named, (n - 1) as nat, k);
        let w = choose|w: int| 0 <= w < prev.len() && prev[w] == v;
        if cells[n - 1].param is Some {
            assert(param_values(cells, schema, fields, named, n)[w] == v);
        }
    } else {
        assert(param_values(cells, schema, fields, named, n).last() == v);
    }
}

/// A `#name` parameter cell of a `header`/`footer` row takes the value of
/// the named field `name` of the first record labelled like the row,
/// wherever that record has such a field.
pub proof fn law_row_param_named_field(
    model: TplModelView,
    sheet: SheetView,
    ri: int,
    k: int,
    name: Seq<char>,
    j: int,
)
    requires
        0 <= ri < model.rows.len(),
        0 <= k < model.rows[ri].cells.len(),
        model.rows[ri].cells[k].param == Some(ParamView::Named(name)),
        0 <= j < sheet.records.len(),
        sheet.records[j].label == model.rows[ri].label,
        forall|q: int| 0 <= q < j ==> sheet.records[q].label != model.rows[ri].label,
        sheet.records[j].named.contains_key(name),
    ensures
        row_params(model, sheet, ri).values.contains(
            (model.rows[ri].cells[k].col, sheet.records[j].named[name]),
        ),
{
    let r = model.rows[ri];
    lemma_first_record_with(sheet.records, r.label);
    assert(first_record_with(sheet.records, r.label) == Some(j));
    lemma_param_values_has(
        r.cells,
        schema_of(model.schemas, r.label),
        sheet.records[j].fields,
        sheet.records[j].named,
        r.cells.len(),
        k,
    );
}

proof fn lemma_decimal_digits(n: nat)
    ensures
        forall|i: int| 0 <= i < decimal(n).len() ==> '0' <= #[trigger] decimal(n)[i] <= '9',
    decreases n,
{
    if n >= 10 {
        lemma_decimal_digits(n / 10);
        let s = decimal(n);
        assert forall|i: int| 0 <= i < s.len() implies '0' <= #[trigger] s[i] <= '9' by {
            if i < s.len() - 1 {
                assert(s[i] == decimal(n / 10)[i]);
            }
        }
    }
}

proof fn lemma_count_concat(a: Seq<char>, b: Seq<char>, c: char)
    ensures
        count_char(a + b, c) == count_char(a, c) + count_char(b, c),
    decreases b.len(),
{
    if b.len() > 0 {
        lemma_count_concat(a, b.drop_last(), c);
        assert((a + b).drop_last() =~= a + b.drop_last());
    } else {
        assert(a + b =~= a);
    }
}

proof fn lemma_count_absent(s: Seq<char>, c: char)
    requires
        lacks(s, c),
    ensures
        count_char(s, c) == 0,
    decreases s.len(),
{
    if s.len() > 0 {
        lemma_count_absent(s.drop_last(), c);
    }
}

proof fn lemma_coord_text_plain(col: u32, row: nat)
    ensures
        lacks(coord_text(col as nat, row), '!'),
        lacks(coord_text(col as nat, row), ':'),
{
    lemma_column_round_trip(col as nat);
    lemma_decimal_digits(row);
    let l = col_letters(col as nat);
    let s = coord_text(col as nat, row);
    assert forall|i: int| 0 <= i < s.len() implies s[i] != '!' && s[i] != ':' by {
        if i < l.len() {
            assert(s[i] == l[i]);
        } else {
            assert(s[i] == decimal(row)[i - l.len()]);
        }
    }
}

/// The merge text of a rendered detail row is a range `Range::set_range`
/// accepts.
pub proof fn lemma_merge_text_ok(m: (u32, u32), row: nat)
    ensures
        range_ok(merge_text(m, row)),
{
    let a = coord_text(m.0 as nat, row);
    let b = coord_text(m.1 as nat, row);
    lemma_coord_text_plain(m.0, row);
    lemma_coord_text_plain(m.1, row);
    let s = merge_text(m, row);
    assert(s =~= a + seq![':'] + b);
    assert forall|i: int| 0 <= i < s.len() implies s[i] != '!' by {
        if i < a.len() {
            assert(s[i] == a[i]);
        } else if i > a.len() {
            assert(s[i] == b[i - a.len() - 1]);
        }
    }
    let colon: Seq<char> = seq![':'];
    assert(count_char(colon, ':') == 1) by {
        assert(colon.drop_last() =~= Seq::<char>::empty());
        assert(count_char(Seq::<char>::empty(), ':') == 0);
        assert(colon.last() == ':');
    }
    lemma_count_absent(a, ':');
    lemma_count_absent(b, ':');
    lemma_count_concat(a + colon, b, ':');
    lemma_count_concat(a, colon, ':');
}

// ---------------------------------------------------------------------------
// Index lists
// ---------------------------------------------------------------------------

pub open spec fn as_ints(v: Seq<usize>) -> Seq<int> {
    v.map_values(|x: usize| x as int)
}

/// The selected indices lie below `n`, in increasing order.
pub open spec fn indices_below(idx: Seq<int>, n: int) -> bool {
    &&& forall|k: int| 0 <= k < idx.len() ==> 0 <= #[trigger] idx[k] < n
    &&& forall|a: int, b: int| 0 <= a < b < idx.len() ==> idx[a] < idx[b]
}

pub proof fn lemma_detail_rows(rows: Seq<TplRowView>, n: nat)
    requires
        n <= rows.len(),
    ensures
        indices_below(detail_rows(rows, n), n as int),
        detail_rows(rows, n).len() <= n,
        forall|k: int|
            0 <= k < detail_rows(rows, n).len() ==> is_detail(
                rows[#[trigger] detail_rows(rows, n)[k]].label,
            ),
    decreases n,
{
    if n > 0 {
        lemma_detail_rows(rows, (n - 1) as nat);
    }
}

pub proof fn lemma_singleton_rows(rows: Seq<TplRowView>, n: nat)
    requires
        n <= rows.len(),
    ensures
        indices_below(singleton_rows(rows, n), n as int),
        singleton_rows(rows, n).len() <= n,
    decreases n,
{
    if n > 0 {
        lemma_singleton_rows(rows, (n - 1) as nat);
    }
}

pub proof fn lemma_detail_records(records: Seq<RecordView>, n: nat)
    requires
        n <= records.len(),
    ensures
        indices_below(detail_records(records, n), n as int),
        detail_records(records, n).len() <= n,
    decreases n,
{
    if n > 0 {
        lemma_detail_records(records, (n - 1) as nat);
    }
}

/// Indices of the detail template rows.
fn detail_row_indices(model: &TplModel) -> (r: Vec<usize>)
    ensures
        as_ints(r@) == all_detail_rows(model@),
{
    let ghost rows = model@.rows;
    let mut r: Vec<usize> = Vec::new();
    let mut i: usize = 0;
    while i < model.rows.len()
        invariant
            i <= model.rows@.len(),
            rows == model@.rows,
            as_ints(r@) == detail_rows(rows, i as nat),
        decreases model.rows@.len() - i,
    {
        assert(rows[i as int] == model.rows@[i as int]@);
        if is_detail_label(model.rows[i].label.as_str()) {
            r.push(i);
        }
        assert(as_ints(r@) =~= detail_rows(rows, (i + 1) as nat));
        i = i + 1;
    }
    r
}

/// Indices of the detail data records.
fn detail_record_indices(sheet: &Sheet) -> (r: Vec<usize>)
    ensures
        as_ints(r@) == all_detail_records(sheet@),
{
    let ghost recs = sheet@.records;
    let mut r: Vec<usize> = Vec::new();
    let mut i: usize = 0;
    while i < sheet.records.len()
        invariant
            i <= sheet.records@.len(),
            recs == sheet@.records,
            as_ints(r@) == detail_records(recs, i as nat),
        decreases sheet.records@.len() - i,
    {
        assert(recs[i as int] == sheet.records@[i as int]@);
        if is_detail_label(sheet.records[i].label.as_str()) {
            r.push(i);
        }
        assert(as_ints(r@) =~= detail_records(recs, (i + 1) as nat));
        i = i + 1;
    }
    r
}

// ---------------------------------------------------------------------------
// The plan, executable
// ---------------------------------------------------------------------------

/// A schema reference, as plain values.
pub open spec fn schema_view(schema: Option<&Vec<String>>) -> Option<Seq<Seq<char>>> {
    match schema {
        Some(v) => Some(strings_view(v@)),
        None => None,
    }
}

/// Every parameter of the row can be resolved.
pub open spec fn row_params_ok(row: TplRowView) -> bool {
    forall|k: int| 0 <= k < row.cells.len() ==> cell_param_ok(#[trigger] row.cells[k])
}

/// The `(column, value)` pairs of the row's parameter cells.
fn row_param_values(
    row: &TplRow,
    schema: Option<&Vec<String>>,
    fields: &[String],
    named: &FieldMap,
) -> (r: Vec<(u32, String)>)
    requires
        row_params_ok(row@),
    ensures
        values_view(r@) == param_values(
            row@.cells,
            schema_view(schema),
            strings_view(fields@),
            named@,
            row@.cells.len(),
        ),
{
    let ghost cells = row@.cells;
    let mut r: Vec<(u32, String)> = Vec::new();
    let mut k: usize = 0;
    while k < row.cells.len()
        invariant
            k <= row.cells@.len(),
            cells == row@.cells,
            row_params_ok(row@),
            values_view(r@) == param_values(
                cells,
                schema_view(schema),
                strings_view(fields@),
                named@,
                k as nat,
            ),
        decreases row.cells@.len() - k,
    {
        let cell = &row.cells[k];
        assert(cells[k as int] == cell@);
        assert(cell_param_ok(cells[k as int]));
        match &cell.param {
            Some(p) => {
                let v = resolve_param(p, schema, fields, named);
                r.push((cell.col, v));
            },
            None => {},
        }
        assert(values_view(r@) =~= param_values(
            cells,
            schema_view(schema),
            strings_view(fields@),
            named@,
            (k + 1) as nat,
        ));
        k = k + 1;
    }
    r
}

pub proof fn lemma_first_with_label(rows: Seq<TplRowView>, idx: Seq<int>, label: Seq<char>)
    ensures
        first_with_label(rows, idx, label) matches Some(k) ==> 0 <= k < idx.len()
            && rows[idx[k]].label == label && forall|j: int|
            0 <= j < k ==> rows[idx[j]].label != label,
        first_with_label(rows, idx, label) is None ==> forall|j: int|
            0 <= j < idx.len() ==> rows[idx[j]].label != label,
    decreases idx.len(),
{
    if idx.len() > 0 {
        lemma_first_with_label(rows, idx.drop_first(), label);
        if rows[idx[0]].label != label {
            assert forall|j: int| 1 <= j < idx.len() implies idx[j] == idx.drop_first()[j - 1] by {}
        }
    }
}

/// The position, among the detail rows, of the first one with `label`.
fn first_label_position(model: &TplModel, drows: &Vec<usize>, label: &str) -> (r: Option<usize>)
    requires
        as_ints(drows@) == all_detail_rows(model@),
    ensures
        match first_with_label(model@.rows, all_detail_rows(model@), label@) {
            Some(k) => r == Some(k as usize),
            None => r is None,
        },
{
    let ghost mv = model@;
    let ghost d = all_detail_rows(mv);
    proof {
        lemma_detail_rows(mv.rows, mv.rows.len());
        lemma_first_with_label(mv.rows, d, label@);
    }
    let mut k: usize = 0;
    while k < drows.len()
        invariant
            k <= drows@.len(),
            as_ints(drows@) == d,
            d == all_detail_rows(mv),
            mv == model@,
            forall|j: int| 0 <= j < k ==> mv.rows[d[j]].label != label@,
            indices_below(d, mv.rows.len() as int),
        decreases drows@.len() - k,
    {
        assert(as_ints(drows@)[k as int] == drows@[k as int] as int);
        assert(mv.rows[d[k as int]] == model.rows@[drows@[k as int] as int]@);
        if str_eq(model.rows[drows[k]].label.as_str(), label) {
            proof {
                lemma_first_with_label(mv.rows, d, label@);
                if let Some(q) = first_with_label(mv.rows, d, label@) {
                    if q < k {
                        assert(mv.rows[d[q]].label != label@);
                    }
                    if q > k {
                        assert(mv.rows[d[k as int]].label == label@);
                    }
                }
            }
            return Some(k);
        }
        k = k + 1;
    }
    proof {
        lemma_first_with_label(mv.rows, d, label@);
    }
    None
}

/// Build the `i`-th rendered detail row.
fn build_detail_row(
    model: &TplModel,
    sheet: &Sheet,
    drows: &Vec<usize>,
    drecs: &Vec<usize>,
    start: u32,
    i: usize,
) -> (r: Result<DetailRow, RenderError>)
    requires
        model.wf(),
        as_ints(drows@) == all_detail_rows(model@),
        as_ints(drecs@) == all_detail_records(sheet@),
        drows@.len() > 0,
        start == model@.rows[all_detail_rows(model@)[0]].row,
        i < drecs@.len(),
        start + i <= u32::MAX,
    ensures
        match r {
            Ok(d) => detail_fits(model@, sheet@, i as int) && d@ == detail_row(
                model@,
                sheet@,
                i as int,
            ),
            Err(e) => !detail_fits(model@, sheet@, i as int) && e == RenderError::RowOverflow,
        },
{
    let ghost mv = model@;
    let ghost sv = sheet@;
    let ghost d = all_detail_rows(mv);
    let ghost dr = all_detail_records(sv);
    proof {
        lemma_detail_rows(mv.rows, mv.rows.len());
        lemma_detail_records(sv.records, sv.records.len());
        assert(as_ints(drecs@)[i as int] == drecs@[i as int] as int);
    }
    let rec = &sheet.records[drecs[i]];
    assert(sv.records[dr[i as int]] == rec@);
    let ghost label = rec@.label;
    proof {
        lemma_first_with_label(mv.rows, d, label);
    }
    let pos = first_label_position(model, drows, rec.label.as_str());
    let nd = drows.len();
    let ghost expected = source_row(mv, sv, i as int);
    let ghost rl = sv.records[dr[i as int]].label;
    assert(rl == rec.label@);
    let src_idx: usize = match pos {
        Some(k) => {
            assert(as_ints(drows@)[k as int] == drows@[k as int] as int);
            proof {
                lemma_first_with_label(mv.rows, d, rl);
                assert(d.len() == drows@.len());
                let fw = first_with_label(model@.rows, all_detail_rows(model@), rec.label@);
                assert(fw is Some);
                assert(fw->0 < d.len());
                assert(fw->0 >= 0);
                assert(fw->0 < nd);
                assert(fw == Some(k as int));
                assert(first_with_label(mv.rows, d, rl) == Some(k as int));
                assert(drows@[k as int] as int == expected);
            }
            drows[k]
        },
        None => {
            assert(as_ints(drows@)[(i as int) % (drows@.len() as int)] == drows@[(i as int) % (
            drows@.len() as int)] as int);
            drows[i % drows.len()]
        },
    };
    assert(src_idx as int == source_row(mv, sv, i as int));
    let src = &model.rows[src_idx];
    assert(mv.rows[src_idx as int] == src@);
    let target: u32 = start + i as u32;
    let delta: i64 = target as i64 - src.row as i64;
    assert(band_start(mv) == start);
    let schema = find_schema(&model.schemas, src.label.as_str());
    let ghost sch = schema_of(mv.schemas, src@.label);
    assert(schema_view(schema) == sch);
    let ghost want = detail_cells(src@.cells, delta as int, sch, rec@);
    let mut cells: Vec<DetailCell> = Vec::new();
    let mut c: usize = 0;
    while c < src.cells.len()
        invariant
            c <= src.cells@.len(),
            mv == model@,
            model.wf(),
            mv.rows[src_idx as int] == src@,
            src_idx < mv.rows.len(),
            want == detail_cells(src@.cells, delta as int, sch, rec@),
            schema_view(schema) == sch,
            band_start(mv) == start,
            src_idx as int == source_row(mv, sv, i as int),
            sv == sheet@,
            delta == start + i - src@.row,
            cells@.len() == c,
            forall|j: int| 0 <= j < c ==> (#[trigger] cells@[j])@ == want[j],
            forall|j: int|
                0 <= j < c && (#[trigger] src@.cells[j]).is_formula && delta != 0 ==> scan_fits(
                    src@.cells[j].content,
                    0,
                    delta as int,
                ),
        decreases src.cells@.len() - c,
    {
        let cell = &src.cells[c];
        assert(src@.cells[c as int] == cell@);
        assert(cell_param_ok(mv.rows[src_idx as int].cells[c as int]));
        let content = if cell.is_formula {
            match try_shift_rows(cell.content.as_str(), delta) {
                Some(t) => CellContent::Formula(t),
                None => {
                    proof {
                        assert(src@.cells[c as int].is_formula);
                        assert(src@.cells[c as int].content == cell.content@);
                        assert(!detail_fits(mv, sv, i as int));
                    }
                    return Err(RenderError::RowOverflow);
                },
            }
        } else {
            match &cell.param {
                Some(p) => CellContent::Value(
                    resolve_param(p, schema, rec.fields.as_slice(), &rec.named),
                ),
                None => CellContent::Value(cell.content.clone()),
            }
        };
        assert(rec@.fields == strings_view(rec.fields@)) by {
            assert(rec.fields.deep_view() =~= strings_view(rec.fields@));
        }
        cells.push(DetailCell { col: cell.col, content });
        c = c + 1;
    }
    let mut merges: Vec<String> = Vec::new();
    let mut q: usize = 0;
    while q < src.merges.len()
        invariant
            q <= src.merges@.len(),
            merges@.len() == q,
            forall|j: int|
                0 <= j < q ==> (#[trigger] merges@[j])@ == merge_text(src.merges@[j], target as nat),
        decreases src.merges@.len() - q,
    {
        let (c1, c2) = src.merges[q];
        let mut t = coord(c1, target);
        t.push(':');
        let second = coord(c2, target);
        push_all(&mut t, second.as_str());
        merges.push(t);
        q = q + 1;
    }
    let row = DetailRow {
        target,
        source: src_idx,
        height: src.height,
        cells,
        merges,
    };
    assert(row@.cells =~= want);
    assert(row@.merges =~= detail_merges(src@.merges, target as nat));
    Ok(row)
}

/// Decide every edit of a fill: the resize of the detail band, the
/// `header`/`footer` parameter values, the merges to drop, each rendered
/// detail row, and the new sheet name.
pub fn plan_fill(model: &TplModel, sheet: &Sheet) -> (r: Result<FillPlan, RenderError>)
    requires
        model.wf(),
    ensures
        match r {
            Ok(p) => plan_ok(model@, sheet@) && p@ == spec_plan(model@, sheet@),
            Err(e) => !plan_ok(model@, sheet@) && e == RenderError::RowOverflow,
        },
{
    let ghost mv = model@;
    let ghost sv = sheet@;
    let drows = detail_row_indices(model);
    let drecs = detail_record_indices(sheet);
    proof {
        lemma_detail_rows(mv.rows, mv.rows.len());
        lemma_detail_records(sv.records, sv.records.len());
        lemma_singleton_rows(mv.rows, mv.rows.len());
    }
    let m = drecs.len();
    let h = drows.len();
    if m > 0xffff_ffff || h > 0xffff_ffff {
        return Err(RenderError::RowOverflow);
    }
    let band: Option<(u32, u32)> = if h > 0 {
        assert(as_ints(drows@)[0] == drows@[0] as int);
        assert(as_ints(drows@)[h - 1] == drows@[h - 1] as int);
        assert(mv.rows[drows@[0] as int] == model.rows@[drows@[0] as int]@);
        assert(mv.rows[drows@[h - 1] as int] == model.rows@[drows@[h - 1] as int]@);
        Some((model.rows[drows[0]].row, model.rows[drows[h - 1]].row))
    } else {
        None
    };
    assert(match spec_band(mv) {
        Some((s, e, hh)) => band == Some((s, e)) && hh == h,
        None => band is None,
    });
    let band_last: Option<u32> = match band {
        Some((start, _)) => {
            if m > 0 {
                if start as u64 + m as u64 - 1 > 0xffff_ffff {
                    return Err(RenderError::RowOverflow);
                }
                Some((start as u64 + m as u64 - 1) as u32)
            } else {
                None
            }
        },
        None => None,
    };
    let resize = match band {
        None => Resize::Keep,
        Some((start, end)) => {
            if m > h {
                Resize::Insert { at: end, count: (m - h) as u32 }
            } else if m < h {
                Resize::Remove { at: start, count: (h - m) as u32 }
            } else {
                Resize::Keep
            }
        },
    };
    // Parameters of the header/footer rows.
    let mut params: Vec<RowParams> = Vec::new();
    let mut i: usize = 0;
    while i < model.rows.len()
        invariant
            i <= model.rows@.len(),
            mv == model@,
            sv == sheet@,
            model.wf(),
            m == detail_count(sv),
            h <= 0xffff_ffff,
            m <= 0xffff_ffff,
            match band {
                Some((start, _)) => if m > 0 {
                    band_last == Some((start + m - 1) as u32) && start + m - 1 <= u32::MAX
                } else {
                    band_last is None
                },
                None => band_last is None,
            },
            match spec_band(mv) {
                Some((s, e, hh)) => band == Some((s, e)) && hh == h,
                None => band is None,
            },
            params_view(params@) == params_of(mv, sv, singleton_rows(mv.rows, i as nat)),
            forall|k: int|
                0 <= k < singleton_rows(mv.rows, i as nat).len() ==> #[trigger] singleton_fits(
                    mv,
                    sv,
                    singleton_rows(mv.rows, i as nat)[k],
                ),
        decreases model.rows@.len() - i,
    {
        let trow = &model.rows[i];
        assert(mv.rows[i as int] == trow@);
        let ghost prev = singleton_rows(mv.rows, i as nat);
        proof {
            lemma_singleton_rows(mv.rows, i as nat);
        }
        if is_singleton_label(trow.label.as_str()) {
            let cur: i64 = match band {
                Some((_, end)) => {
                    if trow.row > end {
                        trow.row as i64 + m as i64 - h as i64
                    } else {
                        trow.row as i64
                    }
                },
                None => trow.row as i64,
            };
            assert(cur == out_row(mv, sv, trow.row));
            if cur < 0 || cur > 0xffff_ffff {
                proof {
                    lemma_singleton_rows(mv.rows, mv.rows.len());
                    lemma_singleton_rows_prefix(mv.rows, (i + 1) as nat, mv.rows.len());
                    let s = singleton_rows(mv.rows, mv.rows.len());
                    let pi = singleton_rows(mv.rows, (i + 1) as nat);
                    assert(pi[pi.len() - 1] == i);
                    assert(s[pi.len() - 1] == i);
                    assert(!singleton_fits(mv, sv, s[pi.len() - 1]));
                }
                return Err(RenderError::RowOverflow);
            }
            let (fields, named) = record_data(sheet, trow.label.as_str());
            let schema = find_schema(&model.schemas, trow.label.as_str());
            proof {
                assert forall|k: int| 0 <= k < trow@.cells.len() implies cell_param_ok(
                    #[trigger] trow@.cells[k],
                ) by {
                    assert(cell_param_ok(mv.rows[i as int].cells[k]));
                }
                assert(strings_view(fields@) == spec_record_data(sv, trow@.label).0) by {
                    assert(fields.deep_view() =~= strings_view(fields@));
                }
            }
            let values = row_param_values(trow, schema, fields.as_slice(), &named);
            let ghost old_params = params_view(params@);
            let ghost old_vec = params@;
            let rp = RowParams { row: cur as u32, values };
            assert(schema_view(schema) == schema_of(mv.schemas, trow@.label));
            assert(rp@ == row_params(mv, sv, i as int));
            params.push(rp);
            proof {
                let next = singleton_rows(mv.rows, (i + 1) as nat);
                assert(next == prev.push(i as int));
                assert(old_params.len() == old_vec.len());
                assert(params_of(mv, sv, prev).len() == prev.len());
                assert(params@.len() == next.len());
                assert forall|t: int| 0 <= t < params@.len() implies params_view(params@)[t] == params_of(mv, sv, next)[t] by {
                    if t < params@.len() - 1 {
                        assert(params@[t] == old_vec[t]);
                        assert(old_params[t] == params_of(mv, sv, prev)[t]);
                        assert(next[t] == prev[t]);
                    } else {
                        assert(params@[t] == rp);
                        assert(next[t] == i);
                    }
                }
                assert(params_view(params@) =~= params_of(mv, sv, next));
            }
        }
        i = i + 1;
    }
    let band_rows: Option<(u32, u32)> = match band {
        Some((start, _)) => match band_last {
            Some(last) => Some((start, last)),
            None => None,
        },
        None => None,
    };
    // The rendered detail rows.
    let mut detail: Vec<DetailRow> = Vec::new();
    match band {
        Some((start, _)) => {
            if m > 0 {
                let mut j: usize = 0;
                while j < m
                    invariant
                        j <= m,
                        m == drecs@.len(),
                        mv == model@,
                        sv == sheet@,
                        model.wf(),
                        as_ints(drows@) == all_detail_rows(mv),
                        as_ints(drecs@) == all_detail_records(sv),
                        drows@.len() > 0,
                        start == mv.rows[all_detail_rows(mv)[0]].row,
                        start + m - 1 <= u32::MAX,
                        spec_band(mv) is Some,
                        detail@.len() == j,
                        forall|q: int| 0 <= q < j ==> (#[trigger] detail@[q])@ == detail_row(mv, sv, q),
                        forall|q: int| 0 <= q < j ==> #[trigger] detail_fits(mv, sv, q),
                    decreases m - j,
                {
                    let row = match build_detail_row(model, sheet, &drows, &drecs, start, j) {
                        Ok(d) => d,
                        Err(e) => {
                            return Err(e);
                        },
                    };
                    detail.push(row);
                    j = j + 1;
                }
            }
        },
        None => {},
    }
    // The output title.
    let title_chars = chars_of(sheet.title.as_str());
    let (ta, tb) = trim_window(&title_chars, 0, title_chars.len());
    assert(win(title_chars@, 0, title_chars@.len() as int) =~= sv.title);
    let title = if ta == tb {
        sheet.template.clone()
    } else {
        string_of(&title_chars, ta, tb)
    };
    let rename = if str_eq(title.as_str(), sheet.template.as_str()) {
        None
    } else {
        Some(title)
    };
    let plan = FillPlan { resize, params, band_rows, detail, rename };
    proof {
        assert(plan@.detail =~= spec_detail(mv, sv));
        assert(plan_ok(mv, sv));
    }
    Ok(plan)
}

proof fn lemma_singleton_rows_prefix(rows: Seq<TplRowView>, n: nat, total: nat)
    requires
        n <= total <= rows.len(),
    ensures
        singleton_rows(rows, n).len() <= singleton_rows(rows, total).len(),
        forall|k: int|
            0 <= k < singleton_rows(rows, n).len() ==> singleton_rows(rows, total)[k]
                == singleton_rows(rows, n)[k],
    decreases total - n,
{
    if n < total {
        lemma_singleton_rows_prefix(rows, n, (total - 1) as nat);
    }
}


// ---------------------------------------------------------------------------
// Laws of the fill
// ---------------------------------------------------------------------------

/// Every detail template row is among the detail rows.
pub proof fn lemma_detail_rows_complete(rows: Seq<TplRowView>, n: nat, k: int)
    requires
        n <= rows.len(),
        0 <= k < n,
        is_detail(rows[k].label),
    ensures
        exists|j: int| 0 <= j < detail_rows(rows, n).len() && #[trigger] detail_rows(rows, n)[j] == k,
    decreases n,
{
    if k < n - 1 {
        lemma_detail_rows_complete(rows, (n - 1) as nat, k);
        let prev = detail_rows(rows, (n - 1) as nat);
        let j = choose|j: int| 0 <= j < prev.len() && #[trigger] prev[j] == k;
        assert(detail_rows(rows, n)[j] == k);
    } else {
        let d = detail_rows(rows, n);
        assert(d[d.len() - 1] == k);
    }
}

/// The band is rendered with one row per detail record, on consecutive sheet
/// rows from the band's first row, each made from one of the detail template
/// rows.
pub proof fn law_one_row_per_detail_record(model: TplModelView, sheet: SheetView)
    requires
        spec_band(model) is Some,
    ensures
        spec_plan(model, sheet).detail.len() == detail_count(sheet),
        forall|i: int|
            0 <= i < detail_count(sheet) ==> {
                let d = #[trigger] spec_plan(model, sheet).detail[i];
                &&& d.target == band_start(model) + i
                &&& 0 <= d.source < model.rows.len()
                &&& is_detail(model.rows[d.source].label)
            },
{
    let d = all_detail_rows(model);
    lemma_detail_rows(model.rows, model.rows.len());
    assert forall|i: int| 0 <= i < detail_count(sheet) implies {
        let dr = #[trigger] spec_plan(model, sheet).detail[i];
        &&& dr.target == band_start(model) + i
        &&& 0 <= dr.source < model.rows.len()
        &&& is_detail(model.rows[dr.source].label)
    } by {
        let rec = sheet.records[all_detail_records(sheet)[i]];
        lemma_first_with_label(model.rows, d, rec.label);
        match first_with_label(model.rows, d, rec.label) {
            Some(k) => {
                assert(is_detail(model.rows[d[k]].label));
            },
            None => {
                let j = i % (d.len() as int);
                assert(0 <= j < d.len());
                assert(is_detail(model.rows[d[j]].label));
            },
        }
    }
}

/// The resize leaves the band with one row per detail record: rows are
/// inserted at its last row when there are more records than band rows, and
/// removed from its first row when there are fewer.
pub proof fn law_resize_fits_the_records(model: TplModelView, sheet: SheetView)
    requires
        plan_ok(model, sheet),
    ensures
        match spec_band(model) {
            Some((start, end, h)) => match spec_resize(model, sheet) {
                Resize::Insert { at, count } => at == end && h + count == detail_count(sheet),
                Resize::Remove { at, count } => at == start && h - count == detail_count(sheet),
                Resize::Keep => h == detail_count(sheet),
            },
            None => spec_resize(model, sheet) == Resize::Keep,
        },
{
}

/// A detail record is rendered from the first template row that carries its
/// label, when there is one; otherwise from the band's rows in turn.
pub proof fn law_detail_record_uses_its_label(model: TplModelView, sheet: SheetView, i: int)
    requires
        spec_band(model) is Some,
        0 <= i < detail_count(sheet),
    ensures
        ({
            let label = sheet.records[all_detail_records(sheet)[i]].label;
            let src = source_row(model, sheet, i);
            let d = all_detail_rows(model);
            if exists|k: int| 0 <= k < model.rows.len() && model.rows[k].label == label {
                &&& model.rows[src].label == label
                &&& forall|k: int| 0 <= k < src ==> model.rows[k].label != label
            } else {
                src == d[i % (d.len() as int)]
            }
        }),
{
    let label = sheet.records[all_detail_records(sheet)[i]].label;
    let d = all_detail_rows(model);
    let rows = model.rows;
    lemma_detail_rows(rows, rows.len());
    lemma_detail_records(sheet.records, sheet.records.len());
    lemma_first_with_label(rows, d, label);
    let di = all_detail_records(sheet)[i];
    assert(is_detail(sheet.records[di].label)) by {
        lemma_detail_records_are_detail(sheet.records, sheet.records.len(), i);
    }
    if exists|k: int| 0 <= k < rows.len() && rows[k].label == label {
        let k0 = choose|k: int| 0 <= k < rows.len() && rows[k].label == label;
        lemma_detail_rows_complete(rows, rows.len(), k0);
        let j0 = choose|j: int| 0 <= j < d.len() && #[trigger] d[j] == k0;
        assert(first_with_label(rows, d, label) is Some);
        let k = first_with_label(rows, d, label)->0;
        assert(rows[d[k]].label == label);
        assert forall|q: int| 0 <= q < d[k] implies rows[q].label != label by {
            if rows[q].label == label {
                lemma_detail_rows_complete(rows, rows.len(), q);
                let jq = choose|j: int| 0 <= j < d.len() && #[trigger] d[j] == q;
                if jq < k {
                    assert(rows[d[jq]].label != label);
                } else if jq > k {
                    assert(d[k] < d[jq]);
                }
            }
        }
    } else {
        assert forall|j: int| 0 <= j < d.len() implies rows[d[j]].label != label by {}
        assert(first_with_label(rows, d, label) is None);
    }
}

/// The records picked for the band are the detail records.
proof fn lemma_detail_records_are_detail(records: Seq<RecordView>, n: nat, i: int)
    requires
        n <= records.len(),
        0 <= i < detail_records(records, n).len(),
    ensures
        is_detail(records[detail_records(records, n)[i]].label),
    decreases n,
{
    if n > 0 {
        let prev = detail_records(records, (n - 1) as nat);
        if i < prev.len() {
            lemma_detail_records_are_detail(records, (n - 1) as nat, i);
        }
    }
}

/// `header` and `footer` rows above the band keep their row; those below it
/// move by the change in the band's height (detail records minus detail
/// template rows).
pub proof fn law_rows_below_band_move(model: TplModelView, sheet: SheetView, j: int)
    requires
        0 <= j < spec_plan(model, sheet).params.len(),
    ensures
        ({
            let ri = singleton_rows(model.rows, model.rows.len())[j];
            let row = model.rows[ri].row;
            spec_plan(model, sheet).params[j].row == match spec_band(model) {
                Some((_, end, h)) => if row > end {
                    row + detail_count(sheet) - h
                } else {
                    row as int
                },
                None => row as int,
            }
        }),
{
}

/// A detail row's formulas are those of its template row with every
/// relative reference moved by the distance between the two rows; a record
/// rendered on its own template row keeps them as they are.
pub proof fn law_detail_formulas_follow_the_row(model: TplModelView, sheet: SheetView, i: int, k: int)
    requires
        spec_band(model) is Some,
        0 <= i < detail_count(sheet),
        0 <= k < model.rows[source_row(model, sheet, i)].cells.len(),
        model.rows[source_row(model, sheet, i)].cells[k].is_formula,
    ensures
        ({
            let d = spec_plan(model, sheet).detail[i];
            let src = model.rows[d.source];
            &&& d.cells[k].content == CellContentView::Formula(
                spec_shift_rows(src.cells[k].content, d.target - src.row),
            )
            &&& d.target == src.row ==> d.cells[k].content == CellContentView::Formula(
                src.cells[k].content,
            )
        }),
{
}

} // verus!
