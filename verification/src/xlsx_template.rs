//! The Excel-template engine.
//!
//! The **template is a real `.xlsx` workbook** designed in Excel/LibreOffice.
//! The designer controls every style, number format, merge and *formula*; this
//! engine only injects data and replicates the repeating rows.
//!
//! # Template convention
//!
//! * **Column A of each template row carries a visible control label** (the
//!   column is hidden in the output):
//!   * `header`  — emitted once, fields come from the `header` data record;
//!   * `footer`  — emitted once, fields come from the `footer` data record;
//!   * any other non-empty label (e.g. `row1`, `row2`) — a *detail* row. The
//!     contiguous run of detail template rows forms the **detail band**; the
//!     engine emits one output row per detail data record, choosing the
//!     template row whose label matches the record's label;
//!   * empty — a static row, emitted once verbatim.
//! * **Field-name schema** is declared once per label, in the column-A text:
//!   `header(date,receipt,customer,address)`. The first declaration of a label
//!   wins; bare `header` rows just attach to it.
//! * **Parameters** are marked on a cell's **comment** — `#name` (resolved via
//!   the label's schema) or `#N` (1-based positional). The cell itself keeps a
//!   real sample value.
//! * **Formulas** stay valid Excel: when a template row lands at a different
//!   output row, each *relative* reference's row moves by that row's delta.
//!
//! The engine edits the template sheet in place: it resizes the detail band,
//! fills parameters, hides the control column, strips the directive comments,
//! and renames the sheet to the output title. [`read_sheet`] reads the
//! template sheet's structure and [`build_model`] turns it into the template
//! model; everything the fill decides is computed by [`plan_fill`] over plain
//! values, and [`fill_in_place`] hands the resulting edits to the workbook.

use vstd::prelude::*;
use crate::data::{FieldMap, RecordView, Sheet, SheetView};
use crate::xlsx_template::coords::{parse_range_checked, range_ok, range_value};
use crate::xlsx_template::formula::{removal_safe, removal_safe_formula};
use crate::xlsx_template::plan::{
    all_detail_rows, detail_count, detail_row_shaped, lemma_detail_rows, spec_band, lemma_detail_rows_shaped, lemma_merge_text_ok, plan_fill, plan_ok, spec_plan, spec_rename, spec_resize,
    spec_title, CellContent, CellContentView, DetailCellView, DetailRowView, FillPlanView, Resize,
    RowParamsView,
};
use crate::xlsx_template::workbook::{
    add_merge, blank_cell, cell_data, cell_formula_flags, cell_value, cleared_cell, clear_comments,
    clear_formula_result, formula_cell, sheet_lookup, hide_column, highest_column_and_row,
    insert_rows, merge_ranges, others_kept, row_dimension_rows, sheet_titles, first_titled,
    sheet_after_insert, sheet_after_remove, insert_fits, remove_fits, range_text, remove_rows, rename_sheet, retain_merges,
    row_dimension, set_cell_formula, set_cell_style, set_cell_value, set_row_height,
    sheet_comments, sheet_contents, value_cell, workbook_sheets, CellData, CellDataView,
    CommentData, SheetContents,
};
use crate::text::{
    all_digits, char_alphanumeric, chars_of, decimal, digits_value, find_char, first_index_of, is_alphanumeric,
    parse_digits, parse_digits_window, push_all, split_char, split_window, str_eq, string_of,
    trim, trim_window, win, windows_view, windows_within,
};

pub mod coords;
pub mod formula;
pub mod plan;
pub mod workbook;

pub use formula::shift_rows;

verus! {

// ---------------------------------------------------------------------------
// Where a template comes from
// ---------------------------------------------------------------------------

/// A filesystem path.
#[verifier::external_type_specification]
#[verifier::external_body]
pub struct ExPath(std::path::Path);

/// An owned filesystem path.
#[verifier::external_type_specification]
#[verifier::external_body]
pub struct ExPathBuf(std::path::PathBuf);

/// Where a template `.xlsx` workbook comes from.
///
/// The engine can read a template either from a file on disk or straight from
/// an in-memory byte buffer (e.g. one served over the network, embedded with
/// `include_bytes!`, or fetched from a database).
pub enum TemplateSource<'a> {
    /// Read the template from a file path.
    Path(&'a std::path::Path),
    /// Use an in-memory `.xlsx` byte buffer.
    Bytes(&'a [u8]),
}

impl<'a> From<&'a std::path::Path> for TemplateSource<'a> {
    fn from(p: &'a std::path::Path) -> (r: Self) {
        TemplateSource::Path(p)
    }
}

impl<'a> vstd::std_specs::convert::FromSpecImpl<&'a std::path::Path> for TemplateSource<'a> {
    open spec fn obeys_from_spec() -> bool {
        true
    }

    open spec fn from_spec(p: &'a std::path::Path) -> Self {
        TemplateSource::Path(p)
    }
}

impl<'a> From<&'a [u8]> for TemplateSource<'a> {
    fn from(b: &'a [u8]) -> (r: Self) {
        TemplateSource::Bytes(b)
    }
}

impl<'a> vstd::std_specs::convert::FromSpecImpl<&'a [u8]> for TemplateSource<'a> {
    open spec fn obeys_from_spec() -> bool {
        true
    }

    open spec fn from_spec(b: &'a [u8]) -> Self {
        TemplateSource::Bytes(b)
    }
}

impl<'a> From<&'a Vec<u8>> for TemplateSource<'a> {
    fn from(b: &'a Vec<u8>) -> (r: Self) {
        let s = b.as_slice();
        assert(s =~= choose|t: &'a [u8]| t@ == b@);
        TemplateSource::Bytes(s)
    }
}

impl<'a> vstd::std_specs::convert::FromSpecImpl<&'a Vec<u8>> for TemplateSource<'a> {
    open spec fn obeys_from_spec() -> bool {
        true
    }

    open spec fn from_spec(b: &'a Vec<u8>) -> Self {
        TemplateSource::Bytes(choose|t: &'a [u8]| t@ == b@)
    }
}

// ---------------------------------------------------------------------------
// Column-A tags
// ---------------------------------------------------------------------------

/// The non-empty trimmed pieces, trimmed, in order.
pub open spec fn schema_names(pieces: Seq<Seq<char>>) -> Seq<Seq<char>>
    decreases pieces.len(),
{
    if pieces.len() == 0 {
        Seq::empty()
    } else {
        let init = schema_names(pieces.drop_last());
        if trim(pieces.last()).len() > 0 {
            init.push(trim(pieces.last()))
        } else {
            init
        }
    }
}

/// A column-A control text split into its label and, when it ends in a
/// parenthesised list, the field-name schema it declares.
pub open spec fn spec_parse_tag(raw: Seq<char>) -> (Seq<char>, Option<Seq<Seq<char>>>) {
    let r = trim(raw);
    match first_index_of(r, '(') {
        Some(open) => if r.len() > 0 && r.last() == ')' {
            (
                trim(r.subrange(0, open)),
                Some(schema_names(split_char(r.subrange(open + 1, r.len() - 1), ','))),
            )
        } else {
            (r, None)
        },
        None => (r, None),
    }
}

/// The views of a list of strings.
pub open spec fn strings_view(v: Seq<String>) -> Seq<Seq<char>> {
    v.map_values(|s: String| s@)
}
proof fn lemma_schema_names_members(p: Seq<Seq<char>>)
    ensures
        schema_names(p).len() <= p.len(),
        forall|i: int|
            0 <= i < p.len() && trim(p[i]).len() > 0 ==> schema_names(p).contains(#[trigger] trim(p[i])),
        forall|j: int|
            0 <= j < schema_names(p).len() ==> (#[trigger] schema_names(p)[j]).len() > 0 && exists|i: int|
                0 <= i < p.len() && trim(p[i]) == schema_names(p)[j],
    decreases p.len(),
{
    if p.len() > 0 {
        let init = p.drop_last();
        lemma_schema_names_members(init);
        let sn = schema_names(p);
        assert forall|i: int| 0 <= i < p.len() && trim(p[i]).len() > 0 implies sn.contains(
            #[trigger] trim(p[i]),
        ) by {
            if i < p.len() - 1 {
                assert(p[i] == init[i]);
                let w = choose|w: int| 0 <= w < schema_names(init).len() && schema_names(init)[w] == trim(init[i]);
                assert(sn[w] == schema_names(init)[w]);
            } else {
                assert(sn[sn.len() - 1] == trim(p[i]));
            }
        }
        assert forall|j: int| 0 <= j < sn.len() implies (#[trigger] sn[j]).len() > 0 && exists|i: int|
            0 <= i < p.len() && trim(p[i]) == sn[j] by {
            if j < schema_names(init).len() {
                assert(sn[j] == schema_names(init)[j]);
                let i = choose|i: int| 0 <= i < init.len() && trim(init[i]) == schema_names(init)[j];
                assert(p[i] == init[i]);
            } else {
                assert(sn[j] == trim(p.last()));
                assert(p[p.len() - 1] == p.last());
            }
        }
    }
}

/// A tag `label(p1,...,pn)` declares one schema name per non-empty trimmed
/// piece `p_i`, however many there are: every such piece is among the names,
/// and every name is such a piece.
pub proof fn law_schema_has_every_name(raw: Seq<char>)
    requires
        first_index_of(trim(raw), '(') is Some,
        trim(raw).len() > 0,
        trim(raw).last() == ')',
    ensures
        ({
            let r = trim(raw);
            let open = first_index_of(r, '(')->0;
            let pieces = split_char(r.subrange(open + 1, r.len() - 1), ',');
            &&& spec_parse_tag(raw).0 == trim(r.subrange(0, open))
            &&& spec_parse_tag(raw).1 is Some
            &&& forall|i: int|
                0 <= i < pieces.len() && trim(pieces[i]).len() > 0 ==> spec_parse_tag(raw).1->0.contains(
                    #[trigger] trim(pieces[i]),
                )
            &&& forall|j: int|
                0 <= j < spec_parse_tag(raw).1->0.len() ==> (#[trigger] spec_parse_tag(raw).1->0[j]).len()
                    > 0 && exists|i: int| 0 <= i < pieces.len() && trim(pieces[i]) == spec_parse_tag(raw).1->0[j]
        }),
{
    let r = trim(raw);
    let open = first_index_of(r, '(')->0;
    lemma_schema_names_members(split_char(r.subrange(open + 1, r.len() - 1), ','));
}

/// The number of pieces that are not blank once trimmed.
pub open spec fn nonblank_count(p: Seq<Seq<char>>) -> nat
    decreases p.len(),
{
    if p.len() == 0 {
        0
    } else {
        nonblank_count(p.drop_last()) + if trim(p.last()).len() > 0 {
            1nat
        } else {
            0nat
        }
    }
}

proof fn lemma_schema_names_positions(p: Seq<Seq<char>>)
    ensures
        schema_names(p).len() == nonblank_count(p),
        forall|i: int|
            0 <= i < p.len() && trim(p[i]).len() > 0 ==> nonblank_count(#[trigger] p.take(i))
                < schema_names(p).len() && schema_names(p)[nonblank_count(p.take(i)) as int] == trim(p[i]),
    decreases p.len(),
{
    if p.len() > 0 {
        let init = p.drop_last();
        lemma_schema_names_positions(init);
        assert forall|i: int| 0 <= i < p.len() && trim(p[i]).len() > 0 implies nonblank_count(
            #[trigger] p.take(i),
        ) < schema_names(p).len() && schema_names(p)[nonblank_count(p.take(i)) as int] == trim(p[i]) by {
            if i < p.len() - 1 {
                assert(p.take(i) =~= init.take(i));
                assert(p[i] == init[i]);
            } else {
                assert(p.take(i) =~= init);
            }
        }
    }
}

/// The schema names of a tag `label(p1,...,pn)` are its non-blank trimmed
/// pieces, in order: as many names as non-blank pieces, and the non-blank
/// piece `p_i` is the name at the position that counts the non-blank pieces
/// before it.
pub proof fn law_schema_names_in_order(raw: Seq<char>)
    requires
        first_index_of(trim(raw), '(') is Some,
        trim(raw).len() > 0,
        trim(raw).last() == ')',
    ensures
        ({
            let r = trim(raw);
            let open = first_index_of(r, '(')->0;
            let pieces = split_char(r.subrange(open + 1, r.len() - 1), ',');
            let names = spec_parse_tag(raw).1->0;
            &&& spec_parse_tag(raw).1 is Some
            &&& names.len() == nonblank_count(pieces)
            &&& forall|i: int|
                0 <= i < pieces.len() && trim(pieces[i]).len() > 0 ==> names[nonblank_count(
                    #[trigger] pieces.take(i),
                ) as int] == trim(pieces[i])
        }),
{
    let r = trim(raw);
    let open = first_index_of(r, '(')->0;
    lemma_schema_names_positions(split_char(r.subrange(open + 1, r.len() - 1), ','));
}

/// Parse a column-A control cell into `(label, optional field-name schema)`.
/// `"header(date,receipt,customer)"` → `("header", Some([date,receipt,customer]))`;
/// `"header"` → `("header", None)`.
pub fn parse_tag(raw: &str) -> (r: (String, Option<Vec<String>>))
    ensures
        r.0@ == spec_parse_tag(raw@).0,
        match spec_parse_tag(raw@).1 {
            Some(names) => r.1 matches Some(v) && strings_view(v@) == names,
            None => r.1 is None,
        },
{
    let s = chars_of(raw);
    assert(win(s@, 0, s@.len() as int) =~= raw@);
    let (a, b) = trim_window(&s, 0, s.len());
    let ghost r = trim(raw@);
    assert(win(s@, a as int, b as int) == r);
    let open = find_char(&s, a, b, '(');
    proof {
        crate::text::lemma_first_index_of(r, '(');
    }
    match open {
        Some(o) => {
            if b > a && s[b - 1] == ')' {
                assert(r.last() == s@[b - 1]);
                let (la, lb) = trim_window(&s, a, o);
                assert(win(s@, a as int, o as int) =~= r.subrange(0, o - a));
                let label = string_of(&s, la, lb);
                let ghost inner = r.subrange(o - a + 1, r.len() - 1);
                assert(o + 1 <= b - 1) by {
                    if o + 1 > b - 1 {
                        assert(o == b - 1);
                        assert(s@[o as int] == '(');
                    }
                }
                assert(win(s@, (o + 1) as int, (b - 1) as int) =~= inner);
                let pieces = split_window(&s, o + 1, b - 1, ',');
                let ghost ps = split_char(inner, ',');
                let mut names: Vec<String> = Vec::new();
                let mut k: usize = 0;
                assert(ps.subrange(0, 0) =~= Seq::<Seq<char>>::empty());
                assert(strings_view(names@) =~= schema_names(ps.subrange(0, 0)));
                while k < pieces.len()
                    invariant
                        k <= pieces@.len(),
                        pieces@.len() == ps.len(),
                        windows_within(pieces@, (o + 1) as int, (b - 1) as int),
                        o + 1 <= b - 1 <= s@.len(),
                        windows_view(s@, pieces@) == ps,
                        strings_view(names@) == schema_names(ps.subrange(0, k as int)),
                    decreases pieces@.len() - k,
                {
                    assert(windows_view(s@, pieces@)[k as int] == ps[k as int]);
                    let (x, y) = trim_window(&s, pieces[k].0, pieces[k].1);
                    assert(ps.subrange(0, k + 1).drop_last() =~= ps.subrange(0, k as int));
                    assert(ps.subrange(0, k + 1).last() == ps[k as int]);
                    if x < y {
                        names.push(string_of(&s, x, y));
                        assert(strings_view(names@) =~= schema_names(ps.subrange(0, k + 1)));
                    }
                    k = k + 1;
                }
                assert(ps.subrange(0, ps.len() as int) =~= ps);
                return (label, Some(names));
            }
        },
        None => {},
    }
    (string_of(&s, a, b), None)
}

// ---------------------------------------------------------------------------
// Parameter markers
// ---------------------------------------------------------------------------

/// A parameter binding declared on a cell's *comment*. The cell keeps a real
/// sample value; at render time the engine replaces that value with the
/// matching data field.
#[derive(Clone, Debug, PartialEq)]
pub enum Param {
    /// `#name` — resolved against the row label's declared field-name schema.
    Named(String),
    /// `#N` — the N-th data field, 1-based.
    Indexed(usize),
}

/// A parameter, as plain values.
pub enum ParamView {
    Named(Seq<char>),
    Indexed(nat),
}

impl View for Param {
    type V = ParamView;

    open spec fn view(&self) -> ParamView {
        match self {
            Param::Named(s) => ParamView::Named(s@),
            Param::Indexed(n) => ParamView::Indexed(*n as nat),
        }
    }
}


/// A character that may continue a `#token`.
pub open spec fn token_char(c: char) -> bool {
    char_alphanumeric(c) || c == '_'
}

/// The end of the token that starts at `j`.
pub open spec fn token_end(s: Seq<char>, j: int) -> int
    decreases s.len() - j,
{
    if 0 <= j < s.len() && token_char(s[j]) {
        token_end(s, j + 1)
    } else {
        j
    }
}

proof fn lemma_token_end(s: Seq<char>, j: int)
    requires
        0 <= j <= s.len(),
    ensures
        j <= token_end(s, j) <= s.len(),
    decreases s.len() - j,
{
    if j < s.len() && token_char(s[j]) {
        lemma_token_end(s, j + 1);
    }
}

/// The marker of a comment: the token after its first `#`. A token of digits
/// that fits a `usize` is a position (`0` marks nothing); any other token is
/// a name; no `#` or an empty token marks nothing.
pub open spec fn spec_parse_param(comment: Seq<char>) -> Option<ParamView> {
    match first_index_of(comment, '#') {
        None => None,
        Some(h) => {
            let token = comment.subrange(h + 1, token_end(comment, h + 1));
            if token.len() == 0 {
                None
            } else {
                match parse_digits(token, usize::MAX as nat) {
                    Some(n) => if n >= 1 {
                        Some(ParamView::Indexed(n))
                    } else {
                        None
                    },
                    None => Some(ParamView::Named(token)),
                }
            }
        },
    }
}
/// A comment whose first `#` is followed by a token of digits with value
/// `n`, `1 <= n <= usize::MAX`, marks the position `n`; a token that is not
/// all digits marks the name it spells.
pub proof fn law_marker_position_or_name(comment: Seq<char>, h: int)
    requires
        first_index_of(comment, '#') == Some(h),
        h + 1 < token_end(comment, h + 1),
    ensures
        ({
            let token = comment.subrange(h + 1, token_end(comment, h + 1));
            &&& (all_digits(token) && 1 <= digits_value(token) <= usize::MAX) ==> spec_parse_param(comment)
                == Some(ParamView::Indexed(digits_value(token)))
            &&& !all_digits(token) ==> spec_parse_param(comment) == Some(ParamView::Named(token))
        }),
{
}

/// A comment with no `#`, or whose first `#` is followed by no token, or by
/// the position `0`, marks nothing.
pub proof fn law_no_marker(comment: Seq<char>)
    ensures
        first_index_of(comment, '#') is None ==> spec_parse_param(comment) is None,
        first_index_of(comment, '#') matches Some(h) ==> ({
            let token = comment.subrange(h + 1, token_end(comment, h + 1));
            (token.len() == 0 || (all_digits(token) && digits_value(token) == 0)) ==> spec_parse_param(
                comment,
            ) is None
        }),
{
}

/// Parse a parameter marker out of a cell comment: `#name` → [`Param::Named`],
/// `#3` → [`Param::Indexed`]. Returns `None` if there is no `#token`.
pub fn parse_param(comment: &str) -> (r: Option<Param>)
    ensures
        match spec_parse_param(comment@) {
            Some(p) => r matches Some(q) && q@ == p,
            None => r is None,
        },
{
    let s = chars_of(comment);
    assert(win(s@, 0, s@.len() as int) =~= comment@);
    let hash = match find_char(&s, 0, s.len(), '#') {
        Some(h) => h,
        None => {
            return None;
        },
    };
    let start = hash + 1;
    let mut end = start;
    proof {
        crate::text::lemma_first_index_of(comment@, '#');
        lemma_token_end(s@, start as int);
    }
    while end < s.len() && (is_alphanumeric(s[end]) || s[end] == '_')
        invariant
            start <= end <= s@.len(),
            token_end(s@, end as int) == token_end(s@, start as int),
        decreases s@.len() - end,
    {
        end = end + 1;
    }
    if end == start {
        return None;
    }
    assert(win(s@, start as int, end as int) == comment@.subrange(
        start as int,
        token_end(comment@, start as int),
    ));
    match parse_digits_window(&s, start, end, usize::MAX as u64) {
        Some(n) => {
            if n >= 1 {
                Some(Param::Indexed(n as usize))
            } else {
                None
            }
        },
        None => Some(Param::Named(string_of(&s, start, end))),
    }
}

/// The position of the first `name` in `names`.
pub open spec fn index_of_name(names: Seq<Seq<char>>, name: Seq<char>) -> Option<int>
    decreases names.len(),
{
    if names.len() == 0 {
        None
    } else if names[0] == name {
        Some(0)
    } else {
        match index_of_name(names.drop_first(), name) {
            Some(i) => Some(i + 1),
            None => None,
        }
    }
}

pub proof fn lemma_index_of_name(names: Seq<Seq<char>>, name: Seq<char>)
    ensures
        index_of_name(names, name) matches Some(i) ==> 0 <= i < names.len() && names[i] == name
            && forall|j: int| 0 <= j < i ==> names[j] != name,
        index_of_name(names, name) is None ==> forall|j: int|
            0 <= j < names.len() ==> names[j] != name,
    decreases names.len(),
{
    if names.len() > 0 {
        lemma_index_of_name(names.drop_first(), name);
        if names[0] != name {
            assert forall|j: int| 1 <= j < names.len() implies names[j] == names.drop_first()[j
                - 1] by {}
        }
    }
}

/// The data value of a parameter. A `#name` is looked up first in the
/// record's named fields, then through the label's schema among the positional
/// fields; `#N` is the N-th positional field. Missing bindings are empty.
pub open spec fn spec_resolve_param(
    p: ParamView,
    schema: Option<Seq<Seq<char>>>,
    fields: Seq<Seq<char>>,
    named: Map<Seq<char>, Seq<char>>,
) -> Seq<char> {
    match p {
        ParamView::Indexed(n) => if n - 1 < fields.len() {
            fields[n - 1]
        } else {
            Seq::empty()
        },
        ParamView::Named(name) => if named.contains_key(name) {
            named[name]
        } else {
            match schema {
                Some(names) => match index_of_name(names, name) {
                    Some(i) => if i < fields.len() {
                        fields[i]
                    } else {
                        Seq::empty()
                    },
                    None => Seq::empty(),
                },
                None => Seq::empty(),
            }
        },
    }
}

/// A `#name` takes the record's named field of that name first, and only
/// without one the positional field that the label's schema puts that name
/// at (its first occurrence); `#N` is the N-th positional field; a binding
/// that finds nothing is empty.
pub proof fn law_param_resolution(
    p: ParamView,
    schema: Option<Seq<Seq<char>>>,
    fields: Seq<Seq<char>>,
    named: Map<Seq<char>, Seq<char>>,
)
    requires
        param_ok(p),
    ensures
        ({
            let v = spec_resolve_param(p, schema, fields, named);
            match p {
                ParamView::Named(name) => if named.contains_key(name) {
                    v == named[name]
                } else {
                    match schema {
                        Some(names) => match index_of_name(names, name) {
                            Some(i) => names[i] == name && (forall|j: int|
                                0 <= j < i ==> names[j] != name) && v == if i < fields.len() {
                                fields[i]
                            } else {
                                Seq::empty()
                            },
                            None => (forall|j: int| 0 <= j < names.len() ==> names[j] != name)
                                && v == Seq::<char>::empty(),
                        },
                        None => v == Seq::<char>::empty(),
                    }
                },
                ParamView::Indexed(n) => v == if n <= fields.len() {
                    fields[n - 1]
                } else {
                    Seq::empty()
                },
            }
        }),
{
    if let ParamView::Named(name) = p {
        if let Some(names) = schema {
            lemma_index_of_name(names, name);
        }
    }
}

/// A parameter that can be resolved: positions count from 1.
pub open spec fn param_ok(p: ParamView) -> bool {
    p matches ParamView::Indexed(n) ==> n >= 1
}

/// Resolve a parameter to its data value. A `#name` is looked up first in the
/// record's **named** fields (JSON/YAML), then via the label's positional
/// schema; `#N` is positional. Missing bindings resolve to the empty string.
pub fn resolve_param(
    param: &Param,
    schema: Option<&Vec<String>>,
    fields: &[String],
    named: &FieldMap,
) -> (r: String)
    requires
        param_ok(param@),
    ensures
        r@ == spec_resolve_param(
            param@,
            match schema {
                Some(v) => Some(strings_view(v@)),
                None => None,
            },
            strings_view(fields@),
            named@,
        ),
{
    match param {
        Param::Indexed(n) => {
            if *n - 1 < fields.len() {
                fields[*n - 1].clone()
            } else {
                String::new()
            }
        },
        Param::Named(name) => {
            match named.get(name.as_str()) {
                Some(v) => {
                    return v.clone();
                },
                None => {},
            }
            match schema {
                Some(names) => {
                    let ghost nv = strings_view(names@);
                    proof {
                        lemma_index_of_name(nv, name@);
                    }
                    let mut i: usize = 0;
                    while i < names.len()
                        invariant
                            i <= names@.len(),
                            nv == strings_view(names@),
                            !named@.contains_key(name@),
                            param@ == ParamView::Named(name@),
                            schema == Some(names),
                            forall|j: int| 0 <= j < i ==> nv[j] != name@,
                        decreases names@.len() - i,
                    {
                        if str_eq(names[i].as_str(), name.as_str()) {
                            proof {
                                lemma_index_of_name(nv, name@);
                                assert(nv[i as int] == names@[i as int]@);
                                assert(nv[i as int] == name@);
                                if let Some(k) = index_of_name(nv, name@) {
                                    if k < i {
                                        assert(nv[k] != name@);
                                    }
                                    if k > i {
                                        assert(nv[i as int] == name@);
                                    }
                                }
                            }
                            if i < fields.len() {
                                assert(strings_view(fields@)[i as int] == fields@[i as int]@);
                                assert(index_of_name(nv, name@) == Some(i as int));
                                return fields[i].clone();
                            } else {
                                return String::new();
                            }
                        }
                        i = i + 1;
                    }
                    String::new()
                },
                None => String::new(),
            }
        },
    }
}

// ---------------------------------------------------------------------------
// Labels and data records
// ---------------------------------------------------------------------------

pub open spec fn header_label() -> Seq<char> {
    seq!['h', 'e', 'a', 'd', 'e', 'r']
}

pub open spec fn footer_label() -> Seq<char> {
    seq!['f', 'o', 'o', 't', 'e', 'r']
}

/// Labels that denote a once-only band rather than a repeating detail row.
pub open spec fn is_singleton(label: Seq<char>) -> bool {
    label == header_label() || label == footer_label()
}

/// Labels of detail rows: non-empty and not `header`/`footer`.
pub open spec fn is_detail(label: Seq<char>) -> bool {
    label.len() > 0 && !is_singleton(label)
}

/// Whether `label` is `header` or `footer`.
pub fn is_singleton_label(label: &str) -> (r: bool)
    ensures
        r == is_singleton(label@),
{
    let h = chars_of("header");
    let f = chars_of("footer");
    proof {
        reveal_strlit("header");
        reveal_strlit("footer");
        assert(h@ =~= header_label());
        assert(f@ =~= footer_label());
    }
    let s = chars_of(label);
    assert(win(s@, 0, s@.len() as int) =~= label@);
    crate::text::window_eq(&s, 0, s.len(), &h) || crate::text::window_eq(&s, 0, s.len(), &f)
}

/// Whether `label` marks a detail row.
pub fn is_detail_label(label: &str) -> (r: bool)
    ensures
        r == is_detail(label@),
{
    let s = chars_of(label);
    s.len() > 0 && !is_singleton_label(label)
}

/// The index of the first record with `label`.
pub open spec fn first_record_with(records: Seq<RecordView>, label: Seq<char>) -> Option<int>
    decreases records.len(),
{
    if records.len() == 0 {
        None
    } else if records[0].label == label {
        Some(0)
    } else {
        match first_record_with(records.drop_first(), label) {
            Some(i) => Some(i + 1),
            None => None,
        }
    }
}

pub proof fn lemma_first_record_with(records: Seq<RecordView>, label: Seq<char>)
    ensures
        first_record_with(records, label) matches Some(i) ==> 0 <= i < records.len()
            && records[i].label == label && forall|j: int|
            0 <= j < i ==> records[j].label != label,
        first_record_with(records, label) is None ==> forall|j: int|
            0 <= j < records.len() ==> records[j].label != label,
    decreases records.len(),
{
    if records.len() > 0 {
        lemma_first_record_with(records.drop_first(), label);
        if records[0].label != label {
            assert forall|j: int| 1 <= j < records.len() implies records[j]
                == records.drop_first()[j - 1] by {}
        }
    }
}

/// The data (positional and named) of the first record with `label`; none
/// when no record has it.
pub open spec fn spec_record_data(sheet: SheetView, label: Seq<char>) -> (
    Seq<Seq<char>>,
    Map<Seq<char>, Seq<char>>,
) {
    match first_record_with(sheet.records, label) {
        Some(i) => (sheet.records[i].fields, sheet.records[i].named),
        None => (Seq::empty(), Map::empty()),
    }
}

/// A copy of a list of strings.
pub fn copy_strings(v: &[String]) -> (r: Vec<String>)
    ensures
        r.deep_view() == v.deep_view(),
        strings_view(r@) == strings_view(v@),
{
    let mut r: Vec<String> = Vec::new();
    let mut i: usize = 0;
    while i < v.len()
        invariant
            i <= v@.len(),
            r@.len() == i,
            forall|j: int| 0 <= j < i ==> (#[trigger] r@[j])@ == v@[j]@,
        decreases v@.len() - i,
    {
        r.push(v[i].clone());
        i = i + 1;
    }
    assert(r.deep_view() =~= v.deep_view());
    assert(strings_view(r@) =~= strings_view(v@));
    r
}

/// The data fields (positional + named) of the record with `label`, if any.
pub fn record_data(sheet: &Sheet, label: &str) -> (r: (Vec<String>, FieldMap))
    requires
    ensures
        r.0.deep_view() == spec_record_data(sheet@, label@).0,
        r.1@ == spec_record_data(sheet@, label@).1,
{
    let ghost recs = sheet@.records;
    proof {
        lemma_first_record_with(recs, label@);
    }
    let mut i: usize = 0;
    while i < sheet.records.len()
        invariant
            i <= sheet.records@.len(),
            recs == sheet@.records,
            forall|j: int| 0 <= j < i ==> recs[j].label != label@,
        decreases sheet.records@.len() - i,
    {
        assert(recs[i as int] == sheet.records@[i as int]@);
        if str_eq(sheet.records[i].label.as_str(), label) {
            proof {
                lemma_first_record_with(recs, label@);
                if let Some(k) = first_record_with(recs, label@) {
                    if k < i {
                        assert(recs[k].label != label@);
                    }
                    if k > i {
                        assert(recs[i as int].label == label@);
                    }
                }
            }
            let fields = copy_strings(sheet.records[i].fields.as_slice());
            let named = sheet.records[i].named.copy();
            return (fields, named);
        }
        i = i + 1;
    }
    let f: Vec<String> = Vec::new();
    assert(f.deep_view() =~= Seq::<Seq<char>>::empty());
    (f, FieldMap::new())
}

// ---------------------------------------------------------------------------
// Errors
// ---------------------------------------------------------------------------

/// Why a template could not be rendered.
#[derive(Debug, PartialEq)]
pub enum RenderError {
    /// The template bytes are not a workbook that could be read; the text is
    /// the reader's error.
    ReadTemplate(String),
    /// The workbook has no sheet of the data sheet's template name: the name,
    /// and the workbook's reason.
    SheetNotFound(String, String),
    /// A row that the fill computes does not fit a sheet row number (or a
    /// shifted formula row does not fit an `i64`).
    RowOverflow,
    /// The detail band must shrink, and a formula of the template sheet has a
    /// reference that names a column with no row (such as `A:A`), which the
    /// workbook library cannot adjust when rows are removed.
    WholeColumnReference,
    /// The rendered workbook could not be serialized; the text is the writer's
    /// error.
    Write(String),
}

/// The text of each render error.
pub open spec fn spec_render_message(e: RenderError) -> Seq<char> {
    match e {
        RenderError::ReadTemplate(msg) => msg@,
        RenderError::SheetNotFound(n, why) => "template sheet `"@ + n@ + "` not found: "@ + why@,
        RenderError::RowOverflow => "the rendered rows do not fit the sheet"@,
        RenderError::WholeColumnReference => "a formula of the template sheet refers to a whole column; its detail rows cannot be removed"@,
        RenderError::Write(msg) => msg@,
    }
}

impl RenderError {
    /// The error's message.
    pub fn message(&self) -> (r: String)
        ensures
            r@ == spec_render_message(*self),
    {
        match self {
            RenderError::ReadTemplate(msg) => msg.clone(),
            RenderError::SheetNotFound(n, why) => {
                let mut r = String::new();
                push_all(&mut r, "template sheet `");
                push_all(&mut r, n.as_str());
                push_all(&mut r, "` not found: ");
                push_all(&mut r, why.as_str());
                assert(r@ =~= spec_render_message(*self));
                r
            },
            RenderError::RowOverflow => {
                let mut r = String::new();
                push_all(&mut r, "the rendered rows do not fit the sheet");
                r
            },
            RenderError::WholeColumnReference => {
                let mut r = String::new();
                push_all(
                    &mut r,
                    "a formula of the template sheet refers to a whole column; its detail rows cannot be removed",
                );
                r
            },
            RenderError::Write(msg) => msg.clone(),
        }
    }
}

// ---------------------------------------------------------------------------
// The template model
// ---------------------------------------------------------------------------

/// A single template cell, with its style cloned out of the workbook.
pub struct TplCell {
    pub col: u32,
    /// The cell's literal value, or its formula text when `is_formula`.
    pub content: String,
    pub is_formula: bool,
    /// Set when the cell's comment marked it as a data parameter.
    pub param: Option<Param>,
    pub style: umya_spreadsheet::Style,
}

/// A template row: its control label plus content cells and any single-row merges.
pub struct TplRow {
    pub row: u32,
    /// The control label parsed from column A (`header`, `row1`, `footer`, …,
    /// or empty for a static row), with any `(field,names)` schema stripped off.
    pub label: String,
    pub cells: Vec<TplCell>,
    /// Horizontal merges on this row, as `(start_col, end_col)`.
    pub merges: Vec<(u32, u32)>,
    /// The row's dimension record, when the template has one.
    pub dimension: Option<umya_spreadsheet::Row>,
    /// The bit pattern of the row's height, when the designer set a positive
    /// one (it is copied to the rows made from it).
    pub height: Option<u64>,
}

/// The owned, workbook-independent template model.
pub struct TplModel {
    pub rows: Vec<TplRow>,
    /// Ordered field names declared per label, e.g.
    /// `header → [date, receipt, customer, address]`; the first declaration of
    /// a label is the one that counts.
    pub schemas: Vec<(String, Vec<String>)>,
}

/// A template cell, as plain values.
pub struct TplCellView {
    pub col: u32,
    pub content: Seq<char>,
    pub is_formula: bool,
    pub param: Option<ParamView>,
    pub style: umya_spreadsheet::Style,
}

/// A template row, as plain values.
pub struct TplRowView {
    pub row: u32,
    pub label: Seq<char>,
    pub cells: Seq<TplCellView>,
    pub merges: Seq<(u32, u32)>,
    pub height: Option<u64>,
}

/// The template model, as plain values.
pub struct TplModelView {
    pub rows: Seq<TplRowView>,
    pub schemas: Seq<(Seq<char>, Seq<Seq<char>>)>,
}

impl View for TplCell {
    type V = TplCellView;

    open spec fn view(&self) -> TplCellView {
        TplCellView {
            col: self.col,
            content: self.content@,
            is_formula: self.is_formula,
            param: match self.param {
                Some(p) => Some(p@),
                None => None,
            },
            style: self.style,
        }
    }
}

impl View for TplRow {
    type V = TplRowView;

    open spec fn view(&self) -> TplRowView {
        TplRowView {
            row: self.row,
            label: self.label@,
            cells: self.cells@.map_values(|c: TplCell| c@),
            merges: self.merges@,
            height: self.height,
        }
    }
}

impl View for TplModel {
    type V = TplModelView;

    open spec fn view(&self) -> TplModelView {
        TplModelView {
            rows: self.rows@.map_values(|r: TplRow| r@),
            schemas: self.schemas@.map_values(
                |e: (String, Vec<String>)| (e.0@, strings_view(e.1@)),
            ),
        }
    }
}

impl TplModel {
    /// Every parameter of the model can be resolved, and every row with a
    /// height has its dimension record.
    pub open spec fn wf(&self) -> bool {
        &&& forall|i: int, k: int|
            0 <= i < self@.rows.len() && 0 <= k < self@.rows[i].cells.len()
                ==> cell_param_ok(#[trigger] self@.rows[i].cells[k])
        &&& forall|i: int|
            0 <= i < self.rows@.len() && (#[trigger] self.rows@[i]).height is Some
                ==> self.rows@[i].dimension is Some
    }
}

/// The cell's parameter, if any, can be resolved.
pub open spec fn cell_param_ok(c: TplCellView) -> bool {
    c.param matches Some(p) ==> param_ok(p)
}

/// The schema declared for `label`: the first one in the list.
pub open spec fn schema_of(schemas: Seq<(Seq<char>, Seq<Seq<char>>)>, label: Seq<char>) -> Option<
    Seq<Seq<char>>,
>
    decreases schemas.len(),
{
    if schemas.len() == 0 {
        None
    } else if schemas[0].0 == label {
        Some(schemas[0].1)
    } else {
        schema_of(schemas.drop_first(), label)
    }
}

/// The schema declared for `label`, if any.
pub fn find_schema<'a>(schemas: &'a Vec<(String, Vec<String>)>, label: &str) -> (r: Option<
    &'a Vec<String>,
>)
    ensures
        match schema_of(
            schemas@.map_values(|e: (String, Vec<String>)| (e.0@, strings_view(e.1@))),
            label@,
        ) {
            Some(names) => r matches Some(v) && strings_view(v@) == names,
            None => r is None,
        },
{
    let ghost sv = schemas@.map_values(|e: (String, Vec<String>)| (e.0@, strings_view(e.1@)));
    let mut i: usize = 0;
    assert(sv.subrange(0, sv.len() as int) =~= sv);
    while i < schemas.len()
        invariant
            i <= schemas@.len(),
            sv == schemas@.map_values(|e: (String, Vec<String>)| (e.0@, strings_view(e.1@))),
            schema_of(sv, label@) == schema_of(sv.subrange(i as int, sv.len() as int), label@),
        decreases schemas@.len() - i,
    {
        let ghost rest = sv.subrange(i as int, sv.len() as int);
        assert(rest[0] == sv[i as int]);
        if str_eq(schemas[i].0.as_str(), label) {
            return Some(&schemas[i].1);
        }
        assert(rest.drop_first() =~= sv.subrange(i + 1, sv.len() as int));
        i = i + 1;
    }
    assert(sv.subrange(i as int, sv.len() as int) =~= Seq::<(Seq<char>, Seq<Seq<char>>)>::empty());
    None
}

// ---------------------------------------------------------------------------
// Warnings
// ---------------------------------------------------------------------------

/// The non-empty labels of the template rows.
pub open spec fn template_labels(model: TplModelView) -> Set<Seq<char>> {
    Set::new(
        |l: Seq<char>|
            l.len() > 0 && exists|i: int| 0 <= i < model.rows.len() && model.rows[i].label == l,
    )
}

/// The labels among the first `n` records that no template row has, each
/// once, in order of first appearance.
pub open spec fn unmatched_labels(records: Seq<RecordView>, labels: Set<Seq<char>>, n: nat) -> Seq<
    Seq<char>,
>
    decreases n,
{
    if n == 0 {
        Seq::empty()
    } else {
        let prev = unmatched_labels(records, labels, (n - 1) as nat);
        let l = records[n - 1].label;
        if !labels.contains(l) && !prev.contains(l) {
            prev.push(l)
        } else {
            prev
        }
    }
}

/// The warning about an unused data label.
pub open spec fn warning_text(label: Seq<char>) -> Seq<char> {
    "data label `"@ + label + "` has no matching template row — those records are ignored"@
}

/// The warnings about a list of labels.
pub open spec fn warnings_of(labels: Seq<Seq<char>>) -> Seq<Seq<char>> {
    labels.map_values(|l: Seq<char>| warning_text(l))
}

/// The warnings for a sheet: one per data label that no template row has.
pub open spec fn spec_warnings(model: TplModelView, sheet: SheetView) -> Seq<Seq<char>> {
    warnings_of(unmatched_labels(sheet.records, template_labels(model), sheet.records.len()))
}

/// The unmatched labels among the first `n` records: no label twice, and a
/// label is listed exactly when one of those records has it and the template
/// does not.
pub proof fn lemma_unmatched_labels(records: Seq<RecordView>, labels: Set<Seq<char>>, n: nat)
    requires
        n <= records.len(),
    ensures
        ({
            let u = unmatched_labels(records, labels, n);
            &&& forall|a: int, b: int| 0 <= a < b < u.len() ==> u[a] != u[b]
            &&& forall|l: Seq<char>|
                u.contains(l) <==> (exists|i: int| 0 <= i < n && #[trigger] records[i].label == l)
                    && !labels.contains(l)
        }),
    decreases n,
{
    if n > 0 {
        lemma_unmatched_labels(records, labels, (n - 1) as nat);
        let prev = unmatched_labels(records, labels, (n - 1) as nat);
        let u = unmatched_labels(records, labels, n);
        let l0 = records[n - 1].label;
        assert forall|l: Seq<char>|
            u.contains(l) <==> (exists|i: int| 0 <= i < n && #[trigger] records[i].label == l)
                && !labels.contains(l) by {
            if u.contains(l) {
                let k = choose|k: int| 0 <= k < u.len() && u[k] == l;
                if k < prev.len() {
                    assert(prev[k] == l);
                    assert(prev.contains(l));
                } else {
                    assert(records[n - 1].label == l);
                }
            }
            if (exists|i: int| 0 <= i < n && #[trigger] records[i].label == l) && !labels.contains(l) {
                let i = choose|i: int| 0 <= i < n && #[trigger] records[i].label == l;
                if i < n - 1 {
                    assert(prev.contains(l));
                    let k = choose|k: int| 0 <= k < prev.len() && prev[k] == l;
                    assert(u[k] == l);
                } else if !prev.contains(l) {
                    assert(u[u.len() - 1] == l);
                } else {
                    let k = choose|k: int| 0 <= k < prev.len() && prev[k] == l;
                    assert(u[k] == l);
                }
            }
        }
    }
}

/// Each data label that no template row carries is warned about exactly once,
/// in order of first appearance; no other label is.
pub proof fn law_warnings_once_per_unmatched_label(model: TplModelView, sheet: SheetView)
    ensures
        ({
            let u = unmatched_labels(sheet.records, template_labels(model), sheet.records.len());
            &&& spec_warnings(model, sheet) == warnings_of(u)
            &&& forall|a: int, b: int| 0 <= a < b < u.len() ==> u[a] != u[b]
            &&& forall|l: Seq<char>|
                u.contains(l) <==> (exists|i: int|
                    0 <= i < sheet.records.len() && #[trigger] sheet.records[i].label == l) && !(
                l.len() > 0 && exists|k: int|
                    0 <= k < model.rows.len() && #[trigger] model.rows[k].label == l)
        }),
{
    lemma_unmatched_labels(sheet.records, template_labels(model), sheet.records.len());
}

/// Non-fatal warnings: data records whose label matches no template row (their
/// data is silently unused — usually a typo or a template/data mismatch).
pub fn collect_warnings(model: &TplModel, sheet: &Sheet) -> (r: Vec<String>)
    ensures
        strings_view(r@) == spec_warnings(model@, sheet@),
{
    let ghost labels = template_labels(model@);
    let ghost recs = sheet@.records;
    let mut tpl_labels: Vec<String> = Vec::new();
    let mut k: usize = 0;
    while k < model.rows.len()
        invariant
            k <= model.rows@.len(),
            labels == template_labels(model@),
            forall|j: int| 0 <= j < tpl_labels@.len() ==> labels.contains(#[trigger] tpl_labels@[j]@),
            forall|l: Seq<char>|
                l.len() > 0 && (exists|i: int| 0 <= i < k && model@.rows[i].label == l)
                    ==> exists|j: int| 0 <= j < tpl_labels@.len() && #[trigger] tpl_labels@[j]@ == l,
        decreases model.rows@.len() - k,
    {
        assert(model@.rows[k as int] == model.rows@[k as int]@);
        let lab = &model.rows[k].label;
        let ghost old_labels = tpl_labels@;
        if chars_of(lab.as_str()).len() > 0 {
            tpl_labels.push(lab.clone());
            assert(tpl_labels@[tpl_labels@.len() - 1]@ == model@.rows[k as int].label);
            assert(labels.contains(lab@));
            assert forall|j: int| 0 <= j < tpl_labels@.len() implies labels.contains(
                #[trigger] tpl_labels@[j]@,
            ) by {
                if j < old_labels.len() {
                    assert(tpl_labels@[j] == old_labels[j]);
                }
            }
        }
        assert forall|l: Seq<char>|
            l.len() > 0 && (exists|i: int| 0 <= i < k + 1 && model@.rows[i].label == l) implies exists|
            j: int,
        | 0 <= j < tpl_labels@.len() && #[trigger] tpl_labels@[j]@ == l by {
            let i = choose|i: int| 0 <= i < k + 1 && model@.rows[i].label == l;
            if i < k {
                let j = choose|j: int| 0 <= j < old_labels.len() && #[trigger] old_labels[j]@ == l;
                assert(tpl_labels@[j] == old_labels[j]);
            } else {
                assert(tpl_labels@[tpl_labels@.len() - 1]@ == l);
            }
        }
        k = k + 1;
    }
    let mut warnings: Vec<String> = Vec::new();
    let mut reported: Vec<String> = Vec::new();
    let mut i: usize = 0;
    while i < sheet.records.len()
        invariant
            i <= sheet.records@.len(),
            recs == sheet@.records,
            labels == template_labels(model@),
            forall|j: int| 0 <= j < tpl_labels@.len() ==> labels.contains(#[trigger] tpl_labels@[j]@),
            forall|l: Seq<char>|
                labels.contains(l) ==> exists|j: int|
                    0 <= j < tpl_labels@.len() && #[trigger] tpl_labels@[j]@ == l,
            strings_view(reported@) == unmatched_labels(recs, labels, i as nat),
            strings_view(warnings@) == warnings_of(unmatched_labels(recs, labels, i as nat)),
        decreases sheet.records@.len() - i,
    {
        let lab = &sheet.records[i].label;
        assert(recs[i as int].label == lab@);
        let mut known = false;
        let mut j: usize = 0;
        while j < tpl_labels.len()
            invariant
                j <= tpl_labels@.len(),
                known <==> exists|q: int| 0 <= q < j && #[trigger] tpl_labels@[q]@ == lab@,
            decreases tpl_labels@.len() - j,
        {
            if str_eq(tpl_labels[j].as_str(), lab.as_str()) {
                known = true;
            }
            j = j + 1;
        }
        let mut seen = false;
        let mut q: usize = 0;
        while q < reported.len()
            invariant
                q <= reported@.len(),
                seen <==> exists|t: int| 0 <= t < q && #[trigger] reported@[t]@ == lab@,
            decreases reported@.len() - q,
        {
            if str_eq(reported[q].as_str(), lab.as_str()) {
                seen = true;
            }
            q = q + 1;
        }
        let ghost prev = unmatched_labels(recs, labels, i as nat);
        proof {
            assert(known == labels.contains(lab@));
            assert(seen == prev.contains(lab@)) by {
                if seen {
                    let t = choose|t: int| 0 <= t < reported@.len() && #[trigger] reported@[t]@ == lab@;
                    assert(prev[t] == reported@[t]@);
                }
                if prev.contains(lab@) {
                    let t = choose|t: int| 0 <= t < prev.len() && prev[t] == lab@;
                    assert(strings_view(reported@)[t] == reported@[t]@);
                }
            }
        }
        if !known && !seen {
            let mut w = String::new();
            push_all(&mut w, "data label `");
            push_all(&mut w, lab.as_str());
            push_all(&mut w, "` has no matching template row — those records are ignored");
            assert(w@ =~= warning_text(lab@));
            let ghost ow = warnings@;
            warnings.push(w);
            reported.push(lab.clone());
            assert(strings_view(reported@) =~= prev.push(lab@));
            assert(strings_view(ow).len() == ow.len());
            assert(warnings_of(prev).len() == prev.len());
            assert forall|t: int| 0 <= t < warnings@.len() implies strings_view(warnings@)[t]
                == warnings_of(prev.push(lab@))[t] by {
                if t < ow.len() {
                    assert(warnings@[t] == ow[t]);
                    assert(strings_view(ow)[t] == warnings_of(prev)[t]);
                    assert(prev.push(lab@)[t] == prev[t]);
                }
            }
            assert(strings_view(warnings@) =~= warnings_of(prev.push(lab@)));
        }
        i = i + 1;
    }
    warnings
}

// ---------------------------------------------------------------------------
// Reading the template model out of a workbook
// ---------------------------------------------------------------------------

/// The control labels sit in column A.
pub const TAG_COL: u32 = 1;

/// A comment's text: its plain text node when that is not empty, else its
/// rich-text runs, else nothing.
pub open spec fn spec_comment_text(plain: Option<Seq<char>>, rich: Option<Seq<char>>) -> Seq<char> {
    match plain {
        Some(p) if p.len() > 0 => p,
        _ => match rich {
            Some(r) => r,
            None => Seq::empty(),
        },
    }
}

pub open spec fn opt_view(o: Option<String>) -> Option<Seq<char>> {
    match o {
        Some(s) => Some(s@),
        None => None,
    }
}

/// Read a comment's text, handling both **plain** comments (as xforme writes
/// them) and **rich-text** comments (as Excel/LibreOffice rewrite them on save).
pub fn comment_text(plain: &Option<String>, rich: &Option<String>) -> (r: String)
    ensures
        r@ == spec_comment_text(opt_view(*plain), opt_view(*rich)),
{
    match plain {
        Some(p) => {
            if chars_of(p.as_str()).len() > 0 {
                return p.clone();
            }
        },
        None => {},
    }
    match rich {
        Some(t) => t.clone(),
        None => String::new(),
    }
}

/// A merged range survives the resize of the band unless it lies within rows
/// `lo..=hi`; text that is not a range is kept.
pub open spec fn spec_keep_merge(range: Seq<char>, lo: u32, hi: u32) -> bool {
    if range_ok(range) {
        let v = range_value(range);
        !(v.1 >= lo && v.3 <= hi)
    } else {
        true
    }
}

/// Whether the merged range `range` is kept when the band spans `lo..=hi`.
pub fn keep_merge(range: &String, lo: u32, hi: u32) -> (r: bool)
    ensures
        r == spec_keep_merge(range@, lo, hi),
{
    let s = chars_of(range.as_str());
    match parse_range_checked(&s) {
        Some((_, r1, _, r2)) => !(r1 >= lo && r2 <= hi),
        None => true,
    }
}

// What the engine reads of a template sheet, before any decision is made.

/// One existing cell of a template row (from column B on).
pub struct RawCell {
    pub col: u32,
    pub data: CellData,
}

/// One template row as read: its column-A text, its existing cells from
/// column B on in column order, and its dimension record with the bit
/// pattern of its height, when it has one.
pub struct RawRow {
    pub tag: String,
    pub cells: Vec<RawCell>,
    pub dimension: Option<(umya_spreadsheet::Row, u64)>,
}

/// A template sheet as read: its rows from the first to the last used one,
/// its merged ranges, and its comments.
pub struct RawTemplate {
    pub rows: Vec<RawRow>,
    pub merges: Vec<String>,
    pub comments: Vec<CommentData>,
}

pub struct RawCellView {
    pub col: u32,
    pub is_formula: bool,
    pub formula: Seq<char>,
    pub value: Seq<char>,
    pub style: umya_spreadsheet::Style,
}

pub struct RawRowView {
    pub tag: Seq<char>,
    pub cells: Seq<RawCellView>,
    pub height_bits: Option<u64>,
}

pub struct CommentView {
    pub col: u32,
    pub row: u32,
    pub plain: Option<Seq<char>>,
    pub rich: Option<Seq<char>>,
}

pub struct RawTemplateView {
    pub rows: Seq<RawRowView>,
    pub merges: Seq<Seq<char>>,
    pub comments: Seq<CommentView>,
}

impl View for RawCell {
    type V = RawCellView;

    open spec fn view(&self) -> RawCellView {
        RawCellView {
            col: self.col,
            is_formula: self.data.is_formula,
            formula: self.data.formula@,
            value: self.data.value@,
            style: self.data.style,
        }
    }
}

impl View for RawRow {
    type V = RawRowView;

    open spec fn view(&self) -> RawRowView {
        RawRowView {
            tag: self.tag@,
            cells: self.cells@.map_values(|c: RawCell| c@),
            height_bits: match self.dimension {
                Some(d) => Some(d.1),
                None => None,
            },
        }
    }
}

impl View for CommentData {
    type V = CommentView;

    open spec fn view(&self) -> CommentView {
        CommentView { col: self.col, row: self.row, plain: opt_view(self.plain), rich: opt_view(self.rich) }
    }
}

impl View for RawTemplate {
    type V = RawTemplateView;

    open spec fn view(&self) -> RawTemplateView {
        RawTemplateView {
            rows: self.rows@.map_values(|r: RawRow| r@),
            merges: strings_view(self.merges@),
            comments: self.comments@.map_values(|c: CommentData| c@),
        }
    }
}

/// The parameter marked at `(col, row)`: that of the last comment there
/// whose text carries a marker.
pub open spec fn marked_param(comments: Seq<CommentView>, col: u32, row: u32) -> Option<ParamView>
    decreases comments.len(),
{
    if comments.len() == 0 {
        None
    } else {
        let c = comments.last();
        let p = spec_parse_param(spec_comment_text(c.plain, c.rich));
        if c.col == col && c.row == row && p is Some {
            p
        } else {
            marked_param(comments.drop_last(), col, row)
        }
    }
}

/// The single-row merges on `row`, in order, as `(start_col, end_col)`; text
/// that is not a range is passed over.
pub open spec fn row_merges(ranges: Seq<Seq<char>>, row: u32) -> Seq<(u32, u32)>
    decreases ranges.len(),
{
    if ranges.len() == 0 {
        Seq::empty()
    } else {
        let prev = row_merges(ranges.drop_last(), row);
        let r = ranges.last();
        if range_ok(r) && range_value(r).1 == range_value(r).3 && range_value(r).1 == row {
            prev.push((range_value(r).0, range_value(r).2))
        } else {
            prev
        }
    }
}

/// A float's bit pattern denotes a number above zero (not negative, not
/// zero, not NaN).
pub open spec fn bits_positive(bits: u64) -> bool {
    0 < bits && bits <= 0x7ff0_0000_0000_0000
}

/// A template cell: its formula text when it holds a formula, else its value.
pub open spec fn model_cell(c: RawCellView, param: Option<ParamView>) -> TplCellView {
    TplCellView {
        col: c.col,
        content: if c.is_formula {
            c.formula
        } else {
            c.value
        },
        is_formula: c.is_formula,
        param,
        style: c.style,
    }
}

/// The `i`-th template row (sheet row `i + 1`): its label, its cells with the
/// parameters marked on them, its single-row merges, and its height when
/// positive.
pub open spec fn model_row(raw: RawTemplateView, i: int) -> TplRowView {
    let rr = raw.rows[i];
    let row = (i + 1) as u32;
    TplRowView {
        row,
        label: spec_parse_tag(rr.tag).0,
        cells: rr.cells.map_values(
            |c: RawCellView| model_cell(c, marked_param(raw.comments, c.col, row)),
        ),
        merges: row_merges(raw.merges, row),
        height: match rr.height_bits {
            Some(b) => if bits_positive(b) {
                Some(b)
            } else {
                None
            },
            None => None,
        },
    }
}

/// The field-name schemas declared by the rows, in order; the first
/// declaration of a label wins.
pub open spec fn model_schemas(rows: Seq<RawRowView>) -> Seq<(Seq<char>, Seq<Seq<char>>)>
    decreases rows.len(),
{
    if rows.len() == 0 {
        Seq::empty()
    } else {
        let prev = model_schemas(rows.drop_last());
        let tag = spec_parse_tag(rows.last().tag);
        match tag.1 {
            Some(names) => if schema_of(prev, tag.0) is None {
                prev.push((tag.0, names))
            } else {
                prev
            },
            None => prev,
        }
    }
}

/// The first row that declares a label's field names decides its schema;
/// later declarations of the label, and bare uses of it, change nothing.
pub proof fn law_first_schema_declaration_wins(rows: Seq<RawRowView>, label: Seq<char>)
    ensures
        match schema_of(model_schemas(rows), label) {
            Some(names) => exists|i: int|
                0 <= i < rows.len() && #[trigger] spec_parse_tag(rows[i].tag) == (
                    label,
                    Some(names),
                ) && forall|j: int|
                    0 <= j < i ==> !(spec_parse_tag(rows[j].tag).0 == label && spec_parse_tag(
                        rows[j].tag,
                    ).1 is Some),
            None => forall|j: int|
                0 <= j < rows.len() ==> !(spec_parse_tag(rows[j].tag).0 == label
                    && #[trigger] spec_parse_tag(rows[j].tag).1 is Some),
        },
    decreases rows.len(),
{
    if rows.len() > 0 {
        let init = rows.drop_last();
        law_first_schema_declaration_wins(init, label);
        let prev = model_schemas(init);
        let tag = spec_parse_tag(rows.last().tag);
        match schema_of(prev, label) {
            Some(names) => {
                let i = choose|i: int|
                    0 <= i < init.len() && #[trigger] spec_parse_tag(init[i].tag) == (
                        label,
                        Some(names),
                    ) && forall|j: int|
                        0 <= j < i ==> !(spec_parse_tag(init[j].tag).0 == label && spec_parse_tag(
                            init[j].tag,
                        ).1 is Some);
                assert(rows[i] == init[i]);
                assert forall|j: int| 0 <= j < i implies !(spec_parse_tag(rows[j].tag).0 == label
                    && spec_parse_tag(rows[j].tag).1 is Some) by {
                    assert(rows[j] == init[j]);
                }
                if let Some(n2) = tag.1 {
                    if schema_of(prev, tag.0) is None {
                        lemma_schema_of_append(prev, tag.0, n2, label);
                    }
                }
            },
            None => {
                assert forall|j: int| 0 <= j < init.len() implies !(spec_parse_tag(rows[j].tag).0
                    == label && #[trigger] spec_parse_tag(rows[j].tag).1 is Some) by {
                    assert(rows[j] == init[j]);
                    assert(!(spec_parse_tag(init[j].tag).0 == label && spec_parse_tag(init[j].tag).1 is Some));
                }
                match tag.1 {
                    Some(n2) => {
                        if schema_of(prev, tag.0) is None {
                            lemma_schema_of_append(prev, tag.0, n2, label);
                            if tag.0 == label {
                                let last = rows.len() - 1;
                                assert(spec_parse_tag(rows[last].tag) == (label, Some(n2)));
                            }
                        }
                    },
                    None => {},
                }
            },
        }
    }
}

/// Looking up a label in a list of schemas with one more at its end.
proof fn lemma_schema_of_append(
    list: Seq<(Seq<char>, Seq<Seq<char>>)>,
    l: Seq<char>,
    names: Seq<Seq<char>>,
    label: Seq<char>,
)
    ensures
        schema_of(list.push((l, names)), label) == match schema_of(list, label) {
            Some(n) => Some(n),
            None => if l == label {
                Some(names)
            } else {
                None
            },
        },
    decreases list.len(),
{
    let ext = list.push((l, names));
    assert(ext[0] == if list.len() > 0 {
        list[0]
    } else {
        (l, names)
    });
    if list.len() > 0 {
        assert(ext.drop_first() =~= list.drop_first().push((l, names)));
        lemma_schema_of_append(list.drop_first(), l, names, label);
    } else {
        assert(ext.drop_first() =~= Seq::<(Seq<char>, Seq<Seq<char>>)>::empty());
        assert(schema_of(ext.drop_first(), label) is None);
    }
}

/// The template model of a sheet as read.
pub open spec fn spec_model(raw: RawTemplateView) -> TplModelView {
    TplModelView {
        rows: Seq::new(raw.rows.len(), |i: int| model_row(raw, i)),
        schemas: model_schemas(raw.rows),
    }
}

/// A marker that parses is one that can be resolved.
proof fn lemma_parse_param_ok(comment: Seq<char>)
    ensures
        spec_parse_param(comment) matches Some(p) ==> param_ok(p),
{
}

proof fn lemma_marked_param_ok(comments: Seq<CommentView>, col: u32, row: u32)
    ensures
        marked_param(comments, col, row) matches Some(p) ==> param_ok(p),
    decreases comments.len(),
{
    if comments.len() > 0 {
        let c = comments.last();
        lemma_parse_param_ok(spec_comment_text(c.plain, c.rich));
        lemma_marked_param_ok(comments.drop_last(), col, row);
    }
}

/// The parameter marked at `(col, row)`.
fn param_at(comments: &Vec<CommentData>, col: u32, row: u32) -> (r: Option<Param>)
    ensures
        match marked_param(comments@.map_values(|c: CommentData| c@), col, row) {
            Some(p) => r matches Some(q) && q@ == p,
            None => r is None,
        },
{
    let ghost cv = comments@.map_values(|c: CommentData| c@);
    let mut j: usize = comments.len();
    assert(cv.subrange(0, j as int) =~= cv);
    while j > 0
        invariant
            j <= comments@.len(),
            cv == comments@.map_values(|c: CommentData| c@),
            marked_param(cv, col, row) == marked_param(cv.subrange(0, j as int), col, row),
        decreases j,
    {
        let ghost pre = cv.subrange(0, j as int);
        assert(pre.drop_last() =~= cv.subrange(0, j - 1));
        assert(pre.last() == comments@[j - 1]@);
        let c = &comments[j - 1];
        if c.col == col && c.row == row {
            let text = comment_text(&c.plain, &c.rich);
            match parse_param(text.as_str()) {
                Some(p) => {
                    return Some(p);
                },
                None => {},
            }
        }
        j = j - 1;
    }
    None
}

/// The single-row merges on `row`, in order, as `(start_col, end_col)`.
fn merges_on_row(ranges: &Vec<String>, row: u32) -> (r: Vec<(u32, u32)>)
    ensures
        r@ == row_merges(strings_view(ranges@), row),
{
    let ghost rv = strings_view(ranges@);
    let mut r: Vec<(u32, u32)> = Vec::new();
    let mut j: usize = 0;
    while j < ranges.len()
        invariant
            j <= ranges@.len(),
            rv == strings_view(ranges@),
            r@ == row_merges(rv.subrange(0, j as int), row),
        decreases ranges@.len() - j,
    {
        let ghost pre = rv.subrange(0, j + 1);
        assert(pre.drop_last() =~= rv.subrange(0, j as int));
        assert(pre.last() == ranges@[j as int]@);
        let rc = chars_of(ranges[j].as_str());
        match parse_range_checked(&rc) {
            Some((c1, r1, c2, r2)) => {
                if r1 == r2 && r1 == row {
                    r.push((c1, c2));
                }
            },
            None => {},
        }
        j = j + 1;
    }
    assert(rv.subrange(0, ranges@.len() as int) =~= rv);
    r
}

/// Build the template model of a sheet as read: for every row, its column-A
/// label and schema, its cells (with the parameter marked on each cell's
/// comment), its single-row merges, and its height.
pub fn build_model(raw: RawTemplate) -> (m: TplModel)
    requires
        raw@.rows.len() <= u32::MAX,
    ensures
        m@ == spec_model(raw@),
        m.wf(),
{
    let ghost rv = raw@;
    let RawTemplate { rows: raw_rows, merges, comments } = raw;
    let ghost all_rows = raw_rows@;
    let ghost cv = comments@.map_values(|c: CommentData| c@);
    let mut rest = raw_rows;
    let mut rows: Vec<TplRow> = Vec::new();
    let mut schemas: Vec<(String, Vec<String>)> = Vec::new();
    let mut i: usize = 0;
    assert(all_rows.subrange(0, all_rows.len() as int) =~= all_rows);
    while rest.len() > 0
        invariant
            i + rest@.len() == all_rows.len(),
            all_rows.len() <= u32::MAX,
            rest@ == all_rows.subrange(i as int, all_rows.len() as int),
            rv.rows == all_rows.map_values(|r: RawRow| r@),
            rv.merges == strings_view(merges@),
            rv.comments == comments@.map_values(|c: CommentData| c@),
            cv == rv.comments,
            rows@.len() == i,
            forall|k: int| 0 <= k < i ==> (#[trigger] rows@[k])@ == model_row(rv, k),
            forall|k: int|
                0 <= k < i && (#[trigger] rows@[k]).height is Some ==> rows@[k].dimension is Some,
            forall|k: int, q: int|
                0 <= k < i && 0 <= q < rows@[k]@.cells.len() ==> cell_param_ok(
                    #[trigger] rows@[k]@.cells[q],
                ),
            schemas@.map_values(|e: (String, Vec<String>)| (e.0@, strings_view(e.1@)))
                == model_schemas(rv.rows.subrange(0, i as int)),
        decreases rest@.len(),
    {
        let rr = rest.remove(0);
        let ghost rrv = rr@;
        assert(rrv == rv.rows[i as int]);
        let row: u32 = (i + 1) as u32;
        let RawRow { tag, cells: raw_cells, dimension: raw_dimension } = rr;
        let (label, schema) = parse_tag(tag.as_str());
        // First declaration of a label's field schema wins.
        let ghost sv = schemas@.map_values(|e: (String, Vec<String>)| (e.0@, strings_view(e.1@)));
        proof {
            let pre = rv.rows.subrange(0, i + 1);
            assert(pre.drop_last() =~= rv.rows.subrange(0, i as int));
            assert(pre.last() == rrv);
        }
        match schema {
            Some(names) => {
                if find_schema(&schemas, label.as_str()).is_none() {
                    let ghost nv = strings_view(names@);
                    schemas.push((label.clone(), names));
                    assert(schemas@.map_values(|e: (String, Vec<String>)| (e.0@, strings_view(e.1@)))
                        =~= sv.push((label@, nv)));
                }
            },
            None => {},
        }
        let ghost all_cells = raw_cells@;
        let mut cells_rest = raw_cells;
        let mut cells: Vec<TplCell> = Vec::new();
        let mut c: usize = 0;
        let n_cells = cells_rest.len();
        assert(all_cells.subrange(0, all_cells.len() as int) =~= all_cells);
        while cells_rest.len() > 0
            invariant
                c + cells_rest@.len() == all_cells.len(),
                all_cells.len() == n_cells,
                cells_rest@ == all_cells.subrange(c as int, all_cells.len() as int),
                rrv.cells == all_cells.map_values(|x: RawCell| x@),
                cv == comments@.map_values(|x: CommentData| x@),
                cells@.len() == c,
                forall|q: int|
                    0 <= q < c ==> (#[trigger] cells@[q])@ == model_cell(
                        all_cells[q]@,
                        marked_param(cv, all_cells[q]@.col, row),
                    ),
                forall|q: int| 0 <= q < c ==> cell_param_ok(#[trigger] cells@[q]@),
            decreases cells_rest@.len(),
        {
            let rc = cells_rest.remove(0);
            assert(rc == all_cells[c as int]);
            let RawCell { col, data } = rc;
            let CellData { is_formula, formula, value, style } = data;
            let content = if is_formula {
                formula
            } else {
                value
            };
            let param = param_at(&comments, col, row);
            proof {
                lemma_marked_param_ok(cv, col, row);
            }
            cells.push(TplCell { col, content, is_formula, param, style });
            c = c + 1;
        }
        let (dimension, height) = match raw_dimension {
            Some((d, b)) => {
                if 0 < b && b <= 0x7ff0_0000_0000_0000 {
                    (Some(d), Some(b))
                } else {
                    (Some(d), None)
                }
            },
            None => (None, None),
        };
        let trow = TplRow {
            row,
            label,
            cells,
            merges: merges_on_row(&merges, row),
            dimension,
            height,
        };
        proof {
            assert(trow@.cells =~= rrv.cells.map_values(
                |x: RawCellView| model_cell(x, marked_param(rv.comments, x.col, row)),
            ));
            assert(trow@ == model_row(rv, i as int));
        }
        let ghost old_rows = rows@;
        rows.push(trow);
        proof {
            assert forall|k: int, q: int|
                0 <= k < i + 1 && 0 <= q < rows@[k]@.cells.len() implies cell_param_ok(
                #[trigger] rows@[k]@.cells[q],
            ) by {
                if k < i {
                    assert(rows@[k] == old_rows[k]);
                } else {
                    assert(rows@[k]@.cells[q] == rows@[k].cells@[q]@);
                }
            }
            assert forall|k: int| 0 <= k < i + 1 implies (#[trigger] rows@[k])@ == model_row(rv, k) by {
                if k < i {
                    assert(rows@[k] == old_rows[k]);
                }
            }
            assert forall|k: int|
                0 <= k < i + 1 && (#[trigger] rows@[k]).height is Some implies rows@[k].dimension is Some by {
                if k < i {
                    assert(rows@[k] == old_rows[k]);
                }
            }
        }
        i = i + 1;
    }
    let m = TplModel { rows, schemas };
    proof {
        assert(rv.rows.subrange(0, i as int) =~= rv.rows);
        assert(m@.rows =~= spec_model(rv).rows);
        assert forall|k: int, q: int|
            0 <= k < m@.rows.len() && 0 <= q < m@.rows[k].cells.len() implies cell_param_ok(
            #[trigger] m@.rows[k].cells[q],
        ) by {
            assert(m@.rows[k] == m.rows@[k]@);
        }
    }
    m
}

/// The existing cells of `row` in the columns from B to `c`, in column order.
pub open spec fn row_cells(sc: SheetContents, row: u32, c: int) -> Seq<RawCellView>
    decreases c,
{
    if c < 2 {
        Seq::empty()
    } else {
        let prev = row_cells(sc, row, c - 1);
        if sc.cells.contains_key((c as u32, row)) {
            let d = sc.cells[(c as u32, row)];
            prev.push(
                RawCellView {
                    col: c as u32,
                    is_formula: d.is_formula,
                    formula: d.formula,
                    value: d.value,
                    style: sc.styles[(c as u32, row)],
                },
            )
        } else {
            prev
        }
    }
}

/// A sheet row as read: the text of its column-A cell (empty without one),
/// its existing cells from column B up to the highest used column, and its
/// height when it has a dimension record.
pub open spec fn raw_row_of(sc: SheetContents, row: u32) -> RawRowView {
    RawRowView {
        tag: if sc.cells.contains_key((TAG_COL, row)) {
            sc.cells[(TAG_COL, row)].value
        } else {
            Seq::empty()
        },
        cells: row_cells(sc, row, sc.extent.0 as int),
        height_bits: if sc.heights.contains_key(row) {
            Some(sc.heights[row])
        } else {
            None
        },
    }
}

/// What [`read_sheet`] reads of the sheet `name` of `book`: its rows from
/// the first to the highest used one, its merged ranges and its comments;
/// nothing for a sheet that the workbook does not have.
pub open spec fn spec_read_sheet(book: umya_spreadsheet::Workbook, name: Seq<char>) -> RawTemplateView {
    match sheet_contents(book, name) {
        Some(sc) => RawTemplateView {
            rows: Seq::new(sc.extent.1 as nat, |i: int| raw_row_of(sc, (i + 1) as u32)),
            merges: sc.merges,
            comments: sc.comments,
        },
        None => RawTemplateView { rows: Seq::empty(), merges: Seq::empty(), comments: Seq::empty() },
    }
}

/// Read a template sheet: every row up to the last used one, with its
/// column-A text, its existing cells from column B on, and its height; the
/// sheet's merged ranges and its comments.
pub fn read_sheet(book: &umya_spreadsheet::Workbook, sheet_name: &str) -> (r: RawTemplate)
    ensures
        r@ == spec_read_sheet(*book, sheet_name@),
        r@.rows.len() <= u32::MAX,
{
    let ghost sc = match sheet_contents(*book, sheet_name@) {
        Some(sc) => sc,
        None => SheetContents {
            extent: (0u32, 0u32),
            cells: Map::empty(),
            heights: Map::empty(),
            merges: Seq::empty(),
            comments: Seq::empty(),
            hidden: Set::empty(),
            styles: Map::empty(),
            formats: Seq::empty(),
        },
    };
    let (max_col, max_row) = highest_column_and_row(book, sheet_name);
    assert(sc.extent == (max_col, max_row));
    let merges = merge_ranges(book, sheet_name);
    let comments = sheet_comments(book, sheet_name);
    let mut rows: Vec<RawRow> = Vec::new();
    let mut r: u64 = 1;
    while r <= max_row as u64
        invariant
            1 <= r <= max_row as u64 + 1,
            rows@.len() == r - 1,
            sc.extent == (max_col, max_row),
            sheet_contents(*book, sheet_name@) is Some ==> sheet_contents(*book, sheet_name@) == Some(sc),
            sheet_contents(*book, sheet_name@) is None ==> sc.cells == Map::<(u32, u32), CellDataView>::empty()
                && sc.heights == Map::<u32, u64>::empty(),
            forall|k: int| 0 <= k < rows@.len() ==> (#[trigger] rows@[k])@ == raw_row_of(sc, (k + 1) as u32),
        decreases max_row as u64 + 1 - r,
    {
        let row = r as u32;
        let tag = cell_value(book, sheet_name, TAG_COL, row);
        let mut cells: Vec<RawCell> = Vec::new();
        let mut c: u64 = TAG_COL as u64 + 1;
        while c <= max_col as u64
            invariant
                2 <= c,
                c <= max_col as u64 + 1 || c == 2,
                sc.extent == (max_col, max_row),
                sheet_contents(*book, sheet_name@) is Some ==> sheet_contents(*book, sheet_name@) == Some(sc),
                sheet_contents(*book, sheet_name@) is None ==> sc.cells == Map::<(u32, u32), CellDataView>::empty(),
                cells@.map_values(|x: RawCell| x@) == row_cells(sc, row, c - 1),
            decreases max_col as u64 + 1 - c,
        {
            let col = c as u32;
            let ghost before = cells@.map_values(|x: RawCell| x@);
            match cell_data(book, sheet_name, col, row) {
                Some(data) => {
                    cells.push(RawCell { col, data });
                    assert(cells@.map_values(|x: RawCell| x@) =~= before.push(cells@.last()@));
                },
                None => {
                    assert(cells@.map_values(|x: RawCell| x@) =~= before);
                },
            }
            c = c + 1;
        }
        let dimension = row_dimension(book, sheet_name, row);
        let ghost old_rows = rows@;
        let rr = RawRow { tag, cells, dimension };
        assert(rr@ == raw_row_of(sc, row));
        rows.push(rr);
        assert forall|k: int| 0 <= k < rows@.len() implies (#[trigger] rows@[k])@ == raw_row_of(
            sc,
            (k + 1) as u32,
        ) by {
            if k < old_rows.len() {
                assert(rows@[k] == old_rows[k]);
            }
        }
        r = r + 1;
    }
    let raw = RawTemplate { rows, merges, comments };
    assert(raw@.rows =~= spec_read_sheet(*book, sheet_name@).rows);
    assert(raw@.rows.len() == raw.rows@.len());
    raw
}

/// Read the template model out of the sheet `sheet_name` (see [`read_sheet`]
/// and [`build_model`]).
pub fn extract_template(book: &umya_spreadsheet::Workbook, sheet_name: &str) -> (r: Result<
    TplModel,
    RenderError,
>)
    ensures
        r is Err <==> !workbook_sheets(*book).contains_key(sheet_name@),
        match r {
            Ok(m) => m.wf() && m@ == spec_model(spec_read_sheet(*book, sheet_name@)),
            Err(e) => e matches RenderError::SheetNotFound(n, _) && n@ == sheet_name@,
        },
{
    if let Some(why) = sheet_lookup(book, sheet_name) {
        return Err(RenderError::SheetNotFound(string_of(&chars_of(sheet_name), 0, chars_of(sheet_name).len()), why));
    }
    let raw = read_sheet(book, sheet_name);
    let ghost rv = raw@;
    let m = build_model(raw);
    assert(spec_model(rv) == m@);
    Ok(m)
}

// ---------------------------------------------------------------------------
// Filling: edit the (kept) template sheet in place
// ---------------------------------------------------------------------------

/// A cell write of a fill: where, and what goes there.
pub type CellWrite = ((u32, u32), CellContentView);

/// The cells after one write: a value replaces the cell, a formula keeps the
/// cell's cached value.
pub open spec fn apply_write(cells: Map<(u32, u32), CellDataView>, w: CellWrite) -> Map<
    (u32, u32),
    CellDataView,
> {
    match w.1 {
        CellContentView::Value(v) => cells.insert(w.0, value_cell(v)),
        CellContentView::Formula(f) => cells.insert(
            w.0,
            formula_cell(
                if cells.contains_key(w.0) {
                    cells[w.0]
                } else {
                    blank_cell()
                },
                f,
            ),
        ),
    }
}

/// The cells after the writes `ws`, in order.
pub open spec fn overlay(cells: Map<(u32, u32), CellDataView>, ws: Seq<CellWrite>) -> Map<
    (u32, u32),
    CellDataView,
>
    decreases ws.len(),
{
    if ws.len() == 0 {
        cells
    } else {
        apply_write(overlay(cells, ws.drop_last()), ws.last())
    }
}

/// The cells with every formula's cached result cleared.
pub open spec fn clear_results(cells: Map<(u32, u32), CellDataView>) -> Map<(u32, u32), CellDataView> {
    Map::new(
        |k: (u32, u32)| cells.contains_key(k),
        |k: (u32, u32)|
            if cells[k].is_formula {
                cleared_cell(cells[k])
            } else {
                cells[k]
            },
    )
}

/// The parameter writes of one `header`/`footer` row.
pub open spec fn row_param_writes(p: RowParamsView) -> Seq<CellWrite> {
    p.values.map_values(|v: (u32, Seq<char>)| ((v.0, p.row as u32), CellContentView::Value(v.1)))
}

/// The parameter writes of the rows `ps`, in order.
pub open spec fn param_writes(ps: Seq<RowParamsView>) -> Seq<CellWrite>
    decreases ps.len(),
{
    if ps.len() == 0 {
        Seq::empty()
    } else {
        param_writes(ps.drop_last()) + row_param_writes(ps.last())
    }
}

/// The cell writes of one rendered detail row.
pub open spec fn detail_row_writes(d: DetailRowView) -> Seq<CellWrite> {
    d.cells.map_values(|c: DetailCellView| ((c.col, d.target as u32), c.content))
}

/// The cell writes of the rendered detail rows `ds`, in order.
pub open spec fn detail_writes(ds: Seq<DetailRowView>) -> Seq<CellWrite>
    decreases ds.len(),
{
    if ds.len() == 0 {
        Seq::empty()
    } else {
        detail_writes(ds.drop_last()) + detail_row_writes(ds.last())
    }
}

/// Every cell write of a fill: the parameters, then the detail rows.
pub open spec fn plan_writes(p: FillPlanView) -> Seq<CellWrite> {
    param_writes(p.params) + detail_writes(p.detail)
}

/// The merged ranges added for the rendered detail rows `ds`, in order.
pub open spec fn detail_merge_texts(ds: Seq<DetailRowView>) -> Seq<Seq<char>>
    decreases ds.len(),
{
    if ds.len() == 0 {
        Seq::empty()
    } else {
        detail_merge_texts(ds.drop_last()) + ds.last().merges.map_values(
            |m: Seq<char>| range_text(m),
        )
    }
}

/// The styles the first `k` cells of the rendered detail row `d` take from
/// the template row `src` it is made from, over `m`.
pub open spec fn row_styles(
    m: Map<(u32, u32), umya_spreadsheet::Style>,
    d: DetailRowView,
    src: TplRowView,
    k: nat,
) -> Map<(u32, u32), umya_spreadsheet::Style>
    decreases k,
{
    if k == 0 {
        m
    } else {
        row_styles(m, d, src, (k - 1) as nat).insert(
            (d.cells[k - 1].col, d.target as u32),
            src.cells[k - 1].style,
        )
    }
}

/// The style each cell of the rendered detail rows `ds` takes from its
/// template cell (a later row's cell over an earlier one's).
pub open spec fn detail_styles(model: TplModelView, ds: Seq<DetailRowView>) -> Map<
    (u32, u32),
    umya_spreadsheet::Style,
>
    decreases ds.len(),
{
    if ds.len() == 0 {
        Map::empty()
    } else {
        row_styles(
            detail_styles(model, ds.drop_last()),
            ds.last(),
            model.rows[ds.last().source],
            ds.last().cells.len(),
        )
    }
}

/// The styles of `after` agree with `m` wherever `m` has one.
pub open spec fn styles_agree(
    after: Map<(u32, u32), umya_spreadsheet::Style>,
    m: Map<(u32, u32), umya_spreadsheet::Style>,
) -> bool {
    forall|k: (u32, u32)| #[trigger] m.contains_key(k) ==> after.contains_key(k) && after[k] == m[k]
}

/// The merged ranges kept when the band is rewritten.
pub open spec fn kept_merges(merges: Seq<Seq<char>>, band_rows: Option<(u32, u32)>) -> Seq<
    Seq<char>,
> {
    match band_rows {
        Some((lo, hi)) => merges.filter(|m: Seq<char>| spec_keep_merge(m, lo, hi)),
        None => merges,
    }
}

/// What the template sheet `name` holds after the band resize `r` (its
/// extent aside).
pub open spec fn resized(sc: SheetContents, name: Seq<char>, r: Resize) -> SheetContents {
    match r {
        Resize::Keep => sc,
        Resize::Insert { at, count } => sheet_after_insert(sc, name, at, count),
        Resize::Remove { at, count } => sheet_after_remove(sc, name, at, count),
    }
}

/// The band resize `r` can be made on the sheet.
pub open spec fn resize_ok(sc: SheetContents, r: Resize) -> bool {
    match r {
        Resize::Keep => true,
        Resize::Insert { at, count } => insert_fits(sc, at, count),
        Resize::Remove { at, count } => remove_fits(sc, at, count),
    }
}

/// Why the band resize `r` cannot be made: a row past `u32`, or a formula
/// that names a whole column when rows must be removed.
pub open spec fn resize_error(r: Resize) -> RenderError {
    match r {
        Resize::Remove { at, count } => if at >= 1 && at + count <= u32::MAX {
            RenderError::WholeColumnReference
        } else {
            RenderError::RowOverflow
        },
        _ => RenderError::RowOverflow,
    }
}

/// `name` is the title of at most one sheet.
pub open spec fn titled_once(titles: Seq<Seq<char>>, name: Seq<char>) -> bool {
    forall|i: int, j: int|
        0 <= i < titles.len() && 0 <= j < titles.len() && titles[i] == name && titles[j] == name ==> i == j
}

/// What filling the template sheet `sheet.template` of a workbook holding
/// `before`, whose sheets are titled `titles`, with `model` leaves: where no
/// sheet is titled with the output title, the filled sheet is found under
/// that title (and no longer under the template's name, when that name was
/// the title of that sheet alone), every other sheet as before; the filled
/// sheet has column A hidden and no comments; its cells are the template
/// sheet's cells moved by the band resize (rows past the band land `m - h`
/// rows further down, their formulas adjusted), with every planned write
/// made and every cached formula result cleared; its merges are those the
/// resize left, less those within the rewritten band, followed by the merges
/// of the rendered detail rows; its conditional formats are those the resize
/// left; each cell of a rendered detail row has the
/// style of its template cell; each rendered detail row whose template row
/// has a height has a row dimension.
pub open spec fn filled(
    before: Map<Seq<char>, SheetContents>,
    after: Map<Seq<char>, SheetContents>,
    titles: Seq<Seq<char>>,
    model: TplModelView,
    sheet: SheetView,
) -> bool {
    let t = spec_title(sheet);
    let p = spec_plan(model, sheet);
    let r0 = resized(before[sheet.template], sheet.template, p.resize);
    (spec_rename(sheet) is None || !titles.contains(t)) ==> {
        &&& after.contains_key(t)
        &&& (spec_rename(sheet) is Some && titled_once(titles, sheet.template)) ==> !after.contains_key(
            sheet.template,
        )
        &&& forall|n: Seq<char>|
            n != sheet.template && n != t ==> (#[trigger] after.contains_key(n) <==> before.contains_key(n))
        &&& forall|n: Seq<char>|
            n != sheet.template && n != t && before.contains_key(n) ==> #[trigger] after[n] == before[n]
        &&& after[t].hidden.contains(TAG_COL)
        &&& after[t].comments == Seq::<CommentView>::empty()
        &&& after[t].cells == clear_results(overlay(r0.cells, plan_writes(p)))
        &&& after[t].merges == kept_merges(r0.merges, p.band_rows) + detail_merge_texts(p.detail)
        &&& after[t].formats == r0.formats
        &&& styles_agree(after[t].styles, detail_styles(model, p.detail))
        &&& forall|i: int|
            0 <= i < p.detail.len() && (#[trigger] p.detail[i]).height is Some ==> after[t].heights.contains_key(
                p.detail[i].target as u32,
            )
    }
}

proof fn lemma_increasing_spread(d: Seq<int>, k: int)
    requires
        0 <= k < d.len(),
        forall|a: int, b: int| 0 <= a < b < d.len() ==> d[a] < d[b],
    ensures
        d[k] >= d[0] + k,
    decreases k,
{
    if k > 0 {
        lemma_increasing_spread(d, k - 1);
    }
}

/// A row of the template sheet past the detail band lands `m - h` rows
/// lower once the band is resized to the `m` detail records (`h` being the
/// band's template rows), with its cells' values kept, in a fill that can
/// be carried out.
pub proof fn law_rows_past_band_land_lower(
    sc: SheetContents,
    name: Seq<char>,
    raw: RawTemplateView,
    sheet: SheetView,
    col: u32,
    row: u32,
)
    requires
        raw.rows.len() <= u32::MAX,
        spec_band(spec_model(raw)) is Some,
        row > (spec_band(spec_model(raw))->0).1,
        plan_ok(spec_model(raw), sheet),
        resize_ok(sc, spec_resize(spec_model(raw), sheet)),
        sc.cells.contains_key((col, row)),
    ensures
        ({
            let model = spec_model(raw);
            let h = (spec_band(model)->0).2;
            let to = row + detail_count(sheet) - h;
            let after = resized(sc, name, spec_resize(model, sheet)).cells;
            &&& 0 <= to <= u32::MAX
            &&& after.contains_key((col, to as u32))
            &&& after[(col, to as u32)].value == sc.cells[(col, row)].value
            &&& after[(col, to as u32)].is_formula == sc.cells[(col, row)].is_formula
        }),
{
    let model = spec_model(raw);
    let d = all_detail_rows(model);
    lemma_detail_rows(model.rows, model.rows.len());
    let (start, end, h) = spec_band(model)->0;
    assert(model.rows[d[0]].row == d[0] + 1);
    assert(model.rows[d.last()].row == d.last() + 1);
    lemma_increasing_spread(d, d.len() - 1);
    assert(end >= start + h - 1);
    let m = detail_count(sheet);
    match spec_resize(model, sheet) {
        Resize::Keep => {},
        Resize::Insert { at, count } => {
            assert(at == end && count == m - h);
        },
        Resize::Remove { at, count } => {
            assert(at == start && count == h - m);
            assert(row - count >= at);
            let to = (row - count) as u32;
            assert((to + count) as u32 == row);
        },
    }
}

/// A merged range that reaches above the band's first row, or below its
/// last, is kept when the band is rewritten; so is one whose text does not
/// read as a range.
pub proof fn law_merges_outside_band_kept(merges: Seq<Seq<char>>, lo: u32, hi: u32, i: int)
    requires
        0 <= i < merges.len(),
        range_ok(merges[i]) ==> (range_value(merges[i]).1 < lo || range_value(merges[i]).3 > hi),
    ensures
        kept_merges(merges, Some((lo, hi))).contains(merges[i]),
{
    merges.lemma_filter_contains(|m: Seq<char>| spec_keep_merge(m, lo, hi), i);
}

/// A merged range lying within the band's rows is dropped when the band is
/// rewritten (it is re-added per rendered row).
pub proof fn law_merges_inside_band_dropped(merges: Seq<Seq<char>>, lo: u32, hi: u32, m: Seq<char>)
    requires
        range_ok(m),
        range_value(m).1 >= lo,
        range_value(m).3 <= hi,
    ensures
        !kept_merges(merges, Some((lo, hi))).contains(m),
{
    let kept = kept_merges(merges, Some((lo, hi)));
    if kept.contains(m) {
        let w = choose|w: int| 0 <= w < kept.len() && kept[w] == m;
        merges.lemma_filter_pred(|x: Seq<char>| spec_keep_merge(x, lo, hi), w);
    }
}

/// After a fill, every merged range of the resized template sheet that
/// reaches above the rewritten band's first row, or below its last, is still
/// among the sheet's merges.
pub proof fn law_fill_keeps_merges_outside_band(
    before: Map<Seq<char>, SheetContents>,
    after: Map<Seq<char>, SheetContents>,
    titles: Seq<Seq<char>>,
    model: TplModelView,
    sheet: SheetView,
    q: int,
)
    requires
        filled(before, after, titles, model, sheet),
        spec_rename(sheet) is None || !titles.contains(spec_title(sheet)),
        ({
            let r0 = resized(before[sheet.template], sheet.template, spec_plan(model, sheet).resize);
            &&& 0 <= q < r0.merges.len()
            &&& match spec_plan(model, sheet).band_rows {
                Some((lo, hi)) => range_ok(r0.merges[q]) ==> (range_value(r0.merges[q]).1 < lo
                    || range_value(r0.merges[q]).3 > hi),
                None => true,
            }
        }),
    ensures
        after[spec_title(sheet)].merges.contains(
            resized(before[sheet.template], sheet.template, spec_plan(model, sheet).resize).merges[q],
        ),
{
    let p = spec_plan(model, sheet);
    let r0 = resized(before[sheet.template], sheet.template, p.resize);
    let m = r0.merges[q];
    let kept = kept_merges(r0.merges, p.band_rows);
    match p.band_rows {
        Some((lo, hi)) => {
            law_merges_outside_band_kept(r0.merges, lo, hi, q);
        },
        None => {
            assert(kept[q] == m);
        },
    }
    let w = choose|w: int| 0 <= w < kept.len() && kept[w] == m;
    let all = kept + detail_merge_texts(p.detail);
    assert(all[w] == m);
}

/// Whether the band resize `resize` can be made on the sheet `name`.
#[verifier::loop_isolation(false)]
fn check_resize(book: &umya_spreadsheet::Workbook, name: &str, resize: Resize) -> (r: Result<(), RenderError>)
    requires
        workbook_sheets(*book).contains_key(name@),
    ensures
        match r {
            Ok(()) => resize_ok(workbook_sheets(*book)[name@], resize),
            Err(e) => !resize_ok(workbook_sheets(*book)[name@], resize) && e == resize_error(resize),
        },
{
    let ghost sc = workbook_sheets(*book)[name@];
    match resize {
        Resize::Keep => Ok(()),
        Resize::Insert { at, count } => {
            let limit = 0xffff_ffffu32 - count;
            let dims = row_dimension_rows(book, name);
            let mut i: usize = 0;
            while i < dims.len()
                invariant
                    0 <= i <= dims@.len(),
                    limit == u32::MAX - count,
                    forall|j: int| 0 <= j < i && dims@[j] >= at ==> dims@[j] + count <= u32::MAX,
                decreases dims@.len() - i,
            {
                if dims[i] >= at && dims[i] > limit {
                    return Err(RenderError::RowOverflow);
                }
                i = i + 1;
            }
            let flags = cell_formula_flags(book, name);
            let mut i: usize = 0;
            while i < flags.len()
                invariant
                    0 <= i <= flags@.len(),
                    limit == u32::MAX - count,
                    forall|j: int| 0 <= j < i && flags@[j].1 >= at ==> flags@[j].1 + count <= u32::MAX,
                decreases flags@.len() - i,
            {
                if flags[i].1 >= at && flags[i].1 > limit {
                    proof {
                        assert(sc.cells.contains_key((flags@[i as int].0, flags@[i as int].1)));
                    }
                    return Err(RenderError::RowOverflow);
                }
                i = i + 1;
            }
            assert forall|h: u32| #[trigger] sc.heights.contains_key(h) && h >= at implies h + count <= u32::MAX by {
                let j = choose|j: int| 0 <= j < dims@.len() && dims@[j] == h;
            }
            assert forall|k: (u32, u32)| #[trigger] sc.cells.contains_key(k) && k.1 >= at implies k.1 + count
                <= u32::MAX by {
                let j = choose|j: int| 0 <= j < flags@.len() && flags@[j].0 == k.0 && flags@[j].1 == k.1;
            }
            Ok(())
        },
        Resize::Remove { at, count } => {
            if at == 0 || count > 0xffff_ffffu32 - at {
                return Err(RenderError::RowOverflow);
            }
            let flags = cell_formula_flags(book, name);
            let mut i: usize = 0;
            while i < flags.len()
                invariant
                    0 <= i <= flags@.len(),
                    sc == workbook_sheets(*book)[name@],
                    forall|j: int|
                        0 <= j < flags@.len() ==> sc.cells.contains_key((#[trigger] flags@[j].0, flags@[j].1))
                            && flags@[j].2 == sc.cells[(flags@[j].0, flags@[j].1)].is_formula,
                    forall|j: int|
                        0 <= j < i && #[trigger] flags@[j].2 ==> removal_safe(
                            sc.cells[(flags@[j].0, flags@[j].1)].formula,
                        ),
                decreases flags@.len() - i,
            {
                if flags[i].2 {
                    match cell_data(book, name, flags[i].0, flags[i].1) {
                        Some(d) => {
                            if !removal_safe_formula(d.formula.as_str()) {
                                return Err(RenderError::WholeColumnReference);
                            }
                        },
                        None => {
                            assert(false);
                        },
                    }
                }
                i = i + 1;
            }
            assert forall|k: (u32, u32)| #[trigger] sc.cells.contains_key(k) && sc.cells[k].is_formula implies removal_safe(
                sc.cells[k].formula,
            ) by {
                let j = choose|j: int| 0 <= j < flags@.len() && flags@[j].0 == k.0 && flags@[j].1 == k.1;
                assert(flags@[j].2);
            }
            Ok(())
        },
    }
}

proof fn lemma_overlay_step(c: Map<(u32, u32), CellDataView>, a: Seq<CellWrite>, b: Seq<CellWrite>, k: int)
    requires
        0 <= k < b.len(),
    ensures
        overlay(c, a + b.take(k + 1)) == apply_write(overlay(c, a + b.take(k)), b[k]),
{
    assert((a + b.take(k + 1)).drop_last() =~= a + b.take(k));
    assert((a + b.take(k + 1)).last() == b[k]);
}

proof fn lemma_param_writes_step(ps: Seq<RowParamsView>, i: int)
    requires
        0 <= i < ps.len(),
    ensures
        param_writes(ps.take(i + 1)) == param_writes(ps.take(i)) + row_param_writes(ps[i]),
{
    assert(ps.take(i + 1).drop_last() =~= ps.take(i));
}

proof fn lemma_detail_writes_step(ds: Seq<DetailRowView>, i: int)
    requires
        0 <= i < ds.len(),
    ensures
        detail_writes(ds.take(i + 1)) == detail_writes(ds.take(i)) + detail_row_writes(ds[i]),
        detail_merge_texts(ds.take(i + 1)) == detail_merge_texts(ds.take(i)) + ds[i].merges.map_values(
            |m: Seq<char>| range_text(m),
        ),
{
    assert(ds.take(i + 1).drop_last() =~= ds.take(i));
}

/// The cell `k` is among the first `n` entries of `flags`.
pub open spec fn listed(flags: Seq<(u32, u32, bool)>, n: int, k: (u32, u32)) -> bool {
    exists|j: int| 0 <= j < n && flags[j].0 == k.0 && flags[j].1 == k.1
}

/// Render by editing the kept template sheet in place: carry out the edits
/// that [`plan_fill`] decides — resize the detail band to the data, drop the
/// control column and directive comments, fill parameters, rewrite the band,
/// clear cached formula results, and rename the sheet to the output title.
/// Everything else the designer put in the workbook is left untouched.
pub fn fill_in_place(
    book: &mut umya_spreadsheet::Workbook,
    sheet: &Sheet,
    model: &TplModel,
) -> (r: Result<(), RenderError>)
    requires
        model.wf(),
    ensures
        r is Err <==> (!workbook_sheets(*old(book)).contains_key(sheet@.template) || !plan_ok(
            model@,
            sheet@,
        ) || !resize_ok(workbook_sheets(*old(book))[sheet@.template], spec_resize(model@, sheet@))),
        match r {
            Ok(()) => filled(
                workbook_sheets(*old(book)),
                workbook_sheets(*final(book)),
                sheet_titles(*old(book)),
                model@,
                sheet@,
            ),
            Err(e) => *final(book) == *old(book) && if !workbook_sheets(*old(book)).contains_key(
                sheet@.template,
            ) {
                e matches RenderError::SheetNotFound(n, _) && n@ == sheet@.template
            } else if !plan_ok(model@, sheet@) {
                e == RenderError::RowOverflow
            } else {
                e == resize_error(spec_resize(model@, sheet@))
            },
        },
{
    let ghost before = workbook_sheets(*book);
    let ghost titles0 = sheet_titles(*book);
    let name = sheet.template.as_str();
    if let Some(why) = sheet_lookup(book, name) {
        return Err(RenderError::SheetNotFound(sheet.template.clone(), why));
    }
    let plan = plan_fill(model, sheet)?;
    let ghost pv = plan@;
    let ghost tn = name@;
    check_resize(book, name, plan.resize)?;
    // 1. Resize the detail band to the record count.
    match plan.resize {
        Resize::Insert { at, count } => insert_rows(book, name, at, count),
        Resize::Remove { at, count } => remove_rows(book, name, at, count),
        Resize::Keep => {},
    }
    // 2. The control column and the parameter comments don't belong in output.
    hide_column(book, name, TAG_COL);
    clear_comments(book, name);
    let ghost r0 = resized(before[tn], tn, pv.resize);
    assert(workbook_sheets(*book)[tn].cells == r0.cells);
    assert(workbook_sheets(*book)[tn].merges == r0.merges);
    let ghost c1 = workbook_sheets(*book)[tn].cells;
    let ghost m1 = workbook_sheets(*book)[tn].merges;
    // 3. Parameters of the header/footer rows.
    let mut i: usize = 0;
    while i < plan.params.len()
        invariant
            0 <= i <= plan.params@.len(),
            pv == plan@,
            tn == name@,
            sheet_titles(*book) == titles0,
            workbook_sheets(*book)[tn].formats == r0.formats,
            workbook_sheets(*book).contains_key(tn),
            others_kept(before, workbook_sheets(*book), tn),
            workbook_sheets(*book)[tn].hidden.contains(TAG_COL),
            workbook_sheets(*book)[tn].comments == Seq::<CommentView>::empty(),
            workbook_sheets(*book)[tn].merges == m1,
            workbook_sheets(*book)[tn].cells == overlay(c1, param_writes(pv.params.take(i as int))),
        decreases plan.params@.len() - i,
    {
        let rp = &plan.params[i];
        let ghost done = param_writes(pv.params.take(i as int));
        let ghost rw = row_param_writes(pv.params[i as int]);
        assert(pv.params[i as int] == rp@);
        let mut k: usize = 0;
        while k < rp.values.len()
            invariant
                0 <= k <= rp.values@.len(),
                i < plan.params@.len(),
                rp == &plan.params@[i as int],
                rw == row_param_writes(rp@),
                pv == plan@,
                tn == name@,
                sheet_titles(*book) == titles0,
                workbook_sheets(*book)[tn].formats == r0.formats,
            workbook_sheets(*book)[tn].formats == r0.formats,
            sheet_titles(*book) == titles0,
            workbook_sheets(*book)[tn].formats == r0.formats,
                workbook_sheets(*book).contains_key(tn),
                others_kept(before, workbook_sheets(*book), tn),
                workbook_sheets(*book)[tn].hidden.contains(TAG_COL),
                workbook_sheets(*book)[tn].comments == Seq::<CommentView>::empty(),
                workbook_sheets(*book)[tn].merges == m1,
                workbook_sheets(*book)[tn].cells == overlay(c1, done + rw.take(k as int)),
            decreases rp.values@.len() - k,
        {
            proof {
                lemma_overlay_step(c1, done, rw, k as int);
            }
            set_cell_value(book, name, rp.values[k].0, rp.row, rp.values[k].1.clone());
            k = k + 1;
        }
        proof {
            lemma_param_writes_step(pv.params, i as int);
            assert(rw.take(rw.len() as int) =~= rw);
        }
        i = i + 1;
    }
    assert(pv.params.take(pv.params.len() as int) =~= pv.params);
    // 4. Rewrite the detail band.
    match plan.band_rows {
        Some((lo, hi)) => retain_merges(book, name, lo, hi),
        None => {},
    }
    assert(workbook_sheets(*book)[tn].merges == kept_merges(m1, pv.band_rows));
    proof {
        lemma_detail_rows_shaped(model@, sheet@);
    }
    let ghost pw = param_writes(pv.params);
    let ghost km = kept_merges(m1, pv.band_rows);
    let mut i: usize = 0;
    while i < plan.detail.len()
        invariant
            0 <= i <= plan.detail@.len(),
            pv == plan@,
            pv == spec_plan(model@, sheet@),
            model.wf(),
            tn == name@,
            sheet_titles(*book) == titles0,
            workbook_sheets(*book)[tn].formats == r0.formats,
            forall|j: int| 0 <= j < pv.detail.len() ==> #[trigger] detail_row_shaped(model@, sheet@, j),
            workbook_sheets(*book).contains_key(tn),
            others_kept(before, workbook_sheets(*book), tn),
            workbook_sheets(*book)[tn].hidden.contains(TAG_COL),
            workbook_sheets(*book)[tn].comments == Seq::<CommentView>::empty(),
            workbook_sheets(*book)[tn].merges == km + detail_merge_texts(pv.detail.take(i as int)),
            workbook_sheets(*book)[tn].cells == overlay(c1, pw + detail_writes(pv.detail.take(i as int))),
            styles_agree(workbook_sheets(*book)[tn].styles, detail_styles(model@, pv.detail.take(i as int))),
            forall|j: int|
                0 <= j < i && (#[trigger] pv.detail[j]).height is Some ==> workbook_sheets(
                    *book,
                )[tn].heights.contains_key(pv.detail[j].target as u32),
        decreases plan.detail@.len() - i,
    {
        let d = &plan.detail[i];
        assert(pv.detail[i as int] == d@);
        assert(detail_row_shaped(model@, sheet@, i as int));
        let src = &model.rows[d.source];
        assert(model@.rows[d.source as int] == src@);
        let ghost dw = detail_row_writes(d@);
        let ghost done = pw + detail_writes(pv.detail.take(i as int));
        let ghost hd = d.height;
        let ghost srcv = model@.rows[d@.source];
        let ghost base = detail_styles(model@, pv.detail.take(i as int));
        if d.height.is_some() {
            match &src.dimension {
                Some(dim) => {
                    set_row_height(book, name, d.target, dim);
                },
                None => {},
            }
        }
        let mut k: usize = 0;
        while k < d.cells.len()
            invariant
                0 <= k <= d.cells@.len(),
                d.cells@.len() == src.cells@.len(),
                i < plan.detail@.len(),
                d == &plan.detail@[i as int],
                pv == plan@,
                pv.detail[i as int] == d@,
                dw == detail_row_writes(d@),
                hd == d.height,
                tn == name@,
                sheet_titles(*book) == titles0,
                workbook_sheets(*book)[tn].formats == r0.formats,
            workbook_sheets(*book)[tn].formats == r0.formats,
            sheet_titles(*book) == titles0,
            workbook_sheets(*book)[tn].formats == r0.formats,
                workbook_sheets(*book).contains_key(tn),
                others_kept(before, workbook_sheets(*book), tn),
                workbook_sheets(*book)[tn].hidden.contains(TAG_COL),
                workbook_sheets(*book)[tn].comments == Seq::<CommentView>::empty(),
                workbook_sheets(*book)[tn].merges == km + detail_merge_texts(pv.detail.take(i as int)),
                workbook_sheets(*book)[tn].cells == overlay(c1, done + dw.take(k as int)),
                srcv == src@,
                d.source < model.rows@.len(),
                detail_row_shaped(model@, sheet@, i as int),
                pv == spec_plan(model@, sheet@),
                styles_agree(workbook_sheets(*book)[tn].styles, row_styles(base, d@, srcv, k as nat)),
                forall|j: int|
                    0 <= j < i && (#[trigger] pv.detail[j]).height is Some ==> workbook_sheets(
                        *book,
                    )[tn].heights.contains_key(pv.detail[j].target as u32),
                hd is Some ==> workbook_sheets(*book)[tn].heights.contains_key(d.target),
            decreases d.cells@.len() - k,
        {
            let cell = &d.cells[k];
            let ghost cells0 = workbook_sheets(*book)[tn].cells;
            proof {
                lemma_overlay_step(c1, done, dw, k as int);
                assert(dw[k as int] == ((cell.col, d.target), cell.content@));
            }
            set_cell_style(book, name, cell.col, d.target, &src.cells[k].style);
            match &cell.content {
                CellContent::Formula(f) => set_cell_formula(book, name, cell.col, d.target, f.clone()),
                CellContent::Value(v) => set_cell_value(book, name, cell.col, d.target, v.clone()),
            }
            assert(workbook_sheets(*book)[tn].cells =~= apply_write(cells0, dw[k as int]));
            proof {
                let key = (cell.col, d.target);
                let m_old = row_styles(base, d@, srcv, k as nat);
                assert(d@.cells[k as int] == cell@);
                assert(srcv.cells[k as int] == src.cells@[k as int]@);
                assert(row_styles(base, d@, srcv, (k + 1) as nat) == m_old.insert(key, srcv.cells[k as int].style));
                assert forall|q: (u32, u32)| #[trigger] row_styles(base, d@, srcv, (k + 1) as nat).contains_key(q)
                    implies workbook_sheets(*book)[tn].styles.contains_key(q)
                    && workbook_sheets(*book)[tn].styles[q] == row_styles(base, d@, srcv, (k + 1) as nat)[q] by {
                    if q != key {
                        assert(m_old.contains_key(q));
                    }
                }
            }
            k = k + 1;
        }
        assert(dw.take(dw.len() as int) =~= dw);
        proof {
            assert(pv.detail.take(i as int + 1).drop_last() =~= pv.detail.take(i as int));
            assert(pv.detail.take(i as int + 1).last() == d@);
            assert(d@.cells.len() == d.cells@.len());
        }
        let ghost mt = d@.merges.map_values(|m: Seq<char>| range_text(m));
        let ghost mbase = km + detail_merge_texts(pv.detail.take(i as int));
        let mut q: usize = 0;
        while q < d.merges.len()
            invariant
                0 <= q <= d.merges@.len(),
                i < plan.detail@.len(),
                d == &plan.detail@[i as int],
                pv == plan@,
                pv.detail[i as int] == d@,
                detail_row_shaped(model@, sheet@, i as int),
                pv == spec_plan(model@, sheet@),
                mt == d@.merges.map_values(|m: Seq<char>| range_text(m)),
                hd == d.height,
                tn == name@,
                sheet_titles(*book) == titles0,
                workbook_sheets(*book)[tn].formats == r0.formats,
            workbook_sheets(*book)[tn].formats == r0.formats,
            sheet_titles(*book) == titles0,
            workbook_sheets(*book)[tn].formats == r0.formats,
                workbook_sheets(*book).contains_key(tn),
                others_kept(before, workbook_sheets(*book), tn),
                workbook_sheets(*book)[tn].hidden.contains(TAG_COL),
                workbook_sheets(*book)[tn].comments == Seq::<CommentView>::empty(),
                workbook_sheets(*book)[tn].merges == mbase + mt.take(q as int),
                workbook_sheets(*book)[tn].cells == overlay(c1, done + dw),
                styles_agree(workbook_sheets(*book)[tn].styles, detail_styles(model@, pv.detail.take(i as int + 1))),
                forall|j: int|
                    0 <= j < i && (#[trigger] pv.detail[j]).height is Some ==> workbook_sheets(
                        *book,
                    )[tn].heights.contains_key(pv.detail[j].target as u32),
                hd is Some ==> workbook_sheets(*book)[tn].heights.contains_key(d.target),
            decreases d.merges@.len() - q,
        {
            proof {
                assert(d@.merges[q as int] == d.merges@[q as int]@);
                let ghost src_m = model@.rows[d@.source].merges[q as int];
                lemma_merge_text_ok(src_m, d@.target as nat);
                assert(mt.take(q as int + 1) =~= mt.take(q as int).push(range_text(d.merges@[q as int]@)));
            }
            add_merge(book, name, d.merges[q].clone());
            q = q + 1;
        }
        proof {
            assert(mt.take(mt.len() as int) =~= mt);
            lemma_detail_writes_step(pv.detail, i as int);
            assert(pw + detail_writes(pv.detail.take(i as int + 1)) =~= done + dw);
            assert forall|j: int|
                0 <= j < i + 1 && (#[trigger] pv.detail[j]).height is Some implies workbook_sheets(
                    *book,
                )[tn].heights.contains_key(pv.detail[j].target as u32) by {
                if j == i {
                    assert(pv.detail[j].target as u32 == d.target);
                }
            }
        }
        i = i + 1;
    }
    assert(pv.detail.take(pv.detail.len() as int) =~= pv.detail);
    let ghost cells_o = workbook_sheets(*book)[tn].cells;
    let ghost merges_f = workbook_sheets(*book)[tn].merges;
    assert(cells_o == overlay(c1, plan_writes(pv)));
    // 5. Drop cached formula results, so Excel/LibreOffice recompute on open.
    let flags = cell_formula_flags(book, name);
    let mut i: usize = 0;
    while i < flags.len()
        invariant
            0 <= i <= flags@.len(),
            pv == plan@,
            tn == name@,
            sheet_titles(*book) == titles0,
            workbook_sheets(*book)[tn].formats == r0.formats,
            workbook_sheets(*book).contains_key(tn),
            others_kept(before, workbook_sheets(*book), tn),
            workbook_sheets(*book)[tn].hidden.contains(TAG_COL),
            workbook_sheets(*book)[tn].comments == Seq::<CommentView>::empty(),
            workbook_sheets(*book)[tn].merges == merges_f,
            styles_agree(workbook_sheets(*book)[tn].styles, detail_styles(model@, pv.detail)),
            forall|j: int|
                0 <= j < pv.detail.len() && (#[trigger] pv.detail[j]).height is Some ==> workbook_sheets(
                    *book,
                )[tn].heights.contains_key(pv.detail[j].target as u32),
            forall|j: int|
                0 <= j < flags@.len() ==> cells_o.contains_key((#[trigger] flags@[j].0, flags@[j].1))
                    && flags@[j].2 == cells_o[(flags@[j].0, flags@[j].1)].is_formula,
            forall|k: (u32, u32)|
                #[trigger] workbook_sheets(*book)[tn].cells.contains_key(k) <==> cells_o.contains_key(k),
            forall|k: (u32, u32)|
                #[trigger] cells_o.contains_key(k) ==> workbook_sheets(*book)[tn].cells[k] == if cells_o[k].is_formula
                    && listed(flags@, i as int, k) {
                    cleared_cell(cells_o[k])
                } else {
                    cells_o[k]
                },
        decreases flags@.len() - i,
    {
        let ghost cells0 = workbook_sheets(*book)[tn].cells;
        let ghost k0 = (flags@[i as int].0, flags@[i as int].1);
        if flags[i].2 {
            clear_formula_result(book, name, flags[i].0, flags[i].1);
        }
        assert forall|k: (u32, u32)| k != k0 implies listed(flags@, i as int + 1, k) == listed(
            flags@,
            i as int,
            k,
        ) by {
            if listed(flags@, i as int + 1, k) {
                let j = choose|j: int| 0 <= j < i + 1 && flags@[j].0 == k.0 && flags@[j].1 == k.1;
                assert(j != i);
            }
        }
        assert(listed(flags@, i as int + 1, k0));
        i = i + 1;
    }
    assert forall|k: (u32, u32)| cells_o.contains_key(k) && cells_o[k].is_formula implies listed(
        flags@,
        flags@.len() as int,
        k,
    ) by {}
    assert(workbook_sheets(*book)[tn].cells =~= clear_results(cells_o));
    // 6. Rename the edited template sheet to the output title.
    let ghost cur = workbook_sheets(*book);
    match &plan.rename {
        Some(t) => rename_sheet(book, name, t.as_str()),
        None => {},
    }
    proof {
        let t = spec_title(sheet@);
        let after = workbook_sheets(*book);
        if spec_rename(sheet@) is None || !titles0.contains(t) {
            assert(after[t] == cur[tn]);
            assert(after[t].cells == clear_results(overlay(c1, plan_writes(spec_plan(model@, sheet@)))));
            assert(after[t].merges == kept_merges(m1, pv.band_rows) + detail_merge_texts(pv.detail));
            assert(after[t].formats == r0.formats);
            if spec_rename(sheet@) is Some && titled_once(titles0, tn) && after.contains_key(tn) {
                let tf = sheet_titles(*book);
                assert(tf.contains(tn));
                let j = choose|j: int| 0 <= j < tf.len() && tf[j] == tn;
                if first_titled(titles0, tn, j) {
                    assert(tf[j] == t);
                } else {
                    assert(titles0[j] == tn);
                    let k = choose|k: int| 0 <= k < j && titles0[k] == tn;
                    assert(false);
                }
            }
        }
    }
    Ok(())
}

/// Fill a template workbook that has been read, in place: snapshot the
/// template sheet's structure, collect the warnings, then edit the sheet.
/// Returns the warnings: one per distinct data label that no template row
/// has, in order of first use.
pub fn fill_template(book: &mut umya_spreadsheet::Workbook, sheet: &Sheet) -> (r: Result<
    Vec<String>,
    RenderError,
>)
    ensures
        r is Err <==> (!workbook_sheets(*old(book)).contains_key(sheet@.template) || !plan_ok(
            spec_model(spec_read_sheet(*old(book), sheet@.template)),
            sheet@,
        ) || !resize_ok(
            workbook_sheets(*old(book))[sheet@.template],
            spec_resize(spec_model(spec_read_sheet(*old(book), sheet@.template)), sheet@),
        )),
        match r {
            Ok(w) => {
                &&& strings_view(w@) == spec_warnings(
                    spec_model(spec_read_sheet(*old(book), sheet@.template)),
                    sheet@,
                )
                &&& filled(
                    workbook_sheets(*old(book)),
                    workbook_sheets(*final(book)),
                    sheet_titles(*old(book)),
                    spec_model(spec_read_sheet(*old(book), sheet@.template)),
                    sheet@,
                )
            },
            Err(e) => *final(book) == *old(book) && if !workbook_sheets(*old(book)).contains_key(
                sheet@.template,
            ) {
                e matches RenderError::SheetNotFound(n, _) && n@ == sheet@.template
            } else if !plan_ok(spec_model(spec_read_sheet(*old(book), sheet@.template)), sheet@) {
                e == RenderError::RowOverflow
            } else {
                e == resize_error(spec_resize(spec_model(spec_read_sheet(*old(book), sheet@.template)), sheet@))
            },
        },
{
    // Snapshot the template structure, then edit the template sheet in place.
    let model = extract_template(book, sheet.template.as_str())?;
    let warnings = collect_warnings(&model, sheet);
    fill_in_place(book, sheet, &model)?;
    Ok(warnings)
}

} // verus!
