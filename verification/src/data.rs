//! Parser for the templateIt data-stream format.
//!
//! The format is tab-delimited and line-oriented:
//!
//! ```text
//! #sheet  SalesReceipt    Sales Receipt
//! header  1/5/2009    22215   Jose Maria Fernandez    1010 Broadway...
//! row1    1   1   Introduction to Algebra 53.0
//! row2    2   1   Introduction to Algebra Solutions Manual    14.0
//! footer  .0525
//! ##end
//! ```
//!
//! * `#sheet <template> <title...>` opens a sheet; the rest of the line is the
//!   sheet title.
//! * `##end` closes the current sheet.
//! * Any other line is a record: the first field is its label, the remaining
//!   tab-separated fields are its data.
//!
//! JSON and YAML documents use the same record-stream model, but let each
//! record carry **named** fields resolved directly by `#name`; once decoded
//! into a [`JsonValue`] they are turned into sheets by [`sheets_from_value`].

use vstd::prelude::*;
use vstd::set_lib::lemma_subset_equality;
use crate::xlsx_template::workbook::count_char;
use crate::text::{
    chars_of, decimal, find_char, first_index_of, lemma_split_char_nonempty, push_all,
    push_decimal, skip_ws, split_char, split_window, str_eq, string_of, strip_cr,
    strip_cr_window, trim, trim_start, trim_window, win, window_eq, windows_view, windows_within,
};

verus! {

// ---------------------------------------------------------------------------
// Named fields
// ---------------------------------------------------------------------------

/// A record's named fields: distinct keys, each with its value, kept in
/// insertion order. Two maps are equal when they hold the same fields.
#[derive(Debug)]
pub struct FieldMap {
    entries: Vec<(String, String)>,
}

/// The map that a list of key/value entries denotes (a later entry wins).
pub open spec fn entries_map(e: Seq<(String, String)>) -> Map<Seq<char>, Seq<char>>
    decreases e.len(),
{
    if e.len() == 0 {
        Map::empty()
    } else {
        entries_map(e.drop_last()).insert(e.last().0@, e.last().1@)
    }
}

/// No key occurs twice.
pub open spec fn keys_distinct(e: Seq<(String, String)>) -> bool {
    forall|i: int, j: int| 0 <= i < e.len() && 0 <= j < e.len() && i != j ==> e[i].0@ != e[j].0@
}

proof fn lemma_entries_map_dom(e: Seq<(String, String)>, k: Seq<char>)
    ensures
        entries_map(e).contains_key(k) <==> exists|i: int| 0 <= i < e.len() && e[i].0@ == k,
    decreases e.len(),
{
    if e.len() > 0 {
        lemma_entries_map_dom(e.drop_last(), k);
        if entries_map(e.drop_last()).contains_key(k) {
            let i = choose|i: int| 0 <= i < e.drop_last().len() && e.drop_last()[i].0@ == k;
            assert(e[i].0@ == k);
        }
        if exists|i: int| 0 <= i < e.len() && e[i].0@ == k {
            let i = choose|i: int| 0 <= i < e.len() && e[i].0@ == k;
            if i < e.len() - 1 {
                assert(e.drop_last()[i].0@ == k);
            }
        }
    }
}

proof fn lemma_entries_map_value(e: Seq<(String, String)>, i: int)
    requires
        keys_distinct(e),
        0 <= i < e.len(),
    ensures
        entries_map(e).contains_key(e[i].0@),
        entries_map(e)[e[i].0@] == e[i].1@,
    decreases e.len(),
{
    if i < e.len() - 1 {
        lemma_entries_map_value(e.drop_last(), i);
        assert(e.drop_last()[i] == e[i]);
    }
}

impl View for FieldMap {
    type V = Map<Seq<char>, Seq<char>>;

    closed spec fn view(&self) -> Map<Seq<char>, Seq<char>> {
        entries_map(self.entries@)
    }
}

impl FieldMap {
    /// The keys are distinct.
    #[verifier::type_invariant]
    spec fn wf(&self) -> bool {
        keys_distinct(self.entries@)
    }

    /// An empty map.
    pub fn new() -> (m: FieldMap)
        ensures
            m@ == Map::<Seq<char>, Seq<char>>::empty(),
    {
        FieldMap { entries: Vec::new() }
    }

    /// The number of fields.
    pub fn len(&self) -> (n: usize)
        ensures
            n == self@.dom().len(),
    {
        proof {
            use_type_invariant(self);
            lemma_len_seq(self.entries@);
        }
        self.entries.len()
    }

    /// The value of `key`, if the map holds it.
    pub fn get(&self, key: &str) -> (r: Option<&String>)
        ensures
            match r {
                Some(v) => self@.contains_key(key@) && self@[key@] == v@,
                None => !self@.contains_key(key@),
            },
    {
        proof {
            use_type_invariant(self);
        }
        let mut i: usize = 0;
        while i < self.entries.len()
            invariant
                i <= self.entries@.len(),
                keys_distinct(self.entries@),
                forall|j: int| 0 <= j < i ==> self.entries@[j].0@ != key@,
            decreases self.entries@.len() - i,
        {
            if str_eq(self.entries[i].0.as_str(), key) {
                proof {
                    lemma_entries_map_value(self.entries@, i as int);
                }
                return Some(&self.entries[i].1);
            }
            i = i + 1;
        }
        proof {
            lemma_entries_map_dom(self.entries@, key@);
        }
        None
    }

    /// Set `key` to `value`, replacing any earlier value of `key`.
    pub fn insert(&mut self, key: String, value: String)
        ensures
            final(self)@ == old(self)@.insert(key@, value@),
    {
        proof {
            use_type_invariant(&*self);
        }
        let mut entries: Vec<(String, String)> = Vec::new();
        std::mem::swap(&mut entries, &mut self.entries);
        let ghost e0 = entries@;
        assert(old(self)@ == entries_map(e0));
        let mut i: usize = 0;
        while i < entries.len()
            invariant
                entries@ == e0,
                old(self)@ == entries_map(e0),
                keys_distinct(e0),
                i <= e0.len(),
                forall|j: int| 0 <= j < i ==> e0[j].0@ != key@,
            decreases e0.len() - i,
        {
            if str_eq(entries[i].0.as_str(), key.as_str()) {
                let ghost old_map = entries_map(e0);
                let ghost kv = key@;
                let ghost vv = value@;
                entries.set(i, (key, value));
                proof {
                    let e1 = entries@;
                    assert(e1[i as int].0@ == kv && e1[i as int].1@ == vv);
                    assert(keys_distinct(e1)) by {
                        assert forall|a: int, b: int|
                            0 <= a < e1.len() && 0 <= b < e1.len() && a != b implies e1[a].0@
                            != e1[b].0@ by {
                            if a != i && b != i {
                                assert(e1[a] == e0[a] && e1[b] == e0[b]);
                            } else if a == i {
                                assert(e1[b] == e0[b]);
                            } else {
                                assert(e1[a] == e0[a]);
                            }
                        }
                    }
                    assert(entries_map(e1) =~= old_map.insert(e1[i as int].0@, e1[i as int].1@))
                        by {
                        assert forall|k: Seq<char>|
                            entries_map(e1).contains_key(k) <==> old_map.insert(
                                e1[i as int].0@,
                                e1[i as int].1@,
                            ).contains_key(k) by {
                            lemma_entries_map_dom(e1, k);
                            lemma_entries_map_dom(e0, k);
                            if exists|j: int| 0 <= j < e0.len() && e0[j].0@ == k {
                                let j = choose|j: int| 0 <= j < e0.len() && e0[j].0@ == k;
                                if j != i {
                                    assert(e1[j] == e0[j]);
                                }
                            }
                            if exists|j: int| 0 <= j < e1.len() && e1[j].0@ == k {
                                let j = choose|j: int| 0 <= j < e1.len() && e1[j].0@ == k;
                                if j != i {
                                    assert(e1[j] == e0[j]);
                                }
                            }
                        }
                        assert forall|k: Seq<char>| #[trigger]
                            entries_map(e1).contains_key(k) implies entries_map(e1)[k]
                            == old_map.insert(e1[i as int].0@, e1[i as int].1@)[k] by {
                            lemma_entries_map_dom(e1, k);
                            let j = choose|j: int| 0 <= j < e1.len() && e1[j].0@ == k;
                            lemma_entries_map_value(e1, j);
                            if j != i {
                                assert(e1[j] == e0[j]);
                                lemma_entries_map_value(e0, j);
                            }
                        }
                    }
                }
                assert(entries_map(entries@) == old_map.insert(kv, vv));
                self.entries = entries;
                return;
            }
            i = i + 1;
        }
        proof {
            lemma_entries_map_dom(e0, key@);
        }
        entries.push((key, value));
        proof {
            let e1 = entries@;
            assert(e1.drop_last() =~= e0);
            assert(keys_distinct(e1)) by {
                assert forall|a: int, b: int|
                    0 <= a < e1.len() && 0 <= b < e1.len() && a != b implies e1[a].0@
                    != e1[b].0@ by {
                    if a < e0.len() && b < e0.len() {
                        assert(e1[a] == e0[a] && e1[b] == e0[b]);
                    } else if a < e0.len() {
                        assert(e1[a] == e0[a]);
                    } else {
                        assert(e1[b] == e0[b]);
                    }
                }
            }
        }
        self.entries = entries;
    }

    /// A copy of the map.
    pub fn copy(&self) -> (r: FieldMap)
        ensures
            r@ == self@,
    {
        proof {
            use_type_invariant(self);
        }
        let mut entries: Vec<(String, String)> = Vec::new();
        let mut i: usize = 0;
        while i < self.entries.len()
            invariant
                i <= self.entries@.len(),
                entries@.len() == i,
                forall|j: int|
                    0 <= j < i ==> (#[trigger] entries@[j]).0@ == self.entries@[j].0@
                        && entries@[j].1@ == self.entries@[j].1@,
            decreases self.entries@.len() - i,
        {
            let k = self.entries[i].0.clone();
            let v = self.entries[i].1.clone();
            entries.push((k, v));
            i = i + 1;
        }
        proof {
            lemma_entries_map_same(entries@, self.entries@);
        }
        FieldMap { entries }
    }
}

proof fn lemma_len_seq(e: Seq<(String, String)>)
    requires
        keys_distinct(e),
    ensures
        entries_map(e).dom().finite(),
        entries_map(e).dom().len() == e.len(),
    decreases e.len(),
{
    if e.len() > 0 {
        let d = e.drop_last();
        assert(keys_distinct(d)) by {
            assert forall|a: int, b: int|
                0 <= a < d.len() && 0 <= b < d.len() && a != b implies d[a].0@ != d[b].0@ by {
                assert(d[a] == e[a] && d[b] == e[b]);
            }
        }
        lemma_len_seq(d);
        lemma_entries_map_dom(d, e.last().0@);
        if exists|i: int| 0 <= i < d.len() && d[i].0@ == e.last().0@ {
            let i = choose|i: int| 0 <= i < d.len() && d[i].0@ == e.last().0@;
            assert(e[i].0@ == e[e.len() - 1].0@);
        }
    } else {
        assert(entries_map(e).dom() =~= Set::<Seq<char>>::empty());
    }
}

proof fn lemma_entries_map_same(a: Seq<(String, String)>, b: Seq<(String, String)>)
    requires
        a.len() == b.len(),
        forall|j: int| 0 <= j < a.len() ==> (#[trigger] a[j]).0@ == b[j].0@ && a[j].1@ == b[j].1@,
    ensures
        entries_map(a) == entries_map(b),
        keys_distinct(a) <==> keys_distinct(b),
    decreases a.len(),
{
    if a.len() > 0 {
        lemma_entries_map_same(a.drop_last(), b.drop_last());
        assert(a.drop_last().len() == b.drop_last().len());
        assert forall|j: int| 0 <= j < a.drop_last().len() implies (#[trigger] a.drop_last()[j]).0@
            == b.drop_last()[j].0@ && a.drop_last()[j].1@ == b.drop_last()[j].1@ by {
            assert(a.drop_last()[j] == a[j]);
            assert(b.drop_last()[j] == b[j]);
        }
        lemma_entries_map_same(a.drop_last(), b.drop_last());
    }
    if keys_distinct(a) {
        assert forall|i: int, j: int|
            0 <= i < b.len() && 0 <= j < b.len() && i != j implies b[i].0@ != b[j].0@ by {
            assert(a[i].0@ == b[i].0@);
            assert(a[j].0@ == b[j].0@);
        }
    }
    if keys_distinct(b) {
        assert forall|i: int, j: int|
            0 <= i < a.len() && 0 <= j < a.len() && i != j implies a[i].0@ != a[j].0@ by {
            assert(a[i].0@ == b[i].0@);
            assert(a[j].0@ == b[j].0@);
        }
    }
}

/// What `insert` writes `get` reads back, and every other key keeps its
/// value: the map a `FieldMap` denotes after `insert(k, v)`.
pub proof fn law_field_map_read_after_write(
    m: Map<Seq<char>, Seq<char>>,
    k: Seq<char>,
    v: Seq<char>,
    other: Seq<char>,
)
    ensures
        m.insert(k, v).contains_key(k),
        m.insert(k, v)[k] == v,
        other != k ==> (m.insert(k, v).contains_key(other) <==> m.contains_key(other)),
        other != k && m.contains_key(other) ==> m.insert(k, v)[other] == m[other],
{
}

impl PartialEq for FieldMap {
    fn eq(&self, other: &FieldMap) -> (r: bool) {
        proof {
            use_type_invariant(self);
            use_type_invariant(other);
            lemma_len_seq(self.entries@);
            lemma_len_seq(other.entries@);
        }
        if self.entries.len() != other.entries.len() {
            return false;
        }
        let mut i: usize = 0;
        while i < self.entries.len()
            invariant
                i <= self.entries@.len(),
                keys_distinct(self.entries@),
                forall|j: int|
                    0 <= j < i ==> other@.contains_key(#[trigger] self.entries@[j].0@)
                        && other@[self.entries@[j].0@] == self.entries@[j].1@,
            decreases self.entries@.len() - i,
        {
            match other.get(self.entries[i].0.as_str()) {
                Some(v) => {
                    if !str_eq(v.as_str(), self.entries[i].1.as_str()) {
                        proof {
                            lemma_entries_map_value(self.entries@, i as int);
                        }
                        return false;
                    }
                },
                None => {
                    proof {
                        lemma_entries_map_value(self.entries@, i as int);
                    }
                    return false;
                },
            }
            i = i + 1;
        }
        proof {
            assert forall|k: Seq<char>| #[trigger] self@.dom().contains(k) implies other@.dom().contains(k)
                && other@[k] == self@[k] by {
                lemma_entries_map_dom(self.entries@, k);
                let j = choose|j: int| 0 <= j < self.entries@.len() && self.entries@[j].0@ == k;
                lemma_entries_map_value(self.entries@, j);
            }
            use_type_invariant(self);
            use_type_invariant(other);
            lemma_len_seq(self.entries@);
            lemma_len_seq(other.entries@);
            assert(self@.dom().subset_of(other@.dom()));
            lemma_subset_equality(self@.dom(), other@.dom());
            assert(self@ =~= other@);
        }
        true
    }
}

impl vstd::std_specs::cmp::PartialEqSpecImpl for FieldMap {
    open spec fn obeys_eq_spec() -> bool {
        true
    }

    open spec fn eq_spec(&self, other: &FieldMap) -> bool {
        self@ == other@
    }
}

impl Clone for FieldMap {
    fn clone(&self) -> (r: FieldMap)
        ensures
            r@ == self@,
    {
        self.copy()
    }
}

impl Default for FieldMap {
    fn default() -> (m: FieldMap)
        ensures
            m@ == Map::<Seq<char>, Seq<char>>::empty(),
    {
        FieldMap::new()
    }
}

// ---------------------------------------------------------------------------
// Records and sheets
// ---------------------------------------------------------------------------

/// A single data record: a label plus its data fields.
///
/// Fields may be **positional** (`fields` — the tab-delimited form and `#N`
/// parameters) and/or **named** (`named` — from JSON/YAML, resolved by `#name`).
#[derive(Clone, Debug, PartialEq)]
pub struct Record {
    pub label: String,
    pub fields: Vec<String>,
    pub named: FieldMap,
}

/// One parsed sheet: which template to use, the title, and its records.
#[derive(Clone, Debug, PartialEq)]
pub struct Sheet {
    pub template: String,
    pub title: String,
    pub records: Vec<Record>,
}

/// Why a data stream was rejected; line numbers count from 1.
#[derive(Debug, PartialEq, Eq, Structural)]
pub enum ParseError {
    MissingSheetHeader,
    MalformedSheet(usize),
    UnexpectedEnd(usize),
}

/// The text of each parse error.
pub open spec fn spec_parse_message(e: ParseError) -> Seq<char> {
    match e {
        ParseError::MissingSheetHeader => "data does not start with a `#sheet` line"@,
        ParseError::MalformedSheet(n) => "malformed `#sheet` line at line "@ + decimal(n as nat),
        ParseError::UnexpectedEnd(n) => "`##end` without an open sheet at line "@ + decimal(n as nat),
    }
}

impl ParseError {
    /// The error's message.
    pub fn message(&self) -> (r: String)
        ensures
            r@ == spec_parse_message(*self),
    {
        let mut r = String::new();
        match self {
            ParseError::MissingSheetHeader => push_all(&mut r, "data does not start with a `#sheet` line"),
            ParseError::MalformedSheet(n) => {
                push_all(&mut r, "malformed `#sheet` line at line ");
                push_decimal(&mut r, *n as u64);
            },
            ParseError::UnexpectedEnd(n) => {
                push_all(&mut r, "`##end` without an open sheet at line ");
                push_decimal(&mut r, *n as u64);
            },
        }
        assert(r@ =~= spec_parse_message(*self));
        r
    }
}

/// What a record holds, as text.
pub struct RecordView {
    pub label: Seq<char>,
    pub fields: Seq<Seq<char>>,
    pub named: Map<Seq<char>, Seq<char>>,
}

/// What a sheet holds, as text.
pub struct SheetView {
    pub template: Seq<char>,
    pub title: Seq<char>,
    pub records: Seq<RecordView>,
}

impl View for Record {
    type V = RecordView;

    open spec fn view(&self) -> RecordView {
        RecordView { label: self.label@, fields: self.fields.deep_view(), named: self.named@ }
    }
}

impl View for Sheet {
    type V = SheetView;

    open spec fn view(&self) -> SheetView {
        SheetView {
            template: self.template@,
            title: self.title@,
            records: self.records@.map_values(|r: Record| r@),
        }
    }
}

impl Default for Record {
    fn default() -> (r: Record)
        ensures
            r@ == (RecordView {
                label: Seq::empty(),
                fields: Seq::empty(),
                named: Map::empty(),
            }),
    {
        let r = Record { label: String::new(), fields: Vec::new(), named: FieldMap::new() };
        assert(r.fields.deep_view() =~= Seq::<Seq<char>>::empty());
        r
    }
}

/// The views of a list of sheets.
pub open spec fn sheets_view(v: Seq<Sheet>) -> Seq<SheetView> {
    v.map_values(|s: Sheet| s@)
}

// ---------------------------------------------------------------------------
// The tab-delimited stream, as a specification
// ---------------------------------------------------------------------------

/// The lines of the input (`str::lines`, each with any trailing carriage
/// returns removed). A final empty piece after a closing newline is blank, and
/// blank lines are skipped, so it is harmless to keep it.
pub open spec fn data_lines(input: Seq<char>) -> Seq<Seq<char>> {
    split_char(input, '\n').map_values(|p: Seq<char>| strip_cr(p))
}

pub open spec fn sheet_prefix() -> Seq<char> {
    seq!['#', 's', 'h', 'e', 'e', 't']
}

pub open spec fn end_marker() -> Seq<char> {
    seq!['#', '#', 'e', 'n', 'd']
}

/// The line opens a sheet: it starts with `#sheet`.
pub open spec fn is_sheet_line(line: Seq<char>) -> bool {
    line.len() >= 6 && line.subrange(0, 6) == sheet_prefix()
}

/// What follows `#sheet`, without leading whitespace.
pub open spec fn header_rest(line: Seq<char>) -> Seq<char> {
    trim_start(line.subrange(6, line.len() as int))
}

/// The template name of a `#sheet` line: up to the first tab, trimmed.
pub open spec fn header_template(line: Seq<char>) -> Seq<char> {
    let r = header_rest(line);
    match first_index_of(r, '\t') {
        Some(t) => trim(r.subrange(0, t)),
        None => trim(r),
    }
}

/// The title of a `#sheet` line: everything after the first tab, trimmed.
pub open spec fn header_title(line: Seq<char>) -> Seq<char> {
    let r = header_rest(line);
    match first_index_of(r, '\t') {
        Some(t) => trim(r.subrange(t + 1, r.len() as int)),
        None => Seq::empty(),
    }
}

/// The record of a data line: its tab-separated pieces, trimmed; the first
/// is the label.
pub open spec fn line_record(line: Seq<char>) -> RecordView {
    let parts = split_char(line, '\t');
    RecordView {
        label: trim(parts[0]),
        fields: parts.drop_first().map_values(|p: Seq<char>| trim(p)),
        named: Map::empty(),
    }
}

/// The parser's state between lines: finished sheets and the open one.
pub struct ParseState {
    pub sheets: Seq<SheetView>,
    pub current: Option<SheetView>,
}

/// The finished sheets, with the open one closed.
pub open spec fn flush(st: ParseState) -> Seq<SheetView> {
    match st.current {
        Some(s) => st.sheets.push(s),
        None => st.sheets,
    }
}

/// One line of the stream, numbered `line_no` from 1.
pub open spec fn step(st: ParseState, line: Seq<char>, line_no: nat) -> Result<
    ParseState,
    ParseError,
> {
    if trim(line).len() == 0 {
        Ok(st)
    } else if is_sheet_line(line) {
        if header_template(line).len() == 0 {
            Err(ParseError::MalformedSheet(line_no as usize))
        } else {
            Ok(
                ParseState {
                    sheets: flush(st),
                    current: Some(
                        SheetView {
                            template: header_template(line),
                            title: header_title(line),
                            records: Seq::empty(),
                        },
                    ),
                },
            )
        }
    } else if trim(line) == end_marker() {
        match st.current {
            Some(s) => Ok(ParseState { sheets: st.sheets.push(s), current: None }),
            None => Err(ParseError::UnexpectedEnd(line_no as usize)),
        }
    } else {
        match st.current {
            None => Err(ParseError::MissingSheetHeader),
            Some(s) => Ok(
                ParseState {
                    sheets: st.sheets,
                    current: Some(
                        SheetView {
                            template: s.template,
                            title: s.title,
                            records: s.records.push(line_record(line)),
                        },
                    ),
                },
            ),
        }
    }
}

/// The state after the first `n` lines, or the first error among them.
pub open spec fn run(lines: Seq<Seq<char>>, n: nat) -> Result<ParseState, ParseError>
    decreases n,
{
    if n == 0 {
        Ok(ParseState { sheets: Seq::empty(), current: None })
    } else {
        match run(lines, (n - 1) as nat) {
            Ok(st) => step(st, lines[n - 1], n),
            Err(e) => Err(e),
        }
    }
}

/// The sheets of a data stream, or why it is rejected.
pub open spec fn spec_parse(input: Seq<char>) -> Result<Seq<SheetView>, ParseError> {
    let lines = data_lines(input);
    match run(lines, lines.len()) {
        Ok(st) => Ok(flush(st)),
        Err(e) => Err(e),
    }
}

// ---------------------------------------------------------------------------
// Line ends and blank lines
// ---------------------------------------------------------------------------

/// `s` with every `\n` written as `\r\n`.
pub open spec fn crlf(s: Seq<char>) -> Seq<char>
    decreases s.len(),
{
    if s.len() == 0 {
        s
    } else if s.last() == '\n' {
        crlf(s.drop_last()) + seq!['\r', '\n']
    } else {
        crlf(s.drop_last()).push(s.last())
    }
}

/// The pieces with `\r` appended to every one but the last.
pub open spec fn cr_pieces(p: Seq<Seq<char>>) -> Seq<Seq<char>> {
    Seq::new(
        p.len(),
        |i: int|
            if i < p.len() - 1 {
                p[i].push('\r')
            } else {
                p[i]
            },
    )
}

proof fn lemma_split_crlf(s: Seq<char>)
    ensures
        split_char(crlf(s), '\n') == cr_pieces(split_char(s, '\n')),
    decreases s.len(),
{
    lemma_split_char_nonempty(s, '\n');
    if s.len() > 0 {
        let init = s.drop_last();
        lemma_split_crlf(init);
        lemma_split_char_nonempty(init, '\n');
        let pi = split_char(init, '\n');
        let ci = crlf(init);
        if s.last() == '\n' {
            let t = ci + seq!['\r', '\n'];
            assert(t.drop_last() =~= ci.push('\r'));
            assert(ci.push('\r').drop_last() =~= ci);
            assert(t.last() == '\n');
            assert(crlf(s) == t);
            let cp = cr_pieces(pi);
            assert(split_char(ci.push('\r'), '\n') == cp.update(cp.len() - 1, cp.last().push('\r')));
            assert(split_char(t, '\n') == split_char(ci.push('\r'), '\n').push(Seq::<char>::empty()));
            assert(split_char(s, '\n') == pi.push(Seq::<char>::empty()));
            assert(split_char(crlf(s), '\n') =~= cr_pieces(split_char(s, '\n')));
        } else {
            assert(crlf(s).drop_last() =~= ci);
            assert(split_char(crlf(s), '\n') =~= cr_pieces(split_char(s, '\n')));
        }
    }
}

/// Every line of `s` ended by `\r\n` in place of `\n` reads as the same
/// lines, so the data stream parses to the same sheets, or fails the same
/// way.
pub proof fn law_crlf_line_ends_parse_the_same(s: Seq<char>)
    ensures
        data_lines(crlf(s)) == data_lines(s),
        spec_parse(crlf(s)) == spec_parse(s),
{
    lemma_split_crlf(s);
    let p = split_char(s, '\n');
    lemma_split_char_nonempty(s, '\n');
    assert forall|i: int| 0 <= i < p.len() implies strip_cr(#[trigger] cr_pieces(p)[i]) == strip_cr(
        p[i],
    ) by {
        if i < p.len() - 1 {
            assert(p[i].push('\r').drop_last() =~= p[i]);
        }
    }
    assert(data_lines(crlf(s)) =~= data_lines(s));
}

/// The lines that are not blank, in order.
pub open spec fn nonblank(lines: Seq<Seq<char>>) -> Seq<Seq<char>>
    decreases lines.len(),
{
    if lines.len() == 0 {
        lines
    } else if trim(lines.last()).len() == 0 {
        nonblank(lines.drop_last())
    } else {
        nonblank(lines.drop_last()).push(lines.last())
    }
}

/// The parser's state after the lines, whatever their numbers: `None` where
/// one of them is refused.
pub open spec fn run_unnumbered(lines: Seq<Seq<char>>) -> Option<ParseState>
    decreases lines.len(),
{
    if lines.len() == 0 {
        Some(ParseState { sheets: Seq::empty(), current: None })
    } else {
        match run_unnumbered(lines.drop_last()) {
            Some(st) => match step(st, lines.last(), 0) {
                Ok(next) => Some(next),
                Err(_) => None,
            },
            None => None,
        }
    }
}

proof fn lemma_run_nonblank(lines: Seq<Seq<char>>, n: nat)
    requires
        n <= lines.len(),
    ensures
        match run(lines, n) {
            Ok(st) => run_unnumbered(nonblank(lines.take(n as int))) == Some(st),
            Err(_) => run_unnumbered(nonblank(lines.take(n as int))) is None,
        },
    decreases n,
{
    if n > 0 {
        lemma_run_nonblank(lines, (n - 1) as nat);
        let t = lines.take(n as int);
        assert(t.drop_last() =~= lines.take(n - 1));
        assert(t.last() == lines[n - 1]);
        let nb = nonblank(t);
        if trim(t.last()).len() != 0 {
            assert(nb.drop_last() =~= nonblank(lines.take(n - 1)));
        }
    }
}

/// Blank lines, and how the lines are numbered, do not change which data
/// streams parse: two streams whose non-blank lines agree both parse, to the
/// same sheets, or both fail.
pub proof fn law_blank_lines_parse_the_same(s1: Seq<char>, s2: Seq<char>)
    requires
        nonblank(data_lines(s1)) == nonblank(data_lines(s2)),
    ensures
        spec_parse(s1) is Ok <==> spec_parse(s2) is Ok,
        spec_parse(s1) is Ok ==> spec_parse(s1) == spec_parse(s2),
{
    let l1 = data_lines(s1);
    let l2 = data_lines(s2);
    lemma_run_nonblank(l1, l1.len());
    lemma_run_nonblank(l2, l2.len());
    assert(l1.take(l1.len() as int) =~= l1);
    assert(l2.take(l2.len() as int) =~= l2);
}

proof fn lemma_split_char_count(s: Seq<char>, sep: char)
    ensures
        split_char(s, sep).len() == count_char(s, sep) + 1,
    decreases s.len(),
{
    if s.len() > 0 {
        lemma_split_char_count(s.drop_last(), sep);
        lemma_split_char_nonempty(s.drop_last(), sep);
    }
}

/// A data line with `k` tabs makes a record with exactly `k` positional
/// fields: its label is the trimmed text before the first tab, and field `j`
/// is the trimmed text between tab `j + 1` and the next (or the line's end);
/// an empty piece is an empty field, keeping the positions of those after it.
pub proof fn law_data_line_fields(line: Seq<char>)
    ensures
        line_record(line).fields.len() == count_char(line, '\t'),
        line_record(line).label == trim(split_char(line, '\t')[0]),
        forall|j: int|
            0 <= j < line_record(line).fields.len() ==> #[trigger] line_record(line).fields[j] == trim(
                split_char(line, '\t')[j + 1],
            ),
{
    lemma_split_char_count(line, '\t');
}

proof fn lemma_run_err(lines: Seq<Seq<char>>, k: nat, n: nat, e: ParseError)
    requires
        k <= n,
        run(lines, k) == Err::<ParseState, ParseError>(e),
    ensures
        run(lines, n) == Err::<ParseState, ParseError>(e),
    decreases n - k,
{
    if k < n {
        lemma_run_err(lines, k, (n - 1) as nat, e);
    }
}

// ---------------------------------------------------------------------------
// The tab-delimited stream, executable
// ---------------------------------------------------------------------------

/// The record of the line held in the window `lo..hi`.
fn record_from_line(s: &Vec<char>, lo: usize, hi: usize) -> (r: Record)
    requires
        lo <= hi <= s@.len(),
    ensures
        r@ == line_record(win(s@, lo as int, hi as int)),
{
    let pieces = split_window(s, lo, hi, '\t');
    let ghost parts = split_char(win(s@, lo as int, hi as int), '\t');
    proof {
        lemma_split_char_nonempty(win(s@, lo as int, hi as int), '\t');
    }
    assert(windows_view(s@, pieces@)[0] == parts[0]);
    let (a, b) = trim_window(s, pieces[0].0, pieces[0].1);
    let label = string_of(s, a, b);
    let mut fields: Vec<String> = Vec::new();
    let mut k: usize = 1;
    while k < pieces.len()
        invariant
            1 <= k <= pieces@.len(),
            pieces@.len() == parts.len(),
            windows_within(pieces@, lo as int, hi as int),
            lo <= hi <= s@.len(),
            windows_view(s@, pieces@) == parts,
            fields@.len() == k - 1,
            forall|j: int| 0 <= j < k - 1 ==> (#[trigger] fields@[j])@ == trim(parts[j + 1]),
        decreases pieces@.len() - k,
    {
        assert(windows_view(s@, pieces@)[k as int] == parts[k as int]);
        let (x, y) = trim_window(s, pieces[k].0, pieces[k].1);
        fields.push(string_of(s, x, y));
        k = k + 1;
    }
    let r = Record { label, fields, named: FieldMap::new() };
    assert(r.fields.deep_view() =~= parts.drop_first().map_values(|p: Seq<char>| trim(p)));
    r
}

/// The view of the parser's executable state.
pub open spec fn exec_state(
    sheets: Seq<Sheet>,
    open: bool,
    template: Seq<char>,
    title: Seq<char>,
    records: Seq<Record>,
) -> ParseState {
    ParseState {
        sheets: sheets_view(sheets),
        current: if open {
            Some(
                SheetView {
                    template,
                    title,
                    records: records.map_values(|r: Record| r@),
                },
            )
        } else {
            None
        },
    }
}

/// Parse a data stream into its constituent sheets.
pub fn parse(input: &str) -> (r: Result<Vec<Sheet>, ParseError>)
    ensures
        match spec_parse(input@) {
            Ok(v) => r matches Ok(sheets) && sheets_view(sheets@) == v,
            Err(e) => r == Err::<Vec<Sheet>, ParseError>(e),
        },
{
    let chars = chars_of(input);
    let pieces = split_window(&chars, 0, chars.len(), '\n');
    let ghost lines = data_lines(input@);
    assert(win(chars@, 0, chars@.len() as int) =~= chars@);
    let end = chars_of("##end");
    proof {
        reveal_strlit("##end");
        assert(end@ =~= end_marker());
    }
    let mut sheets: Vec<Sheet> = Vec::new();
    let mut open = false;
    let mut cur_template = String::new();
    let mut cur_title = String::new();
    let mut cur_records: Vec<Record> = Vec::new();
    let mut idx: usize = 0;
    assert(sheets_view(sheets@) =~= Seq::<SheetView>::empty());
    while idx < pieces.len()
        invariant
            idx <= pieces@.len(),
            chars@ == input@,
            end@ == end_marker(),
            lines == data_lines(input@),
            lines.len() == pieces@.len(),
            windows_within(pieces@, 0, chars@.len() as int),
            windows_view(chars@, pieces@) == split_char(input@, '\n'),
            run(lines, idx as nat) == Ok::<ParseState, ParseError>(
                exec_state(sheets@, open, cur_template@, cur_title@, cur_records@),
            ),
        decreases pieces@.len() - idx,
    {
        let ghost st = exec_state(sheets@, open, cur_template@, cur_title@, cur_records@);
        let lo = pieces[idx].0;
        let hi0 = pieces[idx].1;
        let hi = strip_cr_window(&chars, lo, hi0);
        let ghost line = win(chars@, lo as int, hi as int);
        assert(line == lines[idx as int]) by {
            assert(windows_view(chars@, pieces@)[idx as int] == win(chars@, lo as int, hi0 as int));
        }
        let line_no = idx + 1;
        let (tlo, thi) = trim_window(&chars, lo, hi);
        if tlo == thi {
            assert(run(lines, (idx + 1) as nat) == step(st, line, line_no as nat));
        } else if hi - lo >= 6 && chars[lo] == '#' && chars[lo + 1] == 's' && chars[lo + 2] == 'h'
            && chars[lo + 3] == 'e' && chars[lo + 4] == 'e' && chars[lo + 5] == 't' {
            assert(line.subrange(0, 6) =~= sheet_prefix());
            let a = skip_ws(&chars, lo + 6, hi);
            assert(win(chars@, (lo + 6) as int, hi as int) =~= line.subrange(6, line.len() as int));
            let ghost rest = header_rest(line);
            assert(win(chars@, a as int, hi as int) == rest);
            let tab = find_char(&chars, a, hi, '\t');
            let p1end = match tab {
                Some(t) => t,
                None => hi,
            };
            let (t0, t1) = trim_window(&chars, a, p1end);
            proof {
                crate::text::lemma_first_index_of(rest, '\t');
                match first_index_of(rest, '\t') {
                    Some(t) => {
                        assert(win(chars@, a as int, p1end as int) =~= rest.subrange(0, t));
                    },
                    None => {},
                }
            }
            if t0 == t1 {
                proof {
                    lemma_run_err(
                        lines,
                        (idx + 1) as nat,
                        lines.len(),
                        ParseError::MalformedSheet(line_no),
                    );
                }
                return Err(ParseError::MalformedSheet(line_no));
            }
            let title = match tab {
                Some(t) => {
                    let (x, y) = trim_window(&chars, t + 1, hi);
                    proof {
                        crate::text::lemma_first_index_of(rest, '\t');
                        let i = first_index_of(rest, '\t')->0;
                        assert(win(chars@, (t + 1) as int, hi as int) =~= rest.subrange(
                            i + 1,
                            rest.len() as int,
                        ));
                    }
                    string_of(&chars, x, y)
                },
                None => String::new(),
            };
            let template = string_of(&chars, t0, t1);
            if open {
                let sh = Sheet { template: cur_template, title: cur_title, records: cur_records };
                sheets.push(sh);
                proof {
                    assert(sheets_view(sheets@) =~= st.sheets.push(st.current->0));
                }
            }
            open = true;
            cur_template = template;
            cur_title = title;
            cur_records = Vec::new();
            assert(run(lines, (idx + 1) as nat) == Ok::<ParseState, ParseError>(
                exec_state(sheets@, open, cur_template@, cur_title@, cur_records@),
            )) by {
                assert(cur_records@.map_values(|r: Record| r@) =~= Seq::<RecordView>::empty());
                assert(!(trim(line).len() == 0));
            }
        } else if window_eq(&chars, tlo, thi, &end) {
            proof {
                assert(!is_sheet_line(line)) by {
                    if is_sheet_line(line) {
                        assert(line.subrange(0, 6)[0] == line[0]);
                        assert(line.subrange(0, 6)[1] == line[1]);
                        assert(line.subrange(0, 6)[2] == line[2]);
                        assert(line.subrange(0, 6)[3] == line[3]);
                        assert(line.subrange(0, 6)[4] == line[4]);
                        assert(line.subrange(0, 6)[5] == line[5]);
                    }
                }
            }
            if !open {
                proof {
                    lemma_run_err(
                        lines,
                        (idx + 1) as nat,
                        lines.len(),
                        ParseError::UnexpectedEnd(line_no),
                    );
                }
                return Err(ParseError::UnexpectedEnd(line_no));
            }
            let sh = Sheet { template: cur_template, title: cur_title, records: cur_records };
            sheets.push(sh);
            open = false;
            cur_template = String::new();
            cur_title = String::new();
            cur_records = Vec::new();
            proof {
                assert(sheets_view(sheets@) =~= st.sheets.push(st.current->0));
            }
        } else {
            proof {
                assert(!is_sheet_line(line)) by {
                    if is_sheet_line(line) {
                        assert(line.subrange(0, 6)[0] == line[0]);
                        assert(line.subrange(0, 6)[1] == line[1]);
                        assert(line.subrange(0, 6)[2] == line[2]);
                        assert(line.subrange(0, 6)[3] == line[3]);
                        assert(line.subrange(0, 6)[4] == line[4]);
                        assert(line.subrange(0, 6)[5] == line[5]);
                    }
                }
            }
            if !open {
                proof {
                    lemma_run_err(
                        lines,
                        (idx + 1) as nat,
                        lines.len(),
                        ParseError::MissingSheetHeader,
                    );
                }
                return Err(ParseError::MissingSheetHeader);
            }
            let rec = record_from_line(&chars, lo, hi);
            cur_records.push(rec);
            proof {
                assert(cur_records@.map_values(|r: Record| r@) =~= st.current->0.records.push(
                    line_record(line),
                ));
            }
        }
        idx = idx + 1;
    }
    let ghost st = exec_state(sheets@, open, cur_template@, cur_title@, cur_records@);
    if open {
        let sh = Sheet { template: cur_template, title: cur_title, records: cur_records };
        sheets.push(sh);
    }
    assert(sheets_view(sheets@) =~= flush(st));
    Ok(sheets)
}


// ---------------------------------------------------------------------------
// JSON and YAML documents
// ---------------------------------------------------------------------------

/// A decoded JSON (or YAML) document, as plain values. A number keeps the
/// text its decoder printed for it; an object keeps its entries in order, and
/// its keys are distinct as a decoder produces them (where a list repeats a
/// key, lookups see its last entry).
#[derive(Debug)]
pub enum JsonValue {
    Null,
    Bool(bool),
    Number(String),
    Text(String),
    Array(Vec<JsonValue>),
    Object(Vec<(String, JsonValue)>),
}

/// Why a decoded document does not describe sheets.
#[derive(Debug, PartialEq, Eq, Structural)]
pub enum DocumentError {
    /// The document is neither a sheet object nor an array of them.
    NotSheets,
    /// A sheet is not an object.
    SheetNotObject,
    /// A sheet has no string `template`.
    MissingTemplate,
    /// A sheet has no `records` array.
    MissingRecords,
    /// A record is not an object.
    RecordNotObject,
    /// A record has no string `label`.
    MissingLabel,
}

/// The text of each document error.
pub open spec fn spec_document_message(e: DocumentError) -> Seq<char> {
    match e {
        DocumentError::NotSheets => "expected a sheet object or an array of sheets"@,
        DocumentError::SheetNotObject => "sheet must be an object"@,
        DocumentError::MissingTemplate => "sheet is missing a string `template`"@,
        DocumentError::MissingRecords => "sheet is missing a `records` array"@,
        DocumentError::RecordNotObject => "each record must be an object"@,
        DocumentError::MissingLabel => "a record is missing a string `label`"@,
    }
}

impl DocumentError {
    /// The error's message.
    pub fn message(&self) -> (r: String)
        ensures
            r@ == spec_document_message(*self),
    {
        let mut r = String::new();
        match self {
            DocumentError::NotSheets => push_all(&mut r, "expected a sheet object or an array of sheets"),
            DocumentError::SheetNotObject => push_all(&mut r, "sheet must be an object"),
            DocumentError::MissingTemplate => push_all(&mut r, "sheet is missing a string `template`"),
            DocumentError::MissingRecords => push_all(&mut r, "sheet is missing a `records` array"),
            DocumentError::RecordNotObject => push_all(&mut r, "each record must be an object"),
            DocumentError::MissingLabel => push_all(&mut r, "a record is missing a string `label`"),
        }
        assert(r@ =~= spec_document_message(*self));
        r
    }
}

/// The value of `key` in an object's entries: that of its last entry with
/// that key.
pub open spec fn entry_of(entries: Seq<(String, JsonValue)>, key: Seq<char>) -> Option<JsonValue>
    decreases entries.len(),
{
    if entries.len() == 0 {
        None
    } else if entries.last().0@ == key {
        Some(entries.last().1)
    } else {
        entry_of(entries.drop_last(), key)
    }
}

/// A scalar as field text: a string as it is, a number as its text, a
/// boolean as `true` or `false`; anything else is no field.
pub open spec fn spec_value_to_field(v: JsonValue) -> Option<Seq<char>> {
    match v {
        JsonValue::Text(s) => Some(s@),
        JsonValue::Number(n) => Some(n@),
        JsonValue::Bool(b) => Some(
            if b {
                "true"@
            } else {
                "false"@
            },
        ),
        _ => None,
    }
}

/// The positional fields of a `fields` array: its scalars, as text, in order.
pub open spec fn scalar_fields(items: Seq<JsonValue>) -> Seq<Seq<char>>
    decreases items.len(),
{
    if items.len() == 0 {
        Seq::empty()
    } else {
        let init = scalar_fields(items.drop_last());
        match spec_value_to_field(items.last()) {
            Some(f) => init.push(f),
            None => init,
        }
    }
}

/// The named fields of a record object: each scalar entry but `label` and
/// `fields`.
pub open spec fn named_fields(entries: Seq<(String, JsonValue)>) -> Map<Seq<char>, Seq<char>>
    decreases entries.len(),
{
    if entries.len() == 0 {
        Map::empty()
    } else {
        let m = named_fields(entries.drop_last());
        let k = entries.last().0@;
        if k == "label"@ || k == "fields"@ {
            m
        } else {
            match spec_value_to_field(entries.last().1) {
                Some(f) => m.insert(k, f),
                None => m,
            }
        }
    }
}

/// A record object's named fields, where its keys are distinct: exactly its
/// keys other than `label` and `fields` whose value is a scalar, each with
/// that scalar's text.
pub proof fn law_named_fields(entries: Seq<(String, JsonValue)>)
    requires
        forall|a: int, b: int|
            0 <= a < entries.len() && 0 <= b < entries.len() && a != b ==> entries[a].0@
                != entries[b].0@,
    ensures
        forall|k: Seq<char>|
            named_fields(entries).contains_key(k) <==> exists|i: int|
                0 <= i < entries.len() && #[trigger] entries[i].0@ == k && k != "label"@ && k
                    != "fields"@ && spec_value_to_field(entries[i].1) is Some,
        forall|i: int|
            0 <= i < entries.len() && entries[i].0@ != "label"@ && entries[i].0@ != "fields"@
                && spec_value_to_field(entries[i].1) is Some ==> named_fields(entries)[#[trigger] entries[i].0@]
                == spec_value_to_field(entries[i].1)->0,
    decreases entries.len(),
{
    if entries.len() > 0 {
        let init = entries.drop_last();
        law_named_fields(init);
        let last = entries.last();
        assert forall|k: Seq<char>|
            named_fields(entries).contains_key(k) <==> exists|i: int|
                0 <= i < entries.len() && #[trigger] entries[i].0@ == k && k != "label"@ && k
                    != "fields"@ && spec_value_to_field(entries[i].1) is Some by {
            if named_fields(init).contains_key(k) {
                let i = choose|i: int|
                    0 <= i < init.len() && #[trigger] init[i].0@ == k && k != "label"@ && k
                        != "fields"@ && spec_value_to_field(init[i].1) is Some;
                assert(entries[i] == init[i]);
            }
            if exists|i: int|
                0 <= i < entries.len() && #[trigger] entries[i].0@ == k && k != "label"@ && k
                    != "fields"@ && spec_value_to_field(entries[i].1) is Some {
                let i = choose|i: int|
                    0 <= i < entries.len() && #[trigger] entries[i].0@ == k && k != "label"@ && k
                        != "fields"@ && spec_value_to_field(entries[i].1) is Some;
                if i < entries.len() - 1 {
                    assert(init[i] == entries[i]);
                }
            }
        }
        assert forall|i: int|
            0 <= i < entries.len() && entries[i].0@ != "label"@ && entries[i].0@ != "fields"@
                && spec_value_to_field(entries[i].1) is Some implies named_fields(entries)[#[trigger] entries[i].0@]
                == spec_value_to_field(entries[i].1)->0 by {
            if i < entries.len() - 1 {
                assert(init[i] == entries[i]);
                assert(entries[i].0@ != last.0@);
            }
        }
    }
}

/// A record object as a record.
pub open spec fn spec_record_from_value(v: JsonValue) -> Result<RecordView, DocumentError> {
    match v {
        JsonValue::Object(e) => match entry_of(e@, "label"@) {
            Some(JsonValue::Text(l)) => Ok(
                RecordView {
                    label: l@,
                    fields: match entry_of(e@, "fields"@) {
                        Some(JsonValue::Array(items)) => scalar_fields(items@),
                        _ => Seq::empty(),
                    },
                    named: named_fields(e@),
                },
            ),
            _ => Err(DocumentError::MissingLabel),
        },
        _ => Err(DocumentError::RecordNotObject),
    }
}

/// A list of record objects as records; the first bad one decides the error.
pub open spec fn spec_records_from_values(items: Seq<JsonValue>) -> Result<
    Seq<RecordView>,
    DocumentError,
>
    decreases items.len(),
{
    if items.len() == 0 {
        Ok(Seq::empty())
    } else {
        match spec_records_from_values(items.drop_last()) {
            Ok(rs) => match spec_record_from_value(items.last()) {
                Ok(r) => Ok(rs.push(r)),
                Err(e) => Err(e),
            },
            Err(e) => Err(e),
        }
    }
}

/// A sheet object as a sheet: its string `template`, its string `title` (or
/// nothing), and its `records` array.
pub open spec fn spec_sheet_from_value(v: JsonValue) -> Result<SheetView, DocumentError> {
    match v {
        JsonValue::Object(e) => match entry_of(e@, "template"@) {
            Some(JsonValue::Text(t)) => match entry_of(e@, "records"@) {
                Some(JsonValue::Array(items)) => match spec_records_from_values(items@) {
                    Ok(rs) => Ok(
                        SheetView {
                            template: t@,
                            title: match entry_of(e@, "title"@) {
                                Some(JsonValue::Text(s)) => s@,
                                _ => Seq::empty(),
                            },
                            records: rs,
                        },
                    ),
                    Err(x) => Err(x),
                },
                _ => Err(DocumentError::MissingRecords),
            },
            _ => Err(DocumentError::MissingTemplate),
        },
        _ => Err(DocumentError::SheetNotObject),
    }
}

/// A list of sheet objects as sheets; the first bad one decides the error.
pub open spec fn spec_sheet_list(items: Seq<JsonValue>) -> Result<Seq<SheetView>, DocumentError>
    decreases items.len(),
{
    if items.len() == 0 {
        Ok(Seq::empty())
    } else {
        match spec_sheet_list(items.drop_last()) {
            Ok(ss) => match spec_sheet_from_value(items.last()) {
                Ok(s) => Ok(ss.push(s)),
                Err(e) => Err(e),
            },
            Err(e) => Err(e),
        }
    }
}

/// A document as sheets: an array of sheet objects, or one sheet object.
pub open spec fn spec_sheets_from_value(v: JsonValue) -> Result<Seq<SheetView>, DocumentError> {
    match v {
        JsonValue::Array(items) => spec_sheet_list(items@),
        JsonValue::Object(_) => match spec_sheet_from_value(v) {
            Ok(s) => Ok(seq![s]),
            Err(e) => Err(e),
        },
        _ => Err(DocumentError::NotSheets),
    }
}

/// An error in a prefix of the record list is the error of the whole list.
proof fn lemma_records_err(items: Seq<JsonValue>, k: nat, e: DocumentError)
    requires
        k <= items.len(),
        spec_records_from_values(items.subrange(0, k as int)) == Err::<Seq<RecordView>, DocumentError>(e),
    ensures
        spec_records_from_values(items) == Err::<Seq<RecordView>, DocumentError>(e),
    decreases items.len() - k,
{
    if k < items.len() {
        let pre = items.subrange(0, k as int + 1);
        assert(pre.drop_last() =~= items.subrange(0, k as int));
        lemma_records_err(items, k + 1, e);
    } else {
        assert(items.subrange(0, k as int) =~= items);
    }
}

/// An error in a prefix of the sheet list is the error of the whole list.
proof fn lemma_sheet_list_err(items: Seq<JsonValue>, k: nat, e: DocumentError)
    requires
        k <= items.len(),
        spec_sheet_list(items.subrange(0, k as int)) == Err::<Seq<SheetView>, DocumentError>(e),
    ensures
        spec_sheet_list(items) == Err::<Seq<SheetView>, DocumentError>(e),
    decreases items.len() - k,
{
    if k < items.len() {
        let pre = items.subrange(0, k as int + 1);
        assert(pre.drop_last() =~= items.subrange(0, k as int));
        lemma_sheet_list_err(items, k + 1, e);
    } else {
        assert(items.subrange(0, k as int) =~= items);
    }
}

/// The value of `key` among an object's entries (its last entry with that key).
pub fn object_get<'a>(entries: &'a Vec<(String, JsonValue)>, key: &str) -> (r: Option<
    &'a JsonValue,
>)
    ensures
        match entry_of(entries@, key@) {
            Some(v) => r == Some(&v),
            None => r is None,
        },
{
    let mut i: usize = entries.len();
    assert(entries@.subrange(0, i as int) =~= entries@);
    while i > 0
        invariant
            i <= entries@.len(),
            entry_of(entries@, key@) == entry_of(entries@.subrange(0, i as int), key@),
        decreases i,
    {
        let ghost pre = entries@.subrange(0, i as int);
        assert(pre.last() == entries@[i - 1]);
        assert(pre.drop_last() =~= entries@.subrange(0, i - 1));
        if str_eq(entries[i - 1].0.as_str(), key) {
            return Some(&entries[i - 1].1);
        }
        i = i - 1;
    }
    None
}

/// Stringify a scalar JSON value for use as a field (non-scalars are skipped).
pub fn value_to_field(v: &JsonValue) -> (r: Option<String>)
    ensures
        match spec_value_to_field(*v) {
            Some(f) => r matches Some(s) && s@ == f,
            None => r is None,
        },
{
    match v {
        JsonValue::Text(s) => Some(s.clone()),
        JsonValue::Number(n) => Some(n.clone()),
        JsonValue::Bool(b) => {
            let mut s = String::new();
            if *b {
                push_all(&mut s, "true");
            } else {
                push_all(&mut s, "false");
            }
            assert(s@ =~= spec_value_to_field(*v)->0);
            Some(s)
        },
        _ => None,
    }
}

/// A record object as a record.
fn record_from_value(v: &JsonValue) -> (r: Result<Record, DocumentError>)
    ensures
        match spec_record_from_value(*v) {
            Ok(rv) => r matches Ok(rec) && rec@ == rv,
            Err(e) => r == Err::<Record, DocumentError>(e),
        },
{
    let entries = match v {
        JsonValue::Object(e) => e,
        _ => {
            return Err(DocumentError::RecordNotObject);
        },
    };
    let label = match object_get(entries, "label") {
        Some(JsonValue::Text(l)) => l.clone(),
        _ => {
            return Err(DocumentError::MissingLabel);
        },
    };
    // Optional positional `fields` array (for `#N` parameters).
    let mut fields: Vec<String> = Vec::new();
    match object_get(entries, "fields") {
        Some(JsonValue::Array(items)) => {
            let mut i: usize = 0;
            while i < items.len()
                invariant
                    i <= items@.len(),
                    fields.deep_view() == scalar_fields(items@.subrange(0, i as int)),
                decreases items@.len() - i,
            {
                let ghost pre = items@.subrange(0, i as int + 1);
                assert(pre.drop_last() =~= items@.subrange(0, i as int));
                assert(pre.last() == items@[i as int]);
                match value_to_field(&items[i]) {
                    Some(f) => {
                        let ghost old_fields = fields.deep_view();
                        fields.push(f);
                        assert(fields.deep_view() =~= old_fields.push(
                            spec_value_to_field(items@[i as int])->0,
                        ));
                    },
                    None => {},
                }
                i = i + 1;
            }
            assert(items@.subrange(0, items@.len() as int) =~= items@);
        },
        _ => {
            assert(fields.deep_view() =~= Seq::<Seq<char>>::empty());
        },
    }
    // Every other key is a named field, resolved by `#name`.
    let mut named = FieldMap::new();
    let mut i: usize = 0;
    while i < entries.len()
        invariant
            i <= entries@.len(),
            named@ == named_fields(entries@.subrange(0, i as int)),
        decreases entries@.len() - i,
    {
        let ghost pre = entries@.subrange(0, i as int + 1);
        assert(pre.drop_last() =~= entries@.subrange(0, i as int));
        assert(pre.last() == entries@[i as int]);
        let key = &entries[i].0;
        if !str_eq(key.as_str(), "label") && !str_eq(key.as_str(), "fields") {
            match value_to_field(&entries[i].1) {
                Some(f) => named.insert(key.clone(), f),
                None => {},
            }
        }
        i = i + 1;
    }
    assert(entries@.subrange(0, entries@.len() as int) =~= entries@);
    Ok(Record { label, fields, named })
}

/// A sheet object as a sheet.
pub fn sheet_from_value(v: &JsonValue) -> (r: Result<Sheet, DocumentError>)
    ensures
        match spec_sheet_from_value(*v) {
            Ok(sv) => r matches Ok(sh) && sh@ == sv,
            Err(e) => r == Err::<Sheet, DocumentError>(e),
        },
{
    let entries = match v {
        JsonValue::Object(e) => e,
        _ => {
            return Err(DocumentError::SheetNotObject);
        },
    };
    let template = match object_get(entries, "template") {
        Some(JsonValue::Text(t)) => t.clone(),
        _ => {
            return Err(DocumentError::MissingTemplate);
        },
    };
    let title = match object_get(entries, "title") {
        Some(JsonValue::Text(t)) => t.clone(),
        _ => String::new(),
    };
    let items = match object_get(entries, "records") {
        Some(JsonValue::Array(items)) => items,
        _ => {
            return Err(DocumentError::MissingRecords);
        },
    };
    let mut records: Vec<Record> = Vec::new();
    let mut i: usize = 0;
    assert(records@.map_values(|r: Record| r@) =~= Seq::<RecordView>::empty());
    assert(items@.subrange(0, 0) =~= Seq::<JsonValue>::empty());
    while i < items.len()
        invariant
            i <= items@.len(),
            spec_sheet_from_value(*v) == match spec_records_from_values(items@) {
                Ok(rs) => Ok(SheetView { template: template@, title: title@, records: rs }),
                Err(x) => Err(x),
            },
            spec_records_from_values(items@.subrange(0, i as int)) == Ok::<
                Seq<RecordView>,
                DocumentError,
            >(records@.map_values(|r: Record| r@)),
        decreases items@.len() - i,
    {
        let ghost pre = items@.subrange(0, i as int + 1);
        assert(pre.drop_last() =~= items@.subrange(0, i as int));
        assert(pre.last() == items@[i as int]);
        let rec = match record_from_value(&items[i]) {
            Ok(rec) => rec,
            Err(e) => {
                proof {
                    lemma_records_err(items@, i as nat + 1, e);
                }
                return Err(e);
            },
        };
        let ghost old_records = records@;
        records.push(rec);
        assert(records@.map_values(|r: Record| r@) =~= old_records.map_values(|r: Record| r@).push(
            rec@,
        ));
        i = i + 1;
    }
    assert(items@.subrange(0, items@.len() as int) =~= items@);
    Ok(Sheet { template, title, records })
}

/// Turn a decoded JSON or YAML document into sheets: the document is a sheet
/// object or an array of them. Each record's keys other than `label` (and an
/// optional positional `fields` array) become its named fields.
pub fn sheets_from_value(v: JsonValue) -> (r: Result<Vec<Sheet>, DocumentError>)
    ensures
        match spec_sheets_from_value(v) {
            Ok(ss) => r matches Ok(sheets) && sheets_view(sheets@) == ss,
            Err(e) => r == Err::<Vec<Sheet>, DocumentError>(e),
        },
{
    let ghost whole = v;
    match v {
        JsonValue::Array(items) => {
            let mut sheets: Vec<Sheet> = Vec::new();
            let mut i: usize = 0;
            assert(sheets_view(sheets@) =~= Seq::<SheetView>::empty());
            assert(items@.subrange(0, 0) =~= Seq::<JsonValue>::empty());
            while i < items.len()
                invariant
                    i <= items@.len(),
                    whole == v,
                    spec_sheets_from_value(whole) == spec_sheet_list(items@),
                    spec_sheet_list(items@.subrange(0, i as int)) == Ok::<
                        Seq<SheetView>,
                        DocumentError,
                    >(sheets_view(sheets@)),
                decreases items@.len() - i,
            {
                let ghost pre = items@.subrange(0, i as int + 1);
                assert(pre.drop_last() =~= items@.subrange(0, i as int));
                assert(pre.last() == items@[i as int]);
                let sh = match sheet_from_value(&items[i]) {
                    Ok(sh) => sh,
                    Err(e) => {
                        proof {
                            lemma_sheet_list_err(items@, i as nat + 1, e);
                        }
                        return Err(e);
                    },
                };
                let ghost old_sheets = sheets@;
                sheets.push(sh);
                assert(sheets_view(sheets@) =~= sheets_view(old_sheets).push(sh@));
                i = i + 1;
            }
            assert(items@.subrange(0, items@.len() as int) =~= items@);
            Ok(sheets)
        },
        JsonValue::Object(_) => {
            let sh = sheet_from_value(&v)?;
            let mut sheets: Vec<Sheet> = Vec::new();
            sheets.push(sh);
            assert(sheets_view(sheets@) =~= seq![sh@]);
            Ok(sheets)
        },
        _ => Err(DocumentError::NotSheets),
    }
}

// ---------------------------------------------------------------------------
// Decoding JSON and YAML documents
// ---------------------------------------------------------------------------

/// A document as `serde_json` decodes it.
#[verifier::external_type_specification]
#[verifier::external_body]
pub struct ExSerdeJsonValue(serde_json::Value);

/// What `serde_json::from_str` decodes `input` into, as a plain
/// [`JsonValue`] (`None` where `input` is not JSON): a function of `input`.
pub uninterp spec fn json_document(input: Seq<char>) -> Option<JsonValue>;

/// What `serde_norway::from_str` decodes `input` into, as a plain
/// [`JsonValue`] (`None` where `input` is not YAML): a function of `input`.
pub uninterp spec fn yaml_document(input: Seq<char>) -> Option<JsonValue>;

/// A decoded `serde_json::Value` as the plain [`JsonValue`], one for one:
/// numbers keep the text `serde_json` prints for them, objects keep their
/// entries in the order `serde_json` holds them.
#[verifier::external_body]
fn plain_document(v: serde_json::Value) -> JsonValue {
    match v {
        serde_json::Value::Null => JsonValue::Null,
        serde_json::Value::Bool(b) => JsonValue::Bool(b),
        serde_json::Value::Number(n) => JsonValue::Number(n.to_string()),
        serde_json::Value::String(s) => JsonValue::Text(s),
        serde_json::Value::Array(a) => JsonValue::Array(a.into_iter().map(plain_document).collect()),
        serde_json::Value::Object(m) => JsonValue::Object(
            m.into_iter().map(|(k, v)| (k, plain_document(v))).collect(),
        ),
    }
}

/// `serde_json::from_str` into a `serde_json::Value`, as a plain
/// [`JsonValue`]; the decoder's error text where `input` is not JSON (that
/// text is not stated).
#[verifier::external_body]
fn decode_json(input: &str) -> (r: Result<JsonValue, String>)
    ensures
        match json_document(input@) {
            Some(v) => r == Ok::<JsonValue, String>(v),
            None => r is Err,
        },
{
    serde_json::from_str::<serde_json::Value>(input).map(plain_document).map_err(|e| e.to_string())
}

/// `serde_norway::from_str` into a `serde_json::Value`, as a plain
/// [`JsonValue`]; the decoder's error text where `input` is not YAML (that
/// text is not stated).
#[verifier::external_body]
fn decode_yaml(input: &str) -> (r: Result<JsonValue, String>)
    ensures
        match yaml_document(input@) {
            Some(v) => r == Ok::<JsonValue, String>(v),
            None => r is Err,
        },
{
    serde_norway::from_str::<serde_json::Value>(input).map(plain_document).map_err(|e| e.to_string())
}

/// Why a JSON or YAML data file was rejected.
#[derive(Debug)]
pub enum DecodeError {
    /// The text is not a document of the format; the decoder's message.
    Syntax(String),
    /// The document does not describe sheets.
    Document(DocumentError),
}

impl DecodeError {
    /// The error's message.
    pub fn message(&self) -> (r: String)
        ensures
            match self {
                DecodeError::Syntax(t) => r@ == t@,
                DecodeError::Document(e) => r@ == spec_document_message(*e),
            },
    {
        match self {
            DecodeError::Syntax(t) => t.clone(),
            DecodeError::Document(e) => e.message(),
        }
    }
}

/// What reading a decoded document (or none) into sheets gives.
pub open spec fn decoded_sheets_ok(doc: Option<JsonValue>, r: Result<Vec<Sheet>, DecodeError>) -> bool {
    match doc {
        None => r matches Err(DecodeError::Syntax(_)),
        Some(v) => match spec_sheets_from_value(v) {
            Ok(ss) => r matches Ok(sheets) && sheets_view(sheets@) == ss,
            Err(e) => r matches Err(DecodeError::Document(d)) && d == e,
        },
    }
}

fn sheets_of_decoded(d: Result<JsonValue, String>) -> (r: Result<Vec<Sheet>, DecodeError>)
    ensures
        match d {
            Ok(v) => decoded_sheets_ok(Some(v), r),
            Err(_) => decoded_sheets_ok(None, r),
        },
{
    match d {
        Ok(v) => match sheets_from_value(v) {
            Ok(s) => Ok(s),
            Err(e) => Err(DecodeError::Document(e)),
        },
        Err(t) => Err(DecodeError::Syntax(t)),
    }
}

/// Parse a JSON document into sheets. Each record's keys other than `label`
/// (and an optional positional `fields` array) become its named fields,
/// resolved by `#name`.
pub fn parse_json(input: &str) -> (r: Result<Vec<Sheet>, DecodeError>)
    ensures
        decoded_sheets_ok(json_document(input@), r),
{
    sheets_of_decoded(decode_json(input))
}

/// Parse a YAML document into sheets — the YAML analogue of [`parse_json`],
/// with the same shape.
pub fn parse_yaml(input: &str) -> (r: Result<Vec<Sheet>, DecodeError>)
    ensures
        decoded_sheets_ok(yaml_document(input@), r),
{
    sheets_of_decoded(decode_yaml(input))
}

} // verus!
