//! Row-shifting for spreadsheet formulas.
//!
//! When a template row is replicated at a different output row, every *relative*
//! cell reference inside its formulas must move by the same row delta so the
//! arithmetic still points at the right cells. Absolute references (`$D$7`) and
//! the row parts marked absolute (`D$7`) are left untouched, and function names
//! such as `SUM` or `LOG10` are not mistaken for references.

use vstd::prelude::*;
use crate::text::{
    all_digits, chars_of, decimal, digit_char, digit_val, digits_value, is_digit, parse_digits, parse_digits_window, push_decimal, push_window,
    string_of, win,
};

verus! {

pub open spec fn is_ascii_alpha(c: char) -> bool {
    ('a' <= c && c <= 'z') || ('A' <= c && c <= 'Z')
}

/// Characters that can continue an identifier; a reference never starts
/// right after one of them.
pub open spec fn is_ident(c: char) -> bool {
    is_ascii_alpha(c) || is_digit(c) || c == '_' || c == '$'
}

/// Whether `c` can continue an identifier.
pub fn is_ident_char(c: char) -> (r: bool)
    ensures
        r == is_ident(c),
{
    ('a' <= c && c <= 'z') || ('A' <= c && c <= 'Z') || ('0' <= c && c <= '9') || c == '_' || c
        == '$'
}

/// The end of the run of ASCII letters that starts at `j`.
pub open spec fn alpha_end(s: Seq<char>, j: int) -> int
    decreases s.len() - j,
{
    if 0 <= j < s.len() && is_ascii_alpha(s[j]) {
        alpha_end(s, j + 1)
    } else {
        j
    }
}

/// The end of the run of ASCII digits that starts at `j`.
pub open spec fn digit_end(s: Seq<char>, j: int) -> int
    decreases s.len() - j,
{
    if 0 <= j < s.len() && is_digit(s[j]) {
        digit_end(s, j + 1)
    } else {
        j
    }
}

/// The parts of a cell reference found in a formula: optional `$`, one to
/// three column letters, optional `$`, and the row digits.
pub struct RefParts {
    pub col_abs: bool,
    pub letters_start: int,
    pub letters_end: int,
    pub row_abs: bool,
    pub end: int,
    pub row: int,
}

/// The cell reference that starts at position `i` of `s`, if one does: not a
/// function name (followed by `(`), and with a row number that fits an `i64`.
pub open spec fn ref_at(s: Seq<char>, i: int) -> Option<RefParts> {
    let col_abs = 0 <= i < s.len() && s[i] == '$';
    let ls = if col_abs {
        i + 1
    } else {
        i
    };
    let le = alpha_end(s, ls);
    if le == ls || le - ls > 3 {
        None
    } else {
        let row_abs = le < s.len() && s[le] == '$';
        let ds = if row_abs {
            le + 1
        } else {
            le
        };
        let de = digit_end(s, ds);
        if de == ds {
            None
        } else if de < s.len() && s[de] == '(' {
            None
        } else {
            match parse_digits(s.subrange(ds, de), i64::MAX as nat) {
                None => None,
                Some(row) => Some(
                    RefParts {
                        col_abs,
                        letters_start: ls,
                        letters_end: le,
                        row_abs,
                        end: de,
                        row: row as int,
                    },
                ),
            }
        }
    }
}

/// The row a reference points at after the shift: absolute rows stay, relative
/// rows move by `delta` but never above row 1.
pub open spec fn shifted_row(p: RefParts, delta: int) -> int {
    if p.row_abs {
        p.row
    } else if p.row + delta >= 1 {
        p.row + delta
    } else {
        1
    }
}

/// The text that replaces a reference.
pub open spec fn ref_text(s: Seq<char>, p: RefParts, delta: int) -> Seq<char> {
    (if p.col_abs {
        seq!['$']
    } else {
        Seq::empty()
    }) + s.subrange(p.letters_start, p.letters_end) + (if p.row_abs {
        seq!['$']
    } else {
        Seq::empty()
    }) + decimal(shifted_row(p, delta) as nat)
}

/// A reference may start at `i`: at the start, or after a non-identifier.
pub open spec fn at_boundary(s: Seq<char>, i: int) -> bool {
    i == 0 || !is_ident(s[i - 1])
}

pub proof fn lemma_alpha_end(s: Seq<char>, j: int)
    requires
        0 <= j <= s.len(),
    ensures
        j <= alpha_end(s, j) <= s.len(),
        forall|k: int| j <= k < alpha_end(s, j) ==> is_ascii_alpha(#[trigger] s[k]),
        alpha_end(s, j) < s.len() ==> !is_ascii_alpha(s[alpha_end(s, j)]),
    decreases s.len() - j,
{
    if j < s.len() && is_ascii_alpha(s[j]) {
        lemma_alpha_end(s, j + 1);
    }
}

pub proof fn lemma_digit_end(s: Seq<char>, j: int)
    requires
        0 <= j <= s.len(),
    ensures
        j <= digit_end(s, j) <= s.len(),
        forall|k: int| j <= k < digit_end(s, j) ==> is_digit(#[trigger] s[k]),
        digit_end(s, j) < s.len() ==> !is_digit(s[digit_end(s, j)]),
    decreases s.len() - j,
{
    if j < s.len() && is_digit(s[j]) {
        lemma_digit_end(s, j + 1);
    }
}

pub proof fn lemma_ref_at(s: Seq<char>, i: int)
    requires
        0 <= i < s.len(),
    ensures
        ref_at(s, i) matches Some(p) ==> i < p.end <= s.len() && i <= p.letters_start
            && p.letters_start < p.letters_end <= p.end,
{
    let col_abs = s[i] == '$';
    let ls = if col_abs {
        i + 1
    } else {
        i
    };
    lemma_alpha_end(s, ls);
    let le = alpha_end(s, ls);
    if le < s.len() && s[le] == '$' {
        lemma_digit_end(s, le + 1);
    } else {
        lemma_digit_end(s, le);
    }
}

/// The formula text from position `i` on, with every reference shifted.
pub open spec fn scan(s: Seq<char>, i: int, delta: int) -> Seq<char>
    decreases s.len() - i,
{
    if i < 0 || i >= s.len() {
        Seq::empty()
    } else if at_boundary(s, i) && ref_at(s, i) is Some {
        let p = ref_at(s, i)->0;
        proof {
            lemma_ref_at(s, i);
        }
        ref_text(s, p, delta) + scan(s, p.end, delta)
    } else {
        seq![s[i]] + scan(s, i + 1, delta)
    }
}

/// Every relative reference from position `i` on stays within `i64` once
/// shifted by `delta`.
pub open spec fn scan_fits(s: Seq<char>, i: int, delta: int) -> bool
    decreases s.len() - i,
{
    if i < 0 || i >= s.len() {
        true
    } else if at_boundary(s, i) && ref_at(s, i) is Some {
        let p = ref_at(s, i)->0;
        proof {
            lemma_ref_at(s, i);
        }
        (p.row_abs || p.row + delta <= i64::MAX) && scan_fits(s, p.end, delta)
    } else {
        scan_fits(s, i + 1, delta)
    }
}

/// What `shift_rows` returns: the formula itself for a zero delta, else the
/// formula with every relative reference's row moved by `delta`.
pub open spec fn spec_shift_rows(formula: Seq<char>, delta: int) -> Seq<char> {
    if delta == 0 {
        formula
    } else {
        scan(formula, 0, delta)
    }
}

/// A reference found at a position: whether its column is anchored, where its
/// letters lie, whether its row is anchored, where it ends, and its row.
struct FoundRef {
    col_abs: bool,
    ls: usize,
    le: usize,
    row_abs: bool,
    end: usize,
    row: u64,
}

/// Read the cell reference that starts at position `i` of `s`, if any.
fn find_ref(s: &Vec<char>, i: usize) -> (r: Option<FoundRef>)
    requires
        i < s@.len(),
    ensures
        match ref_at(s@, i as int) {
            Some(p) => r matches Some(f) && f.col_abs == p.col_abs && f.ls == p.letters_start
                && f.le == p.letters_end && f.row_abs == p.row_abs && f.end == p.end && f.row
                == p.row,
            None => r is None,
        },
{
    proof {
        lemma_ref_at(s@, i as int);
    }
    let n = s.len();
    let col_abs = s[i] == '$';
    let ls = if col_abs {
        i + 1
    } else {
        i
    };
    let mut le = ls;
    proof {
        lemma_alpha_end(s@, ls as int);
    }
    while le < n && (('a' <= s[le] && s[le] <= 'z') || ('A' <= s[le] && s[le] <= 'Z'))
        invariant
            ls <= le <= n == s@.len(),
            alpha_end(s@, le as int) == alpha_end(s@, ls as int),
        decreases n - le,
    {
        le = le + 1;
    }
    if le == ls || le - ls > 3 {
        return None;
    }
    let row_abs = le < n && s[le] == '$';
    let ds = if row_abs {
        le + 1
    } else {
        le
    };
    let mut de = ds;
    proof {
        lemma_digit_end(s@, ds as int);
    }
    while de < n && ('0' <= s[de] && s[de] <= '9')
        invariant
            ds <= de <= n == s@.len(),
            digit_end(s@, de as int) == digit_end(s@, ds as int),
        decreases n - de,
    {
        de = de + 1;
    }
    if de == ds {
        return None;
    }
    if de < n && s[de] == '(' {
        return None;
    }
    let row = match parse_digits_window(s, ds, de, 0x7fff_ffff_ffff_ffff) {
        Some(v) => v,
        None => {
            return None;
        },
    };
    Some(FoundRef { col_abs, ls, le, row_abs, end: de, row })
}

/// Shift the row component of every relative cell reference in `formula` by
/// `delta`; `None` when a shifted row would not fit an `i64`.
pub fn try_shift_rows(formula: &str, delta: i64) -> (r: Option<String>)
    ensures
        match r {
            Some(t) => (delta == 0 || scan_fits(formula@, 0, delta as int)) && t@
                == spec_shift_rows(formula@, delta as int),
            None => delta != 0 && !scan_fits(formula@, 0, delta as int),
        },
{
    let s = chars_of(formula);
    if delta == 0 {
        assert(win(s@, 0, s@.len() as int) =~= s@);
        return Some(string_of(&s, 0, s.len()));
    }
    let mut out = String::new();
    let mut i: usize = 0;
    while i < s.len()
        invariant
            i <= s@.len(),
            s@ == formula@,
            delta != 0,
            scan_fits(s@, 0, delta as int) == scan_fits(s@, i as int, delta as int),
            out@ + scan(s@, i as int, delta as int) == scan(s@, 0, delta as int),
        decreases s@.len() - i,
    {
        let boundary = i == 0 || !is_ident_char(s[i - 1]);
        proof {
            lemma_ref_at(s@, i as int);
        }
        let found = if boundary {
            find_ref(&s, i)
        } else {
            None
        };
        match found {
            Some(f) => {
                let ghost p = ref_at(s@, i as int)->0;
                if !f.row_abs && delta > 0 && f.row as i64 > 0x7fff_ffff_ffff_ffff - delta {
                    return None;
                }
                let new_row: u64 = if f.row_abs {
                    f.row
                } else {
                    let sum: i64 = f.row as i64 + delta;
                    if sum >= 1 {
                        sum as u64
                    } else {
                        1
                    }
                };
                assert(new_row as int == shifted_row(p, delta as int));
                let ghost before = out@;
                if f.col_abs {
                    out.push('$');
                }
                push_window(&mut out, &s, f.ls, f.le);
                if f.row_abs {
                    out.push('$');
                }
                push_decimal(&mut out, new_row);
                proof {
                    let dollar = if f.col_abs {
                        seq!['$']
                    } else {
                        Seq::<char>::empty()
                    };
                    let dollar2 = if f.row_abs {
                        seq!['$']
                    } else {
                        Seq::<char>::empty()
                    };
                    assert(out@ =~= before + (dollar + win(s@, f.ls as int, f.le as int) + dollar2
                        + decimal(new_row as nat)));
                    assert(out@ == before + ref_text(s@, p, delta as int));
                }
                assert(out@ + scan(s@, f.end as int, delta as int) =~= scan(s@, 0, delta as int));
                i = f.end;
            },
            None => {
                out.push(s[i]);
                assert(out@ + scan(s@, i + 1, delta as int) =~= scan(s@, 0, delta as int)) by {
                    assert(scan(s@, i as int, delta as int) == seq![s@[i as int]] + scan(
                        s@,
                        i + 1,
                        delta as int,
                    ));
                }
                i = i + 1;
            },
        }
    }
    assert(scan(s@, i as int, delta as int) =~= Seq::<char>::empty());
    assert(out@ =~= scan(s@, 0, delta as int));
    Some(out)
}

/// Shift the row component of every relative cell reference in `formula` by
/// `delta`.
pub fn shift_rows(formula: &str, delta: i64) -> (r: String)
    requires
        delta == 0 || scan_fits(formula@, 0, delta as int),
    ensures
        r@ == spec_shift_rows(formula@, delta as int),
{
    match try_shift_rows(formula, delta) {
        Some(t) => t,
        None => {
            proof {
                assert(false);
            }
            String::new()
        },
    }
}



/// Shifting by zero rows leaves a formula as it is.
pub proof fn law_zero_shift_is_identity(formula: Seq<char>)
    ensures
        spec_shift_rows(formula, 0) == formula,
{
}

/// The text from position `i` on is kept when no reference starts there or
/// later.
proof fn lemma_scan_without_refs(s: Seq<char>, i: int, delta: int)
    requires
        0 <= i <= s.len(),
        forall|k: int| i <= k < s.len() ==> !(at_boundary(s, k) && #[trigger] ref_at(s, k) is Some),
    ensures
        scan(s, i, delta) == s.subrange(i, s.len() as int),
    decreases s.len() - i,
{
    if i < s.len() {
        assert(!(at_boundary(s, i) && ref_at(s, i) is Some));
        lemma_scan_without_refs(s, i + 1, delta);
        assert(seq![s[i]] + s.subrange(i + 1, s.len() as int) =~= s.subrange(i, s.len() as int));
    } else {
        assert(s.subrange(i, s.len() as int) =~= Seq::<char>::empty());
    }
}

/// A formula with no cell reference in it is left as it is by any shift.
pub proof fn law_formula_without_refs_is_kept(formula: Seq<char>, delta: int)
    requires
        forall|k: int|
            0 <= k < formula.len() ==> !(at_boundary(formula, k) && #[trigger] ref_at(formula, k) is Some),
    ensures
        spec_shift_rows(formula, delta) == formula,
{
    lemma_scan_without_refs(formula, 0, delta);
    assert(formula.subrange(0, formula.len() as int) =~= formula);
}

/// The end of the run of identifier characters that starts at `j`.
pub open spec fn ident_end(s: Seq<char>, j: int) -> int
    decreases s.len() - j,
{
    if 0 <= j < s.len() && is_ident(s[j]) {
        ident_end(s, j + 1)
    } else {
        j
    }
}

proof fn lemma_ident_end(s: Seq<char>, j: int)
    requires
        0 <= j <= s.len(),
    ensures
        j <= ident_end(s, j) <= s.len(),
        forall|k: int| j <= k < ident_end(s, j) ==> is_ident(#[trigger] s[k]),
        ident_end(s, j) < s.len() ==> !is_ident(s[ident_end(s, j)]),
    decreases s.len() - j,
{
    if j < s.len() && is_ident(s[j]) {
        lemma_ident_end(s, j + 1);
    }
}

proof fn lemma_alpha_end_at(s: Seq<char>, j: int, e: int)
    requires
        0 <= j <= e <= s.len(),
        forall|k: int| j <= k < e ==> is_ascii_alpha(#[trigger] s[k]),
        e < s.len() ==> !is_ascii_alpha(s[e]),
    ensures
        alpha_end(s, j) == e,
    decreases e - j,
{
    if j < e {
        lemma_alpha_end_at(s, j + 1, e);
    }
}

proof fn lemma_digit_end_at(s: Seq<char>, j: int, e: int)
    requires
        0 <= j <= e <= s.len(),
        forall|k: int| j <= k < e ==> is_digit(#[trigger] s[k]),
        e < s.len() ==> !is_digit(s[e]),
    ensures
        digit_end(s, j) == e,
    decreases e - j,
{
    if j < e {
        lemma_digit_end_at(s, j + 1, e);
    }
}

proof fn lemma_digit_char(m: nat)
    requires
        m < 10,
    ensures
        is_digit(digit_char(m)),
        digit_val(digit_char(m)) == m,
{
}

proof fn lemma_decimal_parses(n: nat)
    ensures
        decimal(n).len() > 0,
        all_digits(decimal(n)),
        digits_value(decimal(n)) == n,
    decreases n,
{
    lemma_digit_char(n % 10);
    if n >= 10 {
        lemma_decimal_parses(n / 10);
        let d = decimal(n);
        assert(d.drop_last() =~= decimal(n / 10));
        assert(d.last() == digit_char(n % 10));
        assert(digits_value(d) == digits_value(d.drop_last()) * 10 + digit_val(d.last()));
        assert(n == (n / 10) * 10 + n % 10);
        assert forall|i: int| 0 <= i < d.len() implies is_digit(#[trigger] d[i]) by {
            if i < d.len() - 1 {
                assert(d[i] == decimal(n / 10)[i]);
            }
        }
    } else {
        assert(decimal(n).drop_last() =~= Seq::<char>::empty());
        assert(n % 10 == n);
        assert(digits_value(decimal(n)) == digits_value(decimal(n).drop_last()) * 10 + digit_val(
            decimal(n).last(),
        ));
    }
}

/// Past a character that can continue an identifier no reference starts, so
/// the scan keeps such characters as they are.
proof fn lemma_scan_copies(s: Seq<char>, i: int, j: int, delta: int)
    requires
        0 <= i < j <= s.len(),
        forall|q: int| i <= q < j - 1 ==> is_ident(#[trigger] s[q]),
    ensures
        scan(s, i + 1, delta) == s.subrange(i + 1, j) + scan(s, j, delta),
    decreases j - i,
{
    if i + 1 < j {
        assert(is_ident(s[i]));
        assert(!at_boundary(s, i + 1));
        lemma_scan_copies(s, i + 1, j, delta);
        assert(seq![s[i + 1]] + s.subrange(i + 2, j) =~= s.subrange(i + 1, j));
    } else {
        assert(s.subrange(i + 1, j) =~= Seq::<char>::empty());
    }
}

/// A reference that the scan of `s` rewrites at `i` is read again, with its
/// moved row, where its text lands in `t`.
#[verifier::rlimit(60)]
proof fn lemma_ref_carried(s: Seq<char>, i: int, t: Seq<char>, k: int, a: int, b: int) -> (de2: int)
    requires
        (a >= 1 && b >= 1) || (a <= -1 && b <= -1),
        0 <= i < s.len(),
        0 <= k <= t.len(),
        t.subrange(k, t.len() as int) == scan(s, i, a),
        at_boundary(s, i),
        ref_at(s, i) is Some,
        a <= -1 || scan_fits(s, i, a),
    ensures
        ref_at(t, k) is Some,
        ref_at(t, k)->0.end == de2,
        k < de2 <= t.len(),
        ref_text(t, ref_at(t, k)->0, b) == ref_text(s, ref_at(s, i)->0, a + b),
        t.subrange(de2, t.len() as int) == scan(s, ref_at(s, i)->0.end, a),
        is_ident(t[de2 - 1]),
{
    let u = scan(s, i, a);
    assert(u.len() == t.len() - k);
    assert forall|j: int| 0 <= j < u.len() implies t[k + j] == #[trigger] u[j] by {
        assert(t.subrange(k, t.len() as int)[j] == t[k + j]);
    }
    let p = ref_at(s, i)->0;
    lemma_ref_at(s, i);
    let ls = p.letters_start;
    let le = p.letters_end;
    let ds = if p.row_abs {
        le + 1
    } else {
        le
    };
    lemma_alpha_end(s, ls);
    lemma_digit_end(s, ds);
    let rt = ref_text(s, p, a);
    let rest = scan(s, p.end, a);
    assert(u == rt + rest);
    let r1 = shifted_row(p, a);
    let dd = decimal(r1 as nat);
    lemma_decimal_parses(r1 as nat);
    let ca: int = if p.col_abs {
        1
    } else {
        0
    };
    let ra: int = if p.row_abs {
        1
    } else {
        0
    };
    let ll = le - ls;
    assert(ls == i + ca);
    assert(rt.len() == ca + ll + ra + dd.len());
    let ls2 = k + ca;
    let le2 = ls2 + ll;
    let ds2 = le2 + ra;
    let de2 = ds2 + dd.len();
    assert forall|q: int| ls2 <= q < le2 implies t[q] == s[q - k - ca + ls] by {
        assert(t[q] == u[q - k]);
        assert(u[q - k] == rt[q - k]);
    }
    assert forall|q: int| ds2 <= q < de2 implies t[q] == dd[q - ds2] by {
        assert(t[q] == u[q - k]);
        assert(u[q - k] == rt[q - k]);
    }
    assert(t[k] == u[0]);
    assert(u[0] == rt[0]);
    if p.row_abs {
        assert(t[le2] == u[le2 - k]);
        assert(u[le2 - k] == rt[le2 - k]);
    } else {
        assert(t[le2] == dd[0]);
    }
    if p.end < s.len() {
        assert(is_ident(s[p.end - 1]));
        assert(!at_boundary(s, p.end));
        assert(rest[0] == s[p.end]);
        assert(t[de2] == u[rt.len() as int]);
    } else {
        assert(rest.len() == 0);
    }
    assert forall|q: int| ls2 <= q < le2 implies is_ascii_alpha(#[trigger] t[q]) by {
        assert(t[q] == s[q - k - ca + ls]);
    }
    lemma_alpha_end_at(t, ls2, le2);
    assert forall|q: int| ds2 <= q < de2 implies is_digit(#[trigger] t[q]) by {
        assert(t[q] == dd[q - ds2]);
    }
    lemma_digit_end_at(t, ds2, de2);
    assert(t.subrange(ds2, de2) =~= dd);
    assert(t.subrange(ls2, le2) =~= s.subrange(ls, le));
    let p2 = ref_at(t, k)->0;
    assert(ref_at(t, k) is Some);
    assert(p2.end == de2);
    assert(p2.row == r1);
    assert(ref_text(t, p2, b) =~= ref_text(s, p, a + b));
    assert forall|j: int| 0 <= j < rest.len() implies #[trigger] t.subrange(de2, t.len() as int)[j] == rest[j] by {
        assert(t[de2 + j] == u[de2 - k + j]);
        assert(u[de2 - k + j] == rest[j]);
    }
    assert(t.subrange(de2, t.len() as int) =~= rest);
    assert(de2 > 0 && is_ident(t[de2 - 1]));
    de2
}

/// Where the scan of `s` keeps the character at `i`, no reference starts at
/// the matching place of `t` unless one starts at `i`.
#[verifier::rlimit(60)]
proof fn lemma_no_ref_carried(s: Seq<char>, i: int, t: Seq<char>, k: int, a: int)
    requires
        a >= 1 || a <= -1,
        0 <= i < s.len(),
        0 <= k <= t.len(),
        t.subrange(k, t.len() as int) == scan(s, i, a),
        !(at_boundary(s, i) && ref_at(s, i) is Some),
        at_boundary(s, i),
    ensures
        ref_at(t, k) is None,
{
    let u = scan(s, i, a);
    assert(u.len() == t.len() - k);
    assert forall|j: int| 0 <= j < u.len() implies t[k + j] == #[trigger] u[j] by {
        assert(t.subrange(k, t.len() as int)[j] == t[k + j]);
    }
    assert(u == seq![s[i]] + scan(s, i + 1, a));
    assert(u[0] == s[i]);
    assert(t[k] == s[i]);
    if is_ident(s[i]) {
        lemma_ident_end(s, i);
        let e = ident_end(s, i);
        let e1 = if e < s.len() {
            e + 1
        } else {
            e
        };
        lemma_scan_copies(s, i, e1, a);
        assert(u =~= s.subrange(i, e1) + scan(s, e1, a));
        assert forall|q: int| i <= q < e1 implies t[k + q - i] == #[trigger] s[q] by {
            assert(t[k + q - i] == u[q - i]);
        }
        if e1 == s.len() {
            assert(scan(s, e1, a).len() == 0);
            assert(t.len() == k + s.len() - i);
        }
        let col_abs = s[i] == '$';
        let ls = if col_abs {
            i + 1
        } else {
            i
        };
        lemma_alpha_end(s, ls);
        let le = alpha_end(s, ls);
        assert(le <= e) by {
            if le > e {
                assert(is_ascii_alpha(s[e]));
            }
        }
        assert forall|q: int| ls + k - i <= q < le + k - i implies is_ascii_alpha(#[trigger] t[q]) by {
            assert(t[q] == s[q - k + i]);
        }
        if le < s.len() {
            assert(t[le + k - i] == s[le]);
        }
        lemma_alpha_end_at(t, ls + k - i, le + k - i);
        if !(le == ls || le - ls > 3) {
            let row_abs = le < s.len() && s[le] == '$';
            let ds = if row_abs {
                le + 1
            } else {
                le
            };
            lemma_digit_end(s, ds);
            let de = digit_end(s, ds);
            assert(de <= e) by {
                if de > e {
                    assert(is_digit(s[e]));
                }
            }
            assert forall|q: int| ds + k - i <= q < de + k - i implies is_digit(#[trigger] t[q]) by {
                assert(t[q] == s[q - k + i]);
            }
            if de < s.len() {
                assert(t[de + k - i] == s[de]);
            }
            lemma_digit_end_at(t, ds + k - i, de + k - i);
            assert(t.subrange(ds + k - i, de + k - i) =~= s.subrange(ds, de));
        }
        assert(ref_at(t, k) is None);
    } else {
        lemma_alpha_end_at(s, i, i);
        lemma_alpha_end_at(t, k, k);
    }
}

/// Where `t` continues, from `k`, with the text the scan of `s` makes from
/// `i` (shifted by `a`), scanning `t` from `k` with `b` makes what scanning
/// `s` from `i` with `a + b` makes.
#[verifier::rlimit(60)]
proof fn lemma_scan_compose(s: Seq<char>, i: int, t: Seq<char>, k: int, a: int, b: int)
    requires
        (a >= 1 && b >= 1) || (a <= -1 && b <= -1),
        0 <= i <= s.len(),
        0 <= k <= t.len(),
        t.subrange(k, t.len() as int) == scan(s, i, a),
        at_boundary(t, k) == at_boundary(s, i),
        a <= -1 || scan_fits(s, i, a),
    ensures
        scan(t, k, b) == scan(s, i, a + b),
    decreases s.len() - i,
{
    let u = scan(s, i, a);
    assert(u.len() == t.len() - k);
    if i >= s.len() {
        return;
    }
    if at_boundary(s, i) && ref_at(s, i) is Some {
        let p = ref_at(s, i)->0;
        lemma_ref_at(s, i);
        let de2 = lemma_ref_carried(s, i, t, k, a, b);
        lemma_digit_end(s, if p.row_abs { p.letters_end + 1 } else { p.letters_end });
        assert(is_ident(s[p.end - 1]));
        lemma_scan_compose(s, p.end, t, de2, a, b);
    } else {
        assert(u == seq![s[i]] + scan(s, i + 1, a));
        assert(u[0] == s[i]);
        assert(t.subrange(k, t.len() as int)[0] == t[k]);
        assert(t[k] == s[i]);
        if at_boundary(s, i) {
            lemma_no_ref_carried(s, i, t, k, a);
        }
        let u1 = scan(s, i + 1, a);
        assert forall|j: int| 0 <= j < u1.len() implies #[trigger] t.subrange(k + 1, t.len() as int)[j] == u1[j] by {
            assert(t.subrange(k, t.len() as int)[1 + j] == t[k + 1 + j]);
            assert(u[1 + j] == u1[j]);
        }
        assert(t.subrange(k + 1, t.len() as int) =~= scan(s, i + 1, a));
        lemma_scan_compose(s, i + 1, t, k + 1, a, b);
    }
}

/// Shifting a formula by `a` rows and then by `b` rows, both down or both
/// up, shifts it by `a + b` rows; downwards, provided the first shift keeps
/// every relative row within an `i64` (past it, the moved row is no longer
/// read as a reference).
pub proof fn law_shifts_compose(formula: Seq<char>, a: int, b: int)
    requires
        (a >= 0 && b >= 0 && (b == 0 || scan_fits(formula, 0, a))) || (a <= 0 && b <= 0),
    ensures
        spec_shift_rows(spec_shift_rows(formula, a), b) == spec_shift_rows(formula, a + b),
{
    if a != 0 && b != 0 {
        let t = scan(formula, 0, a);
        assert(t.subrange(0, t.len() as int) =~= t);
        lemma_scan_compose(formula, 0, t, 0, a, b);
    }
}

// ---------------------------------------------------------------------------
// References that removing rows cannot adjust
// ---------------------------------------------------------------------------

/// A character that a cell coordinate is made of: an upper-case letter, a
/// digit or `$`.
pub open spec fn coord_char(c: char) -> bool {
    ('A' <= c && c <= 'Z') || is_digit(c) || c == '$'
}

pub open spec fn is_upper(c: char) -> bool {
    'A' <= c && c <= 'Z'
}

/// The end of the run of coordinate characters that starts at `j`.
pub open spec fn coord_run_end(s: Seq<char>, j: int) -> int
    decreases s.len() - j,
{
    if 0 <= j < s.len() && coord_char(s[j]) {
        coord_run_end(s, j + 1)
    } else {
        j
    }
}

/// The end of the run of upper-case letters that starts at `j`.
pub open spec fn upper_end(s: Seq<char>, j: int) -> int
    decreases s.len() - j,
{
    if 0 <= j < s.len() && is_upper(s[j]) {
        upper_end(s, j + 1)
    } else {
        j
    }
}

/// The run `s[i..j)` reads as a column with no row: `$` optional, one to
/// three letters, and then nothing, or digits (after an optional `$`) that
/// do not fit a `u32`.
pub open spec fn column_only(s: Seq<char>, i: int, j: int) -> bool {
    let ls = if i < j && s[i] == '$' {
        i + 1
    } else {
        i
    };
    let le = upper_end(s, ls);
    &&& 1 <= le - ls <= 3
    &&& le <= j
    &&& (le == j || {
        let ds = if s[le] == '$' {
            le + 1
        } else {
            le
        };
        &&& ds < j
        &&& digit_end(s, ds) == j
        &&& parse_digits(s.subrange(ds, j), u32::MAX as nat) is None
    })
}

/// From `i` on, reading in `mode` (0: plain text, 1: inside a `"` string, 2:
/// inside a `'` quoted sheet name), no maximal run of coordinate characters
/// outside quotes reads as a column with no row, unless it names a function
/// (a `(` follows it).
pub open spec fn runs_safe(s: Seq<char>, i: int, mode: int) -> bool
    decreases s.len() - i,
{
    if i < 0 || i >= s.len() {
        true
    } else if mode == 1 {
        runs_safe(s, i + 1, if s[i] == '"' { 0 } else { 1 })
    } else if mode == 2 {
        runs_safe(s, i + 1, if s[i] == '\'' { 0 } else { 2 })
    } else if s[i] == '"' {
        runs_safe(s, i + 1, 1)
    } else if s[i] == '\'' {
        runs_safe(s, i + 1, 2)
    } else if !coord_char(s[i]) {
        runs_safe(s, i + 1, 0)
    } else {
        let j = coord_run_end(s, i);
        proof {
            lemma_coord_run_end(s, i);
        }
        if j <= i {
            true
        } else {
            (!column_only(s, i, j) || (j < s.len() && s[j] == '(')) && runs_safe(s, j, 0)
        }
    }
}

/// `umya_spreadsheet` adjusts the references of a formula when rows are
/// removed; it reads each piece of a reference operand with
/// `index_from_coordinate` and fails on a piece that has a column but no row
/// (`A:A`, a name such as `TAX`, or a row past `u32`). Such a piece is a
/// maximal run of coordinate characters of the formula, outside string
/// literals and quoted sheet names, that no `(` follows; a formula none of
/// whose runs reads that way is adjusted without failing.
pub open spec fn removal_safe(formula: Seq<char>) -> bool {
    runs_safe(formula, 0, 0)
}

pub proof fn lemma_coord_run_end(s: Seq<char>, j: int)
    requires
        0 <= j <= s.len(),
    ensures
        j <= coord_run_end(s, j) <= s.len(),
        forall|k: int| j <= k < coord_run_end(s, j) ==> coord_char(#[trigger] s[k]),
    decreases s.len() - j,
{
    if j < s.len() && coord_char(s[j]) {
        lemma_coord_run_end(s, j + 1);
    }
}

proof fn lemma_upper_end(s: Seq<char>, j: int)
    requires
        0 <= j <= s.len(),
    ensures
        j <= upper_end(s, j) <= s.len(),
        upper_end(s, j) < s.len() ==> !is_upper(s[upper_end(s, j)]),
        forall|k: int| j <= k < upper_end(s, j) ==> is_upper(#[trigger] s[k]),
    decreases s.len() - j,
{
    if j < s.len() && is_upper(s[j]) {
        lemma_upper_end(s, j + 1);
    }
}

fn column_only_at(s: &Vec<char>, i: usize, j: usize) -> (r: bool)
    requires
        i < j <= s@.len(),
        coord_run_end(s@, i as int) == j,
    ensures
        r == column_only(s@, i as int, j as int),
{
    proof {
        lemma_coord_run_end(s@, i as int);
    }
    let n = s.len();
    let ls = if s[i] == '$' {
        i + 1
    } else {
        i
    };
    let mut le = ls;
    proof {
        lemma_upper_end(s@, ls as int);
    }
    while le < n && 'A' <= s[le] && s[le] <= 'Z'
        invariant
            ls <= le <= n == s@.len(),
            upper_end(s@, le as int) == upper_end(s@, ls as int),
        decreases n - le,
    {
        le = le + 1;
    }
    if le - ls < 1 || le - ls > 3 || le > j {
        return false;
    }
    if le == j {
        return true;
    }
    let ds = if s[le] == '$' {
        le + 1
    } else {
        le
    };
    if ds >= j {
        return false;
    }
    let mut de = ds;
    proof {
        lemma_digit_end(s@, ds as int);
    }
    while de < n && '0' <= s[de] && s[de] <= '9'
        invariant
            ds <= de <= n == s@.len(),
            digit_end(s@, de as int) == digit_end(s@, ds as int),
        decreases n - de,
    {
        de = de + 1;
    }
    if de != j {
        return false;
    }
    parse_digits_window(s, ds, j, 0xffff_ffff).is_none()
}

/// Whether `formula` is [`removal_safe`].
pub fn removal_safe_formula(formula: &str) -> (r: bool)
    ensures
        r == removal_safe(formula@),
{
    let s = chars_of(formula);
    let n = s.len();
    let mut i: usize = 0;
    let mut mode: u8 = 0;
    while i < n
        invariant
            0 <= i <= n == s@.len(),
            s@ == formula@,
            mode <= 2,
            runs_safe(s@, 0, 0) == runs_safe(s@, i as int, mode as int),
        decreases n - i,
    {
        let c = s[i];
        if mode == 1 {
            if c == '"' {
                mode = 0;
            }
            i = i + 1;
        } else if mode == 2 {
            if c == '\'' {
                mode = 0;
            }
            i = i + 1;
        } else if c == '"' {
            mode = 1;
            i = i + 1;
        } else if c == '\'' {
            mode = 2;
            i = i + 1;
        } else if !(('A' <= c && c <= 'Z') || ('0' <= c && c <= '9') || c == '$') {
            i = i + 1;
        } else {
            let mut j = i;
            proof {
                lemma_coord_run_end(s@, i as int);
            }
            while j < n && (('A' <= s[j] && s[j] <= 'Z') || ('0' <= s[j] && s[j] <= '9') || s[j] == '$')
                invariant
                    i <= j <= n == s@.len(),
                    coord_run_end(s@, j as int) == coord_run_end(s@, i as int),
                decreases n - j,
            {
                j = j + 1;
            }
            assert(j > i);
            if column_only_at(&s, i, j) && !(j < n && s[j] == '(') {
                return false;
            }
            i = j;
        }
    }
    true
}

} // verus!
