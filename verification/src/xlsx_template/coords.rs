//! A1-style cell coordinates: column letters, `B7`, and ranges like `B1:E1`.

use vstd::prelude::*;
use vstd::utf8::{encode_utf8, is_ascii_chars, is_ascii_chars_encode_utf8};
use crate::text::{
    chars_of, decimal, is_digit, parse_digits, parse_digits_window, push_decimal, string_of, win,
};

verus! {

/// The letter of a column digit `0..26` (`A`..`Z`).
pub open spec fn col_digit(d: int) -> char {
    (65 + d) as char
}

/// The column letters of a 1-based column number (bijective base 26):
/// `1 -> A`, `26 -> Z`, `27 -> AA`.
pub open spec fn col_letters(n: nat) -> Seq<char>
    decreases n,
{
    if n == 0 {
        Seq::empty()
    } else {
        col_letters(((n - 1) / 26) as nat).push(col_digit((n - 1) % 26))
    }
}

/// ASCII upper-casing of a byte (`u8::to_ascii_uppercase`).
pub open spec fn upper_byte(b: u8) -> int {
    if 97 <= b && b <= 122 {
        b - 32
    } else {
        b as int
    }
}

/// A byte that the column index reads: not below `A` once upper-cased.
pub open spec fn col_byte_ok(b: u8) -> bool {
    upper_byte(b) >= 65
}

/// The number the bytes of column letters denote: each byte counts its
/// position after `A` plus one, once upper-cased, in base 26.
pub open spec fn bytes_value(b: Seq<u8>) -> int
    decreases b.len(),
{
    if b.len() == 0 {
        0
    } else {
        bytes_value(b.drop_last()) * 26 + (upper_byte(b.last()) - 65 + 1)
    }
}

/// The column number that letters denote, read over their UTF-8 bytes.
pub open spec fn column_value(s: Seq<char>) -> int {
    bytes_value(encode_utf8(s))
}

/// The letters that [`column_index`] reads: every byte at least `A` once
/// upper-cased, and a column number that fits in 32 bits.
pub open spec fn column_ok(s: Seq<char>) -> bool {
    &&& forall|i: int| 0 <= i < encode_utf8(s).len() ==> col_byte_ok(#[trigger] encode_utf8(s)[i])
    &&& column_value(s) <= u32::MAX
}

/// Over bytes that the column index reads, a prefix denotes no more than the
/// whole.
pub proof fn lemma_bytes_value_prefix(b: Seq<u8>, k: int)
    requires
        0 <= k <= b.len(),
        forall|i: int| 0 <= i < b.len() ==> col_byte_ok(#[trigger] b[i]),
    ensures
        0 <= bytes_value(b.subrange(0, k)) <= bytes_value(b),
    decreases b.len() - k,
{
    let p = b.subrange(0, k);
    assert forall|i: int| 0 <= i < p.len() implies col_byte_ok(#[trigger] p[i]) by {
        assert(p[i] == b[i]);
    }
    lemma_bytes_value_nonneg(p);
    if k < b.len() {
        lemma_bytes_value_prefix(b, k + 1);
        assert(b.subrange(0, k + 1).drop_last() =~= b.subrange(0, k));
        assert(b.subrange(0, k + 1).last() == b[k]);
        assert(col_byte_ok(b[k]));
    } else {
        assert(b.subrange(0, k) =~= b);
        lemma_bytes_value_nonneg(b);
    }
}

proof fn lemma_bytes_value_nonneg(b: Seq<u8>)
    requires
        forall|i: int| 0 <= i < b.len() ==> col_byte_ok(#[trigger] b[i]),
    ensures
        bytes_value(b) >= 0,
    decreases b.len(),
{
    if b.len() > 0 {
        assert(col_byte_ok(b[b.len() - 1]));
        lemma_bytes_value_nonneg(b.drop_last());
    }
}

/// Upper-case ASCII letters are read byte for byte.
proof fn lemma_capitals_encode(s: Seq<char>)
    requires
        forall|i: int| 0 <= i < s.len() ==> 'A' <= #[trigger] s[i] <= 'Z',
    ensures
        encode_utf8(s).len() == s.len(),
        forall|i: int| 0 <= i < s.len() ==> encode_utf8(s)[i] == s[i] as u8,
        forall|i: int| 0 <= i < s.len() ==> col_byte_ok(#[trigger] encode_utf8(s)[i]),
        forall|i: int| 0 <= i < s.len() ==> upper_byte(#[trigger] encode_utf8(s)[i]) == s[i] as int,
{
    assert(is_ascii_chars(s));
    is_ascii_chars_encode_utf8(s);
}

/// The number that upper-case letters denote, one letter at a time.
proof fn lemma_capitals_value(s: Seq<char>)
    requires
        forall|i: int| 0 <= i < s.len() ==> 'A' <= #[trigger] s[i] <= 'Z',
    ensures
        s.len() > 0 ==> column_value(s) == column_value(s.drop_last()) * 26 + (s.last() as int
            - 65 + 1),
        s.len() == 0 ==> column_value(s) == 0,
{
    lemma_capitals_encode(s);
    if s.len() > 0 {
        let p = s.drop_last();
        lemma_capitals_encode(p);
        assert(encode_utf8(s).drop_last() =~= encode_utf8(p));
    } else {
        assert(encode_utf8(s) =~= Seq::<u8>::empty());
    }
}

/// Column number to letters: `1 -> "A"`, `28 -> "AB"`.
pub fn column_letter(col: u32) -> (r: String)
    ensures
        r@ == col_letters(col as nat),
{
    let mut r = String::new();
    push_column_letters(&mut r, col);
    assert(r@ =~= col_letters(col as nat));
    r
}

fn push_column_letters(s: &mut String, col: u32)
    ensures
        final(s)@ == old(s)@ + col_letters(col as nat),
    decreases col,
{
    if col > 0 {
        push_column_letters(s, (col - 1) / 26);
        let d: u32 = (col - 1) % 26;
        let c = char_of_letter(d);
        s.push(c);
    }
    assert(s@ =~= old(s)@ + col_letters(col as nat));
}

fn char_of_letter(d: u32) -> (c: char)
    requires
        d < 26,
    ensures
        c == col_digit(d as int),
{
    let b: u8 = 65 + d as u8;
    b as char
}

/// Letters to column number: `"A" -> 1`, `"ab" -> 28` (each byte is
/// upper-cased first).
pub fn column_index(letters: &str) -> (r: u32)
    requires
        column_ok(letters@),
    ensures
        r == column_value(letters@),
{
    let b = letters.as_bytes();
    let ghost w = encode_utf8(letters@);
    assert(b@ == w);
    let mut idx: u32 = 0;
    let mut i: usize = 0;
    while i < b.len()
        invariant
            i <= w.len(),
            b@ == w,
            forall|k: int| 0 <= k < w.len() ==> col_byte_ok(#[trigger] w[k]),
            bytes_value(w) <= u32::MAX,
            idx == bytes_value(w.subrange(0, i as int)),
        decreases w.len() - i,
    {
        let c = b[i];
        assert(w.subrange(0, i + 1).drop_last() =~= w.subrange(0, i as int));
        assert(w.subrange(0, i + 1).last() == c);
        proof {
            lemma_bytes_value_prefix(w, i + 1);
        }
        let u: u32 = if 97 <= c && c <= 122 {
            c as u32 - 32
        } else {
            c as u32
        };
        assert(u == upper_byte(c));
        idx = idx * 26 + (u - 65 + 1);
        i = i + 1;
    }
    assert(w.subrange(0, w.len() as int) =~= w);
    idx
}

/// Whether [`column_index`] reads `letters`, checked.
pub fn column_ok_checked(letters: &str) -> (r: bool)
    ensures
        r == column_ok(letters@),
{
    let b = letters.as_bytes();
    let ghost w = encode_utf8(letters@);
    assert(b@ == w);
    let mut value: u64 = 0;
    let mut i: usize = 0;
    while i < b.len()
        invariant
            i <= w.len(),
            b@ == w,
            w == encode_utf8(letters@),
            forall|k: int| 0 <= k < i ==> col_byte_ok(#[trigger] w[k]),
            value == bytes_value(w.subrange(0, i as int)),
            value <= u32::MAX,
        decreases w.len() - i,
    {
        let c = b[i];
        let u: u64 = if 97 <= c && c <= 122 {
            c as u64 - 32
        } else {
            c as u64
        };
        assert(u == upper_byte(c));
        if u < 65 {
            assert(!col_byte_ok(w[i as int]));
            return false;
        }
        assert(w.subrange(0, i + 1).drop_last() =~= w.subrange(0, i as int));
        assert(w.subrange(0, i + 1).last() == c);
        let next = value * 26 + (u - 65 + 1);
        if next > 0xffff_ffff {
            proof {
                if column_ok(letters@) {
                    lemma_bytes_value_prefix(w, i + 1);
                }
            }
            return false;
        }
        value = next;
        i = i + 1;
    }
    assert(w.subrange(0, w.len() as int) =~= w);
    true
}

/// Column numbers survive the trip to letters and back: the letters of a
/// column that fits in 32 bits are upper-case, read by [`column_index`], and
/// denote that column.
pub proof fn lemma_column_round_trip(n: nat)
    requires
        n <= u32::MAX,
    ensures
        column_ok(col_letters(n)),
        column_value(col_letters(n)) == n,
        forall|i: int|
            0 <= i < col_letters(n).len() ==> 'A' <= #[trigger] col_letters(n)[i] <= 'Z',
    decreases n,
{
    let s = col_letters(n);
    if n > 0 {
        let q = ((n - 1) / 26) as nat;
        lemma_column_round_trip(q);
        assert(s.drop_last() =~= col_letters(q));
        assert forall|i: int| 0 <= i < s.len() implies 'A' <= #[trigger] s[i] <= 'Z' by {
            if i < s.len() - 1 {
                assert(s[i] == col_letters(q)[i]);
            }
        }
        lemma_capitals_value(s);
    } else {
        lemma_capitals_value(s);
    }
    lemma_capitals_encode(s);
}

/// Upper-case column letters survive the trip to a number and back.
pub proof fn lemma_letters_round_trip(s: Seq<char>)
    requires
        forall|i: int| 0 <= i < s.len() ==> 'A' <= #[trigger] s[i] <= 'Z',
    ensures
        column_value(s) >= 0,
        s.len() > 0 ==> column_value(s) >= 1,
        col_letters(column_value(s) as nat) == s,
    decreases s.len(),
{
    lemma_capitals_value(s);
    if s.len() > 0 {
        let p = s.drop_last();
        lemma_letters_round_trip(p);
        let v = column_value(s);
        let d = s.last() as int - 65;
        assert(0 <= d < 26);
        assert(v == column_value(p) * 26 + d + 1);
        assert((v - 1) / 26 == column_value(p));
        assert((v - 1) % 26 == d);
        assert(col_digit(d) == s.last());
        assert(col_letters(v as nat) =~= col_letters(column_value(p) as nat).push(s.last()));
        assert(p.push(s.last()) =~= s);
    } else {
        assert(col_letters(0) =~= s);
    }
}

/// `(col, row)` to an A1 coordinate: `(2, 7) -> "B7"`.
pub open spec fn coord_text(col: nat, row: nat) -> Seq<char> {
    col_letters(col) + decimal(row)
}

/// Convert a 1-based `(col, row)` to an A1-style coordinate string.
pub fn coord(col: u32, row: u32) -> (r: String)
    ensures
        r@ == coord_text(col as nat, row as nat),
{
    let mut r = column_letter(col);
    push_decimal(&mut r, row as u64);
    r
}

// ---------------------------------------------------------------------------
// Parsing references
// ---------------------------------------------------------------------------

/// `s` with every `$` removed.
pub open spec fn strip_dollars(s: Seq<char>) -> Seq<char>
    decreases s.len(),
{
    if s.len() == 0 {
        s
    } else if s.last() == '$' {
        strip_dollars(s.drop_last())
    } else {
        strip_dollars(s.drop_last()).push(s.last())
    }
}

/// Index of the first ASCII digit of `s`, or its length.
pub open spec fn first_digit(s: Seq<char>) -> int
    decreases s.len(),
{
    if s.len() == 0 {
        0
    } else if is_digit(s[0]) {
        0
    } else {
        1 + first_digit(s.drop_first())
    }
}

pub proof fn lemma_first_digit(s: Seq<char>)
    ensures
        0 <= first_digit(s) <= s.len(),
        forall|i: int| 0 <= i < first_digit(s) ==> !is_digit(#[trigger] s[i]),
        first_digit(s) < s.len() ==> is_digit(s[first_digit(s)]),
    decreases s.len(),
{
    if s.len() > 0 && !is_digit(s[0]) {
        lemma_first_digit(s.drop_first());
        assert forall|i: int| 0 <= i < first_digit(s) implies !is_digit(#[trigger] s[i]) by {
            if i > 0 {
                assert(s[i] == s.drop_first()[i - 1]);
            }
        }
    }
}

/// The column letters of a reference like `$B$7`: `$` signs removed, up to
/// the first digit.
pub open spec fn ref_letters(s: Seq<char>) -> Seq<char> {
    let t = strip_dollars(s);
    t.subrange(0, first_digit(t))
}

/// The row digits of a reference: what follows the column letters.
pub open spec fn ref_digits(s: Seq<char>) -> Seq<char> {
    let t = strip_dollars(s);
    t.subrange(first_digit(t), t.len() as int)
}

/// The references that [`parse_cell_ref`] reads: column letters that
/// [`column_index`] reads.
pub open spec fn cell_ref_ok(s: Seq<char>) -> bool {
    column_ok(ref_letters(s))
}

/// `(col, row)` of a reference; a row that does not parse reads as 1.
pub open spec fn cell_ref_value(s: Seq<char>) -> (u32, u32) {
    let col = column_value(ref_letters(s)) as u32;
    let row = match parse_digits(ref_digits(s), u32::MAX as nat) {
        Some(r) => r as u32,
        None => 1u32,
    };
    (col, row)
}

/// The characters of `s` without `$` signs.
fn without_dollars(s: &Vec<char>, lo: usize, hi: usize) -> (r: Vec<char>)
    requires
        lo <= hi <= s@.len(),
    ensures
        r@ == strip_dollars(win(s@, lo as int, hi as int)),
{
    let mut r: Vec<char> = Vec::new();
    let mut i = lo;
    while i < hi
        invariant
            lo <= i <= hi <= s@.len(),
            r@ == strip_dollars(win(s@, lo as int, i as int)),
        decreases hi - i,
    {
        assert(win(s@, lo as int, i + 1).drop_last() =~= win(s@, lo as int, i as int));
        assert(win(s@, lo as int, i + 1).last() == s@[i as int]);
        if s[i] != '$' {
            r.push(s[i]);
        }
        i = i + 1;
    }
    r
}

/// Position of the first ASCII digit in `t`.
fn first_digit_index(t: &Vec<char>) -> (r: usize)
    ensures
        r == first_digit(t@),
{
    proof {
        lemma_first_digit(t@);
    }
    let mut i: usize = 0;
    while i < t.len() && !('0' <= t[i] && t[i] <= '9')
        invariant
            i <= t@.len(),
            i <= first_digit(t@),
            first_digit(t@) <= t@.len(),
            first_digit(t@) < t@.len() ==> is_digit(t@[first_digit(t@)]),
            forall|k: int| 0 <= k < i ==> !is_digit(#[trigger] t@[k]),
        decreases t@.len() - i,
    {
        i = i + 1;
    }
    proof {
        if i < first_digit(t@) {
            assert(!is_digit(t@[i as int]));
        }
    }
    i
}

/// Whether `cell_ref_ok` holds of the window, checked.
fn cell_ref_ok_window(s: &Vec<char>, lo: usize, hi: usize) -> (r: bool)
    requires
        lo <= hi <= s@.len(),
    ensures
        r == cell_ref_ok(win(s@, lo as int, hi as int)),
{
    let t = without_dollars(s, lo, hi);
    let k = first_digit_index(&t);
    proof {
        lemma_first_digit(t@);
    }
    let letters = string_of(&t, 0, k);
    assert(letters@ == ref_letters(win(s@, lo as int, hi as int)));
    column_ok_checked(letters.as_str())
}

/// Parse `"B7"` or `"$B$7"` into `(col, row)`.
pub fn parse_cell_ref(s: &str) -> (r: (u32, u32))
    requires
        cell_ref_ok(s@),
    ensures
        r == cell_ref_value(s@),
{
    let c = chars_of(s);
    assert(win(c@, 0, c@.len() as int) =~= s@);
    parse_cell_ref_window(&c, 0, c.len())
}

/// [`parse_cell_ref`] of the window `lo..hi`.
pub fn parse_cell_ref_window(s: &Vec<char>, lo: usize, hi: usize) -> (r: (u32, u32))
    requires
        lo <= hi <= s@.len(),
        cell_ref_ok(win(s@, lo as int, hi as int)),
    ensures
        r == cell_ref_value(win(s@, lo as int, hi as int)),
{
    let t = without_dollars(s, lo, hi);
    let k = first_digit_index(&t);
    proof {
        lemma_first_digit(t@);
    }
    let letters = string_of(&t, 0, k);
    assert(letters@ == ref_letters(win(s@, lo as int, hi as int)));
    let col = column_index(letters.as_str());
    assert(win(t@, k as int, t@.len() as int) == ref_digits(win(s@, lo as int, hi as int)));
    let row = match parse_digits_window(&t, k, t.len(), 0xffff_ffff) {
        Some(v) => v as u32,
        None => 1,
    };
    (col, row)
}

/// The two ends of a range: split at the first `:`, or the same cell twice.
pub open spec fn range_ends(s: Seq<char>) -> (Seq<char>, Seq<char>) {
    match crate::text::first_index_of(s, ':') {
        Some(i) => (s.subrange(0, i), s.subrange(i + 1, s.len() as int)),
        None => (s, s),
    }
}

/// The ranges that [`parse_range`] reads.
pub open spec fn range_ok(s: Seq<char>) -> bool {
    cell_ref_ok(range_ends(s).0) && cell_ref_ok(range_ends(s).1)
}

/// `(start_col, start_row, end_col, end_row)` of a range.
pub open spec fn range_value(s: Seq<char>) -> (u32, u32, u32, u32) {
    let (a, b) = range_ends(s);
    (cell_ref_value(a).0, cell_ref_value(a).1, cell_ref_value(b).0, cell_ref_value(b).1)
}

/// Parse `"B1:E1"` (or `"B1"`) into `(start_col, start_row, end_col, end_row)`.
pub fn parse_range(range: &str) -> (r: (u32, u32, u32, u32))
    requires
        range_ok(range@),
    ensures
        r == range_value(range@),
{
    let s = chars_of(range);
    match parse_range_checked(&s) {
        Some(r) => r,
        None => {
            proof {
                assert(false);
            }
            (0, 0, 0, 0)
        },
    }
}

/// [`parse_range`] on any text: `None` where the range is not one it reads.
pub fn parse_range_checked(s: &Vec<char>) -> (r: Option<(u32, u32, u32, u32)>)
    ensures
        match r {
            Some(v) => range_ok(s@) && v == range_value(s@),
            None => !range_ok(s@),
        },
{
    let n = s.len();
    assert(win(s@, 0, n as int) =~= s@);
    let colon = crate::text::find_char(s, 0, n, ':');
    let (alo, ahi, blo, bhi) = match colon {
        Some(i) => (0, i, i + 1, n),
        None => (0, n, 0, n),
    };
    proof {
        crate::text::lemma_first_index_of(s@, ':');
        assert(win(s@, alo as int, ahi as int) =~= range_ends(s@).0);
        assert(win(s@, blo as int, bhi as int) =~= range_ends(s@).1);
    }
    if !cell_ref_ok_window(s, alo, ahi) || !cell_ref_ok_window(s, blo, bhi) {
        return None;
    }
    let (c1, r1) = parse_cell_ref_window(s, alo, ahi);
    let (c2, r2) = parse_cell_ref_window(s, blo, bhi);
    Some((c1, r1, c2, r2))
}

} // verus!
