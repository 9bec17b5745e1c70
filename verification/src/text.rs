//! Character-level building blocks shared by the parsers: Unicode whitespace,
//! trimming, splitting on a separator, decimal digits, and conversions between
//! `&str`/`String` and character vectors.
//!
//! Text is handled as a `Vec<char>` plus a half-open window `lo..hi`, so the
//! parsers can cut lines and fields without copying; every function states its
//! result over the window's `Seq<char>`.

use vstd::prelude::*;

verus! {

/// `String::push` appends one character.
pub assume_specification[ String::push ](s: &mut String, ch: char)
    ensures
        final(s)@ == old(s)@.push(ch),
;

/// Whether `char::is_alphanumeric` holds of `c`: the Unicode `Alphabetic`
/// property or a Unicode numeric category.
pub uninterp spec fn char_alphanumeric(c: char) -> bool;

/// `char::is_alphanumeric`. Its result is named, not restated: it follows
/// Unicode tables that take pages to write down.
#[verifier::external_body]
pub(crate) fn is_alphanumeric(c: char) -> (r: bool)
    ensures
        r == char_alphanumeric(c),
{
    c.is_alphanumeric()
}

// ---------------------------------------------------------------------------
// Whitespace and trimming
// ---------------------------------------------------------------------------

/// The Unicode `White_Space` property, which is what `char::is_whitespace`,
/// `str::trim` and friends test.
pub open spec fn is_ws(c: char) -> bool {
    ||| ('\u{9}' <= c && c <= '\u{d}')
    ||| c == ' '
    ||| c == '\u{85}'
    ||| c == '\u{a0}'
    ||| c == '\u{1680}'
    ||| ('\u{2000}' <= c && c <= '\u{200a}')
    ||| c == '\u{2028}'
    ||| c == '\u{2029}'
    ||| c == '\u{202f}'
    ||| c == '\u{205f}'
    ||| c == '\u{3000}'
}

/// Executable whitespace test.
pub fn char_is_ws(c: char) -> (r: bool)
    ensures
        r == is_ws(c),
{
    ('\u{9}' <= c && c <= '\u{d}') || c == ' ' || c == '\u{85}' || c == '\u{a0}' || c == '\u{1680}'
        || ('\u{2000}' <= c && c <= '\u{200a}') || c == '\u{2028}' || c == '\u{2029}' || c
        == '\u{202f}' || c == '\u{205f}' || c == '\u{3000}'
}

/// `s` without its leading whitespace.
pub open spec fn trim_start(s: Seq<char>) -> Seq<char>
    decreases s.len(),
{
    if s.len() > 0 && is_ws(s[0]) {
        trim_start(s.drop_first())
    } else {
        s
    }
}

/// `s` without its trailing whitespace.
pub open spec fn trim_end(s: Seq<char>) -> Seq<char>
    decreases s.len(),
{
    if s.len() > 0 && is_ws(s.last()) {
        trim_end(s.drop_last())
    } else {
        s
    }
}

/// `s` without leading and trailing whitespace (`str::trim`).
pub open spec fn trim(s: Seq<char>) -> Seq<char> {
    trim_end(trim_start(s))
}

/// `s` without any trailing carriage returns.
pub open spec fn strip_cr(s: Seq<char>) -> Seq<char>
    decreases s.len(),
{
    if s.len() > 0 && s.last() == '\r' {
        strip_cr(s.drop_last())
    } else {
        s
    }
}

/// The window `lo..hi` of `s` as a sequence.
pub open spec fn win(s: Seq<char>, lo: int, hi: int) -> Seq<char> {
    s.subrange(lo, hi)
}

/// Start of the window once its leading whitespace is skipped.
pub fn skip_ws(s: &Vec<char>, lo: usize, hi: usize) -> (a: usize)
    requires
        lo <= hi <= s@.len(),
    ensures
        lo <= a <= hi,
        win(s@, a as int, hi as int) == trim_start(win(s@, lo as int, hi as int)),
{
    let mut a = lo;
    while a < hi && char_is_ws(s[a])
        invariant
            lo <= a <= hi <= s@.len(),
            trim_start(win(s@, a as int, hi as int)) == trim_start(win(s@, lo as int, hi as int)),
        decreases hi - a,
    {
        assert(win(s@, a as int, hi as int).drop_first() =~= win(s@, a + 1, hi as int));
        a = a + 1;
    }
    a
}

/// End of the window once its trailing whitespace is dropped.
pub fn skip_ws_back(s: &Vec<char>, lo: usize, hi: usize) -> (b: usize)
    requires
        lo <= hi <= s@.len(),
    ensures
        lo <= b <= hi,
        win(s@, lo as int, b as int) == trim_end(win(s@, lo as int, hi as int)),
{
    let mut b = hi;
    while b > lo && char_is_ws(s[b - 1])
        invariant
            lo <= b <= hi <= s@.len(),
            trim_end(win(s@, lo as int, b as int)) == trim_end(win(s@, lo as int, hi as int)),
        decreases b - lo,
    {
        assert(win(s@, lo as int, b as int).drop_last() =~= win(s@, lo as int, b - 1));
        b = b - 1;
    }
    b
}

/// The trimmed sub-window of `lo..hi`.
pub fn trim_window(s: &Vec<char>, lo: usize, hi: usize) -> (r: (usize, usize))
    requires
        lo <= hi <= s@.len(),
    ensures
        lo <= r.0 <= r.1 <= hi,
        win(s@, r.0 as int, r.1 as int) == trim(win(s@, lo as int, hi as int)),
{
    let a = skip_ws(s, lo, hi);
    let b = skip_ws_back(s, a, hi);
    (a, b)
}

/// End of the window once its trailing carriage returns are dropped.
pub fn strip_cr_window(s: &Vec<char>, lo: usize, hi: usize) -> (b: usize)
    requires
        lo <= hi <= s@.len(),
    ensures
        lo <= b <= hi,
        win(s@, lo as int, b as int) == strip_cr(win(s@, lo as int, hi as int)),
{
    let mut b = hi;
    while b > lo && s[b - 1] == '\r'
        invariant
            lo <= b <= hi <= s@.len(),
            strip_cr(win(s@, lo as int, b as int)) == strip_cr(win(s@, lo as int, hi as int)),
        decreases b - lo,
    {
        assert(win(s@, lo as int, b as int).drop_last() =~= win(s@, lo as int, b - 1));
        b = b - 1;
    }
    b
}

// ---------------------------------------------------------------------------
// Splitting
// ---------------------------------------------------------------------------

/// The pieces of `s` between occurrences of `sep` (`str::split`): always at
/// least one piece, and one more than the number of separators.
pub open spec fn split_char(s: Seq<char>, sep: char) -> Seq<Seq<char>>
    decreases s.len(),
{
    if s.len() == 0 {
        seq![Seq::<char>::empty()]
    } else {
        let init = split_char(s.drop_last(), sep);
        if s.last() == sep {
            init.push(Seq::<char>::empty())
        } else {
            init.update(init.len() - 1, init.last().push(s.last()))
        }
    }
}

pub proof fn lemma_split_char_nonempty(s: Seq<char>, sep: char)
    ensures
        split_char(s, sep).len() >= 1,
    decreases s.len(),
{
    if s.len() > 0 {
        lemma_split_char_nonempty(s.drop_last(), sep);
    }
}

/// The sequences that a list of windows of `s` denotes.
pub open spec fn windows_view(s: Seq<char>, w: Seq<(usize, usize)>) -> Seq<Seq<char>> {
    Seq::new(w.len(), |k: int| win(s, w[k].0 as int, w[k].1 as int))
}

/// Windows of `lo..hi` that are in bounds and ordered.
pub open spec fn windows_within(w: Seq<(usize, usize)>, lo: int, hi: int) -> bool {
    forall|k: int| 0 <= k < w.len() ==> lo <= #[trigger] w[k].0 <= w[k].1 <= hi
}

/// Cut the window `lo..hi` at every `sep`.
pub fn split_window(s: &Vec<char>, lo: usize, hi: usize, sep: char) -> (r: Vec<(usize, usize)>)
    requires
        lo <= hi <= s@.len(),
    ensures
        windows_within(r@, lo as int, hi as int),
        windows_view(s@, r@) == split_char(win(s@, lo as int, hi as int), sep),
{
    let mut pieces: Vec<(usize, usize)> = Vec::new();
    let mut start = lo;
    let mut i = lo;
    assert(win(s@, lo as int, lo as int) =~= Seq::<char>::empty());
    assert(windows_view(s@, pieces@).push(win(s@, start as int, i as int)) =~= split_char(
        win(s@, lo as int, i as int),
        sep,
    ));
    while i < hi
        invariant
            lo <= start <= i <= hi <= s@.len(),
            windows_within(pieces@, lo as int, hi as int),
            windows_view(s@, pieces@).push(win(s@, start as int, i as int)) == split_char(
                win(s@, lo as int, i as int),
                sep,
            ),
        decreases hi - i,
    {
        let ghost old_view = windows_view(s@, pieces@);
        let ghost prev = split_char(win(s@, lo as int, i as int), sep);
        assert(win(s@, lo as int, i + 1).drop_last() =~= win(s@, lo as int, i as int));
        assert(win(s@, lo as int, i + 1).last() == s@[i as int]);
        if s[i] == sep {
            let ghost old_start = start;
            pieces.push((start, i));
            start = i + 1;
            assert(win(s@, start as int, (i + 1) as int) =~= Seq::<char>::empty());
            assert(windows_view(s@, pieces@) =~= old_view.push(win(s@, old_start as int, i as int)));
        } else {
            assert(win(s@, start as int, i + 1) =~= win(s@, start as int, i as int).push(
                s@[i as int],
            ));
        }
        i = i + 1;
        assert(windows_view(s@, pieces@).push(win(s@, start as int, i as int)) =~= split_char(
            win(s@, lo as int, i as int),
            sep,
        ));
    }
    pieces.push((start, hi));
    assert(windows_view(s@, pieces@) =~= split_char(win(s@, lo as int, hi as int), sep));
    pieces
}

/// Position of the first `c` in `s`, if any.
pub open spec fn first_index_of(s: Seq<char>, c: char) -> Option<int>
    decreases s.len(),
{
    if s.len() == 0 {
        None
    } else if s[0] == c {
        Some(0)
    } else {
        match first_index_of(s.drop_first(), c) {
            Some(i) => Some(i + 1),
            None => None,
        }
    }
}

pub proof fn lemma_first_index_of(s: Seq<char>, c: char)
    ensures
        first_index_of(s, c) matches Some(i) ==> 0 <= i < s.len() && s[i] == c && forall|j: int|
            0 <= j < i ==> s[j] != c,
        first_index_of(s, c) is None ==> forall|j: int| 0 <= j < s.len() ==> s[j] != c,
    decreases s.len(),
{
    if s.len() > 0 {
        lemma_first_index_of(s.drop_first(), c);
        if s[0] != c {
            assert forall|j: int| 1 <= j < s.len() implies s[j] == s.drop_first()[j - 1] by {}
        }
    }
}

/// The first position in `lo..hi` holding `c`, as an absolute index.
pub fn find_char(s: &Vec<char>, lo: usize, hi: usize, c: char) -> (r: Option<usize>)
    requires
        lo <= hi <= s@.len(),
    ensures
        match first_index_of(win(s@, lo as int, hi as int), c) {
            Some(i) => r == Some((lo + i) as usize),
            None => r is None,
        },
        r matches Some(p) ==> lo <= p < hi && s@[p as int] == c,
{
    proof {
        lemma_first_index_of(win(s@, lo as int, hi as int), c);
    }
    let mut i = lo;
    while i < hi
        invariant
            lo <= i <= hi <= s@.len(),
            forall|j: int| lo <= j < i ==> s@[j] != c,
        decreases hi - i,
    {
        if s[i] == c {
            proof {
                let w = win(s@, lo as int, hi as int);
                assert(w[i - lo] == c);
                assert forall|j: int| 0 <= j < i - lo implies w[j] != c by {
                    assert(w[j] == s@[lo + j]);
                }
                lemma_first_index_of(w, c);
                if first_index_of(w, c) is Some {
                    let k = first_index_of(w, c)->0;
                    assert(0 <= k < w.len() && w[k] == c);
                    if k < i - lo {
                        assert(w[k] != c);
                    }
                    if k > i - lo {
                        let m = i - lo;
                        assert(0 <= m < k);
                        assert(w[m] != c);
                    }
                    assert(k == i - lo);
                }
            }
            return Some(i);
        }
        i = i + 1;
    }
    proof {
        let w = win(s@, lo as int, hi as int);
        if first_index_of(w, c) is Some {
            let k = first_index_of(w, c)->0;
            assert(w[k] == s@[lo + k]);
        }
    }
    None
}

// ---------------------------------------------------------------------------
// Conversions
// ---------------------------------------------------------------------------

/// The characters of `s`.
pub fn chars_of(s: &str) -> (r: Vec<char>)
    ensures
        r@ == s@,
{
    broadcast use vstd::string::group_string_axioms;
    let mut r: Vec<char> = Vec::new();
    for c in it: s.chars()
        invariant
            it.seq() == s@,
            r@ == s@.take(it.index() as int),
    {
        r.push(c);
        assert(r@ =~= s@.take(it.index() + 1));
    }
    assert(s@.take(s@.len() as int) =~= s@);
    r
}

/// A `String` holding the window `lo..hi` of `s`.
pub fn string_of(s: &Vec<char>, lo: usize, hi: usize) -> (r: String)
    requires
        lo <= hi <= s@.len(),
    ensures
        r@ == win(s@, lo as int, hi as int),
{
    let mut r = String::new();
    let mut i = lo;
    while i < hi
        invariant
            lo <= i <= hi <= s@.len(),
            r@ == win(s@, lo as int, i as int),
        decreases hi - i,
    {
        r.push(s[i]);
        i = i + 1;
        assert(r@ =~= win(s@, lo as int, i as int));
    }
    r
}

/// Append the characters of `t` to `s`.
pub fn push_all(s: &mut String, t: &str)
    ensures
        final(s)@ == old(s)@ + t@,
{
    broadcast use vstd::string::group_string_axioms;
    let ghost start = s@;
    for c in it: t.chars()
        invariant
            it.seq() == t@,
            s@ == start + t@.take(it.index() as int),
    {
        s.push(c);
        assert(s@ =~= start + t@.take(it.index() + 1));
    }
    assert(t@.take(t@.len() as int) =~= t@);
}

/// Append the window `lo..hi` of `t` to `s`.
pub fn push_window(s: &mut String, t: &Vec<char>, lo: usize, hi: usize)
    requires
        lo <= hi <= t@.len(),
    ensures
        final(s)@ == old(s)@ + win(t@, lo as int, hi as int),
{
    let ghost start = s@;
    let mut i = lo;
    while i < hi
        invariant
            lo <= i <= hi <= t@.len(),
            s@ == start + win(t@, lo as int, i as int),
        decreases hi - i,
    {
        s.push(t[i]);
        i = i + 1;
        assert(s@ =~= start + win(t@, lo as int, i as int));
    }
}

/// Whether the window `lo..hi` of `s` reads exactly `t`.
pub fn window_eq(s: &Vec<char>, lo: usize, hi: usize, t: &Vec<char>) -> (r: bool)
    requires
        lo <= hi <= s@.len(),
    ensures
        r == (win(s@, lo as int, hi as int) == t@),
{
    if hi - lo != t.len() {
        assert(win(s@, lo as int, hi as int).len() != t@.len());
        return false;
    }
    let mut i: usize = 0;
    while i < t.len()
        invariant
            lo <= hi <= s@.len(),
            hi - lo == t@.len(),
            i <= t@.len(),
            forall|j: int| 0 <= j < i ==> s@[lo + j] == t@[j],
        decreases t@.len() - i,
    {
        if s[lo + i] != t[i] {
            assert(win(s@, lo as int, hi as int)[i as int] != t@[i as int]);
            return false;
        }
        i = i + 1;
    }
    assert(win(s@, lo as int, hi as int) =~= t@);
    true
}

/// Whether two strings hold the same characters.
pub fn str_eq(a: &str, b: &str) -> (r: bool)
    ensures
        r == (a@ == b@),
{
    let x = chars_of(a);
    let y = chars_of(b);
    assert(win(x@, 0, x@.len() as int) =~= x@);
    window_eq(&x, 0, x.len(), &y)
}

// ---------------------------------------------------------------------------
// Decimal digits
// ---------------------------------------------------------------------------

pub open spec fn is_digit(c: char) -> bool {
    '0' <= c && c <= '9'
}

pub open spec fn digit_val(c: char) -> nat {
    (c as int - '0' as int) as nat
}

pub open spec fn all_digits(s: Seq<char>) -> bool {
    forall|i: int| 0 <= i < s.len() ==> is_digit(#[trigger] s[i])
}

/// The number that a string of decimal digits denotes.
pub open spec fn digits_value(s: Seq<char>) -> nat
    decreases s.len(),
{
    if s.len() == 0 {
        0
    } else {
        digits_value(s.drop_last()) * 10 + digit_val(s.last())
    }
}

/// A string of one or more ASCII digits whose value is at most `max` parses
/// to that value; any other string does not parse.
pub open spec fn parse_digits(s: Seq<char>, max: nat) -> Option<nat> {
    if s.len() > 0 && all_digits(s) && digits_value(s) <= max {
        Some(digits_value(s))
    } else {
        None
    }
}

pub proof fn lemma_digits_value_prefix(s: Seq<char>, k: int)
    requires
        0 <= k <= s.len(),
    ensures
        digits_value(s.subrange(0, k)) <= digits_value(s),
    decreases s.len() - k,
{
    if k < s.len() {
        lemma_digits_value_prefix(s, k + 1);
        assert(s.subrange(0, k + 1).drop_last() =~= s.subrange(0, k));
    } else {
        assert(s.subrange(0, k) =~= s);
    }
}

/// Parse the window as a decimal number no greater than `max`.
pub fn parse_digits_window(s: &Vec<char>, lo: usize, hi: usize, max: u64) -> (r: Option<u64>)
    requires
        lo <= hi <= s@.len(),
    ensures
        match parse_digits(win(s@, lo as int, hi as int), max as nat) {
            Some(v) => r == Some(v as u64),
            None => r is None,
        },
{
    let ghost w = win(s@, lo as int, hi as int);
    if lo == hi {
        return None;
    }
    let mut acc: u64 = 0;
    let mut i = lo;
    while i < hi
        invariant
            lo <= i <= hi <= s@.len(),
            w == win(s@, lo as int, hi as int),
            all_digits(win(s@, lo as int, i as int)),
            acc as nat == digits_value(win(s@, lo as int, i as int)),
            acc <= max,
        decreases hi - i,
    {
        let c = s[i];
        assert(win(s@, lo as int, i + 1).drop_last() =~= win(s@, lo as int, i as int));
        assert(win(s@, lo as int, i + 1).last() == c);
        if !('0' <= c && c <= '9') {
            assert(w[i - lo] == c);
            return None;
        }
        let d: u64 = (c as u32 - '0' as u32) as u64;
        assert(d as nat == digit_val(c));
        if d > max || acc > (max - d) / 10 {
            proof {
                assert(acc * 10 + d > max) by (nonlinear_arith)
                    requires
                        d > max || acc > (max - d) / 10,
                        d <= 9,
                ;
                assert(w.subrange(0, i + 1 - lo) =~= win(s@, lo as int, i + 1));
                if all_digits(w) {
                    lemma_digits_value_prefix(w, i + 1 - lo);
                }
            }
            return None;
        }
        proof {
            assert(acc * 10 + d <= max) by (nonlinear_arith)
                requires
                    acc <= (max - d) / 10,
                    d <= max,
            ;
        }
        acc = acc * 10 + d;
        i = i + 1;
        assert(all_digits(win(s@, lo as int, i as int))) by {
            assert forall|j: int| 0 <= j < i - lo implies is_digit(win(s@, lo as int, i as int)[j]) by {
                if j < i - 1 - lo {
                    assert(win(s@, lo as int, i as int)[j] == win(s@, lo as int, i - 1)[j]);
                }
            }
        }
    }
    Some(acc)
}

/// The character of a decimal digit.
pub open spec fn digit_char(d: nat) -> char {
    if d == 0 {
        '0'
    } else if d == 1 {
        '1'
    } else if d == 2 {
        '2'
    } else if d == 3 {
        '3'
    } else if d == 4 {
        '4'
    } else if d == 5 {
        '5'
    } else if d == 6 {
        '6'
    } else if d == 7 {
        '7'
    } else if d == 8 {
        '8'
    } else {
        '9'
    }
}

/// The decimal digits of `n`, without leading zeros (`"0"` for zero).
pub open spec fn decimal(n: nat) -> Seq<char>
    decreases n,
{
    if n < 10 {
        seq![digit_char(n)]
    } else {
        decimal(n / 10).push(digit_char(n % 10))
    }
}

fn digit_to_char(d: u64) -> (c: char)
    requires
        d < 10,
    ensures
        c == digit_char(d as nat),
{
    if d == 0 {
        '0'
    } else if d == 1 {
        '1'
    } else if d == 2 {
        '2'
    } else if d == 3 {
        '3'
    } else if d == 4 {
        '4'
    } else if d == 5 {
        '5'
    } else if d == 6 {
        '6'
    } else if d == 7 {
        '7'
    } else if d == 8 {
        '8'
    } else {
        '9'
    }
}

/// Append the decimal digits of `n` to `s`.
pub fn push_decimal(s: &mut String, n: u64)
    ensures
        final(s)@ == old(s)@ + decimal(n as nat),
    decreases n,
{
    if n >= 10 {
        push_decimal(s, n / 10);
    }
    let c = digit_to_char(n % 10);
    s.push(c);
    proof {
        if n < 10 {
            assert(n % 10 == n);
        }
    }
    assert(s@ =~= old(s)@ + decimal(n as nat));
}

} // verus!
