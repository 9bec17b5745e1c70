//! The lexical layer of the template expression language: `+ - * /`,
//! parentheses, numerals and identifiers, as in `qty * price` or
//! `subtotal + subtotal * taxrate`.
//!
//! A numeral is kept as its text; it is a number in the grammar of Rust's
//! floating-point literals (digits with at most one `.`), and what it denotes
//! is left to whoever evaluates the tokens.

use vstd::prelude::*;
use crate::text::{chars_of, push_all};

verus! {

/// Whether `char::is_alphabetic` holds of `c`: the Unicode `Alphabetic`
/// property.
pub uninterp spec fn char_alphabetic(c: char) -> bool;

/// `char::is_alphabetic`. Its result is named, not restated: it follows
/// Unicode tables that take pages to write down.
#[verifier::external_body]
fn is_alphabetic(c: char) -> (r: bool)
    ensures
        r == char_alphabetic(c),
{
    c.is_alphabetic()
}

/// Why an expression was rejected.
#[derive(Debug, PartialEq)]
pub enum ExprError {
    /// A character or token that has no place where it stands.
    Unexpected(String),
    /// An identifier that names nothing.
    UnknownIdent(String),
    /// A numeral that is not a number, or a name whose value is not one.
    NotANumber(String),
    /// Nothing to evaluate.
    Empty,
}

/// An error, as plain values.
pub enum ExprErrorView {
    Unexpected(Seq<char>),
    UnknownIdent(Seq<char>),
    NotANumber(Seq<char>),
    Empty,
}

impl View for ExprError {
    type V = ExprErrorView;

    open spec fn view(&self) -> ExprErrorView {
        match self {
            ExprError::Unexpected(s) => ExprErrorView::Unexpected(s@),
            ExprError::UnknownIdent(s) => ExprErrorView::UnknownIdent(s@),
            ExprError::NotANumber(s) => ExprErrorView::NotANumber(s@),
            ExprError::Empty => ExprErrorView::Empty,
        }
    }
}

/// The text of each error.
pub open spec fn spec_expr_message(e: ExprErrorView) -> Seq<char> {
    match e {
        ExprErrorView::Unexpected(s) => "unexpected token near `"@ + s + "`"@,
        ExprErrorView::UnknownIdent(s) => "unknown identifier `"@ + s + "`"@,
        ExprErrorView::NotANumber(s) => "`"@ + s + "` is not a number"@,
        ExprErrorView::Empty => "empty expression"@,
    }
}

impl ExprError {
    /// The error's message.
    pub fn message(&self) -> (r: String)
        ensures
            r@ == spec_expr_message(self@),
    {
        let mut r = String::new();
        match self {
            ExprError::Unexpected(s) => {
                push_all(&mut r, "unexpected token near `");
                push_all(&mut r, s.as_str());
                push_all(&mut r, "`");
            },
            ExprError::UnknownIdent(s) => {
                push_all(&mut r, "unknown identifier `");
                push_all(&mut r, s.as_str());
                push_all(&mut r, "`");
            },
            ExprError::NotANumber(s) => {
                push_all(&mut r, "`");
                push_all(&mut r, s.as_str());
                push_all(&mut r, "` is not a number");
            },
            ExprError::Empty => push_all(&mut r, "empty expression"),
        }
        assert(r@ =~= spec_expr_message(self@));
        r
    }
}

/// A token of an expression; a numeral keeps its text.
#[derive(Debug, PartialEq)]
pub enum Token {
    Number(String),
    Ident(String),
    Plus,
    Minus,
    Star,
    Slash,
    LParen,
    RParen,
}

/// A token, as plain values.
pub enum TokenView {
    Number(Seq<char>),
    Ident(Seq<char>),
    Plus,
    Minus,
    Star,
    Slash,
    LParen,
    RParen,
}

impl View for Token {
    type V = TokenView;

    open spec fn view(&self) -> TokenView {
        match self {
            Token::Number(s) => TokenView::Number(s@),
            Token::Ident(s) => TokenView::Ident(s@),
            Token::Plus => TokenView::Plus,
            Token::Minus => TokenView::Minus,
            Token::Star => TokenView::Star,
            Token::Slash => TokenView::Slash,
            Token::LParen => TokenView::LParen,
            Token::RParen => TokenView::RParen,
        }
    }
}

pub open spec fn tokens_view(v: Seq<Token>) -> Seq<TokenView> {
    v.map_values(|t: Token| t@)
}

pub open spec fn is_digit(c: char) -> bool {
    '0' <= c && c <= '9'
}

/// A character of a numeral.
pub open spec fn numeral_char(c: char) -> bool {
    is_digit(c) || c == '.'
}

/// A character that may start an identifier.
pub open spec fn ident_start(c: char) -> bool {
    char_alphabetic(c) || c == '_'
}

/// A character that may continue an identifier.
pub open spec fn ident_char(c: char) -> bool {
    crate::text::char_alphanumeric(c) || c == '_'
}

/// The end of the run of characters satisfying `p` that starts at `i`.
pub open spec fn run_end(s: Seq<char>, i: int, p: spec_fn(char) -> bool) -> int
    decreases s.len() - i,
{
    if 0 <= i < s.len() && p(s[i]) {
        run_end(s, i + 1, p)
    } else {
        i
    }
}

pub proof fn lemma_run_end(s: Seq<char>, i: int, p: spec_fn(char) -> bool)
    requires
        0 <= i <= s.len(),
    ensures
        i <= run_end(s, i, p) <= s.len(),
        forall|k: int| i <= k < run_end(s, i, p) ==> p(#[trigger] s[k]),
        run_end(s, i, p) < s.len() ==> !p(s[run_end(s, i, p)]),
    decreases s.len() - i,
{
    if i < s.len() && p(s[i]) {
        lemma_run_end(s, i + 1, p);
    }
}

/// The number of `.` in a numeral.
pub open spec fn dots(s: Seq<char>) -> nat
    decreases s.len(),
{
    if s.len() == 0 {
        0
    } else {
        dots(s.drop_last()) + if s.last() == '.' {
            1nat
        } else {
            0nat
        }
    }
}

/// A run of digits and dots is a floating-point number when it has a digit
/// and at most one dot (`1`, `1.`, `.5`, `1.5`; not `.` or `1.2.3`).
pub open spec fn numeral_ok(s: Seq<char>) -> bool {
    dots(s) <= 1 && dots(s) < s.len()
}

/// The tokens of `s` from position `i` on, or the error at the first
/// character that fits no token.
pub open spec fn spec_tokens_from(s: Seq<char>, i: int) -> Result<Seq<TokenView>, ExprErrorView>
    decreases s.len() - i, 0int,
{
    if i < 0 || i >= s.len() {
        Ok(Seq::empty())
    } else {
        let c = s[i];
        if c == ' ' || c == '\t' {
            spec_tokens_from(s, i + 1)
        } else if c == '+' || c == '-' || c == '*' || c == '/' || c == '(' || c == ')' {
            let t = if c == '+' {
                TokenView::Plus
            } else if c == '-' {
                TokenView::Minus
            } else if c == '*' {
                TokenView::Star
            } else if c == '/' {
                TokenView::Slash
            } else if c == '(' {
                TokenView::LParen
            } else {
                TokenView::RParen
            };
            prepend(t, spec_tokens_from(s, i + 1))
        } else if numeral_char(c) {
            let e = run_end(s, i, |x: char| numeral_char(x));
            proof {
                lemma_run_end(s, i, |x: char| numeral_char(x));
            }
            let text = s.subrange(i, e);
            if numeral_ok(text) {
                prepend(TokenView::Number(text), spec_tokens_from(s, e))
            } else {
                Err(ExprErrorView::NotANumber(text))
            }
        } else if ident_start(c) {
            let e = run_end(s, i + 1, |x: char| ident_char(x));
            proof {
                lemma_run_end(s, i + 1, |x: char| ident_char(x));
            }
            prepend(TokenView::Ident(s.subrange(i, e)), spec_tokens_from(s, e))
        } else {
            Err(ExprErrorView::Unexpected(seq![c]))
        }
    }
}

/// A token in front of a token list, or the list's error.
pub open spec fn prepend(t: TokenView, rest: Result<Seq<TokenView>, ExprErrorView>) -> Result<
    Seq<TokenView>,
    ExprErrorView,
> {
    match rest {
        Ok(ts) => Ok(seq![t] + ts),
        Err(e) => Err(e),
    }
}

/// The tokens of an expression.
pub open spec fn spec_tokenize(input: Seq<char>) -> Result<Seq<TokenView>, ExprErrorView> {
    spec_tokens_from(input, 0)
}

/// Tokens already read in front of what the rest of the input gives.
pub open spec fn prepend_all(ts: Seq<TokenView>, rest: Result<Seq<TokenView>, ExprErrorView>) -> Result<
    Seq<TokenView>,
    ExprErrorView,
> {
    match rest {
        Ok(r) => Ok(ts + r),
        Err(e) => Err(e),
    }
}

/// The text of the characters `lo..hi`.
fn text_of(s: &Vec<char>, lo: usize, hi: usize) -> (r: String)
    requires
        lo <= hi <= s@.len(),
    ensures
        r@ == s@.subrange(lo as int, hi as int),
{
    let r = crate::text::string_of(s, lo, hi);
    assert(crate::text::win(s@, lo as int, hi as int) =~= s@.subrange(lo as int, hi as int));
    r
}

/// Split an expression into tokens; blanks and tabs separate them.
pub fn tokenize(input: &str) -> (r: Result<Vec<Token>, ExprError>)
    ensures
        match spec_tokenize(input@) {
            Ok(ts) => r matches Ok(v) && tokens_view(v@) == ts,
            Err(e) => r matches Err(x) && x@ == e,
        },
{
    let chars = chars_of(input);
    let mut tokens: Vec<Token> = Vec::new();
    let mut i: usize = 0;
    assert(tokens_view(tokens@) =~= Seq::<TokenView>::empty());
    while i < chars.len()
        invariant
            i <= chars@.len(),
            chars@ == input@,
            spec_tokenize(input@) == prepend_all(tokens_view(tokens@), spec_tokens_from(chars@, i as int)),
        decreases chars@.len() - i,
    {
        let c = chars[i];
        let ghost before = tokens_view(tokens@);
        let ghost rest = spec_tokens_from(chars@, i as int);
        if c == ' ' || c == '\t' {
            i = i + 1;
        } else if c == '+' || c == '-' || c == '*' || c == '/' || c == '(' || c == ')' {
            let t = if c == '+' {
                Token::Plus
            } else if c == '-' {
                Token::Minus
            } else if c == '*' {
                Token::Star
            } else if c == '/' {
                Token::Slash
            } else if c == '(' {
                Token::LParen
            } else {
                Token::RParen
            };
            tokens.push(t);
            assert(tokens_view(tokens@) =~= before.push(t@));
            proof {
                match spec_tokens_from(chars@, i + 1) {
                    Ok(r) => assert(before + (seq![t@] + r) =~= before.push(t@) + r),
                    Err(_) => {},
                }
            }
            i = i + 1;
        } else if ('0' <= c && c <= '9') || c == '.' {
            let start = i;
            let ghost p = |x: char| numeral_char(x);
            proof {
                lemma_run_end(chars@, i as int, p);
            }
            let mut n_dots: usize = 0;
            while i < chars.len() && (('0' <= chars[i] && chars[i] <= '9') || chars[i] == '.')
                invariant
                    start <= i <= chars@.len(),
                    p == (|x: char| numeral_char(x)),
                    run_end(chars@, start as int, p) == run_end(chars@, i as int, p),
                    n_dots == dots(chars@.subrange(start as int, i as int)),
                    n_dots <= i - start,
                decreases chars@.len() - i,
            {
                assert(chars@.subrange(start as int, i + 1).drop_last() =~= chars@.subrange(
                    start as int,
                    i as int,
                ));
                if chars[i] == '.' {
                    n_dots = n_dots + 1;
                }
                i = i + 1;
            }
            let text = text_of(&chars, start, i);
            if n_dots > 1 || n_dots == i - start {
                return Err(ExprError::NotANumber(text));
            }
            let t = Token::Number(text);
            let ghost tv = t@;
            tokens.push(t);
            assert(tokens_view(tokens@) =~= before.push(tv));
            proof {
                match spec_tokens_from(chars@, i as int) {
                    Ok(r) => assert(before + (seq![tv] + r) =~= before.push(tv) + r),
                    Err(_) => {},
                }
            }
        } else if is_alphabetic(c) || c == '_' {
            let start = i;
            let ghost p = |x: char| ident_char(x);
            i = i + 1;
            proof {
                lemma_run_end(chars@, i as int, p);
            }
            while i < chars.len() && (crate::text::is_alphanumeric(chars[i]) || chars[i] == '_')
                invariant
                    start < i <= chars@.len(),
                    p == (|x: char| ident_char(x)),
                    run_end(chars@, start + 1, p) == run_end(chars@, i as int, p),
                decreases chars@.len() - i,
            {
                i = i + 1;
            }
            let t = Token::Ident(text_of(&chars, start, i));
            let ghost tv = t@;
            tokens.push(t);
            assert(tokens_view(tokens@) =~= before.push(tv));
            proof {
                match spec_tokens_from(chars@, i as int) {
                    Ok(r) => assert(before + (seq![tv] + r) =~= before.push(tv) + r),
                    Err(_) => {},
                }
            }
        } else {
            let mut s = String::new();
            s.push(c);
            assert(s@ =~= seq![c]);
            return Err(ExprError::Unexpected(s));
        }
    }
    assert(tokens_view(tokens@) + Seq::<TokenView>::empty() =~= tokens_view(tokens@));
    Ok(tokens)
}

} // verus!
