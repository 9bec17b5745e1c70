use xforme::expr::{tokenize, ExprError, Token};

fn num(s: &str) -> Token {
    Token::Number(s.to_string())
}

fn ident(s: &str) -> Token {
    Token::Ident(s.to_string())
}

#[test]
fn tokenizes_arithmetic() {
    assert_eq!(
        tokenize("2 + 3 * 4").unwrap(),
        vec![num("2"), Token::Plus, num("3"), Token::Star, num("4")]
    );
    assert_eq!(
        tokenize("(qty*price)/-1.5").unwrap(),
        vec![
            Token::LParen,
            ident("qty"),
            Token::Star,
            ident("price"),
            Token::RParen,
            Token::Slash,
            Token::Minus,
            num("1.5"),
        ]
    );
    assert_eq!(
        tokenize("subtotal + subtotal\t* taxrate").unwrap(),
        vec![ident("subtotal"), Token::Plus, ident("subtotal"), Token::Star, ident("taxrate")]
    );
}

#[test]
fn numerals_and_identifiers() {
    assert_eq!(tokenize(".0525").unwrap(), vec![num(".0525")]);
    assert_eq!(tokenize("53.").unwrap(), vec![num("53.")]);
    assert_eq!(tokenize("_x1 y_2").unwrap(), vec![ident("_x1"), ident("y_2")]);
    assert_eq!(tokenize("2x").unwrap(), vec![num("2"), ident("x")]);
    assert_eq!(tokenize("été").unwrap(), vec![ident("été")]);
    assert_eq!(tokenize("").unwrap(), vec![]);
    assert_eq!(tokenize("   ").unwrap(), vec![]);
}

#[test]
fn tokenize_errors() {
    assert_eq!(tokenize("1.2.3"), Err(ExprError::NotANumber("1.2.3".to_string())));
    assert_eq!(tokenize("a + ."), Err(ExprError::NotANumber(".".to_string())));
    assert_eq!(tokenize("a % b"), Err(ExprError::Unexpected("%".to_string())));
    assert_eq!(tokenize("1\n"), Err(ExprError::Unexpected("\n".to_string())));
}

#[test]
fn expr_error_messages() {
    assert_eq!(ExprError::Unexpected("%".into()).message(), "unexpected token near `%`");
    assert_eq!(ExprError::UnknownIdent("x".into()).message(), "unknown identifier `x`");
    assert_eq!(ExprError::NotANumber("name".into()).message(), "`name` is not a number");
    assert_eq!(ExprError::Empty.message(), "empty expression");
}
