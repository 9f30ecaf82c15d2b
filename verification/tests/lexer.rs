use structdiff::lexer::{lex, LexError, Token};

#[test]
fn tokens_of_a_small_declaration() {
    let bytes = b"struct A { x: T }".to_vec();
    let toks = lex(&bytes).unwrap();
    assert_eq!(
        toks,
        vec![
            Token::Ident(b"struct".to_vec()),
            Token::Ident(b"A".to_vec()),
            Token::LBrace,
            Token::Ident(b"x".to_vec()),
            Token::Colon,
            Token::Ident(b"T".to_vec()),
            Token::RBrace,
        ]
    );
}

#[test]
fn punctuation_needs_no_whitespace() {
    let bytes = b"V3?{-a,b:C<D>}".to_vec();
    let toks = lex(&bytes).unwrap();
    assert_eq!(
        toks,
        vec![
            Token::Ident(b"V3".to_vec()),
            Token::Question,
            Token::LBrace,
            Token::Minus,
            Token::Ident(b"a".to_vec()),
            Token::Comma,
            Token::Ident(b"b".to_vec()),
            Token::Colon,
            Token::Ident(b"C".to_vec()),
            Token::Lt,
            Token::Ident(b"D".to_vec()),
            Token::Gt,
            Token::RBrace,
        ]
    );
}

#[test]
fn first_bad_byte_is_reported() {
    let bytes = b"ab #".to_vec();
    assert_eq!(lex(&bytes).unwrap_err(), LexError { pos: 3 });
}
