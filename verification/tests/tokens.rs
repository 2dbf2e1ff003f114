use goreutils::token::Tokenize;
use goreutils::types::{Token, TokenError, TokenKind};

fn lex(src: &str) -> Vec<Token<'_>> {
    Tokenize::new(src).collect()
}

#[test]
fn token_test_tokens() {
    let src = "(0 0.0 test) (0)";
    let vec = Tokenize::new(src).collect();
    assert_eq!(
        &vec,
        &[
            Token::new(TokenKind::LParen, "("),
            Token::new(TokenKind::Int, "0"),
            Token::new(TokenKind::Flt, "0.0"),
            Token::new(TokenKind::Ident, "test"),
            Token::new(TokenKind::RParen, ")"),
            Token::new(TokenKind::LParen, "("),
            Token::new(TokenKind::Int, "0"),
            Token::new(TokenKind::RParen, ")"),
        ],
    );
}

#[test]
fn kibt_test_tokens() {
    let src = "(0 0.0 test) (0)";
    let vec = Tokenize::new(src).collect();
    assert_eq!(
        &vec,
        &[
            Token::new(TokenKind::LParen, "("),
            Token::new(TokenKind::Int, "0"),
            Token::new(TokenKind::Flt, "0.0"),
            Token::new(TokenKind::Ident, "test"),
            Token::new(TokenKind::RParen, ")"),
            Token::new(TokenKind::LParen, "("),
            Token::new(TokenKind::Int, "0"),
            Token::new(TokenKind::RParen, ")"),
        ],
    );
}

#[test]
fn keywords_are_told_from_identifiers() {
    assert_eq!(
        lex("let set if else loop break continue none lets _x a_1"),
        vec![
            Token::new(TokenKind::Let, "let"),
            Token::new(TokenKind::Assign, "set"),
            Token::new(TokenKind::If, "if"),
            Token::new(TokenKind::Else, "else"),
            Token::new(TokenKind::Loop, "loop"),
            Token::new(TokenKind::Break, "break"),
            Token::new(TokenKind::Continue, "continue"),
            Token::new(TokenKind::Nothing, "none"),
            Token::new(TokenKind::Ident, "lets"),
            Token::new(TokenKind::Error(TokenError::UnknownChar), "_"),
            Token::new(TokenKind::Ident, "x"),
            Token::new(TokenKind::Ident, "a_1"),
        ]
    );
}

#[test]
fn braces_and_parens_stand_alone() {
    assert_eq!(
        lex("{}()"),
        vec![
            Token::new(TokenKind::LBrace, "{"),
            Token::new(TokenKind::RBrace, "}"),
            Token::new(TokenKind::LParen, "("),
            Token::new(TokenKind::RParen, ")"),
        ]
    );
}

#[test]
fn a_lone_minus_starts_a_number() {
    assert_eq!(lex("-"), vec![Token::new(TokenKind::Int, "-")]);
    assert_eq!(lex("-12"), vec![Token::new(TokenKind::Int, "-12")]);
    assert_eq!(lex("-1.5"), vec![Token::new(TokenKind::Flt, "-1.5")]);
    assert_eq!(lex("-."), vec![Token::new(TokenKind::Flt, "-.")]);
    assert_eq!(
        lex("1.2.3"),
        vec![
            Token::new(TokenKind::Flt, "1.2"),
            Token::new(TokenKind::Error(TokenError::UnknownChar), "."),
            Token::new(TokenKind::Int, "3"),
        ]
    );
}

#[test]
fn an_unknown_character_is_an_error_token_and_lexing_goes_on() {
    assert_eq!(
        lex("a # b"),
        vec![
            Token::new(TokenKind::Ident, "a"),
            Token::new(TokenKind::Error(TokenError::UnknownChar), "#"),
            Token::new(TokenKind::Ident, "b"),
        ]
    );
}

#[test]
fn whitespace_is_one_token_for_advance_and_none_for_next() {
    let mut t = Tokenize::new("  \t\n x");
    assert_eq!(t.advance(), Token::new(TokenKind::Whitespace, "  \t\n "));
    assert_eq!(t.advance(), Token::new(TokenKind::Ident, "x"));
    assert_eq!(t.advance(), Token::new(TokenKind::Eof, ""));
    assert_eq!(t.advance(), Token::new(TokenKind::Eof, ""));
    assert!(t.at_end());

    let mut t = Tokenize::new("  x  ");
    assert_eq!(t.next(), Some(Token::new(TokenKind::Ident, "x")));
    assert_eq!(t.next(), None);
    assert_eq!(t.next(), None);
}

#[test]
fn text_beyond_ascii_is_counted_in_characters() {
    assert_eq!(
        lex("é١ (\u{3000}ü)"),
        vec![
            Token::new(TokenKind::Ident, "é١"),
            Token::new(TokenKind::LParen, "("),
            Token::new(TokenKind::Ident, "ü"),
            Token::new(TokenKind::RParen, ")"),
        ]
    );
}

#[test]
fn empty_text_has_no_tokens() {
    assert_eq!(lex(""), vec![]);
    assert_eq!(lex("   "), vec![]);
}

#[test]
fn token_getters_give_back_what_was_put_in() {
    let t = Token::new(TokenKind::Ident, "abc");
    assert_eq!(t.kind(), TokenKind::Ident);
    assert_eq!(t.src(), "abc");
}
