use goreutils::compile::{name_of, Compile, CompileError};
use goreutils::list::StaticList;
use goreutils::rng::{seed_of_millis, XorShift64, CLOCK_FALLBACK};
use goreutils::token::Tokenize;
use goreutils::types::{NativeFnIndex, Piece, Token, TokenError, TokenKind, Value};

#[test]
fn a_value_is_shown_in_pieces() {
    assert_eq!(Value::Nothing.pieces(), vec![Piece::Text("none")]);
    assert_eq!(Value::Int(-3).pieces(), vec![Piece::Int(-3)]);
    assert_eq!(Value::Flt(7).pieces(), vec![Piece::Flt(7)]);
    assert_eq!(Value::Fn(0).pieces(), vec![Piece::Text("<function>")]);
    assert_eq!(
        Value::NativeFn(NativeFnIndex(0)).pieces(),
        vec![Piece::Text("<native function>")]
    );
    assert_eq!(Value::List(vec![]).pieces(), vec![Piece::Text("[ "), Piece::Text("]")]);
    assert_eq!(
        Value::List(vec![Value::Int(1), Value::List(vec![Value::Nothing]), Value::Flt(2)])
            .pieces(),
        vec![
            Piece::Text("[ "),
            Piece::Int(1),
            Piece::Text(" "),
            Piece::Text("[ "),
            Piece::Text("none"),
            Piece::Text(" "),
            Piece::Text("]"),
            Piece::Text(" "),
            Piece::Flt(2),
            Piece::Text(" "),
            Piece::Text("]"),
        ]
    );
    let mut out = vec![Piece::Int(0)];
    Value::Int(1).render(&mut out);
    assert_eq!(out, vec![Piece::Int(0), Piece::Int(1)]);
}

fn error_text(src: &str) -> String {
    let tokens: Vec<Token<'_>> = Tokenize::new(src).collect();
    let seen: Vec<Token<'_>> = Tokenize::new(src).collect();
    Compile::new(tokens, vec![], &[]).parse().unwrap_err().message(&seen)
}

#[test]
fn each_error_has_its_text() {
    assert_eq!(error_text("{ let 1 }"), "missing var name");
    assert_eq!(error_text("{ 1 abc }"), "unknown variable abc");
    assert_eq!(error_text("if 1 2"), "missing 'else' branch");
    assert_eq!(error_text("-"), "number parse error");
    assert_eq!(
        error_text("{ 1 ) }"),
        "unexpected token: Some(Token { kind: RParen, data: \")\" })"
    );
    assert_eq!(error_text(""), "unexpected token: None");
    assert_eq!(error_text("("), "unexpected token: None");
    assert_eq!(error_text("if 1"), "unexpected token: None");
    assert_eq!(error_text("{ 1"), "missing block delimiter");
    assert_eq!(error_text("if 1 {} else {}"), "empty branch");
    assert_eq!(CompileError::UnknownVariable(5).message(&[]), "unknown variable ");
    assert_eq!(CompileError::UnexpectedToken(0).message(&[]), "unexpected token: None");
    assert_eq!(CompileError::UnexpectedEnd.message(&[]), "unexpected token: None");
}

#[test]
fn a_static_list_is_searched_front_to_back() {
    let list = StaticList::new([(1, "a"), (2, "b"), (2, "c"), (3, "d")]);
    assert_eq!(list.search(|k| *k == 2), Some(&"b"));
    assert_eq!(list.search(|k| *k > 2), Some(&"d"));
    assert_eq!(list.search(|k| *k > 3), None);
    let empty: StaticList<u8, u8, 0> = StaticList::new([]);
    assert_eq!(empty.search(|_| true), None);
}

#[test]
fn a_static_list_changes_only_the_value_found() {
    let mut list = StaticList::new([(1, 10), (2, 20), (2, 30)]);
    *list.search_mut(|k| *k == 2).unwrap() = 25;
    assert_eq!(list.search(|k| *k == 1), Some(&10));
    assert_eq!(list.search(|k| *k == 2), Some(&25));
    assert!(list.search_mut(|k| *k == 9).is_none());
    let mut seen = vec![];
    for key in [1, 2] {
        seen.push(*list.search(|k| *k == key).unwrap());
    }
    assert_eq!(seen, vec![10, 25]);
}

#[test]
fn the_generator_steps_by_three_shifts() {
    let mut rng = XorShift64::new(1);
    assert_eq!(rng.next(), 1082269761);
    assert_eq!(rng.next(), 1152992998833853505);
    let mut zero = XorShift64::new(0);
    assert_eq!(zero.next(), 0);
    let mut a = XorShift64::new(0x1234_5678_9abc_def0);
    let mut x: u64 = 0x1234_5678_9abc_def0;
    for _ in 0..100 {
        x ^= x << 13;
        x ^= x >> 7;
        x ^= x << 17;
        assert_eq!(a.next(), x);
    }
}

#[test]
fn a_time_becomes_a_seed_by_wrapping_powers() {
    for ms in [0u128, 1, 2, 3, 1_700_000_000_000, CLOCK_FALLBACK, u128::MAX] {
        assert_eq!(seed_of_millis(ms), ms.wrapping_pow(7).wrapping_pow(5) as u64);
    }
    assert_eq!(seed_of_millis(2), 1 << 35);
    let mut a = XorShift64::at_time(Some(3));
    let mut b = XorShift64::new(3u128.pow(35) as u64);
    assert_eq!(a.next(), b.next());
    let mut c = XorShift64::at_time(None);
    let mut d = XorShift64::new(seed_of_millis(0x6969696969696969));
    assert_eq!(c.next(), d.next());
}

#[test]
fn seeding_from_outside_gives_a_generator_that_steps_as_any_other() {
    let mut t = XorShift64::new_time();
    let first = t.next();
    let mut x = first;
    x ^= x << 13;
    x ^= x >> 7;
    x ^= x << 17;
    assert_eq!(t.next(), x);
    if let Some(mut e) = XorShift64::new_entropy() {
        let first = e.next();
        let mut x = first;
        x ^= x << 13;
        x ^= x >> 7;
        x ^= x << 17;
        assert_eq!(e.next(), x);
    }
}

#[test]
fn what_the_source_of_randomness_gave_is_the_seed() {
    assert!(XorShift64::from_entropy(None).is_none());
    let mut a = XorShift64::from_entropy(Some(1)).unwrap();
    assert_eq!(a.next(), 1082269761);
    let mut b = XorShift64::from_entropy(Some(u64::MAX)).unwrap();
    let mut c = XorShift64::new(u64::MAX);
    assert_eq!(b.next(), c.next());
}

#[test]
fn a_seed_from_the_clock_is_odd_or_a_multiple_of_two_to_the_35() {
    for ms in [0u128, 1, 2, 6, 1_700_000_000_001, 1_700_000_000_002, CLOCK_FALLBACK] {
        let s = seed_of_millis(ms);
        assert!(s % 2 == 1 || s % (1 << 35) == 0);
    }
}

#[test]
fn an_unexpected_token_is_shown_by_kind_and_quoted_text() {
    assert_eq!(
        error_text("(set)"),
        "unexpected token: Some(Token { kind: Set, data: \"set\" })"
    );
    assert_eq!(error_text("loop"), "unexpected token: Some(Token { kind: Loop, data: \"loop\" })");
    assert_eq!(error_text("}"), "unexpected token: Some(Token { kind: RBrace, data: \"}\" })");
    assert_eq!(
        error_text("{ else }"),
        "unexpected token: Some(Token { kind: Else, data: \"else\" })"
    );
    assert_eq!(
        error_text("#"),
        "unexpected token: Some(Token { kind: Error(UnknownChar), data: \"#\" })"
    );
    assert_eq!(
        error_text("\""),
        "unexpected token: Some(Token { kind: Error(UnknownChar), data: \"\\\"\" })"
    );
    assert_eq!(
        error_text("\\"),
        "unexpected token: Some(Token { kind: Error(UnknownChar), data: \"\\\\\" })"
    );
    let kinds = [
        (TokenKind::Eof, "Eof"),
        (TokenKind::Error(TokenError::UnknownChar), "Error(UnknownChar)"),
        (TokenKind::Whitespace, "Whitespace"),
        (TokenKind::LParen, "LParen"),
        (TokenKind::RParen, "RParen"),
        (TokenKind::LBrace, "LBrace"),
        (TokenKind::RBrace, "RBrace"),
        (TokenKind::Let, "Let"),
        (TokenKind::Assign, "Set"),
        (TokenKind::If, "If"),
        (TokenKind::Else, "Else"),
        (TokenKind::Loop, "Loop"),
        (TokenKind::Break, "Break"),
        (TokenKind::Continue, "Continue"),
        (TokenKind::Nothing, "None"),
        (TokenKind::Int, "Int"),
        (TokenKind::Flt, "Flt"),
        (TokenKind::Ident, "Ident"),
    ];
    for (kind, name) in kinds {
        assert_eq!(name_of(kind), name);
        let shown = CompileError::UnexpectedToken(0).message(&[Token::new(kind, "x")]);
        assert_eq!(shown, format!("unexpected token: Some(Token {{ kind: {}, data: \"x\" }})", name));
    }
}

#[test]
fn an_integer_literal_is_a_sign_and_decimal_digits_that_fit() {
    let bytes = |src: &'static str| {
        let tokens: Vec<Token<'_>> = Tokenize::new(src).collect();
        Compile::new(tokens, vec![], &[]).parse()
    };
    assert_eq!(bytes("-1"), Ok(vec![0x10, 255, 255, 255, 255]));
    assert_eq!(bytes("-0"), Ok(vec![0x10, 0, 0, 0, 0]));
    assert_eq!(bytes("007"), Ok(vec![0x10, 0, 0, 0, 7]));
    assert_eq!(bytes("0000000000000000000012"), Ok(vec![0x10, 0, 0, 0, 12]));
    assert_eq!(bytes("2147483647"), Ok(vec![0x10, 127, 255, 255, 255]));
    assert_eq!(bytes("2147483648"), Err(CompileError::NumberParse));
    assert_eq!(bytes("-2147483648"), Ok(vec![0x10, 128, 0, 0, 0]));
    assert_eq!(bytes("-2147483649"), Err(CompileError::NumberParse));
    assert_eq!(bytes("-"), Err(CompileError::NumberParse));
    assert_eq!(bytes("\u{661}\u{662}"), Err(CompileError::NumberParse));
    assert_eq!(bytes("1\u{662}"), Err(CompileError::NumberParse));
}
