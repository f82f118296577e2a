use sqwipt::lex::{Lex, Span, Token};

/// The span of the whole of `s`.
fn whole(s: &str) -> Span {
    Span { start: 0, end: s.len() }
}

fn check_lex(s: &str, tok: Token) {
    let mut lex = Lex::new(s);
    assert_eq!(lex.peek(), &tok);
    lex.advance();
    assert!(matches!(lex.peek(), Token::Eof(_)));
}

#[test]
fn lex_test_lex() {
    check_lex("1", Token::Int(whole("1")));
    check_lex("1.0", Token::Float(whole("1.0")));
    check_lex("0x12abcd", Token::Hex(whole("0x12abcd")));
    check_lex("\"xyz\"", Token::Str(whole("\"xyz\"")));
    check_lex("'xyz'", Token::Str(whole("'xyz'")));
    check_lex(r#"'xyz\''"#, Token::Str(whole(r#"'xyz\''"#)));
    check_lex("\"xyz", Token::UnterminatedString(whole("\"xyz")));
}
