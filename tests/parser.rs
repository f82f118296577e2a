use sqwipt::ast::{parse_expr, parse_programme, Expr, FormalArg, Parse, Programme};
use sqwipt::lex::{Lex, Span, Token};

fn text(src: &str, s: Span) -> String {
    format!("{:?}", &src[s.start..s.end])
}

fn show_token(src: &str, t: &Token) -> String {
    let (name, s) = match *t {
        Token::Punct(s) => ("Punct", s),
        Token::Int(s) => ("Int", s),
        Token::Float(s) => ("Float", s),
        Token::Hex(s) => ("Hex", s),
        Token::Keyword(s) => ("Keyword", s),
        Token::Ident(s) => ("Ident", s),
        Token::Str(s) => ("Str", s),
        Token::Newline(s) => ("Newline", s),
        Token::Begin(s) => ("Begin", s),
        Token::End(s) => ("End", s),
        Token::Eof(s) => ("Eof", s),
        Token::UnknownToken(s) => ("UnknownToken", s),
        Token::UnterminatedString(s) => ("UnterminatedString", s),
    };
    format!("{}({})", name, text(src, s))
}

fn show_sep(src: &str, sep: &Option<Span>) -> String {
    match sep {
        Some(s) => format!("Some({})", text(src, *s)),
        None => "None".to_string(),
    }
}

fn show_list(src: &str, items: &[(Expr, Option<Span>)]) -> String {
    let parts: Vec<String> = items
        .iter()
        .map(|(e, sep)| format!("({}, {})", show(src, e), show_sep(src, sep)))
        .collect();
    format!("[{}]", parts.join(", "))
}

fn show_arg(src: &str, a: &FormalArg) -> String {
    match a {
        FormalArg::Name(s) => format!("Name({})", text(src, *s)),
        FormalArg::NameWithDefault(n, eq, e) => {
            format!("NameWithDefault({}, {}, {})", text(src, *n), text(src, *eq), show(src, e))
        }
        FormalArg::Bad(s) => format!("Bad({})", text(src, *s)),
    }
}

fn show(src: &str, e: &Expr) -> String {
    match e {
        Expr::Ident(s) => format!("Ident({})", text(src, *s)),
        Expr::Int(s) => format!("Int({})", text(src, *s)),
        Expr::Float(s) => format!("Float({})", text(src, *s)),
        Expr::Hex(s) => format!("Hex({})", text(src, *s)),
        Expr::Str(s) => format!("Str({})", text(src, *s)),
        Expr::Closure(c) => {
            let args: Vec<String> = c
                .formal_args
                .iter()
                .map(|(a, sep)| format!("({}, {})", show_arg(src, a), show_sep(src, sep)))
                .collect();
            format!(
                "Closure(Closure {{ open: {}, formal_args: [{}], close: {}, body: {} }})",
                text(src, c.open),
                args.join(", "),
                text(src, c.close),
                show(src, &c.body)
            )
        }
        Expr::Block(b) => {
            let items: Vec<String> = b.items.iter().map(|i| show(src, i)).collect();
            format!(
                "Block(Block {{ begin: {}, items: [{}], end: {} }})",
                text(src, b.begin),
                items.join(", "),
                text(src, b.end)
            )
        }
        Expr::Array(l, items, r) => {
            let items: Vec<String> = items.iter().map(|i| show(src, i)).collect();
            format!("Array({}, [{}], {})", text(src, *l), items.join(", "), text(src, *r))
        }
        Expr::Binary(l, op, r) => {
            format!("Binary({}, {}, {})", show(src, l), text(src, *op), show(src, r))
        }
        Expr::Unary(op, e) => format!("Unary({}, {})", text(src, *op), show(src, e)),
        Expr::Paren(l, e, r) => {
            format!("Paren({}, {}, {})", text(src, *l), show(src, e), text(src, *r))
        }
        Expr::Tuple(l, items, r) => {
            format!("Tuple({}, {}, {})", text(src, *l), show_list(src, items), text(src, *r))
        }
        Expr::Call(b, l, items, r) => format!(
            "Call({}, {}, {}, {})",
            show(src, b),
            text(src, *l),
            show_list(src, items),
            text(src, *r)
        ),
        Expr::Index(b, l, i, r) => format!(
            "Index({}, {}, {}, {})",
            show(src, b),
            text(src, *l),
            show(src, i),
            text(src, *r)
        ),
        Expr::Dot(b, d, m) => format!("Dot({}, {}, {})", show(src, b), text(src, *d), show(src, m)),
        Expr::Bad(s) => format!("Bad({})", text(src, *s)),
    }
}

fn show_item(src: &str, item: &Option<Expr>) -> String {
    match item {
        Some(e) => format!("Some({})", show(src, e)),
        None => "None".to_string(),
    }
}

/// Every token of `s`, up to and including the first `Eof`.
fn tokens(s: &str) -> Vec<String> {
    let mut lex = Lex::new(s);
    let mut out = vec![];
    for _ in 0..s.len() + 1 {
        out.push(show_token(s, lex.peek()));
        if matches!(lex.peek(), Token::Eof(_)) {
            return out;
        }
        lex.advance();
    }
    panic!("no Eof after {} tokens", s.len() + 1);
}

fn parsed(s: &str) -> String {
    let mut lex = Lex::new(s);
    let item = Expr::parse(&mut lex);
    show_item(s, &item)
}

#[test]
fn lexing_reaches_eof_and_stays_there() {
    for s in ["", "1", "a + b", "\n  1\n    2\n3", "\"open", "$$$", "x\n  y\n\n  z\n", "   "] {
        let mut lex = Lex::new(s);
        let mut steps = 0;
        while !matches!(lex.peek(), Token::Eof(_)) {
            lex.advance();
            steps += 1;
            assert!(steps <= s.len(), "{:?} took more than {} tokens", s, s.len());
        }
        for _ in 0..3 {
            lex.advance();
            assert_eq!(lex.peek(), &Token::Eof(Span { start: s.len(), end: s.len() }));
        }
    }
}

#[test]
fn begin_and_end_balance() {
    for s in ["\n  1", "x\n  a\n    b\nc", "\n  1\n  (\n    2\n  )", "a\n    b\n  c\nd", "\n\n  x\n"] {
        let toks = tokens(s);
        let begins = toks.iter().filter(|t| t.starts_with("Begin")).count();
        let ends = toks.iter().filter(|t| t.starts_with("End")).count();
        assert_eq!(begins, ends, "{:?}: {:?}", s, toks);
    }
}

#[test]
fn dedent_by_two_levels_gives_two_ends() {
    assert_eq!(
        tokens("x\n  a\n    b\nc"),
        vec![
            "Ident(\"x\")", "Begin(\"\")", "Ident(\"a\")", "Begin(\"\")", "Ident(\"b\")",
            "End(\"\")", "End(\"\")", "Ident(\"c\")", "Eof(\"\")",
        ]
    );
}

#[test]
fn newlines_between_lines_of_equal_indent() {
    assert_eq!(tokens("1\n2"), vec!["Int(\"1\")", "Newline(\"\")", "Int(\"2\")", "Eof(\"\")"]);
    assert_eq!(
        tokens("1\n\n2"),
        vec!["Int(\"1\")", "Newline(\"\\n\")", "Newline(\"\")", "Int(\"2\")", "Eof(\"\")"]
    );
    assert_eq!(tokens("1\n"), vec!["Int(\"1\")", "Newline(\"\")", "Eof(\"\")"]);
}

#[test]
fn number_forms() {
    assert_eq!(tokens("1e+5"), vec!["Float(\"1e+5\")", "Eof(\"\")"]);
    assert_eq!(tokens("2E7"), vec!["Float(\"2E7\")", "Eof(\"\")"]);
    assert_eq!(tokens("3.25"), vec!["Float(\"3.25\")", "Eof(\"\")"]);
    assert_eq!(tokens("0x"), vec!["Hex(\"0x\")", "Eof(\"\")"]);
    assert_eq!(tokens("0xFFg"), vec!["Hex(\"0xFF\")", "Ident(\"g\")", "Eof(\"\")"]);
    assert_eq!(tokens("42x"), vec!["Int(\"42\")", "Ident(\"x\")", "Eof(\"\")"]);
}

#[test]
fn words_and_keywords() {
    assert_eq!(
        tokens("def if else for let mut fred a_1"),
        vec![
            "Keyword(\"def\")", "Keyword(\"if\")", "Keyword(\"else\")", "Keyword(\"for\")",
            "Keyword(\"let\")", "Keyword(\"mut\")", "Ident(\"fred\")", "Ident(\"a_1\")", "Eof(\"\")",
        ]
    );
    assert_eq!(tokens("define"), vec!["Ident(\"define\")", "Eof(\"\")"]);
}

#[test]
fn operators_take_the_longest_match() {
    assert_eq!(
        tokens(">>> >> ** *+= |"),
        vec![
            "Punct(\">>>\")", "Punct(\">>\")", "Punct(\"**\")", "Punct(\"*\")", "Punct(\"+=\")",
            "Punct(\"|\")", "Eof(\"\")",
        ]
    );
    assert_eq!(tokens("@"), vec!["UnknownToken(\"@\")", "Eof(\"\")"]);
}

#[test]
fn string_forms() {
    assert_eq!(tokens("\"\""), vec!["Str(\"\\\"\\\"\")", "Eof(\"\")"]);
    assert_eq!(tokens("'a' b"), vec!["Str(\"'a'\")", "Ident(\"b\")", "Eof(\"\")"]);
    assert_eq!(tokens("'a\\'"), vec!["UnterminatedString(\"'a\\\\'\")", "Eof(\"\")"]);
}

#[test]
fn peek_is_idempotent() {
    let mut lex = Lex::new("a + b");
    let first = *lex.peek();
    for _ in 0..5 {
        assert_eq!(*lex.peek(), first);
        assert_eq!(lex.span(), Span { start: 0, end: 1 });
    }
    assert_eq!(lex.advance(), Span { start: 0, end: 1 });
    assert_eq!(lex.peek(), &Token::Punct(Span { start: 2, end: 3 }));
}

#[test]
fn precedence_and_associativity() {
    assert_eq!(parsed("1 + 2 * 3"), r#"Some(Binary(Int("1"), "+", Binary(Int("2"), "*", Int("3"))))"#);
    assert_eq!(parsed("1 * 2 + 3"), r#"Some(Binary(Binary(Int("1"), "*", Int("2")), "+", Int("3")))"#);
    assert_eq!(parsed("1 + 2 + 3"), r#"Some(Binary(Binary(Int("1"), "+", Int("2")), "+", Int("3")))"#);
    assert_eq!(parsed("2 ** 3 ** 4"), r#"Some(Binary(Binary(Int("2"), "**", Int("3")), "**", Int("4")))"#);
    assert_eq!(parsed("1 + 2 ** 3"), r#"Some(Binary(Int("1"), "+", Binary(Int("2"), "**", Int("3"))))"#);
    assert_eq!(parsed("-1 + 2"), r#"Some(Binary(Unary("-", Int("1")), "+", Int("2")))"#);
}

#[test]
fn postfix_chains() {
    assert_eq!(parsed("1[2](3)"), r#"Some(Call(Index(Int("1"), "[", Int("2"), "]"), "(", [(Int("3"), None)], ")"))"#);
    assert_eq!(parsed("a[1 + 2]"), r#"Some(Index(Ident("a"), "[", Binary(Int("1"), "+", Int("2")), "]"))"#);
    assert_eq!(parsed("a.b.c"), r#"Some(Dot(Ident("a"), ".", Dot(Ident("b"), ".", Ident("c"))))"#);
    assert_eq!(parsed("f()"), r#"Some(Call(Ident("f"), "(", [], ")"))"#);
    assert_eq!(parsed("f(1, 2,)"), r#"Some(Call(Ident("f"), "(", [(Int("1"), Some(",")), (Int("2"), Some(","))], ")"))"#);
}

#[test]
fn grouping_and_tuples() {
    assert_eq!(parsed("(1)"), r#"Some(Paren("(", Int("1"), ")"))"#);
    assert_eq!(parsed("(1,)"), r#"Some(Tuple("(", [(Int("1"), Some(","))], ")"))"#);
    assert_eq!(parsed("()"), r#"Some(Tuple("(", [], ")"))"#);
    assert_eq!(parsed("(1, 2)"), r#"Some(Tuple("(", [(Int("1"), Some(",")), (Int("2"), None)], ")"))"#);
}

#[test]
fn closures() {
    assert_eq!(
        parsed("|x| x + 1"),
        "Some(Closure(Closure { open: \"|\", formal_args: [(Name(\"x\"), None)], close: \"|\", body: Binary(Ident(\"x\"), \"+\", Int(\"1\")) }))"
    );
    assert_eq!(
        parsed("|a, b| a"),
        "Some(Closure(Closure { open: \"|\", formal_args: [(Name(\"a\"), Some(\",\")), (Name(\"b\"), None)], close: \"|\", body: Ident(\"a\") }))"
    );
    assert_eq!(
        parsed("|| 1"),
        "Some(Closure(Closure { open: \"|\", formal_args: [], close: \"|\", body: Int(\"1\") }))"
    );
}

#[test]
fn closure_errors() {
    let mut lex = Lex::new("|x|");
    assert_eq!(show_item("|x|", &Expr::parse(&mut lex)), r#"Some(Bad(""))"#);
    assert_eq!(lex.errors().len(), 1);

    let mut lex = Lex::new("|1| 2");
    assert_eq!(
        show_item("|1| 2", &Expr::parse(&mut lex)),
        "Some(Closure(Closure { open: \"|\", formal_args: [(Bad(\"1\"), None)], close: \"|\", body: Int(\"2\") }))"
    );
    assert_eq!(lex.errors().len(), 1);

    let mut lex = Lex::new("|x 1");
    assert_eq!(show_item("|x 1", &Expr::parse(&mut lex)), r#"Some(Bad("1"))"#);
    assert_eq!(lex.errors().len(), 1);
}

#[test]
fn blocks() {
    assert_eq!(
        parsed("\n  1\n  2"),
        "Some(Block(Block { begin: \"\", items: [Int(\"1\"), Int(\"2\")], end: \"\" }))"
    );
    assert_eq!(
        parsed("\n  1; 2"),
        "Some(Block(Block { begin: \"\", items: [Int(\"1\"), Int(\"2\")], end: \"\" }))"
    );
}

#[test]
fn cannot_start_leaves_the_lexer_alone() {
    let mut lex = Lex::new("$ 1");
    let before = *lex.peek();
    assert!(parse_expr(&mut lex).is_none());
    assert_eq!(*lex.peek(), before);
    assert_eq!(before, Token::UnknownToken(Span { start: 0, end: 1 }));
    assert!(lex.errors().is_empty());
}

#[test]
fn bad_token_in_a_list_is_replaced() {
    let s = "f(1, $, 2)";
    let mut lex = Lex::new(s);
    let item = Expr::parse(&mut lex);
    assert_eq!(
        show_item(s, &item),
        r#"Some(Call(Ident("f"), "(", [(Int("1"), Some(",")), (Bad("$"), Some(",")), (Int("2"), None)], ")"))"#
    );
    assert_eq!(lex.errors().len(), 1);
    assert_eq!(lex.errors()[0].span, Span { start: 5, end: 6 });
    assert!(matches!(lex.peek(), Token::Eof(_)));
}

#[test]
fn bad_separator_in_a_block_is_replaced() {
    let s = "\n  1 2\n  3";
    let mut lex = Lex::new(s);
    let item = Expr::parse(&mut lex);
    assert_eq!(
        show_item(s, &item),
        "Some(Block(Block { begin: \"\", items: [Int(\"1\"), Bad(\"2\"), Int(\"3\")], end: \"\" }))"
    );
    assert_eq!(lex.errors().len(), 1);
    assert!(matches!(lex.peek(), Token::Eof(_)));
}

#[test]
fn missing_closer_is_reported() {
    let s = "(1";
    let mut lex = Lex::new(s);
    let item = Expr::parse(&mut lex);
    assert_eq!(show_item(s, &item), r#"Some(Bad(""))"#);
    assert_eq!(lex.errors().len(), 1);
    assert_eq!(lex.errors()[0].span, Span { start: 2, end: 2 });
    assert_eq!(lex.errors()[0].reason, "expected )");

    let s = "a[1";
    let mut lex = Lex::new(s);
    let item = Expr::parse(&mut lex);
    assert_eq!(show_item(s, &item), r#"Some(Bad(""))"#);
    assert_eq!(lex.errors().len(), 1);
    assert_eq!(lex.errors()[0].reason, "expected ]");

    let s = "f(1 2) + 3";
    let mut lex = Lex::new(s);
    let item = Expr::parse(&mut lex);
    assert_eq!(show_item(s, &item), r#"Some(Bad("2"))"#);
    assert_eq!(lex.errors().len(), 1);
    assert_eq!(lex.peek(), &Token::Punct(Span { start: 5, end: 6 }));
}

#[test]
fn bad_line_in_a_block_is_replaced() {
    let s = "\n  1\n  $\n  2";
    let mut lex = Lex::new(s);
    let item = Expr::parse(&mut lex);
    assert_eq!(
        show_item(s, &item),
        "Some(Block(Block { begin: \"\", items: [Int(\"1\"), Bad(\"$\"), Int(\"2\")], end: \"\" }))"
    );
    assert_eq!(lex.errors().len(), 1);
    assert!(matches!(lex.peek(), Token::Eof(_)));
}

#[test]
fn list_starting_with_a_bad_token() {
    let s = "f($, 2)";
    let mut lex = Lex::new(s);
    let item = Expr::parse(&mut lex);
    assert_eq!(
        show_item(s, &item),
        r#"Some(Call(Ident("f"), "(", [(Bad("$"), Some(",")), (Int("2"), None)], ")"))"#
    );
    assert_eq!(lex.errors().len(), 1);
}

#[test]
fn unary_and_member_take_one_atom() {
    assert_eq!(parsed("-1 + 2"), r#"Some(Binary(Unary("-", Int("1")), "+", Int("2")))"#);
    assert_eq!(parsed("a.b + 1"), r#"Some(Binary(Dot(Ident("a"), ".", Ident("b")), "+", Int("1")))"#);
    assert_eq!(parsed("1[2 + 3]"), r#"Some(Index(Int("1"), "[", Binary(Int("2"), "+", Int("3")), "]"))"#);
}

#[test]
fn unknown_atom_after_operator_is_bad() {
    let s = "1 + $";
    let mut lex = Lex::new(s);
    let item = Expr::parse(&mut lex);
    assert_eq!(show_item(s, &item), r#"Some(Binary(Int("1"), "+", Bad("$")))"#);
    assert_eq!(lex.errors().len(), 1);
}

#[test]
fn programmes() {
    let s = "1\n2; 3";
    let mut lex = Lex::new(s);
    match parse_programme(&mut lex) {
        Programme::Good(items) => {
            let shown: Vec<String> = items.iter().map(|e| show(s, e)).collect();
            assert_eq!(shown, vec!["Int(\"1\")", "Int(\"2\")", "Int(\"3\")"]);
        }
        Programme::Bad() => panic!("bad programme"),
    }

    let mut lex = Lex::new("");
    assert_eq!(parse_programme(&mut lex), Programme::Good(vec![]));

    let mut lex = Lex::new("$");
    assert_eq!(parse_programme(&mut lex), Programme::Bad());
    assert!(lex.errors().is_empty());

    let s = "x\n$";
    let mut lex = Lex::new(s);
    match parse_programme(&mut lex) {
        Programme::Good(items) => {
            let shown: Vec<String> = items.iter().map(|e| show(s, e)).collect();
            assert_eq!(shown, vec!["Ident(\"x\")", "Bad(\"$\")"]);
        }
        Programme::Bad() => panic!("bad programme"),
    }
    assert_eq!(lex.errors().len(), 1);
}

#[test]
fn error_records_a_diagnostic() {
    let mut lex = Lex::new("a");
    let span = lex.span();
    lex.error(span, "something");
    assert_eq!(lex.errors().len(), 1);
    assert_eq!(lex.errors()[0].span, span);
    assert_eq!(lex.errors()[0].reason, "something");
    assert_eq!(lex.peek(), &Token::Ident(Span { start: 0, end: 1 }));
}
