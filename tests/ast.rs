use sqwipt::ast::{Expr, FormalArg, Parse};
use sqwipt::lex::{Lex, Span, Token};

fn text(src: &str, s: Span) -> String {
    format!("{:?}", &src[s.start..s.end])
}

fn show_token(src: &str, t: &Token) -> String {
    let (name, s) = match *t {
        Token::Punct(s) => ("Punct", s),
        Token::Int(s) => ("Int", s),
        Token::Float(s) => ("Float", s),
        Token::Hex(s) => ("Hex", s),
        Token::Keyword(s) => ("Keyword", s),
        Token::Ident(s) => ("Ident", s),
        Token::Str(s) => ("Str", s),
        Token::Newline(s) => ("Newline", s),
        Token::Begin(s) => ("Begin", s),
        Token::End(s) => ("End", s),
        Token::Eof(s) => ("Eof", s),
        Token::UnknownToken(s) => ("UnknownToken", s),
        Token::UnterminatedString(s) => ("UnterminatedString", s),
    };
    format!("{}({})", name, text(src, s))
}

fn show_sep(src: &str, sep: &Option<Span>) -> String {
    match sep {
        Some(s) => format!("Some({})", text(src, *s)),
        None => "None".to_string(),
    }
}

fn show_list(src: &str, items: &[(Expr, Option<Span>)]) -> String {
    let parts: Vec<String> = items
        .iter()
        .map(|(e, sep)| format!("({}, {})", show(src, e), show_sep(src, sep)))
        .collect();
    format!("[{}]", parts.join(", "))
}

fn show_arg(src: &str, a: &FormalArg) -> String {
    match a {
        FormalArg::Name(s) => format!("Name({})", text(src, *s)),
        FormalArg::NameWithDefault(n, eq, e) => {
            format!("NameWithDefault({}, {}, {})", text(src, *n), text(src, *eq), show(src, e))
        }
        FormalArg::Bad(s) => format!("Bad({})", text(src, *s)),
    }
}

fn show(src: &str, e: &Expr) -> String {
    match e {
        Expr::Ident(s) => format!("Ident({})", text(src, *s)),
        Expr::Int(s) => format!("Int({})", text(src, *s)),
        Expr::Float(s) => format!("Float({})", text(src, *s)),
        Expr::Hex(s) => format!("Hex({})", text(src, *s)),
        Expr::Str(s) => format!("Str({})", text(src, *s)),
        Expr::Closure(c) => {
            let args: Vec<String> = c
                .formal_args
                .iter()
                .map(|(a, sep)| format!("({}, {})", show_arg(src, a), show_sep(src, sep)))
                .collect();
            format!(
                "Closure(Closure {{ open: {}, formal_args: [{}], close: {}, body: {} }})",
                text(src, c.open),
                args.join(", "),
                text(src, c.close),
                show(src, &c.body)
            )
        }
        Expr::Block(b) => {
            let items: Vec<String> = b.items.iter().map(|i| show(src, i)).collect();
            format!(
                "Block(Block {{ begin: {}, items: [{}], end: {} }})",
                text(src, b.begin),
                items.join(", "),
                text(src, b.end)
            )
        }
        Expr::Array(l, items, r) => {
            let items: Vec<String> = items.iter().map(|i| show(src, i)).collect();
            format!("Array({}, [{}], {})", text(src, *l), items.join(", "), text(src, *r))
        }
        Expr::Binary(l, op, r) => {
            format!("Binary({}, {}, {})", show(src, l), text(src, *op), show(src, r))
        }
        Expr::Unary(op, e) => format!("Unary({}, {})", text(src, *op), show(src, e)),
        Expr::Paren(l, e, r) => {
            format!("Paren({}, {}, {})", text(src, *l), show(src, e), text(src, *r))
        }
        Expr::Tuple(l, items, r) => {
            format!("Tuple({}, {}, {})", text(src, *l), show_list(src, items), text(src, *r))
        }
        Expr::Call(b, l, items, r) => format!(
            "Call({}, {}, {}, {})",
            show(src, b),
            text(src, *l),
            show_list(src, items),
            text(src, *r)
        ),
        Expr::Index(b, l, i, r) => format!(
            "Index({}, {}, {}, {})",
            show(src, b),
            text(src, *l),
            show(src, i),
            text(src, *r)
        ),
        Expr::Dot(b, d, m) => format!("Dot({}, {}, {})", show(src, b), text(src, *d), show(src, m)),
        Expr::Bad(s) => format!("Bad({})", text(src, *s)),
    }
}

fn show_item(src: &str, item: &Option<Expr>) -> String {
    match item {
        Some(e) => format!("Some({})", show(src, e)),
        None => "None".to_string(),
    }
}

fn check_expr(s: &str, res: &str) {
    println!("expr test [{}]", s);
    let mut lex = Lex::new(s);
    let item = Expr::parse(&mut lex);
    assert_eq!(show_item(s, &item), res);
    assert!(matches!(lex.peek(), Token::Eof(_)));
}

fn check_expr_bad(s: &str, res: &str, next: &str) {
    println!("expr bad test [{}]", s);
    let mut lex = Lex::new(s);
    let item = Expr::parse(&mut lex);
    assert_eq!(show_item(s, &item), res);
    let next_token = lex.peek();
    assert_eq!(show_token(s, next_token), next);
}

#[test]
fn ast_test_expr() {
    check_expr("1", r#"Some(Int("1"))"#);
    check_expr("1.0", r#"Some(Float("1.0"))"#);
    check_expr("1.0e10", r#"Some(Float("1.0e10"))"#);
    check_expr(r#""1""#, r#"Some(Str("\"1\""))"#);

    check_expr("a", r#"Some(Ident("a"))"#);

    check_expr("!1", r#"Some(Unary("!", Int("1")))"#);
    check_expr("+1", r#"Some(Unary("+", Int("1")))"#);
    check_expr("-1", r#"Some(Unary("-", Int("1")))"#);

    check_expr("(1)", "Some(Paren(\"(\", Int(\"1\"), \")\"))");
    check_expr("(1,)", "Some(Tuple(\"(\", [(Int(\"1\"), Some(\",\"))], \")\"))");

    check_expr("1 + 2 * 3", r#"Some(Binary(Int("1"), "+", Binary(Int("2"), "*", Int("3"))))"#);
    check_expr("1 * 2 + 3", r#"Some(Binary(Binary(Int("1"), "*", Int("2")), "+", Int("3")))"#);
    check_expr("1 + 2 + 3", "Some(Binary(Binary(Int(\"1\"), \"+\", Int(\"2\")), \"+\", Int(\"3\")))");

    check_expr("1[2]", r#"Some(Index(Int("1"), "[", Int("2"), "]"))"#);
    check_expr("1(2)", r#"Some(Call(Int("1"), "(", [(Int("2"), None)], ")"))"#);
    check_expr("1(2)(3)", r#"Some(Call(Call(Int("1"), "(", [(Int("2"), None)], ")"), "(", [(Int("3"), None)], ")"))"#);
    check_expr("1[2](3)", r#"Some(Call(Index(Int("1"), "[", Int("2"), "]"), "(", [(Int("3"), None)], ")"))"#);
    check_expr("(1)(2)", "Some(Call(Paren(\"(\", Int(\"1\"), \")\"), \"(\", [(Int(\"2\"), None)], \")\"))");

    check_expr("|x| x + 1", "Some(Closure(Closure { open: \"|\", formal_args: [(Name(\"x\"), None)], close: \"|\", body: Binary(Ident(\"x\"), \"+\", Int(\"1\")) }))");
    check_expr("\n  1", "Some(Block(Block { begin: \"\", items: [Int(\"1\")], end: \"\" }))");
    check_expr("\n  1\n  2", "Some(Block(Block { begin: \"\", items: [Int(\"1\"), Int(\"2\")], end: \"\" }))");
    check_expr("\n  1\n  (\n    2\n  )", "Some(Block(Block { begin: \"\", items: [Int(\"1\"), Paren(\"(\", Block(Block { begin: \"\", items: [Int(\"2\")], end: \"\" }), \")\")], end: \"\" }))");
}

#[test]
fn test_expr_bad() {
    check_expr_bad("1", r#"Some(Int("1"))"#, r#"Eof("")"#);
    check_expr_bad("1 2", r#"Some(Int("1"))"#, r#"Int("2")"#);
    check_expr_bad("$", r#"None"#, r#"UnknownToken("$")"#);
}
