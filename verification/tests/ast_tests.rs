use synop::Expr;
use synop::Token;
use synop::tokenize;

fn text(s: &str) -> Expr {
    Expr::Tok(Token::Text(s.to_string()))
}

#[test]
fn pretty_normalized() {
    fn check(s: &str) {
        let parsed = synop::parse(&tokenize(s).unwrap()).unwrap();
        let pretty = parsed.pretty();
        assert_eq!(s.to_string(), pretty);
        assert_eq!(parsed, synop::parse(&tokenize(pretty.as_str()).unwrap()).unwrap());
    }
    check("a");
    check("-b");
    check("-a");
    check("a b c");
    check("a [b] c");
    check("a b...");
    check("a | b...");
    check("{a | b}...");
    check("[a] {a | b}...");
}

#[test]
fn normalize() {
    fn check(result: Option<Expr>, input: Expr) {
        assert_eq!(result, input.normalize());
    }

    check(Some(text("aa")), Expr::Cat(vec![text("aa")]));
    check(None, Expr::Cat(vec![]));
    check(None, Expr::Opt(Box::new(Expr::Cat(vec![]))));
    check(None, Expr::Opt(Box::new(Expr::Opt(Box::new(Expr::Cat(vec![]))))));
    check(
        None,
        Expr::Opt(Box::new(Expr::Opt(Box::new(Expr::Opt(Box::new(Expr::Cat(vec![]))))))),
    );
    check(
        Some(Expr::Repeat(Box::new(text("aa")))),
        Expr::Repeat(Box::new(Expr::Repeat(Box::new(text("aa"))))),
    );
    check(Some(text("aa")), Expr::Select(vec![text("aa")]));
    check(
        Some(Expr::Cat(vec![text("a"), text("b"), text("c")])),
        Expr::Cat(vec![Expr::Cat(vec![text("a"), text("b")]), text("c")]),
    );
    check(
        Some(Expr::Repeat(Box::new(text("a")))),
        Expr::Repeat(Box::new(Expr::Cat(vec![Expr::Repeat(Box::new(text("a")))]))),
    );
}

#[test]
fn normalize_twice() {
    fn check(input: Expr) {
        let n = input.normalize().unwrap();
        assert_eq!(Some(n.clone()), n.clone().normalize());
    }

    check(Expr::Cat(vec![Expr::Cat(vec![text("a"), text("b")]), text("c")]));
    check(Expr::Repeat(Box::new(Expr::Repeat(Box::new(text("aa"))))));
    check(Expr::Select(vec![Expr::Opt(Box::new(text("b"))), text("ccc")]));
    check(Expr::Select(vec![Expr::Cat(vec![]), text("x"), Expr::Select(vec![
        text("y"),
        text("z"),
    ])]));
}

#[test]
fn opt_hoist() {
    let parsed = synop::parse(&tokenize("[b]|ccc").unwrap()).unwrap();
    assert_eq!(
        Some(Expr::Opt(Box::new(Expr::Select(vec![text("b"), text("ccc")])))),
        parsed.normalize(),
    );
}

#[test]
fn pretty_braces() {
    let parsed = synop::parse(&tokenize("a b|c").unwrap()).unwrap();
    assert_eq!("{a b} | c".to_string(), parsed.pretty());
    let parsed = synop::parse(&tokenize("a b|c d|e f").unwrap()).unwrap();
    assert_eq!("{a b} | {c d} | {e f}".to_string(), parsed.pretty());
    let parsed = synop::parse(&tokenize("a|{b|c}").unwrap()).unwrap();
    assert_eq!("a | {b | c}".to_string(), parsed.pretty());
}

#[test]
fn read_ast() {
    assert_eq!(
        Ok(Expr::Cat(vec![text("a"), Expr::Opt(Box::new(text("b"))), text("c")])),
        synop::read_ast("a [b] c"),
    );
    assert_eq!(Err("Parse error: expected '}', found EOF".to_string()), synop::read_ast("{a b"));
    assert_eq!(Err("Parse error: expected '...'".to_string()), synop::read_ast("..a"));
}
