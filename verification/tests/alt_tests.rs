use synop::Expr;
use synop::Token;
use synop::Tokenizer;
use synop::tokenize;

fn check_toks(output: &[Token], input: &str) {
    let v = tokenize(input).unwrap();
    assert_eq!(output, v.as_slice());
}

fn short_t(s: &str) -> Token {
    Token::ShortOpt(s.to_string())
}

fn long_t(s: &str) -> Token {
    Token::LongOpt(s.to_string())
}

fn text_t(s: &str) -> Token {
    Token::Text(s.to_string())
}

fn parse(s: &str) -> Expr {
    let p = synop::parse(&tokenize(s).unwrap()).unwrap();
    let pp = synop::parse(&tokenize(p.pretty().as_str()).unwrap()).unwrap();
    assert_eq!(p, pp);
    p
}

fn parse_err(s: &str) -> String {
    synop::parse(&tokenize(s).unwrap()).unwrap_err()
}

fn text(s: &str) -> Expr {
    Expr::Tok(Token::Text(s.to_string()))
}

fn short(s: &str) -> Expr {
    Expr::Tok(Token::ShortOpt(s.to_string()))
}

fn long(s: &str) -> Expr {
    Expr::Tok(Token::LongOpt(s.to_string()))
}

#[test]
fn token_short_opt() {
    check_toks(&[short_t("")], "-");
    check_toks(&[short_t("a")], "-a");
    check_toks(&[short_t("a")], "  -a  ");
    check_toks(&[short_t("a"), short_t("b"), short_t("c"), short_t("1")], "-a -b -c -1");
    check_toks(&[short_t("a"), short_t("b"), short_t("c"), short_t("1")], "  -a -b   -c   -1  ");
}

#[test]
fn token_long_opt() {
    check_toks(&[long_t("")], "--");
    check_toks(&[long_t("long")], "--long");
    check_toks(
        &[long_t("aaa"), long_t("bbb"), long_t("ccc"), long_t("123")],
        "--aaa --bbb --ccc --123",
    );
    check_toks(
        &[long_t("aaa"), long_t("bbb"), long_t("ccc"), long_t("123")],
        "  --aaa --bbb   --ccc --123",
    );
    check_toks(&[long_t("aaa"), long_t("bbb"), long_t("ccc--1_23")], "  --aaa --bbb   --ccc--1_23");
}

#[test]
fn token_mixed() {
    check_toks(
        &[
            short_t("a"),
            Token::LBrace,
            text_t("a"),
            Token::Bar,
            text_t("b"),
            Token::Bar,
            text_t("c"),
            Token::RBrace,
            Token::LBracket,
            text_t("p"),
            Token::Dots,
            Token::RBracket,
        ],
        "-a {a|b|c} [p ...]",
    )
}

#[test]
fn token_invalid_dots() {
    assert!(tokenize("....").is_err());
}

#[test]
fn token_pretty() {
    fn check(s: &str) {
        let mut tok = Tokenizer::new(s);
        assert_eq!(s.to_string(), tok.next().unwrap().unwrap().pretty());
        assert_eq!(Ok(None), tok.next());
    }
    check("a");
    check("b");
    check("-a");
    check("--long");
    check("[");
    check("]");
    check("{");
    check("}");
    check("...");
    check("|");
}

#[test]
fn parser_seq_one() {
    assert_eq!(short("a"), parse("-a"));
}

#[test]
fn parser_seq_multi() {
    assert_eq!(
        Expr::Cat(vec![short("a"), short("b"), text("c"), long("foo")]),
        parse("-a -b c --foo"),
    );
}

#[test]
fn parser_seq_empty() {
    assert_eq!(Expr::Cat(vec![]), parse(""));
}

#[test]
fn parser_set_nested() {
    assert_eq!(Expr::Cat(vec![Expr::Cat(vec![text("a"), text("b")]), text("c")]), parse("{a b} c"));
}

#[test]
fn parser_opt() {
    assert_eq!(Expr::Opt(Box::new(text("aaa"))), parse("[aaa]"));
}

#[test]
fn parser_opt_nested() {
    assert_eq!(
        Expr::Opt(Box::new(Expr::Cat(vec![text("a"), Expr::Opt(Box::new(text("b"))), text("c")]))),
        parse("[a[b]c]"),
    );
    assert_eq!(Expr::Opt(Box::new(Expr::Opt(Box::new(text("a"))))), parse("[[a]]"));
}

#[test]
fn parser_opt_empty() {
    assert_eq!(Expr::Opt(Box::new(Expr::Cat(vec![]))), parse("[]"));
}

#[test]
fn parser_opt_nested_empty() {
    assert_eq!(Expr::Opt(Box::new(Expr::Opt(Box::new(Expr::Cat(vec![]))))), parse("[[]]"));
}

#[test]
fn parser_repeat_with_group() {
    assert_eq!(
        Expr::Cat(vec![text("aaa"), Expr::Repeat(Box::new(text("bbb")))]),
        parse("aaa {bbb}..."),
    );
    assert_eq!(
        Expr::Repeat(Box::new(Expr::Cat(vec![text("aaa"), text("bbb")]))),
        parse("{aaa bbb}..."),
    );
    assert_eq!(Expr::Repeat(Box::new(Expr::Opt(Box::new(text("aaa"))))), parse("[aaa]..."));
}

#[test]
fn parser_empty_repeat() {
    assert_eq!("unexpected token '...' found".to_string(), parse_err("..."));
}

#[test]
fn parser_bar_empty() {
    assert_eq!(Expr::Select(vec![text("a"), Expr::Cat(vec![]), text("c")]), parse("a||c"));
    assert_eq!(
        Expr::Cat(vec![text("a"), Expr::Select(vec![Expr::Cat(vec![]), text("a")]), text("c")]),
        parse("a{|a}c"),
    );
    assert_eq!(
        Expr::Cat(vec![
            text("a"),
            Expr::Select(vec![Expr::Cat(vec![]), Expr::Cat(vec![])]),
            text("c"),
        ]),
        parse("a{|}c"),
    );
}

#[test]
fn parser_bar_nested() {
    assert_eq!(
        Expr::Select(vec![text("a"), Expr::Select(vec![text("b"), text("c")])]),
        parse("a|{b|c}"),
    );
}

#[test]
fn parser_unclosed_brace() {
    assert_eq!("expected '}', found EOF".to_string(), parse_err("{a b"))
}

#[test]
fn parser_unclosed_bracket() {
    assert_eq!("expected ']', found EOF".to_string(), parse_err("[a |b"));
}

#[test]
fn parser_unbaranced_parens() {
    assert_eq!("expected ']', found '}'".to_string(), parse_err("[a b}"));
}

#[test]
fn parser_pretty_normalized() {
    fn check(s: &str) {
        let parsed = parse(s);
        let pretty = parsed.pretty();
        assert_eq!(s.to_string(), pretty);
        assert_eq!(parsed, parse(pretty.as_str()));
    }
    check("a");
    check("-b");
    check("-a");
    check("a b c");
    check("a [b] c");
    check("a b...");
    check("a | b...");
    check("{a | b}...");
    check("[a] {a | b}...");
}

#[test]
fn ast_pretty_normalized() {
    fn check(s: &str) {
        let parsed = synop::parse(&tokenize(s).unwrap()).unwrap();
        let pretty = parsed.pretty();
        assert_eq!(s.to_string(), pretty);
        assert_eq!(parsed, synop::parse(&tokenize(pretty.as_str()).unwrap()).unwrap());
    }
    check("a");
    check("-b");
    check("-a");
    check("a b c");
    check("a [b] c");
    check("a b...");
    check("a | b...");
    check("{a | b}...");
    check("[a] {a | b}...");
}

#[test]
fn ast_normalize() {
    fn check(result: Option<Expr>, input: Expr) {
        assert_eq!(result, input.normalize());
    }

    check(Some(text("aa")), Expr::Cat(vec![text("aa")]));
    check(None, Expr::Cat(vec![]));
    check(None, Expr::Opt(Box::new(Expr::Cat(vec![]))));
    check(None, Expr::Opt(Box::new(Expr::Opt(Box::new(Expr::Cat(vec![]))))));
    check(
        None,
        Expr::Opt(Box::new(Expr::Opt(Box::new(Expr::Opt(Box::new(Expr::Cat(vec![]))))))),
    );
    check(
        Some(Expr::Repeat(Box::new(text("aa")))),
        Expr::Repeat(Box::new(Expr::Repeat(Box::new(text("aa"))))),
    );
    check(Some(text("aa")), Expr::Select(vec![text("aa")]));
    check(
        Some(Expr::Cat(vec![text("a"), text("b"), text("c")])),
        Expr::Cat(vec![Expr::Cat(vec![text("a"), text("b")]), text("c")]),
    );
    check(
        Some(Expr::Repeat(Box::new(text("a")))),
        Expr::Repeat(Box::new(Expr::Cat(vec![Expr::Repeat(Box::new(text("a")))]))),
    );
}
