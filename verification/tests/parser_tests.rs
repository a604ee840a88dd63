use synop::Expr;
use synop::Token;
use synop::tokenize;

fn parse(s: &str) -> Expr {
    let p = synop::parse(&tokenize(s).unwrap()).unwrap();
    let pp = synop::parse(&tokenize(p.pretty().as_str()).unwrap()).unwrap();
    assert_eq!(p, pp);
    p
}

fn parse_err(s: &str) -> String {
    synop::parse(&tokenize(s).unwrap()).unwrap_err()
}

fn norm(s: &str) -> Option<Expr> {
    synop::parse(&tokenize(s).unwrap()).unwrap().normalize()
}

fn text(s: &str) -> Expr {
    Expr::Tok(Token::Text(s.to_string()))
}

fn short(s: &str) -> Expr {
    Expr::Tok(Token::ShortOpt(s.to_string()))
}

fn long(s: &str) -> Expr {
    Expr::Tok(Token::LongOpt(s.to_string()))
}

#[test]
fn seq_one() {
    assert_eq!(short("a"), parse("-a"));
}

#[test]
fn seq_multi() {
    assert_eq!(Expr::Cat(vec![short("a"), short("b"), text("c"), long("foo")]), parse("-a -b c --foo"));
}

#[test]
fn seq_empty() {
    assert_eq!(Expr::Cat(vec![]), parse(""));
}

#[test]
fn set_nested() {
    assert_eq!(Expr::Cat(vec![Expr::Cat(vec![text("a"), text("b")]), text("c")]), parse("{a b} c"));
}

#[test]
fn opt() {
    assert_eq!(Expr::Opt(Box::new(text("aaa"))), parse("[aaa]"));
}

#[test]
fn opt_nested() {
    assert_eq!(
        Expr::Opt(Box::new(Expr::Cat(vec![text("a"), Expr::Opt(Box::new(text("b"))), text("c")]))),
        parse("[a[b]c]"),
    );
    assert_eq!(Expr::Opt(Box::new(Expr::Opt(Box::new(text("a"))))), parse("[[a]]"));
}

#[test]
fn opt_empty() {
    assert_eq!(Expr::Opt(Box::new(Expr::Cat(vec![]))), parse("[]"));
}

#[test]
fn opt_nested_empty() {
    assert_eq!(Expr::Opt(Box::new(Expr::Opt(Box::new(Expr::Cat(vec![]))))), parse("[[]]"));
}

#[test]
fn repeat() {
    assert_eq!(Expr::Cat(vec![text("aaa"), Expr::Repeat(Box::new(text("bbb")))]), parse("aaa bbb ..."));
    assert_eq!(Expr::Repeat(Box::new(Expr::Repeat(Box::new(text("aaa"))))), parse("aaa ... ..."));
}

#[test]
fn repeat_with_group() {
    assert_eq!(Expr::Cat(vec![text("aaa"), Expr::Repeat(Box::new(text("bbb")))]), parse("aaa {bbb}..."));
    assert_eq!(Expr::Repeat(Box::new(Expr::Cat(vec![text("aaa"), text("bbb")]))), parse("{aaa bbb}..."));
    assert_eq!(Expr::Repeat(Box::new(Expr::Opt(Box::new(text("aaa"))))), parse("[aaa]..."));
}

#[test]
fn empty_repeat() {
    assert_eq!("unexpected token '...' found".to_string(), parse_err("..."));
}

#[test]
fn bar() {
    assert_eq!(Expr::Select(vec![text("a"), text("b")]), parse("a|b"));
    assert_eq!(Expr::Select(vec![text("a"), text("b"), text("c")]), parse("a|b|c"));
    assert_eq!(
        Expr::Cat(vec![text("a"), Expr::Select(vec![text("b"), text("c")]), text("d")]),
        parse("a { b | c } d"),
    );
    assert_eq!(
        Expr::Select(vec![text("a"), Expr::Cat(vec![text("b"), text("c")]), text("d")]),
        parse("a|b c|d"),
    );
    assert_eq!(
        Expr::Select(vec![
            Expr::Cat(vec![text("a"), text("b")]),
            Expr::Cat(vec![text("c"), text("d")]),
            Expr::Cat(vec![text("e"), text("f")]),
        ]),
        parse("a b|c d|e f"),
    );
    assert_eq!(Expr::Select(vec![Expr::Opt(Box::new(text("b"))), text("ccc")]), parse("[b]|ccc"));
    assert_eq!(
        Expr::Select(vec![Expr::Opt(Box::new(text("b"))), Expr::Opt(Box::new(text("ccc")))]),
        parse("[b]|[ccc]"),
    );
    assert_eq!(
        Expr::Select(vec![text("a"), Expr::Opt(Box::new(text("b"))), text("ccc")]),
        parse("a|[b]|ccc"),
    );
    assert_eq!(
        Expr::Select(vec![
            text("a"),
            Expr::Opt(Box::new(Expr::Select(vec![text("b"), text("c")]))),
            text("ccc"),
        ]),
        parse("a|[b|c]|ccc"),
    );
    assert_eq!(
        Expr::Cat(vec![
            text("a"),
            Expr::Opt(Box::new(Expr::Select(vec![text("b"), text("c")]))),
            text("d"),
        ]),
        parse("a [b|c] d"),
    );
}

#[test]
fn bar_empty() {
    assert_eq!(Expr::Select(vec![text("a"), Expr::Cat(vec![]), text("c")]), parse("a||c"));
    assert_eq!(
        Expr::Cat(vec![text("a"), Expr::Select(vec![Expr::Cat(vec![]), text("a")]), text("c")]),
        parse("a{|a}c"),
    );
    assert_eq!(
        Expr::Cat(vec![
            text("a"),
            Expr::Select(vec![Expr::Cat(vec![]), Expr::Cat(vec![])]),
            text("c"),
        ]),
        parse("a{|}c"),
    );
}

#[test]
fn bar_nested() {
    assert_eq!(
        Expr::Select(vec![text("a"), Expr::Select(vec![text("b"), text("c")])]),
        parse("a|{b|c}"),
    );
}

#[test]
fn unclosed_brace() {
    assert_eq!("expected '}', found EOF".to_string(), parse_err("{a b"))
}

#[test]
fn unclosed_bracket() {
    assert_eq!("expected ']', found EOF".to_string(), parse_err("[a |b"));
}

#[test]
fn unbaranced_parens() {
    assert_eq!("expected ']', found '}'".to_string(), parse_err("[a b}"));
}

#[test]
fn close_only() {
    assert_eq!("unexpected token '}' found".to_string(), parse_err("a }"))
}

#[test]
fn empty_seq() {
    assert_eq!(Expr::Cat(vec![]), parse(""));
    assert_eq!(None, norm(""));
}

#[test]
fn nested_opt() {
    assert_eq!(
        Some(Expr::Opt(Box::new(Expr::Cat(vec![
            text("a"),
            Expr::Opt(Box::new(text("b"))),
            text("c"),
        ])))),
        norm("[a[b]c]"),
    );
    assert_eq!(Some(Expr::Opt(Box::new(text("a")))), norm("[[a]]"));
}

#[test]
fn empty_opt() {
    assert_eq!(None, norm("[]"));
}

#[test]
fn empty_nested_opt() {
    assert_eq!(None, norm("[[]]"));
}

#[test]
fn empty_bar() {
    assert_eq!(Some(Expr::Select(vec![text("a"), text("c")])), norm("a||c"));
}

#[test]
fn empty_bar_in_bracket() {
    assert_eq!(Some(Expr::Cat(vec![text("a"), text("a"), text("c")])), norm("a{|a}c"));
}

#[test]
fn empty_bar_in_bracket2() {
    assert_eq!(Some(Expr::Cat(vec![text("a"), text("c")])), norm("a{|}c"));
}

#[test]
fn parser_repeat() {
    assert_eq!(
        Some(Expr::Cat(vec![text("aaa"), Expr::Repeat(Box::new(text("bbb")))])),
        norm("aaa bbb ..."),
    );
    assert_eq!(Some(Expr::Repeat(Box::new(text("aaa")))), norm("aaa ... ..."));
}

#[test]
fn parser_bar() {
    assert_eq!(Some(Expr::Select(vec![text("a"), text("b")])), norm("a|b"));
    assert_eq!(Some(Expr::Select(vec![text("a"), text("b"), text("c")])), norm("a|b|c"));
    assert_eq!(
        Some(Expr::Cat(vec![text("a"), Expr::Select(vec![text("b"), text("c")]), text("d")])),
        norm("a { b | c } d"),
    );
    assert_eq!(
        Some(Expr::Select(vec![text("a"), Expr::Cat(vec![text("b"), text("c")]), text("d")])),
        norm("a|b c|d"),
    );
    assert_eq!(
        Some(Expr::Select(vec![
            Expr::Cat(vec![text("a"), text("b")]),
            Expr::Cat(vec![text("c"), text("d")]),
            Expr::Cat(vec![text("e"), text("f")]),
        ])),
        norm("a b|c d|e f"),
    );
    assert_eq!(
        Some(Expr::Opt(Box::new(Expr::Select(vec![text("b"), text("ccc")])))),
        norm("[b]|ccc"),
    );
    assert_eq!(
        Some(Expr::Opt(Box::new(Expr::Select(vec![text("b"), text("ccc")])))),
        norm("[b]|[ccc]"),
    );
    assert_eq!(
        Some(Expr::Opt(Box::new(Expr::Select(vec![text("a"), text("b"), text("ccc")])))),
        norm("a|[b]|ccc"),
    );
    assert_eq!(
        Some(Expr::Opt(Box::new(Expr::Select(vec![text("a"), text("b"), text("ccc")])))),
        norm("a|[b]|[ccc]"),
    );
    assert_eq!(
        Some(Expr::Opt(Box::new(Expr::Select(vec![text("a"), text("b"), text("ccc")])))),
        norm("[a]|[b]|ccc"),
    );
    assert_eq!(
        Some(Expr::Opt(Box::new(Expr::Select(vec![text("a"), text("b"), text("ccc")])))),
        norm("[a]|[b]|[ccc]"),
    );
    assert_eq!(
        Some(Expr::Opt(Box::new(Expr::Select(vec![text("a"), text("b"), text("c"), text("ccc")])))),
        norm("a|[b|c]|ccc"),
    );
    assert_eq!(
        Some(Expr::Opt(Box::new(Expr::Select(vec![
            text("a"),
            Expr::Cat(vec![text("b"), text("c")]),
            text("ccc"),
        ])))),
        norm("a|[b c]|ccc"),
    );
    assert_eq!(
        Some(Expr::Cat(vec![
            text("a"),
            Expr::Opt(Box::new(Expr::Select(vec![text("b"), text("c")]))),
            text("d"),
        ])),
        norm("a [b|c] d"),
    );
}
