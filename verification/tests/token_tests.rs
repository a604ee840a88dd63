use synop::Token;
use synop::Tokenizer;
use synop::tokenize;

fn check(output: &[Token], input: &str) {
    let v = tokenize(input).unwrap();
    assert_eq!(output, v.as_slice());
}

fn short(s: &str) -> Token {
    Token::ShortOpt(s.to_string())
}

fn long(s: &str) -> Token {
    Token::LongOpt(s.to_string())
}

fn text(s: &str) -> Token {
    Token::Text(s.to_string())
}

#[test]
fn short_opt() {
    check(&[short("")], "-");
    check(&[short("a")], "-a");
    check(&[short("a")], "  -a  ");
    check(&[short("a"), short("b"), short("c"), short("1")], "-a -b -c -1");
    check(&[short("a"), short("b"), short("c"), short("1")], "  -a -b   -c   -1  ");
}

#[test]
fn long_opt() {
    check(&[long("")], "--");
    check(&[long("long")], "--long");
    check(&[long("aaa"), long("bbb"), long("ccc"), long("123")], "--aaa --bbb --ccc --123");
    check(&[long("aaa"), long("bbb"), long("ccc"), long("123")], "  --aaa --bbb   --ccc --123");
    check(&[long("aaa"), long("bbb"), long("ccc--1_23")], "  --aaa --bbb   --ccc--1_23");
}

#[test]
fn mixed() {
    check(
        &[
            short("a"),
            Token::LBrace,
            text("a"),
            Token::Bar,
            text("b"),
            Token::Bar,
            text("c"),
            Token::RBrace,
            Token::LBracket,
            text("p"),
            Token::Dots,
            Token::RBracket,
        ],
        "-a {a|b|c} [p ...]",
    )
}

#[test]
fn invalid_dots() {
    assert_eq!(Err("expected '...'".to_string()), tokenize("...."));
}

#[test]
fn pretty() {
    fn check(s: &str) {
        let mut tok = Tokenizer::new(s);
        assert_eq!(s.to_string(), tok.next().unwrap().unwrap().pretty());
        assert_eq!(Ok(None), tok.next());
    }
    check("a");
    check("b");
    check("-a");
    check("--long");
    check("[");
    check("]");
    check("{");
    check("}");
    check("...");
    check("|");
}

#[test]
fn whitespace_insensitive() {
    assert_eq!(tokenize("-a"), tokenize("  -a  "));
    assert_eq!(tokenize("-a"), tokenize(" -a"));
    assert_eq!(Ok(vec![short("a")]), tokenize("-a"));
}

#[test]
fn word_boundaries() {
    check(&[text("a"), text("!b")], "a!b");
    check(&[text("a_b-c9")], "a_b-c9");
}
