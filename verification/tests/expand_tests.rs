use synop::Expr;
use synop::Token;

fn text_tok(v: Vec<Vec<&str>>) -> Vec<Vec<Token>> {
    v.into_iter().map(|x| x.into_iter().map(|s| Token::Text(s.to_string())).collect()).collect()
}

fn text(s: &str) -> Expr {
    Expr::Tok(Token::Text(s.to_string()))
}

#[test]
fn expand() {
    assert_eq!(text_tok(vec![vec!["a"]]), synop::expand(&text("a")));
    assert_eq!(text_tok(vec![vec!["a", "b"]]), synop::expand(&Expr::Cat(vec![text("a"), text("b")])));
    assert_eq!(text_tok(vec![vec![], vec!["a"]]), synop::expand(&Expr::Opt(Box::new(text("a")))));
    assert_eq!(
        text_tok(vec![vec!["a"], vec!["a", "a"], vec!["a", "a", "a"]]),
        synop::expand(&Expr::Repeat(Box::new(text("a")))),
    );
    assert_eq!(
        text_tok(vec![vec![], vec!["a"], vec!["a", "a"]]),
        synop::expand(&Expr::Repeat(Box::new(Expr::Opt(Box::new(text("a")))))),
    );
    assert_eq!(
        text_tok(vec![vec!["a"], vec!["b"], vec!["c"]]),
        synop::expand(&Expr::Select(vec![text("a"), text("b"), text("c")])),
    );

    assert_eq!(
        text_tok(vec![vec!["a", "c"], vec!["b", "c"]]),
        synop::expand(&Expr::Cat(vec![Expr::Select(vec![text("a"), text("b")]), text("c")])),
    );
    assert_eq!(
        text_tok(vec![vec!["a", "c"], vec!["a", "d"], vec!["b", "c"], vec!["b", "d"]]),
        synop::expand(&Expr::Cat(vec![
            Expr::Select(vec![text("a"), text("b")]),
            Expr::Select(vec![text("c"), text("d")]),
        ])),
    );
}

#[test]
fn expand_options() {
    assert_eq!(
        vec![
            vec![Token::ShortOpt("a".to_string())],
            vec![Token::ShortOpt("a".to_string()), Token::LongOpt("b".to_string())],
        ],
        synop::expand(&Expr::Cat(vec![
            Expr::Tok(Token::ShortOpt("a".to_string())),
            Expr::Opt(Box::new(Expr::Tok(Token::LongOpt("b".to_string())))),
        ])),
    );
}
