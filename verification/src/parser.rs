//! Recursive-descent parser from tokens to the grammar tree.
//!
//! `expr` is one or more `|`-separated terms, `term` a run of factors, and a
//! factor a single token, a bracketed or braced group, or the factor before
//! a `...`.  The functions hand back, beside the tree, the position of the
//! token that ended the production, so the caller can inspect it.

use vstd::prelude::*;
use crate::token::Token;
use crate::token::TokenV;
use crate::token::spec_token_pretty;
use crate::ast::Expr;
use crate::ast::ExprV;
use crate::ast::expr_view;
use crate::ast::exprs_view;
use crate::ast::lemma_exprs_view;
use crate::token::tokens_view;

verus! {

/// The outcome of a parse: a tree, or one descriptive message.
pub type ParseResult<T> = Result<T, String>;

/// The token that ended a production: the one at `j`, or none at the end of
/// the input.
pub open spec fn term_at(ts: Seq<TokenV>, j: int) -> Option<TokenV> {
    if 0 <= j < ts.len() {
        Some(ts[j])
    } else {
        None
    }
}

/// The message for a token that nothing can begin or continue.
pub open spec fn spec_unexpected_msg(t: TokenV) -> Seq<char> {
    "unexpected token '"@ + spec_token_pretty(t) + "' found"@
}

/// The message for a closer that is missing or of the wrong kind.
pub open spec fn spec_expected_msg(exp: TokenV, found: Option<TokenV>) -> Seq<char> {
    match found {
        Some(t) => "expected '"@ + spec_token_pretty(exp) + "', found '"@ + spec_token_pretty(t)
            + "'"@,
        None => "expected '"@ + spec_token_pretty(exp) + "', found EOF"@,
    }
}

/// A finished term: one factor stands alone, any other number becomes a
/// concatenation.
pub open spec fn cat_collapse(acc: Seq<ExprV>) -> ExprV {
    if acc.len() == 1 {
        acc[0]
    } else {
        ExprV::Cat(acc)
    }
}

/// A finished expression: one term stands alone, more become an alternation.
pub open spec fn sel_collapse(acc: Seq<ExprV>) -> ExprV {
    if acc.len() == 1 {
        acc[0]
    } else {
        ExprV::Select(acc)
    }
}

/// The tokens not yet consumed at position `i`.
pub open spec fn toks_left(ts: Seq<TokenV>, i: int) -> nat {
    if 0 <= i < ts.len() {
        (ts.len() - i) as nat
    } else {
        0
    }
}

/// The position after the token at `j`, held inside the input for the sake
/// of the termination measure; the parser only reaches it with
/// `i <= j < ts.len()`, where it is exactly `j + 1`.
pub open spec fn next_pos(ts: Seq<TokenV>, i: int, j: int) -> int {
    let r = if j + 1 > ts.len() {
        ts.len() as int
    } else {
        j + 1
    };
    if r < i + 1 {
        i + 1
    } else {
        r
    }
}

/// One term: factors until a token that cannot continue it.  `Ok` carries
/// the collapsed term and the position of the ending token.
pub open spec fn spec_parse_term(ts: Seq<TokenV>, i: int, acc: Seq<ExprV>) -> Result<
    (ExprV, int),
    Seq<char>,
>
    decreases toks_left(ts, i), 0int,
{
    if !(0 <= i < ts.len()) {
        Ok((cat_collapse(acc), i))
    } else {
        match ts[i] {
            TokenV::Text(_) | TokenV::ShortOpt(_) | TokenV::LongOpt(_) => spec_parse_term(
                ts,
                i + 1,
                acc.push(ExprV::Tok(ts[i])),
            ),
            TokenV::Dots => {
                if acc.len() == 0 {
                    Err(spec_unexpected_msg(TokenV::Dots))
                } else {
                    spec_parse_term(
                        ts,
                        i + 1,
                        acc.drop_last().push(ExprV::Repeat(Box::new(acc.last()))),
                    )
                }
            },
            TokenV::LBracket => match spec_parse_expr(ts, i + 1, Seq::empty()) {
                Err(m) => Err(m),
                Ok((e, j)) => {
                    if term_at(ts, j) == Some(TokenV::RBracket) {
                        spec_parse_term(ts, next_pos(ts, i, j), acc.push(ExprV::Opt(Box::new(e))))
                    } else {
                        Err(spec_expected_msg(TokenV::RBracket, term_at(ts, j)))
                    }
                },
            },
            TokenV::LBrace => match spec_parse_expr(ts, i + 1, Seq::empty()) {
                Err(m) => Err(m),
                Ok((e, j)) => {
                    if term_at(ts, j) == Some(TokenV::RBrace) {
                        spec_parse_term(ts, next_pos(ts, i, j), acc.push(e))
                    } else {
                        Err(spec_expected_msg(TokenV::RBrace, term_at(ts, j)))
                    }
                },
            },
            _ => Ok((cat_collapse(acc), i)),
        }
    }
}

/// One expression: `|`-separated terms.  `Ok` carries the collapsed
/// expression and the position of the ending token.
pub open spec fn spec_parse_expr(ts: Seq<TokenV>, i: int, acc: Seq<ExprV>) -> Result<
    (ExprV, int),
    Seq<char>,
>
    decreases toks_left(ts, i), 1int,
{
    match spec_parse_term(ts, i, Seq::empty()) {
        Err(m) => Err(m),
        Ok((t, j)) => {
            if term_at(ts, j) == Some(TokenV::Bar) && 0 <= i < ts.len() {
                spec_parse_expr(ts, next_pos(ts, i, j), acc.push(t))
            } else {
                Ok((sel_collapse(acc.push(t)), j))
            }
        },
    }
}

/// The whole input as one expression: a token left over is a failure.
pub open spec fn spec_parse(ts: Seq<TokenV>) -> Result<ExprV, Seq<char>> {
    match spec_parse_expr(ts, 0, Seq::empty()) {
        Err(m) => Err(m),
        Ok((e, j)) => match term_at(ts, j) {
            Some(t) => Err(spec_unexpected_msg(t)),
            None => Ok(e),
        },
    }
}

fn unexpected_msg(t: &Token) -> (m: String)
    ensures
        m@ == spec_unexpected_msg(t@),
{
    let mut m = String::new();
    m.append("unexpected token '");
    let p = t.pretty();
    m.append(p.as_str());
    m.append("' found");
    proof {
        reveal_strlit("unexpected token '");
        reveal_strlit("' found");
        assert(m@ =~= spec_unexpected_msg(t@));
    }
    m
}

fn expected_msg(expect: &Token, actual: Option<&Token>) -> (m: String)
    ensures
        m@ == spec_expected_msg(
            expect@,
            match actual {
                Some(a) => Some(a@),
                None => None,
            },
        ),
{
    let mut m = String::new();
    m.append("expected '");
    let ep = expect.pretty();
    m.append(ep.as_str());
    match actual {
        Some(a) => {
            m.append("', found '");
            let ap = a.pretty();
            m.append(ap.as_str());
            m.append("'");
            proof {
                reveal_strlit("expected '");
                reveal_strlit("', found '");
                reveal_strlit("'");
                assert(m@ =~= spec_expected_msg(expect@, Some(a@)));
            }
        },
        None => {
            m.append("', found EOF");
            proof {
                reveal_strlit("expected '");
                reveal_strlit("', found EOF");
                assert(m@ =~= spec_expected_msg(expect@, None::<TokenV>));
            }
        },
    }
    m
}

/// Checks that the production ended on the closer it owed, and reports the
/// mismatch otherwise.
fn expect_token(expect: &Token, actual: Option<&Token>) -> (r: Result<(), String>)
    ensures
        match r {
            Ok(_) => (match actual {
                Some(a) => a@ == expect@,
                None => false,
            }),
            Err(m) => m@ == spec_expected_msg(
                expect@,
                match actual {
                    Some(a) => Some(a@),
                    None => None,
                },
            ) && !(match actual {
                Some(a) => a@ == expect@,
                None => false,
            }),
        },
{
    match actual {
        Some(a) => {
            if a == expect {
                Ok(())
            } else {
                Err(expected_msg(expect, Some(a)))
            }
        },
        None => Err(expected_msg(expect, None)),
    }
}

/// Collapses a finished term.
fn collapse_cat(acc: Vec<Expr>) -> (e: Expr)
    ensures
        expr_view(e) == cat_collapse(exprs_view(acc@)),
{
    proof {
        lemma_exprs_view(acc@);
    }
    if acc.len() == 1 {
        let mut acc = acc;
        acc.pop().unwrap()
    } else {
        Expr::Cat(acc)
    }
}

/// Collapses a finished expression.
fn collapse_sel(acc: Vec<Expr>) -> (e: Expr)
    ensures
        expr_view(e) == sel_collapse(exprs_view(acc@)),
{
    proof {
        lemma_exprs_view(acc@);
    }
    if acc.len() == 1 {
        let mut acc = acc;
        acc.pop().unwrap()
    } else {
        Expr::Select(acc)
    }
}

fn parse_term(ts: &Vec<Token>, i: usize, acc: Vec<Expr>) -> (r: Result<(Expr, usize), String>)
    requires
        i <= ts@.len(),
    ensures
        match r {
            Ok((e, j)) => spec_parse_term(tokens_view(ts@), i as int, exprs_view(acc@)) == Ok::<
                _,
                Seq<char>,
            >((expr_view(e), j as int)) && i <= j <= ts@.len(),
            Err(m) => spec_parse_term(tokens_view(ts@), i as int, exprs_view(acc@)) == Err::<
                (ExprV, int),
                _,
            >(m@),
        },
    decreases ts@.len() - i, 0int,
{
    let ghost tv = tokens_view(ts@);
    let ghost av = exprs_view(acc@);
    if i == ts.len() {
        return Ok((collapse_cat(acc), i));
    }
    proof {
        assert(tv[i as int] == ts@[i as int]@);
    }
    match &ts[i] {
        Token::Text(_) | Token::ShortOpt(_) | Token::LongOpt(_) => {
            let t = ts[i].clone();
            let mut acc = acc;
            let ghost pv = acc@;
            acc.push(Expr::Tok(t));
            proof {
                assert(acc@.drop_last() =~= pv);
                assert(exprs_view(acc@) == exprs_view(pv).push(expr_view(Expr::Tok(t))));
                assert(exprs_view(acc@) == av.push(ExprV::Tok(tv[i as int])));
            }
            parse_term(ts, i + 1, acc)
        },
        Token::Dots => {
            if acc.len() == 0 {
                Err(unexpected_msg(&Token::Dots))
            } else {
                let mut acc = acc;
                let ghost pv = acc@;
                proof {
                    lemma_exprs_view(pv);
                }
                let last = acc.pop().unwrap();
                acc.push(Expr::Repeat(Box::new(last)));
                proof {
                    assert(acc@.drop_last() =~= pv.drop_last());
                    assert(exprs_view(pv.drop_last()) =~= av.drop_last());
                    assert(expr_view(last) == av.last());
                    assert(expr_view(Expr::Repeat(Box::new(last))) == ExprV::Repeat(
                        Box::new(expr_view(last)),
                    ));
                    assert(exprs_view(acc@) == av.drop_last().push(
                        ExprV::Repeat(Box::new(av.last())),
                    ));
                }
                parse_term(ts, i + 1, acc)
            }
        },
        Token::LBracket => {
            match parse_expr(ts, i + 1, Vec::new()) {
                Err(m) => Err(m),
                Ok((e, j)) => {
                    let close = if j < ts.len() {
                        Some(&ts[j])
                    } else {
                        None
                    };
                    proof {
                        if j < ts@.len() {
                            assert(tv[j as int] == ts@[j as int]@);
                        }
                    }
                    match expect_token(&Token::RBracket, close) {
                        Err(m) => Err(m),
                        Ok(_) => {
                            let mut acc = acc;
                            let ghost pv = acc@;
                            acc.push(Expr::Opt(Box::new(e)));
                            proof {
                                assert(acc@.drop_last() =~= pv);
                                assert(expr_view(Expr::Opt(Box::new(e))) == ExprV::Opt(
                                    Box::new(expr_view(e)),
                                ));
                                assert(exprs_view(acc@) == av.push(
                                    ExprV::Opt(Box::new(expr_view(e))),
                                ));
                                assert(next_pos(tv, i as int, j as int) == j + 1);
                            }
                            parse_term(ts, j + 1, acc)
                        },
                    }
                },
            }
        },
        Token::LBrace => {
            match parse_expr(ts, i + 1, Vec::new()) {
                Err(m) => Err(m),
                Ok((e, j)) => {
                    let close = if j < ts.len() {
                        Some(&ts[j])
                    } else {
                        None
                    };
                    proof {
                        if j < ts@.len() {
                            assert(tv[j as int] == ts@[j as int]@);
                        }
                    }
                    match expect_token(&Token::RBrace, close) {
                        Err(m) => Err(m),
                        Ok(_) => {
                            let mut acc = acc;
                            let ghost pv = acc@;
                            acc.push(e);
                            proof {
                                assert(acc@.drop_last() =~= pv);
                                assert(exprs_view(acc@) == av.push(expr_view(e)));
                                assert(next_pos(tv, i as int, j as int) == j + 1);
                            }
                            parse_term(ts, j + 1, acc)
                        },
                    }
                },
            }
        },
        _ => Ok((collapse_cat(acc), i)),
    }
}

fn parse_expr(ts: &Vec<Token>, i: usize, acc: Vec<Expr>) -> (r: Result<(Expr, usize), String>)
    requires
        i <= ts@.len(),
    ensures
        match r {
            Ok((e, j)) => spec_parse_expr(tokens_view(ts@), i as int, exprs_view(acc@)) == Ok::<
                _,
                Seq<char>,
            >((expr_view(e), j as int)) && i <= j <= ts@.len(),
            Err(m) => spec_parse_expr(tokens_view(ts@), i as int, exprs_view(acc@)) == Err::<
                (ExprV, int),
                _,
            >(m@),
        },
    decreases ts@.len() - i, 1int,
{
    let ghost tv = tokens_view(ts@);
    let ghost av = exprs_view(acc@);
    match parse_term(ts, i, Vec::new()) {
        Err(m) => Err(m),
        Ok((t, j)) => {
            let bar = j < ts.len() && matches!(&ts[j], Token::Bar);
            proof {
                if j < ts@.len() {
                    assert(tv[j as int] == ts@[j as int]@);
                }
            }
            let mut acc = acc;
            let ghost pv = acc@;
            acc.push(t);
            proof {
                assert(acc@.drop_last() =~= pv);
                assert(exprs_view(acc@) == av.push(expr_view(t)));
            }
            if bar {
                proof {
                    assert(next_pos(tv, i as int, j as int) == j + 1);
                }
                parse_expr(ts, j + 1, acc)
            } else {
                Ok((collapse_sel(acc), j))
            }
        },
    }
}

/// Parses the whole token sequence as one expression.  Every leftover token,
/// missing closer or stray `...` yields the descriptive message the grammar
/// owes for it.
pub fn parse(tokens: &Vec<Token>) -> (r: ParseResult<Expr>)
    ensures
        match r {
            Ok(e) => spec_parse(tokens_view(tokens@)) == Ok::<_, Seq<char>>(expr_view(e)),
            Err(m) => spec_parse(tokens_view(tokens@)) == Err::<ExprV, _>(m@),
        },
{
    let ghost tv = tokens_view(tokens@);
    match parse_expr(tokens, 0, Vec::new()) {
        Err(m) => Err(m),
        Ok((e, j)) => {
            if j < tokens.len() {
                proof {
                    assert(tv[j as int] == tokens@[j as int]@);
                }
                Err(unexpected_msg(&tokens[j]))
            } else {
                Ok(e)
            }
        },
    }
}

} // verus!
