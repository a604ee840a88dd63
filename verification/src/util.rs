//! Reading a grammar tree straight from text: tokenize, parse, and mark
//! any failure as a parse error.

use vstd::prelude::*;
use crate::token::tokenize;
use crate::token::tokenize_spec;
use crate::token::lex_fail_msg;
use crate::ast::Expr;
use crate::ast::ExprV;
use crate::ast::expr_view;
use crate::parser::parse;
use crate::parser::spec_parse;

verus! {

/// The outcome of reading a tree from text.
pub type ReadResult = Result<Expr, String>;

/// The tree denoted by the characters `s`, or the failure the tokenizer or
/// the parser reports for them, under a `Parse error: ` heading.
pub open spec fn spec_read_ast(s: Seq<char>) -> Result<ExprV, Seq<char>> {
    match tokenize_spec(s) {
        None => Err("Parse error: "@ + lex_fail_msg()),
        Some(ts) => match spec_parse(ts) {
            Ok(e) => Ok(e),
            Err(m) => Err("Parse error: "@ + m),
        },
    }
}

fn parse_error(m: String) -> (r: String)
    ensures
        r@ == "Parse error: "@ + m@,
{
    let mut r = String::new();
    r.append("Parse error: ");
    r.append(m.as_str());
    r
}

/// Reads one grammar tree from `input`.
pub fn read_ast(input: &str) -> (r: ReadResult)
    ensures
        match r {
            Ok(e) => spec_read_ast(input@) == Ok::<_, Seq<char>>(expr_view(e)),
            Err(m) => spec_read_ast(input@) == Err::<ExprV, _>(m@),
        },
{
    match tokenize(input) {
        Err(m) => Err(parse_error(m)),
        Ok(ts) => match parse(&ts) {
            Ok(e) => Ok(e),
            Err(m) => Err(parse_error(m)),
        },
    }
}

} // verus!
