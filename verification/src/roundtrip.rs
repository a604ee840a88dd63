//! The printer-parser round trip: the token stream that the pretty form of
//! a parsed tree spells, parsed again, yields the very same tree.

use vstd::prelude::*;
use crate::token::LexStep;
use crate::token::TokenV;
use crate::token::is_alphanumeric_char;
use crate::token::is_whitespace_char;
use crate::token::lex_next;
use crate::token::run_len;
use crate::token::spec_is_option_char;
use crate::token::spec_token_pretty;
use crate::token::tokenize_spec;
use crate::token::opt_prepend;
use crate::token::wf_token;
use crate::token::word_start_char;
use crate::ast::ExprV;
use crate::parser::spec_parse;
use crate::parser::spec_parse_expr;
use crate::parser::spec_parse_term;
use crate::parser::term_at;
use crate::parser::next_pos;
use crate::parser::cat_collapse;
use crate::parser::sel_collapse;

verus! {

/// What the Unicode tables say of the nine characters the grammar itself
/// uses: the space separates, and none of the marks is a letter, a digit
/// or whitespace.
pub open spec fn lexer_char_facts() -> bool {
    &&& is_whitespace_char(' ')
    &&& !is_alphanumeric_char(' ')
    &&& !is_whitespace_char('-')
    &&& !is_whitespace_char('[')
    &&& !is_alphanumeric_char('[')
    &&& !is_whitespace_char(']')
    &&& !is_alphanumeric_char(']')
    &&& !is_whitespace_char('{')
    &&& !is_alphanumeric_char('{')
    &&& !is_whitespace_char('}')
    &&& !is_alphanumeric_char('}')
    &&& !is_whitespace_char('|')
    &&& !is_alphanumeric_char('|')
    &&& !is_whitespace_char('.')
    &&& !is_alphanumeric_char('.')
}

/// A run of option characters swallows an all-option prefix whole.
proof fn lemma_run_len_concat(u: Seq<char>, v: Seq<char>)
    requires
        forall|k: int| 0 <= k < u.len() ==> spec_is_option_char(#[trigger] u[k]),
    ensures
        run_len(u + v) == u.len() + run_len(v),
    decreases u.len(),
{
    if u.len() == 0 {
        assert(u + v =~= v);
    } else {
        assert((u + v)[0] == u[0]);
        assert((u + v).drop_first() =~= u.drop_first() + v);
        assert forall|k: int|
            0 <= k < u.drop_first().len() implies spec_is_option_char(u.drop_first()[k]) by {
            assert(u.drop_first()[k] == u[k + 1]);
        }
        lemma_run_len_concat(u.drop_first(), v);
    }
}

/// The characters that may stand right behind a word or an option token in
/// a pretty-printed pattern.
pub open spec fn sep_char(c: char) -> bool {
    c == ' ' || c == ']' || c == '}' || c == '.'
}

pub open spec fn sep_first(rest: Seq<char>) -> bool {
    rest.len() == 0 || sep_char(rest[0])
}

/// A well-formed token's pretty form re-lexes to that very token, and
/// leaves exactly the rest behind; for a word or an option the rest must
/// begin with a separating character, so as not to lengthen the token.
proof fn lemma_lex_token(t: TokenV, rest: Seq<char>)
    requires
        lexer_char_facts(),
        wf_token(t),
        (t is Text || t is ShortOpt || t is LongOpt) ==> sep_first(rest),
    ensures
        lex_next(spec_token_pretty(t) + rest) == LexStep::Next(t, rest),
{
    let s = spec_token_pretty(t) + rest;
    assert(run_len(rest) == 0 || !(t is Text || t is ShortOpt || t is LongOpt)) by {
        if (t is Text || t is ShortOpt || t is LongOpt) && rest.len() > 0 {
            assert(sep_char(rest[0]));
            assert(!spec_is_option_char(rest[0]));
        }
    }
    match t {
        TokenV::Text(p) => {
            assert(s[0] == p[0]);
            assert(word_start_char(s[0]));
            assert(s.skip(1) =~= p.drop_first() + rest);
            assert forall|k: int|
                0 <= k < p.drop_first().len() implies spec_is_option_char(
                p.drop_first()[k],
            ) by {
                assert(p.drop_first()[k] == p[k + 1]);
            }
            lemma_run_len_concat(p.drop_first(), rest);
            let n = run_len(s.skip(1)) as int;
            assert(n == p.len() - 1);
            assert(s.take(1 + n) =~= p);
            assert(s.skip(1 + n) =~= rest);
        },
        TokenV::ShortOpt(p) => {
            assert(s[0] == '-');
            assert(!is_whitespace_char(s[0]));
            if p.len() > 0 {
                assert(s[1] == p[0]);
                assert(s[1] != '-');
            } else {
                if rest.len() > 0 {
                    assert(s[1] == rest[0]);
                    assert(s[1] != '-');
                } else {
                    assert(s.len() == 1);
                }
            }
            assert(!(s.len() >= 2 && s[1] == '-'));
            assert(s.skip(1) =~= p + rest);
            lemma_run_len_concat(p, rest);
            let n = run_len(s.skip(1)) as int;
            assert(n == p.len());
            assert(s.skip(1).take(n) =~= p);
            assert(s.skip(1 + n) =~= rest);
        },
        TokenV::LongOpt(p) => {
            assert(s[0] == '-');
            assert(s[1] == '-');
            assert(!is_whitespace_char(s[0]));
            assert(s.len() >= 2);
            assert(s.skip(2) =~= p + rest);
            lemma_run_len_concat(p, rest);
            let n = run_len(s.skip(2)) as int;
            assert(n == p.len());
            assert(s.skip(2).take(n) =~= p);
            assert(s.skip(2 + n) =~= rest);
        },
        TokenV::Dots => {
            assert(s[0] == '.' && s[1] == '.' && s[2] == '.');
            assert(!is_whitespace_char(s[0]));
            assert(s.len() >= 3);
            assert(s.skip(3) =~= rest);
        },
        _ => {
            assert(s[0] == spec_token_pretty(t)[0]);
            assert(!is_whitespace_char(s[0]));
            assert(s.drop_first() =~= rest);
        },
    }
}

/// Tokenizing a token's pretty form followed by anything else: the token
/// comes first, the rest is tokenized on its own.
proof fn lemma_tokenize_token(t: TokenV, rest: Seq<char>)
    requires
        lexer_char_facts(),
        wf_token(t),
        (t is Text || t is ShortOpt || t is LongOpt) ==> sep_first(rest),
    ensures
        tokenize_spec(spec_token_pretty(t) + rest) == opt_prepend(seq![t], tokenize_spec(rest)),
{
    lemma_lex_token(t, rest);
}

/// A tree the parser can hand out: leaves hold word or option tokens only,
/// a concatenation never has exactly one child, and an alternation has at
/// least two.
pub open spec fn parseable(e: ExprV) -> bool
    decreases e, 0int,
{
    match e {
        ExprV::Tok(t) => t is Text || t is ShortOpt || t is LongOpt,
        ExprV::Cat(xs) => xs.len() != 1 && parseable_all(xs),
        ExprV::Opt(x) => parseable(*x),
        ExprV::Repeat(x) => parseable(*x),
        ExprV::Select(xs) => xs.len() >= 2 && parseable_all(xs),
    }
}

/// Every tree of the list is parseable.
pub open spec fn parseable_all(s: Seq<ExprV>) -> bool
    decreases s, 1int,
{
    if s.len() == 0 {
        true
    } else {
        parseable(s.first()) && parseable_all(s.drop_first())
    }
}

proof fn lemma_parseable_all_pointwise(s: Seq<ExprV>)
    ensures
        parseable_all(s) <==> (forall|i: int| 0 <= i < s.len() ==> parseable(s[i])),
    decreases s,
{
    if s.len() > 0 {
        lemma_parseable_all_pointwise(s.drop_first());
        if parseable_all(s) {
            assert forall|i: int| 0 <= i < s.len() implies parseable(s[i]) by {
                if i > 0 {
                    assert(s.drop_first()[i - 1] == s[i]);
                }
            }
        }
        if forall|i: int| 0 <= i < s.len() ==> parseable(s[i]) {
            assert forall|i: int|
                0 <= i < s.drop_first().len() implies parseable(s.drop_first()[i]) by {
                assert(s.drop_first()[i] == s[i + 1]);
            }
        }
    }
}

/// The tokens that the pretty form of `e` spells, in order.
pub open spec fn emit(e: ExprV) -> Seq<TokenV>
    decreases e, 0int,
{
    match e {
        ExprV::Tok(t) => seq![t],
        ExprV::Cat(xs) => emit_cat(xs),
        ExprV::Opt(x) => seq![TokenV::LBracket] + emit(*x) + seq![TokenV::RBracket],
        ExprV::Repeat(x) => emit_tight(*x) + seq![TokenV::Dots],
        ExprV::Select(xs) => emit_sel(xs),
    }
}

/// The tokens of a child that must read as one factor: braces are put back
/// around a concatenation or an alternation.
pub open spec fn emit_tight(e: ExprV) -> Seq<TokenV>
    decreases e, 1int,
{
    match e {
        ExprV::Cat(_) => seq![TokenV::LBrace] + emit(e) + seq![TokenV::RBrace],
        ExprV::Select(_) => seq![TokenV::LBrace] + emit(e) + seq![TokenV::RBrace],
        _ => emit(e),
    }
}

/// The tokens of a concatenation's children, one factor after the other.
pub open spec fn emit_cat(s: Seq<ExprV>) -> Seq<TokenV>
    decreases s, 2int,
{
    if s.len() == 0 {
        Seq::empty()
    } else {
        emit_tight(s.first()) + emit_cat(s.drop_first())
    }
}

/// The tokens of an alternation's children, `|` between neighbours; each
/// alternative reads as one factor, braces included where it needs them.
pub open spec fn emit_sel(s: Seq<ExprV>) -> Seq<TokenV>
    decreases s, 2int,
{
    if s.len() == 0 {
        Seq::empty()
    } else if s.len() == 1 {
        emit_tight(s.first())
    } else {
        emit_tight(s.first()) + seq![TokenV::Bar] + emit_sel(s.drop_first())
    }
}

/// The word `w` stands in `ts` from position `i` on.
pub open spec fn spelled(ts: Seq<TokenV>, i: int, w: Seq<TokenV>) -> bool {
    0 <= i && i + w.len() <= ts.len() && ts.subrange(i, i + w.len()) == w
}

proof fn lemma_spelled_index(ts: Seq<TokenV>, i: int, w: Seq<TokenV>, k: int)
    requires
        spelled(ts, i, w),
        0 <= k < w.len(),
    ensures
        ts[i + k] == w[k],
{
    assert(ts.subrange(i, i + w.len())[k] == ts[i + k]);
}

proof fn lemma_spelled_split(ts: Seq<TokenV>, i: int, w1: Seq<TokenV>, w2: Seq<TokenV>)
    requires
        spelled(ts, i, w1 + w2),
    ensures
        spelled(ts, i, w1),
        spelled(ts, i + w1.len(), w2),
{
    assert forall|k: int|
        0 <= k < w1.len() implies ts.subrange(i, i + w1.len())[k] == w1[k] by {
        lemma_spelled_index(ts, i, w1 + w2, k);
        assert((w1 + w2)[k] == w1[k]);
    }
    assert(ts.subrange(i, i + w1.len()) =~= w1);
    assert forall|k: int|
        0 <= k < w2.len() implies ts.subrange(
        i + w1.len(),
        i + w1.len() + w2.len(),
    )[k] == w2[k] by {
        lemma_spelled_index(ts, i, w1 + w2, w1.len() + k);
        assert((w1 + w2)[w1.len() + k] == w2[k]);
    }
    assert(ts.subrange(i + w1.len(), i + w1.len() + w2.len()) =~= w2);
}

/// The token after a finished expression, as the emission leaves it: the
/// end of the input or a closer.
pub open spec fn expr_stopper(o: Option<TokenV>) -> bool {
    match o {
        None => true,
        Some(t) => t is RBracket || t is RBrace,
    }
}

/// The token after a finished term: a closer, a bar, or the end.
pub open spec fn term_stopper(o: Option<TokenV>) -> bool {
    expr_stopper(o) || o == Some(TokenV::Bar)
}

/// The alternatives an expression contributes at the top of a parse.
pub open spec fn alts_of(e: ExprV) -> Seq<ExprV> {
    match e {
        ExprV::Select(xs) => xs,
        _ => seq![e],
    }
}

proof fn lemma_collapse_alts(e: ExprV)
    requires
        parseable(e),
    ensures
        sel_collapse(Seq::<ExprV>::empty() + alts_of(e)) == e,
{
    match e {
        ExprV::Select(xs) => {
            assert(Seq::<ExprV>::empty() + xs =~= xs);
        },
        _ => {
            assert(Seq::<ExprV>::empty() + seq![e] =~= seq![e]);
            assert(sel_collapse(seq![e]) == e);
        },
    }
}

/// A factor emission is never empty.
proof fn lemma_emit_tight_pos(e: ExprV)
    ensures
        emit_tight(e).len() >= 1,
    decreases e,
{
    match e {
        ExprV::Repeat(x) => {
            lemma_emit_tight_pos(*x);
        },
        _ => {},
    }
}

/// Consuming one factor: where the tokens from `i` on spell the factor
/// `f`, the parse of a term continues behind them, with `f` appended to
/// what the term has gathered.
proof fn lemma_factor(ts: Seq<TokenV>, i: int, acc: Seq<ExprV>, f: ExprV)
    requires
        parseable(f),
        spelled(ts, i, emit_tight(f)),
    ensures
        spec_parse_term(ts, i, acc) == spec_parse_term(ts, i + emit_tight(f).len(), acc.push(f)),
    decreases emit_tight(f).len(), 0int,
{
    match f {
        ExprV::Tok(t) => {
            lemma_spelled_index(ts, i, emit_tight(f), 0);
            assert(ts[i] == t);
        },
        ExprV::Opt(x) => {
            let w1 = seq![TokenV::LBracket];
            let w2 = emit(*x);
            let w3 = seq![TokenV::RBracket];
            assert(emit_tight(f) =~= (w1 + w2) + w3);
            lemma_spelled_split(ts, i, w1 + w2, w3);
            lemma_spelled_split(ts, i, w1, w2);
            lemma_spelled_index(ts, i, w1, 0);
            let j = i + 1 + w2.len();
            lemma_spelled_index(ts, j, w3, 0);
            assert(term_at(ts, j) == Some(TokenV::RBracket));
            lemma_expr(ts, i + 1, Seq::empty(), *x);
            lemma_collapse_alts(*x);
            assert(spec_parse_expr(ts, i + 1, Seq::empty()) == Ok::<_, Seq<char>>((*x, j)));
            assert(next_pos(ts, i, j) == j + 1);
            assert(ExprV::Opt(Box::new(*x)) == f);
            assert(spec_parse_term(ts, i, acc) == spec_parse_term(ts, j + 1, acc.push(f)));
        },
        ExprV::Repeat(x) => {
            let w1 = emit_tight(*x);
            let w2 = seq![TokenV::Dots];
            assert(emit_tight(f) =~= w1 + w2);
            lemma_spelled_split(ts, i, w1, w2);
            lemma_factor(ts, i, acc, *x);
            let j = i + w1.len();
            lemma_spelled_index(ts, j, w2, 0);
            assert(ts[j] == TokenV::Dots);
            assert(acc.push(*x).len() > 0);
            assert(acc.push(*x).drop_last() =~= acc);
            assert(acc.push(*x).last() == *x);
            assert(ExprV::Repeat(Box::new(*x)) == f);
            assert(spec_parse_term(ts, j, acc.push(*x)) == spec_parse_term(
                ts,
                j + 1,
                acc.push(f),
            ));
        },
        ExprV::Cat(_) => {
            let w1 = seq![TokenV::LBrace];
            let w2 = emit(f);
            let w3 = seq![TokenV::RBrace];
            assert(emit_tight(f) =~= (w1 + w2) + w3);
            lemma_spelled_split(ts, i, w1 + w2, w3);
            lemma_spelled_split(ts, i, w1, w2);
            lemma_spelled_index(ts, i, w1, 0);
            let j = i + 1 + w2.len();
            lemma_spelled_index(ts, j, w3, 0);
            assert(term_at(ts, j) == Some(TokenV::RBrace));
            lemma_expr(ts, i + 1, Seq::empty(), f);
            lemma_collapse_alts(f);
            assert(spec_parse_expr(ts, i + 1, Seq::empty()) == Ok::<_, Seq<char>>((f, j)));
            assert(next_pos(ts, i, j) == j + 1);
            assert(spec_parse_term(ts, i, acc) == spec_parse_term(ts, j + 1, acc.push(f)));
        },
        ExprV::Select(_) => {
            let w1 = seq![TokenV::LBrace];
            let w2 = emit(f);
            let w3 = seq![TokenV::RBrace];
            assert(emit_tight(f) =~= (w1 + w2) + w3);
            lemma_spelled_split(ts, i, w1 + w2, w3);
            lemma_spelled_split(ts, i, w1, w2);
            lemma_spelled_index(ts, i, w1, 0);
            let j = i + 1 + w2.len();
            lemma_spelled_index(ts, j, w3, 0);
            assert(term_at(ts, j) == Some(TokenV::RBrace));
            lemma_expr(ts, i + 1, Seq::empty(), f);
            lemma_collapse_alts(f);
            assert(spec_parse_expr(ts, i + 1, Seq::empty()) == Ok::<_, Seq<char>>((f, j)));
            assert(next_pos(ts, i, j) == j + 1);
            assert(spec_parse_term(ts, i, acc) == spec_parse_term(ts, j + 1, acc.push(f)));
        },
    }
}

/// Consuming a run of factors, left to right.
proof fn lemma_factors(ts: Seq<TokenV>, i: int, acc: Seq<ExprV>, fs: Seq<ExprV>)
    requires
        parseable_all(fs),
        spelled(ts, i, emit_cat(fs)),
    ensures
        spec_parse_term(ts, i, acc) == spec_parse_term(ts, i + emit_cat(fs).len(), acc + fs),
    decreases emit_cat(fs).len(), 1int,
{
    if fs.len() == 0 {
        assert(acc + fs =~= acc);
    } else {
        let f = fs.first();
        let w1 = emit_tight(f);
        let w2 = emit_cat(fs.drop_first());
        assert(emit_cat(fs) == w1 + w2);
        lemma_spelled_split(ts, i, w1, w2);
        lemma_factor(ts, i, acc, f);
        lemma_emit_tight_pos(f);
        lemma_factors(ts, i + w1.len(), acc.push(f), fs.drop_first());
        assert(acc.push(f) + fs.drop_first() =~= acc + fs);
    }
}

/// One whole term, spelled without outer braces and ended by a token no
/// term can swallow, parses to the tree it spells.
proof fn lemma_term(ts: Seq<TokenV>, i: int, t: ExprV)
    requires
        parseable(t),
        !(t is Select),
        spelled(ts, i, emit(t)),
        term_stopper(term_at(ts, i + emit(t).len())),
    ensures
        spec_parse_term(ts, i, Seq::empty()) == Ok::<_, Seq<char>>((t, i + emit(t).len())),
    decreases emit(t).len(), 2int,
{
    let j = i + emit(t).len();
    match t {
        ExprV::Cat(xs) => {
            assert(emit(t) == emit_cat(xs));
            lemma_factors(ts, i, Seq::empty(), xs);
            assert(Seq::<ExprV>::empty() + xs =~= xs);
            assert(spec_parse_term(ts, i, Seq::empty()) == spec_parse_term(ts, j, xs));
            assert(spec_parse_term(ts, j, xs) == Ok::<_, Seq<char>>((cat_collapse(xs), j)));
            assert(cat_collapse(xs) == t);
        },
        _ => {
            assert(emit(t) == emit_tight(t));
            lemma_factor(ts, i, Seq::empty(), t);
            assert(spec_parse_term(ts, i, Seq::empty()) == spec_parse_term(
                ts,
                j,
                Seq::<ExprV>::empty().push(t),
            ));
            assert(spec_parse_term(ts, j, Seq::<ExprV>::empty().push(t)) == Ok::<_, Seq<char>>(
                (cat_collapse(Seq::<ExprV>::empty().push(t)), j),
            ));
            assert(Seq::<ExprV>::empty().push(t).len() == 1);
            assert(cat_collapse(Seq::<ExprV>::empty().push(t)) == t);
        },
    }
}

/// One alternative, spelled as a factor and ended by a token no term can
/// swallow, parses to the tree it spells.
proof fn lemma_alt(ts: Seq<TokenV>, i: int, t: ExprV)
    requires
        parseable(t),
        spelled(ts, i, emit_tight(t)),
        term_stopper(term_at(ts, i + emit_tight(t).len())),
    ensures
        spec_parse_term(ts, i, Seq::empty()) == Ok::<_, Seq<char>>((t, i + emit_tight(t).len())),
    decreases emit_tight(t).len(), 3int,
{
    let j = i + emit_tight(t).len();
    match t {
        ExprV::Cat(_) | ExprV::Select(_) => {
            lemma_factor(ts, i, Seq::empty(), t);
            assert(spec_parse_term(ts, i, Seq::empty()) == spec_parse_term(
                ts,
                j,
                Seq::<ExprV>::empty().push(t),
            ));
            assert(spec_parse_term(ts, j, Seq::<ExprV>::empty().push(t)) == Ok::<_, Seq<char>>(
                (cat_collapse(Seq::<ExprV>::empty().push(t)), j),
            ));
            assert(Seq::<ExprV>::empty().push(t).len() == 1);
            assert(cat_collapse(Seq::<ExprV>::empty().push(t)) == t);
        },
        _ => {
            assert(emit_tight(t) == emit(t));
            lemma_term(ts, i, t);
        },
    }
}

/// A run of `|`-separated alternatives, ended by a closer or the end of
/// the input, parses to those alternatives joined onto what came before.
proof fn lemma_alts(ts: Seq<TokenV>, i: int, acc: Seq<ExprV>, alts: Seq<ExprV>)
    requires
        alts.len() >= 1,
        parseable_all(alts),
        spelled(ts, i, emit_sel(alts)),
        expr_stopper(term_at(ts, i + emit_sel(alts).len())),
    ensures
        spec_parse_expr(ts, i, acc) == Ok::<_, Seq<char>>(
            (sel_collapse(acc + alts), i + emit_sel(alts).len()),
        ),
    decreases emit_sel(alts).len(), 4int,
{
    let j = i + emit_sel(alts).len();
    if alts.len() == 1 {
        assert(emit_sel(alts) == emit_tight(alts.first()));
        lemma_alt(ts, i, alts.first());
        assert(!(term_at(ts, j) == Some(TokenV::Bar)));
        assert(acc.push(alts.first()) =~= acc + alts);
    } else {
        let a = alts.first();
        let w1 = emit_tight(a);
        let wb = seq![TokenV::Bar];
        let w2 = emit_sel(alts.drop_first());
        assert(emit_sel(alts) == (w1 + wb) + w2);
        lemma_spelled_split(ts, i, w1 + wb, w2);
        lemma_spelled_split(ts, i, w1, wb);
        lemma_spelled_index(ts, i + w1.len(), wb, 0);
        assert(term_at(ts, i + w1.len()) == Some(TokenV::Bar));
        lemma_alt(ts, i, a);
        let jb = i + w1.len();
        assert(0 <= i < ts.len());
        assert(next_pos(ts, i, jb) == jb + 1);
        lemma_alts(ts, jb + 1, acc.push(a), alts.drop_first());
        assert(acc.push(a) + alts.drop_first() =~= acc + alts);
    }
}

/// One whole expression, ended by a closer or the end of the input.
proof fn lemma_expr(ts: Seq<TokenV>, i: int, acc: Seq<ExprV>, e: ExprV)
    requires
        parseable(e),
        spelled(ts, i, emit(e)),
        expr_stopper(term_at(ts, i + emit(e).len())),
    ensures
        spec_parse_expr(ts, i, acc) == Ok::<_, Seq<char>>(
            (sel_collapse(acc + alts_of(e)), i + emit(e).len()),
        ),
    decreases emit(e).len(), 5int,
{
    match e {
        ExprV::Select(xs) => {
            assert(emit(e) == emit_sel(xs));
            lemma_alts(ts, i, acc, xs);
        },
        _ => {
            let j = i + emit(e).len();
            lemma_term(ts, i, e);
            assert(!(term_at(ts, j) == Some(TokenV::Bar)));
            assert(acc.push(e) =~= acc + alts_of(e));
        },
    }
}

proof fn lemma_parseable_all_push(s: Seq<ExprV>, x: ExprV)
    requires
        parseable_all(s),
        parseable(x),
    ensures
        parseable_all(s.push(x)),
{
    lemma_parseable_all_pointwise(s);
    lemma_parseable_all_pointwise(s.push(x));
    assert forall|i: int| 0 <= i < s.push(x).len() implies parseable(s.push(x)[i]) by {
        if i < s.len() {
            assert(s.push(x)[i] == s[i]);
        } else {
            assert(s.push(x)[i] == x);
        }
    }
}

proof fn lemma_cat_collapse_parseable(v: Seq<ExprV>)
    requires
        parseable_all(v),
    ensures
        parseable(cat_collapse(v)),
{
    lemma_parseable_all_pointwise(v);
    if v.len() == 1 {
        assert(parseable(v[0]));
    } else {
        assert(parseable(ExprV::Cat(v)));
    }
}

proof fn lemma_sel_collapse_parseable(v: Seq<ExprV>)
    requires
        parseable_all(v),
        v.len() >= 1,
    ensures
        parseable(sel_collapse(v)),
{
    lemma_parseable_all_pointwise(v);
    if v.len() == 1 {
        assert(parseable(v[0]));
    } else {
        assert(parseable(ExprV::Select(v)));
    }
}

/// Whatever a term parse hands out is a parseable tree, as long as what it
/// had already gathered was.
proof fn lemma_parse_term_parseable(ts: Seq<TokenV>, i: int, acc: Seq<ExprV>)
    requires
        parseable_all(acc),
    ensures
        spec_parse_term(ts, i, acc) matches Ok((e, j)) ==> parseable(e),
    decreases crate::parser::toks_left(ts, i), 0int,
{
    lemma_parseable_all_pointwise(acc);
    if !(0 <= i < ts.len()) {
        lemma_cat_collapse_parseable(acc);
    } else {
        match ts[i] {
            TokenV::Text(_) | TokenV::ShortOpt(_) | TokenV::LongOpt(_) => {
                lemma_parseable_all_push(acc, ExprV::Tok(ts[i]));
                lemma_parse_term_parseable(ts, i + 1, acc.push(ExprV::Tok(ts[i])));
            },
            TokenV::Dots => {
                if acc.len() > 0 {
                    let r = ExprV::Repeat(Box::new(acc.last()));
                    lemma_parseable_all_pointwise(acc.drop_last());
                    assert forall|k: int|
                        0 <= k < acc.drop_last().len() implies parseable(acc.drop_last()[k]) by {
                        assert(acc.drop_last()[k] == acc[k]);
                    }
                    lemma_parseable_all_push(acc.drop_last(), r);
                    lemma_parse_term_parseable(ts, i + 1, acc.drop_last().push(r));
                }
            },
            TokenV::LBracket => {
                lemma_parse_expr_parseable(ts, i + 1, Seq::empty());
                match spec_parse_expr(ts, i + 1, Seq::empty()) {
                    Err(_) => {},
                    Ok((e, j)) => {
                        if term_at(ts, j) == Some(TokenV::RBracket) {
                            let o = ExprV::Opt(Box::new(e));
                            lemma_parseable_all_push(acc, o);
                            lemma_parse_term_parseable(ts, next_pos(ts, i, j), acc.push(o));
                        }
                    },
                }
            },
            TokenV::LBrace => {
                lemma_parse_expr_parseable(ts, i + 1, Seq::empty());
                match spec_parse_expr(ts, i + 1, Seq::empty()) {
                    Err(_) => {},
                    Ok((e, j)) => {
                        if term_at(ts, j) == Some(TokenV::RBrace) {
                            lemma_parseable_all_push(acc, e);
                            lemma_parse_term_parseable(ts, next_pos(ts, i, j), acc.push(e));
                        }
                    },
                }
            },
            _ => {
                lemma_cat_collapse_parseable(acc);
            },
        }
    }
}

/// Whatever an expression parse hands out is a parseable tree.
proof fn lemma_parse_expr_parseable(ts: Seq<TokenV>, i: int, acc: Seq<ExprV>)
    requires
        parseable_all(acc),
    ensures
        spec_parse_expr(ts, i, acc) matches Ok((e, j)) ==> parseable(e),
    decreases crate::parser::toks_left(ts, i), 1int,
{
    assert(parseable_all(Seq::<ExprV>::empty()));
    lemma_parse_term_parseable(ts, i, Seq::empty());
    match spec_parse_term(ts, i, Seq::empty()) {
        Err(_) => {},
        Ok((t, j)) => {
            lemma_parseable_all_push(acc, t);
            if term_at(ts, j) == Some(TokenV::Bar) && 0 <= i < ts.len() {
                lemma_parse_expr_parseable(ts, next_pos(ts, i, j), acc.push(t));
            } else {
                lemma_sel_collapse_parseable(acc.push(t));
            }
        },
    }
}

/// The tokens that the pretty form of a parseable tree spells parse back
/// to that tree, with nothing left over.
pub proof fn lemma_parse_emit(e: ExprV)
    requires
        parseable(e),
    ensures
        spec_parse(emit(e)) == Ok::<_, Seq<char>>(e),
{
    let ts = emit(e);
    assert(ts.subrange(0, ts.len() as int) =~= ts);
    assert(spelled(ts, 0, emit(e)));
    assert(term_at(ts, ts.len() as int) == None::<TokenV>);
    lemma_expr(ts, 0, Seq::empty(), e);
    lemma_collapse_alts(e);
}

/// Every leaf of the tree holds a token as the tokenizer makes them.
pub open spec fn tokens_wf(e: ExprV) -> bool
    decreases e, 0int,
{
    match e {
        ExprV::Tok(t) => wf_token(t),
        ExprV::Cat(xs) => tokens_wf_all(xs),
        ExprV::Opt(x) => tokens_wf(*x),
        ExprV::Repeat(x) => tokens_wf(*x),
        ExprV::Select(xs) => tokens_wf_all(xs),
    }
}

pub open spec fn tokens_wf_all(s: Seq<ExprV>) -> bool
    decreases s, 1int,
{
    if s.len() == 0 {
        true
    } else {
        tokens_wf(s.first()) && tokens_wf_all(s.drop_first())
    }
}

proof fn lemma_tokens_wf_all_pointwise(s: Seq<ExprV>)
    ensures
        tokens_wf_all(s) <==> (forall|i: int| 0 <= i < s.len() ==> tokens_wf(s[i])),
    decreases s,
{
    if s.len() > 0 {
        lemma_tokens_wf_all_pointwise(s.drop_first());
        if tokens_wf_all(s) {
            assert forall|i: int| 0 <= i < s.len() implies tokens_wf(s[i]) by {
                if i > 0 {
                    assert(s.drop_first()[i - 1] == s[i]);
                }
            }
        }
        if forall|i: int| 0 <= i < s.len() ==> tokens_wf(s[i]) {
            assert forall|i: int|
                0 <= i < s.drop_first().len() implies tokens_wf(s.drop_first()[i]) by {
                assert(s.drop_first()[i] == s[i + 1]);
            }
        }
    }
}

proof fn lemma_tokens_wf_all_push(s: Seq<ExprV>, x: ExprV)
    requires
        tokens_wf_all(s),
        tokens_wf(x),
    ensures
        tokens_wf_all(s.push(x)),
{
    lemma_tokens_wf_all_pointwise(s);
    lemma_tokens_wf_all_pointwise(s.push(x));
    assert forall|i: int| 0 <= i < s.push(x).len() implies tokens_wf(s.push(x)[i]) by {
        if i < s.len() {
            assert(s.push(x)[i] == s[i]);
        } else {
            assert(s.push(x)[i] == x);
        }
    }
}

/// What a term parse gathers from well-formed tokens has well-formed
/// leaves throughout.
proof fn lemma_parse_term_wf(ts: Seq<TokenV>, i: int, acc: Seq<ExprV>)
    requires
        forall|k: int| 0 <= k < ts.len() ==> wf_token(#[trigger] ts[k]),
        tokens_wf_all(acc),
    ensures
        spec_parse_term(ts, i, acc) matches Ok((e, j)) ==> tokens_wf(e),
    decreases crate::parser::toks_left(ts, i), 0int,
{
    lemma_tokens_wf_all_pointwise(acc);
    if !(0 <= i < ts.len()) {
        if acc.len() != 1 {
            assert(tokens_wf(ExprV::Cat(acc)));
        }
    } else {
        match ts[i] {
            TokenV::Text(_) | TokenV::ShortOpt(_) | TokenV::LongOpt(_) => {
                lemma_tokens_wf_all_push(acc, ExprV::Tok(ts[i]));
                lemma_parse_term_wf(ts, i + 1, acc.push(ExprV::Tok(ts[i])));
            },
            TokenV::Dots => {
                if acc.len() > 0 {
                    let r = ExprV::Repeat(Box::new(acc.last()));
                    lemma_tokens_wf_all_pointwise(acc.drop_last());
                    assert forall|k: int|
                        0 <= k < acc.drop_last().len() implies tokens_wf(acc.drop_last()[k]) by {
                        assert(acc.drop_last()[k] == acc[k]);
                    }
                    lemma_tokens_wf_all_push(acc.drop_last(), r);
                    lemma_parse_term_wf(ts, i + 1, acc.drop_last().push(r));
                }
            },
            TokenV::LBracket => {
                lemma_parse_expr_wf(ts, i + 1, Seq::empty());
                match spec_parse_expr(ts, i + 1, Seq::empty()) {
                    Err(_) => {},
                    Ok((e, j)) => {
                        if term_at(ts, j) == Some(TokenV::RBracket) {
                            let o = ExprV::Opt(Box::new(e));
                            lemma_tokens_wf_all_push(acc, o);
                            lemma_parse_term_wf(ts, next_pos(ts, i, j), acc.push(o));
                        }
                    },
                }
            },
            TokenV::LBrace => {
                lemma_parse_expr_wf(ts, i + 1, Seq::empty());
                match spec_parse_expr(ts, i + 1, Seq::empty()) {
                    Err(_) => {},
                    Ok((e, j)) => {
                        if term_at(ts, j) == Some(TokenV::RBrace) {
                            lemma_tokens_wf_all_push(acc, e);
                            lemma_parse_term_wf(ts, next_pos(ts, i, j), acc.push(e));
                        }
                    },
                }
            },
            _ => {
                if acc.len() != 1 {
                    assert(tokens_wf(ExprV::Cat(acc)));
                }
            },
        }
    }
}

/// What an expression parse hands out from well-formed tokens has
/// well-formed leaves throughout.
proof fn lemma_parse_expr_wf(ts: Seq<TokenV>, i: int, acc: Seq<ExprV>)
    requires
        forall|k: int| 0 <= k < ts.len() ==> wf_token(#[trigger] ts[k]),
        tokens_wf_all(acc),
    ensures
        spec_parse_expr(ts, i, acc) matches Ok((e, j)) ==> tokens_wf(e),
    decreases crate::parser::toks_left(ts, i), 1int,
{
    assert(tokens_wf_all(Seq::<ExprV>::empty()));
    lemma_parse_term_wf(ts, i, Seq::empty());
    match spec_parse_term(ts, i, Seq::empty()) {
        Err(_) => {},
        Ok((t, j)) => {
            lemma_tokens_wf_all_push(acc, t);
            if term_at(ts, j) == Some(TokenV::Bar) && 0 <= i < ts.len() {
                lemma_parse_expr_wf(ts, next_pos(ts, i, j), acc.push(t));
            } else {
                lemma_tokens_wf_all_pointwise(acc.push(t));
                if acc.push(t).len() != 1 {
                    assert(tokens_wf(ExprV::Select(acc.push(t))));
                }
            }
        },
    }
}

proof fn lemma_opt_prepend_assoc(a: Seq<TokenV>, b: Seq<TokenV>, r: Option<Seq<TokenV>>)
    ensures
        opt_prepend(a + b, r) == opt_prepend(a, opt_prepend(b, r)),
{
    match r {
        Some(ts) => {
            assert((a + b) + ts =~= a + (b + ts));
        },
        None => {},
    }
}

proof fn lemma_opt_prepend_empty(r: Option<Seq<TokenV>>)
    ensures
        opt_prepend(Seq::empty(), r) == r,
{
    match r {
        Some(ts) => {
            assert(Seq::<TokenV>::empty() + ts =~= ts);
        },
        None => {},
    }
}

/// The space-joined rendering of two or more factors, read from the front.
proof fn lemma_pretty_cat_front(s: Seq<ExprV>)
    requires
        s.len() >= 2,
    ensures
        crate::ast::spec_pretty_cat(s) == crate::ast::spec_pretty_tight(s.first()) + seq![' ']
            + crate::ast::spec_pretty_cat(s.drop_first()),
    decreases s.len(),
{
    let dl = s.drop_last();
    let df = s.drop_first();
    if s.len() == 2 {
        assert(dl =~= seq![s[0]]);
        assert(df =~= seq![s[1]]);
        assert(dl.last() == s.first());
        assert(df.last() == s.last());
        assert(crate::ast::spec_pretty_cat(s) =~= crate::ast::spec_pretty_tight(s.first())
            + seq![' '] + crate::ast::spec_pretty_cat(df));
    } else {
        lemma_pretty_cat_front(dl);
        assert(dl.first() == s.first());
        assert(dl.drop_first() =~= df.drop_last());
        assert(df.last() == s.last());
        assert(df.len() >= 2);
        assert(crate::ast::spec_pretty_cat(df) == crate::ast::spec_pretty_cat(df.drop_last())
            + seq![' '] + crate::ast::spec_pretty_tight(df.last()));
        assert(crate::ast::spec_pretty_cat(s) == crate::ast::spec_pretty_cat(dl) + seq![' ']
            + crate::ast::spec_pretty_tight(s.last()));
        assert(crate::ast::spec_pretty_cat(s) =~= (crate::ast::spec_pretty_tight(s.first())
            + seq![' '] + crate::ast::spec_pretty_cat(df.drop_last())) + seq![' ']
            + crate::ast::spec_pretty_tight(df.last()));
        assert((crate::ast::spec_pretty_tight(s.first()) + seq![' ']
            + crate::ast::spec_pretty_cat(df.drop_last())) + seq![' ']
            + crate::ast::spec_pretty_tight(df.last()) =~= crate::ast::spec_pretty_tight(s.first())
            + seq![' '] + (crate::ast::spec_pretty_cat(df.drop_last()) + seq![' ']
            + crate::ast::spec_pretty_tight(df.last())));
    }
}

/// The ` | `-joined rendering of two or more alternatives, from the front.
proof fn lemma_pretty_sel_front(s: Seq<ExprV>)
    requires
        s.len() >= 2,
    ensures
        crate::ast::spec_pretty_sel(s) == crate::ast::spec_pretty_tight(s.first()) + seq![
            ' ',
            '|',
            ' ',
        ] + crate::ast::spec_pretty_sel(s.drop_first()),
    decreases s.len(),
{
    let dl = s.drop_last();
    let df = s.drop_first();
    if s.len() == 2 {
        assert(dl =~= seq![s[0]]);
        assert(df =~= seq![s[1]]);
        assert(dl.last() == s.first());
        assert(df.last() == s.last());
        assert(crate::ast::spec_pretty_sel(s) =~= crate::ast::spec_pretty_tight(s.first()) + seq![
            ' ',
            '|',
            ' ',
        ] + crate::ast::spec_pretty_sel(df));
    } else {
        lemma_pretty_sel_front(dl);
        assert(dl.first() == s.first());
        assert(dl.drop_first() =~= df.drop_last());
        assert(df.last() == s.last());
        assert(df.len() >= 2);
        assert(crate::ast::spec_pretty_sel(df) == crate::ast::spec_pretty_sel(df.drop_last())
            + seq![' ', '|', ' '] + crate::ast::spec_pretty_tight(df.last()));
        assert(crate::ast::spec_pretty_sel(s) == crate::ast::spec_pretty_sel(dl) + seq![
            ' ',
            '|',
            ' ',
        ] + crate::ast::spec_pretty_tight(s.last()));
        assert(crate::ast::spec_pretty_sel(s) =~= (crate::ast::spec_pretty_tight(s.first()) + seq![
            ' ',
            '|',
            ' ',
        ] + crate::ast::spec_pretty_sel(df.drop_last())) + seq![' ', '|', ' ']
            + crate::ast::spec_pretty_tight(df.last()));
        assert((crate::ast::spec_pretty_tight(s.first()) + seq![' ', '|', ' ']
            + crate::ast::spec_pretty_sel(df.drop_last())) + seq![' ', '|', ' ']
            + crate::ast::spec_pretty_tight(df.last()) =~= crate::ast::spec_pretty_tight(s.first())
            + seq![' ', '|', ' '] + (crate::ast::spec_pretty_sel(df.drop_last()) + seq![
            ' ',
            '|',
            ' ',
        ] + crate::ast::spec_pretty_tight(df.last())));
    }
}

/// Tokenizing the pretty form of a tree, with anything separating behind
/// it: the tree's own tokens come first, the rest is tokenized on its own.
proof fn lemma_pretty_tokens(e: ExprV, rest: Seq<char>)
    requires
        lexer_char_facts(),
        tokens_wf(e),
        sep_first(rest),
    ensures
        tokenize_spec(crate::ast::spec_pretty(e) + rest) == opt_prepend(
            emit(e),
            tokenize_spec(rest),
        ),
    decreases e, 0int,
{
    match e {
        ExprV::Tok(t) => {
            assert(crate::ast::spec_pretty(e) == spec_token_pretty(t));
            lemma_tokenize_token(t, rest);
            assert(emit(e) =~= seq![t]);
        },
        ExprV::Cat(xs) => {
            lemma_pretty_cat_tokens(xs, rest);
        },
        ExprV::Opt(x) => {
            let tail2 = seq![']'] + rest;
            let tail1 = crate::ast::spec_pretty(*x) + tail2;
            assert(crate::ast::spec_pretty(e) + rest =~= seq!['['] + tail1);
            assert(spec_token_pretty(TokenV::LBracket) =~= seq!['[']);
            assert(spec_token_pretty(TokenV::LBracket) + tail1 =~= seq!['['] + tail1);
            lemma_tokenize_token(TokenV::LBracket, tail1);
            lemma_pretty_tokens(*x, tail2);
            assert(spec_token_pretty(TokenV::RBracket) =~= seq![']']);
            assert(spec_token_pretty(TokenV::RBracket) + rest =~= tail2);
            lemma_tokenize_token(TokenV::RBracket, rest);
            lemma_opt_prepend_assoc(emit(*x), seq![TokenV::RBracket], tokenize_spec(rest));
            lemma_opt_prepend_assoc(
                seq![TokenV::LBracket],
                emit(*x) + seq![TokenV::RBracket],
                tokenize_spec(rest),
            );
            assert(emit(e) =~= seq![TokenV::LBracket] + (emit(*x) + seq![TokenV::RBracket]));
        },
        ExprV::Repeat(x) => {
            let tail = seq!['.', '.', '.'] + rest;
            assert(crate::ast::spec_pretty(e) + rest =~= crate::ast::spec_pretty_tight(*x) + tail);
            lemma_pretty_tight_tokens(*x, tail);
            assert(spec_token_pretty(TokenV::Dots) =~= seq!['.', '.', '.']);
            assert(spec_token_pretty(TokenV::Dots) + rest =~= tail);
            lemma_tokenize_token(TokenV::Dots, rest);
            lemma_opt_prepend_assoc(emit_tight(*x), seq![TokenV::Dots], tokenize_spec(rest));
            assert(emit(e) == emit_tight(*x) + seq![TokenV::Dots]);
        },
        ExprV::Select(xs) => {
            lemma_pretty_sel_tokens(xs, rest);
        },
    }
}

/// The same, for a child rendered as one factor.
proof fn lemma_pretty_tight_tokens(e: ExprV, rest: Seq<char>)
    requires
        lexer_char_facts(),
        tokens_wf(e),
        sep_first(rest),
    ensures
        tokenize_spec(crate::ast::spec_pretty_tight(e) + rest) == opt_prepend(
            emit_tight(e),
            tokenize_spec(rest),
        ),
    decreases e, 1int,
{
    if e is Cat || e is Select {
        let tail2 = seq!['}'] + rest;
        let tail1 = crate::ast::spec_pretty(e) + tail2;
        assert(crate::ast::spec_pretty_tight(e) + rest =~= seq!['{'] + tail1);
        assert(spec_token_pretty(TokenV::LBrace) =~= seq!['{']);
        assert(spec_token_pretty(TokenV::LBrace) + tail1 =~= seq!['{'] + tail1);
        lemma_tokenize_token(TokenV::LBrace, tail1);
        lemma_pretty_tokens(e, tail2);
        assert(spec_token_pretty(TokenV::RBrace) =~= seq!['}']);
        assert(spec_token_pretty(TokenV::RBrace) + rest =~= tail2);
        lemma_tokenize_token(TokenV::RBrace, rest);
        lemma_opt_prepend_assoc(emit(e), seq![TokenV::RBrace], tokenize_spec(rest));
        lemma_opt_prepend_assoc(
            seq![TokenV::LBrace],
            emit(e) + seq![TokenV::RBrace],
            tokenize_spec(rest),
        );
        assert(emit_tight(e) =~= seq![TokenV::LBrace] + (emit(e) + seq![TokenV::RBrace]));
    } else {
        lemma_pretty_tokens(e, rest);
        assert(crate::ast::spec_pretty_tight(e) == crate::ast::spec_pretty(e));
        assert(emit_tight(e) == emit(e));
    }
}

/// The same, for the space-joined children of a concatenation.
proof fn lemma_pretty_cat_tokens(s: Seq<ExprV>, rest: Seq<char>)
    requires
        lexer_char_facts(),
        tokens_wf_all(s),
        sep_first(rest),
    ensures
        tokenize_spec(crate::ast::spec_pretty_cat(s) + rest) == opt_prepend(
            emit_cat(s),
            tokenize_spec(rest),
        ),
    decreases s, 2int,
{
    if s.len() == 0 {
        assert(crate::ast::spec_pretty_cat(s) + rest =~= rest);
        lemma_opt_prepend_empty(tokenize_spec(rest));
    } else if s.len() == 1 {
        assert(s.last() == s.first());
        lemma_pretty_tight_tokens(s.first(), rest);
        assert(crate::ast::spec_pretty_cat(s) == crate::ast::spec_pretty_tight(s.first()));
        assert(s.drop_first() =~= Seq::<ExprV>::empty());
        assert(emit_cat(Seq::<ExprV>::empty()) =~= Seq::<TokenV>::empty());
        assert(emit_cat(s) =~= emit_tight(s.first()));
    } else {
        lemma_pretty_cat_front(s);
        let tail2 = crate::ast::spec_pretty_cat(s.drop_first()) + rest;
        let tail1 = seq![' '] + tail2;
        assert(crate::ast::spec_pretty_cat(s) + rest =~= crate::ast::spec_pretty_tight(s.first())
            + tail1);
        lemma_pretty_tight_tokens(s.first(), tail1);
        assert(!spec_is_option_char(' '));
        crate::laws::lemma_tokenize_whitespace(' ', tail2);
        lemma_pretty_cat_tokens(s.drop_first(), rest);
        lemma_opt_prepend_assoc(
            emit_tight(s.first()),
            emit_cat(s.drop_first()),
            tokenize_spec(rest),
        );
        assert(emit_cat(s) == emit_tight(s.first()) + emit_cat(s.drop_first()));
    }
}

/// The same, for the ` | `-joined children of an alternation.
proof fn lemma_pretty_sel_tokens(s: Seq<ExprV>, rest: Seq<char>)
    requires
        lexer_char_facts(),
        tokens_wf_all(s),
        sep_first(rest),
    ensures
        tokenize_spec(crate::ast::spec_pretty_sel(s) + rest) == opt_prepend(
            emit_sel(s),
            tokenize_spec(rest),
        ),
    decreases s, 2int,
{
    if s.len() == 0 {
        assert(crate::ast::spec_pretty_sel(s) + rest =~= rest);
        lemma_opt_prepend_empty(tokenize_spec(rest));
    } else if s.len() == 1 {
        assert(s.last() == s.first());
        lemma_pretty_tight_tokens(s.first(), rest);
        assert(crate::ast::spec_pretty_sel(s) == crate::ast::spec_pretty_tight(s.first()));
        assert(emit_sel(s) == emit_tight(s.first()));
    } else {
        lemma_pretty_sel_front(s);
        let tail4 = crate::ast::spec_pretty_sel(s.drop_first()) + rest;
        let tail3 = seq![' '] + tail4;
        let tail2 = seq!['|'] + tail3;
        let tail1 = seq![' '] + tail2;
        assert(crate::ast::spec_pretty_sel(s) + rest =~= crate::ast::spec_pretty_tight(s.first())
            + tail1);
        lemma_pretty_tight_tokens(s.first(), tail1);
        assert(!spec_is_option_char(' '));
        crate::laws::lemma_tokenize_whitespace(' ', tail2);
        assert(spec_token_pretty(TokenV::Bar) =~= seq!['|']);
        assert(spec_token_pretty(TokenV::Bar) + tail3 =~= tail2);
        lemma_tokenize_token(TokenV::Bar, tail3);
        crate::laws::lemma_tokenize_whitespace(' ', tail4);
        lemma_pretty_sel_tokens(s.drop_first(), rest);
        lemma_opt_prepend_assoc(
            seq![TokenV::Bar],
            emit_sel(s.drop_first()),
            tokenize_spec(rest),
        );
        lemma_opt_prepend_assoc(
            emit_tight(s.first()),
            seq![TokenV::Bar] + emit_sel(s.drop_first()),
            tokenize_spec(rest),
        );
        assert(emit_sel(s) =~= emit_tight(s.first()) + (seq![TokenV::Bar] + emit_sel(
            s.drop_first(),
        )));
    }
}

/// Printing round-trips through the parser: a tree the parser accepted,
/// printed and re-parsed at the token level, comes back unchanged.
pub proof fn lemma_parse_roundtrip(ts: Seq<TokenV>, e: ExprV)
    requires
        spec_parse(ts) == Ok::<_, Seq<char>>(e),
    ensures
        parseable(e),
        spec_parse(emit(e)) == Ok::<_, Seq<char>>(e),
{
    assert(parseable_all(Seq::<ExprV>::empty()));
    lemma_parse_expr_parseable(ts, 0, Seq::empty());
    lemma_parse_emit(e);
}

/// The full round trip: a grammar string that tokenizes and parses, when
/// its tree is pretty-printed, tokenizes back to exactly the tokens that
/// tree spells, and those parse back to the very same tree.  The nine
/// character-class facts the tokenizer's abstract Unicode classes must
/// satisfy are listed in [`lexer_char_facts`].
pub proof fn lemma_pretty_roundtrip(s: Seq<char>, ts: Seq<TokenV>, e: ExprV)
    requires
        lexer_char_facts(),
        tokenize_spec(s) == Some(ts),
        spec_parse(ts) == Ok::<_, Seq<char>>(e),
    ensures
        tokenize_spec(crate::ast::spec_pretty(e)) == Some(emit(e)),
        spec_parse(emit(e)) == Ok::<_, Seq<char>>(e),
{
    crate::token::lemma_tokenize_wf(s);
    match tokenize_spec(s) {
        Some(v) => {
            assert(v == ts);
            assert forall|k: int| 0 <= k < ts.len() implies wf_token(#[trigger] ts[k]) by {
                assert(wf_token(v[k]));
            }
        },
        None => {
            assert(false);
        },
    }
    assert(tokens_wf_all(Seq::<ExprV>::empty()));
    lemma_parse_expr_wf(ts, 0, Seq::empty());
    assert(tokens_wf(e));
    lemma_parse_roundtrip(ts, e);
    assert(sep_first(Seq::<char>::empty()));
    lemma_pretty_tokens(e, Seq::empty());
    assert(crate::ast::spec_pretty(e) + Seq::<char>::empty() =~= crate::ast::spec_pretty(e));
    assert(lex_next(Seq::<char>::empty()) == LexStep::Done);
    assert(tokenize_spec(Seq::<char>::empty()) == Some(Seq::<TokenV>::empty()));
    assert(emit(e) + Seq::<TokenV>::empty() =~= emit(e));
}

} // verus!
