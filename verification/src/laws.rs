//! Laws the library keeps: whitespace only separates tokens, and
//! normalization is idempotent — a canonical tree normalizes to itself.

use vstd::prelude::*;
use crate::ast::ExprV;
use crate::ast::spec_normalize;
use crate::ast::norm_cat_items;
use crate::ast::norm_sel_items;
use crate::ast::norm_sel_has_opt;
use crate::token::LexStep;
use crate::token::is_whitespace_char;
use crate::token::lex_next;
use crate::token::lemma_lex_next_rest;
use crate::token::run_len;
use crate::token::spec_is_option_char;
use crate::token::tokenize_spec;

verus! {

/// A run of option characters is blind to what stands after a non-option
/// character at its end.
proof fn lemma_run_len_snoc(u: Seq<char>, c: char)
    requires
        !spec_is_option_char(c),
    ensures
        run_len(u + seq![c]) == run_len(u),
    decreases u.len(),
{
    if u.len() > 0 && spec_is_option_char(u[0]) {
        assert((u + seq![c]).drop_first() =~= u.drop_first() + seq![c]);
        lemma_run_len_snoc(u.drop_first(), c);
    } else if u.len() == 0 {
        assert(!spec_is_option_char((u + seq![c])[0]));
    }
}

/// One trailing character that separates tokens leaves the next token as it
/// was, and only trails along behind the rest of the input.
proof fn lemma_lex_next_snoc(s: Seq<char>, c: char)
    requires
        is_whitespace_char(c),
        !spec_is_option_char(c),
        c != '.',
    ensures
        match lex_next(s) {
            LexStep::Done => lex_next(s + seq![c]) == LexStep::Done,
            LexStep::Fail => lex_next(s + seq![c]) == LexStep::Fail,
            LexStep::Next(t, rest) => lex_next(s + seq![c]) == LexStep::Next(t, rest + seq![c]),
        },
    decreases s.len(),
{
    let sc = s + seq![c];
    if s.len() == 0 {
        assert(sc =~= seq![c]);
        assert(sc.drop_first() =~= Seq::<char>::empty());
    } else {
        assert(sc[0] == s[0]);
        if is_whitespace_char(s[0]) {
            assert(sc.drop_first() =~= s.drop_first() + seq![c]);
            lemma_lex_next_snoc(s.drop_first(), c);
            assert(lex_next(s) == lex_next(s.drop_first()));
            assert(lex_next(sc) == lex_next(sc.drop_first()));
        } else if s[0] == '-' {
            if s.len() >= 2 && s[1] == '-' {
                assert(sc.skip(2) =~= s.skip(2) + seq![c]);
                lemma_run_len_snoc(s.skip(2), c);
                let n = run_len(s.skip(2)) as int;
                lemma_run_len_within(s, 2, n);
                assert(sc.skip(2).take(n) =~= s.skip(2).take(n));
                assert(sc.skip(2 + n) =~= s.skip(2 + n) + seq![c]);
                assert(sc.len() >= 2 && sc[1] == '-');
                assert(lex_next(sc) == LexStep::Next(
                    crate::token::TokenV::LongOpt(sc.skip(2).take(run_len(sc.skip(2)) as int)),
                    sc.skip(2 + run_len(sc.skip(2)) as int),
                ));
            } else {
                if s.len() >= 2 {
                    assert(sc[1] == s[1]);
                } else {
                    assert(sc.len() == 2 && sc[1] == c);
                }
                assert(sc.skip(1) =~= s.skip(1) + seq![c]);
                lemma_run_len_snoc(s.skip(1), c);
                let n = run_len(s.skip(1)) as int;
                lemma_run_len_within(s, 1, n);
                assert(sc.skip(1).take(n) =~= s.skip(1).take(n));
                assert(sc.skip(1 + n) =~= s.skip(1 + n) + seq![c]);
                assert(!(sc.len() >= 2 && sc[1] == '-'));
                assert(lex_next(sc) == LexStep::Next(
                    crate::token::TokenV::ShortOpt(sc.skip(1).take(run_len(sc.skip(1)) as int)),
                    sc.skip(1 + run_len(sc.skip(1)) as int),
                ));
            }
        } else if s[0] == '[' || s[0] == ']' || s[0] == '{' || s[0] == '}' || s[0] == '|' {
            assert(sc.drop_first() =~= s.drop_first() + seq![c]);
        } else if s[0] == '.' {
            if s.len() >= 3 && s[1] == '.' && s[2] == '.' {
                assert(sc[1] == s[1] && sc[2] == s[2]);
                assert(sc.skip(3) =~= s.skip(3) + seq![c]);
            } else {
                if s.len() >= 3 {
                    assert(sc[1] == s[1] && sc[2] == s[2]);
                } else if s.len() == 2 {
                    assert(sc[1] == s[1] && sc[2] == c);
                } else {
                    assert(sc[1] == c);
                }
            }
        } else {
            assert(sc.skip(1) =~= s.skip(1) + seq![c]);
            lemma_run_len_snoc(s.skip(1), c);
            let n = run_len(s.skip(1)) as int;
            lemma_run_len_within(s, 1, n);
            assert(sc.take(1 + n) =~= s.take(1 + n));
            assert(sc.skip(1 + n) =~= s.skip(1 + n) + seq![c]);
        }
    }
}

/// `run_len` of a suffix stays inside the input.
proof fn lemma_run_len_within(s: Seq<char>, k: int, n: int)
    requires
        0 <= k <= s.len(),
        n == run_len(s.skip(k)),
    ensures
        k + n <= s.len(),
{
    crate::token::lemma_run_len_le(s.skip(k));
}

/// Whitespace only separates tokens: a separating character in front of or
/// behind the input changes the token sequence not at all.  Every character
/// the tokenizer treats as whitespace is, in practice, neither an option
/// character nor a dot; the two side conditions record that.
pub proof fn lemma_tokenize_whitespace(c: char, s: Seq<char>)
    requires
        is_whitespace_char(c),
        !spec_is_option_char(c),
        c != '.',
    ensures
        tokenize_spec(seq![c] + s) == tokenize_spec(s),
        tokenize_spec(s + seq![c]) == tokenize_spec(s),
    decreases s.len(),
{
    let cs = seq![c] + s;
    assert(cs.len() > 0 && cs[0] == c);
    assert(cs.drop_first() =~= s);
    lemma_lex_next_snoc(s, c);
    match lex_next(s) {
        LexStep::Done => {
            assert((s + seq![c]).drop_first() =~= s.drop_first() + seq![c] || s.len() == 0);
        },
        LexStep::Fail => {},
        LexStep::Next(t, rest) => {
            lemma_lex_next_rest(s);
            lemma_tokenize_whitespace(c, rest);
        },
    }
}

/// A tree in canonical form: concatenations and alternations have at least
/// two children and are flattened one level, an alternation holds no
/// optional child, and optionals and repetitions are never doubled.
pub open spec fn is_normal(e: ExprV) -> bool
    decreases e, 0int,
{
    match e {
        ExprV::Tok(_) => true,
        ExprV::Cat(xs) => xs.len() >= 2 && normal_cat_children(xs),
        ExprV::Opt(x) => is_normal(*x) && !(*x is Opt),
        ExprV::Repeat(x) => is_normal(*x) && !(*x is Repeat),
        ExprV::Select(xs) => xs.len() >= 2 && normal_sel_children(xs),
    }
}

/// Every child is canonical and none is itself a concatenation.
pub open spec fn normal_cat_children(s: Seq<ExprV>) -> bool
    decreases s, 1int,
{
    if s.len() == 0 {
        true
    } else {
        normal_cat_children(s.drop_last()) && is_normal(s.last()) && !(s.last() is Cat)
    }
}

/// Every child is canonical and none is an alternation or an optional.
pub open spec fn normal_sel_children(s: Seq<ExprV>) -> bool
    decreases s, 1int,
{
    if s.len() == 0 {
        true
    } else {
        normal_sel_children(s.drop_last()) && is_normal(s.last()) && !(s.last() is Select) && !(
        s.last() is Opt)
    }
}

proof fn lemma_normal_cat_children_pointwise(s: Seq<ExprV>)
    ensures
        normal_cat_children(s) <==> (forall|i: int|
            0 <= i < s.len() ==> is_normal(s[i]) && !(s[i] is Cat)),
    decreases s,
{
    if s.len() > 0 {
        lemma_normal_cat_children_pointwise(s.drop_last());
        if normal_cat_children(s) {
            assert forall|i: int| 0 <= i < s.len() implies is_normal(s[i]) && !(s[i] is Cat) by {
                if i < s.len() - 1 {
                    assert(s.drop_last()[i] == s[i]);
                }
            }
        }
        if forall|i: int| 0 <= i < s.len() ==> is_normal(s[i]) && !(s[i] is Cat) {
            assert forall|i: int|
                0 <= i < s.drop_last().len() implies is_normal(s.drop_last()[i]) && !(
            s.drop_last()[i] is Cat) by {
                assert(s.drop_last()[i] == s[i]);
            }
        }
    }
}

proof fn lemma_normal_sel_children_pointwise(s: Seq<ExprV>)
    ensures
        normal_sel_children(s) <==> (forall|i: int|
            0 <= i < s.len() ==> is_normal(s[i]) && !(s[i] is Select) && !(s[i] is Opt)),
    decreases s,
{
    if s.len() > 0 {
        lemma_normal_sel_children_pointwise(s.drop_last());
        if normal_sel_children(s) {
            assert forall|i: int|
                0 <= i < s.len() implies is_normal(s[i]) && !(s[i] is Select) && !(
            s[i] is Opt) by {
                if i < s.len() - 1 {
                    assert(s.drop_last()[i] == s[i]);
                }
            }
        }
        if forall|i: int| 0 <= i < s.len() ==> is_normal(s[i]) && !(s[i] is Select) && !(
        s[i] is Opt) {
            assert forall|i: int|
                0 <= i < s.drop_last().len() implies is_normal(s.drop_last()[i]) && !(
            s.drop_last()[i] is Select) && !(s.drop_last()[i] is Opt) by {
                assert(s.drop_last()[i] == s[i]);
            }
        }
    }
}

/// Whatever normalization yields is in canonical form.
pub proof fn lemma_normalize_normal(e: ExprV)
    ensures
        spec_normalize(e) matches Some(n) ==> is_normal(n),
    decreases e, 0int,
{
    match e {
        ExprV::Tok(_) => {},
        ExprV::Cat(xs) => {
            lemma_norm_cat_items_normal(xs);
            let v = norm_cat_items(xs);
            if v.len() >= 2 {
                lemma_normal_cat_children_pointwise(v);
            }
        },
        ExprV::Opt(x) => {
            lemma_normalize_normal(*x);
            match spec_normalize(*x) {
                Some(y) => match y {
                    ExprV::Opt(z) => {
                        assert(is_normal(*z) && !(*z is Opt));
                        assert(is_normal(ExprV::Opt(z)));
                    },
                    _ => {
                        assert(is_normal(ExprV::Opt(Box::new(y))));
                    },
                },
                None => {},
            }
        },
        ExprV::Repeat(x) => {
            lemma_normalize_normal(*x);
            match spec_normalize(*x) {
                Some(y) => match y {
                    ExprV::Repeat(z) => {
                        assert(is_normal(*z) && !(*z is Repeat));
                        assert(is_normal(ExprV::Repeat(z)));
                    },
                    _ => {
                        assert(is_normal(ExprV::Repeat(Box::new(y))));
                    },
                },
                None => {},
            }
        },
        ExprV::Select(xs) => {
            lemma_norm_sel_items_normal(xs);
            let v = norm_sel_items(xs);
            if v.len() == 1 {
                assert(is_normal(v[0]) && !(v[0] is Opt));
            }
            if v.len() >= 2 {
                lemma_normal_sel_children_pointwise(v);
                assert(is_normal(ExprV::Select(v)));
            }
            if norm_sel_has_opt(xs) {
                if v.len() == 1 {
                    assert(is_normal(ExprV::Opt(Box::new(v[0]))));
                } else if v.len() >= 2 {
                    assert(is_normal(ExprV::Opt(Box::new(ExprV::Select(v)))));
                }
            }
        },
    }
}

/// The spliced children of a normalized concatenation are canonical and
/// none of them is a concatenation.
proof fn lemma_norm_cat_items_normal(s: Seq<ExprV>)
    ensures
        forall|i: int|
            0 <= i < norm_cat_items(s).len() ==> is_normal(#[trigger] norm_cat_items(s)[i]) && !(
            norm_cat_items(s)[i] is Cat),
    decreases s, 1int,
{
    if s.len() > 0 {
        lemma_norm_cat_items_normal(s.drop_last());
        lemma_normalize_normal(s.last());
        let prefix = norm_cat_items(s.drop_last());
        match spec_normalize(s.last()) {
            None => {},
            Some(n) => match n {
                ExprV::Cat(ys) => {
                    lemma_normal_cat_children_pointwise(ys);
                    assert forall|i: int|
                        0 <= i < norm_cat_items(s).len() implies is_normal(
                        norm_cat_items(s)[i],
                    ) && !(norm_cat_items(s)[i] is Cat) by {
                        if i < prefix.len() {
                            assert(norm_cat_items(s)[i] == prefix[i]);
                        } else {
                            assert(norm_cat_items(s)[i] == ys[i - prefix.len()]);
                        }
                    }
                },
                _ => {
                    assert forall|i: int|
                        0 <= i < norm_cat_items(s).len() implies is_normal(
                        norm_cat_items(s)[i],
                    ) && !(norm_cat_items(s)[i] is Cat) by {
                        if i < prefix.len() {
                            assert(norm_cat_items(s)[i] == prefix[i]);
                        }
                    }
                },
            },
        }
    }
}

/// The spliced children of a normalized alternation are canonical and none
/// of them is an alternation or an optional.
proof fn lemma_norm_sel_items_normal(s: Seq<ExprV>)
    ensures
        forall|i: int|
            0 <= i < norm_sel_items(s).len() ==> is_normal(#[trigger] norm_sel_items(s)[i]) && !(
            norm_sel_items(s)[i] is Select) && !(norm_sel_items(s)[i] is Opt),
    decreases s, 1int,
{
    if s.len() > 0 {
        lemma_norm_sel_items_normal(s.drop_last());
        lemma_normalize_normal(s.last());
        let prefix = norm_sel_items(s.drop_last());
        match spec_normalize(s.last()) {
            None => {},
            Some(n) => {
                let m = match n {
                    ExprV::Opt(y) => *y,
                    _ => n,
                };
                assert(is_normal(m) && !(m is Opt));
                match m {
                    ExprV::Select(ys) => {
                        lemma_normal_sel_children_pointwise(ys);
                        assert forall|i: int|
                            0 <= i < norm_sel_items(s).len() implies is_normal(
                            norm_sel_items(s)[i],
                        ) && !(norm_sel_items(s)[i] is Select) && !(
                        norm_sel_items(s)[i] is Opt) by {
                            if i < prefix.len() {
                                assert(norm_sel_items(s)[i] == prefix[i]);
                            } else {
                                assert(norm_sel_items(s)[i] == ys[i - prefix.len()]);
                            }
                        }
                    },
                    _ => {
                        assert forall|i: int|
                            0 <= i < norm_sel_items(s).len() implies is_normal(
                            norm_sel_items(s)[i],
                        ) && !(norm_sel_items(s)[i] is Select) && !(
                        norm_sel_items(s)[i] is Opt) by {
                            if i < prefix.len() {
                                assert(norm_sel_items(s)[i] == prefix[i]);
                            }
                        }
                    },
                }
            },
        }
    }
}

/// A canonical tree is a fixed point of normalization.
pub proof fn lemma_normal_fixed(e: ExprV)
    ensures
        is_normal(e) ==> spec_normalize(e) == Some(e),
    decreases e, 0int,
{
    if is_normal(e) {
        match e {
            ExprV::Tok(_) => {},
            ExprV::Cat(xs) => {
                lemma_norm_cat_items_fixed(xs);
            },
            ExprV::Opt(x) => {
                lemma_normal_fixed(*x);
            },
            ExprV::Repeat(x) => {
                lemma_normal_fixed(*x);
            },
            ExprV::Select(xs) => {
                lemma_norm_sel_items_fixed(xs);
            },
        }
    }
}

/// Canonical, non-concatenation children pass through splicing unchanged.
pub proof fn lemma_norm_cat_items_fixed(s: Seq<ExprV>)
    requires
        normal_cat_children(s),
    ensures
        norm_cat_items(s) == s,
    decreases s, 1int,
{
    if s.len() > 0 {
        lemma_norm_cat_items_fixed(s.drop_last());
        lemma_normal_fixed(s.last());
        assert(s.drop_last().push(s.last()) =~= s);
    }
}

/// Canonical, non-alternation, non-optional children pass through
/// de-optioning and splicing unchanged.
pub proof fn lemma_norm_sel_items_fixed(s: Seq<ExprV>)
    requires
        normal_sel_children(s),
    ensures
        norm_sel_items(s) == s,
        !norm_sel_has_opt(s),
    decreases s, 1int,
{
    if s.len() > 0 {
        lemma_norm_sel_items_fixed(s.drop_last());
        lemma_normal_fixed(s.last());
        assert(s.drop_last().push(s.last()) =~= s);
    }
}

/// Normalization is idempotent: whenever `normalize(e)` yields a tree `n`,
/// normalizing `n` yields `n` itself, unchanged.
pub proof fn lemma_normalize_idempotent(e: ExprV)
    ensures
        spec_normalize(e) matches Some(n) ==> spec_normalize(n) == Some(n),
{
    lemma_normalize_normal(e);
    match spec_normalize(e) {
        Some(n) => {
            lemma_normal_fixed(n);
        },
        None => {},
    }
}

} // verus!
