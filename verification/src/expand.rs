//! Expansion of a pattern into the concrete token sequences it denotes,
//! with repetition unrolled a bounded number of times.

use vstd::prelude::*;
use crate::token::Token;
use crate::token::TokenV;
use crate::token::tokens_view;
use crate::ast::Expr;
use crate::ast::ExprV;
use crate::ast::expr_view;
use crate::ast::exprs_view;
use crate::ast::lemma_exprs_view;

verus! {

/// `x` prepended to every sequence of `b`, in `b`'s order.
pub open spec fn distrib(x: Seq<TokenV>, b: Seq<Seq<TokenV>>) -> Seq<Seq<TokenV>> {
    Seq::new(b.len(), |j: int| x + b[j])
}

/// Every sequence of `a` followed by every sequence of `b`: `a`'s order in
/// the outer loop, `b`'s in the inner, so the right operand varies fastest.
pub open spec fn cart(a: Seq<Seq<TokenV>>, b: Seq<Seq<TokenV>>) -> Seq<Seq<TokenV>>
    decreases a.len(),
{
    if a.len() == 0 {
        Seq::empty()
    } else {
        cart(a.drop_last(), b) + distrib(a.last(), b)
    }
}

proof fn lemma_cart_push(a: Seq<Seq<TokenV>>, x: Seq<TokenV>, b: Seq<Seq<TokenV>>)
    ensures
        cart(a.push(x), b) == cart(a, b) + distrib(x, b),
{
    assert(a.push(x).drop_last() =~= a);
    assert(a.push(x).last() == x);
}

/// The expansions of a pattern, in the order the grammar prescribes.
pub open spec fn spec_expand(e: ExprV) -> Seq<Seq<TokenV>>
    decreases e, 0int,
{
    match e {
        ExprV::Tok(t) => seq![seq![t]],
        ExprV::Cat(xs) => expand_cat(xs),
        ExprV::Opt(x) => seq![Seq::<TokenV>::empty()] + spec_expand(*x),
        ExprV::Repeat(x) => match *x {
            ExprV::Opt(y) => {
                let one = spec_expand(*y);
                seq![Seq::<TokenV>::empty()] + one + cart(one, one)
            },
            _ => {
                let one = spec_expand(*x);
                one + cart(one, one) + cart(cart(one, one), one)
            },
        },
        ExprV::Select(xs) => expand_sel(xs),
    }
}

/// The expansions of a concatenation: the product of the children's
/// expansions, the last child varying fastest.
pub open spec fn expand_cat(xs: Seq<ExprV>) -> Seq<Seq<TokenV>>
    decreases xs, 1int,
{
    if xs.len() == 0 {
        seq![Seq::<TokenV>::empty()]
    } else {
        cart(expand_cat(xs.drop_last()), spec_expand(xs.last()))
    }
}

/// The expansions of an alternation: the children's expansion lists, one
/// after the other.
pub open spec fn expand_sel(xs: Seq<ExprV>) -> Seq<Seq<TokenV>>
    decreases xs, 1int,
{
    if xs.len() == 0 {
        Seq::empty()
    } else {
        expand_sel(xs.drop_last()) + spec_expand(xs.last())
    }
}

/// The values of a list of token sequences.
pub open spec fn expansions_view(v: Seq<Vec<Token>>) -> Seq<Seq<TokenV>> {
    v.map_values(|x: Vec<Token>| tokens_view(x@))
}

fn clone_tokens(v: &Vec<Token>) -> (r: Vec<Token>)
    ensures
        r@ == v@,
{
    let mut r: Vec<Token> = Vec::new();
    let mut i: usize = 0;
    while i < v.len()
        invariant
            i <= v@.len(),
            r@ == v@.take(i as int),
        decreases v@.len() - i,
    {
        r.push(v[i].clone());
        i = i + 1;
        proof {
            assert(r@ =~= v@.take(i as int));
        }
    }
    proof {
        assert(v@.take(v@.len() as int) =~= v@);
    }
    r
}

fn concat_tokens(a: &Vec<Token>, b: &Vec<Token>) -> (r: Vec<Token>)
    ensures
        r@ == a@ + b@,
{
    let mut r = clone_tokens(a);
    let mut i: usize = 0;
    while i < b.len()
        invariant
            i <= b@.len(),
            r@ == a@ + b@.take(i as int),
        decreases b@.len() - i,
    {
        r.push(b[i].clone());
        i = i + 1;
        proof {
            assert(r@ =~= a@ + b@.take(i as int));
        }
    }
    proof {
        assert(b@.take(b@.len() as int) =~= b@);
        assert(a@ + b@.take(0) =~= a@);
    }
    r
}

/// Moves every token sequence of `more`, in order, to the end of `r`.
fn append_expansions(r: &mut Vec<Vec<Token>>, more: Vec<Vec<Token>>)
    ensures
        expansions_view(final(r)@) == expansions_view(old(r)@) + expansions_view(more@),
{
    let ghost r0 = old(r)@;
    let ghost m0 = more@;
    let mut more = more;
    while more.len() > 0
        invariant
            m0.len() >= more@.len(),
            more@ == m0.skip(m0.len() - more@.len()),
            expansions_view(r@) == expansions_view(r0) + expansions_view(
                m0.take(m0.len() - more@.len()),
            ),
        decreases more@.len(),
    {
        let ghost k = m0.len() - more@.len();
        let x = more.remove(0);
        proof {
            assert(x == m0.skip(k)[0]);
            assert(x == m0[k]);
            assert(more@ =~= m0.skip(k + 1));
        }
        r.push(x);
        proof {
            assert(expansions_view(r@) =~= (expansions_view(r0) + expansions_view(
                m0.take(k),
            )).push(tokens_view(x@)));
            assert(expansions_view(m0.take(k + 1)) =~= expansions_view(m0.take(k)).push(
                tokens_view(x@),
            ));
        }
    }
    proof {
        assert(m0.take(m0.len() as int) =~= m0);
        assert(expansions_view(r@) =~= expansions_view(r0) + expansions_view(m0));
    }
}

/// The product of two expansion lists, the right one varying fastest.
fn cart_vec(a: &Vec<Vec<Token>>, b: &Vec<Vec<Token>>) -> (r: Vec<Vec<Token>>)
    ensures
        expansions_view(r@) == cart(expansions_view(a@), expansions_view(b@)),
{
    let ghost av = expansions_view(a@);
    let ghost bv = expansions_view(b@);
    let mut r: Vec<Vec<Token>> = Vec::new();
    let mut i: usize = 0;
    while i < a.len()
        invariant
            i <= a@.len(),
            av == expansions_view(a@),
            bv == expansions_view(b@),
            expansions_view(r@) == cart(av.take(i as int), bv),
        decreases a@.len() - i,
    {
        let mut j: usize = 0;
        while j < b.len()
            invariant
                i < a@.len(),
                j <= b@.len(),
                av == expansions_view(a@),
                bv == expansions_view(b@),
                expansions_view(r@) == cart(av.take(i as int), bv) + distrib(
                    av[i as int],
                    bv.take(j as int),
                ),
            decreases b@.len() - j,
        {
            let ghost pre = expansions_view(r@);
            let piece = concat_tokens(&a[i], &b[j]);
            r.push(piece);
            j = j + 1;
            proof {
                assert(tokens_view(piece@) =~= av[i as int] + bv[j - 1]);
                assert(expansions_view(r@) =~~= pre.push(tokens_view(piece@)));
                assert(distrib(av[i as int], bv.take(j as int)) =~~= distrib(
                    av[i as int],
                    bv.take(j - 1),
                ).push(av[i as int] + bv[j - 1]));
                assert(expansions_view(r@) =~~= cart(av.take(i as int), bv) + distrib(
                    av[i as int],
                    bv.take(j as int),
                ));
            }
        }
        i = i + 1;
        proof {
            lemma_cart_push(av.take(i - 1), av[i - 1], bv);
            assert(av.take(i as int).drop_last() =~= av.take(i - 1));
            assert(av.take(i as int) =~= av.take(i - 1).push(av[i - 1]));
            assert(bv.take(bv.len() as int) =~= bv);
            assert(expansions_view(r@) =~~= cart(av.take(i as int), bv));
        }
    }
    proof {
        assert(av.take(av.len() as int) =~= av);
        assert(distrib(av[0], bv.take(0)) =~= Seq::<Seq<TokenV>>::empty());
    }
    r
}

/// The expansions of the first `k` children of a concatenation, combined
/// left to right.
fn expand_cat_prefix(xs: &Vec<Expr>, k: usize) -> (r: Vec<Vec<Token>>)
    requires
        k <= xs@.len(),
    ensures
        expansions_view(r@) == expand_cat(exprs_view(xs@).take(k as int)),
    decreases xs@, k,
{
    proof {
        lemma_exprs_view(xs@);
    }
    if k == 0 {
        let mut r: Vec<Vec<Token>> = Vec::new();
        let empty_line: Vec<Token> = Vec::new();
        r.push(empty_line);
        proof {
            assert(expansions_view(r@) =~~= seq![Seq::<TokenV>::empty()]);
            assert(exprs_view(xs@).take(0) =~= Seq::<ExprV>::empty());
        }
        r
    } else {
        let prefix = expand_cat_prefix(xs, k - 1);
        proof {
            assert(decreases_to!(xs@ => xs@[k - 1]));
        }
        let one = expand(&xs[k - 1]);
        let r = cart_vec(&prefix, &one);
        proof {
            let vs = exprs_view(xs@);
            assert(vs.take(k as int).drop_last() =~= vs.take(k - 1));
            assert(vs.take(k as int).last() == vs[k - 1]);
        }
        r
    }
}

/// The expansions of the first `k` children of an alternation, one
/// alternative's list after the other.
fn expand_sel_prefix(xs: &Vec<Expr>, k: usize) -> (r: Vec<Vec<Token>>)
    requires
        k <= xs@.len(),
    ensures
        expansions_view(r@) == expand_sel(exprs_view(xs@).take(k as int)),
    decreases xs@, k,
{
    proof {
        lemma_exprs_view(xs@);
    }
    if k == 0 {
        let r: Vec<Vec<Token>> = Vec::new();
        proof {
            assert(exprs_view(xs@).take(0) =~= Seq::<ExprV>::empty());
        }
        r
    } else {
        let mut r = expand_sel_prefix(xs, k - 1);
        proof {
            assert(decreases_to!(xs@ => xs@[k - 1]));
        }
        let one = expand(&xs[k - 1]);
        append_expansions(&mut r, one);
        proof {
            let vs = exprs_view(xs@);
            assert(vs.take(k as int).drop_last() =~= vs.take(k - 1));
            assert(vs.take(k as int).last() == vs[k - 1]);
        }
        r
    }
}

/// Every concrete token sequence the pattern denotes, a `Repeat` standing
/// for one, two and three copies of its body — or none, one and two when
/// the body is itself optional.
pub fn expand(expr: &Expr) -> (r: Vec<Vec<Token>>)
    ensures
        expansions_view(r@) == spec_expand(expr@),
    decreases expr,
{
    match expr {
        Expr::Tok(t) => {
            let mut line: Vec<Token> = Vec::new();
            line.push(t.clone());
            let mut r: Vec<Vec<Token>> = Vec::new();
            r.push(line);
            proof {
                assert(tokens_view(line@) =~= seq![t@]);
                assert(expansions_view(r@) =~= seq![seq![t@]]);
            }
            r
        },
        Expr::Cat(xs) => {
            proof {
                assert(expr->Cat_0 == *xs);
                assert(decreases_to!(*expr => expr->Cat_0));
                assert(decreases_to!(*xs => xs@));
            }
            let n = xs.len();
            let r = expand_cat_prefix(xs, n);
            proof {
                lemma_exprs_view(xs@);
                assert(exprs_view(xs@).take(n as int) =~= exprs_view(xs@));
                assert(expr@ == ExprV::Cat(exprs_view(xs@)));
            }
            r
        },
        Expr::Opt(x) => {
            proof {
                assert(decreases_to!(*expr => expr->Opt_0));
            }
            let one = expand(x);
            let mut r: Vec<Vec<Token>> = Vec::new();
            let empty_line: Vec<Token> = Vec::new();
            r.push(empty_line);
            proof {
                assert(tokens_view(empty_line@) =~= Seq::<TokenV>::empty());
                assert(expansions_view(r@) =~~= seq![Seq::<TokenV>::empty()]);
            }
            append_expansions(&mut r, one);
            proof {
                assert(expr@ == ExprV::Opt(Box::new(expr_view(**x))));
            }
            r
        },
        Expr::Repeat(x) => {
            proof {
                assert(decreases_to!(*expr => expr->Repeat_0));
            }
            match &**x {
                Expr::Opt(y) => {
                    proof {
                        assert((**x)->Opt_0 == *y);
                        assert(decreases_to!(**x => (**x)->Opt_0));
                    }
                    let one = expand(y);
                    let two = cart_vec(&one, &one);
                    let mut r: Vec<Vec<Token>> = Vec::new();
                    let empty_line: Vec<Token> = Vec::new();
                    r.push(empty_line);
                    proof {
                        assert(tokens_view(empty_line@) =~= Seq::<TokenV>::empty());
                        assert(expansions_view(r@) =~~= seq![Seq::<TokenV>::empty()]);
                    }
                    append_expansions(&mut r, one);
                    append_expansions(&mut r, two);
                    proof {
                        assert(expr@ == ExprV::Repeat(Box::new(expr_view(**x))));
                        assert(expr_view(**x) == ExprV::Opt(Box::new(expr_view(**y))));
                    }
                    r
                },
                _ => {
                    proof {
                        assert(expr@ == ExprV::Repeat(Box::new(expr_view(**x))));
                        assert(!(expr_view(**x) is Opt));
                    }
                    let one = expand(x);
                    let two = cart_vec(&one, &one);
                    let three = cart_vec(&two, &one);
                    let mut r = one;
                    append_expansions(&mut r, two);
                    append_expansions(&mut r, three);
                    r
                },
            }
        },
        Expr::Select(xs) => {
            proof {
                assert(expr->Select_0 == *xs);
                assert(decreases_to!(*expr => expr->Select_0));
                assert(decreases_to!(*xs => xs@));
            }
            let n = xs.len();
            let r = expand_sel_prefix(xs, n);
            proof {
                lemma_exprs_view(xs@);
                assert(exprs_view(xs@).take(n as int) =~= exprs_view(xs@));
                assert(expr@ == ExprV::Select(exprs_view(xs@)));
            }
            r
        },
    }
}

} // verus!
