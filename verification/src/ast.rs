//! The grammar tree `Expr`, its pretty-printing and its normalization.

use vstd::prelude::*;
use crate::token::Token;
use crate::token::TokenV;
use crate::token::spec_token_pretty;

verus! {

/// A node of the grammar tree.
///
/// `Cat` is concatenation, `Opt` zero-or-one, `Repeat` one-or-more and
/// `Select` alternation; a `Tok` leaf matches exactly one token.
#[derive(Debug, PartialEq, Eq)]
pub enum Expr {
    Tok(Token),
    Cat(Vec<Expr>),
    Opt(Box<Expr>),
    Repeat(Box<Expr>),
    Select(Vec<Expr>),
}

/// The mathematical value of an [`Expr`]: children are sequences.
#[verifier::ext_equal]
pub enum ExprV {
    Tok(TokenV),
    Cat(Seq<ExprV>),
    Opt(Box<ExprV>),
    Repeat(Box<ExprV>),
    Select(Seq<ExprV>),
}

/// Clones of the first `k` trees of `xs`, equal in value to them.
fn clone_exprs(xs: &Vec<Expr>, k: usize) -> (r: Vec<Expr>)
    requires
        k <= xs@.len(),
    ensures
        r@.len() == k,
        exprs_view(r@) == exprs_view(xs@.take(k as int)),
    decreases xs@, k,
{
    proof {
        lemma_exprs_view(xs@);
    }
    if k == 0 {
        let r: Vec<Expr> = Vec::new();
        proof {
            assert(xs@.take(0) =~= Seq::<Expr>::empty());
        }
        r
    } else {
        let mut r = clone_exprs(xs, k - 1);
        proof {
            assert(decreases_to!(xs@ => xs@[k - 1]));
        }
        let c = xs[k - 1].clone();
        let ghost pv = r@;
        r.push(c);
        proof {
            assert(r@.drop_last() =~= pv);
            assert(exprs_view(r@) == exprs_view(pv).push(expr_view(c)));
            assert(xs@.take(k as int).drop_last() =~= xs@.take(k - 1));
            assert(xs@.take(k as int).last() == xs@[k - 1]);
            assert(exprs_view(xs@.take(k as int)) == exprs_view(xs@.take(k - 1)).push(
                expr_view(xs@[k - 1]),
            ));
            lemma_exprs_view(r@);
        }
        r
    }
}

impl Clone for Expr {
    /// A fresh tree of the same value.
    fn clone(&self) -> (r: Expr)
        ensures
            r@ == self@,
        decreases self,
    {
        match self {
            Expr::Tok(t) => Expr::Tok(t.clone()),
            Expr::Cat(xs) => {
                proof {
                    assert(self->Cat_0 == *xs);
                    assert(decreases_to!(*self => self->Cat_0));
                    assert(decreases_to!(*xs => xs@));
                }
                let n = xs.len();
                let v = clone_exprs(xs, n);
                proof {
                    assert(xs@.take(n as int) =~= xs@);
                }
                Expr::Cat(v)
            },
            Expr::Opt(x) => {
                proof {
                    assert(decreases_to!(*self => self->Opt_0));
                }
                let inner = (**x).clone();
                Expr::Opt(Box::new(inner))
            },
            Expr::Repeat(x) => {
                proof {
                    assert(decreases_to!(*self => self->Repeat_0));
                }
                let inner = (**x).clone();
                Expr::Repeat(Box::new(inner))
            },
            Expr::Select(xs) => {
                proof {
                    assert(self->Select_0 == *xs);
                    assert(decreases_to!(*self => self->Select_0));
                    assert(decreases_to!(*xs => xs@));
                }
                let n = xs.len();
                let v = clone_exprs(xs, n);
                proof {
                    assert(xs@.take(n as int) =~= xs@);
                }
                Expr::Select(v)
            },
        }
    }
}

/// The value of an expression tree, taken leaf by leaf.
pub open spec fn expr_view(e: Expr) -> ExprV
    decreases e,
{
    match e {
        Expr::Tok(t) => ExprV::Tok(t@),
        Expr::Cat(xs) => ExprV::Cat(exprs_view(xs@)),
        Expr::Opt(x) => ExprV::Opt(Box::new(expr_view(*x))),
        Expr::Repeat(x) => ExprV::Repeat(Box::new(expr_view(*x))),
        Expr::Select(xs) => ExprV::Select(exprs_view(xs@)),
    }
}

/// The values of a sequence of expression trees, in order.
pub open spec fn exprs_view(s: Seq<Expr>) -> Seq<ExprV>
    decreases s,
{
    if s.len() == 0 {
        Seq::empty()
    } else {
        exprs_view(s.drop_last()).push(expr_view(s.last()))
    }
}

impl View for Expr {
    type V = ExprV;

    open spec fn view(&self) -> ExprV {
        expr_view(*self)
    }
}

/// `exprs_view` is the element-wise view.
pub proof fn lemma_exprs_view(s: Seq<Expr>)
    ensures
        exprs_view(s).len() == s.len(),
        forall|i: int| 0 <= i < s.len() ==> exprs_view(s)[i] == expr_view(s[i]),
    decreases s,
{
    if s.len() > 0 {
        lemma_exprs_view(s.drop_last());
    }
}

/// The surface form of `e`: children joined by spaces or ` | `, with braces
/// restored exactly where concatenation and alternation need them.
pub open spec fn spec_pretty(e: ExprV) -> Seq<char>
    decreases e, 0int,
{
    match e {
        ExprV::Tok(t) => spec_token_pretty(t),
        ExprV::Cat(s) => spec_pretty_cat(s),
        ExprV::Opt(x) => seq!['['] + spec_pretty(*x) + seq![']'],
        ExprV::Repeat(x) => spec_pretty_tight(*x) + seq!['.', '.', '.'],
        ExprV::Select(s) => spec_pretty_sel(s),
    }
}

/// The surface form of a child that stands where only one factor may: a
/// concatenation or an alternation is wrapped in braces, the rest binds
/// tightly enough on its own.
pub open spec fn spec_pretty_tight(e: ExprV) -> Seq<char>
    decreases e, 1int,
{
    match e {
        ExprV::Cat(_) => seq!['{'] + spec_pretty(e) + seq!['}'],
        ExprV::Select(_) => seq!['{'] + spec_pretty(e) + seq!['}'],
        _ => spec_pretty(e),
    }
}

/// The children of a concatenation, joined by single spaces.
pub open spec fn spec_pretty_cat(s: Seq<ExprV>) -> Seq<char>
    decreases s, 2int,
{
    if s.len() == 0 {
        Seq::empty()
    } else if s.len() == 1 {
        spec_pretty_tight(s.last())
    } else {
        spec_pretty_cat(s.drop_last()) + seq![' '] + spec_pretty_tight(s.last())
    }
}

/// The children of an alternation, joined by ` | `; each alternative is
/// rendered as one factor, so a nested concatenation or alternation keeps
/// its braces.
pub open spec fn spec_pretty_sel(s: Seq<ExprV>) -> Seq<char>
    decreases s, 2int,
{
    if s.len() == 0 {
        Seq::empty()
    } else if s.len() == 1 {
        spec_pretty_tight(s.last())
    } else {
        spec_pretty_sel(s.drop_last()) + seq![' ', '|', ' '] + spec_pretty_tight(s.last())
    }
}

/// The canonical form of `e`, or `None` when `e` denotes only the empty
/// sequence and carries no further structure.
pub open spec fn spec_normalize(e: ExprV) -> Option<ExprV>
    decreases e, 0int,
{
    match e {
        ExprV::Tok(_) => Some(e),
        ExprV::Cat(xs) => {
            let v = norm_cat_items(xs);
            if v.len() == 0 {
                None
            } else if v.len() == 1 {
                Some(v[0])
            } else {
                Some(ExprV::Cat(v))
            }
        },
        ExprV::Opt(x) => match spec_normalize(*x) {
            None => None,
            Some(y) => match y {
                ExprV::Opt(z) => Some(ExprV::Opt(z)),
                _ => Some(ExprV::Opt(Box::new(y))),
            },
        },
        ExprV::Repeat(x) => match spec_normalize(*x) {
            None => None,
            Some(y) => match y {
                ExprV::Repeat(z) => Some(ExprV::Repeat(z)),
                _ => Some(ExprV::Repeat(Box::new(y))),
            },
        },
        ExprV::Select(xs) => {
            let v = norm_sel_items(xs);
            let sel = if v.len() == 0 {
                None
            } else if v.len() == 1 {
                Some(v[0])
            } else {
                Some(ExprV::Select(v))
            };
            if norm_sel_has_opt(xs) {
                match sel {
                    None => None,
                    Some(m) => Some(ExprV::Opt(Box::new(m))),
                }
            } else {
                sel
            }
        },
    }
}

/// The normalized children of a concatenation: children that normalize to
/// nothing are dropped, and a child that normalizes to a concatenation is
/// spliced in, one level deep.
pub open spec fn norm_cat_items(s: Seq<ExprV>) -> Seq<ExprV>
    decreases s, 1int,
{
    if s.len() == 0 {
        Seq::empty()
    } else {
        let prefix = norm_cat_items(s.drop_last());
        match spec_normalize(s.last()) {
            None => prefix,
            Some(n) => match n {
                ExprV::Cat(ys) => prefix + ys,
                _ => prefix.push(n),
            },
        }
    }
}

/// The normalized children of an alternation: children that normalize to
/// nothing are dropped, an optional child is unwrapped, and a child that
/// then is an alternation is spliced in, one level deep.
pub open spec fn norm_sel_items(s: Seq<ExprV>) -> Seq<ExprV>
    decreases s, 1int,
{
    if s.len() == 0 {
        Seq::empty()
    } else {
        let prefix = norm_sel_items(s.drop_last());
        match spec_normalize(s.last()) {
            None => prefix,
            Some(n) => {
                let m = match n {
                    ExprV::Opt(y) => *y,
                    _ => n,
                };
                match m {
                    ExprV::Select(ys) => prefix + ys,
                    _ => prefix.push(m),
                }
            },
        }
    }
}

/// Whether some child of an alternation normalizes to an optional: if so,
/// the whole normalized alternation is wrapped once in an optional.
pub open spec fn norm_sel_has_opt(s: Seq<ExprV>) -> bool
    decreases s, 1int,
{
    if s.len() == 0 {
        false
    } else {
        norm_sel_has_opt(s.drop_last()) || (spec_normalize(s.last()) matches Some(
            ExprV::Opt(_),
        ))
    }
}

/// The value of an optional normalization outcome.
pub open spec fn opt_expr_view(r: Option<Expr>) -> Option<ExprV> {
    match r {
        Some(e) => Some(e@),
        None => None,
    }
}

/// Moves every element of `ys`, in order, to the end of `v`.
fn push_all(v: &mut Vec<Expr>, ys: Vec<Expr>)
    ensures
        exprs_view(final(v)@) == exprs_view(old(v)@) + exprs_view(ys@),
{
    let ghost v0 = old(v)@;
    let ghost ys0 = ys@;
    let mut ys = ys;
    while ys.len() > 0
        invariant
            ys0.len() >= ys@.len(),
            ys@ == ys0.skip(ys0.len() - ys@.len()),
            exprs_view(v@) == exprs_view(v0) + exprs_view(ys0.take(ys0.len() - ys@.len())),
        decreases ys@.len(),
    {
        let ghost k = ys0.len() - ys@.len();
        let y = ys.remove(0);
        proof {
            assert(y == ys0.skip(k)[0]);
            assert(y == ys0[k]);
            assert(ys@ =~= ys0.skip(k + 1));
        }
        let ghost pv = v@;
        v.push(y);
        proof {
            assert(v@.drop_last() =~= pv);
            assert(v@.last() == y);
            assert(exprs_view(v@) == exprs_view(pv).push(expr_view(y)));
            assert(ys0.take(k + 1).drop_last() =~= ys0.take(k));
            assert(ys0.take(k + 1).last() == ys0[k]);
            assert(exprs_view(ys0.take(k + 1)) == exprs_view(ys0.take(k)).push(expr_view(y)));
            assert(exprs_view(v0) + exprs_view(ys0.take(k + 1)) =~= (exprs_view(v0) + exprs_view(
                ys0.take(k),
            )).push(expr_view(y)));
        }
    }
    proof {
        assert(ys0.take(ys0.len() as int) =~= ys0);
    }
}

/// Normalizes and splices the children of a concatenation, right to left.
fn normalize_cat_vec(xs: Vec<Expr>) -> (v: Vec<Expr>)
    ensures
        exprs_view(v@) == norm_cat_items(exprs_view(xs@)),
    decreases xs@,
{
    let ghost xs0 = xs@;
    let mut xs = xs;
    if xs.len() == 0 {
        let v: Vec<Expr> = Vec::new();
        return v;
    }
    let x = xs.pop().unwrap();
    proof {
        assert(x == xs0.last());
        assert(xs@ =~= xs0.drop_last());
        assert(decreases_to!(xs0 => xs0.subrange(0, xs0.len() - 1)));
        assert(decreases_to!(xs0 => xs0[xs0.len() - 1]));
        assert(exprs_view(xs0) == exprs_view(xs0.drop_last()).push(expr_view(x)));
        assert(exprs_view(xs0).drop_last() =~= exprs_view(xs0.drop_last()));
        assert(exprs_view(xs0).last() == expr_view(x));
    }
    let mut v = normalize_cat_vec(xs);
    match x.normalize() {
        None => v,
        Some(n) => match n {
            Expr::Cat(ys) => {
                push_all(&mut v, ys);
                v
            },
            other => {
                let ghost pv = v@;
                v.push(other);
                proof {
                    assert(v@.drop_last() =~= pv);
                    assert(exprs_view(v@) == exprs_view(pv).push(expr_view(other)));
                }
                v
            },
        },
    }
}

/// Normalizes, de-options and splices the children of an alternation,
/// right to left; the flag reports whether any child was optional.
fn normalize_sel_vec(xs: Vec<Expr>) -> (r: (Vec<Expr>, bool))
    ensures
        exprs_view(r.0@) == norm_sel_items(exprs_view(xs@)),
        r.1 == norm_sel_has_opt(exprs_view(xs@)),
    decreases xs@,
{
    let ghost xs0 = xs@;
    let mut xs = xs;
    if xs.len() == 0 {
        let v: Vec<Expr> = Vec::new();
        return (v, false);
    }
    let x = xs.pop().unwrap();
    proof {
        assert(x == xs0.last());
        assert(xs@ =~= xs0.drop_last());
        assert(decreases_to!(xs0 => xs0.subrange(0, xs0.len() - 1)));
        assert(decreases_to!(xs0 => xs0[xs0.len() - 1]));
        assert(exprs_view(xs0) == exprs_view(xs0.drop_last()).push(expr_view(x)));
        assert(exprs_view(xs0).drop_last() =~= exprs_view(xs0.drop_last()));
        assert(exprs_view(xs0).last() == expr_view(x));
    }
    let (mut v, mut has_opt) = normalize_sel_vec(xs);
    let ghost w = exprs_view(xs0);
    let ghost prefix = norm_sel_items(w.drop_last());
    proof {
        assert(exprs_view(v@) == prefix);
        assert(norm_sel_items(w) == (match spec_normalize(w.last()) {
            None => prefix,
            Some(n) => {
                let m = match n {
                    ExprV::Opt(y) => *y,
                    _ => n,
                };
                match m {
                    ExprV::Select(ys) => prefix + ys,
                    _ => prefix.push(m),
                }
            },
        }));
    }
    match x.normalize() {
        None => {
            proof {
                assert(norm_sel_items(w) == prefix);
            }
            (v, has_opt)
        },
        Some(n) => {
            proof {
                assert(spec_normalize(w.last()) == Some(expr_view(n)));
            }
            let ghost nspec = expr_view(n);
            let m = match n {
                Expr::Opt(y) => {
                    has_opt = true;
                    *y
                },
                other => other,
            };
            proof {
                assert(expr_view(m) == (match nspec {
                    ExprV::Opt(y) => *y,
                    _ => nspec,
                }));
            }
            match m {
                Expr::Select(ys) => {
                    proof {
                        assert(norm_sel_items(w) == prefix + exprs_view(ys@));
                    }
                    push_all(&mut v, ys);
                    (v, has_opt)
                },
                other => {
                    proof {
                        assert(norm_sel_items(w) == prefix.push(expr_view(other)));
                    }
                    let ghost pv = v@;
                    v.push(other);
                    proof {
                        assert(v@.drop_last() =~= pv);
                        assert(exprs_view(v@) == exprs_view(pv).push(expr_view(other)));
                    }
                    (v, has_opt)
                },
            }
        },
    }
}

impl Expr {
    /// Brings the tree to canonical form, or reports that it denotes only
    /// the empty sequence.
    pub fn normalize(self) -> (r: Option<Expr>)
        ensures
            opt_expr_view(r) == spec_normalize(expr_view(self)),
        decreases self,
    {
        let ghost self0 = self;
        match self {
            Expr::Tok(t) => Some(Expr::Tok(t)),
            Expr::Cat(xs) => {
                proof {
                    assert(self0->Cat_0 == xs);
                    assert(decreases_to!(self0 => self0->Cat_0));
                    assert(decreases_to!(xs => xs@));
                }
                let mut v = normalize_cat_vec(xs);
                let ghost items = norm_cat_items(exprs_view(xs@));
                proof {
                    lemma_exprs_view(v@);
                    assert(exprs_view(v@) == items);
                    assert(expr_view(self0) == ExprV::Cat(exprs_view(xs@)));
                }
                if v.len() == 0 {
                    proof {
                        assert(spec_normalize(expr_view(self0)) is None);
                    }
                    None
                } else if v.len() == 1 {
                    let x = v.pop().unwrap();
                    proof {
                        assert(expr_view(x) == items[0]);
                        assert(spec_normalize(expr_view(self0)) == Some(items[0]));
                    }
                    Some(x)
                } else {
                    proof {
                        assert(spec_normalize(expr_view(self0)) == Some(ExprV::Cat(items)));
                        assert(exprs_view(v@) == items);
                    }
                    Some(Expr::Cat(v))
                }
            },
            Expr::Opt(x) => {
                proof {
                    assert(decreases_to!(self0 => self0->Opt_0));
                    assert(expr_view(self0) == ExprV::Opt(Box::new(expr_view(*x))));
                }
                let inner = *x;
                match inner.normalize() {
                    None => {
                        proof {
                            assert(spec_normalize(expr_view(self0)) is None);
                        }
                        None
                    },
                    Some(y) => {
                        proof {
                            assert(Some(expr_view(y)) == spec_normalize(expr_view(inner)));
                        }
                        match y {
                            Expr::Opt(z) => {
                                proof {
                                    assert(expr_view(Expr::Opt(z)) == ExprV::Opt(
                                        Box::new(expr_view(*z)),
                                    ));
                                    assert(spec_normalize(expr_view(self0)) == Some(
                                        ExprV::Opt(Box::new(expr_view(*z))),
                                    ));
                                }
                                Some(Expr::Opt(z))
                            },
                            other => {
                                proof {
                                    assert(!(expr_view(other) is Opt));
                                    assert(spec_normalize(expr_view(self0)) == Some(
                                        ExprV::Opt(Box::new(expr_view(other))),
                                    ));
                                }
                                Some(Expr::Opt(Box::new(other)))
                            },
                        }
                    },
                }
            },
            Expr::Repeat(x) => {
                proof {
                    assert(decreases_to!(self0 => self0->Repeat_0));
                    assert(expr_view(self0) == ExprV::Repeat(Box::new(expr_view(*x))));
                }
                let inner = *x;
                match inner.normalize() {
                    None => {
                        proof {
                            assert(spec_normalize(expr_view(self0)) is None);
                        }
                        None
                    },
                    Some(y) => {
                        proof {
                            assert(Some(expr_view(y)) == spec_normalize(expr_view(inner)));
                        }
                        match y {
                            Expr::Repeat(z) => {
                                proof {
                                    assert(spec_normalize(expr_view(self0)) == Some(
                                        ExprV::Repeat(Box::new(expr_view(*z))),
                                    ));
                                }
                                Some(Expr::Repeat(z))
                            },
                            other => {
                                proof {
                                    assert(!(expr_view(other) is Repeat));
                                    assert(spec_normalize(expr_view(self0)) == Some(
                                        ExprV::Repeat(Box::new(expr_view(other))),
                                    ));
                                }
                                Some(Expr::Repeat(Box::new(other)))
                            },
                        }
                    },
                }
            },
            Expr::Select(xs) => {
                proof {
                    assert(self0->Select_0 == xs);
                    assert(decreases_to!(self0 => self0->Select_0));
                    assert(decreases_to!(xs => xs@));
                }
                let (v, has_opt) = normalize_sel_vec(xs);
                let mut v = v;
                let ghost items = norm_sel_items(exprs_view(xs@));
                let ghost ho = norm_sel_has_opt(exprs_view(xs@));
                proof {
                    lemma_exprs_view(v@);
                    assert(exprs_view(v@) == items);
                    assert(has_opt == ho);
                    assert(expr_view(self0) == ExprV::Select(exprs_view(xs@)));
                }
                let sel = if v.len() == 0 {
                    None
                } else if v.len() == 1 {
                    let x = v.pop().unwrap();
                    proof {
                        assert(expr_view(x) == items[0]);
                    }
                    Some(x)
                } else {
                    Some(Expr::Select(v))
                };
                proof {
                    assert(opt_expr_view(sel) == (if items.len() == 0 {
                        None
                    } else if items.len() == 1 {
                        Some(items[0])
                    } else {
                        Some(ExprV::Select(items))
                    }));
                }
                if has_opt {
                    match sel {
                        None => None,
                        Some(m) => Some(Expr::Opt(Box::new(m))),
                    }
                } else {
                    sel
                }
            },
        }
    }

    /// Renders the tree back to the surface grammar.
    pub fn pretty(&self) -> (r: String)
        ensures
            r@ == spec_pretty(self@),
        decreases self, 0int,
    {
        match self {
            Expr::Tok(t) => t.pretty(),
            Expr::Cat(xs) => {
                let mut r = String::new();
                let mut i: usize = 0;
                let ghost vs = exprs_view(xs@);
                proof {
                    lemma_exprs_view(xs@);
                }
                while i < xs.len()
                    invariant
                        i <= xs.len(),
                        vs == exprs_view(xs@),
                        vs.len() == xs@.len(),
                        forall|k: int| 0 <= k < xs@.len() ==> vs[k] == expr_view(xs@[k]),
                        r@ == spec_pretty_cat(vs.take(i as int)),
                        *self == Expr::Cat(*xs),
                    decreases xs.len() - i,
                {
                    if i > 0 {
                        r.append(" ");
                        proof {
                            reveal_strlit(" ");
                        }
                    }
                    proof {
                        assert(self->Cat_0 == *xs);
                        assert(decreases_to!(*self => self->Cat_0));
                        assert(decreases_to!(*xs => xs@));
                        assert(decreases_to!(xs@ => xs@[i as int]));
                    }
                    let piece = xs[i].pretty_tight();
                    r.append(piece.as_str());
                    proof {
                        assert(vs.take(i + 1).drop_last() =~= vs.take(i as int));
                        assert(vs.take(i + 1).last() == vs[i as int]);
                        assert(r@ =~= spec_pretty_cat(vs.take(i + 1)));
                    }
                    i = i + 1;
                }
                proof {
                    assert(vs.take(vs.len() as int) =~= vs);
                }
                r
            },
            Expr::Opt(x) => {
                let mut r = String::new();
                r.append("[");
                let inner = x.pretty();
                r.append(inner.as_str());
                r.append("]");
                proof {
                    reveal_strlit("[");
                    reveal_strlit("]");
                    assert(r@ =~= seq!['['] + spec_pretty(expr_view(**x)) + seq![']']);
                }
                r
            },
            Expr::Repeat(x) => {
                let mut r = x.pretty_tight();
                r.append("...");
                proof {
                    reveal_strlit("...");
                    assert(r@ =~= spec_pretty_tight(expr_view(**x)) + seq!['.', '.', '.']);
                }
                r
            },
            Expr::Select(xs) => {
                let mut r = String::new();
                let mut i: usize = 0;
                let ghost vs = exprs_view(xs@);
                proof {
                    lemma_exprs_view(xs@);
                }
                while i < xs.len()
                    invariant
                        i <= xs.len(),
                        vs == exprs_view(xs@),
                        vs.len() == xs@.len(),
                        forall|k: int| 0 <= k < xs@.len() ==> vs[k] == expr_view(xs@[k]),
                        r@ == spec_pretty_sel(vs.take(i as int)),
                        *self == Expr::Select(*xs),
                    decreases xs.len() - i,
                {
                    if i > 0 {
                        r.append(" | ");
                        proof {
                            reveal_strlit(" | ");
                        }
                    }
                    proof {
                        assert(self->Select_0 == *xs);
                        assert(decreases_to!(*self => self->Select_0));
                        assert(decreases_to!(*xs => xs@));
                        assert(decreases_to!(xs@ => xs@[i as int]));
                    }
                    let piece = xs[i].pretty_tight();
                    r.append(piece.as_str());
                    proof {
                        assert(vs.take(i + 1).drop_last() =~= vs.take(i as int));
                        assert(vs.take(i + 1).last() == vs[i as int]);
                        assert(r@ =~= spec_pretty_sel(vs.take(i + 1)));
                    }
                    i = i + 1;
                }
                proof {
                    assert(vs.take(vs.len() as int) =~= vs);
                }
                r
            },
        }
    }

    /// Renders a child that must read as a single factor.
    fn pretty_tight(&self) -> (r: String)
        ensures
            r@ == spec_pretty_tight(self@),
        decreases self, 1int,
    {
        match self {
            Expr::Cat(_) | Expr::Select(_) => {
                let mut r = String::new();
                r.append("{");
                let inner = self.pretty();
                r.append(inner.as_str());
                r.append("}");
                proof {
                    reveal_strlit("{");
                    reveal_strlit("}");
                    assert(r@ =~= seq!['{'] + spec_pretty(self@) + seq!['}']);
                }
                r
            },
            _ => self.pretty(),
        }
    }
}

} // verus!
