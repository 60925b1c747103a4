use vstd::prelude::*;
use crate::expr::{Expr, Term, views, lemma_view_children, deep_copy};
use crate::names::{fv, fv_list, gensym_name, freevars, gensym, contains_name, lemma_fv_finite, lemma_gensym_fresh};

verus! {

broadcast use {vstd::std_specs::vec::axiom_vec_decreases_to_view, vstd::seq::axiom_seq_index_decreases, vstd::seq::axiom_seq_subrange_decreases};

/// The number of nodes of a term.
pub open spec fn size(t: Term) -> nat
    decreases t,
{
    match t {
        Term::Contradiction => 1,
        Term::Tautology => 1,
        Term::Var { .. } => 1,
        Term::Apply { func, args } => 1 + size(*func) + size_list(args),
        Term::Unop { operand, .. } => 1 + size(*operand),
        Term::Binop { left, right, .. } => 1 + size(*left) + size(*right),
        Term::AssocBinop { exprs, .. } => 1 + size_list(exprs),
        Term::Quantifier { body, .. } => 1 + size(*body),
    }
}

/// The number of nodes of a sequence of terms.
pub open spec fn size_list(s: Seq<Term>) -> nat
    decreases s,
{
    if s.len() == 0 {
        0
    } else {
        size_list(s.subrange(0, s.len() - 1)) + size(s[s.len() - 1])
    }
}

/// Substitution of `v` for the free occurrences of `x` in `t`, renaming a
/// binder that would capture a free name of `v`; `fuel` bounds the depth of
/// the definition and is at least `size(t)` wherever it is used.
pub open spec fn subst_fuel(t: Term, x: Seq<char>, v: Term, fuel: nat) -> Term
    decreases fuel, 0nat,
{
    if fuel == 0 {
        t
    } else {
        let f = (fuel - 1) as nat;
        match t {
            Term::Contradiction => t,
            Term::Tautology => t,
            Term::Var { name } => if name == x { v } else { t },
            Term::Apply { func, args } => Term::Apply {
                func: Box::new(subst_fuel(*func, x, v, f)),
                args: subst_list_fuel(args, x, v, f),
            },
            Term::Unop { symbol, operand } => Term::Unop { symbol, operand: Box::new(subst_fuel(*operand, x, v, f)) },
            Term::Binop { symbol, left, right } => Term::Binop {
                symbol,
                left: Box::new(subst_fuel(*left, x, v, f)),
                right: Box::new(subst_fuel(*right, x, v, f)),
            },
            Term::AssocBinop { symbol, exprs } => Term::AssocBinop {
                symbol,
                exprs: subst_list_fuel(exprs, x, v, f),
            },
            Term::Quantifier { symbol, name, body } => {
                if name == x {
                    t
                } else if fv(v).contains(name) {
                    let fresh = gensym_name(name, fv(v));
                    let body0 = subst_fuel(*body, name, Term::Var { name: fresh }, f);
                    Term::Quantifier { symbol, name: fresh, body: Box::new(subst_fuel(body0, x, v, f)) }
                } else {
                    Term::Quantifier { symbol, name, body: Box::new(subst_fuel(*body, x, v, f)) }
                }
            },
        }
    }
}

/// Substitution in each term of a sequence.
pub open spec fn subst_list_fuel(s: Seq<Term>, x: Seq<char>, v: Term, fuel: nat) -> Seq<Term>
    decreases fuel, 1nat,
{
    Seq::new(s.len(), |i: int| subst_fuel(s[i], x, v, fuel))
}

/// Capture-avoiding substitution of `v` for the free occurrences of `x` in `t`.
pub open spec fn subst_term(t: Term, x: Seq<char>, v: Term) -> Term {
    subst_fuel(t, x, v, size(t))
}

/// Every associative node of the term has at least two operands.
pub open spec fn wf(t: Term) -> bool
    decreases t,
{
    match t {
        Term::Apply { func, args } => wf(*func) && forall|i: int| 0 <= i < args.len() ==> wf(#[trigger] args[i]),
        Term::Unop { operand, .. } => wf(*operand),
        Term::Binop { left, right, .. } => wf(*left) && wf(*right),
        Term::AssocBinop { exprs, .. } => exprs.len() >= 2 && forall|i: int| 0 <= i < exprs.len() ==> wf(#[trigger] exprs[i]),
        Term::Quantifier { body, .. } => wf(*body),
        _ => true,
    }
}

/// Each term of a sequence is at most as large as the whole sequence.
pub proof fn lemma_size_list_element(s: Seq<Term>, i: int)
    requires
        0 <= i < s.len(),
    ensures
        size(s[i]) <= size_list(s),
    decreases s.len(),
{
    if i < s.len() - 1 {
        let p = s.subrange(0, s.len() - 1);
        lemma_size_list_element(p, i);
        assert(p[i] == s[i]);
    }
}

proof fn lemma_size_list_pointwise(s1: Seq<Term>, s2: Seq<Term>)
    requires
        s1.len() == s2.len(),
        forall|i: int| 0 <= i < s1.len() ==> size(#[trigger] s1[i]) == size(s2[i]),
    ensures
        size_list(s1) == size_list(s2),
    decreases s1.len(),
{
    if s1.len() > 0 {
        let p1 = s1.subrange(0, s1.len() - 1);
        let p2 = s2.subrange(0, s2.len() - 1);
        assert forall|i: int| 0 <= i < p1.len() implies size(#[trigger] p1[i]) == size(p2[i]) by {
            assert(p1[i] == s1[i]);
            assert(p2[i] == s2[i]);
        }
        lemma_size_list_pointwise(p1, p2);
    }
}

/// Renaming a name keeps the size of a term.
pub proof fn lemma_rename_size(t: Term, a: Seq<char>, b: Seq<char>, fuel: nat)
    ensures
        size(subst_fuel(t, a, Term::Var { name: b }, fuel)) == size(t),
    decreases fuel,
{
    if fuel > 0 {
        let f = (fuel - 1) as nat;
        let v = Term::Var { name: b };
        match t {
            Term::Apply { func, args } => {
                lemma_rename_size(*func, a, b, f);
                let s2 = subst_list_fuel(args, a, v, f);
                assert forall|i: int| 0 <= i < args.len() implies size(#[trigger] args[i]) == size(s2[i]) by {
                    lemma_rename_size(args[i], a, b, f);
                }
                lemma_size_list_pointwise(args, s2);
            },
            Term::Unop { operand, .. } => lemma_rename_size(*operand, a, b, f),
            Term::Binop { left, right, .. } => {
                lemma_rename_size(*left, a, b, f);
                lemma_rename_size(*right, a, b, f);
            },
            Term::AssocBinop { exprs, .. } => {
                let s2 = subst_list_fuel(exprs, a, v, f);
                assert forall|i: int| 0 <= i < exprs.len() implies size(#[trigger] exprs[i]) == size(s2[i]) by {
                    lemma_rename_size(exprs[i], a, b, f);
                }
                lemma_size_list_pointwise(exprs, s2);
            },
            Term::Quantifier { name, body, .. } => {
                if name != a {
                    if fv(v).contains(name) {
                        let fresh = gensym_name(name, fv(v));
                        let body0 = subst_fuel(*body, name, Term::Var { name: fresh }, f);
                        lemma_rename_size(*body, name, fresh, f);
                        lemma_rename_size(body0, a, b, f);
                    } else {
                        lemma_rename_size(*body, a, b, f);
                    }
                }
            },
            _ => {},
        }
    }
}

/// Any fuel of at least the size of the term gives the same substitution.
pub proof fn lemma_subst_fuel(t: Term, x: Seq<char>, v: Term, f1: nat, f2: nat)
    requires
        f1 >= size(t),
        f2 >= size(t),
    ensures
        subst_fuel(t, x, v, f1) == subst_fuel(t, x, v, f2),
    decreases size(t),
{
    let g1 = (f1 - 1) as nat;
    let g2 = (f2 - 1) as nat;
    match t {
        Term::Apply { func, args } => {
            lemma_subst_fuel(*func, x, v, g1, g2);
            assert forall|i: int| 0 <= i < args.len() implies subst_fuel(args[i], x, v, g1) == subst_fuel(args[i], x, v, g2) by {
                lemma_size_list_element(args, i);
                lemma_subst_fuel(args[i], x, v, g1, g2);
            }
            assert(subst_list_fuel(args, x, v, g1) =~= subst_list_fuel(args, x, v, g2));
        },
        Term::Unop { operand, .. } => lemma_subst_fuel(*operand, x, v, g1, g2),
        Term::Binop { left, right, .. } => {
            lemma_subst_fuel(*left, x, v, g1, g2);
            lemma_subst_fuel(*right, x, v, g1, g2);
        },
        Term::AssocBinop { exprs, .. } => {
            assert forall|i: int| 0 <= i < exprs.len() implies subst_fuel(exprs[i], x, v, g1) == subst_fuel(exprs[i], x, v, g2) by {
                lemma_size_list_element(exprs, i);
                lemma_subst_fuel(exprs[i], x, v, g1, g2);
            }
            assert(subst_list_fuel(exprs, x, v, g1) =~= subst_list_fuel(exprs, x, v, g2));
        },
        Term::Quantifier { name, body, .. } => {
            if name != x {
                if fv(v).contains(name) {
                    let fresh = gensym_name(name, fv(v));
                    let w = Term::Var { name: fresh };
                    lemma_subst_fuel(*body, name, w, g1, g2);
                    let body0 = subst_fuel(*body, name, w, g1);
                    lemma_rename_size(*body, name, fresh, g1);
                    lemma_subst_fuel(body0, x, v, g1, g2);
                } else {
                    lemma_subst_fuel(*body, x, v, g1, g2);
                }
            }
        },
        _ => {},
    }
}

/// Substitution in each formula of a list.
fn subst_list_in(es: &Vec<Expr>, x: &String, with: &Expr) -> (r: Vec<Expr>)
    ensures
        views(r@) == Seq::new(es@.len(), |i: int| subst_term(es@[i]@, x@, with@)),
    decreases size_list(views(es@)), 1nat,
{
    let mut r: Vec<Expr> = Vec::new();
    let mut i: usize = 0;
    while i < es.len()
        invariant
            i <= es.len(),
            r@.len() == i,
            forall|k: int| 0 <= k < i ==> (#[trigger] r@[k])@ == subst_term(es@[k]@, x@, with@),
        decreases es.len() - i,
    {
        proof {
            lemma_size_list_element(views(es@), i as int);
        }
        r.push(subst_in(&es[i], x, with));
        i = i + 1;
    }
    assert(views(r@) =~= Seq::new(es@.len(), |i: int| subst_term(es@[i]@, x@, with@)));
    r
}

/// With enough fuel, substitution in a sequence substitutes in each term.
pub proof fn lemma_subst_list_matches(s: Seq<Term>, x: Seq<char>, v: Term, f: nat)
    requires
        f >= size_list(s),
    ensures
        subst_list_fuel(s, x, v, f) == Seq::new(s.len(), |i: int| subst_term(s[i], x, v)),
{
    assert forall|i: int| 0 <= i < s.len() implies subst_fuel(s[i], x, v, f) == subst_term(s[i], x, v) by {
        lemma_size_list_element(s, i);
        lemma_subst_fuel(s[i], x, v, f, size(s[i]));
    }
    assert(subst_list_fuel(s, x, v, f) =~= Seq::new(s.len(), |i: int| subst_term(s[i], x, v)));
}

fn subst_in(e: &Expr, x: &String, with: &Expr) -> (r: Expr)
    ensures
        r@ == subst_term(e@, x@, with@),
    decreases size(e@), 0nat,
{
    proof {
        lemma_view_children(*e);
    }
    let ghost t = e@;
    let ghost f = (size(t) - 1) as nat;
    match e {
        Expr::Contradiction => Expr::Contradiction,
        Expr::Tautology => Expr::Tautology,
        Expr::Var { name } => {
            if *name == *x {
                deep_copy(with)
            } else {
                Expr::Var { name: name.clone() }
            }
        },
        Expr::Apply { func, args } => {
            let nf = subst_in(func, x, with);
            let na = subst_list_in(args, x, with);
            let r = Expr::Apply { func: Box::new(nf), args: na };
            proof {
                lemma_view_children(r);
                lemma_subst_fuel(func@, x@, with@, f, size(func@));
                lemma_subst_list_matches(views(args@), x@, with@, f);
                assert(views(na@) =~= subst_list_fuel(views(args@), x@, with@, f));
            }
            r
        },
        Expr::Unop { symbol, operand } => {
            let r = Expr::Unop { symbol: *symbol, operand: Box::new(subst_in(operand, x, with)) };
            proof {
                lemma_subst_fuel(operand@, x@, with@, f, size(operand@));
            }
            r
        },
        Expr::Binop { symbol, left, right } => {
            let r = Expr::Binop { symbol: *symbol, left: Box::new(subst_in(left, x, with)), right: Box::new(subst_in(right, x, with)) };
            proof {
                lemma_subst_fuel(left@, x@, with@, f, size(left@));
                lemma_subst_fuel(right@, x@, with@, f, size(right@));
            }
            r
        },
        Expr::AssocBinop { symbol, exprs } => {
            let ne = subst_list_in(exprs, x, with);
            let r = Expr::AssocBinop { symbol: *symbol, exprs: ne };
            proof {
                lemma_view_children(r);
                lemma_subst_list_matches(views(exprs@), x@, with@, f);
                assert(views(ne@) =~= subst_list_fuel(views(exprs@), x@, with@, f));
            }
            r
        },
        Expr::Quantifier { symbol, name, body } => {
            if *name == *x {
                return deep_copy(e);
            }
            let fv_with = freevars(with);
            if contains_name(&fv_with, name) {
                let fresh = gensym(name.as_str(), &fv_with);
                let renamed = Expr::Var { name: fresh.clone() };
                let body0 = subst_in(body, name, &renamed);
                proof {
                    lemma_rename_size(body@, name@, fresh@, f);
                }
                let body1 = subst_in(&body0, x, with);
                Expr::Quantifier { symbol: *symbol, name: fresh, body: Box::new(body1) }
            } else {
                let r = Expr::Quantifier { symbol: *symbol, name: name.clone(), body: Box::new(subst_in(body, x, with)) };
                proof {
                    lemma_subst_fuel(body@, x@, with@, f, size(body@));
                }
                r
            }
        },
    }
}

/// Replaces every free occurrence of `to_replace` in `e` by `with`; a binder
/// whose name is free in `with` is first renamed to a fresh name, so that no
/// free name of `with` is captured.
pub fn subst(e: &Expr, to_replace: &str, with: Expr) -> (r: Expr)
    ensures
        r@ == subst_term(e@, to_replace@, with@),
{
    let x = String::from_str(to_replace);
    subst_in(e, &x, &with)
}

/// A name is free in a sequence of terms exactly when it is free in one of them.
pub proof fn lemma_fv_list_contains(s: Seq<Term>, n: Seq<char>)
    ensures
        fv_list(s).contains(n) <==> exists|i: int| 0 <= i < s.len() && fv(#[trigger] s[i]).contains(n),
    decreases s.len(),
{
    if s.len() > 0 {
        let p = s.subrange(0, s.len() - 1);
        lemma_fv_list_contains(p, n);
        if fv_list(p).contains(n) {
            let i = choose|i: int| 0 <= i < p.len() && fv(#[trigger] p[i]).contains(n);
            assert(s[i] == p[i]);
        }
        if exists|i: int| 0 <= i < s.len() && fv(#[trigger] s[i]).contains(n) {
            let i = choose|i: int| 0 <= i < s.len() && fv(#[trigger] s[i]).contains(n);
            if i < s.len() - 1 {
                assert(p[i] == s[i]);
            }
        }
    }
}

proof fn lemma_subst_identity_fuel(t: Term, x: Seq<char>, fuel: nat)
    ensures
        subst_fuel(t, x, Term::Var { name: x }, fuel) == t,
    decreases fuel,
{
    if fuel > 0 {
        let f = (fuel - 1) as nat;
        let v = Term::Var { name: x };
        match t {
            Term::Apply { func, args } => {
                lemma_subst_identity_fuel(*func, x, f);
                assert forall|i: int| 0 <= i < args.len() implies subst_fuel(args[i], x, v, f) == args[i] by {
                    lemma_subst_identity_fuel(args[i], x, f);
                }
                assert(subst_list_fuel(args, x, v, f) =~= args);
            },
            Term::Unop { operand, .. } => lemma_subst_identity_fuel(*operand, x, f),
            Term::Binop { left, right, .. } => {
                lemma_subst_identity_fuel(*left, x, f);
                lemma_subst_identity_fuel(*right, x, f);
            },
            Term::AssocBinop { exprs, .. } => {
                assert forall|i: int| 0 <= i < exprs.len() implies subst_fuel(exprs[i], x, v, f) == exprs[i] by {
                    lemma_subst_identity_fuel(exprs[i], x, f);
                }
                assert(subst_list_fuel(exprs, x, v, f) =~= exprs);
            },
            Term::Quantifier { name, body, .. } => {
                assert(fv(v) =~= set![x]);
                lemma_subst_identity_fuel(*body, x, f);
            },
            _ => {},
        }
    }
}

/// Substituting a variable for itself gives the term back.
pub proof fn lemma_subst_identity(e: Term, x: Seq<char>)
    ensures
        subst_term(e, x, Term::Var { name: x }) == e,
{
    lemma_subst_identity_fuel(e, x, size(e));
}

proof fn lemma_subst_fv_fuel(t: Term, x: Seq<char>, v: Term, fuel: nat)
    requires
        fuel >= size(t),
    ensures
        fv(subst_fuel(t, x, v, fuel)).subset_of(fv(t).remove(x).union(fv(v))),
        wf(t) && wf(v) ==> wf(subst_fuel(t, x, v, fuel)),
    decreases fuel,
{
    let f = (fuel - 1) as nat;
    let r = subst_fuel(t, x, v, fuel);
    match t {
        Term::Apply { func, args } => {
            lemma_subst_fv_fuel(*func, x, v, f);
            let rs = subst_list_fuel(args, x, v, f);
            assert forall|i: int| 0 <= i < args.len() implies
                fv(#[trigger] rs[i]).subset_of(fv(args[i]).remove(x).union(fv(v)))
                && (wf(args[i]) && wf(v) ==> wf(rs[i])) by {
                lemma_size_list_element(args, i);
                lemma_subst_fv_fuel(args[i], x, v, f);
            }
            assert forall|n: Seq<char>| fv_list(rs).contains(n) implies fv_list(args).remove(x).union(fv(v)).contains(n) by {
                lemma_fv_list_contains(rs, n);
                lemma_fv_list_contains(args, n);
                let i = choose|i: int| 0 <= i < rs.len() && fv(#[trigger] rs[i]).contains(n);
                assert(fv(rs[i]).contains(n));
            }
            assert(r == Term::Apply { func: Box::new(subst_fuel(*func, x, v, f)), args: rs });
            assert(fv(r) == fv(subst_fuel(*func, x, v, f)).union(fv_list(rs)));
            assert(fv(t) == fv(*func).union(fv_list(args)));
            assert forall|n: Seq<char>| fv(r).contains(n) implies fv(t).remove(x).union(fv(v)).contains(n) by {
                if fv(subst_fuel(*func, x, v, f)).contains(n) {
                } else {
                    assert(fv_list(rs).contains(n));
                }
            }
            assert(fv(r).subset_of(fv(t).remove(x).union(fv(v))));
        },
        Term::Unop { operand, .. } => {
            lemma_subst_fv_fuel(*operand, x, v, f);
            assert(fv(r).subset_of(fv(t).remove(x).union(fv(v))));
        },
        Term::Binop { left, right, .. } => {
            lemma_subst_fv_fuel(*left, x, v, f);
            lemma_subst_fv_fuel(*right, x, v, f);
            assert(fv(r).subset_of(fv(t).remove(x).union(fv(v))));
        },
        Term::AssocBinop { exprs, .. } => {
            let rs = subst_list_fuel(exprs, x, v, f);
            assert forall|i: int| 0 <= i < exprs.len() implies
                fv(#[trigger] rs[i]).subset_of(fv(exprs[i]).remove(x).union(fv(v)))
                && (wf(exprs[i]) && wf(v) ==> wf(rs[i])) by {
                lemma_size_list_element(exprs, i);
                lemma_subst_fv_fuel(exprs[i], x, v, f);
            }
            assert forall|n: Seq<char>| fv_list(rs).contains(n) implies fv_list(exprs).remove(x).union(fv(v)).contains(n) by {
                lemma_fv_list_contains(rs, n);
                lemma_fv_list_contains(exprs, n);
                let i = choose|i: int| 0 <= i < rs.len() && fv(#[trigger] rs[i]).contains(n);
                assert(fv(rs[i]).contains(n));
            }
            assert(r == Term::AssocBinop { symbol: t->AssocBinop_symbol, exprs: rs });
            assert(fv(r) == fv_list(rs));
        },
        Term::Quantifier { name, body, .. } => {
            if name != x {
                if fv(v).contains(name) {
                    let fresh = gensym_name(name, fv(v));
                    let w = Term::Var { name: fresh };
                    let body0 = subst_fuel(*body, name, w, f);
                    lemma_subst_fv_fuel(*body, name, w, f);
                    lemma_rename_size(*body, name, fresh, f);
                    lemma_subst_fv_fuel(body0, x, v, f);
                    assert(fv(w) =~= set![fresh]);
                    assert(fv(r).subset_of(fv(t).remove(x).union(fv(v))));
                } else {
                    lemma_subst_fv_fuel(*body, x, v, f);
                    assert(fv(r).subset_of(fv(t).remove(x).union(fv(v))));
                }
            } else {
                assert(fv(t).remove(x) =~= fv(t));
            }
        },
        Term::Var { name } => {
            if name != x {
                assert(fv(t).remove(x) =~= fv(t));
            }
        },
        _ => {
            assert(fv(r).subset_of(fv(t).remove(x).union(fv(v))));
        },
    }
}

/// Substitution keeps terms well-formed, and the free names of the result
/// are among those of `e` other than `x`, and those of `v`.
pub proof fn lemma_subst_free_names(e: Term, x: Seq<char>, v: Term)
    ensures
        fv(subst_term(e, x, v)).subset_of(fv(e).remove(x).union(fv(v))),
        wf(e) && wf(v) ==> wf(subst_term(e, x, v)),
{
    lemma_subst_fv_fuel(e, x, v, size(e));
}

/// Capture avoidance at a binder: where substitution for `x` goes under a
/// quantifier that binds another name, the quantifier of the result binds
/// a name that is not free in `v`.
pub proof fn lemma_subst_binder_avoids(symbol: crate::expr::QSymbol, name: Seq<char>, body: Term, x: Seq<char>, v: Term)
    requires
        name != x,
    ensures
        subst_term(Term::Quantifier { symbol, name, body: Box::new(body) }, x, v) is Quantifier,
        !fv(v).contains(subst_term(Term::Quantifier { symbol, name, body: Box::new(body) }, x, v)->Quantifier_name),
{
    if fv(v).contains(name) {
        lemma_fv_finite(v);
        lemma_gensym_fresh(name, fv(v));
    }
}

} // verus!
