use vstd::prelude::*;
use crate::expr::{Expr, Term, views, lemma_view_children, deep_copy, expr_eq};
use crate::names::{fv, gensym_name, freevars, gensym, contains_name, extend_names};
use crate::subst::{subst_term, subst};

verus! {

broadcast use {vstd::std_specs::vec::axiom_vec_decreases_to_view, vstd::seq::axiom_seq_index_decreases};

/// An equation between two values.
pub enum Constraint<A> {
    Equal(A, A),
}

/// A sequence of bindings of names to values, applied from the last to the first.
pub struct Substitution<A, B>(pub Vec<(A, B)>);

/// The number of steps the unifier takes at most before it gives up.
pub const UNIFY_STEPS: u64 = 1000000;

/// The equations, as pairs of terms.
pub open spec fn constraint_views(c: Seq<Constraint<Expr>>) -> Seq<(Term, Term)> {
    Seq::new(c.len(), |i: int| match c[i] { Constraint::Equal(a, b) => (a@, b@) })
}

/// The bindings, as pairs of a name and a term.
pub open spec fn binding_views(s: Seq<(String, Expr)>) -> Seq<(Seq<char>, Term)> {
    Seq::new(s.len(), |i: int| (s[i].0@, s[i].1@))
}

/// The unifier's result, as a sequence of bindings of names to terms.
pub open spec fn substitution_view(r: Option<Substitution<String, Expr>>) -> Option<Seq<(Seq<char>, Term)>> {
    match r {
        Some(s) => Some(binding_views(s.0@)),
        None => None,
    }
}

/// Substitution of `v` for `x` on both sides of every equation.
pub open spec fn subst_all(cs: Seq<(Term, Term)>, x: Seq<char>, v: Term) -> Seq<(Term, Term)> {
    Seq::new(cs.len(), |i: int| (subst_term(cs[i].0, x, v), subst_term(cs[i].1, x, v)))
}

/// Equations between the terms of two sequences, position by position.
pub open spec fn zip_terms(a: Seq<Term>, b: Seq<Term>) -> Seq<(Term, Term)> {
    Seq::new(a.len(), |i: int| (a[i], b[i]))
}

/// Some binding binds `u` or has `u` free in its value.
pub open spec fn mentions(s: Seq<(Seq<char>, Term)>, u: Seq<char>) -> bool {
    exists|i: int| 0 <= i < s.len() && (s[i].0 == u || fv(s[i].1).contains(u))
}

/// The binding of `x` to `t`, after those that solve the rest.
pub open spec fn bind(r: Option<Seq<(Seq<char>, Term)>>, x: Seq<char>, t: Term) -> Option<Seq<(Seq<char>, Term)>> {
    match r {
        Some(s) => Some(s.push((x, t))),
        None => None,
    }
}

/// The base of the fresh name that stands for two bound names at once.
pub open spec fn unification_base() -> Seq<char> {
    "__unification_var"@
}

/// The unifier: it solves the last equation first, and gives up (`None`)
/// after `fuel` steps.
pub open spec fn unify_spec(cs: Seq<(Term, Term)>, fuel: nat) -> Option<Seq<(Seq<char>, Term)>>
    decreases fuel,
{
    if fuel == 0 {
        None
    } else if cs.len() == 0 {
        Some(Seq::empty())
    } else {
        let f = (fuel - 1) as nat;
        let s = cs.last().0;
        let t = cs.last().1;
        let rest = cs.drop_last();
        if s == t {
            unify_spec(rest, f)
        } else if s is Var && !fv(t).contains(s->Var_name) {
            bind(unify_spec(subst_all(rest, s->Var_name, t), f), s->Var_name, t)
        } else if t is Var && !fv(s).contains(t->Var_name) {
            bind(unify_spec(subst_all(rest, t->Var_name, s), f), t->Var_name, s)
        } else {
            match (s, t) {
                (Term::Unop { symbol: ss, operand: so }, Term::Unop { symbol: ts, operand: to }) =>
                    if ss == ts { unify_spec(rest.push((*so, *to)), f) } else { None },
                (Term::Binop { symbol: ss, left: sl, right: sr }, Term::Binop { symbol: ts, left: tl, right: tr }) =>
                    if ss == ts { unify_spec(rest.push((*sl, *tl)).push((*sr, *tr)), f) } else { None },
                (Term::Apply { func: sf, args: sa }, Term::Apply { func: tf, args: ta }) =>
                    if sa.len() == ta.len() { unify_spec(rest.push((*sf, *tf)) + zip_terms(sa, ta), f) } else { None },
                (Term::AssocBinop { symbol: ss, exprs: se }, Term::AssocBinop { symbol: ts, exprs: te }) =>
                    if ss == ts && se.len() == te.len() { unify_spec(rest + zip_terms(se, te), f) } else { None },
                (Term::Quantifier { symbol: ss, name: sn, body: sb }, Term::Quantifier { symbol: ts, name: tn, body: tb }) =>
                    if ss == ts {
                        let u = gensym_name(unification_base(), fv(s).union(fv(t)));
                        let uv = Term::Var { name: u };
                        match unify_spec(rest.push((subst_term(*sb, sn, uv), subst_term(*tb, tn, uv))), f) {
                            Some(r) => if mentions(r, u) { None } else { Some(r) },
                            None => None,
                        }
                    } else {
                        None
                    },
                _ => None,
            }
        }
    }
}

/// Substitutes `v` for `x` on both sides of every equation.
fn subst_constraints(c: &Vec<Constraint<Expr>>, x: &String, v: &Expr) -> (r: Vec<Constraint<Expr>>)
    ensures
        constraint_views(r@) == subst_all(constraint_views(c@), x@, v@),
{
    let mut r: Vec<Constraint<Expr>> = Vec::new();
    let mut i: usize = 0;
    while i < c.len()
        invariant
            i <= c.len(),
            r@.len() == i,
            forall|k: int| 0 <= k < i ==> constraint_views(r@)[k] == subst_all(constraint_views(c@), x@, v@)[k],
        decreases c.len() - i,
    {
        let Constraint::Equal(a, b) = &c[i];
        let na = subst(a, x.as_str(), deep_copy(v));
        let nb = subst(b, x.as_str(), deep_copy(v));
        let ghost r_old = r@;
        r.push(Constraint::Equal(na, nb));
        proof {
            assert(constraint_views(r@)[i as int] == subst_all(constraint_views(c@), x@, v@)[i as int]);
            assert forall|k: int| 0 <= k < i + 1 implies constraint_views(r@)[k] == subst_all(constraint_views(c@), x@, v@)[k] by {
                if k < i {
                    assert(r@[k] == r_old[k]);
                    assert(constraint_views(r@)[k] == constraint_views(r_old)[k]);
                }
            }
        }
        i = i + 1;
    }
    assert(constraint_views(r@) =~= subst_all(constraint_views(c@), x@, v@));
    r
}

/// Whether some binding binds `u` or has `u` free in its value.
fn mentions_name(s: &Vec<(String, Expr)>, u: &String) -> (r: bool)
    ensures
        r == mentions(binding_views(s@), u@),
{
    let mut i: usize = 0;
    while i < s.len()
        invariant
            i <= s.len(),
            forall|k: int| 0 <= k < i ==> !(s@[k].0@ == u@ || fv(s@[k].1@).contains(u@)),
        decreases s.len() - i,
    {
        let (x, y) = &s[i];
        if *x == *u || contains_name(&freevars(y), u) {
            assert(binding_views(s@)[i as int] == (s@[i as int].0@, s@[i as int].1@));
            return true;
        }
        i = i + 1;
    }
    proof {
        assert forall|k: int| 0 <= k < s@.len() implies !(binding_views(s@)[k].0 == u@ || fv(binding_views(s@)[k].1).contains(u@)) by {
            assert(binding_views(s@)[k] == (s@[k].0@, s@[k].1@));
        }
    }
    false
}

/// Appends the equations between the formulas of `a` and `b`, position by position.
fn push_pairs(c: &mut Vec<Constraint<Expr>>, a: &Vec<Expr>, b: &Vec<Expr>)
    requires
        a.len() == b.len(),
    ensures
        constraint_views(final(c)@) == constraint_views(old(c)@) + zip_terms(views(a@), views(b@)),
{
    let ghost c0 = constraint_views(c@);
    let mut i: usize = 0;
    while i < a.len()
        invariant
            a.len() == b.len(),
            i <= a.len(),
            constraint_views(c@) == c0 + zip_terms(views(a@), views(b@)).subrange(0, i as int),
        decreases a.len() - i,
    {
        let ghost c1 = c@;
        c.push(Constraint::Equal(deep_copy(&a[i]), deep_copy(&b[i])));
        proof {
            assert(constraint_views(c@) =~= constraint_views(c1).push((a@[i as int]@, b@[i as int]@)));
            assert(constraint_views(c@) =~= c0 + zip_terms(views(a@), views(b@)).subrange(0, i + 1));
        }
        i = i + 1;
    }
    assert(zip_terms(views(a@), views(b@)).subrange(0, a.len() as int) =~= zip_terms(views(a@), views(b@)));
}

/// Adds the binding of `x` to `t` after the solution of the rest.
fn bind_after(r: Option<Substitution<String, Expr>>, x: &String, t: Expr) -> (o: Option<Substitution<String, Expr>>)
    ensures
        substitution_view(o) == bind(substitution_view(r), x@, t@),
{
    match r {
        Some(sub) => {
            let mut v = sub.0;
            let ghost v0 = v@;
            v.push((x.clone(), t));
            assert(binding_views(v@) =~= binding_views(v0).push((x@, t@)));
            Some(Substitution(v))
        },
        None => None,
    }
}

/// Solves the equations of `c`, the last one first, in at most `fuel` steps.
fn unify_steps(c: Vec<Constraint<Expr>>, fuel: u64) -> (r: Option<Substitution<String, Expr>>)
    ensures
        substitution_view(r) == unify_spec(constraint_views(c@), fuel as nat),
    decreases fuel,
{
    if fuel == 0 {
        return None;
    }
    if c.len() == 0 {
        let r = Some(Substitution(Vec::new()));
        assert(binding_views(Seq::<(String, Expr)>::empty()) =~= Seq::<(Seq<char>, Term)>::empty());
        return r;
    }
    let ghost cs = constraint_views(c@);
    let mut c = c;
    let last = c.pop().unwrap();
    let Constraint::Equal(s, t) = last;
    proof {
        assert(constraint_views(c@) =~= cs.drop_last());
        assert(cs.last() == (s@, t@));
        lemma_view_children(s);
        lemma_view_children(t);
    }
    let f = fuel - 1;
    if expr_eq(&s, &t) {
        return unify_steps(c, f);
    }
    if let Expr::Var { name } = &s {
        if !contains_name(&freevars(&t), name) {
            let rest = subst_constraints(&c, name, &t);
            let x = name.clone();
            return bind_after(unify_steps(rest, f), &x, t);
        }
    }
    if let Expr::Var { name } = &t {
        if !contains_name(&freevars(&s), name) {
            let rest = subst_constraints(&c, name, &s);
            let x = name.clone();
            return bind_after(unify_steps(rest, f), &x, s);
        }
    }
    let ghost s_view = s@;
    let ghost t_view = t@;
    let avoid_s = freevars(&s);
    let avoid_t = freevars(&t);
    match (s, t) {
        (Expr::Unop { symbol: ss, operand: so }, Expr::Unop { symbol: ts, operand: to }) => {
            if ss == ts {
                c.push(Constraint::Equal(*so, *to));
                proof {
                    assert(constraint_views(c@) =~= cs.drop_last().push((*(s_view->Unop_operand), *(t_view->Unop_operand))));
                }
                unify_steps(c, f)
            } else {
                None
            }
        },
        (Expr::Binop { symbol: ss, left: sl, right: sr }, Expr::Binop { symbol: ts, left: tl, right: tr }) => {
            if ss == ts {
                c.push(Constraint::Equal(*sl, *tl));
                c.push(Constraint::Equal(*sr, *tr));
                proof {
                    assert(constraint_views(c@) =~= cs.drop_last().push((*(s_view->Binop_left), *(t_view->Binop_left))).push(
                        (*(s_view->Binop_right), *(t_view->Binop_right))));
                }
                unify_steps(c, f)
            } else {
                None
            }
        },
        (Expr::Apply { func: sf, args: sa }, Expr::Apply { func: tf, args: ta }) => {
            if sa.len() == ta.len() {
                c.push(Constraint::Equal(*sf, *tf));
                proof {
                    assert(constraint_views(c@) =~= cs.drop_last().push((*(s_view->Apply_func), *(t_view->Apply_func))));
                }
                push_pairs(&mut c, &sa, &ta);
                unify_steps(c, f)
            } else {
                None
            }
        },
        (Expr::AssocBinop { symbol: ss, exprs: se }, Expr::AssocBinop { symbol: ts, exprs: te }) => {
            if ss == ts && se.len() == te.len() {
                push_pairs(&mut c, &se, &te);
                unify_steps(c, f)
            } else {
                None
            }
        },
        (Expr::Quantifier { symbol: ss, name: sn, body: sb }, Expr::Quantifier { symbol: ts, name: tn, body: tb }) => {
            if ss == ts {
                let mut avoid = avoid_s;
                extend_names(&mut avoid, avoid_t);
                let u = gensym("__unification_var", &avoid);
                let lhs = subst(&sb, sn.as_str(), Expr::Var { name: u.clone() });
                let rhs = subst(&tb, tn.as_str(), Expr::Var { name: u.clone() });
                c.push(Constraint::Equal(lhs, rhs));
                proof {
                    assert(constraint_views(c@) =~= cs.drop_last().push((lhs@, rhs@)));
                }
                match unify_steps(c, f) {
                    Some(sub) => {
                        if mentions_name(&sub.0, &u) {
                            None
                        } else {
                            Some(sub)
                        }
                    },
                    None => None,
                }
            } else {
                None
            }
        },
        _ => None,
    }
}

/// Solves a list of equations between formulas: `Some` of a substitution
/// that makes both sides of each equation equal, bound variables being
/// matched up to renaming, or `None` where there is none. The equations are
/// taken from the last one; the unifier gives up, with `None`, after
/// `UNIFY_STEPS` steps.
pub fn unify(c: Vec<Constraint<Expr>>) -> (r: Option<Substitution<String, Expr>>)
    ensures
        substitution_view(r) == unify_spec(constraint_views(c@), UNIFY_STEPS as nat),
{
    unify_steps(c, UNIFY_STEPS)
}

} // verus!
