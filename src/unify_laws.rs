use vstd::prelude::*;
use crate::expr::Term;
use crate::names::{fv, fv_list};
use crate::subst::{lemma_subst_identity, subst_term, subst_fuel, subst_list_fuel, size, lemma_subst_fuel, lemma_subst_list_matches, lemma_fv_list_contains};
use crate::unify::{unify_spec, subst_all, zip_terms, mentions, unification_base, UNIFY_STEPS};
use crate::names::gensym_name;
use crate::expr::QSymbol;
use crate::transform::apply_bindings;

verus! {

broadcast use {vstd::seq::axiom_seq_index_decreases};

/// The term holds no quantifier.
pub open spec fn qfree(t: Term) -> bool
    decreases t,
{
    match t {
        Term::Apply { func, args } => qfree(*func) && forall|i: int| 0 <= i < args.len() ==> qfree(#[trigger] args[i]),
        Term::Unop { operand, .. } => qfree(*operand),
        Term::Binop { left, right, .. } => qfree(*left) && qfree(*right),
        Term::AssocBinop { exprs, .. } => forall|i: int| 0 <= i < exprs.len() ==> qfree(#[trigger] exprs[i]),
        Term::Quantifier { .. } => false,
        _ => true,
    }
}

proof fn lemma_subst_qfree_fuel(t: Term, x: Seq<char>, v: Term, fuel: nat)
    requires
        qfree(t),
        qfree(v),
    ensures
        qfree(subst_fuel(t, x, v, fuel)),
        !fv(t).contains(x) ==> subst_fuel(t, x, v, fuel) == t,
    decreases fuel,
{
    if fuel > 0 {
        let f = (fuel - 1) as nat;
        match t {
            Term::Apply { func, args } => {
                lemma_subst_qfree_fuel(*func, x, v, f);
                let rs = subst_list_fuel(args, x, v, f);
                assert forall|i: int| 0 <= i < args.len() implies qfree(#[trigger] rs[i])
                    && (!fv(args[i]).contains(x) ==> rs[i] == args[i]) by {
                    lemma_subst_qfree_fuel(args[i], x, v, f);
                }
                if !fv(t).contains(x) {
                    assert forall|i: int| 0 <= i < args.len() implies rs[i] == args[i] by {
                        lemma_fv_list_contains(args, x);
                        if fv(args[i]).contains(x) {
                            assert(fv_list(args).contains(x));
                        }
                    }
                    assert(rs =~= args);
                }
            },
            Term::Unop { operand, .. } => lemma_subst_qfree_fuel(*operand, x, v, f),
            Term::Binop { left, right, .. } => {
                lemma_subst_qfree_fuel(*left, x, v, f);
                lemma_subst_qfree_fuel(*right, x, v, f);
            },
            Term::AssocBinop { exprs, .. } => {
                let rs = subst_list_fuel(exprs, x, v, f);
                assert forall|i: int| 0 <= i < exprs.len() implies qfree(#[trigger] rs[i])
                    && (!fv(exprs[i]).contains(x) ==> rs[i] == exprs[i]) by {
                    lemma_subst_qfree_fuel(exprs[i], x, v, f);
                }
                if !fv(t).contains(x) {
                    assert forall|i: int| 0 <= i < exprs.len() implies rs[i] == exprs[i] by {
                        lemma_fv_list_contains(exprs, x);
                        if fv(exprs[i]).contains(x) {
                            assert(fv_list(exprs).contains(x));
                        }
                    }
                    assert(rs =~= exprs);
                }
            },
            _ => {},
        }
    }
}

/// Substitution of a quantifier-free term in a quantifier-free term gives a
/// quantifier-free term, and leaves a term without the name as it is.
pub proof fn lemma_subst_qfree(t: Term, x: Seq<char>, v: Term)
    requires
        qfree(t),
        qfree(v),
    ensures
        qfree(subst_term(t, x, v)),
        !fv(t).contains(x) ==> subst_term(t, x, v) == t,
{
    lemma_subst_qfree_fuel(t, x, v, size(t));
}

/// Substitution goes into the sub-terms of a node that binds nothing.
pub proof fn lemma_subst_congruence(t: Term, x: Seq<char>, v: Term)
    ensures
        t matches Term::Apply { func, args } ==> subst_term(t, x, v) == (Term::Apply {
            func: Box::new(subst_term(*func, x, v)),
            args: Seq::new(args.len(), |i: int| subst_term(args[i], x, v)),
        }),
        t matches Term::Unop { symbol, operand } ==> subst_term(t, x, v) == (Term::Unop { symbol, operand: Box::new(subst_term(*operand, x, v)) }),
        t matches Term::Binop { symbol, left, right } ==> subst_term(t, x, v) == (Term::Binop {
            symbol,
            left: Box::new(subst_term(*left, x, v)),
            right: Box::new(subst_term(*right, x, v)),
        }),
        t matches Term::AssocBinop { symbol, exprs } ==> subst_term(t, x, v) == (Term::AssocBinop {
            symbol,
            exprs: Seq::new(exprs.len(), |i: int| subst_term(exprs[i], x, v)),
        }),
{
    let f = (size(t) - 1) as nat;
    match t {
        Term::Apply { func, args } => {
            lemma_subst_fuel(*func, x, v, f, size(*func));
            lemma_subst_list_matches(args, x, v, f);
        },
        Term::Unop { operand, .. } => lemma_subst_fuel(*operand, x, v, f, size(*operand)),
        Term::Binop { left, right, .. } => {
            lemma_subst_fuel(*left, x, v, f, size(*left));
            lemma_subst_fuel(*right, x, v, f, size(*right));
        },
        Term::AssocBinop { exprs, .. } => lemma_subst_list_matches(exprs, x, v, f),
        _ => {},
    }
}

/// Applying bindings goes into the sub-terms of a node that binds nothing.
pub proof fn lemma_apply_congruence(t: Term, s: Seq<(Seq<char>, Term)>)
    ensures
        t matches Term::Apply { func, args } ==> apply_bindings(t, s) == (Term::Apply {
            func: Box::new(apply_bindings(*func, s)),
            args: Seq::new(args.len(), |i: int| apply_bindings(args[i], s)),
        }),
        t matches Term::Unop { symbol, operand } ==> apply_bindings(t, s) == (Term::Unop { symbol, operand: Box::new(apply_bindings(*operand, s)) }),
        t matches Term::Binop { symbol, left, right } ==> apply_bindings(t, s) == (Term::Binop {
            symbol,
            left: Box::new(apply_bindings(*left, s)),
            right: Box::new(apply_bindings(*right, s)),
        }),
        t matches Term::AssocBinop { symbol, exprs } ==> apply_bindings(t, s) == (Term::AssocBinop {
            symbol,
            exprs: Seq::new(exprs.len(), |i: int| apply_bindings(exprs[i], s)),
        }),
    decreases s.len(),
{
    if s.len() == 0 {
        match t {
            Term::Apply { args, .. } => assert(Seq::new(args.len(), |i: int| apply_bindings(args[i], s)) =~= args),
            Term::AssocBinop { exprs, .. } => assert(Seq::new(exprs.len(), |i: int| apply_bindings(exprs[i], s)) =~= exprs),
            _ => {},
        }
    } else {
        let x = s.last().0;
        let v = s.last().1;
        let p = s.drop_last();
        let t1 = subst_term(t, x, v);
        lemma_subst_congruence(t, x, v);
        lemma_apply_congruence(t1, p);
        match t {
            Term::Apply { args, .. } => {
                let a1 = t1->Apply_args;
                assert(Seq::new(a1.len(), |i: int| apply_bindings(a1[i], p)) =~= Seq::new(args.len(), |i: int| apply_bindings(args[i], s)));
            },
            Term::AssocBinop { exprs, .. } => {
                let a1 = t1->AssocBinop_exprs;
                assert(Seq::new(a1.len(), |i: int| apply_bindings(a1[i], p)) =~= Seq::new(exprs.len(), |i: int| apply_bindings(exprs[i], s)));
            },
            _ => {},
        }
    }
}

/// Both sides of the equation are free of quantifiers.
pub open spec fn pair_qfree(p: (Term, Term)) -> bool {
    qfree(p.0) && qfree(p.1)
}

/// Both sides of each equation are free of quantifiers.
pub open spec fn all_qfree(cs: Seq<(Term, Term)>) -> bool {
    forall|i: int| 0 <= i < cs.len() ==> #[trigger] pair_qfree(cs[i])
}

/// The bindings, applied last first, make both sides of each equation equal.
pub open spec fn solves(s: Seq<(Seq<char>, Term)>, cs: Seq<(Term, Term)>) -> bool {
    forall|i: int| 0 <= i < cs.len() ==> apply_bindings(#[trigger] cs[i].0, s) == apply_bindings(cs[i].1, s)
}

proof fn lemma_subst_all_qfree(cs: Seq<(Term, Term)>, x: Seq<char>, v: Term)
    requires
        all_qfree(cs),
        qfree(v),
    ensures
        all_qfree(subst_all(cs, x, v)),
{
    assert forall|i: int| 0 <= i < cs.len() implies #[trigger] pair_qfree(subst_all(cs, x, v)[i]) by {
        assert(pair_qfree(cs[i]));
        lemma_subst_qfree(cs[i].0, x, v);
        lemma_subst_qfree(cs[i].1, x, v);
    }
}

/// Solving the rest after binding `x` to `v` solves the rest before it.
proof fn lemma_bind_solves(rest: Seq<(Term, Term)>, x: Seq<char>, v: Term, s: Seq<(Seq<char>, Term)>)
    requires
        solves(s, subst_all(rest, x, v)),
    ensures
        solves(s.push((x, v)), rest),
{
    let s2 = s.push((x, v));
    assert(s2.drop_last() =~= s);
    assert forall|i: int| 0 <= i < rest.len() implies apply_bindings(#[trigger] rest[i].0, s2) == apply_bindings(rest[i].1, s2) by {
        assert(subst_all(rest, x, v)[i].0 == subst_term(rest[i].0, x, v));
    }
}

proof fn lemma_unify_sound_fuel(cs: Seq<(Term, Term)>, fuel: nat)
    requires
        all_qfree(cs),
        unify_spec(cs, fuel) is Some,
    ensures
        solves(unify_spec(cs, fuel)->0, cs),
    decreases fuel, 1nat,
{
    if cs.len() > 0 {
        let f = (fuel - 1) as nat;
        let s = cs.last().0;
        let t = cs.last().1;
        let rest = cs.drop_last();
        let r = unify_spec(cs, fuel)->0;
        assert(pair_qfree(cs[cs.len() - 1]));
    assert(qfree(s) && qfree(t));
        assert forall|i: int| 0 <= i < rest.len() implies #[trigger] pair_qfree(rest[i]) by {
            assert(rest[i] == cs[i]);
        }
        assert(all_qfree(rest));
        if s == t {
            lemma_unify_sound_fuel(rest, f);
            assert forall|i: int| 0 <= i < cs.len() implies apply_bindings(#[trigger] cs[i].0, r) == apply_bindings(cs[i].1, r) by {
                if i < rest.len() {
                    assert(rest[i] == cs[i]);
                }
            }
        } else if s is Var && !fv(t).contains(s->Var_name) {
            let x = s->Var_name;
            lemma_subst_all_qfree(rest, x, t);
            lemma_unify_sound_fuel(subst_all(rest, x, t), f);
            let r1 = unify_spec(subst_all(rest, x, t), f)->0;
            lemma_bind_solves(rest, x, t, r1);
            assert(r == r1.push((x, t)));
            assert(r.drop_last() =~= r1);
            lemma_subst_qfree(t, x, t);
            assert(subst_term(s, x, t) == t);
            assert forall|i: int| 0 <= i < cs.len() implies apply_bindings(#[trigger] cs[i].0, r) == apply_bindings(cs[i].1, r) by {
                if i < rest.len() {
                    assert(rest[i] == cs[i]);
                }
            }
        } else if t is Var && !fv(s).contains(t->Var_name) {
            let x = t->Var_name;
            lemma_subst_all_qfree(rest, x, s);
            lemma_unify_sound_fuel(subst_all(rest, x, s), f);
            let r1 = unify_spec(subst_all(rest, x, s), f)->0;
            lemma_bind_solves(rest, x, s, r1);
            assert(r == r1.push((x, s)));
            assert(r.drop_last() =~= r1);
            lemma_subst_qfree(s, x, s);
            assert(subst_term(t, x, s) == s);
            assert forall|i: int| 0 <= i < cs.len() implies apply_bindings(#[trigger] cs[i].0, r) == apply_bindings(cs[i].1, r) by {
                if i < rest.len() {
                    assert(rest[i] == cs[i]);
                }
            }
        } else {
            lemma_unify_sound_structural(cs, fuel);
        }
    }
}

/// The equations between the sub-terms of two nodes of the same shape.
pub open spec fn parts(s: Term, t: Term) -> Seq<(Term, Term)> {
    match (s, t) {
        (Term::Unop { operand: so, .. }, Term::Unop { operand: to, .. }) => seq![(*so, *to)],
        (Term::Binop { left: sl, right: sr, .. }, Term::Binop { left: tl, right: tr, .. }) => seq![(*sl, *tl), (*sr, *tr)],
        (Term::Apply { func: sf, args: sa }, Term::Apply { func: tf, args: ta }) => seq![(*sf, *tf)] + zip_terms(sa, ta),
        (Term::AssocBinop { exprs: se, .. }, Term::AssocBinop { exprs: te, .. }) => zip_terms(se, te),
        _ => Seq::empty(),
    }
}

proof fn lemma_concat_qfree_solves(a: Seq<(Term, Term)>, b: Seq<(Term, Term)>, r: Seq<(Seq<char>, Term)>)
    ensures
        all_qfree(a) && all_qfree(b) ==> all_qfree(a + b),
        solves(r, a + b) ==> solves(r, a) && solves(r, b),
{
    let c = a + b;
    if all_qfree(a) && all_qfree(b) {
        assert forall|i: int| 0 <= i < c.len() implies #[trigger] pair_qfree(c[i]) by {
            if i < a.len() {
                assert(c[i] == a[i]);
            } else {
                assert(c[i] == b[i - a.len()]);
            }
        }
    }
    if solves(r, c) {
        assert forall|i: int| 0 <= i < a.len() implies apply_bindings(#[trigger] a[i].0, r) == apply_bindings(a[i].1, r) by {
            assert(c[i] == a[i]);
        }
        assert forall|i: int| 0 <= i < b.len() implies apply_bindings(#[trigger] b[i].0, r) == apply_bindings(b[i].1, r) by {
            assert(c[a.len() + i] == b[i]);
        }
    }
}

proof fn lemma_parts_qfree(s: Term, t: Term)
    requires
        qfree(s),
        qfree(t),
        s matches Term::Apply { args: sa, .. } ==> t matches Term::Apply { args: ta, .. } ==> sa.len() == ta.len(),
        s matches Term::AssocBinop { exprs: se, .. } ==> t matches Term::AssocBinop { exprs: te, .. } ==> se.len() == te.len(),
    ensures
        all_qfree(parts(s, t)),
{
    let p = parts(s, t);
    match (s, t) {
        (Term::Apply { func: sf, args: sa }, Term::Apply { func: tf, args: ta }) => {
            assert forall|i: int| 0 <= i < p.len() implies #[trigger] pair_qfree(p[i]) by {
                if i == 0 {
                    assert(p[i] == (*sf, *tf));
                } else {
                    assert(p[i] == (sa[i - 1], ta[i - 1]));
                }
            }
        },
        (Term::AssocBinop { exprs: se, .. }, Term::AssocBinop { exprs: te, .. }) => {
            assert forall|i: int| 0 <= i < p.len() implies #[trigger] pair_qfree(p[i]) by {
                assert(p[i] == (se[i], te[i]));
            }
        },
        (Term::Binop { .. }, Term::Binop { .. }) => {
            assert forall|i: int| 0 <= i < p.len() implies #[trigger] pair_qfree(p[i]) by {}
        },
        _ => {
            assert forall|i: int| 0 <= i < p.len() implies #[trigger] pair_qfree(p[i]) by {}
        },
    }
}

proof fn lemma_parts_rebuild(s: Term, t: Term, r: Seq<(Seq<char>, Term)>)
    requires
        solves(r, parts(s, t)),
        s matches Term::Unop { symbol: a, .. } ==> t matches Term::Unop { symbol: b, .. } ==> a == b,
        s matches Term::Binop { symbol: a, .. } ==> t matches Term::Binop { symbol: b, .. } ==> a == b,
        s matches Term::Apply { args: sa, .. } ==> t matches Term::Apply { args: ta, .. } ==> sa.len() == ta.len(),
        s matches Term::AssocBinop { symbol: a, exprs: se } ==> t matches Term::AssocBinop { symbol: b, exprs: te } ==> a == b && se.len() == te.len(),
        parts(s, t).len() > 0 || (s is AssocBinop && t is AssocBinop),
    ensures
        apply_bindings(s, r) == apply_bindings(t, r),
{
    let p = parts(s, t);
    lemma_apply_congruence(s, r);
    lemma_apply_congruence(t, r);
    match (s, t) {
        (Term::Unop { .. }, Term::Unop { .. }) => {
            assert(apply_bindings(p[0].0, r) == apply_bindings(p[0].1, r));
        },
        (Term::Binop { .. }, Term::Binop { .. }) => {
            assert(apply_bindings(p[0].0, r) == apply_bindings(p[0].1, r));
            assert(apply_bindings(p[1].0, r) == apply_bindings(p[1].1, r));
        },
        (Term::Apply { func: sf, args: sa }, Term::Apply { func: tf, args: ta }) => {
            assert(p[0] == (*sf, *tf));
            assert(apply_bindings(p[0].0, r) == apply_bindings(p[0].1, r));
            assert forall|i: int| 0 <= i < sa.len() implies apply_bindings(sa[i], r) == apply_bindings(ta[i], r) by {
                assert(p[i + 1] == (sa[i], ta[i]));
                assert(apply_bindings(p[i + 1].0, r) == apply_bindings(p[i + 1].1, r));
            }
            assert(Seq::new(sa.len(), |i: int| apply_bindings(sa[i], r)) =~= Seq::new(ta.len(), |i: int| apply_bindings(ta[i], r)));
        },
        (Term::AssocBinop { exprs: se, .. }, Term::AssocBinop { exprs: te, .. }) => {
            assert forall|i: int| 0 <= i < se.len() implies apply_bindings(se[i], r) == apply_bindings(te[i], r) by {
                assert(p[i] == (se[i], te[i]));
                assert(apply_bindings(p[i].0, r) == apply_bindings(p[i].1, r));
            }
            assert(Seq::new(se.len(), |i: int| apply_bindings(se[i], r)) =~= Seq::new(te.len(), |i: int| apply_bindings(te[i], r)));
        },
        _ => {},
    }
}

proof fn lemma_unify_sound_structural(cs: Seq<(Term, Term)>, fuel: nat)
    requires
        all_qfree(cs),
        unify_spec(cs, fuel) is Some,
        cs.len() > 0,
        fuel > 0,
        cs.last().0 != cs.last().1,
        !(cs.last().0 is Var && !fv(cs.last().1).contains(cs.last().0->Var_name)),
        !(cs.last().1 is Var && !fv(cs.last().0).contains(cs.last().1->Var_name)),
    ensures
        solves(unify_spec(cs, fuel)->0, cs),
    decreases fuel, 0nat,
{
    let f = (fuel - 1) as nat;
    let s = cs.last().0;
    let t = cs.last().1;
    let rest = cs.drop_last();
    let r = unify_spec(cs, fuel)->0;
    assert(pair_qfree(cs[cs.len() - 1]));
    assert(qfree(s) && qfree(t));
    assert forall|i: int| 0 <= i < rest.len() implies #[trigger] pair_qfree(rest[i]) by {
        assert(rest[i] == cs[i]);
    }
    let c2 = rest + parts(s, t);
    match (s, t) {
        (Term::Unop { .. }, Term::Unop { .. }) => {
            assert(c2 =~= rest.push(parts(s, t)[0]));
            assert(unify_spec(c2, f) == unify_spec(cs, fuel));
        },
        (Term::Binop { .. }, Term::Binop { .. }) => {
            assert(c2 =~= rest.push(parts(s, t)[0]).push(parts(s, t)[1]));
            assert(unify_spec(c2, f) == unify_spec(cs, fuel));
        },
        (Term::Apply { func: sf, args: sa }, Term::Apply { func: tf, args: ta }) => {
            assert(c2 =~= rest.push((*sf, *tf)) + zip_terms(sa, ta));
            assert(unify_spec(c2, f) == unify_spec(cs, fuel));
        },
        (Term::AssocBinop { .. }, Term::AssocBinop { .. }) => {
            assert(unify_spec(c2, f) == unify_spec(cs, fuel));
        },
        (Term::Quantifier { .. }, _) => {},
        _ => {
            assert(unify_spec(cs, fuel) is None);
        },
    }
    lemma_parts_qfree(s, t);
    lemma_concat_qfree_solves(rest, parts(s, t), r);
    lemma_unify_sound_fuel(c2, f);
    lemma_parts_rebuild(s, t, r);
    assert forall|i: int| 0 <= i < cs.len() implies apply_bindings(#[trigger] cs[i].0, r) == apply_bindings(cs[i].1, r) by {
        if i < rest.len() {
            assert(rest[i] == cs[i]);
        }
    }
}

/// Where the unifier solves an equation between two quantifier-free terms,
/// applying its bindings, the last one first, to both sides gives the same
/// term.
pub proof fn lemma_unify_sound(s: Term, t: Term)
    requires
        qfree(s),
        qfree(t),
        unify_spec(seq![(s, t)], UNIFY_STEPS as nat) is Some,
    ensures
        apply_bindings(s, unify_spec(seq![(s, t)], UNIFY_STEPS as nat)->0)
            == apply_bindings(t, unify_spec(seq![(s, t)], UNIFY_STEPS as nat)->0),
{
    let cs = seq![(s, t)];
    assert(cs[0] == (s, t));
    lemma_unify_sound_fuel(cs, UNIFY_STEPS as nat);
}

/// Renaming `x` to `y`, then `y` to `u`, renames `x` to `u`, in a
/// quantifier-free term where `y` is not free.
pub proof fn lemma_rename_twice(t: Term, x: Seq<char>, y: Seq<char>, u: Seq<char>)
    requires
        qfree(t),
        !fv(t).contains(y),
    ensures
        subst_term(subst_term(t, x, Term::Var { name: y }), y, Term::Var { name: u }) == subst_term(t, x, Term::Var { name: u }),
    decreases t,
{
    let vy = Term::Var { name: y };
    let vu = Term::Var { name: u };
    let t1 = subst_term(t, x, vy);
    lemma_subst_congruence(t, x, vy);
    lemma_subst_congruence(t, x, vu);
    lemma_subst_congruence(t1, y, vu);
    match t {
        Term::Var { name } => {
            assert(subst_term(t, x, vy) == (if name == x { vy } else { t }));
            assert(subst_term(vy, y, vu) == vu);
            if name != x {
                assert(subst_term(t, y, vu) == t);
            }
        },
        Term::Apply { func, args } => {
            lemma_rename_twice(*func, x, y, u);
            assert forall|i: int| 0 <= i < args.len() implies
                subst_term(subst_term(args[i], x, vy), y, vu) == subst_term(args[i], x, vu) by {
                lemma_fv_list_contains(args, y);
                lemma_rename_twice(args[i], x, y, u);
            }
            let a1 = t1->Apply_args;
            assert(Seq::new(a1.len(), |i: int| subst_term(a1[i], y, vu)) =~= Seq::new(args.len(), |i: int| subst_term(args[i], x, vu)));
        },
        Term::Unop { operand, .. } => lemma_rename_twice(*operand, x, y, u),
        Term::Binop { left, right, .. } => {
            lemma_rename_twice(*left, x, y, u);
            lemma_rename_twice(*right, x, y, u);
        },
        Term::AssocBinop { exprs, .. } => {
            assert forall|i: int| 0 <= i < exprs.len() implies
                subst_term(subst_term(exprs[i], x, vy), y, vu) == subst_term(exprs[i], x, vu) by {
                lemma_fv_list_contains(exprs, y);
                lemma_rename_twice(exprs[i], x, y, u);
            }
            let a1 = t1->AssocBinop_exprs;
            assert(Seq::new(a1.len(), |i: int| subst_term(a1[i], y, vu)) =~= Seq::new(exprs.len(), |i: int| subst_term(exprs[i], x, vu)));
        },
        _ => {},
    }
}

/// A quantifier over a quantifier-free body unifies, with no binding, with
/// the same quantifier over the body with its bound name renamed to a name
/// that is not free in it.
pub proof fn lemma_unify_alpha(q: QSymbol, x: Seq<char>, y: Seq<char>, b: Term)
    requires
        qfree(b),
        !fv(b).contains(y),
    ensures
        unify_spec(
            seq![(
                Term::Quantifier { symbol: q, name: x, body: Box::new(b) },
                Term::Quantifier { symbol: q, name: y, body: Box::new(subst_term(b, x, Term::Var { name: y })) },
            )],
            UNIFY_STEPS as nat,
        ) == Some(Seq::<(Seq<char>, Term)>::empty()),
{
    let s = Term::Quantifier { symbol: q, name: x, body: Box::new(b) };
    let t = Term::Quantifier { symbol: q, name: y, body: Box::new(subst_term(b, x, Term::Var { name: y })) };
    let cs = seq![(s, t)];
    let n = UNIFY_STEPS as nat;
    assert(cs.drop_last() =~= Seq::<(Term, Term)>::empty());
    assert(cs.last() == (s, t));
    assert(unify_spec(Seq::<(Term, Term)>::empty(), (n - 1) as nat) == Some(Seq::<(Seq<char>, Term)>::empty()));
    if x == y {
        lemma_subst_identity(b, x);
        assert(s == t);
    } else {
        assert(s != t);
        let u = gensym_name(unification_base(), fv(s).union(fv(t)));
        let uv = Term::Var { name: u };
        lemma_subst_identity(b, y);
        lemma_rename_twice(b, x, y, u);
        let a = subst_term(b, x, uv);
        assert(subst_term(*(t->Quantifier_body), y, uv) == a);
        let c2 = Seq::<(Term, Term)>::empty().push((a, a));
        assert(c2.drop_last() =~= Seq::<(Term, Term)>::empty());
        assert(c2.last() == (a, a));
        assert(unify_spec(Seq::<(Term, Term)>::empty(), (n - 2) as nat) == Some(Seq::<(Seq<char>, Term)>::empty()));
        assert(unify_spec(c2, (n - 1) as nat) == Some(Seq::<(Seq<char>, Term)>::empty()));
        assert(!mentions(Seq::<(Seq<char>, Term)>::empty(), u));
    }
}

} // verus!
