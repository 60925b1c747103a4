use libaris::expr::{ASymbol, BSymbol, Expr, QSymbol};
use libaris::expression_builders::{
    apply, assocbinop, assocplaceholder, binop, binopplaceholder, exists_expr, forall_expr, not, predicate,
    quantifierplaceholder, var,
};
use libaris::names::{freevars, gensym};
use libaris::subst::subst;
use libaris::unify::{unify, Constraint, Substitution};
use libaris::transform::combine_associative_ops;

fn and(es: &[Expr]) -> Expr {
    assocbinop(ASymbol::And, es)
}

fn or(es: &[Expr]) -> Expr {
    assocbinop(ASymbol::Or, es)
}

fn names(v: &[&str]) -> Vec<String> {
    v.iter().map(|s| s.to_string()).collect()
}

fn sorted(mut v: Vec<String>) -> Vec<String> {
    v.sort();
    v.dedup();
    v
}

fn apply_subst(e: &Expr, s: &Substitution<String, Expr>) -> Expr {
    let mut z = e.clone();
    for (x, y) in s.0.iter().rev() {
        z = subst(&z, x, y.clone());
    }
    z
}

fn u(l: Expr, r: Expr) -> Option<Substitution<String, Expr>> {
    unify(vec![Constraint::Equal(l, r)])
}

fn unifies_to_equal(l: Expr, r: Expr) -> Option<Substitution<String, Expr>> {
    let ret = u(l.clone(), r.clone());
    if let Some(ref s) = ret {
        assert_eq!(apply_subst(&l, s), apply_subst(&r, s));
    }
    ret
}

#[test]
fn test_subst() {
    // x & forall x, x
    let e = and(&[var("x"), forall_expr("x", var("x"))]);
    assert_eq!(subst(&e, "x", var("y")), and(&[var("y"), forall_expr("x", var("x"))]));
    // forall x, x & y
    let e = forall_expr("x", and(&[var("x"), var("y")]));
    assert_eq!(subst(&e, "y", var("x")), forall_expr("x0", and(&[var("x0"), var("x")])));
    assert_eq!(subst(&e, "y", var("z")), forall_expr("x", and(&[var("x"), var("z")])));
    // forall f, f(x) & g(y, z)
    let e = forall_expr("f", and(&[predicate("f", &["x"]), predicate("g", &["y", "z"])]));
    assert_eq!(
        subst(&e, "g", var("h")),
        forall_expr("f", and(&[predicate("f", &["x"]), predicate("h", &["y", "z"])]))
    );
    assert_eq!(
        subst(&e, "g", var("f")),
        forall_expr("f0", and(&[predicate("f0", &["x"]), predicate("f", &["y", "z"])]))
    );
}

#[test]
fn test_unify() {
    println!("{:?}", u(var("x"), forall_expr("y", var("y"))).map(|s| s.0.len()));
    println!("{:?}", u(forall_expr("y", var("y")), var("y")).map(|s| s.0.len()));
    println!("{:?}", u(var("x"), var("x")).map(|s| s.0.len()));
    let r = u(forall_expr("x", var("x")), forall_expr("y", var("y")));
    assert!(r.is_some());
    assert!(r.unwrap().0.is_empty());
    println!("{:?}", u(predicate("f", &["x", "y", "z"]), predicate("g", &["x", "y", "y"])).map(|s| s.0.len()));
    println!("{:?}", u(predicate("g", &["x", "y", "y"]), predicate("f", &["x", "y", "z"])).map(|s| s.0.len()));
    let l = forall_expr("foo", and(&[predicate("foo", &["x", "y", "z"]), var("bar")]));
    let r = forall_expr("bar", and(&[predicate("bar", &["x", "y", "z"]), var("baz")]));
    println!("{:?}", u(l, r).map(|s| s.0.len()));
    assert!(u(forall_expr("x", var("z")), forall_expr("y", var("y"))).is_none());
    assert!(u(and(&[var("x"), var("y")]), or(&[var("x"), var("y")])).is_none());
}

#[test]
pub fn test_combine_associative_ops() {
    // a & (b & (c | (p -> (q <-> (r <-> s)))) & ((t === u) === (v === ((w | x) | y))))
    let bicon = |es: &[Expr]| assocbinop(ASymbol::Bicon, es);
    let equiv = |es: &[Expr]| assocbinop(ASymbol::Equiv, es);
    let x_part = or(&[var("c"), binop(BSymbol::Implies, var("p"), bicon(&[var("q"), bicon(&[var("r"), var("s")])]))]);
    let y_part = equiv(&[equiv(&[var("t"), var("u")]), equiv(&[var("v"), or(&[or(&[var("w"), var("x")]), var("y")])])]);
    let e = and(&[var("a"), and(&[var("b"), x_part, y_part])]);
    let expected = and(&[
        var("a"),
        var("b"),
        or(&[var("c"), binop(BSymbol::Implies, var("p"), bicon(&[var("q"), var("r"), var("s")]))]),
        equiv(&[var("t"), var("u"), var("v"), or(&[var("w"), var("x"), var("y")])]),
    ]);
    assert_eq!(combine_associative_ops(e), expected);
    // a & ((b & c) | (q | r))
    let e = and(&[var("a"), or(&[and(&[var("b"), var("c")]), or(&[var("q"), var("r")])])]);
    let expected = and(&[var("a"), or(&[and(&[var("b"), var("c")]), var("q"), var("r")])]);
    assert_eq!(combine_associative_ops(e), expected);
    // (a & (b & c)) | (q | r)
    let e = or(&[and(&[var("a"), and(&[var("b"), var("c")])]), or(&[var("q"), var("r")])]);
    let expected = or(&[and(&[var("a"), var("b"), var("c")]), var("q"), var("r")]);
    assert_eq!(combine_associative_ops(e), expected);
}

#[test]
fn combine_flattens_single_level() {
    let e = and(&[var("a"), and(&[var("b"), var("c")])]);
    assert_eq!(combine_associative_ops(e), and(&[var("a"), var("b"), var("c")]));
}

#[test]
fn gensym_counts_from_zero() {
    assert_eq!(gensym("x", &vec![]), "x0");
    assert_eq!(gensym("x", &names(&["x0", "x1"])), "x2");
    assert_eq!(gensym("x", &names(&["x1"])), "x0");
    let many: Vec<String> = (0..11).map(|i| format!("a{}", i)).collect();
    assert_eq!(gensym("a", &many), "a11");
}

#[test]
fn freevars_skips_bound_names() {
    let e = and(&[forall_expr("x", and(&[var("x"), var("y")])), predicate("f", &["z"])]);
    assert_eq!(sorted(freevars(&e)), names(&["f", "y", "z"]));
    assert!(freevars(&Expr::Tautology).is_empty());
    assert!(freevars(&exists_expr("x", var("x"))).is_empty());
}

#[test]
fn subst_identity_keeps_term() {
    let e = forall_expr("y", and(&[var("x"), var("y"), exists_expr("x", var("x"))]));
    assert_eq!(subst(&e, "x", var("x")), e);
}

#[test]
fn subst_free_names_bounded() {
    let e = forall_expr("y", and(&[var("x"), var("y"), var("w")]));
    let v = predicate("g", &["y", "k"]);
    let r = subst(&e, "x", v.clone());
    let fr = sorted(freevars(&r));
    assert_eq!(fr, names(&["g", "k", "w", "y"]));
}

#[test]
fn subst_renames_capturing_binder() {
    let e = forall_expr("y", and(&[var("x"), var("y")]));
    let r = subst(&e, "x", var("y"));
    assert_eq!(r, forall_expr("y0", and(&[var("y"), var("y0")])));
    assert!(freevars(&r).contains(&"y".to_string()));
}

#[test]
fn unify_binds_variable() {
    let r = unifies_to_equal(predicate("f", &["x", "b"]), predicate("f", &["a", "y"])).unwrap();
    assert_eq!(r.0.len(), 2);
    let l = apply(var("g"), &[var("x"), var("y")]);
    let r = apply(var("g"), &[predicate("f", &["y"]), var("a")]);
    assert!(unifies_to_equal(l, r).is_some());
}

#[test]
fn unify_occurs_check_fails() {
    assert!(u(var("x"), predicate("f", &["x"])).is_none());
}

#[test]
fn unify_arity_mismatch_fails() {
    assert!(u(predicate("f", &["x"]), predicate("f", &["x", "y"])).is_none());
    assert!(u(not(var("a")), Expr::Tautology).is_none());
}

#[test]
fn unify_equal_terms_is_empty() {
    let r = u(and(&[var("a"), var("b")]), and(&[var("a"), var("b")])).unwrap();
    assert!(r.0.is_empty());
}

#[test]
fn builders_build_expected_shapes() {
    assert_eq!(binopplaceholder(BSymbol::Plus), binop(BSymbol::Plus, var("_"), var("_")));
    assert_eq!(assocplaceholder(ASymbol::Or), or(&[var("_"), var("_"), var("...")]));
    assert_eq!(
        quantifierplaceholder(QSymbol::Exists),
        exists_expr("_", var("_"))
    );
    assert_eq!(predicate("p", &["a"]), apply(var("p"), &[var("a")]));
    assert_ne!(forall_expr("x", var("x")), exists_expr("x", var("x")));
}

#[test]
fn display_uses_glyphs() {
    let e = forall_expr("x", and(&[not(var("x")), binop(BSymbol::Implies, var("a"), Expr::Contradiction)]));
    assert_eq!(e.to_string(), "(∀ x, (¬x ∧ (a → ⊥)))");
    assert_eq!(predicate("f", &["a", "b"]).to_string(), "f(a, b)");
    assert_eq!(predicate("p", &[]).to_string(), "p");
    assert_eq!(or(&[var("a"), Expr::Tautology, var("c")]).to_string(), "(a ∨ ⊤ ∨ c)");
    assert_eq!(exists_expr("y", var("y")).to_string(), "(∃ y, y)");
}

#[test]
fn unify_solution_makes_sides_equal() {
    let l = and(&[predicate("f", &["x"]), var("y")]);
    let r = and(&[predicate("f", &["a"]), not(var("x"))]);
    let s = unifies_to_equal(l.clone(), r.clone()).unwrap();
    assert_eq!(apply_subst(&l, &s), and(&[predicate("f", &["a"]), not(var("a"))]));
}
