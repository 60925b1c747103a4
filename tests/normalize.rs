use libaris::expr::{ASymbol, BSymbol, Expr};
use libaris::expression_builders::{assocbinop, binop, not, var};
use libaris::normalize::{
    normalize_absorption, normalize_annihilation, normalize_complement, normalize_doublenegation,
    normalize_identity, normalize_inverse,
};
use libaris::order::compare_expr;
use libaris::transform::{normalize_demorgans, normalize_idempotence, reduce_pattern, sort_commutative_ops};

fn and(es: &[Expr]) -> Expr {
    assocbinop(ASymbol::And, es)
}

fn or(es: &[Expr]) -> Expr {
    assocbinop(ASymbol::Or, es)
}

#[test]
fn demorgans_three_operands() {
    let e = not(and(&[var("a"), var("b"), var("c")]));
    assert_eq!(normalize_demorgans(e), or(&[not(var("a")), not(var("b")), not(var("c"))]));
}

#[test]
fn demorgans_nested() {
    let e = not(or(&[var("a"), not(and(&[var("b"), var("c")]))]));
    let expected = and(&[not(var("a")), and(&[not(not(var("b"))), not(not(var("c")))])]);
    assert_eq!(normalize_demorgans(e), expected);
}

#[test]
fn absorption_scenario() {
    let e = and(&[var("A"), or(&[var("A"), var("B")])]);
    assert_eq!(normalize_absorption(e), var("A"));
    let e = or(&[and(&[var("q"), var("p")]), var("p")]);
    assert_eq!(normalize_absorption(e), var("p"));
    let e = and(&[var("a"), or(&[var("b"), var("c")])]);
    assert_eq!(normalize_absorption(e.clone()), e);
}

#[test]
fn double_negation_removed() {
    assert_eq!(normalize_doublenegation(not(not(var("a")))), var("a"));
    assert_eq!(normalize_doublenegation(not(not(not(var("a"))))), not(var("a")));
    assert_eq!(normalize_doublenegation(not(not(var("phi")))), var("phi"));
}

#[test]
fn complement_to_constants() {
    assert_eq!(normalize_complement(and(&[var("a"), not(var("a"))])), Expr::Contradiction);
    assert_eq!(normalize_complement(or(&[not(var("a")), var("a")])), Expr::Tautology);
    let e = and(&[var("a"), not(var("b"))]);
    assert_eq!(normalize_complement(e.clone()), e);
}

#[test]
fn identity_drops_neutral() {
    assert_eq!(normalize_identity(and(&[var("a"), Expr::Tautology])), var("a"));
    assert_eq!(normalize_identity(or(&[Expr::Contradiction, var("a")])), var("a"));
}

#[test]
fn annihilation_to_constants() {
    assert_eq!(normalize_annihilation(and(&[var("a"), Expr::Contradiction])), Expr::Contradiction);
    assert_eq!(normalize_annihilation(or(&[Expr::Tautology, var("a")])), Expr::Tautology);
}

#[test]
fn inverse_of_constants() {
    assert_eq!(normalize_inverse(not(Expr::Tautology)), Expr::Contradiction);
    assert_eq!(normalize_inverse(not(Expr::Contradiction)), Expr::Tautology);
    assert_eq!(normalize_inverse(not(var("a"))), not(var("a")));
}

#[test]
fn idempotence_collapses_equal_operands() {
    assert_eq!(normalize_idempotence(and(&[var("a"), var("a"), var("a")])), var("a"));
    let e = or(&[var("a"), var("b")]);
    assert_eq!(normalize_idempotence(e.clone()), e);
}

#[test]
fn sort_orders_commutative_operands() {
    assert_eq!(sort_commutative_ops(or(&[var("b"), var("a")])), or(&[var("a"), var("b")]));
    assert_eq!(
        sort_commutative_ops(binop(BSymbol::Plus, var("b"), var("a"))),
        binop(BSymbol::Plus, var("a"), var("b"))
    );
    let e = binop(BSymbol::Implies, var("b"), var("a"));
    assert_eq!(sort_commutative_ops(e.clone()), e);
    let e = and(&[Expr::Tautology, var("c"), Expr::Contradiction, not(var("a"))]);
    assert_eq!(
        sort_commutative_ops(e),
        and(&[Expr::Contradiction, Expr::Tautology, var("c"), not(var("a"))])
    );
}

#[test]
fn sort_twice_equals_once() {
    let e = or(&[and(&[var("z"), var("y")]), binop(BSymbol::Mult, var("q"), var("p")), var("a")]);
    let once = sort_commutative_ops(e);
    assert_eq!(sort_commutative_ops(once.clone()), once);
}

#[test]
fn pass_on_own_output_is_fixed() {
    let e = not(and(&[var("a"), not(or(&[var("b"), var("c")]))]));
    let once = normalize_demorgans(e);
    assert_eq!(normalize_demorgans(once.clone()), once);
}

#[test]
fn compare_follows_kind_then_fields() {
    assert_eq!(compare_expr(&Expr::Contradiction, &Expr::Tautology), -1);
    assert_eq!(compare_expr(&var("b"), &var("a")), 1);
    assert_eq!(compare_expr(&var("a"), &var("ab")), -1);
    assert_eq!(compare_expr(&not(var("a")), &not(var("a"))), 0);
}

#[test]
fn reduce_pattern_two_operand_demorgan() {
    let pattern1 = not(and(&[var("phi"), var("psi")]));
    let replace1 = or(&[not(var("phi")), not(var("psi"))]);
    let e = not(and(&[var("x"), var("y")]));
    let r = reduce_pattern(e, vec![(pattern1, replace1)]);
    assert_eq!(r, or(&[not(var("x")), not(var("y"))]));
}
