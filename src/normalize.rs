use vstd::prelude::*;
use crate::expr::{Expr, Term, ASymbol, USymbol, views, lemma_view_children};
use crate::expression_builders::{var, not};
use crate::names::{fv, fv_list};
use crate::transform::{reduce_pattern, reduces_by, pattern_views};

verus! {

/// The variable `n`.
pub open spec fn t_var(n: Seq<char>) -> Term {
    Term::Var { name: n }
}

/// The negation of `t`.
pub open spec fn t_not(t: Term) -> Term {
    Term::Unop { symbol: USymbol::Not, operand: Box::new(t) }
}

/// The associative connective `symbol` over `a` and `b`.
pub open spec fn t_pair(symbol: ASymbol, a: Term, b: Term) -> Term {
    Term::AssocBinop { symbol, exprs: seq![a, b] }
}

/// The pattern variable `phi`.
pub open spec fn phi() -> Term {
    t_var("phi"@)
}

/// `a & b`.
pub open spec fn t_and(a: Term, b: Term) -> Term {
    t_pair(ASymbol::And, a, b)
}

/// `a | b`.
pub open spec fn t_or(a: Term, b: Term) -> Term {
    t_pair(ASymbol::Or, a, b)
}

/// `~~phi` to `phi`.
pub open spec fn double_negation_patterns() -> Seq<(Term, Term)> {
    seq![(t_not(t_not(phi())), phi())]
}

/// `phi & ~phi`, `~phi & phi` to false; `phi | ~phi`, `~phi | phi` to true.
pub open spec fn complement_patterns() -> Seq<(Term, Term)> {
    seq![
        (t_and(phi(), t_not(phi())), Term::Contradiction),
        (t_and(t_not(phi()), phi()), Term::Contradiction),
        (t_or(phi(), t_not(phi())), Term::Tautology),
        (t_or(t_not(phi()), phi()), Term::Tautology),
    ]
}

/// `phi & T`, `T & phi`, `phi | F`, `F | phi` to `phi`.
pub open spec fn identity_patterns() -> Seq<(Term, Term)> {
    seq![
        (t_and(phi(), Term::Tautology), phi()),
        (t_and(Term::Tautology, phi()), phi()),
        (t_or(phi(), Term::Contradiction), phi()),
        (t_or(Term::Contradiction, phi()), phi()),
    ]
}

/// `phi & F`, `F & phi` to false; `phi | T`, `T | phi` to true.
pub open spec fn annihilation_patterns() -> Seq<(Term, Term)> {
    seq![
        (t_and(phi(), Term::Contradiction), Term::Contradiction),
        (t_and(Term::Contradiction, phi()), Term::Contradiction),
        (t_or(phi(), Term::Tautology), Term::Tautology),
        (t_or(Term::Tautology, phi()), Term::Tautology),
    ]
}

/// `~T` to false, `~F` to true.
pub open spec fn inverse_patterns() -> Seq<(Term, Term)> {
    seq![(t_not(Term::Tautology), Term::Contradiction), (t_not(Term::Contradiction), Term::Tautology)]
}

/// `A & (A | B)` and `A | (A & B)` to `A`, with either operand order at
/// either level.
pub open spec fn absorption_patterns() -> Seq<(Term, Term)> {
    let a = t_var("A"@);
    let b = t_var("B"@);
    seq![
        (t_and(a, t_or(a, b)), a),
        (t_and(a, t_or(b, a)), a),
        (t_and(t_or(a, b), a), a),
        (t_and(t_or(b, a), a), a),
        (t_or(a, t_and(a, b)), a),
        (t_or(a, t_and(b, a)), a),
        (t_or(t_and(a, b), a), a),
        (t_or(t_and(b, a), a), a),
    ]
}

proof fn lemma_fv_pair(symbol: ASymbol, a: Term, b: Term)
    ensures
        fv(t_pair(symbol, a, b)) == fv(a).union(fv(b)),
{
    let s = seq![a, b];
    assert(s.subrange(0, 1) =~= seq![a]);
    assert(seq![a].subrange(0, 0) =~= Seq::<Term>::empty());
    assert(fv_list(Seq::<Term>::empty()) == Set::<Seq<char>>::empty());
    assert(seq![a][0] == a);
    assert(fv_list(seq![a]) =~= fv(a));
    assert(fv_list(s) =~= fv(a).union(fv(b)));
}

fn pair(symbol: ASymbol, a: Expr, b: Expr) -> (r: Expr)
    ensures
        r@ == t_pair(symbol, a@, b@),
{
    let v = vec![a, b];
    let r = Expr::AssocBinop { symbol, exprs: v };
    proof {
        lemma_view_children(r);
        assert(views(v@) =~= seq![v@[0]@, v@[1]@]);
    }
    r
}

fn phi_expr() -> (r: Expr)
    ensures
        r@ == phi(),
{
    var("phi")
}

/// Removes double negations: `~~phi` becomes `phi`.
pub fn normalize_doublenegation(e: Expr) -> (r: Expr)
    ensures
        reduces_by(double_negation_patterns(), e@, r@),
{
    let pattern = (not(not(phi_expr())), phi_expr());
    let v = vec![pattern];
    assert(pattern_views(v@) =~= double_negation_patterns());
    assert(fv(t_not(phi())) == fv(phi()));
    assert(fv(t_not(t_not(phi()))) == fv(t_not(phi())));
    reduce_pattern(e, v)
}

/// Replaces a two-operand conjunction of a formula and its negation by
/// false, and such a disjunction by true.
pub fn normalize_complement(e: Expr) -> (r: Expr)
    ensures
        reduces_by(complement_patterns(), e@, r@),
{
    let v = vec![
        (pair(ASymbol::And, phi_expr(), not(phi_expr())), Expr::Contradiction),
        (pair(ASymbol::And, not(phi_expr()), phi_expr()), Expr::Contradiction),
        (pair(ASymbol::Or, phi_expr(), not(phi_expr())), Expr::Tautology),
        (pair(ASymbol::Or, not(phi_expr()), phi_expr()), Expr::Tautology),
    ];
    assert(pattern_views(v@) =~= complement_patterns());
    proof {
        assert(fv(Term::Contradiction) =~= Set::<Seq<char>>::empty());
        assert(fv(Term::Tautology) =~= Set::<Seq<char>>::empty());
    }
    reduce_pattern(e, v)
}

/// Drops a neutral operand from a two-operand conjunction (true) or
/// disjunction (false).
pub fn normalize_identity(e: Expr) -> (r: Expr)
    ensures
        reduces_by(identity_patterns(), e@, r@),
{
    let v = vec![
        (pair(ASymbol::And, phi_expr(), Expr::Tautology), phi_expr()),
        (pair(ASymbol::And, Expr::Tautology, phi_expr()), phi_expr()),
        (pair(ASymbol::Or, phi_expr(), Expr::Contradiction), phi_expr()),
        (pair(ASymbol::Or, Expr::Contradiction, phi_expr()), phi_expr()),
    ];
    assert(pattern_views(v@) =~= identity_patterns());
    proof {
        lemma_fv_pair(ASymbol::And, phi(), Term::Tautology);
        lemma_fv_pair(ASymbol::And, Term::Tautology, phi());
        lemma_fv_pair(ASymbol::Or, phi(), Term::Contradiction);
        lemma_fv_pair(ASymbol::Or, Term::Contradiction, phi());
    }
    reduce_pattern(e, v)
}

/// Replaces a two-operand conjunction with false by false, and a
/// disjunction with true by true.
pub fn normalize_annihilation(e: Expr) -> (r: Expr)
    ensures
        reduces_by(annihilation_patterns(), e@, r@),
{
    let v = vec![
        (pair(ASymbol::And, phi_expr(), Expr::Contradiction), Expr::Contradiction),
        (pair(ASymbol::And, Expr::Contradiction, phi_expr()), Expr::Contradiction),
        (pair(ASymbol::Or, phi_expr(), Expr::Tautology), Expr::Tautology),
        (pair(ASymbol::Or, Expr::Tautology, phi_expr()), Expr::Tautology),
    ];
    assert(pattern_views(v@) =~= annihilation_patterns());
    proof {
        assert(fv(Term::Contradiction) =~= Set::<Seq<char>>::empty());
        assert(fv(Term::Tautology) =~= Set::<Seq<char>>::empty());
    }
    reduce_pattern(e, v)
}

/// Replaces the negation of true by false and the negation of false by true.
pub fn normalize_inverse(e: Expr) -> (r: Expr)
    ensures
        reduces_by(inverse_patterns(), e@, r@),
{
    let v = vec![(not(Expr::Tautology), Expr::Contradiction), (not(Expr::Contradiction), Expr::Tautology)];
    assert(pattern_views(v@) =~= inverse_patterns());
    proof {
        assert(fv(Term::Contradiction) =~= Set::<Seq<char>>::empty());
        assert(fv(Term::Tautology) =~= Set::<Seq<char>>::empty());
    }
    reduce_pattern(e, v)
}

/// Absorption: `A & (A | B)` and `A | (A & B)` become `A`, with either
/// operand order at either level (two-operand connectives).
pub fn normalize_absorption(e: Expr) -> (r: Expr)
    ensures
        reduces_by(absorption_patterns(), e@, r@),
{
    let v = vec![
        (pair(ASymbol::And, var("A"), pair(ASymbol::Or, var("A"), var("B"))), var("A")),
        (pair(ASymbol::And, var("A"), pair(ASymbol::Or, var("B"), var("A"))), var("A")),
        (pair(ASymbol::And, pair(ASymbol::Or, var("A"), var("B")), var("A")), var("A")),
        (pair(ASymbol::And, pair(ASymbol::Or, var("B"), var("A")), var("A")), var("A")),
        (pair(ASymbol::Or, var("A"), pair(ASymbol::And, var("A"), var("B"))), var("A")),
        (pair(ASymbol::Or, var("A"), pair(ASymbol::And, var("B"), var("A"))), var("A")),
        (pair(ASymbol::Or, pair(ASymbol::And, var("A"), var("B")), var("A")), var("A")),
        (pair(ASymbol::Or, pair(ASymbol::And, var("B"), var("A")), var("A")), var("A")),
    ];
    assert(pattern_views(v@) =~= absorption_patterns());
    proof {
        let a = t_var("A"@);
        let b = t_var("B"@);
        lemma_fv_pair(ASymbol::Or, a, b);
        lemma_fv_pair(ASymbol::Or, b, a);
        lemma_fv_pair(ASymbol::And, a, b);
        lemma_fv_pair(ASymbol::And, b, a);
        lemma_fv_pair(ASymbol::And, a, t_or(a, b));
        lemma_fv_pair(ASymbol::And, a, t_or(b, a));
        lemma_fv_pair(ASymbol::And, t_or(a, b), a);
        lemma_fv_pair(ASymbol::And, t_or(b, a), a);
        lemma_fv_pair(ASymbol::Or, a, t_and(a, b));
        lemma_fv_pair(ASymbol::Or, a, t_and(b, a));
        lemma_fv_pair(ASymbol::Or, t_and(a, b), a);
        lemma_fv_pair(ASymbol::Or, t_and(b, a), a);
    }
    reduce_pattern(e, v)
}

} // verus!
