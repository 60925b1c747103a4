use vstd::prelude::*;
use crate::expr::{Term, ASymbol};
use crate::transform::{
    Rule, rule_step, step, step_children, any_true, has_children, transform_rounds, transform_term, converges,
    flatten, splice, has_nested, try_patterns, TRANSFORM_DEPTH, TRANSFORM_ROUNDS,
};

verus! {

broadcast use {vstd::seq::axiom_seq_index_decreases};

proof fn lemma_flatten_unchanged(sym: ASymbol, s: Seq<Term>)
    requires
        !has_nested(sym, s),
    ensures
        flatten(sym, s) == s,
    decreases s.len(),
{
    if s.len() > 0 {
        let p = s.drop_last();
        if has_nested(sym, p) {
            let k = choose|k: int| 0 <= k < p.len() && (#[trigger] p[k] matches Term::AssocBinop { symbol, .. } && symbol == sym);
            assert(s[k] == p[k]);
        }
        lemma_flatten_unchanged(sym, p);
        assert(!(s[s.len() - 1] matches Term::AssocBinop { symbol, .. } && symbol == sym));
        assert(splice(sym, s.last()) == seq![s.last()]);
        assert(p + seq![s.last()] =~= s);
    }
}

proof fn lemma_patterns_unchanged(ps: Seq<crate::transform::Pattern>, t: Term, i: nat)
    ensures
        !try_patterns(ps, t, i).1 ==> try_patterns(ps, t, i).0 == t,
    decreases ps.len() - i,
{
    if i < ps.len() {
        lemma_patterns_unchanged(ps, t, i + 1);
    }
}

/// A rule that reports no rewrite leaves the term as it was.
pub proof fn lemma_rule_unchanged(rule: Rule, t: Term)
    ensures
        !rule_step(rule, t).1 ==> rule_step(rule, t).0 == t,
{
    match rule {
        Rule::CombineAssociative => {
            if let Term::AssocBinop { symbol, exprs } = t {
                if !has_nested(symbol, exprs) {
                    lemma_flatten_unchanged(symbol, exprs);
                }
            }
        },
        Rule::Patterns(ps) => lemma_patterns_unchanged(ps@, t, 0),
        _ => {},
    }
}

/// A pass that reports no change leaves the term as it was.
pub proof fn lemma_step_unchanged(rule: Rule, t: Term, depth: nat)
    ensures
        !step(rule, t, depth).1 ==> step(rule, t, depth).0 == t,
    decreases depth,
{
    lemma_rule_unchanged(rule, t);
    if depth > 0 && !step(rule, t, depth).1 {
        let d = (depth - 1) as nat;
        let sc = step_children(rule, t, d);
        assert(!any_true(sc.1));
        match t {
            Term::Apply { func, args } => {
                assert(!sc.1[0]);
                lemma_step_unchanged(rule, *func, d);
                assert forall|i: int| 0 <= i < args.len() implies step(rule, args[i], d).0 == args[i] by {
                    assert(!sc.1[i + 1]);
                    lemma_step_unchanged(rule, args[i], d);
                }
                assert(sc.0->Apply_args =~= args);
            },
            Term::Unop { operand, .. } => {
                assert(!sc.1[0]);
                lemma_step_unchanged(rule, *operand, d);
            },
            Term::Binop { left, right, .. } => {
                assert(!sc.1[0]);
                assert(!sc.1[1]);
                lemma_step_unchanged(rule, *left, d);
                lemma_step_unchanged(rule, *right, d);
            },
            Term::AssocBinop { exprs, .. } => {
                assert forall|i: int| 0 <= i < exprs.len() implies step(rule, exprs[i], d).0 == exprs[i] by {
                    assert(!sc.1[i]);
                    lemma_step_unchanged(rule, exprs[i], d);
                }
                assert(sc.0->AssocBinop_exprs =~= exprs);
            },
            Term::Quantifier { body, .. } => {
                assert(!sc.1[0]);
                lemma_step_unchanged(rule, *body, d);
            },
            _ => {},
        }
    }
}

proof fn lemma_rounds_fixed(rule: Rule, t: Term, n: nat)
    requires
        transform_rounds(rule, t, n).1,
    ensures
        step(rule, transform_rounds(rule, t, n).0, TRANSFORM_DEPTH as nat) == (transform_rounds(rule, t, n).0, false),
    decreases n,
{
    let s = step(rule, t, TRANSFORM_DEPTH as nat);
    if !s.1 {
        lemma_step_unchanged(rule, t, TRANSFORM_DEPTH as nat);
    } else {
        lemma_rounds_fixed(rule, s.0, (n - 1) as nat);
    }
}

/// Where the transformer reaches a fixed point of its rule, running it again
/// on its result gives the same term.
pub proof fn lemma_transform_idempotent(rule: Rule, t: Term)
    requires
        converges(rule, t),
    ensures
        converges(rule, transform_term(rule, t)),
        transform_term(rule, transform_term(rule, t)) == transform_term(rule, t),
{
    lemma_rounds_fixed(rule, t, TRANSFORM_ROUNDS as nat);
}

/// Sorting the operands of commutative connectives twice gives what sorting
/// them once gives, where the sort reaches its fixed point.
pub proof fn lemma_sort_twice(t: Term)
    requires
        converges(Rule::SortCommutative, t),
    ensures
        transform_term(Rule::SortCommutative, transform_term(Rule::SortCommutative, t))
            == transform_term(Rule::SortCommutative, t),
{
    lemma_transform_idempotent(Rule::SortCommutative, t);
}

/// No associative node has an operand that is a node of the same connective.
pub open spec fn flat(t: Term) -> bool
    decreases t,
{
    match t {
        Term::Apply { func, args } => flat(*func) && forall|i: int| 0 <= i < args.len() ==> flat(#[trigger] args[i]),
        Term::Unop { operand, .. } => flat(*operand),
        Term::Binop { left, right, .. } => flat(*left) && flat(*right),
        Term::AssocBinop { symbol, exprs } => !has_nested(symbol, exprs) && forall|i: int| 0 <= i < exprs.len() ==> flat(#[trigger] exprs[i]),
        Term::Quantifier { body, .. } => flat(*body),
        _ => true,
    }
}

proof fn lemma_combine_step_flat(t: Term, depth: nat)
    requires
        !step(Rule::CombineAssociative, t, depth).1,
    ensures
        flat(t),
    decreases depth,
{
    let rule = Rule::CombineAssociative;
    lemma_rule_unchanged(rule, t);
    if depth == 0 {
        assert(!has_children(t));
    } else {
        let d = (depth - 1) as nat;
        let sc = step_children(rule, t, d);
        assert(!any_true(sc.1));
        match t {
            Term::Apply { func, args } => {
                assert(!sc.1[0]);
                lemma_combine_step_flat(*func, d);
                assert forall|i: int| 0 <= i < args.len() implies flat(#[trigger] args[i]) by {
                    assert(!sc.1[i + 1]);
                    lemma_combine_step_flat(args[i], d);
                }
            },
            Term::Unop { operand, .. } => {
                assert(!sc.1[0]);
                lemma_combine_step_flat(*operand, d);
            },
            Term::Binop { left, right, .. } => {
                assert(!sc.1[0]);
                assert(!sc.1[1]);
                lemma_combine_step_flat(*left, d);
                lemma_combine_step_flat(*right, d);
            },
            Term::AssocBinop { exprs, .. } => {
                assert forall|i: int| 0 <= i < exprs.len() implies flat(#[trigger] exprs[i]) by {
                    assert(!sc.1[i]);
                    lemma_combine_step_flat(exprs[i], d);
                }
            },
            Term::Quantifier { body, .. } => {
                assert(!sc.1[0]);
                lemma_combine_step_flat(*body, d);
            },
            _ => {},
        }
    }
}

/// Where combining associative connectives reaches its fixed point, no
/// associative node of the result has an operand of the same connective.
pub proof fn lemma_combine_flattens(t: Term)
    requires
        converges(Rule::CombineAssociative, t),
    ensures
        flat(transform_term(Rule::CombineAssociative, t)),
{
    lemma_rounds_fixed(Rule::CombineAssociative, t, TRANSFORM_ROUNDS as nat);
    lemma_combine_step_flat(transform_term(Rule::CombineAssociative, t), TRANSFORM_DEPTH as nat);
}

} // verus!
