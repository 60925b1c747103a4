use vstd::prelude::*;
use crate::expression_builders::{var, not};
use crate::expr::{Expr, Term, ASymbol, BSymbol, USymbol, views, lemma_view_children, deep_copy, expr_eq};
use crate::names::{fv, name_set, contains_name, gensym_name, freevars, gensym};
use crate::subst::{subst_term, subst};
use crate::unify::{unify_spec, UNIFY_STEPS, unify, Constraint, binding_views, constraint_views};
use crate::order::{cmp_term, is_sorted, sort_terms, compare_expr, exprs_sorted, sort_exprs};

verus! {

broadcast use {vstd::std_specs::vec::axiom_vec_decreases_to_view, vstd::seq::axiom_seq_index_decreases};

/// How deep one pass of the transformer descends into a formula.
pub const TRANSFORM_DEPTH: u64 = 10000;

/// How many passes the transformer makes at most before it stops.
pub const TRANSFORM_ROUNDS: u64 = 1000000;

/// A rewrite pattern: `lhs` is matched against a formula, whose matching
/// parts are substituted into `rhs`; only the names of `vars` may be bound.
pub struct Pattern {
    pub lhs: Expr,
    pub rhs: Expr,
    pub vars: Vec<String>,
}

/// A local rewrite rule for the transformer.
pub enum Rule {
    SortCommutative,
    CombineAssociative,
    DeMorgan,
    Idempotence,
    Patterns(Vec<Pattern>),
}

/// Whether a binary connective is commutative: all but implication are.
pub open spec fn b_commutative(s: BSymbol) -> bool {
    s != BSymbol::Implies
}

/// Whether an associative connective is commutative: all of them are.
pub open spec fn a_commutative(s: ASymbol) -> bool {
    true
}

impl BSymbol {
    /// Whether the connective is commutative.
    pub fn is_commutative(&self) -> (r: bool)
        ensures
            r == b_commutative(*self),
    {
        match self {
            BSymbol::Implies => false,
            BSymbol::Plus | BSymbol::Mult => true,
        }
    }
}

impl ASymbol {
    /// Whether the connective is commutative; all of them are.
    pub fn is_commutative(&self) -> (r: bool)
        ensures
            r == a_commutative(*self),
    {
        match self {
            ASymbol::And | ASymbol::Or | ASymbol::Bicon | ASymbol::Equiv => true,
        }
    }
}

/// The operands of `t` that stand for the associative connective `sym`
/// once nested nodes of `sym` are spliced into their parent.
pub open spec fn splice(sym: ASymbol, t: Term) -> Seq<Term> {
    match t {
        Term::AssocBinop { symbol, exprs } => if symbol == sym { exprs } else { seq![t] },
        _ => seq![t],
    }
}

/// The operands of a node of `sym` once nested nodes of `sym` are spliced in.
pub open spec fn flatten(sym: ASymbol, s: Seq<Term>) -> Seq<Term>
    decreases s.len(),
{
    if s.len() == 0 {
        s
    } else {
        flatten(sym, s.drop_last()) + splice(sym, s.last())
    }
}

/// Some operand is itself a node of `sym`.
pub open spec fn has_nested(sym: ASymbol, s: Seq<Term>) -> bool {
    exists|i: int| 0 <= i < s.len() && (#[trigger] s[i] matches Term::AssocBinop { symbol, .. } && symbol == sym)
}

/// The negations of each term of `s`.
pub open spec fn negations(s: Seq<Term>) -> Seq<Term> {
    Seq::new(s.len(), |i: int| Term::Unop { symbol: USymbol::Not, operand: Box::new(s[i]) })
}

/// All terms of `s` are equal.
pub open spec fn all_equal(s: Seq<Term>) -> bool {
    forall|i: int| 0 <= i < s.len() - 1 ==> #[trigger] s[i] == s[i + 1]
}

/// The bindings of `s` applied to `t`, the last binding first.
pub open spec fn apply_bindings(t: Term, s: Seq<(Seq<char>, Term)>) -> Term
    decreases s.len(),
{
    if s.len() == 0 {
        t
    } else {
        apply_bindings(subst_term(t, s.last().0, s.last().1), s.drop_last())
    }
}

/// The bindings bind each name of `vars` exactly once, and nothing else.
pub open spec fn binds_exactly(s: Seq<(Seq<char>, Term)>, vars: Set<Seq<char>>) -> bool {
    &&& forall|i: int| 0 <= i < s.len() ==> vars.contains(#[trigger] s[i].0)
    &&& forall|i: int, j: int| 0 <= i < j < s.len() ==> #[trigger] s[i].0 != #[trigger] s[j].0
    &&& forall|n: Seq<char>| vars.contains(n) ==> exists|i: int| 0 <= i < s.len() && #[trigger] s[i].0 == n
}

/// The rewrite of `t` by one pattern, where it matches.
pub open spec fn match_pattern(p: Pattern, t: Term) -> Option<Term> {
    match unify_spec(seq![(p.lhs@, t)], UNIFY_STEPS as nat) {
        Some(s) => if binds_exactly(s, name_set(p.vars@)) { Some(apply_bindings(p.rhs@, s)) } else { None },
        None => None,
    }
}

/// The rewrite of `t` by the first of the patterns from `i` on that matches.
pub open spec fn try_patterns(ps: Seq<Pattern>, t: Term, i: nat) -> (Term, bool)
    decreases ps.len() - i,
{
    if i >= ps.len() {
        (t, false)
    } else {
        match match_pattern(ps[i as int], t) {
            Some(r) => (r, true),
            None => try_patterns(ps, t, i + 1),
        }
    }
}

/// One application of the rule at the root of `t`, and whether it rewrote.
pub open spec fn rule_step(rule: Rule, t: Term) -> (Term, bool) {
    match rule {
        Rule::SortCommutative => match t {
            Term::Binop { symbol, left, right } =>
                if b_commutative(symbol) && cmp_term(*left, *right) > 0 {
                    (Term::Binop { symbol, left: right, right: left }, true)
                } else {
                    (t, false)
                },
            Term::AssocBinop { symbol, exprs } =>
                if a_commutative(symbol) && !is_sorted(exprs) {
                    (Term::AssocBinop { symbol, exprs: sort_terms(exprs) }, true)
                } else {
                    (t, false)
                },
            _ => (t, false),
        },
        Rule::CombineAssociative => match t {
            Term::AssocBinop { symbol, exprs } => (Term::AssocBinop { symbol, exprs: flatten(symbol, exprs) }, has_nested(symbol, exprs)),
            _ => (t, false),
        },
        Rule::DeMorgan => match t {
            Term::Unop { symbol: USymbol::Not, operand } => match *operand {
                Term::AssocBinop { symbol: ASymbol::And, exprs } => (Term::AssocBinop { symbol: ASymbol::Or, exprs: negations(exprs) }, true),
                Term::AssocBinop { symbol: ASymbol::Or, exprs } => (Term::AssocBinop { symbol: ASymbol::And, exprs: negations(exprs) }, true),
                _ => (t, false),
            },
            _ => (t, false),
        },
        Rule::Idempotence => match t {
            Term::AssocBinop { symbol, exprs } =>
                if (symbol == ASymbol::And || symbol == ASymbol::Or) && exprs.len() > 0 && all_equal(exprs) {
                    (exprs[0], true)
                } else {
                    (t, false)
                },
            _ => (t, false),
        },
        Rule::Patterns(ps) => try_patterns(ps@, t, 0),
    }
}

/// The term has sub-terms.
pub open spec fn has_children(t: Term) -> bool {
    match t {
        Term::Contradiction | Term::Tautology | Term::Var { .. } => false,
        _ => true,
    }
}

/// Some flag is set.
pub open spec fn any_true(s: Seq<bool>) -> bool {
    exists|i: int| 0 <= i < s.len() && s[i]
}

/// One pass of the transformer: the rule at the root, then a pass over
/// each sub-term of the result, `depth` levels down at most. Whether
/// anything changed; below the depth limit a node with sub-terms counts as
/// changed, so that no fixed point is claimed for what was not visited.
pub open spec fn step(rule: Rule, t: Term, depth: nat) -> (Term, bool)
    decreases depth, 0nat,
{
    let t1 = rule_step(rule, t).0;
    let c1 = rule_step(rule, t).1;
    if depth == 0 {
        (t1, c1 || has_children(t1))
    } else {
        let r = step_children(rule, t1, (depth - 1) as nat);
        (r.0, c1 || any_true(r.1))
    }
}

/// A pass over each immediate sub-term of `t`, and whether each changed.
pub open spec fn step_children(rule: Rule, t: Term, depth: nat) -> (Term, Seq<bool>)
    decreases depth, 1nat,
{
    match t {
        Term::Apply { func, args } => (
            Term::Apply {
                func: Box::new(step(rule, *func, depth).0),
                args: Seq::new(args.len(), |i: int| step(rule, args[i], depth).0),
            },
            seq![step(rule, *func, depth).1] + Seq::new(args.len(), |i: int| step(rule, args[i], depth).1),
        ),
        Term::Unop { symbol, operand } => (
            Term::Unop { symbol, operand: Box::new(step(rule, *operand, depth).0) },
            seq![step(rule, *operand, depth).1],
        ),
        Term::Binop { symbol, left, right } => (
            Term::Binop {
                symbol,
                left: Box::new(step(rule, *left, depth).0),
                right: Box::new(step(rule, *right, depth).0),
            },
            seq![step(rule, *left, depth).1, step(rule, *right, depth).1],
        ),
        Term::AssocBinop { symbol, exprs } => (
            Term::AssocBinop { symbol, exprs: Seq::new(exprs.len(), |i: int| step(rule, exprs[i], depth).0) },
            Seq::new(exprs.len(), |i: int| step(rule, exprs[i], depth).1),
        ),
        Term::Quantifier { symbol, name, body } => (
            Term::Quantifier { symbol, name, body: Box::new(step(rule, *body, depth).0) },
            seq![step(rule, *body, depth).1],
        ),
        _ => (t, Seq::empty()),
    }
}

/// Passes over `t` until one changes nothing, `rounds` more passes at most;
/// the result, and whether a pass that changed nothing was reached.
pub open spec fn transform_rounds(rule: Rule, t: Term, rounds: nat) -> (Term, bool)
    decreases rounds,
{
    let s = step(rule, t, TRANSFORM_DEPTH as nat);
    if !s.1 {
        (s.0, true)
    } else if rounds == 0 {
        (s.0, false)
    } else {
        transform_rounds(rule, s.0, (rounds - 1) as nat)
    }
}

/// What the transformer makes of `t`.
pub open spec fn transform_term(rule: Rule, t: Term) -> Term {
    transform_rounds(rule, t, TRANSFORM_ROUNDS as nat).0
}

/// The transformer reaches a fixed point of the rule on `t`.
pub open spec fn converges(rule: Rule, t: Term) -> bool {
    transform_rounds(rule, t, TRANSFORM_ROUNDS as nat).1
}

fn sort_rule(e: Expr) -> (r: (Expr, bool))
    ensures
        (r.0@, r.1) == rule_step(Rule::SortCommutative, e@),
{
    proof {
        lemma_view_children(e);
    }
    match e {
        Expr::Binop { symbol, left, right } => {
            if symbol.is_commutative() && compare_expr(&left, &right) > 0 {
                (Expr::Binop { symbol, left: right, right: left }, true)
            } else {
                (Expr::Binop { symbol, left, right }, false)
            }
        },
        Expr::AssocBinop { symbol, exprs } => {
            if symbol.is_commutative() && !exprs_sorted(&exprs) {
                let r = Expr::AssocBinop { symbol, exprs: sort_exprs(exprs) };
                proof {
                    lemma_view_children(r);
                }
                (r, true)
            } else {
                let r = Expr::AssocBinop { symbol, exprs };
                proof {
                    lemma_view_children(r);
                }
                (r, false)
            }
        },
        _ => (e, false),
    }
}

proof fn lemma_flatten_prefix(sym: ASymbol, s: Seq<Term>, i: int)
    requires
        0 <= i < s.len(),
    ensures
        flatten(sym, s.subrange(0, i + 1)) == flatten(sym, s.subrange(0, i)) + splice(sym, s[i]),
        has_nested(sym, s.subrange(0, i + 1)) == (has_nested(sym, s.subrange(0, i))
            || (s[i] matches Term::AssocBinop { symbol, .. } && symbol == sym)),
{
    let p = s.subrange(0, i + 1);
    assert(p.drop_last() =~= s.subrange(0, i));
    assert(p.last() == s[i]);
    let q = s.subrange(0, i);
    if has_nested(sym, q) {
        let k = choose|k: int| 0 <= k < q.len() && (#[trigger] q[k] matches Term::AssocBinop { symbol, .. } && symbol == sym);
        assert(p[k] == q[k]);
    }
    if has_nested(sym, p) {
        let k = choose|k: int| 0 <= k < p.len() && (#[trigger] p[k] matches Term::AssocBinop { symbol, .. } && symbol == sym);
        if k < i {
            assert(q[k] == p[k]);
        }
    }
}

fn combine_rule(e: Expr) -> (r: (Expr, bool))
    ensures
        (r.0@, r.1) == rule_step(Rule::CombineAssociative, e@),
{
    proof {
        lemma_view_children(e);
    }
    match e {
        Expr::AssocBinop { symbol, exprs } => {
            let ghost s = views(exprs@);
            let mut result: Vec<Expr> = Vec::new();
            let mut combined = false;
            let mut i: usize = 0;
            while i < exprs.len()
                invariant
                    s == views(exprs@),
                    i <= exprs.len(),
                    views(result@) == flatten(symbol, s.subrange(0, i as int)),
                    combined == has_nested(symbol, s.subrange(0, i as int)),
                decreases exprs.len() - i,
            {
                proof {
                    lemma_flatten_prefix(symbol, s, i as int);
                    lemma_view_children(exprs@[i as int]);
                }
                let ghost r0 = views(result@);
                match &exprs[i] {
                    Expr::AssocBinop { symbol: symbol2, exprs: exprs2 } => {
                        if *symbol2 == symbol {
                            let mut j: usize = 0;
                            while j < exprs2.len()
                                invariant
                                    j <= exprs2.len(),
                                    views(result@) == r0 + views(exprs2@).subrange(0, j as int),
                                decreases exprs2.len() - j,
                            {
                                let ghost prev = result@;
                                result.push(deep_copy(&exprs2[j]));
                                assert(views(result@) =~= views(prev).push(exprs2@[j as int]@));
                                assert(views(result@) =~= r0 + views(exprs2@).subrange(0, j + 1));
                                j = j + 1;
                            }
                            assert(views(exprs2@).subrange(0, exprs2.len() as int) =~= views(exprs2@));
                            combined = true;
                        } else {
                            result.push(deep_copy(&exprs[i]));
                            assert(views(result@) =~= r0 + seq![s[i as int]]);
                        }
                    },
                    _ => {
                        result.push(deep_copy(&exprs[i]));
                        assert(views(result@) =~= r0 + seq![s[i as int]]);
                    },
                }
                i = i + 1;
            }
            assert(s.subrange(0, exprs.len() as int) =~= s);
            let r = Expr::AssocBinop { symbol, exprs: result };
            proof {
                lemma_view_children(r);
            }
            (r, combined)
        },
        _ => (e, false),
    }
}

fn negate_all(v: &Vec<Expr>) -> (r: Vec<Expr>)
    ensures
        views(r@) == negations(views(v@)),
{
    let mut r: Vec<Expr> = Vec::new();
    let mut i: usize = 0;
    while i < v.len()
        invariant
            i <= v.len(),
            r@.len() == i,
            forall|k: int| 0 <= k < i ==> (#[trigger] r@[k])@ == (Term::Unop { symbol: USymbol::Not, operand: Box::new(v@[k]@) }),
        decreases v.len() - i,
    {
        r.push(Expr::Unop { symbol: USymbol::Not, operand: Box::new(deep_copy(&v[i])) });
        i = i + 1;
    }
    assert(views(r@) =~= negations(views(v@)));
    r
}

fn demorgan_rule(e: Expr) -> (r: (Expr, bool))
    ensures
        (r.0@, r.1) == rule_step(Rule::DeMorgan, e@),
{
    match e {
        Expr::Unop { symbol, operand } => {
            proof {
                lemma_view_children(*operand);
            }
            match *operand {
                Expr::AssocBinop { symbol: ASymbol::And, exprs } => {
                    let r = Expr::AssocBinop { symbol: ASymbol::Or, exprs: negate_all(&exprs) };
                    proof {
                        lemma_view_children(r);
                    }
                    (r, true)
                },
                Expr::AssocBinop { symbol: ASymbol::Or, exprs } => {
                    let r = Expr::AssocBinop { symbol: ASymbol::And, exprs: negate_all(&exprs) };
                    proof {
                        lemma_view_children(r);
                    }
                    (r, true)
                },
                other => (Expr::Unop { symbol, operand: Box::new(other) }, false),
            }
        },
        _ => (e, false),
    }
}

fn idempotence_rule(e: Expr) -> (r: (Expr, bool))
    ensures
        (r.0@, r.1) == rule_step(Rule::Idempotence, e@),
{
    proof {
        lemma_view_children(e);
    }
    match e {
        Expr::AssocBinop { symbol, exprs } => {
            if (symbol == ASymbol::And || symbol == ASymbol::Or) && exprs.len() > 0 {
                let mut same = true;
                let mut i: usize = 0;
                while i + 1 < exprs.len()
                    invariant
                        exprs.len() > 0,
                        i < exprs.len(),
                        same ==> forall|k: int| 0 <= k < i ==> #[trigger] views(exprs@)[k] == views(exprs@)[k + 1],
                        !same ==> !all_equal(views(exprs@)),
                    decreases exprs.len() - i,
                {
                    if !expr_eq(&exprs[i], &exprs[i + 1]) {
                        assert(views(exprs@)[i as int] != views(exprs@)[i + 1]);
                        same = false;
                    }
                    i = i + 1;
                }
                if same {
                    let r = deep_copy(&exprs[0]);
                    return (r, true);
                }
            }
            let r = Expr::AssocBinop { symbol, exprs };
            proof {
                lemma_view_children(r);
            }
            (r, false)
        },
        _ => (e, false),
    }
}

/// The bindings of `s` applied to `t`, the last binding first.
fn apply_all(t: &Expr, s: &Vec<(String, Expr)>) -> (r: Expr)
    ensures
        r@ == apply_bindings(t@, binding_views(s@)),
{
    let ghost b = binding_views(s@);
    let mut z = deep_copy(t);
    let mut i: usize = s.len();
    assert(b.subrange(0, s.len() as int) =~= b);
    while i > 0
        invariant
            i <= s.len(),
            b == binding_views(s@),
            apply_bindings(t@, b) == apply_bindings(z@, b.subrange(0, i as int)),
        decreases i,
    {
        let ghost p = b.subrange(0, i as int);
        proof {
            assert(p.drop_last() =~= b.subrange(0, i - 1));
            assert(p.last() == (s@[i - 1].0@, s@[i - 1].1@));
        }
        let (x, y) = &s[i - 1];
        z = subst(&z, x.as_str(), deep_copy(y));
        i = i - 1;
    }
    assert(b.subrange(0, 0) =~= Seq::<(Seq<char>, Term)>::empty());
    z
}

/// Whether the bindings bind each name of `vars` exactly once, and nothing else.
fn check_binds_exactly(s: &Vec<(String, Expr)>, vars: &Vec<String>) -> (r: bool)
    ensures
        r == binds_exactly(binding_views(s@), name_set(vars@)),
{
    let ghost b = binding_views(s@);
    let ghost vs = name_set(vars@);
    let mut i: usize = 0;
    while i < s.len()
        invariant
            b == binding_views(s@),
            vs == name_set(vars@),
            i <= s.len(),
            forall|k: int| 0 <= k < i ==> vs.contains(#[trigger] b[k].0),
            forall|k: int, j: int| 0 <= k < j < i ==> #[trigger] b[k].0 != #[trigger] b[j].0,
        decreases s.len() - i,
    {
        assert(b[i as int].0 == s@[i as int].0@);
        if !contains_name(vars, &s[i].0) {
            return false;
        }
        let mut j: usize = 0;
        while j < i
            invariant
                b == binding_views(s@),
                i < s.len(),
                j <= i,
                forall|k: int| 0 <= k < j ==> #[trigger] b[k].0 != b[i as int].0,
            decreases i - j,
        {
            assert(b[j as int].0 == s@[j as int].0@);
            if s[j].0 == s[i].0 {
                assert(b[j as int].0 == b[i as int].0);
                assert(!binds_exactly(b, vs));
                return false;
            }
            j = j + 1;
        }
        i = i + 1;
    }
    let mut v: usize = 0;
    while v < vars.len()
        invariant
            b == binding_views(s@),
            vs == name_set(vars@),
            v <= vars.len(),
            forall|k: int| 0 <= k < v ==> exists|i: int| 0 <= i < b.len() && #[trigger] b[i].0 == (#[trigger] vars@[k])@,
        decreases vars.len() - v,
    {
        let mut j: usize = 0;
        let mut found = false;
        while j < s.len()
            invariant
                b == binding_views(s@),
                v < vars.len(),
                j <= s.len(),
                found ==> exists|i: int| 0 <= i < b.len() && #[trigger] b[i].0 == vars@[v as int]@,
                !found ==> forall|i: int| 0 <= i < j ==> #[trigger] b[i].0 != vars@[v as int]@,
            decreases s.len() - j,
        {
            assert(b[j as int].0 == s@[j as int].0@);
            if s[j].0 == vars[v] {
                found = true;
            }
            j = j + 1;
        }
        if !found {
            proof {
                assert(vs.contains(vars@[v as int]@));
                assert(!binds_exactly(b, vs));
            }
            return false;
        }
        v = v + 1;
    }
    proof {
        assert forall|n: Seq<char>| vs.contains(n) implies exists|i: int| 0 <= i < b.len() && #[trigger] b[i].0 == n by {
            let k = choose|k: int| 0 <= k < vars@.len() && vars@[k]@ == n;
            assert(exists|i: int| 0 <= i < b.len() && #[trigger] b[i].0 == (#[trigger] vars@[k])@);
        }
    }
    true
}

/// The rewrite of `e` by the pattern `p`, where it matches.
fn match_one(p: &Pattern, e: &Expr) -> (r: Option<Expr>)
    ensures
        match r {
            Some(x) => match_pattern(*p, e@) == Some(x@),
            None => match_pattern(*p, e@) is None,
        },
{
    let c = vec![Constraint::Equal(deep_copy(&p.lhs), deep_copy(e))];
    assert(constraint_views(c@) =~= seq![(p.lhs@, e@)]);
    match unify(c) {
        Some(sub) => {
            if check_binds_exactly(&sub.0, &p.vars) {
                Some(apply_all(&p.rhs, &sub.0))
            } else {
                None
            }
        },
        None => None,
    }
}

fn patterns_rule(ps: &Vec<Pattern>, e: Expr) -> (r: (Expr, bool))
    ensures
        (r.0@, r.1) == try_patterns(ps@, e@, 0),
{
    let mut i: usize = 0;
    while i < ps.len()
        invariant
            i <= ps.len(),
            try_patterns(ps@, e@, 0) == try_patterns(ps@, e@, i as nat),
        decreases ps.len() - i,
    {
        match match_one(&ps[i], &e) {
            Some(x) => {
                return (x, true);
            },
            None => {},
        }
        i = i + 1;
    }
    (e, false)
}

/// One application of the rule at the root of `e`.
fn apply_rule(rule: &Rule, e: Expr) -> (r: (Expr, bool))
    ensures
        (r.0@, r.1) == rule_step(*rule, e@),
{
    match rule {
        Rule::SortCommutative => sort_rule(e),
        Rule::CombineAssociative => combine_rule(e),
        Rule::DeMorgan => demorgan_rule(e),
        Rule::Idempotence => idempotence_rule(e),
        Rule::Patterns(ps) => patterns_rule(ps, e),
    }
}

proof fn lemma_any_true_cons(b: bool, s: Seq<bool>)
    ensures
        any_true(seq![b] + s) == (b || any_true(s)),
{
    let t = seq![b] + s;
    if b {
        assert(t[0]);
    }
    if any_true(s) {
        let i = choose|i: int| 0 <= i < s.len() && s[i];
        assert(t[i + 1]);
    }
    if any_true(t) {
        let i = choose|i: int| 0 <= i < t.len() && t[i];
        if i > 0 {
            assert(s[i - 1]);
        }
    }
}

proof fn lemma_any_true_push(s: Seq<bool>, b: bool)
    ensures
        any_true(s.push(b)) == (any_true(s) || b),
{
    let t = s.push(b);
    if any_true(s) {
        let i = choose|i: int| 0 <= i < s.len() && s[i];
        assert(t[i]);
    }
    if b {
        assert(t[s.len() as int]);
    }
    if any_true(t) {
        let i = choose|i: int| 0 <= i < t.len() && t[i];
        if i < s.len() {
            assert(s[i]);
        }
    }
}

/// A pass over each formula of a list.
fn step_list(rule: &Rule, v: Vec<Expr>, depth: u64) -> (r: (Vec<Expr>, bool))
    ensures
        views(r.0@) == Seq::new(v@.len(), |i: int| step(*rule, views(v@)[i], depth as nat).0),
        r.1 == any_true(Seq::new(v@.len(), |i: int| step(*rule, views(v@)[i], depth as nat).1)),
    decreases depth, 1nat,
{
    let ghost v0 = v@;
    let n = v.len();
    let mut v = v;
    let mut out: Vec<Expr> = Vec::new();
    let ghost mut flags: Seq<bool> = Seq::empty();
    let mut changed = false;
    let mut k: usize = 0;
    while v.len() > 0
        invariant
            k + v@.len() == v0.len(),
            v0.len() == n,
            v@ == v0.subrange(k as int, v0.len() as int),
            out@.len() == k,
            flags.len() == k,
            changed == any_true(flags),
            forall|i: int| 0 <= i < k ==> (#[trigger] out@[i])@ == step(*rule, v0[i]@, depth as nat).0,
            forall|i: int| 0 <= i < k ==> #[trigger] flags[i] == step(*rule, v0[i]@, depth as nat).1,
        decreases v.len(),
    {
        let x = v.remove(0);
        assert(x == v0[k as int]);
        let (y, c) = step_exec(rule, x, depth);
        out.push(y);
        proof {
            lemma_any_true_push(flags, c);
            flags = flags.push(c);
            assert(v@ =~= v0.subrange(k + 1, v0.len() as int));
        }
        changed = changed || c;
        k = k + 1;
    }
    assert(views(out@) =~= Seq::new(v0.len(), |i: int| step(*rule, views(v0)[i], depth as nat).0));
    assert(flags =~= Seq::new(v0.len(), |i: int| step(*rule, views(v0)[i], depth as nat).1));
    (out, changed)
}

/// A pass over each immediate sub-formula of `e`.
fn step_children_exec(rule: &Rule, e: Expr, depth: u64) -> (r: (Expr, bool))
    ensures
        r.0@ == step_children(*rule, e@, depth as nat).0,
        r.1 == any_true(step_children(*rule, e@, depth as nat).1),
    decreases depth, 2nat,
{
    proof {
        lemma_view_children(e);
    }
    let ghost t = e@;
    let ghost sc = step_children(*rule, t, depth as nat);
    match e {
        Expr::Apply { func, args } => {
            let ghost a = views(args@);
            let (f, cf) = step_exec(rule, *func, depth);
            let (na, ca) = step_list(rule, args, depth);
            let r = Expr::Apply { func: Box::new(f), args: na };
            proof {
                lemma_view_children(r);
                assert(sc.0->Apply_args =~= views(na@));
                let fl = Seq::new(a.len(), |i: int| step(*rule, a[i], depth as nat).1);
                assert(sc.1 =~= seq![cf] + fl);
                lemma_any_true_cons(cf, fl);
            }
            (r, cf || ca)
        },
        Expr::Unop { symbol, operand } => {
            let (o, c) = step_exec(rule, *operand, depth);
            proof {
                lemma_any_true_cons(c, Seq::empty());
                assert(sc.1 =~= seq![c] + Seq::<bool>::empty());
            }
            (Expr::Unop { symbol, operand: Box::new(o) }, c)
        },
        Expr::Binop { symbol, left, right } => {
            let (l, cl) = step_exec(rule, *left, depth);
            let (r, cr) = step_exec(rule, *right, depth);
            proof {
                lemma_any_true_cons(cr, Seq::empty());
                lemma_any_true_cons(cl, seq![cr]);
                assert(seq![cr] =~= seq![cr] + Seq::<bool>::empty());
                assert(sc.1 =~= seq![cl] + seq![cr]);
            }
            (Expr::Binop { symbol, left: Box::new(l), right: Box::new(r) }, cl || cr)
        },
        Expr::AssocBinop { symbol, exprs } => {
            let ghost a = views(exprs@);
            let (ne, ce) = step_list(rule, exprs, depth);
            let r = Expr::AssocBinop { symbol, exprs: ne };
            proof {
                lemma_view_children(r);
                assert(sc.0->AssocBinop_exprs =~= views(ne@));
                assert(sc.1 =~= Seq::new(a.len(), |i: int| step(*rule, a[i], depth as nat).1));
            }
            (r, ce)
        },
        Expr::Quantifier { symbol, name, body } => {
            let (b, c) = step_exec(rule, *body, depth);
            proof {
                lemma_any_true_cons(c, Seq::empty());
                assert(sc.1 =~= seq![c] + Seq::<bool>::empty());
            }
            (Expr::Quantifier { symbol, name, body: Box::new(b) }, c)
        },
        _ => {
            assert(!any_true(sc.1));
            (e, false)
        },
    }
}

/// One pass of the transformer over `e`, `depth` levels down at most.
fn step_exec(rule: &Rule, e: Expr, depth: u64) -> (r: (Expr, bool))
    ensures
        (r.0@, r.1) == step(*rule, e@, depth as nat),
    decreases depth, 0nat,
{
    let (e1, c1) = apply_rule(rule, e);
    if depth == 0 {
        let inner = match &e1 {
            Expr::Contradiction | Expr::Tautology | Expr::Var { .. } => false,
            _ => true,
        };
        return (e1, c1 || inner);
    }
    let (e2, c2) = step_children_exec(rule, e1, depth - 1);
    (e2, c1 || c2)
}

/// Rewrites `e` by the rule, at the root and then in each sub-formula of
/// the result, pass after pass until a pass changes nothing. A pass goes
/// `TRANSFORM_DEPTH` levels down at most, and after `TRANSFORM_ROUNDS`
/// passes the transformer stops where it is.
pub fn transform_expr(e: Expr, rule: &Rule) -> (r: Expr)
    ensures
        r@ == transform_term(*rule, e@),
{
    let ghost t0 = e@;
    let (mut result, mut status) = step_exec(rule, e, TRANSFORM_DEPTH);
    let mut rounds: u64 = TRANSFORM_ROUNDS;
    while status && rounds > 0
        invariant
            transform_rounds(*rule, t0, TRANSFORM_ROUNDS as nat) == (if !status || rounds == 0 {
                (result@, !status)
            } else {
                transform_rounds(*rule, result@, (rounds - 1) as nat)
            }),
        decreases rounds,
    {
        let (x, y) = step_exec(rule, result, TRANSFORM_DEPTH);
        result = x;
        status = y;
        rounds = rounds - 1;
    }
    result
}

/// Each name of `names` in turn, renamed in `t` to the fresh name that
/// `gensym` gives it against `avoid`.
pub open spec fn rename_seq(t: Term, names: Seq<Seq<char>>, avoid: Set<Seq<char>>) -> Term
    decreases names.len(),
{
    if names.len() == 0 {
        t
    } else {
        let n = names[0];
        rename_seq(subst_term(t, n, Term::Var { name: gensym_name(n, avoid) }), names.drop_first(), avoid)
    }
}

/// `p` is the pattern `(l, r)` with its free names renamed, in some order,
/// to names fresh for `avoid`; its variables are those fresh names.
pub open spec fn prepared_one(l: Term, r: Term, avoid: Set<Seq<char>>, p: Pattern) -> bool {
    exists|names: Seq<Seq<char>>| {
        &&& #[trigger] names.to_set() == fv(l)
        &&& p.lhs@ == rename_seq(l, names, avoid)
        &&& p.rhs@ == rename_seq(r, names, avoid)
        &&& name_set(p.vars@) == names.map_values(|n: Seq<char>| gensym_name(n, avoid)).to_set()
    }
}

/// The rule rewrites by the patterns `pats`, each prepared against `avoid`.
pub open spec fn prepared(pats: Seq<(Term, Term)>, avoid: Set<Seq<char>>, rule: Rule) -> bool {
    &&& rule is Patterns
    &&& rule->Patterns_0@.len() == pats.len()
    &&& forall|i: int| 0 <= i < pats.len() ==> prepared_one(pats[i].0, pats[i].1, avoid, #[trigger] rule->Patterns_0@[i])
}

/// `r` is what the transformer makes of `t` with the patterns `pats`
/// prepared against the free names of `t`.
pub open spec fn reduces_by(pats: Seq<(Term, Term)>, t: Term, r: Term) -> bool {
    exists|rule: Rule| prepared(pats, fv(t), rule) && r == #[trigger] transform_term(rule, t)
}

/// The pairs of formulas, as pairs of terms.
pub open spec fn pattern_views(v: Seq<(Expr, Expr)>) -> Seq<(Term, Term)> {
    Seq::new(v.len(), |i: int| (v[i].0@, v[i].1@))
}

fn prepare_pattern(lhs: Expr, rhs: Expr, avoid: &Vec<String>) -> (p: Pattern)
    ensures
        prepared_one(lhs@, rhs@, name_set(avoid@), p),
{
    let ghost f = name_set(avoid@);
    let ghost l0 = lhs@;
    let ghost r0 = rhs@;
    let names = freevars(&lhs);
    let ghost nm = Seq::new(names@.len(), |k: int| names@[k]@);
    let mut lhs = lhs;
    let mut rhs = rhs;
    let mut vars: Vec<String> = Vec::new();
    let mut i: usize = 0;
    assert(nm.subrange(0, nm.len() as int) =~= nm);
    while i < names.len()
        invariant
            i <= names.len(),
            f == name_set(avoid@),
            nm == Seq::new(names@.len(), |k: int| names@[k]@),
            rename_seq(l0, nm, f) == rename_seq(lhs@, nm.subrange(i as int, nm.len() as int), f),
            rename_seq(r0, nm, f) == rename_seq(rhs@, nm.subrange(i as int, nm.len() as int), f),
            vars@.len() == i,
            forall|k: int| 0 <= k < i ==> (#[trigger] vars@[k])@ == gensym_name(nm[k], f),
        decreases names.len() - i,
    {
        let ghost rest = nm.subrange(i as int, nm.len() as int);
        proof {
            assert(rest.drop_first() =~= nm.subrange(i + 1, nm.len() as int));
            assert(rest[0] == names@[i as int]@);
        }
        let ghost lhs_old = lhs@;
        let ghost rhs_old = rhs@;
        let g = gensym(names[i].as_str(), avoid);
        lhs = subst(&lhs, names[i].as_str(), var(g.as_str()));
        rhs = subst(&rhs, names[i].as_str(), var(g.as_str()));
        proof {
            assert(rest.len() > 0);
            assert(g@ == gensym_name(rest[0], f));
            assert(lhs@ == subst_term(lhs_old, rest[0], Term::Var { name: gensym_name(rest[0], f) }));
            assert(rename_seq(lhs_old, rest, f) == rename_seq(lhs@, rest.drop_first(), f));
            assert(rename_seq(rhs_old, rest, f) == rename_seq(rhs@, rest.drop_first(), f));
        }
        vars.push(g);
        i = i + 1;
    }
    proof {
        assert(nm.subrange(nm.len() as int, nm.len() as int) =~= Seq::<Seq<char>>::empty());
        assert forall|n: Seq<char>| #[trigger] nm.to_set().contains(n) <==> fv(l0).contains(n) by {
            if nm.to_set().contains(n) {
                let k = choose|k: int| 0 <= k < nm.len() && nm[k] == n;
                assert(names@[k]@ == n);
            }
            if fv(l0).contains(n) {
                let k = choose|k: int| 0 <= k < names@.len() && names@[k]@ == n;
                assert(nm[k] == n);
            }
        }
        assert(nm.to_set() =~= fv(l0));
        let gs = nm.map_values(|n: Seq<char>| gensym_name(n, f));
        assert forall|n: Seq<char>| #[trigger] name_set(vars@).contains(n) <==> gs.to_set().contains(n) by {
            if name_set(vars@).contains(n) {
                let k = choose|k: int| 0 <= k < vars@.len() && vars@[k]@ == n;
                assert(gs[k] == n);
            }
            if gs.to_set().contains(n) {
                let k = choose|k: int| 0 <= k < gs.len() && gs[k] == n;
                assert(vars@[k]@ == n);
            }
        }
        assert(name_set(vars@) =~= gs.to_set());
    }
    let p = Pattern { lhs, rhs, vars };
    assert(prepared_one(l0, r0, f, p)) by {
        assert(nm.to_set() == fv(l0));
    }
    p
}

/// Rewrites `e` by the patterns `(lhs, rhs)`, through the transformer: at
/// each node the first pattern whose `lhs` unifies with the node, binding
/// each free name of the pattern once and nothing else, is replaced by its
/// `rhs` under those bindings. The free names of the patterns are first
/// renamed to names fresh for `e`.
pub fn reduce_pattern(e: Expr, patterns: Vec<(Expr, Expr)>) -> (r: Expr)
    requires
        forall|i: int| 0 <= i < patterns@.len() ==> fv(#[trigger] patterns@[i].1@).subset_of(fv(patterns@[i].0@)),
    ensures
        reduces_by(pattern_views(patterns@), e@, r@),
{
    let e_free = freevars(&e);
    let ghost pv = pattern_views(patterns@);
    let mut patterns = patterns;
    let mut prepared_list: Vec<Pattern> = Vec::new();
    while patterns.len() > 0
        invariant
            prepared_list@.len() + patterns@.len() == pv.len(),
            pattern_views(patterns@) == pv.subrange(prepared_list@.len() as int, pv.len() as int),
            forall|i: int| 0 <= i < prepared_list@.len() ==> prepared_one(pv[i].0, pv[i].1, fv(e@), #[trigger] prepared_list@[i]),
            name_set(e_free@) == fv(e@),
        decreases patterns.len(),
    {
        let ghost before = patterns@;
        let ghost at = prepared_list@.len() as int;
        let (l, rh) = patterns.remove(0);
        proof {
            assert(pattern_views(before)[0] == pv[at]);
            assert(patterns@ =~= before.subrange(1, before.len() as int));
            assert forall|j: int| 0 <= j < patterns@.len() implies #[trigger] pattern_views(patterns@)[j] == pv.subrange(at + 1, pv.len() as int)[j] by {
                assert(pattern_views(patterns@)[j] == pattern_views(before)[j + 1]);
            }
            assert(pattern_views(patterns@) =~= pv.subrange(at + 1, pv.len() as int));
        }
        let p = prepare_pattern(l, rh, &e_free);
        prepared_list.push(p);
    }
    let rule = Rule::Patterns(prepared_list);
    let r = transform_expr(e, &rule);
    proof {
        assert(prepared(pv, fv(e@), rule));
    }
    r
}

/// Sorts the operands of every commutative connective, to a fixed point.
pub fn sort_commutative_ops(e: Expr) -> (r: Expr)
    ensures
        r@ == transform_term(Rule::SortCommutative, e@),
{
    transform_expr(e, &Rule::SortCommutative)
}

/// Splices every associative node into a parent node of the same
/// connective, to a fixed point.
pub fn combine_associative_ops(e: Expr) -> (r: Expr)
    ensures
        r@ == transform_term(Rule::CombineAssociative, e@),
{
    transform_expr(e, &Rule::CombineAssociative)
}

/// Pushes negations into conjunctions and disjunctions by De Morgan's laws,
/// to a fixed point.
pub fn normalize_demorgans(e: Expr) -> (r: Expr)
    ensures
        r@ == transform_term(Rule::DeMorgan, e@),
{
    transform_expr(e, &Rule::DeMorgan)
}

/// Collapses a conjunction or disjunction of equal operands to its first
/// operand, to a fixed point.
pub fn normalize_idempotence(e: Expr) -> (r: Expr)
    ensures
        r@ == transform_term(Rule::Idempotence, e@),
{
    transform_expr(e, &Rule::Idempotence)
}

} // verus!
