use vstd::prelude::*;

verus! {

broadcast use {vstd::std_specs::vec::axiom_vec_decreases_to_view, vstd::seq::axiom_seq_index_decreases};

/// Unary connectives.
#[derive(Copy, Clone, Debug, PartialEq, Eq, Hash, PartialOrd, Ord, Structural)]
pub enum USymbol {
    Not,
}

/// Binary connectives of fixed arity.
#[derive(Copy, Clone, Debug, PartialEq, Eq, Hash, PartialOrd, Ord, Structural)]
pub enum BSymbol {
    Implies,
    Plus,
    Mult,
}

/// Associative connectives, stored flat.
#[derive(Copy, Clone, Debug, PartialEq, Eq, Hash, PartialOrd, Ord, Structural)]
pub enum ASymbol {
    And,
    Or,
    Bicon,
    Equiv,
}

/// Quantifiers, each binding one name.
#[derive(Copy, Clone, Debug, PartialEq, Eq, Hash, PartialOrd, Ord, Structural)]
pub enum QSymbol {
    Forall,
    Exists,
}

/// A logical formula.
#[derive(Debug)]
#[allow(inconsistent_fields)]
pub enum Expr {
    Contradiction,
    Tautology,
    Var { name: String },
    Apply { func: Box<Expr>, args: Vec<Expr> },
    Unop { symbol: USymbol, operand: Box<Expr> },
    Binop { symbol: BSymbol, left: Box<Expr>, right: Box<Expr> },
    AssocBinop { symbol: ASymbol, exprs: Vec<Expr> },
    Quantifier { symbol: QSymbol, name: String, body: Box<Expr> },
}

/// The mathematical value of a formula: names as character sequences,
/// children as sequences.
#[allow(inconsistent_fields)]
pub enum Term {
    Contradiction,
    Tautology,
    Var { name: Seq<char> },
    Apply { func: Box<Term>, args: Seq<Term> },
    Unop { symbol: USymbol, operand: Box<Term> },
    Binop { symbol: BSymbol, left: Box<Term>, right: Box<Term> },
    AssocBinop { symbol: ASymbol, exprs: Seq<Term> },
    Quantifier { symbol: QSymbol, name: Seq<char>, body: Box<Term> },
}

/// The term a formula stands for.
pub open spec fn view_of(e: Expr) -> Term
    decreases e,
{
    match e {
        Expr::Contradiction => Term::Contradiction,
        Expr::Tautology => Term::Tautology,
        Expr::Var { name } => Term::Var { name: name@ },
        Expr::Apply { func, args } => Term::Apply { func: Box::new(view_of(*func)), args: Seq::new(args@.len(), |i: int| if 0 <= i < args@.len() { view_of(args@[i]) } else { Term::Contradiction }) },
        Expr::Unop { symbol, operand } => Term::Unop { symbol, operand: Box::new(view_of(*operand)) },
        Expr::Binop { symbol, left, right } => Term::Binop { symbol, left: Box::new(view_of(*left)), right: Box::new(view_of(*right)) },
        Expr::AssocBinop { symbol, exprs } => Term::AssocBinop { symbol, exprs: Seq::new(exprs@.len(), |i: int| if 0 <= i < exprs@.len() { view_of(exprs@[i]) } else { Term::Contradiction }) },
        Expr::Quantifier { symbol, name, body } => Term::Quantifier { symbol, name: name@, body: Box::new(view_of(*body)) },
    }
}

/// The views of a sequence of formulas.
pub open spec fn views(s: Seq<Expr>) -> Seq<Term> {
    Seq::new(s.len(), |i: int| view_of(s[i]))
}

impl View for Expr {
    type V = Term;

    open spec fn view(&self) -> Term {
        view_of(*self)
    }
}

/// The children of a compound formula, as stored in its view.
pub proof fn lemma_view_children(e: Expr)
    ensures
        e matches Expr::Apply { args, .. } ==> view_of(e)->Apply_args == views(args@),
        e matches Expr::AssocBinop { exprs, .. } ==> view_of(e)->AssocBinop_exprs == views(exprs@),
{
    match e {
        Expr::Apply { args, .. } => assert(view_of(e)->Apply_args =~= views(args@)),
        Expr::AssocBinop { exprs, .. } => assert(view_of(e)->AssocBinop_exprs =~= views(exprs@)),
        _ => {},
    }
}

/// A copy of `e`.
pub fn deep_copy(e: &Expr) -> (r: Expr)
    ensures
        r@ == e@,
    decreases e,
{
    proof {
        lemma_view_children(*e);
    }
    let r = match e {
        Expr::Contradiction => Expr::Contradiction,
        Expr::Tautology => Expr::Tautology,
        Expr::Var { name } => Expr::Var { name: name.clone() },
        Expr::Apply { func, args } => Expr::Apply { func: Box::new(deep_copy(func)), args: copy_list(args) },
        Expr::Unop { symbol, operand } => Expr::Unop { symbol: *symbol, operand: Box::new(deep_copy(operand)) },
        Expr::Binop { symbol, left, right } => Expr::Binop { symbol: *symbol, left: Box::new(deep_copy(left)), right: Box::new(deep_copy(right)) },
        Expr::AssocBinop { symbol, exprs } => Expr::AssocBinop { symbol: *symbol, exprs: copy_list(exprs) },
        Expr::Quantifier { symbol, name, body } => Expr::Quantifier { symbol: *symbol, name: name.clone(), body: Box::new(deep_copy(body)) },
    };
    proof {
        lemma_view_children(r);
    }
    r
}

/// A copy of a list of formulas.
pub fn copy_list(v: &Vec<Expr>) -> (r: Vec<Expr>)
    ensures
        views(r@) == views(v@),
    decreases v,
{
    let mut r: Vec<Expr> = Vec::new();
    let mut i: usize = 0;
    while i < v.len()
        invariant
            i <= v.len(),
            r@.len() == i,
            forall|k: int| 0 <= k < i ==> (#[trigger] r@[k])@ == v@[k]@,
        decreases v.len() - i,
    {
        r.push(deep_copy(&v[i]));
        i = i + 1;
    }
    assert(views(r@) =~= views(v@));
    r
}

/// Whether two formulas are structurally equal.
pub fn expr_eq(a: &Expr, b: &Expr) -> (r: bool)
    ensures
        r == (a@ == b@),
    decreases a,
{
    proof {
        lemma_view_children(*a);
        lemma_view_children(*b);
    }
    match (a, b) {
        (Expr::Contradiction, Expr::Contradiction) => true,
        (Expr::Tautology, Expr::Tautology) => true,
        (Expr::Var { name: n1 }, Expr::Var { name: n2 }) => *n1 == *n2,
        (Expr::Apply { func: f1, args: a1 }, Expr::Apply { func: f2, args: a2 }) => expr_eq(f1, f2) && list_eq(a1, a2),
        (Expr::Unop { symbol: s1, operand: o1 }, Expr::Unop { symbol: s2, operand: o2 }) => *s1 == *s2 && expr_eq(o1, o2),
        (Expr::Binop { symbol: s1, left: l1, right: r1 }, Expr::Binop { symbol: s2, left: l2, right: r2 }) =>
            *s1 == *s2 && expr_eq(l1, l2) && expr_eq(r1, r2),
        (Expr::AssocBinop { symbol: s1, exprs: e1 }, Expr::AssocBinop { symbol: s2, exprs: e2 }) => *s1 == *s2 && list_eq(e1, e2),
        (Expr::Quantifier { symbol: s1, name: n1, body: b1 }, Expr::Quantifier { symbol: s2, name: n2, body: b2 }) =>
            *s1 == *s2 && *n1 == *n2 && expr_eq(b1, b2),
        _ => false,
    }
}

/// Whether two lists of formulas are structurally equal.
pub fn list_eq(a: &Vec<Expr>, b: &Vec<Expr>) -> (r: bool)
    ensures
        r == (views(a@) == views(b@)),
    decreases a,
{
    if a.len() != b.len() {
        assert(views(a@).len() != views(b@).len());
        return false;
    }
    let mut i: usize = 0;
    while i < a.len()
        invariant
            i <= a.len(),
            a.len() == b.len(),
            forall|k: int| 0 <= k < i ==> (#[trigger] a@[k])@ == b@[k]@,
        decreases a.len() - i,
    {
        if !expr_eq(&a[i], &b[i]) {
            assert(views(a@)[i as int] != views(b@)[i as int]);
            return false;
        }
        i = i + 1;
    }
    assert(views(a@) =~= views(b@));
    true
}

impl PartialEq for Expr {
    fn eq(&self, other: &Expr) -> (r: bool) {
        expr_eq(self, other)
    }
}

impl vstd::std_specs::cmp::PartialEqSpecImpl for Expr {
    open spec fn obeys_eq_spec() -> bool {
        true
    }

    open spec fn eq_spec(&self, other: &Expr) -> bool {
        self@ == other@
    }
}

impl Eq for Expr {
}

impl Clone for Expr {
    fn clone(&self) -> (r: Expr)
        ensures
            r@ == self@,
    {
        deep_copy(self)
    }
}

} // verus!
