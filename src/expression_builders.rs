use vstd::prelude::*;
use crate::expr::{Expr, Term, ASymbol, BSymbol, QSymbol, USymbol, views, lemma_view_children, deep_copy};

verus! {

/// The variable or atom `name`.
pub fn var(name: &str) -> (r: Expr)
    ensures
        r@ == (Term::Var { name: name@ }),
{
    Expr::Var { name: String::from_str(name) }
}

fn copy_slice(s: &[Expr]) -> (r: Vec<Expr>)
    ensures
        views(r@) == views(s@),
{
    let mut r: Vec<Expr> = Vec::new();
    let mut i: usize = 0;
    while i < s.len()
        invariant
            i <= s@.len(),
            r@.len() == i,
            forall|k: int| 0 <= k < i ==> (#[trigger] r@[k])@ == s@[k]@,
        decreases s@.len() - i,
    {
        r.push(deep_copy(&s[i]));
        i = i + 1;
    }
    assert(views(r@) =~= views(s@));
    r
}

/// `func` applied to `args`.
pub fn apply(func: Expr, args: &[Expr]) -> (r: Expr)
    ensures
        r@ == (Term::Apply { func: Box::new(func@), args: views(args@) }),
{
    let r = Expr::Apply { func: Box::new(func), args: copy_slice(args) };
    proof {
        lemma_view_children(r);
    }
    r
}

/// The predicate `name` applied to the variables `args`.
pub fn predicate(name: &str, args: &[&str]) -> (r: Expr)
    ensures
        r@ == (Term::Apply {
            func: Box::new(Term::Var { name: name@ }),
            args: Seq::new(args@.len(), |i: int| Term::Var { name: args@[i]@ }),
        }),
{
    let mut v: Vec<Expr> = Vec::new();
    let mut i: usize = 0;
    while i < args.len()
        invariant
            i <= args@.len(),
            v@.len() == i,
            forall|k: int| 0 <= k < i ==> (#[trigger] v@[k])@ == (Term::Var { name: args@[k]@ }),
        decreases args@.len() - i,
    {
        v.push(var(args[i]));
        i = i + 1;
    }
    let r = Expr::Apply { func: Box::new(var(name)), args: v };
    proof {
        lemma_view_children(r);
        assert(views(v@) =~= Seq::new(args@.len(), |i: int| Term::Var { name: args@[i]@ }));
    }
    r
}

/// The negation of `expr`.
pub fn not(expr: Expr) -> (r: Expr)
    ensures
        r@ == (Term::Unop { symbol: USymbol::Not, operand: Box::new(expr@) }),
{
    Expr::Unop { symbol: USymbol::Not, operand: Box::new(expr) }
}

/// `l symbol r` for a binary connective.
pub fn binop(symbol: BSymbol, l: Expr, r: Expr) -> (res: Expr)
    ensures
        res@ == (Term::Binop { symbol, left: Box::new(l@), right: Box::new(r@) }),
{
    Expr::Binop { symbol, left: Box::new(l), right: Box::new(r) }
}

/// A binary connective between two blanks `_`.
pub fn binopplaceholder(symbol: BSymbol) -> (r: Expr)
    ensures
        r@ == (Term::Binop { symbol, left: Box::new(Term::Var { name: "_"@ }), right: Box::new(Term::Var { name: "_"@ }) }),
{
    binop(symbol, var("_"), var("_"))
}

/// The associative connective `symbol` over `exprs`.
pub fn assocbinop(symbol: ASymbol, exprs: &[Expr]) -> (r: Expr)
    ensures
        r@ == (Term::AssocBinop { symbol, exprs: views(exprs@) }),
{
    let r = Expr::AssocBinop { symbol, exprs: copy_slice(exprs) };
    proof {
        lemma_view_children(r);
    }
    r
}

/// An associative connective over two blanks `_` and an ellipsis `...`.
pub fn assocplaceholder(symbol: ASymbol) -> (r: Expr)
    ensures
        r@ == (Term::AssocBinop {
            symbol,
            exprs: seq![Term::Var { name: "_"@ }, Term::Var { name: "_"@ }, Term::Var { name: "..."@ }],
        }),
{
    let v = vec![var("_"), var("_"), var("...")];
    let r = Expr::AssocBinop { symbol, exprs: v };
    proof {
        lemma_view_children(r);
        assert(views(v@) =~= seq![Term::Var { name: "_"@ }, Term::Var { name: "_"@ }, Term::Var { name: "..."@ }]);
    }
    r
}

/// A quantifier binding the blank `_` over the blank `_`.
pub fn quantifierplaceholder(symbol: QSymbol) -> (r: Expr)
    ensures
        r@ == (Term::Quantifier { symbol, name: "_"@, body: Box::new(Term::Var { name: "_"@ }) }),
{
    Expr::Quantifier { symbol, name: String::from_str("_"), body: Box::new(var("_")) }
}

/// `forall name, body`.
pub fn forall_expr(name: &str, body: Expr) -> (r: Expr)
    ensures
        r@ == (Term::Quantifier { symbol: QSymbol::Forall, name: name@, body: Box::new(body@) }),
{
    Expr::Quantifier { symbol: QSymbol::Forall, name: String::from_str(name), body: Box::new(body) }
}

/// `exists name, body`.
pub fn exists_expr(name: &str, body: Expr) -> (r: Expr)
    ensures
        r@ == (Term::Quantifier { symbol: QSymbol::Exists, name: name@, body: Box::new(body@) }),
{
    Expr::Quantifier { symbol: QSymbol::Exists, name: String::from_str(name), body: Box::new(body) }
}

} // verus!
