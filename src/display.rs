use vstd::prelude::*;
use crate::expr::{Expr, Term, ASymbol, BSymbol, QSymbol, USymbol, views, lemma_view_children};

verus! {

broadcast use {vstd::std_specs::vec::axiom_vec_decreases_to_view, vstd::seq::axiom_seq_index_decreases, vstd::seq::axiom_seq_subrange_decreases};

/// The glyph of a unary connective.
pub open spec fn u_glyph(s: USymbol) -> Seq<char> {
    match s { USymbol::Not => "¬"@ }
}

/// The glyph of a binary connective.
pub open spec fn b_glyph(s: BSymbol) -> Seq<char> {
    match s { BSymbol::Implies => "→"@, BSymbol::Plus => "+"@, BSymbol::Mult => "*"@ }
}

/// The glyph of an associative connective.
pub open spec fn a_glyph(s: ASymbol) -> Seq<char> {
    match s { ASymbol::And => "∧"@, ASymbol::Or => "∨"@, ASymbol::Bicon => "↔"@, ASymbol::Equiv => "≡"@ }
}

/// The glyph of a quantifier.
pub open spec fn q_glyph(s: QSymbol) -> Seq<char> {
    match s { QSymbol::Forall => "∀"@, QSymbol::Exists => "∃"@ }
}

/// The text of a term: `⊥`, `⊤`, names as they are, `f(a, b)`, `¬x`,
/// `(a → b)`, `(a ∧ b ∧ c)`, `(∀ x, body)`.
pub open spec fn render(t: Term) -> Seq<char>
    decreases t,
{
    match t {
        Term::Contradiction => "⊥"@,
        Term::Tautology => "⊤"@,
        Term::Var { name } => name,
        Term::Apply { func, args } =>
            if args.len() > 0 { render(*func) + "("@ + render_joined(args, ", "@) + ")"@ } else { render(*func) },
        Term::Unop { symbol, operand } => u_glyph(symbol) + render(*operand),
        Term::Binop { symbol, left, right } =>
            "("@ + render(*left) + " "@ + b_glyph(symbol) + " "@ + render(*right) + ")"@,
        Term::AssocBinop { symbol, exprs } => "("@ + render_joined(exprs, " "@ + a_glyph(symbol) + " "@) + ")"@,
        Term::Quantifier { symbol, name, body } => "("@ + q_glyph(symbol) + " "@ + name + ", "@ + render(*body) + ")"@,
    }
}

/// The texts of the terms of `s`, with `sep` between each two.
pub open spec fn render_joined(s: Seq<Term>, sep: Seq<char>) -> Seq<char>
    decreases s,
{
    if s.len() == 0 {
        Seq::empty()
    } else if s.len() == 1 {
        render(s[0])
    } else {
        render_joined(s.subrange(0, s.len() - 1), sep) + sep + render(s[s.len() - 1])
    }
}

impl USymbol {
    /// The glyph of the connective.
    pub fn glyph(&self) -> (r: &'static str)
        ensures
            r@ == u_glyph(*self),
    {
        match self { USymbol::Not => "¬" }
    }
}

impl BSymbol {
    /// The glyph of the connective.
    pub fn glyph(&self) -> (r: &'static str)
        ensures
            r@ == b_glyph(*self),
    {
        match self { BSymbol::Implies => "→", BSymbol::Plus => "+", BSymbol::Mult => "*" }
    }
}

impl ASymbol {
    /// The glyph of the connective.
    pub fn glyph(&self) -> (r: &'static str)
        ensures
            r@ == a_glyph(*self),
    {
        match self { ASymbol::And => "∧", ASymbol::Or => "∨", ASymbol::Bicon => "↔", ASymbol::Equiv => "≡" }
    }
}

impl QSymbol {
    /// The glyph of the quantifier.
    pub fn glyph(&self) -> (r: &'static str)
        ensures
            r@ == q_glyph(*self),
    {
        match self { QSymbol::Forall => "∀", QSymbol::Exists => "∃" }
    }
}

/// Writes the texts of `es` after `out`, with `sep` between each two.
fn write_joined(es: &Vec<Expr>, sep: &str, out: &mut String)
    ensures
        final(out)@ == old(out)@ + render_joined(views(es@), sep@),
    decreases es,
{
    let ghost start = out@;
    let ghost s = views(es@);
    let mut i: usize = 0;
    while i < es.len()
        invariant
            i <= es.len(),
            s == views(es@),
            out@ == start + render_joined(s.subrange(0, i as int), sep@),
        decreases es.len() - i,
    {
        proof {
            let p = s.subrange(0, i + 1);
            assert(p.subrange(0, i as int) =~= s.subrange(0, i as int));
            assert(p[i as int] == s[i as int]);
            if i == 0 {
                assert(p =~= seq![s[0]]);
            }
        }
        if i > 0 {
            out.append(sep);
        }
        write_expr(&es[i], out);
        proof {
            if i == 0 {
                assert(render_joined(s.subrange(0, 0), sep@) =~= Seq::<char>::empty());
                assert(out@ =~= start + render_joined(s.subrange(0, 1), sep@));
            } else {
                assert(out@ =~= start + render_joined(s.subrange(0, i + 1), sep@));
            }
        }
        i = i + 1;
    }
    assert(s.subrange(0, es.len() as int) =~= s);
}

/// Writes the text of `e` after `out`.
fn write_expr(e: &Expr, out: &mut String)
    ensures
        final(out)@ == old(out)@ + render(e@),
    decreases e,
{
    proof {
        lemma_view_children(*e);
    }
    let ghost start = out@;
    match e {
        Expr::Contradiction => out.append("⊥"),
        Expr::Tautology => out.append("⊤"),
        Expr::Var { name } => out.append(name.as_str()),
        Expr::Apply { func, args } => {
            write_expr(func, out);
            if args.len() > 0 {
                out.append("(");
                write_joined(args, ", ", out);
                out.append(")");
            }
        },
        Expr::Unop { symbol, operand } => {
            out.append(symbol.glyph());
            write_expr(operand, out);
        },
        Expr::Binop { symbol, left, right } => {
            out.append("(");
            write_expr(left, out);
            out.append(" ");
            out.append(symbol.glyph());
            out.append(" ");
            write_expr(right, out);
            out.append(")");
        },
        Expr::AssocBinop { symbol, exprs } => {
            let mut sep = String::from_str(" ");
            sep.append(symbol.glyph());
            sep.append(" ");
            out.append("(");
            write_joined(exprs, sep.as_str(), out);
            out.append(")");
        },
        Expr::Quantifier { symbol, name, body } => {
            out.append("(");
            out.append(symbol.glyph());
            out.append(" ");
            out.append(name.as_str());
            out.append(", ");
            write_expr(body, out);
            out.append(")");
        },
    }
    assert(out@ =~= start + render(e@));
}

impl Expr {
    /// The text of the formula, in the notation of `render`.
    pub fn to_string(&self) -> (r: String)
        ensures
            r@ == render(self@),
    {
        let mut out = String::new();
        write_expr(self, &mut out);
        assert(out@ =~= render(self@));
        out
    }
}

} // verus!
