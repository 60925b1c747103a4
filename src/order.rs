use vstd::prelude::*;
use vstd::string::StrSliceExecFns;
use crate::expr::{Expr, Term, ASymbol, BSymbol, QSymbol, USymbol, views, lemma_view_children};

verus! {

broadcast use {vstd::std_specs::vec::axiom_vec_decreases_to_view, vstd::seq::axiom_seq_index_decreases};

/// -1, 0 or 1 as `a` is below, equal to or above `b`.
pub open spec fn cmp_int(a: int, b: int) -> int {
    if a < b { -1 } else if a > b { 1 } else { 0 }
}

/// The position of each kind of formula in the order.
pub open spec fn tag(t: Term) -> int {
    match t {
        Term::Contradiction => 0,
        Term::Tautology => 1,
        Term::Var { .. } => 2,
        Term::Apply { .. } => 3,
        Term::Unop { .. } => 4,
        Term::Binop { .. } => 5,
        Term::AssocBinop { .. } => 6,
        Term::Quantifier { .. } => 7,
    }
}

/// The position of a unary connective in the order.
pub open spec fn u_rank(s: USymbol) -> int {
    match s { USymbol::Not => 0 }
}

/// The position of a binary connective in the order.
pub open spec fn b_rank(s: BSymbol) -> int {
    match s { BSymbol::Implies => 0, BSymbol::Plus => 1, BSymbol::Mult => 2 }
}

/// The position of an associative connective in the order.
pub open spec fn a_rank(s: ASymbol) -> int {
    match s { ASymbol::And => 0, ASymbol::Or => 1, ASymbol::Bicon => 2, ASymbol::Equiv => 3 }
}

/// The position of a quantifier in the order.
pub open spec fn q_rank(s: QSymbol) -> int {
    match s { QSymbol::Forall => 0, QSymbol::Exists => 1 }
}

/// Lexicographic comparison of two names from position `i` on, character
/// by character on code points; a proper prefix comes first.
pub open spec fn cmp_chars(a: Seq<char>, b: Seq<char>, i: nat) -> int
    decreases a.len() - i,
{
    if i >= a.len() && i >= b.len() {
        0
    } else if i >= a.len() {
        -1
    } else if i >= b.len() {
        1
    } else if a[i as int] != b[i as int] {
        cmp_int(a[i as int] as u32 as int, b[i as int] as u32 as int)
    } else {
        cmp_chars(a, b, i + 1)
    }
}

/// The order on terms: by kind, then field by field in declaration order.
pub open spec fn cmp_term(a: Term, b: Term) -> int
    decreases a, 0int,
{
    if tag(a) != tag(b) {
        cmp_int(tag(a), tag(b))
    } else {
        match (a, b) {
            (Term::Var { name: n1 }, Term::Var { name: n2 }) => cmp_chars(n1, n2, 0),
            (Term::Apply { func: f1, args: a1 }, Term::Apply { func: f2, args: a2 }) => {
                let c = cmp_term(*f1, *f2);
                if c != 0 { c } else { cmp_terms(a1, a2, 0) }
            },
            (Term::Unop { symbol: s1, operand: o1 }, Term::Unop { symbol: s2, operand: o2 }) => {
                if s1 != s2 { cmp_int(u_rank(s1), u_rank(s2)) } else { cmp_term(*o1, *o2) }
            },
            (Term::Binop { symbol: s1, left: l1, right: r1 }, Term::Binop { symbol: s2, left: l2, right: r2 }) => {
                if s1 != s2 {
                    cmp_int(b_rank(s1), b_rank(s2))
                } else {
                    let c = cmp_term(*l1, *l2);
                    if c != 0 { c } else { cmp_term(*r1, *r2) }
                }
            },
            (Term::AssocBinop { symbol: s1, exprs: e1 }, Term::AssocBinop { symbol: s2, exprs: e2 }) => {
                if s1 != s2 { cmp_int(a_rank(s1), a_rank(s2)) } else { cmp_terms(e1, e2, 0) }
            },
            (Term::Quantifier { symbol: s1, name: n1, body: b1 }, Term::Quantifier { symbol: s2, name: n2, body: b2 }) => {
                if s1 != s2 {
                    cmp_int(q_rank(s1), q_rank(s2))
                } else {
                    let c = cmp_chars(n1, n2, 0);
                    if c != 0 { c } else { cmp_term(*b1, *b2) }
                }
            },
            _ => 0,
        }
    }
}

/// Lexicographic comparison of two sequences of terms from position `i` on.
pub open spec fn cmp_terms(a: Seq<Term>, b: Seq<Term>, i: nat) -> int
    decreases a, a.len() - i,
{
    if i >= a.len() && i >= b.len() {
        0
    } else if i >= a.len() {
        -1
    } else if i >= b.len() {
        1
    } else {
        let c = cmp_term(a[i as int], b[i as int]);
        if c != 0 { c } else { cmp_terms(a, b, i + 1) }
    }
}

fn compare_names(a: &String, b: &String) -> (r: i8)
    ensures
        r as int == cmp_chars(a@, b@, 0),
{
    let la = a.as_str().unicode_len();
    let lb = b.as_str().unicode_len();
    let mut i: usize = 0;
    while i < la && i < lb
        invariant
            la == a@.len(),
            lb == b@.len(),
            i <= la,
            i <= lb,
            cmp_chars(a@, b@, 0) == cmp_chars(a@, b@, i as nat),
        decreases la - i,
    {
        let ca = a.as_str().get_char(i);
        let cb = b.as_str().get_char(i);
        if ca != cb {
            return if (ca as u32) < (cb as u32) { -1 } else { 1 };
        }
        i = i + 1;
    }
    if i >= la && i >= lb {
        0
    } else if i >= la {
        -1
    } else {
        1
    }
}

fn cmp_rank(a: u8, b: u8) -> (r: i8)
    ensures
        r as int == cmp_int(a as int, b as int),
{
    if a < b { -1 } else if a > b { 1 } else { 0 }
}

fn expr_tag(e: &Expr) -> (r: u8)
    ensures
        r as int == tag(e@),
{
    match e {
        Expr::Contradiction => 0,
        Expr::Tautology => 1,
        Expr::Var { .. } => 2,
        Expr::Apply { .. } => 3,
        Expr::Unop { .. } => 4,
        Expr::Binop { .. } => 5,
        Expr::AssocBinop { .. } => 6,
        Expr::Quantifier { .. } => 7,
    }
}

fn b_rank_of(s: BSymbol) -> (r: u8)
    ensures
        r as int == b_rank(s),
{
    match s { BSymbol::Implies => 0, BSymbol::Plus => 1, BSymbol::Mult => 2 }
}

fn a_rank_of(s: ASymbol) -> (r: u8)
    ensures
        r as int == a_rank(s),
{
    match s { ASymbol::And => 0, ASymbol::Or => 1, ASymbol::Bicon => 2, ASymbol::Equiv => 3 }
}

fn q_rank_of(s: QSymbol) -> (r: u8)
    ensures
        r as int == q_rank(s),
{
    match s { QSymbol::Forall => 0, QSymbol::Exists => 1 }
}

/// Compares two formulas: -1, 0 or 1 as `a` comes before, equals or comes
/// after `b`.
pub fn compare_expr(a: &Expr, b: &Expr) -> (r: i8)
    ensures
        r as int == cmp_term(a@, b@),
    decreases a,
{
    proof {
        lemma_view_children(*a);
        lemma_view_children(*b);
    }
    let ta = expr_tag(a);
    let tb = expr_tag(b);
    if ta != tb {
        return cmp_rank(ta, tb);
    }
    match (a, b) {
        (Expr::Var { name: n1 }, Expr::Var { name: n2 }) => compare_names(n1, n2),
        (Expr::Apply { func: f1, args: a1 }, Expr::Apply { func: f2, args: a2 }) => {
            let c = compare_expr(f1, f2);
            if c != 0 { c } else { compare_list(a1, a2) }
        },
        (Expr::Unop { operand: o1, .. }, Expr::Unop { operand: o2, .. }) => compare_expr(o1, o2),
        (Expr::Binop { symbol: s1, left: l1, right: r1 }, Expr::Binop { symbol: s2, left: l2, right: r2 }) => {
            if *s1 != *s2 {
                cmp_rank(b_rank_of(*s1), b_rank_of(*s2))
            } else {
                let c = compare_expr(l1, l2);
                if c != 0 { c } else { compare_expr(r1, r2) }
            }
        },
        (Expr::AssocBinop { symbol: s1, exprs: e1 }, Expr::AssocBinop { symbol: s2, exprs: e2 }) => {
            if *s1 != *s2 { cmp_rank(a_rank_of(*s1), a_rank_of(*s2)) } else { compare_list(e1, e2) }
        },
        (Expr::Quantifier { symbol: s1, name: n1, body: b1 }, Expr::Quantifier { symbol: s2, name: n2, body: b2 }) => {
            if *s1 != *s2 {
                cmp_rank(q_rank_of(*s1), q_rank_of(*s2))
            } else {
                let c = compare_names(n1, n2);
                if c != 0 { c } else { compare_expr(b1, b2) }
            }
        },
        _ => 0,
    }
}

/// Compares two lists of formulas lexicographically.
pub fn compare_list(a: &Vec<Expr>, b: &Vec<Expr>) -> (r: i8)
    ensures
        r as int == cmp_terms(views(a@), views(b@), 0),
    decreases a,
{
    let mut i: usize = 0;
    while i < a.len() && i < b.len()
        invariant
            i <= a.len(),
            i <= b.len(),
            cmp_terms(views(a@), views(b@), 0) == cmp_terms(views(a@), views(b@), i as nat),
        decreases a.len() - i,
    {
        let c = compare_expr(&a[i], &b[i]);
        if c != 0 {
            return c;
        }
        i = i + 1;
    }
    if i >= a.len() && i >= b.len() {
        0
    } else if i >= a.len() {
        -1
    } else {
        1
    }
}

/// `x` inserted into `s` before the first term that is not below it.
pub open spec fn insert_sorted(x: Term, s: Seq<Term>) -> Seq<Term>
    decreases s.len(),
{
    if s.len() == 0 {
        seq![x]
    } else if cmp_term(x, s[0]) <= 0 {
        seq![x] + s
    } else {
        seq![s[0]] + insert_sorted(x, s.drop_first())
    }
}

/// Insertion sort of a sequence of terms, in ascending order.
pub open spec fn sort_terms(s: Seq<Term>) -> Seq<Term>
    decreases s.len(),
{
    if s.len() == 0 {
        s
    } else {
        insert_sorted(s[0], sort_terms(s.drop_first()))
    }
}

/// Each term is at most the next one.
pub open spec fn is_sorted(s: Seq<Term>) -> bool {
    forall|i: int| 0 <= i < s.len() - 1 ==> cmp_term(#[trigger] s[i], s[i + 1]) <= 0
}

proof fn lemma_insert_sorted_split(x: Term, s: Seq<Term>, j: int)
    requires
        0 <= j <= s.len(),
        forall|k: int| 0 <= k < j ==> cmp_term(x, #[trigger] s[k]) > 0,
    ensures
        insert_sorted(x, s) == s.subrange(0, j) + insert_sorted(x, s.subrange(j, s.len() as int)),
    decreases j,
{
    if j > 0 {
        assert(cmp_term(x, s[0]) > 0);
        let t = s.drop_first();
        assert forall|k: int| 0 <= k < j - 1 implies cmp_term(x, #[trigger] t[k]) > 0 by {
            assert(t[k] == s[k + 1]);
        }
        lemma_insert_sorted_split(x, t, j - 1);
        assert(t.subrange(j - 1, t.len() as int) =~= s.subrange(j, s.len() as int));
        assert(seq![s[0]] + t.subrange(0, j - 1) =~= s.subrange(0, j));
    } else {
        assert(s.subrange(0, 0) + insert_sorted(x, s) =~= insert_sorted(x, s));
        assert(s.subrange(0, s.len() as int) =~= s);
    }
}

/// Inserts `x` before the first formula of `v` that is not below it.
fn insert_expr(v: &mut Vec<Expr>, x: Expr)
    ensures
        views(final(v)@) == insert_sorted(x@, views(old(v)@)),
{
    let ghost s = views(v@);
    let mut j: usize = 0;
    while j < v.len() && compare_expr(&x, &v[j]) > 0
        invariant
            j <= v.len(),
            views(v@) == s,
            forall|k: int| 0 <= k < j ==> cmp_term(x@, #[trigger] s[k]) > 0,
        decreases v.len() - j,
    {
        j = j + 1;
    }
    proof {
        lemma_insert_sorted_split(x@, s, j as int);
        let rest = s.subrange(j as int, s.len() as int);
        if j < s.len() {
            assert(rest[0] == s[j as int]);
            assert(insert_sorted(x@, rest) == seq![x@] + rest);
        } else {
            assert(insert_sorted(x@, rest) == seq![x@]);
        }
    }
    let ghost xv = x@;
    v.insert(j, x);
    assert(views(v@) =~= s.subrange(0, j as int) + insert_sorted(xv, s.subrange(j as int, s.len() as int)));
}

/// The formulas of `v` in ascending order.
pub fn sort_exprs(v: Vec<Expr>) -> (r: Vec<Expr>)
    ensures
        views(r@) == sort_terms(views(v@)),
{
    let ghost s = views(v@);
    let mut v = v;
    let mut r: Vec<Expr> = Vec::new();
    while v.len() > 0
        invariant
            views(v@) == s.subrange(0, v@.len() as int),
            v@.len() <= s.len(),
            views(r@) == sort_terms(s.subrange(v@.len() as int, s.len() as int)),
        decreases v.len(),
    {
        let ghost n = v@.len() as int;
        let ghost v0 = v@;
        let x = v.pop().unwrap();
        proof {
            assert(views(v0)[n - 1] == s.subrange(0, n)[n - 1]);
            assert(x@ == s[n - 1]);
            assert(views(v@) =~= s.subrange(0, n - 1));
            let t = s.subrange(n - 1, s.len() as int);
            assert(t.drop_first() =~= s.subrange(n, s.len() as int));
            assert(t[0] == s[n - 1]);
        }
        insert_expr(&mut r, x);
    }
    assert(s.subrange(0, s.len() as int) =~= s);
    r
}

/// Whether each formula of `v` is at most the next one.
pub fn exprs_sorted(v: &Vec<Expr>) -> (r: bool)
    ensures
        r == is_sorted(views(v@)),
{
    let mut i: usize = 0;
    while i < v.len() && i + 1 < v.len()
        invariant
            i <= v.len(),
            forall|k: int| 0 <= k < i && k + 1 < v@.len() ==> cmp_term(#[trigger] views(v@)[k], views(v@)[k + 1]) <= 0,
        decreases v.len() - i,
    {
        if compare_expr(&v[i], &v[i + 1]) > 0 {
            assert(views(v@)[i as int] == v@[i as int]@);
            assert(views(v@)[i + 1] == v@[i + 1]@);
            return false;
        }
        i = i + 1;
    }
    true
}

} // verus!
