use vstd::prelude::*;
use vstd::set_lib::{lemma_len_subset, lemma_map_size, lemma_int_range, set_int_range};
use crate::expr::{Expr, Term, views, lemma_view_children};

verus! {

broadcast use {vstd::std_specs::vec::axiom_vec_decreases_to_view, vstd::seq::axiom_seq_index_decreases, vstd::seq::axiom_seq_subrange_decreases};

/// The free names of a term: those of its `Var` leaves that no enclosing
/// quantifier binds.
pub open spec fn fv(t: Term) -> Set<Seq<char>>
    decreases t,
{
    match t {
        Term::Contradiction => Set::empty(),
        Term::Tautology => Set::empty(),
        Term::Var { name } => set![name],
        Term::Apply { func, args } => fv(*func).union(fv_list(args)),
        Term::Unop { operand, .. } => fv(*operand),
        Term::Binop { left, right, .. } => fv(*left).union(fv(*right)),
        Term::AssocBinop { exprs, .. } => fv_list(exprs),
        Term::Quantifier { name, body, .. } => fv(*body).remove(name),
    }
}

/// The union of the free names of a sequence of terms.
pub open spec fn fv_list(s: Seq<Term>) -> Set<Seq<char>>
    decreases s,
{
    if s.len() == 0 {
        Set::empty()
    } else {
        fv_list(s.subrange(0, s.len() - 1)).union(fv(s[s.len() - 1]))
    }
}

/// The names held in a vector of strings.
pub open spec fn name_set(v: Seq<String>) -> Set<Seq<char>> {
    Set::new(|n: Seq<char>| exists|i: int| 0 <= i < v.len() && v[i]@ == n)
}

/// A term has finitely many free names.
pub proof fn lemma_fv_finite(t: Term)
    ensures
        fv(t).finite(),
    decreases t,
{
    match t {
        Term::Apply { func, args } => {
            lemma_fv_finite(*func);
            lemma_fv_list_finite(args);
        },
        Term::Unop { operand, .. } => lemma_fv_finite(*operand),
        Term::Binop { left, right, .. } => {
            lemma_fv_finite(*left);
            lemma_fv_finite(*right);
        },
        Term::AssocBinop { exprs, .. } => lemma_fv_list_finite(exprs),
        Term::Quantifier { body, .. } => lemma_fv_finite(*body),
        _ => {},
    }
}

/// A sequence of terms has finitely many free names.
pub proof fn lemma_fv_list_finite(s: Seq<Term>)
    ensures
        fv_list(s).finite(),
    decreases s,
{
    if s.len() > 0 {
        lemma_fv_list_finite(s.subrange(0, s.len() - 1));
        lemma_fv_finite(s[s.len() - 1]);
    }
}

/// The character of a decimal digit.
pub open spec fn digit_char(d: nat) -> char {
    if d == 0 { '0' } else if d == 1 { '1' } else if d == 2 { '2' } else if d == 3 { '3' }
    else if d == 4 { '4' } else if d == 5 { '5' } else if d == 6 { '6' } else if d == 7 { '7' }
    else if d == 8 { '8' } else { '9' }
}

/// The decimal notation of a natural number, without leading zeros.
pub open spec fn decimal(n: nat) -> Seq<char>
    decreases n,
{
    if n < 10 {
        seq![digit_char(n)]
    } else {
        decimal(n / 10).push(digit_char(n % 10))
    }
}

/// The `i`-th name that `gensym` tries for `base`.
pub open spec fn candidate(base: Seq<char>, i: nat) -> Seq<char> {
    base + decimal(i)
}

/// `i` is the least suffix whose candidate is not avoided.
pub open spec fn is_gensym_index(base: Seq<char>, avoid: Set<Seq<char>>, i: nat) -> bool {
    &&& !avoid.contains(candidate(base, i))
    &&& forall|j: nat| j < i ==> avoid.contains(#[trigger] candidate(base, j))
}

/// The name `gensym` returns: `base` followed by the least decimal suffix
/// that gives a name outside `avoid`.
pub open spec fn gensym_name(base: Seq<char>, avoid: Set<Seq<char>>) -> Seq<char> {
    candidate(base, choose|i: nat| is_gensym_index(base, avoid, i))
}

proof fn lemma_decimal_nonempty(n: nat)
    ensures
        decimal(n).len() >= 1,
    decreases n,
{
    if n >= 10 {
        lemma_decimal_nonempty(n / 10);
    }
}

proof fn lemma_decimal_injective(n: nat, m: nat)
    requires
        decimal(n) == decimal(m),
    ensures
        n == m,
    decreases n,
{
    if n < 10 && m < 10 {
        assert(decimal(n)[0] == digit_char(n));
    } else if n < 10 {
        lemma_decimal_nonempty(m / 10);
        assert(decimal(m).len() >= 2);
    } else if m < 10 {
        lemma_decimal_nonempty(n / 10);
        assert(decimal(n).len() >= 2);
    } else {
        let dn = decimal(n);
        assert(dn[dn.len() - 1] == digit_char(n % 10));
        assert(decimal(n / 10) =~= dn.drop_last());
        assert(decimal(m / 10) =~= decimal(m).drop_last());
        lemma_decimal_injective(n / 10, m / 10);
    }
}

proof fn lemma_candidate_injective(base: Seq<char>, i: nat, j: nat)
    requires
        candidate(base, i) == candidate(base, j),
    ensures
        i == j,
{
    let ci = candidate(base, i);
    let cj = candidate(base, j);
    assert(decimal(i) =~= ci.subrange(base.len() as int, ci.len() as int));
    assert(decimal(j) =~= cj.subrange(base.len() as int, cj.len() as int));
    lemma_decimal_injective(i, j);
}

proof fn lemma_gensym_index_unique(base: Seq<char>, avoid: Set<Seq<char>>, i: nat)
    requires
        is_gensym_index(base, avoid, i),
    ensures
        gensym_name(base, avoid) == candidate(base, i),
{
    let k = choose|k: nat| is_gensym_index(base, avoid, k);
    if k < i {
        assert(avoid.contains(candidate(base, k)));
    } else if i < k {
        assert(avoid.contains(candidate(base, i)));
    }
}

proof fn lemma_least_index(base: Seq<char>, avoid: Set<Seq<char>>, j: nat, k: nat)
    requires
        j <= k,
        !avoid.contains(candidate(base, k)),
        forall|i: nat| i < j ==> avoid.contains(#[trigger] candidate(base, i)),
    ensures
        exists|i: nat| is_gensym_index(base, avoid, i),
    decreases k - j,
{
    if !avoid.contains(candidate(base, j)) {
        assert(is_gensym_index(base, avoid, j));
    } else {
        assert forall|i: nat| i < j + 1 implies avoid.contains(#[trigger] candidate(base, i)) by {}
        lemma_least_index(base, avoid, j + 1, k);
    }
}

/// Against a finite set of names, `gensym_name` gives a name outside it.
pub proof fn lemma_gensym_fresh(base: Seq<char>, avoid: Set<Seq<char>>)
    requires
        avoid.finite(),
    ensures
        !avoid.contains(gensym_name(base, avoid)),
{
    let m = avoid.len() as int;
    let range = set_int_range(0, m + 1);
    let f = |i: int| candidate(base, i as nat);
    lemma_int_range(0, m + 1);
    assert forall|a: int, b: int| range.contains(a) && range.contains(b) && #[trigger] f(a) == #[trigger] f(b) implies a == b by {
        lemma_candidate_injective(base, a as nat, b as nat);
    }
    let image = range.map(f);
    lemma_map_size(range, image, f);
    if forall|i: nat| i <= m ==> avoid.contains(#[trigger] candidate(base, i)) {
        assert forall|n: Seq<char>| image.contains(n) implies avoid.contains(n) by {
            let i = choose|i: int| range.contains(i) && f(i) == n;
            assert(avoid.contains(candidate(base, i as nat)));
        }
        lemma_len_subset(image, avoid);
        assert(false);
    }
    let k = choose|k: nat| !(k <= m ==> avoid.contains(#[trigger] candidate(base, k)));
    lemma_least_index(base, avoid, 0, k);
}

fn digit_string(d: u64) -> (r: String)
    requires
        d < 10,
    ensures
        r@ == seq![digit_char(d as nat)],
{
    proof {
        reveal_strlit("0"); reveal_strlit("1"); reveal_strlit("2"); reveal_strlit("3");
        reveal_strlit("4"); reveal_strlit("5"); reveal_strlit("6"); reveal_strlit("7");
        reveal_strlit("8"); reveal_strlit("9");
    }
    let s = if d == 0 { "0" } else if d == 1 { "1" } else if d == 2 { "2" } else if d == 3 { "3" }
        else if d == 4 { "4" } else if d == 5 { "5" } else if d == 6 { "6" } else if d == 7 { "7" }
        else if d == 8 { "8" } else { "9" };
    let r = String::from_str(s);
    assert(r@ =~= seq![digit_char(d as nat)]);
    r
}

/// Writes `n` in decimal after `s`.
fn push_decimal(s: &mut String, n: u64)
    ensures
        final(s)@ == old(s)@ + decimal(n as nat),
    decreases n,
{
    if n >= 10 {
        push_decimal(s, n / 10);
    }
    let d = digit_string(n % 10);
    s.append(d.as_str());
    proof {
        if n >= 10 {
            assert(final(s)@ =~= old(s)@ + decimal(n as nat));
        } else {
            assert(final(s)@ =~= old(s)@ + decimal(n as nat));
        }
    }
}

/// Whether `name` is one of the strings in `v`.
pub fn contains_name(v: &Vec<String>, name: &String) -> (r: bool)
    ensures
        r == name_set(v@).contains(name@),
{
    let mut i: usize = 0;
    while i < v.len()
        invariant
            i <= v.len(),
            forall|k: int| 0 <= k < i ==> v@[k]@ != name@,
        decreases v.len() - i,
    {
        if v[i] == *name {
            return true;
        }
        i = i + 1;
    }
    false
}

/// A name that is not in `avoid`: `orig` followed by the least decimal
/// suffix, counting from zero, that gives such a name.
pub fn gensym(orig: &str, avoid: &Vec<String>) -> (r: String)
    ensures
        r@ == gensym_name(orig@, name_set(avoid@)),
        !name_set(avoid@).contains(r@),
{
    let ghost avoid_set = name_set(avoid@);
    let ghost names = avoid@.map_values(|s: String| s@);
    proof {
        assert forall|n: Seq<char>| avoid_set.contains(n) <==> names.to_set().contains(n) by {
            if avoid_set.contains(n) {
                let k = choose|k: int| 0 <= k < avoid@.len() && avoid@[k]@ == n;
                assert(names[k] == n);
            }
            if names.contains(n) {
                let k = choose|k: int| 0 <= k < names.len() && names[k] == n;
                assert(avoid@[k]@ == n);
            }
        }
        assert(avoid_set =~= names.to_set());
        names.lemma_cardinality_of_set();
    }
    let mut i: u64 = 0;
    let ghost mut seen: Set<Seq<char>> = Set::empty();
    loop
        invariant
            avoid_set == name_set(avoid@),
            avoid_set =~= names.to_set(),
            avoid_set.len() <= avoid.len(),
            avoid_set.finite(),
            seen.finite(),
            seen.len() == i,
            seen.subset_of(avoid_set),
            forall|n: Seq<char>| #[trigger] seen.contains(n) ==> exists|j: nat| j < i && n == candidate(orig@, j),
            forall|j: nat| j < i ==> avoid_set.contains(#[trigger] candidate(orig@, j)),
        decreases avoid.len() - i,
    {
        proof {
            lemma_len_subset(seen, avoid_set);
        }
        let mut c = String::from_str(orig);
        push_decimal(&mut c, i);
        if !contains_name(avoid, &c) {
            proof {
                lemma_gensym_index_unique(orig@, avoid_set, i as nat);
            }
            return c;
        }
        proof {
            if seen.contains(c@) {
                let j = choose|j: nat| j < i && c@ == candidate(orig@, j);
                lemma_candidate_injective(orig@, i as nat, j);
            }
            let old_seen = seen;
            seen = seen.insert(c@);
            lemma_len_subset(seen, avoid_set);
            assert forall|n: Seq<char>| #[trigger] seen.contains(n) implies exists|j: nat| j < i + 1 && n == candidate(orig@, j) by {
                if n == c@ {
                    assert(n == candidate(orig@, i as nat));
                } else {
                    assert(old_seen.contains(n));
                    let j = choose|j: nat| j < i && n == candidate(orig@, j);
                    assert(j < i + 1);
                }
            }
        }
        i = i + 1;
    }
}

/// Adds the names of `s` to `r`.
pub(crate) fn extend_names(r: &mut Vec<String>, s: Vec<String>)
    ensures
        name_set(final(r)@) == name_set(old(r)@).union(name_set(s@)),
{
    let ghost r0 = r@;
    let mut i: usize = 0;
    let mut s = s;
    let ghost s0 = s@;
    while i < s.len()
        invariant
            s@ == s0,
            i <= s.len(),
            r@.len() == r0.len() + i,
            forall|k: int| 0 <= k < r0.len() ==> r@[k] == r0[k],
            forall|k: int| 0 <= k < i ==> r@[r0.len() + k] == s0[k],
        decreases s.len() - i,
    {
        r.push(s[i].clone());
        i = i + 1;
    }
    proof {
        assert forall|n: Seq<char>| name_set(r@).contains(n) <==> name_set(r0).union(name_set(s0)).contains(n) by {
            if name_set(r@).contains(n) {
                let k = choose|k: int| 0 <= k < r@.len() && r@[k]@ == n;
                if k >= r0.len() {
                    let k2 = k - r0.len();
                    assert(r@[r0.len() + k2] == s0[k2]);
                    assert(name_set(s0).contains(n));
                } else {
                    assert(r@[k] == r0[k]);
                    assert(r0[k]@ == n);
                    assert(name_set(r0).contains(n));
                }
            }
            if name_set(r0).contains(n) {
                let k = choose|k: int| 0 <= k < r0.len() && r0[k]@ == n;
                assert(r@[k]@ == n);
            }
            if name_set(s0).contains(n) {
                let k = choose|k: int| 0 <= k < s0.len() && s0[k]@ == n;
                assert(r@[r0.len() + k]@ == n);
            }
        }
        assert(name_set(r@) =~= name_set(r0).union(name_set(s0)));
    }
}

/// The strings of `v` other than `name`.
fn without_name(v: Vec<String>, name: &String) -> (r: Vec<String>)
    ensures
        name_set(r@) == name_set(v@).remove(name@),
{
    let mut r: Vec<String> = Vec::new();
    let mut i: usize = 0;
    while i < v.len()
        invariant
            i <= v.len(),
            forall|k: int| 0 <= k < r@.len() ==> r@[k]@ != name@ && name_set(v@).contains(#[trigger] r@[k]@),
            forall|k: int| 0 <= k < i && v@[k]@ != name@ ==> name_set(r@).contains(#[trigger] v@[k]@),
        decreases v.len() - i,
    {
        if !(v[i] == *name) {
            let ghost r_old = r@;
            r.push(v[i].clone());
            proof {
                assert(r@[r@.len() - 1]@ == v@[i as int]@);
                assert forall|k: int| 0 <= k < i + 1 && v@[k]@ != name@ implies name_set(r@).contains(#[trigger] v@[k]@) by {
                    if k < i {
                        let m = choose|m: int| 0 <= m < r_old.len() && r_old[m]@ == v@[k]@;
                        assert(r@[m] == r_old[m]);
                    } else {
                        assert(r@[r@.len() - 1]@ == v@[k]@);
                    }
                }
            }
        }
        i = i + 1;
    }
    proof {
        assert forall|n: Seq<char>| name_set(r@).contains(n) <==> name_set(v@).remove(name@).contains(n) by {
            if name_set(r@).contains(n) {
                let k = choose|k: int| 0 <= k < r@.len() && r@[k]@ == n;
            }
            if name_set(v@).remove(name@).contains(n) {
                let k = choose|k: int| 0 <= k < v@.len() && v@[k]@ == n;
            }
        }
        assert(name_set(r@) =~= name_set(v@).remove(name@));
    }
    r
}

/// The free names of a list of formulas.
fn freevars_list(es: &Vec<Expr>) -> (r: Vec<String>)
    ensures
        name_set(r@) == fv_list(views(es@)),
    decreases es,
{
    let mut r: Vec<String> = Vec::new();
    let mut i: usize = 0;
    while i < es.len()
        invariant
            i <= es.len(),
            name_set(r@) == fv_list(views(es@).subrange(0, i as int)),
        decreases es.len() - i,
    {
        let s = freevars(&es[i]);
        extend_names(&mut r, s);
        proof {
            let sv = views(es@).subrange(0, i + 1);
            assert(sv.subrange(0, i as int) =~= views(es@).subrange(0, i as int));
        }
        i = i + 1;
    }
    proof {
        assert(views(es@).subrange(0, es.len() as int) =~= views(es@));
        assert(name_set(Seq::<String>::empty()) =~= Set::<Seq<char>>::empty());
    }
    r
}

/// The free names of `e`, each at least once.
pub fn freevars(e: &Expr) -> (r: Vec<String>)
    ensures
        name_set(r@) == fv(e@),
    decreases e,
{
    proof {
        lemma_view_children(*e);
        assert(name_set(Seq::<String>::empty()) =~= Set::<Seq<char>>::empty());
    }
    match e {
        Expr::Contradiction => Vec::new(),
        Expr::Tautology => Vec::new(),
        Expr::Var { name } => {
            let r = vec![name.clone()];
            proof {
                assert(r@[0]@ == name@);
                assert(name_set(r@) =~= set![name@]);
            }
            r
        },
        Expr::Apply { func, args } => {
            let mut r = freevars(func);
            let s = freevars_list(args);
            extend_names(&mut r, s);
            r
        },
        Expr::Unop { operand, .. } => freevars(operand),
        Expr::Binop { left, right, .. } => {
            let mut r = freevars(left);
            let s = freevars(right);
            extend_names(&mut r, s);
            r
        },
        Expr::AssocBinop { exprs, .. } => freevars_list(exprs),
        Expr::Quantifier { name, body, .. } => {
            let r = freevars(body);
            without_name(r, name)
        },
    }
}

} // verus!
