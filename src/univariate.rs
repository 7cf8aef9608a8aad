//! Univariate polynomials over the field as coefficient sequences (lowest
//! degree first), and the fact that each round polynomial is one of them,
//! of degree at most the largest term arity.
use vstd::prelude::*;
use crate::field::{fadd, fmul, fsub, p};
use crate::mle::{cube_len, fold_spec};
use crate::virtual_poly::{
    Term, fold_tables, max_arity, prod_at, round_value, sum_to, tables_ok, terms_at, terms_wf,
};
use vstd::arithmetic::div_mod::{
    lemma_add_mod_noop, lemma_add_mod_noop_right, lemma_mod_twice, lemma_mul_mod_noop_left,
    lemma_mul_mod_noop_right,
};

verus! {

/// The polynomial with coefficients `c` at `t`, by Horner's rule.
pub open spec fn peval(c: Seq<int>, t: int) -> int
    decreases c.len(),
{
    if c.len() == 0 {
        0
    } else {
        fadd(c[0], fmul(t, peval(c.drop_first(), t)))
    }
}

/// Coefficient `i`, zero beyond the end.
pub open spec fn coef(a: Seq<int>, i: int) -> int {
    if 0 <= i < a.len() {
        a[i]
    } else {
        0
    }
}

/// All coefficients but the constant one.
pub open spec fn tail(a: Seq<int>) -> Seq<int> {
    if a.len() == 0 {
        a
    } else {
        a.drop_first()
    }
}

/// The sum of two polynomials.
pub open spec fn padd(a: Seq<int>, b: Seq<int>) -> Seq<int> {
    let n = if a.len() >= b.len() {
        a.len()
    } else {
        b.len()
    };
    Seq::new(n, |i: int| fadd(coef(a, i), coef(b, i)))
}

/// A polynomial times the constant `u`.
pub open spec fn pscale(u: int, a: Seq<int>) -> Seq<int> {
    a.map_values(|x: int| fmul(u, x))
}

/// A polynomial times `lo + (hi - lo) * t`, the leading variable of a
/// multilinear operand with low value `lo` and high value `hi`.
pub open spec fn pmul_lin(a: Seq<int>, lo: int, hi: int) -> Seq<int> {
    padd(pscale(lo, a), pscale(fsub(hi, lo), seq![0int] + a))
}

/// The product of operands `ops` at point `b` of the remaining hypercube, as
/// a polynomial in the leading variable.
pub open spec fn prod_coeffs(ops: Seq<usize>, tabs: Seq<Seq<int>>, b: int, h: int) -> Seq<int>
    decreases ops.len(),
{
    if ops.len() == 0 {
        seq![1int]
    } else {
        let e = tabs[ops.last() as int];
        pmul_lin(prod_coeffs(ops.drop_last(), tabs, b, h), e[b], e[b + h])
    }
}

/// The sum of `terms` at point `b`, as a polynomial in the leading variable.
pub open spec fn terms_coeffs(terms: Seq<Term>, tabs: Seq<Seq<int>>, b: int, h: int) -> Seq<int>
    decreases terms.len(),
{
    if terms.len() == 0 {
        Seq::empty()
    } else {
        padd(
            terms_coeffs(terms.drop_last(), tabs, b, h),
            pscale(terms.last().coeff.val(), prod_coeffs(terms.last().operands@, tabs, b, h)),
        )
    }
}

/// The sum over points `0..k`, as a polynomial in the leading variable.
pub open spec fn sum_coeffs(terms: Seq<Term>, tabs: Seq<Seq<int>>, k: nat, h: int) -> Seq<int>
    decreases k,
{
    if k == 0 {
        Seq::empty()
    } else {
        padd(sum_coeffs(terms, tabs, (k - 1) as nat, h), terms_coeffs(terms, tabs, k - 1, h))
    }
}

/// The coefficients of the round polynomial of a polynomial in `n`
/// variables.
pub open spec fn round_coeffs(terms: Seq<Term>, tabs: Seq<Seq<int>>, n: nat) -> Seq<int> {
    let h = cube_len((n - 1) as nat);
    sum_coeffs(terms, tabs, h, h as int)
}

proof fn lemma_peval_unfold(a: Seq<int>, t: int)
    ensures
        peval(a, t) == fadd(coef(a, 0), fmul(t, peval(tail(a), t))),
{
    if a.len() == 0 {
        assert(t * 0 == 0) by (nonlinear_arith);
    }
}

proof fn lemma_padd(a: Seq<int>, b: Seq<int>, t: int)
    ensures
        peval(padd(a, b), t) == fadd(peval(a, t), peval(b, t)),
    decreases a.len() + b.len(),
{
    let s = padd(a, b);
    if s.len() == 0 {
        assert(fadd(0, 0) == 0);
    } else {
        assert(s.drop_first() =~= padd(tail(a), tail(b)));
        lemma_padd(tail(a), tail(b), t);
        lemma_peval_unfold(a, t);
        lemma_peval_unfold(b, t);
        let a0 = coef(a, 0);
        let b0 = coef(b, 0);
        let pa = peval(tail(a), t);
        let pb = peval(tail(b), t);
        let m = p();
        lemma_mul_mod_noop_right(t, pa + pb, m);
        lemma_add_mod_noop(a0 + b0, t * (pa + pb), m);
        lemma_add_mod_noop_right(a0, t * pa, m);
        lemma_add_mod_noop_right(b0, t * pb, m);
        lemma_add_mod_noop(a0 + t * pa, b0 + t * pb, m);
        assert(t * (pa + pb) == t * pa + t * pb) by (nonlinear_arith);
        lemma_add_mod_noop(a0, b0, m);
        lemma_mod_twice(a0 + b0, m);
        assert(fadd(fadd(a0, b0), fmul(t, fadd(pa, pb))) == (a0 + b0 + t * (pa + pb)) % m) by {
            lemma_add_mod_noop(a0 + b0, t * (pa + pb), m);
            vstd::arithmetic::div_mod::lemma_add_mod_noop_right(t * (pa + pb), a0 + b0, m);
            lemma_add_mod_noop_right(a0 + b0, t * (pa + pb), m);
        }
    }
}

proof fn lemma_pscale(u: int, a: Seq<int>, t: int)
    ensures
        peval(pscale(u, a), t) == fmul(u, peval(a, t)),
    decreases a.len(),
{
    if a.len() == 0 {
        assert(u * 0 == 0) by (nonlinear_arith);
    } else {
        assert(pscale(u, a).drop_first() =~= pscale(u, a.drop_first()));
        lemma_pscale(u, a.drop_first(), t);
        let a0 = a[0];
        let q = peval(a.drop_first(), t);
        let m = p();
        lemma_mul_mod_noop_right(t, u * q, m);
        lemma_add_mod_noop(u * a0, t * (u * q), m);
        lemma_add_mod_noop_right(a0, t * q, m);
        lemma_mul_mod_noop_right(u, a0 + t * q, m);
        assert(u * a0 + t * (u * q) == u * (a0 + t * q)) by (nonlinear_arith);
    }
}

proof fn lemma_pmul_lin(a: Seq<int>, lo: int, hi: int, t: int)
    ensures
        peval(pmul_lin(a, lo, hi), t) == fmul(peval(a, t), fadd(fmul(fsub(1, t), lo), fmul(t, hi))),
{
    let q = peval(a, t);
    let v = fsub(hi, lo);
    let sh = seq![0int] + a;
    assert(sh.drop_first() =~= a);
    let m = p();
    lemma_mul_mod_noop_right(t, q, m);
    lemma_mod_twice(t * q, m);
    assert(peval(sh, t) == fmul(t, q)) by {
        lemma_mod_twice(t * q, m);
    }
    lemma_padd(pscale(lo, a), pscale(v, sh), t);
    lemma_pscale(lo, a, t);
    lemma_pscale(v, sh, t);
    // fadd(fmul(lo, q), fmul(v, fmul(t, q)))
    lemma_mul_mod_noop_right(v, t * q, m);
    lemma_mul_mod_noop_left(hi - lo, t * q, m);
    lemma_add_mod_noop(lo * q, (hi - lo) * (t * q), m);
    // fmul(q, fadd(fmul(fsub(1, t), lo), fmul(t, hi)))
    lemma_mul_mod_noop_left(1 - t, lo, m);
    lemma_add_mod_noop((1 - t) * lo, t * hi, m);
    lemma_mul_mod_noop_right(q, (1 - t) * lo + t * hi, m);
    assert(lo * q + (hi - lo) * (t * q) == q * ((1 - t) * lo + t * hi)) by (nonlinear_arith);
}

proof fn lemma_prod_coeffs(ops: Seq<usize>, tabs: Seq<Seq<int>>, b: int, h: int, t: int)
    requires
        forall|j: int| 0 <= j < ops.len() ==> #[trigger] ops[j] < tabs.len(),
        forall|op: int| 0 <= op < tabs.len() ==> (#[trigger] tabs[op]).len() == 2 * h,
        0 <= b < h,
    ensures
        peval(prod_coeffs(ops, tabs, b, h), t) == prod_at(ops, fold_tables(tabs, t), b),
        prod_coeffs(ops, tabs, b, h).len() == ops.len() + 1,
    decreases ops.len(),
{
    if ops.len() == 0 {
        assert(seq![1int].drop_first() =~= Seq::<int>::empty());
        assert(t * 0 == 0) by (nonlinear_arith);
        vstd::arithmetic::div_mod::lemma_small_mod(1, p() as nat);
        vstd::arithmetic::div_mod::lemma_small_mod(0, p() as nat);
        assert(fmul(t, peval(Seq::<int>::empty(), t)) == 0);
        assert(fadd(1, 0) == 1);
    } else {
        let last = ops.last() as int;
        assert(ops[ops.len() - 1] < tabs.len());
        lemma_prod_coeffs(ops.drop_last(), tabs, b, h, t);
        let e = tabs[last];
        lemma_pmul_lin(prod_coeffs(ops.drop_last(), tabs, b, h), e[b], e[b + h], t);
        let ft = fold_tables(tabs, t);
        assert(ft[last] == fold_spec(e, t));
        assert(e.len() / 2 == h);
        assert(ft[last][b] == fadd(fmul(fsub(1, t), e[b]), fmul(t, e[b + h])));
        assert(ops.drop_last().len() < ops.len());
    }
}

proof fn lemma_terms_coeffs(terms: Seq<Term>, tabs: Seq<Seq<int>>, b: int, h: int, t: int)
    requires
        terms_wf(terms, tabs.len()),
        forall|op: int| 0 <= op < tabs.len() ==> (#[trigger] tabs[op]).len() == 2 * h,
        0 <= b < h,
    ensures
        peval(terms_coeffs(terms, tabs, b, h), t) == terms_at(terms, fold_tables(tabs, t), b),
        terms_coeffs(terms, tabs, b, h).len() <= max_arity(terms) + 1,
    decreases terms.len(),
{
    if terms.len() > 0 {
        let last = terms.len() - 1;
        assert(terms_wf(terms.drop_last(), tabs.len())) by {
            assert forall|k: int, j: int|
                0 <= k < terms.drop_last().len() && 0 <= j < terms.drop_last()[k].operands@.len()
                    implies #[trigger] terms.drop_last()[k].operands@[j] < tabs.len() by {
                assert(terms.drop_last()[k] == terms[k]);
            }
        }
        assert forall|j: int| 0 <= j < terms[last].operands@.len() implies #[trigger] terms[last].operands@[j]
            < tabs.len() by {}
        lemma_terms_coeffs(terms.drop_last(), tabs, b, h, t);
        let ops = terms[last].operands@;
        lemma_prod_coeffs(ops, tabs, b, h, t);
        lemma_pscale(terms[last].coeff.val(), prod_coeffs(ops, tabs, b, h), t);
        lemma_padd(
            terms_coeffs(terms.drop_last(), tabs, b, h),
            pscale(terms[last].coeff.val(), prod_coeffs(ops, tabs, b, h)),
            t,
        );
    }
}

proof fn lemma_sum_coeffs(terms: Seq<Term>, tabs: Seq<Seq<int>>, k: nat, h: int, t: int)
    requires
        terms_wf(terms, tabs.len()),
        forall|op: int| 0 <= op < tabs.len() ==> (#[trigger] tabs[op]).len() == 2 * h,
        k <= h,
    ensures
        peval(sum_coeffs(terms, tabs, k, h), t) == sum_to(terms, fold_tables(tabs, t), k),
        sum_coeffs(terms, tabs, k, h).len() <= max_arity(terms) + 1,
    decreases k,
{
    if k > 0 {
        lemma_sum_coeffs(terms, tabs, (k - 1) as nat, h, t);
        lemma_terms_coeffs(terms, tabs, k - 1, h, t);
        lemma_padd(sum_coeffs(terms, tabs, (k - 1) as nat, h), terms_coeffs(terms, tabs, k - 1, h), t);
    }
}

/// Degree bound: the round polynomial of a polynomial whose terms have
/// arity at most d is a univariate polynomial with at most d + 1
/// coefficients, the same for every value of the leading variable.
pub proof fn lemma_round_polynomial_degree(terms: Seq<Term>, tabs: Seq<Seq<int>>, n: nat)
    requires
        n >= 1,
        tables_ok(tabs, n),
        terms_wf(terms, tabs.len()),
    ensures
        round_coeffs(terms, tabs, n).len() <= max_arity(terms) + 1,
        forall|t: int| round_value(terms, tabs, n, t) == #[trigger] peval(round_coeffs(terms, tabs, n), t),
{
    let h = cube_len((n - 1) as nat);
    assert forall|op: int| 0 <= op < tabs.len() implies (#[trigger] tabs[op]).len() == 2 * h by {}
    lemma_sum_coeffs(terms, tabs, h, h as int, 0);
    assert forall|t: int| round_value(terms, tabs, n, t) == #[trigger] peval(round_coeffs(terms, tabs, n), t) by {
        lemma_sum_coeffs(terms, tabs, h, h as int, t);
    }
}

} // verus!
