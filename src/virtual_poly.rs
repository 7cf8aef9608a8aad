//! A polynomial given symbolically as a weighted sum of products of
//! multilinear operands, f(x) = sum over terms of coeff * prod of operand(x).
use vstd::prelude::*;
use crate::error::SumcheckError;
use crate::field::{Fe, fadd, fmul, fsub, p};
use crate::mle::{MultilinearExtension, all_wf, cube_len, fold_spec, fold_table, vals};

verus! {

/// One monomial: a coefficient times the product of the operands, given as
/// indices into the polynomial's list of operands.
#[derive(Clone, Debug)]
pub struct Term {
    pub coeff: Fe,
    pub operands: Vec<usize>,
}

/// The operands' tables as canonical values.
pub open spec fn tables(mles: Seq<MultilinearExtension>) -> Seq<Seq<int>> {
    mles.map_values(|m: MultilinearExtension| m.view_vals())
}

/// Every table with its leading variable fixed to `c`.
pub open spec fn fold_tables(tabs: Seq<Seq<int>>, c: int) -> Seq<Seq<int>> {
    tabs.map_values(|t: Seq<int>| fold_spec(t, c))
}

/// The product of the operands `ops` at point `x`.
pub open spec fn prod_at(ops: Seq<usize>, tabs: Seq<Seq<int>>, x: int) -> int
    decreases ops.len(),
{
    if ops.len() == 0 {
        1
    } else {
        fmul(prod_at(ops.drop_last(), tabs, x), tabs[ops.last() as int][x])
    }
}

/// The value of the sum of `terms` at point `x`.
pub open spec fn terms_at(terms: Seq<Term>, tabs: Seq<Seq<int>>, x: int) -> int
    decreases terms.len(),
{
    if terms.len() == 0 {
        0
    } else {
        fadd(
            terms_at(terms.drop_last(), tabs, x),
            fmul(terms.last().coeff.val(), prod_at(terms.last().operands@, tabs, x)),
        )
    }
}

/// The sum of the polynomial over the points `0..k`.
pub open spec fn sum_to(terms: Seq<Term>, tabs: Seq<Seq<int>>, k: nat) -> int
    decreases k,
{
    if k == 0 {
        0
    } else {
        fadd(sum_to(terms, tabs, (k - 1) as nat), terms_at(terms, tabs, k - 1))
    }
}

/// The round polynomial at `t`: the sum over the remaining hypercube of the
/// polynomial with its leading variable set to `t`.
pub open spec fn round_value(terms: Seq<Term>, tabs: Seq<Seq<int>>, n: nat, t: int) -> int {
    sum_to(terms, fold_tables(tabs, t), cube_len((n - 1) as nat))
}

/// The round polynomial's values at the probe points `0..=bound`.
pub open spec fn round_values(terms: Seq<Term>, tabs: Seq<Seq<int>>, n: nat, bound: nat) -> Seq<int> {
    Seq::new(bound + 1, |t: int| round_value(terms, tabs, n, t))
}

/// The largest arity among `terms`.
pub open spec fn max_arity(terms: Seq<Term>) -> nat
    decreases terms.len(),
{
    if terms.len() == 0 {
        0
    } else {
        let a = terms.last().operands@.len();
        let m = max_arity(terms.drop_last());
        if a > m {
            a
        } else {
            m
        }
    }
}

/// A weighted sum of products of multilinear operands in `num_vars`
/// variables.
#[derive(Clone, Debug)]
pub struct VirtualPolynomial {
    pub num_vars: usize,
    /// How many workers the caller would like the reductions spread over.
    pub max_threads: usize,
    pub mles: Vec<MultilinearExtension>,
    pub terms: Vec<Term>,
}

/// Whether `mles` are well formed, all in `n` variables.
pub open spec fn operands_wf(mles: Seq<MultilinearExtension>, n: nat) -> bool {
    forall|i: int| 0 <= i < mles.len() ==> (#[trigger] mles[i]).wf() && mles[i].num_vars == n
}

/// Whether every term refers to operands that exist.
pub open spec fn terms_wf(terms: Seq<Term>, n_ops: nat) -> bool {
    forall|k: int, j: int|
        0 <= k < terms.len() && 0 <= j < terms[k].operands@.len() ==> #[trigger] terms[k].operands@[j]
            < n_ops
}

pub open spec fn terms_canonical(terms: Seq<Term>) -> bool {
    forall|k: int| 0 <= k < terms.len() ==> #[trigger] terms[k].coeff.wf()
}

impl VirtualPolynomial {
    pub open spec fn wf(&self) -> bool {
        &&& self.mles@.len() > 0
        &&& operands_wf(self.mles@, self.num_vars as nat)
        &&& terms_wf(self.terms@, self.mles@.len())
        &&& terms_canonical(self.terms@)
    }

    pub open spec fn tabs(&self) -> Seq<Seq<int>> {
        tables(self.mles@)
    }

    /// The sum of the polynomial over the whole hypercube.
    pub open spec fn hypercube_sum(&self) -> int {
        sum_to(self.terms@, self.tabs(), cube_len(self.num_vars as nat))
    }

    /// Builds the polynomial, checking that the operands agree on the number
    /// of variables and that every term refers to an existing operand.
    pub fn new(num_vars: usize, max_threads: usize, mles: Vec<MultilinearExtension>, terms: Vec<Term>) -> (r: Result<VirtualPolynomial, SumcheckError>)
        requires
            forall|i: int| 0 <= i < mles@.len() ==> #[trigger] mles@[i].wf(),
        ensures
            (mles@.len() > 0 && operands_wf(mles@, num_vars as nat) && terms_wf(terms@, mles@.len())
                && terms_canonical(terms@)) <==> r is Ok,
            r is Ok ==> (r matches Ok(v) && v.wf() && v.num_vars == num_vars && v.max_threads
                == max_threads && v.mles@ == mles@ && v.terms@ == terms@),
            r is Err ==> r == Err::<VirtualPolynomial, SumcheckError>(SumcheckError::MalformedPolynomial),
    {
        if mles.len() == 0 {
            return Err(SumcheckError::MalformedPolynomial);
        }
        let mut i: usize = 0;
        while i < mles.len()
            invariant
                i <= mles@.len(),
                forall|j: int| 0 <= j < mles@.len() ==> #[trigger] mles@[j].wf(),
                forall|j: int| 0 <= j < i ==> #[trigger] mles@[j].num_vars == num_vars,
            decreases mles@.len() - i,
        {
            if mles[i].num_vars != num_vars {
                assert(!(mles@[i as int].wf() && mles@[i as int].num_vars == num_vars));
                assert(!operands_wf(mles@, num_vars as nat));
                return Err(SumcheckError::MalformedPolynomial);
            }
            i = i + 1;
        }
        let mut k: usize = 0;
        while k < terms.len()
            invariant
                k <= terms@.len(),
                forall|a: int, j: int|
                    0 <= a < k && 0 <= j < terms@[a].operands@.len() ==> #[trigger] terms@[a].operands@[j]
                        < mles@.len(),
                forall|a: int| 0 <= a < k ==> #[trigger] terms@[a].coeff.wf(),
            decreases terms@.len() - k,
        {
            if terms[k].coeff.v >= crate::field::MODULUS {
                assert(!terms@[k as int].coeff.wf());
                return Err(SumcheckError::MalformedPolynomial);
            }
            let ops = &terms[k].operands;
            let mut j: usize = 0;
            while j < ops.len()
                invariant
                    j <= ops@.len(),
                    k < terms@.len(),
                    ops@ == terms@[k as int].operands@,
                    forall|q: int| 0 <= q < j ==> #[trigger] ops@[q] < mles@.len(),
                decreases ops@.len() - j,
            {
                if ops[j] >= mles.len() {
                    assert(!(terms@[k as int].operands@[j as int] < mles@.len()));
                    return Err(SumcheckError::MalformedPolynomial);
                }
                j = j + 1;
            }
            k = k + 1;
        }
        Ok(VirtualPolynomial { num_vars, max_threads, mles, terms })
    }

    /// The degree in any one variable: the largest arity of a term.
    pub fn degree(&self) -> (r: usize)
        ensures
            r == max_arity(self.terms@),
    {
        let mut m: usize = 0;
        let mut k: usize = 0;
        while k < self.terms.len()
            invariant
                k <= self.terms@.len(),
                m == max_arity(self.terms@.subrange(0, k as int)),
            decreases self.terms@.len() - k,
        {
            assert(self.terms@.subrange(0, k + 1).drop_last() =~= self.terms@.subrange(0, k as int));
            let a = self.terms[k].operands.len();
            if a > m {
                m = a;
            }
            k = k + 1;
        }
        assert(self.terms@.subrange(0, self.terms@.len() as int) =~= self.terms@);
        m
    }

    /// Operand `op` at point `b` of the remaining hypercube, with the leading
    /// variable set to `t` (`one_minus` is 1 - t).
    fn operand_at(&self, op: usize, b: usize, t: Fe, one_minus: Fe) -> (r: Fe)
        requires
            self.wf(),
            self.num_vars >= 1,
            op < self.mles@.len(),
            b < cube_len((self.num_vars - 1) as nat),
            t.wf(),
            one_minus.wf(),
            one_minus.val() == fsub(1, t.val()),
        ensures
            r.wf(),
            r.val() == fold_tables(self.tabs(), t.val())[op as int][b as int],
    {
        let m = &self.mles[op];
        assert(m.wf() && m.num_vars == self.num_vars);
        let h = m.evals.len() / 2;
        assert(all_wf(m.evals@));
        assert(m.evals@[b as int].wf() && m.evals@[b + h].wf());
        one_minus.mul(m.evals[b]).add(t.mul(m.evals[b + h]))
    }

    /// The product of term `k`'s operands at point `b`, times its coefficient.
    fn term_at(&self, k: usize, b: usize, t: Fe, one_minus: Fe) -> (r: Fe)
        requires
            self.wf(),
            self.num_vars >= 1,
            k < self.terms@.len(),
            b < cube_len((self.num_vars - 1) as nat),
            t.wf(),
            one_minus.wf(),
            one_minus.val() == fsub(1, t.val()),
        ensures
            r.wf(),
            r.val() == fmul(
                self.terms@[k as int].coeff.val(),
                prod_at(self.terms@[k as int].operands@, fold_tables(self.tabs(), t.val()), b as int),
            ),
    {
        let ops = &self.terms[k].operands;
        let ghost ftabs = fold_tables(self.tabs(), t.val());
        let mut prod = Fe::one();
        let mut j: usize = 0;
        while j < ops.len()
            invariant
                self.wf(),
                self.num_vars >= 1,
                k < self.terms@.len(),
                b < cube_len((self.num_vars - 1) as nat),
                t.wf(),
                one_minus.wf(),
                one_minus.val() == fsub(1, t.val()),
                ops@ == self.terms@[k as int].operands@,
                ftabs == fold_tables(self.tabs(), t.val()),
                j <= ops@.len(),
                prod.wf(),
                prod.val() == prod_at(ops@.subrange(0, j as int), ftabs, b as int),
            decreases ops@.len() - j,
        {
            assert(ops@[j as int] < self.mles@.len());
            let v = self.operand_at(ops[j], b, t, one_minus);
            let ghost pre = ops@.subrange(0, j + 1);
            assert(pre.drop_last() =~= ops@.subrange(0, j as int));
            assert(pre.last() == ops@[j as int]);
            assert(prod_at(pre, ftabs, b as int) == fmul(prod.val(), v.val()));
            prod = prod.mul(v);
            j = j + 1;
        }
        assert(ops@.subrange(0, ops@.len() as int) =~= ops@);
        self.terms[k].coeff.mul(prod)
    }

    /// The polynomial at point `b` of the remaining hypercube, with the
    /// leading variable set to `t`.
    fn value_at(&self, b: usize, t: Fe, one_minus: Fe) -> (r: Fe)
        requires
            self.wf(),
            self.num_vars >= 1,
            b < cube_len((self.num_vars - 1) as nat),
            t.wf(),
            one_minus.wf(),
            one_minus.val() == fsub(1, t.val()),
        ensures
            r.wf(),
            r.val() == terms_at(self.terms@, fold_tables(self.tabs(), t.val()), b as int),
    {
        let mut acc = Fe::zero();
        let mut k: usize = 0;
        while k < self.terms.len()
            invariant
                self.wf(),
                self.num_vars >= 1,
                b < cube_len((self.num_vars - 1) as nat),
                t.wf(),
                one_minus.wf(),
                one_minus.val() == fsub(1, t.val()),
                k <= self.terms@.len(),
                acc.wf(),
                acc.val() == terms_at(
                    self.terms@.subrange(0, k as int),
                    fold_tables(self.tabs(), t.val()),
                    b as int,
                ),
            decreases self.terms@.len() - k,
        {
            let v = self.term_at(k, b, t, one_minus);
            assert(self.terms@.subrange(0, k + 1).drop_last() =~= self.terms@.subrange(0, k as int));
            acc = acc.add(v);
            k = k + 1;
        }
        assert(self.terms@.subrange(0, self.terms@.len() as int) =~= self.terms@);
        acc
    }

    /// The round polynomial at the probe point `t`, without changing any
    /// operand.
    pub fn round_value(&self, t: Fe) -> (r: Fe)
        requires
            self.wf(),
            self.num_vars >= 1,
            t.wf(),
        ensures
            r.wf(),
            r.val() == round_value(self.terms@, self.tabs(), self.num_vars as nat, t.val()),
    {
        let one_minus = Fe::one().sub(t);
        let half = self.half_len();
        let mut acc = Fe::zero();
        let mut b: usize = 0;
        while b < half
            invariant
                self.wf(),
                self.num_vars >= 1,
                half == cube_len((self.num_vars - 1) as nat),
                t.wf(),
                one_minus.wf(),
                one_minus.val() == fsub(1, t.val()),
                b <= half,
                acc.wf(),
                acc.val() == sum_to(self.terms@, fold_tables(self.tabs(), t.val()), b as nat),
            decreases half - b,
        {
            let v = self.value_at(b, t, one_minus);
            acc = acc.add(v);
            b = b + 1;
        }
        acc
    }

    /// The round polynomial's values at the probe points `0..=bound`; the
    /// operands are not changed.
    pub fn round_polynomial(&self, bound: usize) -> (r: Vec<Fe>)
        requires
            self.wf(),
            self.num_vars >= 1,
            bound < crate::interp::MAX_POINTS,
        ensures
            all_wf(r@),
            vals(r@) == round_values(self.terms@, self.tabs(), self.num_vars as nat, bound as nat),
    {
        let mut out: Vec<Fe> = Vec::new();
        let mut t: usize = 0;
        while t <= bound
            invariant
                self.wf(),
                self.num_vars >= 1,
                bound < crate::interp::MAX_POINTS,
                t <= bound + 1,
                out@.len() == t,
                all_wf(out@),
                forall|j: int| 0 <= j < t ==> #[trigger] out@[j].val() == round_value(
                    self.terms@,
                    self.tabs(),
                    self.num_vars as nat,
                    j,
                ),
            decreases bound + 1 - t,
        {
            let tf = Fe::from_usize(t);
            let v = self.round_value(tf);
            out.push(v);
            t = t + 1;
        }
        assert(vals(out@) =~= round_values(self.terms@, self.tabs(), self.num_vars as nat, bound as nat));
        out
    }

    /// The polynomial with the leading variable of every operand fixed to
    /// `c`. Each operand's table is replaced by a newly built one.
    pub fn fold_operands(self, c: Fe) -> (r: VirtualPolynomial)
        requires
            self.wf(),
            self.num_vars >= 1,
            c.wf(),
        ensures
            r.wf(),
            r.num_vars == self.num_vars - 1,
            r.max_threads == self.max_threads,
            r.terms@ == self.terms@,
            r.mles@.len() == self.mles@.len(),
            r.tabs() == fold_tables(self.tabs(), c.val()),
    {
        let mut mles: Vec<MultilinearExtension> = Vec::new();
        let mut i: usize = 0;
        while i < self.mles.len()
            invariant
                self.wf(),
                self.num_vars >= 1,
                c.wf(),
                i <= self.mles@.len(),
                mles@.len() == i,
                forall|j: int| 0 <= j < i ==> (#[trigger] mles@[j]).wf() && mles@[j].num_vars
                    == self.num_vars - 1 && mles@[j].view_vals() == fold_spec(
                    self.mles@[j].view_vals(),
                    c.val(),
                ),
            decreases self.mles@.len() - i,
        {
            assert(self.mles@[i as int].wf());
            let m = &self.mles[i];
            let evals = fold_table(&m.evals, c);
            proof {
                crate::mle::lemma_half_cube(m.num_vars as nat);
            }
            mles.push(MultilinearExtension { num_vars: m.num_vars - 1, evals });
            i = i + 1;
        }
        let r = VirtualPolynomial {
            num_vars: self.num_vars - 1,
            max_threads: self.max_threads,
            mles,
            terms: self.terms,
        };
        assert(r.tabs() =~= fold_tables(self.tabs(), c.val()));
        r
    }

    /// 2^(n-1), the size of the hypercube left after the leading variable.
    fn half_len(&self) -> (r: usize)
        requires
            self.wf(),
            self.num_vars >= 1,
        ensures
            r == cube_len((self.num_vars - 1) as nat),
    {
        assert(self.mles@[0].wf());
        self.mles[0].evals.len() / 2
    }
}

/// Whether every table has 2^n canonical values.
pub open spec fn tables_ok(tabs: Seq<Seq<int>>, n: nat) -> bool {
    forall|op: int|
        0 <= op < tabs.len() ==> (#[trigger] tabs[op]).len() == cube_len(n) && forall|x: int|
            0 <= x < tabs[op].len() ==> 0 <= #[trigger] tabs[op][x] < p()
}

proof fn lemma_prod_at_eq(ops: Seq<usize>, t1: Seq<Seq<int>>, x1: int, t2: Seq<Seq<int>>, x2: int, n_ops: nat)
    requires
        forall|j: int| 0 <= j < ops.len() ==> #[trigger] ops[j] < n_ops,
        forall|op: int| 0 <= op < n_ops ==> #[trigger] t1[op][x1] == t2[op][x2],
    ensures
        prod_at(ops, t1, x1) == prod_at(ops, t2, x2),
    decreases ops.len(),
{
    if ops.len() > 0 {
        assert(ops[ops.len() - 1] < n_ops);
        lemma_prod_at_eq(ops.drop_last(), t1, x1, t2, x2, n_ops);
    }
}

proof fn lemma_terms_at_eq(terms: Seq<Term>, t1: Seq<Seq<int>>, x1: int, t2: Seq<Seq<int>>, x2: int, n_ops: nat)
    requires
        terms_wf(terms, n_ops),
        forall|op: int| 0 <= op < n_ops ==> #[trigger] t1[op][x1] == t2[op][x2],
    ensures
        terms_at(terms, t1, x1) == terms_at(terms, t2, x2),
    decreases terms.len(),
{
    if terms.len() > 0 {
        let last = terms.len() - 1;
        assert(terms_wf(terms.drop_last(), n_ops)) by {
            assert forall|k: int, j: int|
                0 <= k < terms.drop_last().len() && 0 <= j < terms.drop_last()[k].operands@.len()
                    implies #[trigger] terms.drop_last()[k].operands@[j] < n_ops by {
                assert(terms.drop_last()[k] == terms[k]);
            }
        }
        assert forall|j: int| 0 <= j < terms[last].operands@.len() implies #[trigger] terms[last].operands@[j]
            < n_ops by {}
        lemma_terms_at_eq(terms.drop_last(), t1, x1, t2, x2, n_ops);
        lemma_prod_at_eq(terms[last].operands@, t1, x1, t2, x2, n_ops);
    }
}

proof fn lemma_sum_to_range(terms: Seq<Term>, tabs: Seq<Seq<int>>, k: nat)
    ensures
        0 <= sum_to(terms, tabs, k) < p(),
{
}

proof fn lemma_fadd_assoc(a: int, b: int, c: int)
    ensures
        fadd(fadd(a, b), c) == fadd(a, fadd(b, c)),
{
    vstd::arithmetic::div_mod::lemma_add_mod_noop_right(c, a + b, p());
    vstd::arithmetic::div_mod::lemma_add_mod_noop_right(a, b + c, p());
    assert(c + (a + b) == a + (b + c));
    assert(((a + b) % p()) + c == c + ((a + b) % p()));
}

proof fn lemma_sum_same(terms: Seq<Term>, t1: Seq<Seq<int>>, t2: Seq<Seq<int>>, k: nat)
    requires
        forall|x: int| 0 <= x < k ==> #[trigger] terms_at(terms, t1, x) == terms_at(terms, t2, x),
    ensures
        sum_to(terms, t1, k) == sum_to(terms, t2, k),
    decreases k,
{
    if k > 0 {
        lemma_sum_same(terms, t1, t2, (k - 1) as nat);
        assert(terms_at(terms, t1, k - 1) == terms_at(terms, t2, k - 1));
    }
}

/// Summing over `0..h+k` is summing over `0..h`, then over the next `k`
/// points (given as `t2`).
proof fn lemma_sum_shift(terms: Seq<Term>, tabs: Seq<Seq<int>>, t2: Seq<Seq<int>>, h: nat, k: nat)
    requires
        forall|x: int| 0 <= x < k ==> #[trigger] terms_at(terms, t2, x) == terms_at(terms, tabs, x + h),
    ensures
        sum_to(terms, tabs, h + k) == fadd(sum_to(terms, tabs, h), sum_to(terms, t2, k)),
    decreases k,
{
    lemma_sum_to_range(terms, tabs, h);
    if k == 0 {
        vstd::arithmetic::div_mod::lemma_small_mod(sum_to(terms, tabs, h) as nat, p() as nat);
    } else {
        lemma_sum_shift(terms, tabs, t2, h, (k - 1) as nat);
        assert(terms_at(terms, t2, k - 1) == terms_at(terms, tabs, (k - 1) + h));
        assert((h + k - 1) as nat == h + (k - 1) as nat);
        lemma_fadd_assoc(sum_to(terms, tabs, h), sum_to(terms, t2, (k - 1) as nat), terms_at(terms, t2, k - 1));
    }
}

/// The round polynomial's values at 0 and 1 add up to the sum of the
/// polynomial over the whole hypercube: an honest round polynomial always
/// passes the verifier's check against the true sum.
pub proof fn lemma_round_sum_split(terms: Seq<Term>, tabs: Seq<Seq<int>>, n: nat)
    requires
        n >= 1,
        tables_ok(tabs, n),
        terms_wf(terms, tabs.len()),
    ensures
        fadd(round_value(terms, tabs, n, 0), round_value(terms, tabs, n, 1)) == sum_to(
            terms,
            tabs,
            cube_len(n),
        ),
{
    let h = cube_len((n - 1) as nat);
    let f0 = fold_tables(tabs, 0);
    let f1 = fold_tables(tabs, 1);
    assert forall|x: int| 0 <= x < h implies #[trigger] terms_at(terms, f0, x) == terms_at(terms, tabs, x) by {
        assert forall|op: int| 0 <= op < tabs.len() implies #[trigger] f0[op][x] == tabs[op][x] by {
            assert(tabs[op].len() == cube_len(n));
            let e = tabs[op];
            assert(0 <= e[x] < p());
            vstd::arithmetic::div_mod::lemma_small_mod(e[x] as nat, p() as nat);
            vstd::arithmetic::div_mod::lemma_small_mod(1, p() as nat);
            assert(fsub(1, 0) == 1);
            assert(fmul(1, e[x]) == e[x]);
            assert(fmul(0, e[x + h]) == 0);
        }
        lemma_terms_at_eq(terms, f0, x, tabs, x, tabs.len());
    }
    assert forall|x: int| 0 <= x < h implies #[trigger] terms_at(terms, f1, x) == terms_at(terms, tabs, x + h) by {
        assert forall|op: int| 0 <= op < tabs.len() implies #[trigger] f1[op][x] == tabs[op][x + h] by {
            assert(tabs[op].len() == cube_len(n));
            let e = tabs[op];
            assert(0 <= e[x + h] < p());
            vstd::arithmetic::div_mod::lemma_small_mod(e[x + h] as nat, p() as nat);
            assert(fsub(1, 1) == 0);
            assert(fmul(0, e[x]) == 0);
            assert(fmul(1, e[x + h]) == e[x + h]);
        }
        lemma_terms_at_eq(terms, f1, x, tabs, x + h, tabs.len());
    }
    lemma_sum_same(terms, f0, tabs, h);
    lemma_sum_shift(terms, tabs, f1, h, h);
}

/// A well-formed polynomial's tables are canonical and of length 2^n.
pub proof fn lemma_wf_tables_ok(poly: &VirtualPolynomial)
    requires
        poly.wf(),
    ensures
        tables_ok(poly.tabs(), poly.num_vars as nat),
{
    let n = poly.num_vars as nat;
    assert forall|op: int| 0 <= op < poly.tabs().len() implies (#[trigger] poly.tabs()[op]).len()
        == cube_len(n) && forall|x: int|
        0 <= x < poly.tabs()[op].len() ==> 0 <= #[trigger] poly.tabs()[op][x] < p() by {
        assert(poly.mles@[op].wf());
        assert forall|x: int| 0 <= x < poly.tabs()[op].len() implies 0 <= #[trigger] poly.tabs()[op][x]
            < p() by {
            assert(poly.mles@[op].evals@[x].wf());
        }
    }
}

impl VirtualPolynomial {
    /// The sum of the polynomial over the whole hypercube: the value that an
    /// honest prover claims. Zero variables leave nothing to prove over.
    pub fn sum_over_hypercube(&self) -> (r: Result<Fe, SumcheckError>)
        requires
            self.wf(),
        ensures
            self.num_vars == 0 ==> r == Err::<Fe, SumcheckError>(SumcheckError::EmptyPolynomial),
            self.num_vars > 0 ==> (r matches Ok(v) && v.wf() && v.val() == self.hypercube_sum()),
    {
        if self.num_vars == 0 {
            return Err(SumcheckError::EmptyPolynomial);
        }
        let g0 = self.round_value(Fe::zero());
        let g1 = self.round_value(Fe::one());
        proof {
            lemma_wf_tables_ok(self);
            lemma_round_sum_split(self.terms@, self.tabs(), self.num_vars as nat);
        }
        Ok(g0.add(g1))
    }
}

} // verus!
