//! Multilinear polynomials held as their table of evaluations on the
//! Boolean hypercube. The leading variable is the most significant bit of an
//! index: entry `b` of the low half has it at 0, entry `h + b` at 1.
use vstd::prelude::*;
use crate::error::SumcheckError;
use crate::field::{Fe, fadd, fmul, fsub, p};
use vstd::arithmetic::div_mod::{lemma_add_mod_noop, lemma_mul_mod_noop_right};

verus! {

/// 2^n, the number of points of the n-dimensional hypercube.
pub open spec fn cube_len(n: nat) -> nat
    decreases n,
{
    if n == 0 {
        1
    } else {
        2 * cube_len((n - 1) as nat)
    }
}

/// The canonical values of a sequence of elements.
pub open spec fn vals(s: Seq<Fe>) -> Seq<int> {
    s.map_values(|x: Fe| x.val())
}

pub open spec fn all_wf(s: Seq<Fe>) -> bool {
    forall|i: int| 0 <= i < s.len() ==> #[trigger] s[i].wf()
}

/// The table after fixing the leading variable to `c`.
pub open spec fn fold_spec(e: Seq<int>, c: int) -> Seq<int> {
    let h = e.len() / 2;
    Seq::new(h, |b: int| fadd(fmul(fsub(1, c), e[b]), fmul(c, e[b + h])))
}

/// The multilinear polynomial with table `e`, evaluated at `point`: the
/// interpolation `(1 - x0) * low(rest) + x0 * high(rest)` on the leading
/// variable.
pub open spec fn mle_eval(e: Seq<int>, point: Seq<int>) -> int
    decreases point.len(),
{
    if point.len() == 0 {
        e[0]
    } else {
        let h = e.len() / 2;
        fadd(
            fmul(fsub(1, point[0]), mle_eval(e.subrange(0, h as int), point.drop_first())),
            fmul(point[0], mle_eval(e.subrange(h as int, e.len() as int), point.drop_first())),
        )
    }
}

/// A multilinear polynomial in `num_vars` variables.
#[derive(Clone, Debug)]
pub struct MultilinearExtension {
    pub num_vars: usize,
    pub evals: Vec<Fe>,
}

impl MultilinearExtension {
    pub open spec fn wf(&self) -> bool {
        &&& self.evals@.len() == cube_len(self.num_vars as nat)
        &&& all_wf(self.evals@)
    }

    /// The evaluation table as canonical values.
    pub open spec fn view_vals(&self) -> Seq<int> {
        vals(self.evals@)
    }

    /// Builds the polynomial whose table is `evals`.
    pub fn new(num_vars: usize, evals: Vec<Fe>) -> (r: Result<MultilinearExtension, SumcheckError>)
        ensures
            evals@.len() != cube_len(num_vars as nat) ==> r == Err::<
                MultilinearExtension,
                SumcheckError,
            >(SumcheckError::LengthMismatch),
            evals@.len() == cube_len(num_vars as nat) && !all_wf(evals@) ==> r == Err::<
                MultilinearExtension,
                SumcheckError,
            >(SumcheckError::NonCanonical),
            evals@.len() == cube_len(num_vars as nat) && all_wf(evals@) ==> (r matches Ok(m) && m.wf()
                && m.num_vars == num_vars && m.evals@ == evals@),
    {
        if !table_has_len(evals.len(), num_vars) {
            return Err(SumcheckError::LengthMismatch);
        }
        let mut i: usize = 0;
        while i < evals.len()
            invariant
                i <= evals@.len(),
                evals@.len() == cube_len(num_vars as nat),
                forall|j: int| 0 <= j < i ==> #[trigger] evals@[j].wf(),
            decreases evals@.len() - i,
        {
            if evals[i].v >= crate::field::MODULUS {
                assert(!evals@[i as int].wf());
                return Err(SumcheckError::NonCanonical);
            }
            i = i + 1;
        }
        Ok(MultilinearExtension { num_vars, evals })
    }

    pub fn num_vars(&self) -> (r: usize)
        ensures
            r == self.num_vars,
    {
        self.num_vars
    }

    /// Fixes the leading variable to `c`, giving a new polynomial in one
    /// variable fewer; `self` is left as it is.
    pub fn fold(&self, c: Fe) -> (r: Result<MultilinearExtension, SumcheckError>)
        requires
            self.wf(),
            c.wf(),
        ensures
            self.num_vars == 0 ==> r == Err::<MultilinearExtension, SumcheckError>(
                SumcheckError::EmptyDomain,
            ),
            self.num_vars > 0 ==> (r matches Ok(m) && m.wf() && m.num_vars == self.num_vars - 1
                && m.view_vals() == fold_spec(self.view_vals(), c.val())),
    {
        if self.num_vars == 0 {
            return Err(SumcheckError::EmptyDomain);
        }
        let evals = fold_table(&self.evals, c);
        Ok(MultilinearExtension { num_vars: self.num_vars - 1, evals })
    }

    /// The value of the polynomial at `point`.
    pub fn evaluate(&self, point: &Vec<Fe>) -> (r: Fe)
        requires
            self.wf(),
            all_wf(point@),
            point@.len() == self.num_vars,
        ensures
            r.wf(),
            r.val() == mle_eval(self.view_vals(), vals(point@)),
    {
        let mut cur = MultilinearExtension { num_vars: self.num_vars, evals: self.evals.clone() };
        assert(cur.evals@ == self.evals@);
        assert(vals(point@).subrange(0, point@.len() as int) =~= vals(point@));
        let mut i: usize = 0;
        while i < point.len()
            invariant
                i <= point@.len(),
                point@.len() == self.num_vars,
                all_wf(point@),
                cur.wf(),
                cur.num_vars == self.num_vars - i,
                mle_eval(self.view_vals(), vals(point@)) == mle_eval(
                    cur.view_vals(),
                    vals(point@).subrange(i as int, point@.len() as int),
                ),
            decreases point@.len() - i,
        {
            let next = fold_table(&cur.evals, point[i]);
            proof {
                let rest = vals(point@).subrange(i as int, point@.len() as int);
                assert(rest.drop_first() =~= vals(point@).subrange(i + 1, point@.len() as int));
                assert(seq![point@[i as int].val()] + rest.drop_first() =~= rest);
                lemma_fold_eval(cur.view_vals(), point@[i as int].val(), rest.drop_first(), cur.num_vars as nat);
            }
            cur = MultilinearExtension { num_vars: cur.num_vars - 1, evals: next };
            i = i + 1;
        }
        assert(vals(point@).subrange(point@.len() as int, point@.len() as int) =~= Seq::<int>::empty());
        cur.evals[0]
    }
}

/// Whether `len == 2^n`.
fn table_has_len(len: usize, n: usize) -> (r: bool)
    ensures
        r == (len as nat == cube_len(n as nat)),
{
    let mut k: usize = 0;
    let mut size: usize = 1;
    while k < n
        invariant
            k <= n,
            size as nat == cube_len(k as nat),
        decreases n - k,
    {
        if size > len / 2 {
            proof {
                lemma_cube_len_mono(k as nat + 1, n as nat);
            }
            return false;
        }
        size = size * 2;
        k = k + 1;
    }
    size == len
}

proof fn lemma_cube_len_mono(a: nat, b: nat)
    requires
        a <= b,
    ensures
        cube_len(a) <= cube_len(b),
    decreases b - a,
{
    if a < b {
        lemma_cube_len_mono(a, (b - 1) as nat);
    }
}

pub proof fn lemma_half_cube(n: nat)
    requires
        n >= 1,
    ensures
        cube_len(n) / 2 == cube_len((n - 1) as nat),
{
}

/// The folded table: entry `b` is `(1 - c) * e[b] + c * e[h + b]`.
pub(crate) fn fold_table(e: &Vec<Fe>, c: Fe) -> (r: Vec<Fe>)
    requires
        all_wf(e@),
        c.wf(),
    ensures
        r@.len() == e@.len() / 2,
        all_wf(r@),
        vals(r@) == fold_spec(vals(e@), c.val()),
{
    let h = e.len() / 2;
    let one_minus = Fe::one().sub(c);
    let mut out: Vec<Fe> = Vec::new();
    let mut b: usize = 0;
    while b < h
        invariant
            h == e@.len() / 2,
            e@.len() <= usize::MAX,
            b <= h,
            all_wf(e@),
            c.wf(),
            one_minus.wf(),
            one_minus.val() == fsub(1, c.val()),
            out@.len() == b,
            all_wf(out@),
            forall|j: int| 0 <= j < b ==> #[trigger] out@[j].val() == fold_spec(vals(e@), c.val())[j],
        decreases h - b,
    {
        assert(b + h < e@.len());
        let lo = e[b];
        let hi = e[b + h];
        assert(e@[b as int].wf() && e@[b + h].wf());
        let v = one_minus.mul(lo).add(c.mul(hi));
        out.push(v);
        b = b + 1;
    }
    assert(vals(out@) =~= fold_spec(vals(e@), c.val()));
    out
}

/// The table `alpha * a + beta * b`, entry by entry.
pub open spec fn lin_spec(a: Seq<int>, b: Seq<int>, alpha: int, beta: int) -> Seq<int> {
    Seq::new(a.len(), |i: int| fadd(fmul(alpha, a[i]), fmul(beta, b[i])))
}

proof fn lemma_two_by_two(y: int, x: int, al: int, be: int, a0: int, b0: int, a1: int, b1: int)
    ensures
        fadd(fmul(y, fadd(fmul(al, a0), fmul(be, b0))), fmul(x, fadd(fmul(al, a1), fmul(be, b1))))
            == fadd(fmul(al, fadd(fmul(y, a0), fmul(x, a1))), fmul(be, fadd(fmul(y, b0), fmul(x, b1)))),
{
    let m = p();
    lemma_add_mod_noop(al * a0, be * b0, m);
    lemma_add_mod_noop(al * a1, be * b1, m);
    lemma_add_mod_noop(y * a0, x * a1, m);
    lemma_add_mod_noop(y * b0, x * b1, m);
    let s0 = al * a0 + be * b0;
    let s1 = al * a1 + be * b1;
    let t0 = y * a0 + x * a1;
    let t1 = y * b0 + x * b1;
    lemma_mul_mod_noop_right(y, s0, m);
    lemma_mul_mod_noop_right(x, s1, m);
    lemma_mul_mod_noop_right(al, t0, m);
    lemma_mul_mod_noop_right(be, t1, m);
    lemma_add_mod_noop(y * s0, x * s1, m);
    lemma_add_mod_noop(al * t0, be * t1, m);
    assert(y * s0 == al * (y * a0) + be * (y * b0)) by (nonlinear_arith)
        requires
            s0 == al * a0 + be * b0,
    ;
    assert(x * s1 == al * (x * a1) + be * (x * b1)) by (nonlinear_arith)
        requires
            s1 == al * a1 + be * b1,
    ;
    assert(al * t0 == al * (y * a0) + al * (x * a1)) by (nonlinear_arith)
        requires
            t0 == y * a0 + x * a1,
    ;
    assert(be * t1 == be * (y * b0) + be * (x * b1)) by (nonlinear_arith)
        requires
            t1 == y * b0 + x * b1,
    ;
}

/// Evaluation is linear in the table.
pub proof fn lemma_eval_linear(a: Seq<int>, b: Seq<int>, alpha: int, beta: int, point: Seq<int>, n: nat)
    requires
        a.len() == cube_len(n),
        b.len() == cube_len(n),
        point.len() == n,
    ensures
        mle_eval(lin_spec(a, b, alpha, beta), point) == fadd(
            fmul(alpha, mle_eval(a, point)),
            fmul(beta, mle_eval(b, point)),
        ),
    decreases n,
{
    if n > 0 {
        let h = cube_len((n - 1) as nat) as int;
        let l = lin_spec(a, b, alpha, beta);
        let rest = point.drop_first();
        let a0 = a.subrange(0, h);
        let a1 = a.subrange(h, a.len() as int);
        let b0 = b.subrange(0, h);
        let b1 = b.subrange(h, b.len() as int);
        assert(l.subrange(0, h) =~= lin_spec(a0, b0, alpha, beta));
        assert(l.subrange(h, l.len() as int) =~= lin_spec(a1, b1, alpha, beta));
        lemma_eval_linear(a0, b0, alpha, beta, rest, (n - 1) as nat);
        lemma_eval_linear(a1, b1, alpha, beta, rest, (n - 1) as nat);
        lemma_two_by_two(
            fsub(1, point[0]),
            point[0],
            alpha,
            beta,
            mle_eval(a0, rest),
            mle_eval(b0, rest),
            mle_eval(a1, rest),
            mle_eval(b1, rest),
        );
    }
}

/// Folding on `c` and then evaluating at `rest` is evaluating at `c`
/// followed by `rest`.
pub proof fn lemma_fold_eval(e: Seq<int>, c: int, rest: Seq<int>, n: nat)
    requires
        e.len() == cube_len(n),
        n == rest.len() + 1,
    ensures
        mle_eval(fold_spec(e, c), rest) == mle_eval(e, seq![c] + rest),
{
    let h = cube_len((n - 1) as nat) as int;
    let e0 = e.subrange(0, h);
    let e1 = e.subrange(h, e.len() as int);
    assert(fold_spec(e, c) =~= lin_spec(e0, e1, fsub(1, c), c));
    lemma_eval_linear(e0, e1, fsub(1, c), c, rest, (n - 1) as nat);
    assert((seq![c] + rest).drop_first() =~= rest);
}

} // verus!
