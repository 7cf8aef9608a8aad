//! Evaluation of a univariate polynomial given by its values at the points
//! 0, 1, ..., m-1, through the Lagrange basis.
use vstd::prelude::*;
use crate::field::{Fe, fadd, finv, fmul, fsub};
use crate::mle::{all_wf, vals};

verus! {

/// The largest number of points interpolated through.
pub const MAX_POINTS: usize = 64;

/// The product of `x - k` over the points `k` in `0..m` other than `j`.
pub open spec fn basis_num(j: int, m: nat, x: int) -> int
    decreases m,
{
    if m == 0 {
        1
    } else if m - 1 == j {
        basis_num(j, (m - 1) as nat, x)
    } else {
        fmul(basis_num(j, (m - 1) as nat, x), fsub(x, m - 1))
    }
}

/// The `j`-th Lagrange basis polynomial for the points `0..m`, at `x`.
pub open spec fn basis(j: int, m: nat, x: int) -> int {
    fmul(basis_num(j, m, x), finv(basis_num(j, m, j)))
}

/// The sum of `g[j] * basis_j(x)` over `j < k`, for the points `0..g.len()`.
pub open spec fn lagrange_partial(g: Seq<int>, x: int, k: nat) -> int
    decreases k,
{
    if k == 0 {
        0
    } else {
        fadd(lagrange_partial(g, x, (k - 1) as nat), fmul(g[k - 1], basis(k - 1, g.len(), x)))
    }
}

/// The polynomial of degree below `g.len()` that takes the value `g[k]` at
/// `k`, evaluated at `x`.
pub open spec fn interpolate_spec(g: Seq<int>, x: int) -> int {
    lagrange_partial(g, x, g.len())
}

/// The product of `x - k` over `k` in `0..m`, `k != j`.
fn basis_product(j: usize, m: usize, x: Fe) -> (r: Fe)
    requires
        x.wf(),
        m <= MAX_POINTS,
    ensures
        r.wf(),
        r.val() == basis_num(j as int, m as nat, x.val()),
{
    let mut acc = Fe::one();
    let mut k: usize = 0;
    while k < m
        invariant
            k <= m,
            m <= MAX_POINTS,
            x.wf(),
            acc.wf(),
            acc.val() == basis_num(j as int, k as nat, x.val()),
        decreases m - k,
    {
        if k != j {
            let kf = Fe::from_usize(k);
            assert(kf.val() == k);
            acc = acc.mul(x.sub(kf));
        }
        k = k + 1;
    }
    acc
}

/// The interpolating polynomial through `(k, g[k])`, evaluated at `x`.
pub fn interpolate(g: &Vec<Fe>, x: Fe) -> (r: Fe)
    requires
        all_wf(g@),
        g@.len() <= MAX_POINTS,
        x.wf(),
    ensures
        r.wf(),
        r.val() == interpolate_spec(vals(g@), x.val()),
{
    let m = g.len();
    let mut acc = Fe::zero();
    let mut j: usize = 0;
    while j < m
        invariant
            m == g@.len(),
            m <= MAX_POINTS,
            all_wf(g@),
            x.wf(),
            j <= m,
            acc.wf(),
            acc.val() == lagrange_partial(vals(g@), x.val(), j as nat),
        decreases m - j,
    {
        let num = basis_product(j, m, x);
        let jf = Fe::from_usize(j);
        assert(jf.val() == j);
        let den = basis_product(j, m, jf);
        assert(g@[j as int].wf());
        let term = g[j].mul(num.mul(den.inv()));
        acc = acc.add(term);
        j = j + 1;
    }
    acc
}

} // verus!
