//! The sum-check prover and verifier. Both sides drive the same transcript
//! operations in the same order: the claim, then for each round the round
//! polynomial's values and one challenge.
use vstd::prelude::*;
use crate::error::SumcheckError;
use crate::field::{Fe, fadd, fe_bytes, p};
use crate::interp::{interpolate, interpolate_spec};
use crate::mle::{all_wf, cube_len, vals};
use crate::transcript::{
    CHALLENGE_BYTES, FsTranscript, TranscriptOp, append_ops, challenge_value,
};
use crate::virtual_poly::{
    VirtualPolynomial, fold_tables, lemma_round_sum_split, max_arity, round_values, sum_to,
    tables_ok,
};

verus! {

/// Label under which the claimed sum enters the transcript.
pub const CLAIM_LABEL: &'static str = "sumcheck claim";

/// Label of each round polynomial's values.
pub const ROUND_LABEL: &'static str = "sumcheck round polynomial";

/// Label of each round challenge.
pub const CHALLENGE_LABEL: &'static str = "sumcheck round challenge";

/// The largest degree of a term that the engine accepts.
pub const MAX_DEGREE: usize = 32;

/// The round polynomials, each given by its values at 0, 1, ..., degree.
#[derive(Clone, Debug)]
pub struct SumcheckProof {
    pub rounds: Vec<Vec<Fe>>,
}

/// What the prover hands back: the proof, the challenges drawn, and the value
/// of each operand at that point (one evaluation left per operand).
#[derive(Clone, Debug)]
pub struct ProverOutput {
    pub proof: SumcheckProof,
    pub point: Vec<Fe>,
    pub final_evals: Vec<Fe>,
}

/// What the verifier hands back: whether every round check held, the
/// challenges drawn, and the value that the polynomial must take at that
/// point for the proof to stand.
#[derive(Clone, Debug)]
pub struct VerifierOutput {
    pub accepted: bool,
    pub point: Vec<Fe>,
    pub expected: Fe,
}

/// The round polynomials as sequences of values.
pub open spec fn rounds_view(rounds: Seq<Vec<Fe>>) -> Seq<Seq<int>> {
    rounds.map_values(|g: Vec<Fe>| vals(g@))
}

/// The transcript operations of one round: its values, then a challenge.
pub open spec fn round_ops(g: Seq<int>) -> Seq<TranscriptOp> {
    append_ops(ROUND_LABEL@, g).push(TranscriptOp::Challenge(CHALLENGE_LABEL@, CHALLENGE_BYTES as nat))
}

/// The transcript's history after `rounds`, starting from `h`.
pub open spec fn fs_history(h: Seq<TranscriptOp>, rounds: Seq<Seq<int>>) -> Seq<TranscriptOp>
    decreases rounds.len(),
{
    if rounds.len() == 0 {
        h
    } else {
        fs_history(h, rounds.drop_last()) + round_ops(rounds.last())
    }
}

/// The challenges drawn in `rounds`, starting from the history `h`: each one
/// follows the round's values.
pub open spec fn fs_challenges(h: Seq<TranscriptOp>, rounds: Seq<Seq<int>>) -> Seq<int>
    decreases rounds.len(),
{
    if rounds.len() == 0 {
        Seq::empty()
    } else {
        fs_challenges(h, rounds.drop_last()).push(
            challenge_value(
                fs_history(h, rounds.drop_last()) + append_ops(ROUND_LABEL@, rounds.last()),
                CHALLENGE_LABEL@,
            ),
        )
    }
}

/// The history once the claim has been appended.
pub open spec fn claim_history(h: Seq<TranscriptOp>, claim: int) -> Seq<TranscriptOp> {
    h.push(TranscriptOp::Append(CLAIM_LABEL@, fe_bytes(claim)))
}

/// The operand tables after fixing the leading variables to `cs`, in order.
pub open spec fn tabs_after(tabs: Seq<Seq<int>>, cs: Seq<int>) -> Seq<Seq<int>>
    decreases cs.len(),
{
    if cs.len() == 0 {
        tabs
    } else {
        fold_tables(tabs_after(tabs, cs.drop_last()), cs.last())
    }
}

/// The sum that round `i` must account for: the claim in round 0, then the
/// previous round polynomial at the previous challenge.
pub open spec fn running_sum(claim: int, rounds: Seq<Seq<int>>, cs: Seq<int>, i: int) -> int {
    if i == 0 {
        claim
    } else {
        interpolate_spec(rounds[i - 1], cs[i - 1])
    }
}

/// Whether every round polynomial satisfies g(0) + g(1) == running sum.
pub open spec fn rounds_accepted(claim: int, rounds: Seq<Seq<int>>, cs: Seq<int>) -> bool {
    forall|i: int|
        0 <= i < rounds.len() ==> fadd(#[trigger] rounds[i][0], rounds[i][1]) == running_sum(
            claim,
            rounds,
            cs,
            i,
        )
}

/// Whether every round has `degree + 1` values.
pub open spec fn rounds_shaped(rounds: Seq<Vec<Fe>>, degree: nat) -> bool {
    forall|i: int| 0 <= i < rounds.len() ==> (#[trigger] rounds[i])@.len() == degree + 1
}

pub open spec fn rounds_canonical(rounds: Seq<Vec<Fe>>) -> bool {
    forall|i: int| 0 <= i < rounds.len() ==> all_wf((#[trigger] rounds[i])@)
}

/// Runs the prover on `poly` for the claimed sum `claim`, drawing the
/// challenges from `t`.
pub fn prove(claim: Fe, poly: VirtualPolynomial, t: &mut FsTranscript) -> (r: Result<
    ProverOutput,
    SumcheckError,
>)
    requires
        poly.wf(),
        claim.wf(),
    ensures
        poly.num_vars == 0 ==> r == Err::<ProverOutput, SumcheckError>(
            SumcheckError::EmptyPolynomial,
        ),
        poly.num_vars > 0 && (max_arity(poly.terms@) == 0 || max_arity(poly.terms@) > MAX_DEGREE)
            ==> r == Err::<ProverOutput, SumcheckError>(SumcheckError::DegreeMismatch),
        r is Err ==> final(t).history() == old(t).history(),
        poly.num_vars > 0 && 0 < max_arity(poly.terms@) <= MAX_DEGREE ==> r is Ok,
        r matches Ok(out) ==> ({
            let n = poly.num_vars as int;
            let d = max_arity(poly.terms@);
            let h0 = claim_history(old(t).history(), claim.val());
            let rv = rounds_view(out.proof.rounds@);
            let cs = vals(out.point@);
            &&& rv.len() == n
            &&& cs == fs_challenges(h0, rv)
            &&& final(t).history() == fs_history(h0, rv)
            &&& forall|i: int|
                0 <= i < n ==> #[trigger] rv[i] == round_values(
                    poly.terms@,
                    tabs_after(poly.tabs(), cs.take(i)),
                    (n - i) as nat,
                    d,
                )
            &&& rounds_shaped(out.proof.rounds@, d)
            &&& rounds_canonical(out.proof.rounds@)
            &&& all_wf(out.point@)
            &&& vals(out.final_evals@) == tabs_after(poly.tabs(), cs).map_values(
                |e: Seq<int>| e[0],
            )
        }),
{
    if poly.num_vars == 0 {
        return Err(SumcheckError::EmptyPolynomial);
    }
    let d = poly.degree();
    if d == 0 || d > MAX_DEGREE {
        return Err(SumcheckError::DegreeMismatch);
    }
    let n = poly.num_vars;
    let ghost tabs0 = poly.tabs();
    let ghost terms0 = poly.terms@;
    t.append_fe(CLAIM_LABEL, claim);
    let ghost h0 = t.history();
    let mut cur = poly;
    let mut rounds: Vec<Vec<Fe>> = Vec::new();
    let mut point: Vec<Fe> = Vec::new();
    let mut i: usize = 0;
    while i < n
        invariant
            i <= n,
            0 < d <= MAX_DEGREE,
            d == max_arity(terms0),
            cur.wf(),
            cur.num_vars == n - i,
            cur.terms@ == terms0,
            cur.tabs() == tabs_after(tabs0, vals(point@)),
            rounds@.len() == i,
            point@.len() == i,
            all_wf(point@),
            rounds_shaped(rounds@, d as nat),
            rounds_canonical(rounds@),
            t.history() == fs_history(h0, rounds_view(rounds@)),
            vals(point@) == fs_challenges(h0, rounds_view(rounds@)),
            forall|j: int|
                0 <= j < i ==> #[trigger] rounds_view(rounds@)[j] == round_values(
                    terms0,
                    tabs_after(tabs0, vals(point@).take(j)),
                    (n - j) as nat,
                    d as nat,
                ),
        decreases n - i,
    {
        let g = cur.round_polynomial(d);
        t.append_fes(ROUND_LABEL, &g);
        let c = t.challenge_fe(CHALLENGE_LABEL);
        let ghost old_rounds = rounds@;
        let ghost old_point = point@;
        cur = cur.fold_operands(c);
        rounds.push(g);
        point.push(c);
        proof {
            let rv = rounds_view(rounds@);
            assert(rv.drop_last() =~= rounds_view(old_rounds));
            assert(rv.last() == vals(g@));
            assert(vals(point@).drop_last() =~= vals(old_point));
            assert(append_ops(ROUND_LABEL@, vals(g@)).push(
                TranscriptOp::Challenge(CHALLENGE_LABEL@, CHALLENGE_BYTES as nat),
            ) == round_ops(vals(g@)));
            assert(t.history() =~= fs_history(h0, rv));
            assert forall|j: int| 0 <= j < i + 1 implies #[trigger] rv[j] == round_values(
                terms0,
                tabs_after(tabs0, vals(point@).take(j)),
                (n - j) as nat,
                d as nat,
            ) by {
                if j < i {
                    assert(vals(point@).take(j) =~= vals(old_point).take(j));
                    assert(rv[j] == rounds_view(old_rounds)[j]);
                } else {
                    assert(vals(point@).take(j) =~= vals(old_point));
                }
            }
            assert forall|j: int| 0 <= j < rounds@.len() implies (#[trigger] rounds@[j])@.len()
                == d + 1 && all_wf(rounds@[j]@) by {
                if j < i {
                    assert(rounds@[j] == old_rounds[j]);
                }
            }
            assert(all_wf(point@)) by {
                assert forall|j: int| 0 <= j < point@.len() implies (#[trigger] point@[j]).wf() by {
                    if j < i {
                        assert(point@[j] == old_point[j]);
                    }
                }
            }
        }
        i = i + 1;
    }
    let mut final_evals: Vec<Fe> = Vec::new();
    let mut k: usize = 0;
    while k < cur.mles.len()
        invariant
            cur.wf(),
            cur.num_vars == 0,
            k <= cur.mles@.len(),
            final_evals@.len() == k,
            forall|j: int| 0 <= j < k ==> #[trigger] final_evals@[j].val() == cur.tabs()[j][0],
        decreases cur.mles@.len() - k,
    {
        assert(cur.mles@[k as int].wf());
        assert(all_wf(cur.mles@[k as int].evals@));
        assert(cur.mles@[k as int].evals@.len() == 1);
        final_evals.push(cur.mles[k].evals[0]);
        k = k + 1;
    }
    assert(vals(final_evals@) =~= tabs_after(tabs0, vals(point@)).map_values(|e: Seq<int>| e[0]));
    Ok(ProverOutput { proof: SumcheckProof { rounds }, point, final_evals })
}

/// Checks `proof` against the claimed sum `claim` of a polynomial in
/// `num_vars` variables whose degree in each variable is `degree`, drawing
/// the challenges from `t` exactly as the prover did. A round that fails its
/// check makes the result `accepted == false`; a proof of the wrong shape is
/// an error. Every round is absorbed either way.
pub fn verify(
    claim: Fe,
    num_vars: usize,
    degree: usize,
    proof: &SumcheckProof,
    t: &mut FsTranscript,
) -> (r: Result<VerifierOutput, SumcheckError>)
    requires
        claim.wf(),
    ensures
        proof.rounds@.len() != num_vars ==> r == Err::<VerifierOutput, SumcheckError>(
            SumcheckError::WrongProofLength,
        ),
        proof.rounds@.len() == num_vars && (degree == 0 || degree > MAX_DEGREE || !rounds_shaped(
            proof.rounds@,
            degree as nat,
        )) ==> r == Err::<VerifierOutput, SumcheckError>(SumcheckError::DegreeMismatch),
        proof.rounds@.len() == num_vars && 0 < degree <= MAX_DEGREE && rounds_shaped(
            proof.rounds@,
            degree as nat,
        ) && !rounds_canonical(proof.rounds@) ==> r == Err::<VerifierOutput, SumcheckError>(
            SumcheckError::NonCanonical,
        ),
        r is Err ==> final(t).history() == old(t).history(),
        proof.rounds@.len() == num_vars && 0 < degree <= MAX_DEGREE && rounds_shaped(
            proof.rounds@,
            degree as nat,
        ) && rounds_canonical(proof.rounds@) ==> (r matches Ok(out) && ({
            let h0 = claim_history(old(t).history(), claim.val());
            let rv = rounds_view(proof.rounds@);
            let cs = vals(out.point@);
            &&& cs == fs_challenges(h0, rv)
            &&& final(t).history() == fs_history(h0, rv)
            &&& all_wf(out.point@)
            &&& out.accepted == rounds_accepted(claim.val(), rv, cs)
            &&& out.expected.wf()
            &&& out.expected.val() == running_sum(claim.val(), rv, cs, num_vars as int)
        })),
{
    let rounds = &proof.rounds;
    if rounds.len() != num_vars {
        return Err(SumcheckError::WrongProofLength);
    }
    if degree == 0 || degree > MAX_DEGREE {
        return Err(SumcheckError::DegreeMismatch);
    }
    let mut i: usize = 0;
    while i < num_vars
        invariant
            rounds@.len() == num_vars,
            rounds@ == proof.rounds@,
            0 < degree <= MAX_DEGREE,
            i <= num_vars,
            forall|j: int| 0 <= j < i ==> (#[trigger] rounds@[j])@.len() == degree + 1,
        decreases num_vars - i,
    {
        if rounds[i].len() != degree + 1 {
            assert(!rounds_shaped(rounds@, degree as nat));
            return Err(SumcheckError::DegreeMismatch);
        }
        i = i + 1;
    }
    i = 0;
    while i < num_vars
        invariant
            rounds@.len() == num_vars,
            rounds@ == proof.rounds@,
            0 < degree <= MAX_DEGREE,
            rounds_shaped(rounds@, degree as nat),
            i <= num_vars,
            forall|j: int| 0 <= j < i ==> all_wf((#[trigger] rounds@[j])@),
        decreases num_vars - i,
    {
        let g = &rounds[i];
        let mut k: usize = 0;
        while k < g.len()
            invariant
                k <= g@.len(),
                i < rounds@.len(),
                rounds@.len() == num_vars,
            rounds@ == proof.rounds@,
                0 < degree <= MAX_DEGREE,
                rounds_shaped(rounds@, degree as nat),
                g@ == rounds@[i as int]@,
                forall|q: int| 0 <= q < k ==> (#[trigger] g@[q]).wf(),
            decreases g@.len() - k,
        {
            if g[k].v >= crate::field::MODULUS {
                assert(!g@[k as int].wf());
                assert(!all_wf(rounds@[i as int]@));
                return Err(SumcheckError::NonCanonical);
            }
            k = k + 1;
        }
        i = i + 1;
    }
    let ghost rv = rounds_view(rounds@);
    let ghost c0 = claim.val();
    t.append_fe(CLAIM_LABEL, claim);
    let ghost h0 = t.history();
    let mut running = claim;
    let mut accepted = true;
    let mut point: Vec<Fe> = Vec::new();
    i = 0;
    while i < num_vars
        invariant
            rounds@.len() == num_vars,
            rounds@ == proof.rounds@,
            rv == rounds_view(rounds@),
            0 < degree <= MAX_DEGREE,
            rounds_shaped(rounds@, degree as nat),
            rounds_canonical(rounds@),
            i <= num_vars,
            point@.len() == i,
            all_wf(point@),
            running.wf(),
            running.val() == running_sum(c0, rv, vals(point@), i as int),
            accepted == forall|j: int|
                0 <= j < i ==> fadd(#[trigger] rv[j][0], rv[j][1]) == running_sum(
                    c0,
                    rv,
                    vals(point@),
                    j,
                ),
            t.history() == fs_history(h0, rv.take(i as int)),
            vals(point@) == fs_challenges(h0, rv.take(i as int)),
        decreases num_vars - i,
    {
        let g = &rounds[i];
        assert(g@.len() == degree + 1 && all_wf(g@));
        assert(g@[0].wf() && g@[1].wf());
        let s = g[0].add(g[1]);
        let ghost old_point = point@;
        let ghost old_accepted = accepted;
        if s.v != running.v {
            accepted = false;
        }
        t.append_fes(ROUND_LABEL, g);
        let c = t.challenge_fe(CHALLENGE_LABEL);
        running = interpolate(g, c);
        point.push(c);
        proof {
            let cs = vals(point@);
            assert(cs.drop_last() =~= vals(old_point));
            assert(rv.take(i + 1).drop_last() =~= rv.take(i as int));
            assert(rv.take(i + 1).last() == vals(g@));
            assert(t.history() =~= fs_history(h0, rv.take(i + 1)));
            assert(forall|j: int| 0 <= j <= i ==> running_sum(c0, rv, cs, j) == running_sum(
                c0,
                rv,
                vals(old_point),
                j,
            ));
            assert(all_wf(point@)) by {
                assert forall|j: int| 0 <= j < point@.len() implies (#[trigger] point@[j]).wf() by {
                    if j < i {
                        assert(point@[j] == old_point[j]);
                    }
                }
            }
            if accepted {
                assert forall|j: int| 0 <= j < i + 1 implies fadd(#[trigger] rv[j][0], rv[j][1])
                    == running_sum(c0, rv, cs, j) by {
                    if j < i {
                        assert(old_accepted);
                        assert(running_sum(c0, rv, cs, j) == running_sum(c0, rv, vals(old_point), j));
                    }
                }
            } else {
                if old_accepted {
                    assert(fadd(rv[i as int][0], rv[i as int][1]) != running_sum(c0, rv, cs, i as int));
                }
            }
        }
        i = i + 1;
    }
    assert(rv.take(num_vars as int) =~= rv);
    Ok(VerifierOutput { accepted, point, expected: running })
}

proof fn lemma_fs_challenges_len(h: Seq<TranscriptOp>, rounds: Seq<Seq<int>>)
    ensures
        fs_challenges(h, rounds).len() == rounds.len(),
    decreases rounds.len(),
{
    if rounds.len() > 0 {
        lemma_fs_challenges_len(h, rounds.drop_last());
    }
}

/// The first `k` challenges depend only on the first `k` rounds.
proof fn lemma_fs_challenges_prefix(h: Seq<TranscriptOp>, rounds: Seq<Seq<int>>, k: int)
    requires
        0 <= k <= rounds.len(),
    ensures
        fs_challenges(h, rounds).take(k) == fs_challenges(h, rounds.take(k)),
    decreases rounds.len(),
{
    lemma_fs_challenges_len(h, rounds);
    if k == rounds.len() {
        assert(rounds.take(k) =~= rounds);
        assert(fs_challenges(h, rounds).take(k) =~= fs_challenges(h, rounds));
    } else {
        let r = rounds.drop_last();
        lemma_fs_challenges_prefix(h, r, k);
        lemma_fs_challenges_len(h, r);
        assert(r.take(k) =~= rounds.take(k));
        assert(fs_challenges(h, rounds).take(k) =~= fs_challenges(h, r).take(k));
    }
}

/// Transcript determinism: two runs that start from the same history and
/// absorb the same round values draw the same challenges and leave the same
/// history; more precisely, runs that agree on their first `k` rounds agree
/// on their first `k` challenges and on the history up to that point.
pub proof fn lemma_transcript_determinism(
    h: Seq<TranscriptOp>,
    a: Seq<Seq<int>>,
    b: Seq<Seq<int>>,
    k: int,
)
    requires
        0 <= k <= a.len(),
        k <= b.len(),
        a.take(k) == b.take(k),
    ensures
        fs_challenges(h, a).take(k) == fs_challenges(h, b).take(k),
        fs_history(h, a.take(k)) == fs_history(h, b.take(k)),
{
    lemma_fs_challenges_prefix(h, a, k);
    lemma_fs_challenges_prefix(h, b, k);
}

/// Fixing leading variables keeps every table canonical and halves its
/// length each time.
proof fn lemma_tabs_after_ok(tabs: Seq<Seq<int>>, cs: Seq<int>, n: nat)
    requires
        tables_ok(tabs, n),
        cs.len() <= n,
    ensures
        tables_ok(tabs_after(tabs, cs), (n - cs.len()) as nat),
        tabs_after(tabs, cs).len() == tabs.len(),
    decreases cs.len(),
{
    if cs.len() > 0 {
        let prev = tabs_after(tabs, cs.drop_last());
        let m = (n - cs.len() + 1) as nat;
        lemma_tabs_after_ok(tabs, cs.drop_last(), n);
        let next = fold_tables(prev, cs.last());
        assert forall|op: int| 0 <= op < next.len() implies (#[trigger] next[op]).len() == cube_len(
            (m - 1) as nat,
        ) && forall|x: int| 0 <= x < next[op].len() ==> 0 <= #[trigger] next[op][x] < p() by {
            assert(prev[op].len() == cube_len(m));
        }
    }
}

/// An honest prover's round `i` balances: its values at 0 and 1 add up to
/// the sum, over the remaining hypercube, of the polynomial with its first
/// `i` variables fixed to the challenges drawn so far. For round 0 that is
/// the sum over the whole hypercube, so an honest proof of the true sum
/// passes the first check. (That later checks pass as well needs the
/// interpolated round polynomial to agree with the fixed polynomial's sum at
/// the challenge, which is not stated here.)
pub proof fn lemma_honest_round_balances(poly: VirtualPolynomial, cs: Seq<int>, d: nat, i: int)
    requires
        poly.wf(),
        0 <= i < poly.num_vars,
        i <= cs.len(),
        d >= 1,
    ensures
        ({
            let rv = round_values(
                poly.terms@,
                tabs_after(poly.tabs(), cs.take(i)),
                (poly.num_vars - i) as nat,
                d,
            );
            fadd(rv[0], rv[1]) == sum_to(
                poly.terms@,
                tabs_after(poly.tabs(), cs.take(i)),
                cube_len((poly.num_vars - i) as nat),
            )
        }),
        i == 0 ==> ({
            let rv = round_values(poly.terms@, poly.tabs(), poly.num_vars as nat, d);
            fadd(rv[0], rv[1]) == poly.hypercube_sum()
        }),
{
    let n = poly.num_vars as nat;
    crate::virtual_poly::lemma_wf_tables_ok(&poly);
    let pre = cs.take(i);
    lemma_tabs_after_ok(poly.tabs(), pre, n);
    let t = tabs_after(poly.tabs(), pre);
    lemma_round_sum_split(poly.terms@, t, (n - i) as nat);
    let rv = round_values(poly.terms@, t, (n - i) as nat, d);
    assert(rv[0] == crate::virtual_poly::round_value(poly.terms@, t, (n - i) as nat, 0));
    assert(rv[1] == crate::virtual_poly::round_value(poly.terms@, t, (n - i) as nat, 1));
    if i == 0 {
        assert(pre =~= Seq::<int>::empty());
    }
}

} // verus!
