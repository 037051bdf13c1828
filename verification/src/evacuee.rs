//! The evacuee handler: movement-weight computation over candidate cells
//! and the Bush-Mosteller strategy-adaptation rule.

use crate::fixed::{
    abs_int, fix_exp, fix_exp_spec, fix_mul, fix_sqrt, lemma_div_superadd, lemma_mul_scaled_abs,
    lemma_mul_scaled_le, mul_scaled, sqrt_floor, SCALE,
};
use crate::influence::{spec_dynamic_influence, FireInfluence, StaticInfluence};
use crate::misc::{Loc, DIM_CAP};
use crate::rng::{prefix_sum, SimRng};
use crate::strategy::{EvacueeCell, Strategy};
use vstd::arithmetic::div_mod::{lemma_div_is_ordered, lemma_div_multiples_vanish};
use vstd::prelude::*;

verus! {

/// The handler that moves and adapts evacuees; `lc` and `ld` are the
/// learning rates for the cooperative and competitive strategies.
#[derive(Clone, Copy, Default)]
pub struct EvacueeAgent {
    /// Unique identifier
    pub id: usize,
    pub lc: i64,
    pub ld: i64,
}

impl EvacueeAgent {
    /// Learning rates are probabilities.
    pub open spec fn wf(&self) -> bool {
        &&& 0 <= self.lc <= SCALE
        &&& 0 <= self.ld <= SCALE
    }
}

/// An evacuee's retention probabilities are probabilities.
pub open spec fn evacuee_probs_ok(e: EvacueeCell) -> bool {
    &&& 0 <= e.pr_c <= SCALE
    &&& 0 <= e.pr_d <= SCALE
}

/// The Bush-Mosteller update: move the retention probability toward one on
/// a positive stimulus and toward zero on a negative one, by the scaled
/// learning step.
pub open spec fn calc_prob_spec(prob: int, learning: int, stim: int) -> int {
    let step = mul_scaled(learning, stim);
    if stim >= 0 {
        prob + mul_scaled((SCALE as int) - prob, step)
    } else {
        prob + mul_scaled(prob, step)
    }
}

/// One Bush-Mosteller update; the result stays a probability.
pub fn calc_prob(prob: i64, learning: i64, stim: i64) -> (r: i64)
    requires
        0 <= prob <= SCALE,
        0 <= learning <= SCALE,
        -SCALE <= stim <= SCALE,
    ensures
        r == calc_prob_spec(prob as int, learning as int, stim as int),
        0 <= r <= SCALE,
{
    let step = fix_mul(learning, stim);
    proof {
        lemma_mul_scaled_abs(learning as int, stim as int, SCALE as int, SCALE as int);
        lemma_div_multiples_vanish(SCALE as int, SCALE as int);
    }
    if stim >= 0 {
        proof {
            assert(step >= 0);
            lemma_mul_scaled_le((SCALE - prob) as int, step as int);
        }
        let q = fix_mul(SCALE - prob, step);
        prob + q
    } else {
        proof {
            let la = crate::fixed::abs_int(learning as int);
            let sta = crate::fixed::abs_int(stim as int);
            assert(la * sta >= 0) by (nonlinear_arith)
                requires
                    la >= 0,
                    sta >= 0,
            ;
            vstd::arithmetic::div_mod::lemma_div_pos_is_pos(la * sta, SCALE as int);
            assert(step <= 0);
            let pa = crate::fixed::abs_int(prob as int);
            let sa = crate::fixed::abs_int(step as int);
            assert(pa * sa >= 0) by (nonlinear_arith)
                requires
                    pa >= 0,
                    sa >= 0,
            ;
            vstd::arithmetic::div_mod::lemma_div_pos_is_pos(pa * sa, SCALE as int);
            assert((pa * sa) / (SCALE as int) >= 0);
            if step < 0 {
                assert(mul_scaled(prob as int, step as int) == -((pa * sa) / (SCALE as int)));
            } else {
                assert(step == 0 && sa == 0);
                assert(pa * sa == 0) by (nonlinear_arith)
                    requires
                        sa == 0,
                ;
                assert(mul_scaled(prob as int, step as int) == 0);
            }
            assert(mul_scaled(prob as int, step as int) <= 0);
            lemma_mul_scaled_abs(prob as int, step as int, prob as int, SCALE as int);
            assert(prob as int * (SCALE as int) == (SCALE as int) * (prob as int))
                by (nonlinear_arith);
            lemma_div_multiples_vanish(prob as int, SCALE as int);
        }
        let q = fix_mul(prob, step);
        prob + q
    }
}

/// The signed force on a candidate cell: the fire's scaled push minus the
/// exit's pull, in micro units.
pub open spec fn weight_arg(st: StaticInfluence, fi: FireInfluence, l: Loc) -> int {
    mul_scaled(
        spec_dynamic_influence(fi.fire_state, l.0 as int, l.1 as int),
        fi.movement.0 as int,
    ) - st.spec_static_influence(l.0 as int, l.1 as int)
}

/// A candidate cell's raw movement weight: the exponential of the signed,
/// square-root-damped force.
pub open spec fn move_weight(st: StaticInfluence, fi: FireInfluence, l: Loc) -> int {
    let a = weight_arg(st, fi, l);
    let root = sqrt_floor(abs_int(a) * (SCALE as int));
    if a < 0 {
        fix_exp_spec(-root)
    } else {
        fix_exp_spec(root)
    }
}

/// The total raw weight of the first `k` candidates.
pub open spec fn weights_total(st: StaticInfluence, fi: FireInfluence, locs: Seq<Loc>, k: int) -> int
    decreases k,
{
    if k <= 0 {
        0
    } else {
        weights_total(st, fi, locs, k - 1) + move_weight(st, fi, locs[k - 1])
    }
}

/// A weight vector that matches the candidates pointwise sums to their
/// total.
proof fn lemma_weights_total_matches(
    ws: Seq<i64>,
    st: StaticInfluence,
    fi: FireInfluence,
    locs: Seq<Loc>,
    k: int,
)
    requires
        0 <= k <= ws.len(),
        k <= locs.len(),
        forall|i: int| 0 <= i < k ==> ws[i] == move_weight(st, fi, locs[i]),
    ensures
        prefix_sum(ws, k) == weights_total(st, fi, locs, k),
    decreases k,
{
    if k > 0 {
        lemma_weights_total_matches(ws, st, fi, locs, k - 1);
    }
}

impl EvacueeAgent {
    /// Update one evacuee after a resolved collision: apply the
    /// Bush-Mosteller step to the retention probability of its current
    /// strategy, then retain that strategy with the updated probability and
    /// flip it otherwise. Certain retention and certain flips are exact.
    pub fn calculate_strategies(&self, evac: &mut EvacueeCell, rng: &mut SimRng, stim: i64)
        requires
            self.wf(),
            evacuee_probs_ok(*old(evac)),
            -SCALE <= stim <= SCALE,
        ensures
            evacuee_probs_ok(*final (evac)),
            final (evac).x == old(evac).x,
            final (evac).y == old(evac).y,
            old(evac).strategy is Competitive ==> {
                &&& final (evac).pr_d == calc_prob_spec(
                    old(evac).pr_d as int,
                    self.ld as int,
                    stim as int,
                )
                &&& final (evac).pr_c == old(evac).pr_c
                &&& (final (evac).pr_d == SCALE ==> final (evac).strategy is Competitive)
                &&& (final (evac).pr_d == 0 ==> final (evac).strategy is Cooperative)
            },
            old(evac).strategy is Cooperative ==> {
                &&& final (evac).pr_c == calc_prob_spec(
                    old(evac).pr_c as int,
                    self.lc as int,
                    stim as int,
                )
                &&& final (evac).pr_d == old(evac).pr_d
                &&& (final (evac).pr_c == SCALE ==> final (evac).strategy is Cooperative)
                &&& (final (evac).pr_c == 0 ==> final (evac).strategy is Competitive)
            },
    {
        match evac.strategy {
            Strategy::Competitive => {
                evac.pr_d = calc_prob(evac.pr_d, self.ld, stim);
                if !rng.gen_bool_micro(evac.pr_d) {
                    evac.strategy = Strategy::Cooperative;
                }
            },
            Strategy::Cooperative => {
                evac.pr_c = calc_prob(evac.pr_c, self.lc, stim);
                if !rng.gen_bool_micro(evac.pr_c) {
                    evac.strategy = Strategy::Competitive;
                }
            },
        }
    }

    /// The movement distribution over candidate destination cells: each
    /// cell's weight is the exponential of the signed, square-root-damped
    /// difference between the fire's push and the exit's pull, and the
    /// weights are normalized to an exact unit total.
    pub fn calculate_probabilities(
        &self,
        neigh: &Vec<Loc>,
        static_st: &StaticInfluence,
        fire_infl: &FireInfluence,
    ) -> (r: Vec<i64>)
        requires
            static_st.wf(),
            fire_infl.wf(),
            1 <= neigh@.len() <= 1000,
            forall|i: int|
                0 <= i < neigh@.len() ==> 0 <= (#[trigger] neigh@[i]).0 <= DIM_CAP && 0
                    <= neigh@[i].1 <= DIM_CAP,
        ensures
            r@.len() == neigh@.len(),
            forall|i: int| 0 <= i < r@.len() ==> 0 <= #[trigger] r@[i] <= SCALE,
            prefix_sum(r@, r@.len() as int) == SCALE,
            forall|i: int|
                0 <= i < r@.len() - 1 ==> #[trigger] r@[i] == move_weight(
                    *static_st,
                    *fire_infl,
                    neigh@[i],
                ) * (SCALE as int) / weights_total(
                    *static_st,
                    *fire_infl,
                    neigh@,
                    neigh@.len() as int,
                ),
            r@[r@.len() - 1] == SCALE - prefix_sum(r@, r@.len() - 1),
    {
        let n = neigh.len();
        let mut weights: Vec<i64> = Vec::new();
        let mut i: usize = 0;
        while i < n
            invariant
                0 <= i <= n,
                n == neigh@.len() <= 1000,
                static_st.wf(),
                fire_infl.wf(),
                forall|k: int|
                    0 <= k < neigh@.len() ==> 0 <= (#[trigger] neigh@[k]).0 <= DIM_CAP && 0
                        <= neigh@[k].1 <= DIM_CAP,
                weights@.len() == i,
                forall|k: int|
                    0 <= k < i ==> 1 <= #[trigger] weights@[k] <= 3_500_000_000_000,
                forall|k: int|
                    0 <= k < i ==> #[trigger] weights@[k] == move_weight(
                        *static_st,
                        *fire_infl,
                        neigh@[k],
                    ),
            decreases n - i,
        {
            let cs = neigh[i];
            let d = fire_infl.get_movement_influence(&cs);
            let s = static_st.static_influence(&cs);
            let result: i64 = d - s;
            proof {
                assert(result as int == weight_arg(*static_st, *fire_infl, neigh@[i as int]));
            }
            let mag: i64 = if result < 0 {
                -result
            } else {
                result
            };
            let root = fix_sqrt(mag);
            let arg: i64 = if result < 0 {
                -root
            } else {
                root
            };
            let w = fix_exp(arg);
            proof {
                assert(mag as int == abs_int(result as int));
                assert(root as int == sqrt_floor(abs_int(result as int) * (SCALE as int)));
                assert(w == move_weight(*static_st, *fire_infl, neigh@[i as int]));
            }
            weights.push(w);
            i = i + 1;
        }
        proof {
            lemma_weights_total_matches(weights@, *static_st, *fire_infl, neigh@, n as int);
        }
        normalize_weights(&weights)
    }
}

/// Normalize positive weights into an exact categorical distribution in
/// micro units: every entry but the last is its proportional floor share,
/// and the last absorbs the rounding remainder, so the total is exactly one
/// unit.
pub fn normalize_weights(weights: &Vec<i64>) -> (r: Vec<i64>)
    requires
        1 <= weights@.len() <= 1000,
        forall|i: int| 0 <= i < weights@.len() ==> 1 <= #[trigger] weights@[i] <= 3_500_000_000_000,
    ensures
        r@.len() == weights@.len(),
        forall|i: int| 0 <= i < r@.len() ==> 0 <= #[trigger] r@[i] <= SCALE,
        forall|i: int|
            0 <= i < r@.len() - 1 ==> #[trigger] r@[i] == weights@[i] * (SCALE as int) / prefix_sum(
                weights@,
                weights@.len() as int,
            ),
        r@[r@.len() - 1] == SCALE - prefix_sum(r@, r@.len() - 1),
        prefix_sum(r@, r@.len() as int) == SCALE,
{
    let n = weights.len();
    let mut total: u64 = 0;
    let mut i: usize = 0;
    while i < n
        invariant
            0 <= i <= n,
            n == weights@.len() <= 1000,
            forall|k: int|
                0 <= k < weights@.len() ==> 1 <= #[trigger] weights@[k] <= 3_500_000_000_000,
            total == prefix_sum(weights@, i as int),
            i <= total <= i * 3_500_000_000_000,
        decreases n - i,
    {
        total = total + (weights[i] as u64);
        i = i + 1;
    }
    let ghost t = prefix_sum(weights@, n as int);
    proof {
        assert(total >= 1);
    }
    let mut out: Vec<i64> = Vec::new();
    let mut acc: u64 = 0;
    let mut i: usize = 0;
    while i + 1 < n
        invariant
            0 <= i < n,
            n == weights@.len() <= 1000,
            forall|k: int|
                0 <= k < weights@.len() ==> 1 <= #[trigger] weights@[k] <= 3_500_000_000_000,
            t == prefix_sum(weights@, n as int),
            total == t,
            1 <= total,
            out@.len() == i,
            forall|k: int|
                0 <= k < i ==> #[trigger] out@[k] == weights@[k] * (SCALE as int) / t,
            forall|k: int| 0 <= k < i ==> 0 <= #[trigger] out@[k] <= SCALE,
            acc == prefix_sum(out@, i as int),
            acc <= prefix_sum(weights@, i as int) * (SCALE as int) / t,
            acc <= SCALE,
        decreases n - i,
    {
        let q64: u64 = (((weights[i] as u64) as u128) * 1_000_000u128 / (total as u128)) as u64;
        proof {
            let w = weights@[i as int] as int;
            crate::rng::lemma_prefix_sum_bound(weights@, i as int + 1, n as int);
            crate::rng::lemma_prefix_sum_bound(weights@, 0, i as int);
            assert(prefix_sum(weights@, i as int + 1) == prefix_sum(weights@, i as int) + w);
            assert(w <= t);
            assert(w * (SCALE as int) <= t * (SCALE as int)) by (nonlinear_arith)
                requires
                    w <= t,
                    0 <= w,
            ;
            lemma_div_is_ordered(w * (SCALE as int), t * (SCALE as int), t);
            lemma_div_multiples_vanish(SCALE as int, t);
            assert(t * (SCALE as int) == (SCALE as int) * t) by (nonlinear_arith);
            assert(q64 as int == w * (SCALE as int) / t);
            assert(q64 <= SCALE);
            // the running output total keeps below the proportional share
            let pw = prefix_sum(weights@, i as int);
            lemma_div_superadd(pw * (SCALE as int), w * (SCALE as int), t);
            assert(pw * (SCALE as int) + w * (SCALE as int) == (pw + w) * (SCALE as int))
                by (nonlinear_arith);
            // and that share keeps below one unit
            crate::rng::lemma_prefix_sum_bound(weights@, i as int + 1, n as int);
            assert((pw + w) * (SCALE as int) <= t * (SCALE as int)) by (nonlinear_arith)
                requires
                    pw + w <= t,
                    0 <= pw + w,
            ;
            lemma_div_is_ordered((pw + w) * (SCALE as int), t * (SCALE as int), t);
        }
        let ghost oldout = out@;
        out.push(q64 as i64);
        proof {
            lemma_prefix_sum_agree(out@, oldout, i as int);
            assert(prefix_sum(out@, i as int + 1) == prefix_sum(out@, i as int) + out@[i as int]);
        }
        acc = acc + q64;
        i = i + 1;
    }
    let last: i64 = (1_000_000u64 - acc) as i64;
    let ghost oldout = out@;
    out.push(last);
    proof {
        lemma_prefix_sum_agree(out@, oldout, i as int);
        assert(prefix_sum(out@, n as int) == prefix_sum(out@, n as int - 1) + out@[n as int - 1]);
        assert(prefix_sum(out@, n as int) == SCALE);
    }
    out
}

/// Two sequences that agree below `i` have the same `i`-th partial sum.
proof fn lemma_prefix_sum_agree(s1: Seq<i64>, s2: Seq<i64>, i: int)
    requires
        0 <= i <= s1.len(),
        i <= s2.len(),
        forall|k: int| 0 <= k < i ==> s1[k] == s2[k],
    ensures
        prefix_sum(s1, i) == prefix_sum(s2, i),
    decreases i,
{
    if i > 0 {
        lemma_prefix_sum_agree(s1, s2, i - 1);
    }
}

} // verus!
