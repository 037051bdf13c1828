//! The strategy game: classification of a collision by its competitive
//! contenders, the four-outcome payoff tuple, the aspiration-normalized
//! stimulus, and the per-case resolution rules.

use crate::fixed::{abs_int, div_int_spec, div_scaled, fix_mul, mul_scaled, SCALE};
use crate::rng::SimRng;
use vstd::arithmetic::div_mod::{lemma_div_is_ordered, lemma_div_multiples_vanish};
use vstd::prelude::*;

verus! {

/// Bound on the ratio and baseline fed into the payoff tuple.
pub const REWARD_ARG_MAX: i64 = 200_000_000_000;

/// Bound on a payoff component and on the aspiration level inside the
/// stimulus computation.
pub const PAYOFF_MAX: i64 = 100_000_000_000_000_000;

/// Classification of one contested cell by how many contenders are
/// competitive.
#[derive(Debug, PartialEq, Eq, Clone, Copy, Structural)]
pub enum RuleCase {
    AllCoop,
    AllButOneCoop,
    Argument,
}

/// The two movement strategies an evacuee can hold.
#[derive(Debug, PartialEq, Eq, Clone, Copy, Structural)]
pub enum Strategy {
    Competitive,
    Cooperative,
}

/// An evacuee on the grid: position, current strategy, and the retention
/// probabilities (in micro units) for each strategy.
#[derive(Debug, Clone, Copy)]
pub struct EvacueeCell {
    pub strategy: Strategy,
    pub x: i32,
    pub y: i32,
    /// probability of retaining the cooperative strategy
    pub pr_c: i64,
    /// probability of retaining the competitive strategy
    pub pr_d: i64,
}

impl PartialEq for EvacueeCell {
    /// Two evacuees are the same occupant when they sit on the same cell.
    fn eq(&self, other: &Self) -> (r: bool) {
        self.x == other.x && self.y == other.y
    }
}

impl vstd::std_specs::cmp::PartialEqSpecImpl for EvacueeCell {
    open spec fn obeys_eq_spec() -> bool {
        true
    }

    open spec fn eq_spec(&self, other: &Self) -> bool {
        self.x == other.x && self.y == other.y
    }
}

/// The four-outcome payoff tuple of the coordination subgame.
pub type RSTP = (i64, i64, i64, i64);

/// Payoffs `(b/n, 0, b*(1 - r/n), -b*r/n)` under truncating fixed-point
/// arithmetic.
pub open spec fn strategy_rewards_spec(n: int, r_t: int, b: int) -> (int, int, int, int) {
    let rn = div_int_spec(r_t, n);
    (div_int_spec(b, n), 0, mul_scaled(b, (SCALE as int) - rn), -mul_scaled(b, rn))
}

/// The payoff tuple for `n` contenders with ratio `r_t` and baseline `b`.
pub fn strategy_rewards(n: usize, r_t: i64, b: i64) -> (r: RSTP)
    requires
        1 <= n <= 2_000_000,
        -REWARD_ARG_MAX <= r_t <= REWARD_ARG_MAX,
        -REWARD_ARG_MAX <= b <= REWARD_ARG_MAX,
    ensures
        (r.0 as int, r.1 as int, r.2 as int, r.3 as int) == strategy_rewards_spec(
            n as int,
            r_t as int,
            b as int,
        ),
        -PAYOFF_MAX <= r.0 <= PAYOFF_MAX,
        r.1 == 0,
        -PAYOFF_MAX <= r.2 <= PAYOFF_MAX,
        -PAYOFF_MAX <= r.3 <= PAYOFF_MAX,
{
    let p0 = crate::fixed::div_by_count(b, n as u64);
    let rn = crate::fixed::div_by_count(r_t, n as u64);
    let p2 = fix_mul(b, SCALE - rn);
    let p3 = fix_mul(b, rn);
    proof {
        assert(abs_int(b as int) * abs_int(SCALE as int - rn as int) <= 200_000_000_000int
            * 200_001_000_000) by (nonlinear_arith)
            requires
                abs_int(b as int) <= 200_000_000_000,
                abs_int(SCALE as int - rn as int) <= 200_001_000_000,
        ;
        lemma_div_is_ordered(
            abs_int(b as int) * abs_int(SCALE as int - rn as int),
            40_000_400_000_000_000_000_000_000,
            SCALE as int,
        );
        assert(abs_int(b as int) * abs_int(rn as int) <= 200_000_000_000int * 200_000_000_000)
            by (nonlinear_arith)
            requires
                abs_int(b as int) <= 200_000_000_000,
                abs_int(rn as int) <= 200_000_000_000,
        ;
        lemma_div_is_ordered(
            abs_int(b as int) * abs_int(rn as int),
            40_000_000_000_000_000_000_000_000,
            SCALE as int,
        );
    }
    (p0, 0, p2, -p3)
}

/// The largest of four values.
pub open spec fn max4(a: int, b: int, c: int, d: int) -> int {
    let m1 = if a < b {
        b
    } else {
        a
    };
    let m2 = if c < d {
        d
    } else {
        c
    };
    if m1 < m2 {
        m2
    } else {
        m1
    }
}

/// The largest absolute deviation of a payoff component from the aspiration.
pub open spec fn max_dev(rewards: (int, int, int, int), a_x: int) -> int {
    max4(
        abs_int(rewards.0 - a_x),
        abs_int(rewards.1 - a_x),
        abs_int(rewards.2 - a_x),
        abs_int(rewards.3 - a_x),
    )
}

/// The Bush-Mosteller stimulus: the realized payoff's deviation from the
/// aspiration, normalized by the largest deviation across the tuple.
pub open spec fn s_x_spec(rewards: (int, int, int, int), a_x: int, reward: int) -> int {
    div_scaled(reward - a_x, max_dev(rewards, a_x))
}

/// The stimulus for one realized payoff; always within one unit in
/// magnitude. The realized payoff must be a component of the tuple, and some
/// component must deviate from the aspiration.
pub fn s_x(rewards: RSTP, a_x: i64, reward: i64) -> (r: i64)
    requires
        -PAYOFF_MAX <= rewards.0 <= PAYOFF_MAX,
        -PAYOFF_MAX <= rewards.1 <= PAYOFF_MAX,
        -PAYOFF_MAX <= rewards.2 <= PAYOFF_MAX,
        -PAYOFF_MAX <= rewards.3 <= PAYOFF_MAX,
        -PAYOFF_MAX <= a_x <= PAYOFF_MAX,
        reward == rewards.0 || reward == rewards.1 || reward == rewards.2 || reward == rewards.3,
        max_dev(
            (rewards.0 as int, rewards.1 as int, rewards.2 as int, rewards.3 as int),
            a_x as int,
        ) != 0,
    ensures
        r == s_x_spec(
            (rewards.0 as int, rewards.1 as int, rewards.2 as int, rewards.3 as int),
            a_x as int,
            reward as int,
        ),
        -SCALE <= r <= SCALE,
{
    let d0 = abs64(rewards.0 - a_x);
    let d1 = abs64(rewards.1 - a_x);
    let d2 = abs64(rewards.2 - a_x);
    let d3 = abs64(rewards.3 - a_x);
    let m1 = if d0 < d1 {
        d1
    } else {
        d0
    };
    let m2 = if d2 < d3 {
        d3
    } else {
        d2
    };
    let mx = if m1 < m2 {
        m2
    } else {
        m1
    };
    let num: i64 = reward - a_x;
    let neg: bool = num < 0;
    let ma: u128 = if num < 0 {
        (-(num as i128)) as u128
    } else {
        num as u128
    };
    let q: u128 = (ma * 1_000_000u128) / (mx as u128);
    proof {
        assert(ma <= mx as u128);
        assert(ma as int * 1_000_000 <= mx as int * 1_000_000);
        lemma_div_is_ordered(ma as int * 1_000_000, mx as int * 1_000_000, mx as int);
        lemma_div_multiples_vanish(1_000_000, mx as int);
        assert(mx as int * 1_000_000 == 1_000_000 * (mx as int)) by (nonlinear_arith);
    }
    if neg {
        -(q as i64)
    } else {
        q as i64
    }
}

/// A realized component's stimulus always lies within one unit: its
/// deviation never exceeds the largest deviation it is normalized by.
pub proof fn lemma_s_x_spec_bound(w: (int, int, int, int), a_x: int, reward: int)
    requires
        reward == w.0 || reward == w.1 || reward == w.2 || reward == w.3,
        max_dev(w, a_x) != 0,
    ensures
        -(SCALE as int) <= s_x_spec(w, a_x, reward) <= SCALE as int,
{
    let mx = max_dev(w, a_x);
    assert(mx > 0);
    let num = abs_int(reward - a_x);
    assert(num <= mx);
    assert(num * (SCALE as int) <= mx * (SCALE as int)) by (nonlinear_arith)
        requires
            0 <= num <= mx,
    ;
    lemma_div_is_ordered(num * (SCALE as int), mx * (SCALE as int), mx);
    lemma_div_multiples_vanish(SCALE as int, mx);
    assert(mx * (SCALE as int) == (SCALE as int) * mx) by (nonlinear_arith);
    assert(num * (SCALE as int) >= 0) by (nonlinear_arith)
        requires
            num >= 0,
    ;
    vstd::arithmetic::div_mod::lemma_div_pos_is_pos(num * (SCALE as int), mx);
}

/// A positive competitive count names a competitive contender.
pub proof fn lemma_count_comp_pos(s: Seq<Strategy>)
    requires
        count_comp(s) > 0,
    ensures
        exists|i: int| 0 <= i < s.len() && s[i] is Competitive,
    decreases s.len(),
{
    if s[0] is Competitive {
        assert(s[0] is Competitive);
    } else {
        lemma_count_comp_pos(s.drop_first());
        let i = choose|i: int| 0 <= i < s.drop_first().len() && s.drop_first()[i] is Competitive;
        assert(s[i + 1] is Competitive);
    }
}

/// Absolute value of an `i64` that is not the smallest one.
fn abs64(a: i64) -> (r: i64)
    requires
        a > i64::MIN,
    ensures
        r == abs_int(a as int),
{
    if a < 0 {
        -a
    } else {
        a
    }
}

/// The number of competitive strategies in a sequence.
pub open spec fn count_comp(s: Seq<Strategy>) -> int
    decreases s.len(),
{
    if s.len() == 0 {
        0
    } else {
        (if s[0] == Strategy::Competitive {
            1int
        } else {
            0int
        }) + count_comp(s.drop_first())
    }
}

/// The case a contender count falls under: none competitive, exactly one,
/// or an argument among several.
pub open spec fn rule_case_of(n_comp: int) -> RuleCase {
    if n_comp == 0 {
        RuleCase::AllCoop
    } else if n_comp == 1 {
        RuleCase::AllButOneCoop
    } else {
        RuleCase::Argument
    }
}

impl Strategy {
    /// The opposite strategy.
    pub fn inverse(&self) -> (r: Strategy)
        ensures
            r == (match self {
                Strategy::Competitive => Strategy::Cooperative,
                Strategy::Cooperative => Strategy::Competitive,
            }),
    {
        match self {
            Self::Competitive => Self::Cooperative,
            Self::Cooperative => Self::Competitive,
        }
    }

    /// Classify a collision of `self` with `neigh` by the number of
    /// competitive strategies among all contenders.
    pub fn game_rules(&self, neigh: &[Self]) -> (r: RuleCase)
        ensures
            r == rule_case_of(
                count_comp(neigh@) + (if self is Competitive {
                    1int
                } else {
                    0int
                }),
            ),
    {
        let self_val: usize = if *self == Self::Competitive {
            1
        } else {
            0
        };
        let n = neigh.len();
        let mut count: usize = 0;
        let mut i: usize = 0;
        while i < n
            invariant
                0 <= i <= n,
                n == neigh@.len(),
                count == count_comp(neigh@.subrange(0, i as int)),
                count <= i,
            decreases n - i,
        {
            proof {
                lemma_count_comp_push(neigh@.subrange(0, i as int), neigh@[i as int]);
                assert(neigh@.subrange(0, i as int + 1) == neigh@.subrange(0, i as int).push(
                    neigh@[i as int],
                ));
            }
            if neigh[i] == Self::Competitive {
                count = count + 1;
            }
            i = i + 1;
        }
        proof {
            assert(neigh@.subrange(0, n as int) == neigh@);
        }
        if count == 0 {
            if self_val == 0 {
                RuleCase::AllCoop
            } else {
                RuleCase::AllButOneCoop
            }
        } else if count == 1 && self_val == 0 {
            RuleCase::AllButOneCoop
        } else {
            RuleCase::Argument
        }
    }
}

proof fn lemma_count_comp_push(s: Seq<Strategy>, v: Strategy)
    ensures
        count_comp(s.push(v)) == count_comp(s) + (if v == Strategy::Competitive {
            1int
        } else {
            0int
        }),
    decreases s.len(),
{
    let t = s.push(v);
    if s.len() == 0 {
        assert(t.drop_first() == s);
    } else {
        assert(t.drop_first() == s.drop_first().push(v));
        lemma_count_comp_push(s.drop_first(), v);
    }
}

/// A contender: its payoff tuple and its cell.
pub type Contender = (RSTP, EvacueeCell);

/// The payoff component a strategy realizes under a given case.
pub open spec fn chosen_reward_of(case: RuleCase, w: (int, int, int, int), s: Strategy) -> int {
    match case {
        RuleCase::AllCoop => w.0,
        RuleCase::AllButOneCoop => if s is Competitive {
            w.2
        } else {
            w.1
        },
        RuleCase::Argument => w.3,
    }
}

/// The payoff component a contender realizes under a given case.
pub open spec fn chosen_reward(case: RuleCase, p: Contender) -> int {
    chosen_reward_of(case, rstp_int(p.0), p.1.strategy)
}

pub open spec fn rstp_int(w: RSTP) -> (int, int, int, int) {
    (w.0 as int, w.1 as int, w.2 as int, w.3 as int)
}

/// The stimulus-and-cell pair a contender resolves to under a given case.
pub open spec fn stim_pair(case: RuleCase, asp: int, p: Contender) -> (i64, EvacueeCell) {
    (s_x_spec(rstp_int(p.0), asp, chosen_reward(case, p)) as i64, p.1)
}

/// Payoffs in range and some component deviating from the aspiration.
pub open spec fn contender_ok(p: Contender, asp: int) -> bool {
    &&& -PAYOFF_MAX <= p.0.0 <= PAYOFF_MAX
    &&& -PAYOFF_MAX <= p.0.1 <= PAYOFF_MAX
    &&& -PAYOFF_MAX <= p.0.2 <= PAYOFF_MAX
    &&& -PAYOFF_MAX <= p.0.3 <= PAYOFF_MAX
    &&& max_dev(rstp_int(p.0), asp) != 0
}

/// The first index holding a competitive contender.
pub open spec fn first_comp(s: Seq<Contender>) -> int
    decreases s.len(),
{
    if s.len() == 0 {
        0
    } else if s[0].1.strategy is Competitive {
        0
    } else {
        1 + first_comp(s.drop_first())
    }
}

/// Resolve one contested cell: compute every contender's stimulus, and order
/// the contenders as the case dictates. `Ok` carries an ordering whose first
/// entry is the cell's occupant (shuffled under `AllCoop`, the competitive
/// contender first under `AllButOneCoop`); `Err` signals an argument, where
/// nobody is awarded the cell and everyone keeps its place.
pub fn rules(
    game_rules: RuleCase,
    competing: Vec<Contender>,
    rng: &mut SimRng,
    asp: i64,
) -> (r: Result<Vec<(i64, EvacueeCell)>, Vec<(i64, EvacueeCell)>>)
    requires
        -PAYOFF_MAX <= asp <= PAYOFF_MAX,
        forall|i: int|
            0 <= i < competing@.len() ==> contender_ok(#[trigger] competing@[i], asp as int),
        game_rules == RuleCase::AllButOneCoop ==> exists|i: int|
            0 <= i < competing@.len() && (#[trigger] competing@[i]).1.strategy is Competitive,
    ensures
        r is Ok <==> game_rules != RuleCase::Argument,
        r matches Ok(v) ==> v@.len() == competing@.len() && (game_rules == RuleCase::AllCoop
            ==> v@.to_multiset() == competing@.map_values(
            |p: Contender| stim_pair(RuleCase::AllCoop, asp as int, p),
        ).to_multiset()) && (game_rules == RuleCase::AllButOneCoop && competing@.len() > 0 ==> {
            let k = first_comp(competing@);
            &&& v@[0] == stim_pair(game_rules, asp as int, competing@[k])
            &&& forall|i: int|
                1 <= i <= k ==> v@[i] == stim_pair(game_rules, asp as int, competing@[i - 1])
            &&& forall|i: int|
                k < i < v@.len() ==> v@[i] == stim_pair(game_rules, asp as int, competing@[i])
            &&& v@[0].1.strategy is Competitive
        }),
        r matches Err(v) ==> v@.len() == competing@.len() && forall|i: int|
            0 <= i < v@.len() ==> v@[i] == stim_pair(game_rules, asp as int, competing@[i]),
        r matches Ok(v) ==> forall|i: int|
            0 <= i < v@.len() ==> (-SCALE <= (#[trigger] v@[i]).0 <= SCALE && exists|j: int|
                0 <= j < competing@.len() && v@[i] == stim_pair(
                    game_rules,
                    asp as int,
                    competing@[j],
                )),
        r matches Err(v) ==> forall|i: int|
            0 <= i < v@.len() ==> (-SCALE <= (#[trigger] v@[i]).0 <= SCALE && exists|j: int|
                0 <= j < competing@.len() && v@[i] == stim_pair(
                    game_rules,
                    asp as int,
                    competing@[j],
                )),
{
    match game_rules {
        RuleCase::AllCoop => {
            let mut pairs = map_stims(&competing, RuleCase::AllCoop, asp);
            rng.shuffle(&mut pairs);
            proof {
                broadcast use vstd::seq_lib::group_to_multiset_ensures;

                let mapped = competing@.map_values(
                    |p: Contender| stim_pair(RuleCase::AllCoop, asp as int, p),
                );
                assert(pairs@.to_multiset() == mapped.to_multiset());
                assert forall|i: int| 0 <= i < pairs@.len() implies (-SCALE <= (
                #[trigger] pairs@[i]).0 <= SCALE && exists|j: int|
                    0 <= j < competing@.len() && pairs@[i] == stim_pair(
                        RuleCase::AllCoop,
                        asp as int,
                        competing@[j],
                    )) by {
                    let v = pairs@[i];
                    assert(pairs@.contains(v));
                    assert(pairs@.to_multiset().count(v) > 0);
                    assert(mapped.to_multiset().count(v) > 0);
                    assert(mapped.contains(v));
                    let j = choose|j: int| 0 <= j < mapped.len() && mapped[j] == v;
                    assert(mapped[j] == stim_pair(RuleCase::AllCoop, asp as int, competing@[j]));
                    lemma_s_x_spec_bound(
                        rstp_int(competing@[j].0),
                        asp as int,
                        chosen_reward(RuleCase::AllCoop, competing@[j]),
                    );
                }
            }
            Ok(pairs)
        },
        RuleCase::AllButOneCoop => {
            let n = competing.len();
            let mut k: usize = 0;
            while k < n && !matches!(competing[k].1.strategy, Strategy::Competitive)
                invariant
                    0 <= k <= n,
                    n == competing@.len(),
                    forall|i: int|
                        0 <= i < k ==> !((#[trigger] competing@[i]).1.strategy is Competitive),
                decreases n - k,
            {
                k = k + 1;
            }
            proof {
                lemma_first_comp_is(competing@, k as int);
            }
            let mut out: Vec<(i64, EvacueeCell)> = Vec::new();
            let stim_k = contender_stim(&competing[k], game_rules, asp);
            out.push((stim_k, competing[k].1));
            let mut j: usize = 0;
            while j < n
                invariant
                    0 <= j <= n,
                    n == competing@.len(),
                    -PAYOFF_MAX <= asp <= PAYOFF_MAX,
                    k < n,
                    competing@[k as int].1.strategy is Competitive,
                    forall|i: int|
                        0 <= i < competing@.len() ==> contender_ok(
                            #[trigger] competing@[i],
                            asp as int,
                        ),
                    out@.len() == (if j <= k {
                        j as int + 1
                    } else {
                        j as int
                    }),
                    out@[0] == stim_pair(game_rules, asp as int, competing@[k as int]),
                    forall|i: int|
                        1 <= i <= k && i < out@.len() ==> out@[i] == stim_pair(
                            game_rules,
                            asp as int,
                            competing@[i - 1],
                        ),
                    forall|i: int|
                        k < i < out@.len() ==> out@[i] == stim_pair(
                            game_rules,
                            asp as int,
                            competing@[i],
                        ),
                decreases n - j,
            {
                if j != k {
                    let stim = contender_stim(&competing[j], game_rules, asp);
                    out.push((stim, competing[j].1));
                }
                j = j + 1;
            }
            proof {
                assert forall|i: int| 0 <= i < out@.len() implies (-SCALE <= (
                #[trigger] out@[i]).0 <= SCALE && exists|jj: int|
                    0 <= jj < competing@.len() && out@[i] == stim_pair(
                        RuleCase::AllButOneCoop,
                        asp as int,
                        competing@[jj],
                    )) by {
                    let jj = if i == 0 {
                        k as int
                    } else if i <= k {
                        i - 1
                    } else {
                        i
                    };
                    assert(out@[i] == stim_pair(RuleCase::AllButOneCoop, asp as int, competing@[jj]));
                    lemma_s_x_spec_bound(
                        rstp_int(competing@[jj].0),
                        asp as int,
                        chosen_reward(RuleCase::AllButOneCoop, competing@[jj]),
                    );
                }
            }
            Ok(out)
        },
        RuleCase::Argument => {
            let pairs = map_stims(&competing, RuleCase::Argument, asp);
            proof {
                assert forall|i: int| 0 <= i < pairs@.len() implies (-SCALE <= (
                #[trigger] pairs@[i]).0 <= SCALE && exists|jj: int|
                    0 <= jj < competing@.len() && pairs@[i] == stim_pair(
                        RuleCase::Argument,
                        asp as int,
                        competing@[jj],
                    )) by {
                    assert(pairs@[i] == stim_pair(RuleCase::Argument, asp as int, competing@[i]));
                    lemma_s_x_spec_bound(
                        rstp_int(competing@[i].0),
                        asp as int,
                        chosen_reward(RuleCase::Argument, competing@[i]),
                    );
                }
            }
            Err(pairs)
        },
    }
}

proof fn lemma_first_comp_is(s: Seq<Contender>, k: int)
    requires
        0 <= k <= s.len(),
        forall|i: int| 0 <= i < k ==> !((#[trigger] s[i]).1.strategy is Competitive),
        k < s.len() ==> s[k].1.strategy is Competitive,
    ensures
        k < s.len() ==> first_comp(s) == k,
    decreases k,
{
    if k < s.len() {
        if k == 0 {
        } else {
            assert forall|i: int| 0 <= i < k - 1 implies !((#[trigger] s.drop_first()[i]).1.strategy
                is Competitive) by {
                assert(s.drop_first()[i] == s[i + 1]);
            }
            assert(s.drop_first()[k - 1] == s[k]);
            lemma_first_comp_is(s.drop_first(), k - 1);
        }
    }
}

/// One contender's stimulus under a case.
fn contender_stim(p: &Contender, case: RuleCase, asp: i64) -> (r: i64)
    requires
        contender_ok(*p, asp as int),
        -PAYOFF_MAX <= asp <= PAYOFF_MAX,
    ensures
        r == s_x_spec(rstp_int(p.0), asp as int, chosen_reward(case, *p)),
        -SCALE <= r <= SCALE,
{
    let realized: i64 = match case {
        RuleCase::AllCoop => p.0.0,
        RuleCase::AllButOneCoop => if matches!(p.1.strategy, Strategy::Competitive) {
            p.0.2
        } else {
            p.0.1
        },
        RuleCase::Argument => p.0.3,
    };
    s_x(p.0, asp, realized)
}

/// Every contender's stimulus-and-cell pair, in order.
fn map_stims(competing: &Vec<Contender>, case: RuleCase, asp: i64) -> (r: Vec<(i64, EvacueeCell)>)
    requires
        -PAYOFF_MAX <= asp <= PAYOFF_MAX,
        forall|i: int|
            0 <= i < competing@.len() ==> contender_ok(#[trigger] competing@[i], asp as int),
    ensures
        r@ == competing@.map_values(|p: Contender| stim_pair(case, asp as int, p)),
{
    let n = competing.len();
    let mut out: Vec<(i64, EvacueeCell)> = Vec::new();
    let mut i: usize = 0;
    while i < n
        invariant
            0 <= i <= n,
            n == competing@.len(),
            -PAYOFF_MAX <= asp <= PAYOFF_MAX,
            forall|j: int|
                0 <= j < competing@.len() ==> contender_ok(#[trigger] competing@[j], asp as int),
            out@ == competing@.subrange(0, i as int).map_values(
                |p: Contender| stim_pair(case, asp as int, p),
            ),
        decreases n - i,
    {
        let stim = contender_stim(&competing[i], case, asp);
        out.push((stim, competing[i].1));
        proof {
            assert(competing@.subrange(0, i as int + 1) == competing@.subrange(0, i as int).push(
                competing@[i as int],
            ));
            assert(competing@.subrange(0, i as int + 1).map_values(
                |p: Contender| stim_pair(case, asp as int, p),
            ) == competing@.subrange(0, i as int).map_values(
                |p: Contender| stim_pair(case, asp as int, p),
            ).push(stim_pair(case, asp as int, competing@[i as int])));
        }
        i = i + 1;
    }
    proof {
        assert(competing@.subrange(0, n as int) == competing@);
    }
    out
}

} // verus!
