//! The influence model: the static pull of the exit, the dynamic push of the
//! fire frontier, the aspiration level that grows with the burnt area, and
//! the ratio/reward response curves that feed the strategy game.

use crate::curves::{LerpStruct, Equation, CURVE_MAX};
use crate::fixed::{fix_mul, fix_sqrt, fix_ln1p, lemma_mul_scaled_abs, ln1p_spec, mul_scaled, sqrt_floor, SCALE};
use crate::frontier::Frontier;
use crate::misc::{dist_sq, distsq, Loc, DIM_CAP};
use crate::strategy::{strategy_rewards, strategy_rewards_spec, RSTP, REWARD_ARG_MAX};
use vstd::prelude::*;

verus! {

/// Reward ceiling of the default response curves, in micro units.
pub const MAX_REWARD: i64 = 20_000_000;

/// Cap on the cumulative burnt-cell count.
pub const FIRE_AREA_CAP: usize = 1_440_000;

/// The static influence of a cell: how strongly the exit pulls from it.
pub enum StaticInfluence {
    /// Distance to a fixed exit position, scaled by an effect factor.
    Exit(ExitInfluence),
    /// A neutral constant, for configurations without a static field.
    Constant(ConstantInfluence),
}

/// Static influence as the Euclidean distance to the exit.
pub struct ExitInfluence {
    s_effect: i64,
    end_pos: Loc,
}

/// Static influence that is one unit everywhere.
pub struct ConstantInfluence;

impl ExitInfluence {
    pub closed spec fn wf(&self) -> bool {
        &&& -CURVE_MAX <= self.s_effect <= CURVE_MAX
        &&& 0 <= self.end_pos.0 <= DIM_CAP
        &&& 0 <= self.end_pos.1 <= DIM_CAP
    }

    pub closed spec fn spec_end_pos(&self) -> Loc {
        self.end_pos
    }

    pub closed spec fn spec_effect(&self) -> int {
        self.s_effect as int
    }

    pub fn new(s_effect: i64, end_pos: &Loc) -> (r: ExitInfluence)
        requires
            -CURVE_MAX <= s_effect <= CURVE_MAX,
            0 <= end_pos.0 <= DIM_CAP,
            0 <= end_pos.1 <= DIM_CAP,
        ensures
            r.wf(),
            r.spec_end_pos() == *end_pos,
            r.spec_effect() == s_effect as int,
    {
        ExitInfluence { s_effect, end_pos: *end_pos }
    }
}

impl StaticInfluence {
    pub open spec fn wf(&self) -> bool {
        match self {
            StaticInfluence::Exit(e) => e.wf(),
            StaticInfluence::Constant(_) => true,
        }
    }

    /// The static influence at `pos`, in micro units.
    pub open spec fn spec_static_influence(&self, px: int, py: int) -> int {
        match self {
            StaticInfluence::Exit(e) => sqrt_floor(
                dist_sq(e.spec_end_pos().0 as int, e.spec_end_pos().1 as int, px, py) * (
                SCALE as int) * (SCALE as int),
            ),
            StaticInfluence::Constant(_) => SCALE as int,
        }
    }

    /// The distance-derived pull of the exit at `pos` (one unit for the
    /// constant variant).
    pub fn static_influence(&self, pos: &Loc) -> (r: i64)
        requires
            self.wf(),
            0 <= pos.0 <= DIM_CAP,
            0 <= pos.1 <= DIM_CAP,
        ensures
            r == self.spec_static_influence(pos.0 as int, pos.1 as int),
            0 <= r <= 2_000_000_000,
    {
        match self {
            StaticInfluence::Exit(e) => {
                let d2 = distsq(&e.end_pos, pos);
                proof {
                    assert(dist_sq(
                        e.spec_end_pos().0 as int,
                        e.spec_end_pos().1 as int,
                        pos.0 as int,
                        pos.1 as int,
                    ) <= 2_880_000) by (nonlinear_arith)
                        requires
                            0 <= e.spec_end_pos().0 <= 1200,
                            0 <= e.spec_end_pos().1 <= 1200,
                            0 <= pos.0 <= 1200,
                            0 <= pos.1 <= 1200,
                    ;
                }
                let r = fix_sqrt((d2 as i64) * SCALE);
                proof {
                    assert(d2 as int * (SCALE as int) * (SCALE as int) == (d2 as i64 * SCALE) as int
                        * (SCALE as int)) by (nonlinear_arith)
                        requires
                            (d2 as i64 * SCALE) as int == d2 as int * (SCALE as int),
                    ;
                }
                r
            },
            StaticInfluence::Constant(_) => SCALE,
        }
    }

    /// The configured static effect factor (one unit for the constant
    /// variant).
    pub fn get_static_effect(&self) -> (r: i64)
        requires
            self.wf(),
        ensures
            -CURVE_MAX <= r <= CURVE_MAX,
            r == (match self {
                StaticInfluence::Exit(e) => e.spec_effect(),
                StaticInfluence::Constant(_) => SCALE as int,
            }),
    {
        match self {
            StaticInfluence::Exit(e) => e.s_effect,
            StaticInfluence::Constant(_) => SCALE,
        }
    }
}

/// The fixed-point distance (micro units) from `(x, y)` to the nearest
/// burning cell; one unit before anything burns.
pub open spec fn spec_dynamic_influence(f: Frontier, x: int, y: int) -> int {
    if f.is_empty() {
        SCALE as int
    } else {
        sqrt_floor(f.nearest_sq(x, y) * (SCALE as int) * (SCALE as int))
    }
}

/// The fire distance the ratio curve is fed: the nearest-cell distance, or
/// the half-unit fallback before anything burns.
pub open spec fn spec_fire_distance(f: Frontier, x: int, y: int) -> int {
    if f.is_empty() {
        sqrt_floor(500_000 * (SCALE as int))
    } else {
        sqrt_floor(f.nearest_sq(x, y) * (SCALE as int) * (SCALE as int))
    }
}

/// The dynamic influence of the fire: the distance to the closest burning
/// cell, scaled by an effect factor.
pub struct ClosestDistance(pub i64);

impl ClosestDistance {
    /// The square root of the squared distance to the nearest burning cell,
    /// in micro units; one unit when nothing burns yet.
    pub fn dynamic_influence(&self, loc: &Loc, front: &Frontier) -> (r: i64)
        requires
            front.wf(),
            front.width() <= DIM_CAP as int,
            forall|x: int, y: int| #[trigger] front.contains_point(x, y) ==> 0 <= y <= DIM_CAP,
            0 <= loc.0 <= DIM_CAP,
            0 <= loc.1 <= DIM_CAP,
        ensures
            r == spec_dynamic_influence(*front, loc.0 as int, loc.1 as int),
            0 <= r <= 2_000_000_000,
    {
        match front.closest_point(loc) {
            None => SCALE,
            Some(d2) => {
                proof {
                    let (x0, y0) = choose|x0: int, y0: int|
                        #[trigger] front.contains_point(x0, y0) && dist_sq(
                            loc.0 as int,
                            loc.1 as int,
                            x0,
                            y0,
                        ) == d2 as int;
                    front.lemma_contains_bounds(x0, y0);
                    assert(dist_sq(loc.0 as int, loc.1 as int, x0, y0) <= 2_880_000)
                        by (nonlinear_arith)
                        requires
                            0 <= x0 <= 1200,
                            0 <= y0 <= 1200,
                            0 <= loc.0 <= 1200,
                            0 <= loc.1 <= 1200,
                    ;
                    assert((d2 as i64) * SCALE == d2 as int * (SCALE as int));
                }
                let r = fix_sqrt((d2 as i64) * SCALE);
                proof {
                    assert(d2 as int * (SCALE as int) * (SCALE as int) == (d2 as i64 * SCALE) as int
                        * (SCALE as int)) by (nonlinear_arith)
                        requires
                            (d2 as i64 * SCALE) as int == d2 as int * (SCALE as int),
                    ;
                }
                r
            },
        }
    }

    /// The configured dynamic effect factor.
    pub fn get_dynamic_effect(&self) -> (r: i64)
        ensures
            r == self.0,
    {
        self.0
    }
}

impl Default for ClosestDistance {
    /// A neutral dynamic effect of one unit.
    fn default() -> (r: ClosestDistance)
        ensures
            r.0 == SCALE,
    {
        ClosestDistance(SCALE)
    }
}

/// Aspiration as a scaled logarithm of the burnt area.
pub struct LogAspManip(pub i64);

impl Default for LogAspManip {
    /// A unit factor.
    fn default() -> (r: LogAspManip)
        ensures
            r.0 == SCALE,
    {
        LogAspManip(SCALE)
    }
}

/// Aspiration as a scaled square root of the burnt area.
pub struct RootAsp(pub i64);

impl Default for RootAsp {
    /// A unit factor.
    fn default() -> (r: RootAsp)
        ensures
            r.0 == SCALE,
    {
        RootAsp(SCALE)
    }
}

/// The aspiration response to the cumulative burnt-cell count: a closed set
/// of monotone curves, selected by configuration.
pub enum AspirationStrategy {
    Log(LogAspManip),
    Root(RootAsp),
}

/// The aspiration level for a burnt-cell count, in micro units.
pub open spec fn asp_value(a: AspirationStrategy, n: int) -> int {
    match a {
        AspirationStrategy::Log(f) => mul_scaled(f.0 as int, ln1p_spec(n)),
        AspirationStrategy::Root(f) => mul_scaled(
            f.0 as int,
            sqrt_floor(n * (SCALE as int) * (SCALE as int)),
        ),
    }
}

impl AspirationStrategy {
    pub open spec fn wf(&self) -> bool {
        match self {
            AspirationStrategy::Log(f) => -CURVE_MAX <= f.0 <= CURVE_MAX,
            AspirationStrategy::Root(f) => -CURVE_MAX <= f.0 <= CURVE_MAX,
        }
    }

    /// The aspiration level for `numb_cells` burnt cells.
    pub fn calculate_asp(&self, numb_cells: usize) -> (r: i64)
        requires
            self.wf(),
            numb_cells <= FIRE_AREA_CAP,
        ensures
            r == asp_value(*self, numb_cells as int),
            -500_000_000_000 <= r <= 500_000_000_000,
    {
        match self {
            AspirationStrategy::Log(f) => {
                let l = fix_ln1p(numb_cells as u64);
                let r = fix_mul(f.0, l);
                proof {
                    lemma_mul_scaled_abs(f.0 as int, l as int, CURVE_MAX as int, 16_000_000);
                }
                r
            },
            AspirationStrategy::Root(f) => {
                let s = fix_sqrt((numb_cells as i64) * SCALE);
                proof {
                    assert((numb_cells as i64 * SCALE) as int * (SCALE as int) == numb_cells as int
                        * (SCALE as int) * (SCALE as int)) by (nonlinear_arith)
                        requires
                            (numb_cells as i64 * SCALE) as int == numb_cells as int * (
                            SCALE as int),
                    ;
                }
                let r = fix_mul(f.0, s);
                proof {
                    lemma_mul_scaled_abs(f.0 as int, s as int, CURVE_MAX as int, 2_000_000_000);
                }
                r
            },
        }
    }
}

/// The fire's influence state: the frontier index, the burnt-area counter,
/// and the configured response curves.
pub struct FireInfluence {
    /// The frontier index over the grid's columns.
    pub fire_state: Frontier,
    /// Cumulative number of burnt cells this run.
    pub fire_area: usize,
    /// Dynamic (fire-distance) influence configuration.
    pub movement: ClosestDistance,
    /// Aspiration curve.
    pub aspiration: AspirationStrategy,
    /// Ratio curve, feeding the payoff tuple.
    pub ratio: LerpStruct,
    /// Reward-baseline curve.
    pub reward_game: LerpStruct,
}

impl FireInfluence {
    pub open spec fn wf(&self) -> bool {
        &&& self.fire_state.wf()
        &&& self.fire_state.width() <= DIM_CAP as int
        &&& forall|x: int, y: int| #[trigger]
            self.fire_state.contains_point(x, y) ==> 0 <= y <= DIM_CAP
        &&& self.fire_area <= FIRE_AREA_CAP
        &&& -CURVE_MAX <= self.movement.0 <= CURVE_MAX
        &&& self.aspiration.wf()
        &&& self.ratio.wf()
        &&& self.reward_game.wf()
    }

    /// Forget all recorded fire, keeping the configuration.
    pub fn reset(&mut self)
        requires
            old(self).wf(),
        ensures
            final (self).wf(),
            final (self).fire_area == 0,
            final (self).fire_state.is_empty(),
            final (self).fire_state.width() == old(self).fire_state.width(),
            final (self).movement == old(self).movement,
            final (self).aspiration == old(self).aspiration,
            final (self).ratio == old(self).ratio,
            final (self).reward_game == old(self).reward_game,
    {
        self.fire_area = 0;
        self.fire_state.reset();
    }

    /// Record one newly burning cell: grow the burnt area and the frontier.
    pub fn on_step(&mut self, loc: &Loc)
        requires
            old(self).wf(),
            old(self).fire_area < FIRE_AREA_CAP,
            0 <= loc.1 <= DIM_CAP,
        ensures
            final (self).wf(),
            final (self).fire_area == old(self).fire_area + 1,
            forall|x: int, y: int|
                final (self).fire_state.contains_point(x, y) <==> (old(
                    self,
                ).fire_state.contains_point(x, y) || (0 <= loc.0 < old(self).fire_state.width()
                    && x == loc.0 && y == loc.1)),
            final (self).fire_state.width() == old(self).fire_state.width(),
            final (self).movement == old(self).movement,
            final (self).aspiration == old(self).aspiration,
            final (self).ratio == old(self).ratio,
            final (self).reward_game == old(self).reward_game,
    {
        self.fire_area = self.fire_area + 1;
        self.fire_state.update(loc);
    }

    /// The movement influence of the fire at `loc`: the nearest-fire
    /// distance scaled by the dynamic effect factor.
    pub fn get_movement_influence(&self, loc: &Loc) -> (r: i64)
        requires
            self.wf(),
            0 <= loc.0 <= DIM_CAP,
            0 <= loc.1 <= DIM_CAP,
        ensures
            r == mul_scaled(
                spec_dynamic_influence(self.fire_state, loc.0 as int, loc.1 as int),
                self.movement.0 as int,
            ),
            -500_000_000_000 <= r <= 500_000_000_000,
    {
        let d = self.movement.dynamic_influence(loc, &self.fire_state);
        let r = fix_mul(d, self.movement.0);
        proof {
            lemma_mul_scaled_abs(d as int, self.movement.0 as int, 2_000_000_000, CURVE_MAX as int);
        }
        r
    }

    /// The aspiration level for the current burnt area.
    pub fn calculate_aspiration(&self) -> (r: i64)
        requires
            self.wf(),
        ensures
            r == asp_value(self.aspiration, self.fire_area as int),
            -500_000_000_000 <= r <= 500_000_000_000,
    {
        self.aspiration.calculate_asp(self.fire_area)
    }

    /// The ratio curve at a fire distance.
    pub fn calculate_ratio(&self, dist: i64) -> (r: i64)
        requires
            self.wf(),
            -crate::fixed::FIX_MAX <= dist <= crate::fixed::FIX_MAX,
        ensures
            r == self.ratio.spec_eval(dist as int),
            -REWARD_ARG_MAX <= r <= REWARD_ARG_MAX,
    {
        self.ratio.eval(dist)
    }

    /// The reward-baseline curve at an exit distance.
    pub fn calculate_reward(&self, dist: i64) -> (r: i64)
        requires
            self.wf(),
            -crate::fixed::FIX_MAX <= dist <= crate::fixed::FIX_MAX,
        ensures
            r == self.reward_game.spec_eval(dist as int),
            -REWARD_ARG_MAX <= r <= REWARD_ARG_MAX,
    {
        self.reward_game.eval(dist)
    }

    /// The payoff tuple for `n` contenders at `point` with baseline
    /// `reward_b`: the ratio is taken at the distance to the nearest fire
    /// (at a half-unit fallback distance before anything burns).
    pub fn calculcate_rewards(&self, n: usize, point: &Loc, reward_b: i64) -> (r: RSTP)
        requires
            self.wf(),
            1 <= n <= 2_000_000,
            -REWARD_ARG_MAX <= reward_b <= REWARD_ARG_MAX,
            0 <= point.0 <= DIM_CAP,
            0 <= point.1 <= DIM_CAP,
        ensures
            (r.0 as int, r.1 as int, r.2 as int, r.3 as int) == strategy_rewards_spec(
                n as int,
                self.ratio.spec_eval(
                    spec_fire_distance(self.fire_state, point.0 as int, point.1 as int),
                ),
                reward_b as int,
            ),
            -crate::strategy::PAYOFF_MAX <= r.0 <= crate::strategy::PAYOFF_MAX,
            r.1 == 0,
            -crate::strategy::PAYOFF_MAX <= r.2 <= crate::strategy::PAYOFF_MAX,
            -crate::strategy::PAYOFF_MAX <= r.3 <= crate::strategy::PAYOFF_MAX,
    {
        let d: i64 = match self.fire_state.closest_point(point) {
            None => fix_sqrt(500_000),
            Some(d2) => {
                proof {
                    let (x0, y0) = choose|x0: int, y0: int|
                        #[trigger] self.fire_state.contains_point(x0, y0) && dist_sq(
                            point.0 as int,
                            point.1 as int,
                            x0,
                            y0,
                        ) == d2 as int;
                    self.fire_state.lemma_contains_bounds(x0, y0);
                    assert(dist_sq(point.0 as int, point.1 as int, x0, y0) <= 2_880_000)
                        by (nonlinear_arith)
                        requires
                            0 <= x0 <= 1200,
                            0 <= y0 <= 1200,
                            0 <= point.0 <= 1200,
                            0 <= point.1 <= 1200,
                    ;
                }
                let r = fix_sqrt((d2 as i64) * SCALE);
                proof {
                    assert(d2 as int * (SCALE as int) * (SCALE as int) == (d2 as i64 * SCALE) as int
                        * (SCALE as int)) by (nonlinear_arith)
                        requires
                            (d2 as i64 * SCALE) as int == d2 as int * (SCALE as int),
                    ;
                }
                r
            },
        };
        let r_t = self.calculate_ratio(d);
        strategy_rewards(n, r_t, reward_b)
    }
}

impl Default for FireInfluence {
    /// The default influence state: a frontier over the default grid width,
    /// a unit log aspiration, a unit dynamic effect, and linear ratio and
    /// reward curves over the default grid diagonal.
    fn default() -> (r: FireInfluence)
        ensures
            r.wf(),
            r.fire_area == 0,
            r.fire_state.is_empty(),
            r.fire_state.width() == crate::state::DEFAULT_WIDTH as int,
            r.movement.0 == SCALE,
            r.aspiration == AspirationStrategy::Log(LogAspManip(SCALE)),
    {
        let diag2: i64 = (crate::state::DEFAULT_HEIGHT * crate::state::DEFAULT_HEIGHT
            + crate::state::DEFAULT_WIDTH * crate::state::DEFAULT_WIDTH) as i64;
        assert(diag2 == 882);
        let mx_dist = fix_sqrt(diag2 * SCALE);
        proof {
            assert(mx_dist == sqrt_floor(882_000_000_000_000));
            crate::fixed::lemma_sqrt_floor(882_000_000_000_000);
            if mx_dist < 1 {
                assert((sqrt_floor(882_000_000_000_000) + 1) * (sqrt_floor(882_000_000_000_000) + 1)
                    == 1) by (nonlinear_arith)
                    requires
                        sqrt_floor(882_000_000_000_000) == 0,
                ;
            }
            assert(mx_dist >= 1);
        }
        FireInfluence {
            fire_area: 0,
            movement: ClosestDistance(SCALE),
            aspiration: AspirationStrategy::Log(LogAspManip(SCALE)),
            ratio: LerpStruct::new(0, mx_dist, 0, MAX_REWARD, SCALE, Equation::Linear),
            reward_game: LerpStruct::new(0, mx_dist, MAX_REWARD, 0, SCALE, Equation::Linear),
            fire_state: Frontier::new(crate::state::DEFAULT_WIDTH as usize),
        }
    }
}

} // verus!
