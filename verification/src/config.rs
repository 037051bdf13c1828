//! Run configuration: the closed sets of handler variants a run can be
//! built from, and their conversion into the kernel's state. Reading the
//! configuration from disk is a caller's concern; this module takes plain
//! values and validates them, rejecting anything malformed before a run
//! starts.

use crate::curves::{Equation, LerpStruct, CURVE_MAX};
use crate::escape::TimeEscape;
use crate::fire::CellType;
use crate::fixed::{fix_sqrt, lemma_sqrt_floor, SCALE};
use crate::frontier::Frontier;
use crate::influence::{
    AspirationStrategy, ClosestDistance, ExitInfluence, FireInfluence, LogAspManip, RootAsp,
    StaticInfluence, MAX_REWARD,
};
use crate::misc::{Loc, DIM_CAP};
use crate::rng::SimRng;
use crate::state::{
    count_fire_upto, lemma_cell_index_bounds, lemma_count_fire_empty, CellGrid, InitialConfig,
    OutputVariables, SimError, SimType,
};
use crate::strategy::EvacueeCell;
use vstd::prelude::*;

verus! {

/// The frontier structure a run uses.
#[derive(Debug, Clone, Copy, PartialEq, Eq, Structural)]
pub enum FrontierInput {
    VecTree,
}

/// The dynamic-influence variant: nearest-fire distance with an optional
/// effect factor (drawn when absent).
#[derive(Debug, Clone, Copy)]
pub enum MovementInput {
    ClosestDistance(Option<i64>),
}

/// The aspiration-curve variant, each with an optional factor.
#[derive(Debug, Clone, Copy)]
pub enum AspirationInput {
    LogAspiration(Option<i64>),
    RootAspiration(Option<i64>),
}

/// A response-curve configuration: an optional factor and an easing
/// equation.
#[derive(Debug, Clone, Copy)]
pub struct LerpInput {
    pub influence: Option<i64>,
    pub equation: Equation,
}

/// The ratio curve's configuration.
#[derive(Debug, Clone, Copy)]
pub struct RatioInput(pub LerpInput);

/// The reward-baseline curve's configuration.
#[derive(Debug, Clone, Copy)]
pub struct RewardGameInput(pub LerpInput);

/// The whole fire-influence configuration.
#[derive(Debug, Clone, Copy)]
pub struct FireInput {
    pub frontier: Option<FrontierInput>,
    pub movement: MovementInput,
    pub aspiration: AspirationInput,
    pub ratio: RatioInput,
    pub reward_game: RewardGameInput,
}

/// The escape-handler variant.
#[derive(Debug, Clone, Copy, PartialEq, Eq, Structural)]
pub enum EscapeInput {
    TimeTracker,
}

/// The death-handler variant.
#[derive(Debug, Clone, Copy, PartialEq, Eq, Structural)]
pub enum DeathInput {
    AnnounceInput,
}

/// The static-influence variant: distance to the exit with an optional
/// effect factor.
#[derive(Debug, Clone, Copy)]
pub enum StaticInput {
    ClosestToExit(Option<i64>),
}

/// The run's initial placement and parameters.
#[derive(Debug, Clone)]
pub struct Setup {
    pub map_seed: Option<u64>,
    pub initial_fire: Option<(i32, i32)>,
    pub initial_evac: Option<Vec<EvacueeCell>>,
    pub evac_number: Option<usize>,
    pub fire_spread: Option<i64>,
    pub lc: Option<i64>,
    pub ld: Option<i64>,
}

/// One whole run configuration.
pub struct ImportImproved {
    pub dim: (u32, u32),
    pub sim_type: SimType,
    pub param_seed: Option<u64>,
    pub setup: Setup,
    pub fire: FireInput,
    pub escape: EscapeInput,
    pub death: DeathInput,
    pub static_input: StaticInput,
}

/// Whether an optional configured factor is absent or within curve range.
pub open spec fn factor_ok(v: Option<i64>) -> bool {
    v is None || -CURVE_MAX <= v->0 <= CURVE_MAX
}

/// A configured factor, or a drawn one; anything out of curve range is
/// rejected.
fn factor_or_draw(v: Option<i64>, rng: &mut SimRng) -> (r: Result<i64, SimError>)
    ensures
        r matches Ok(f) ==> -CURVE_MAX <= f <= CURVE_MAX,
        r is Ok <==> factor_ok(v),
        v matches Some(cf) ==> (factor_ok(v) ==> r == Ok::<i64, SimError>(cf)),
{
    match v {
        Some(f) => {
            if -CURVE_MAX <= f && f <= CURVE_MAX {
                Ok(f)
            } else {
                Err(SimError::InvalidConfig)
            }
        },
        None => Ok(rng.gen_micro()),
    }
}

impl FrontierInput {
    /// The frontier index for a grid of `width` columns.
    pub fn to_struct(&self, width: usize) -> (r: Result<Frontier, SimError>)
        ensures
            r matches Ok(f) ==> f.wf() && f.width() == width && f.is_empty(),
            r is Ok <==> width <= crate::misc::COORD_MAX,
    {
        if width > crate::misc::COORD_MAX as usize {
            return Err(SimError::InvalidConfig);
        }
        match self {
            FrontierInput::VecTree => Ok(Frontier::new(width)),
        }
    }
}

impl MovementInput {
    /// The dynamic-influence handler.
    pub fn to_struct(&self, rng: &mut SimRng) -> (r: Result<ClosestDistance, SimError>)
        ensures
            r matches Ok(m) ==> -CURVE_MAX <= m.0 <= CURVE_MAX,
            r is Ok <==> (*self matches MovementInput::ClosestDistance(e) && factor_ok(e)),
            *self matches MovementInput::ClosestDistance(Some(f)) ==> (-CURVE_MAX <= f
                <= CURVE_MAX ==> (r matches Ok(m) && m.0 == f)),
    {
        match self {
            MovementInput::ClosestDistance(e) => {
                let f = factor_or_draw(*e, rng)?;
                Ok(ClosestDistance(f))
            },
        }
    }
}

impl AspirationInput {
    /// The aspiration curve.
    pub fn to_struct(&self, rng: &mut SimRng) -> (r: Result<AspirationStrategy, SimError>)
        ensures
            r matches Ok(a) ==> a.wf(),
            r is Ok <==> ((*self matches AspirationInput::LogAspiration(e) && factor_ok(e)) || (
            *self matches AspirationInput::RootAspiration(e) && factor_ok(e))),
            *self matches AspirationInput::LogAspiration(Some(f)) ==> (-CURVE_MAX <= f
                <= CURVE_MAX ==> r == Ok::<AspirationStrategy, SimError>(
                AspirationStrategy::Log(LogAspManip(f)),
            )),
            *self matches AspirationInput::RootAspiration(Some(f)) ==> (-CURVE_MAX <= f
                <= CURVE_MAX ==> r == Ok::<AspirationStrategy, SimError>(
                AspirationStrategy::Root(RootAsp(f)),
            )),
    {
        match self {
            AspirationInput::LogAspiration(e) => {
                let f = factor_or_draw(*e, rng)?;
                Ok(AspirationStrategy::Log(LogAspManip(f)))
            },
            AspirationInput::RootAspiration(e) => {
                let f = factor_or_draw(*e, rng)?;
                Ok(AspirationStrategy::Root(RootAsp(f)))
            },
        }
    }
}

impl RatioInput {
    /// The ratio curve, rising from zero to the reward ceiling over the
    /// distance range `[0, max_d]`.
    pub fn to_struct(&self, rng: &mut SimRng, max_d: i64) -> (r: Result<LerpStruct, SimError>)
        requires
            1 <= max_d <= crate::fixed::FIX_MAX,
        ensures
            r matches Ok(c) ==> c.wf(),
            r is Ok <==> factor_ok(self.0.influence),
    {
        let f = factor_or_draw(self.0.influence, rng)?;
        Ok(LerpStruct::new(0, max_d, 0, MAX_REWARD, f, self.0.equation))
    }
}

impl RewardGameInput {
    /// The reward-baseline curve, falling from the reward ceiling to zero
    /// over the distance range `[0, max_d]`.
    pub fn to_struct(&self, rng: &mut SimRng, max_d: i64) -> (r: Result<LerpStruct, SimError>)
        requires
            1 <= max_d <= crate::fixed::FIX_MAX,
        ensures
            r matches Ok(c) ==> c.wf(),
            r is Ok <==> factor_ok(self.0.influence),
    {
        let f = factor_or_draw(self.0.influence, rng)?;
        Ok(LerpStruct::new(0, max_d, MAX_REWARD, 0, f, self.0.equation))
    }
}

impl FireInput {
    /// The whole fire-influence state for a `w` by `h` grid, with the
    /// curves ranged over the grid diagonal.
    pub fn to_struct(&self, rng: &mut SimRng, w: usize, h: usize) -> (r: Result<
        FireInfluence,
        SimError,
    >)
        requires
            1 <= w <= DIM_CAP,
            1 <= h <= DIM_CAP,
        ensures
            r matches Ok(f) ==> f.wf() && f.fire_area == 0 && f.fire_state.is_empty()
                && f.fire_state.width() == w,
            r is Ok <==> ((self.movement matches MovementInput::ClosestDistance(e) && factor_ok(e))
                && (match self.aspiration {
                AspirationInput::LogAspiration(e) => factor_ok(e),
                AspirationInput::RootAspiration(e) => factor_ok(e),
            }) && factor_ok(self.ratio.0.influence) && factor_ok(self.reward_game.0.influence)),
    {
        assert(w * w + h * h <= 2_880_000) by (nonlinear_arith)
            requires
                1 <= w <= 1200,
                1 <= h <= 1200,
        ;
        assert(w * w >= 1 && h * h >= 1) by (nonlinear_arith)
            requires
                1 <= w,
                1 <= h,
        ;
        let diag2: i64 = (w * w + h * h) as i64;
        let arg: i64 = diag2 * SCALE;
        let max_d = fix_sqrt(arg);
        proof {
            let n = arg as int * (SCALE as int);
            lemma_sqrt_floor(n);
            assert(n >= 2_000_000) by (nonlinear_arith)
                requires
                    n == arg as int * 1_000_000,
                    arg >= 2,
            ;
            if max_d < 1 {
                assert((sqrt_of(n) + 1) * (sqrt_of(n) + 1) == 1) by (nonlinear_arith)
                    requires
                        sqrt_of(n) == 0,
                ;
            }
            assert(1 <= max_d);
        }
        let fire_state = match self.frontier {
            Some(fi) => fi.to_struct(w)?,
            None => {
                if w > crate::misc::COORD_MAX as usize {
                    return Err(SimError::InvalidConfig);
                }
                Frontier::new(w)
            },
        };
        let movement = self.movement.to_struct(rng)?;
        let aspiration = self.aspiration.to_struct(rng)?;
        let ratio = self.ratio.to_struct(rng, max_d)?;
        let reward_game = self.reward_game.to_struct(rng, max_d)?;
        Ok(FireInfluence { fire_state, fire_area: 0, movement, aspiration, ratio, reward_game })
    }
}

impl Setup {
    /// The initial configuration for a `w` by `h` grid; a missing evacuee
    /// count defaults to 8.5% of the cells.
    pub fn to_struct(&self, w: usize, h: usize) -> (r: InitialConfig)
        requires
            1 <= w <= DIM_CAP,
            1 <= h <= DIM_CAP,
        ensures
            r.initial_grid == self.initial_fire,
            r.map_seed == self.map_seed,
            r.fire_spread == self.fire_spread,
            r.lc == self.lc,
            r.ld == self.ld,
            self.evac_number matches Some(n) ==> r.evac_num == n,
            self.evac_number is None ==> r.evac_num == (w * h * 85) as int / 1000,
            self.initial_evac is None ==> r.initial_evac_grid is None,
            self.initial_evac matches Some(v) ==> (r.initial_evac_grid matches Some(c) && c@
                == v@),
    {
        assert(w * h <= 1_440_000) by (nonlinear_arith)
            requires
                1 <= w <= 1200,
                1 <= h <= 1200,
        ;
        let evac_num: usize = match self.evac_number {
            Some(n) => n,
            None => (w * h * 85) / 1000,
        };
        let initial_evac_grid: Option<Vec<EvacueeCell>> = match &self.initial_evac {
            None => None,
            Some(v) => {
                let n = v.len();
                let mut c: Vec<EvacueeCell> = Vec::new();
                let mut i: usize = 0;
                while i < n
                    invariant
                        i <= n,
                        n == v@.len(),
                        c@ == v@.subrange(0, i as int),
                    decreases n - i,
                {
                    c.push(v[i]);
                    proof {
                        assert(v@.subrange(0, i as int + 1) == v@.subrange(0, i as int).push(
                            v@[i as int],
                        ));
                    }
                    i = i + 1;
                }
                Some(c)
            },
        };
        InitialConfig {
            initial_grid: self.initial_fire,
            initial_evac_grid,
            evac_num,
            map_seed: self.map_seed,
            lc: self.lc,
            ld: self.ld,
            fire_spread: self.fire_spread,
        }
    }
}

impl EscapeInput {
    /// The escape handler for a given exit cell.
    pub fn to_struct(&self, exit: Loc) -> (r: TimeEscape)
        ensures
            r.exit == exit,
            r.escaped_evac@.len() == 0,
    {
        match self {
            EscapeInput::TimeTracker => TimeEscape { escaped_evac: Vec::new(), exit },
        }
    }
}

impl DeathInput {
    /// The death handler.
    pub fn to_struct(&self) -> (r: crate::escape::Announcer)
        ensures
            r.spec_dead() == 0,
    {
        match self {
            DeathInput::AnnounceInput => crate::escape::Announcer::default(),
        }
    }
}

impl StaticInput {
    /// The static-influence handler for a given exit cell.
    pub fn to_struct(&self, rng: &mut SimRng, exit: &Loc) -> (r: Result<StaticInfluence, SimError>)
        requires
            0 <= exit.0 <= DIM_CAP,
            0 <= exit.1 <= DIM_CAP,
        ensures
            r matches Ok(s) ==> s.wf(),
            r is Ok <==> (*self matches StaticInput::ClosestToExit(e) && factor_ok(e)),
    {
        match self {
            StaticInput::ClosestToExit(e) => {
                let f = factor_or_draw(*e, rng)?;
                Ok(StaticInfluence::Exit(ExitInfluence::new(f, exit)))
            },
        }
    }
}

/// Shorthand for the square-root spec used in this module's proofs.
pub open spec fn sqrt_of(n: int) -> int {
    crate::fixed::sqrt_floor(n)
}

impl ImportImproved {
    /// Assemble a fresh, well-formed simulation state from this
    /// configuration, rejecting out-of-range dimensions and parameters.
    /// The exit sits at the middle of the wall just below the room.
    pub fn to_struct(&self, rng: &mut SimRng) -> (r: Result<CellGrid, SimError>)
        ensures
            r matches Ok(g) ==> {
                &&& g.wf()
                &&& g.step == 0
                &&& g.dim == self.dim
                &&& g.escape_handler.escaped_evac@.len() == 0
                &&& g.death_handler.spec_dead() == 0
                &&& forall|i: int| 0 <= i < g.grid@.len() ==> g.grid@[i] is Empty
                &&& forall|i: int| 0 <= i < g.evac_grid@.len() ==> g.evac_grid@[i] is None
            },
            r is Ok <==> (1 <= self.dim.0 <= DIM_CAP as u32 && 1 <= self.dim.1 <= DIM_CAP as u32
                && (self.fire.movement matches MovementInput::ClosestDistance(e) && factor_ok(e))
                && (match self.fire.aspiration {
                AspirationInput::LogAspiration(e) => factor_ok(e),
                AspirationInput::RootAspiration(e) => factor_ok(e),
            }) && factor_ok(self.fire.ratio.0.influence) && factor_ok(
                self.fire.reward_game.0.influence,
            ) && (self.static_input matches StaticInput::ClosestToExit(e) && factor_ok(e))),
            r matches Ok(g) ==> {
                &&& g.initial_config.initial_grid == self.setup.initial_fire
                &&& g.initial_config.map_seed == self.setup.map_seed
                &&& g.initial_config.fire_spread == self.setup.fire_spread
                &&& g.initial_config.lc == self.setup.lc
                &&& g.initial_config.ld == self.setup.ld
                &&& (self.setup.evac_number matches Some(n) ==> g.initial_config.evac_num == n)
                &&& (self.setup.initial_evac is None ==> g.initial_config.initial_evac_grid
                    is None)
                &&& (self.setup.initial_evac matches Some(v)
                    ==> g.initial_config.initial_evac_grid matches Some(c) && c@ == v@)
                &&& g.param_seed == self.param_seed
                &&& g.simulation_type == self.sim_type
            },
    {
        let (w32, h32) = self.dim;
        if !(1 <= w32 && w32 <= DIM_CAP as u32 && 1 <= h32 && h32 <= DIM_CAP as u32) {
            return Err(SimError::InvalidConfig);
        }
        let w: usize = w32 as usize;
        let h: usize = h32 as usize;
        let exit = Loc((w32 / 2) as i32, h32 as i32);
        let fire_influence = self.fire.to_struct(rng, w, h)?;
        let escape_handler = self.escape.to_struct(exit);
        let death_handler = self.death.to_struct();
        let static_influence = self.static_input.to_struct(rng, &exit)?;
        let initial_config = self.setup.to_struct(w, h);
        assert(w * h <= 1_440_000) by (nonlinear_arith)
            requires
                1 <= w <= 1200,
                1 <= h <= 1200,
        ;
        let cells = w * h;
        let grid = crate::state::fill_empty_grid(cells);
        let evac_grid = crate::state::fill_none_grid(cells);
        let g = CellGrid {
            simulation_type: self.sim_type,
            iteration: 0,
            step: 0,
            param_seed: self.param_seed,
            grid,
            evac_grid,
            dim: self.dim,
            initial_config,
            fire_influence,
            escape_handler,
            death_handler,
            static_influence,
            output_vars: OutputVariables {
                per_case_ratio_1: 0,
                per_case_ratio_2: 0,
                per_case_ratio_3: 0,
            },
        };
        proof {
            lemma_count_fire_empty(g.grid@, g.cells());
            assert forall|x: int, y: int| #[trigger]
                g.fire_influence.fire_state.contains_point(x, y) <==> (0 <= x < g.w() && 0 <= y
                    < g.h() && g.grid@[x * g.h() + y] is Fire) by {
                assert(!g.fire_influence.fire_state.contains_point(x, y));
                if 0 <= x < g.w() && 0 <= y < g.h() {
                    lemma_cell_index_bounds(x, y, g.w(), g.h());
                    assert(g.grid@[x * g.h() + y] is Empty);
                }
            }
            assert(g.wf());
        }
        Ok(g)
    }
}

} // verus!
