//! The tick orchestrator: the fire and evacuee grids, the influence model,
//! escape and death bookkeeping, and the per-tick passes (fire spread, then
//! movement resolution, then termination checks).
//!
//! Grids are dense vectors in column-major order: the cell `(x, y)` lives at
//! index `x * height + y`. Every pass reads a pre-tick snapshot and commits
//! its writes afterwards, so updates within a tick are simultaneous.

use crate::escape::{Announcer, TimeEscape};
use crate::evacuee::{evacuee_probs_ok, EvacueeAgent};
use crate::fire::CellType;
use crate::influence::{FireInfluence, StaticInfluence};
use crate::fixed::SCALE;
use crate::misc::{within_bounds, Loc, DIM_CAP};
use crate::rng::SimRng;
use crate::strategy::EvacueeCell;
use vstd::prelude::*;

verus! {

/// Default height of the room.
pub const DEFAULT_HEIGHT: u32 = 21;

/// Default width of the room.
pub const DEFAULT_WIDTH: u32 = 21;

/// Whether a run ends when everyone is accounted for or when the grid has
/// burned down.
#[derive(Debug, Clone, Copy, PartialEq, Eq, Structural)]
pub enum SimType {
    Flow,
    Total,
}

/// A fatal error: a malformed configuration before the run, or a broken
/// internal invariant during a tick; either way the run is aborted.
#[derive(Debug, Clone, Copy, PartialEq, Eq, Structural)]
pub enum SimError {
    InvalidConfig,
    InvariantViolation,
}

/// The initial configuration of one run.
#[derive(Debug, Default, Clone)]
pub struct InitialConfig {
    /// The fire seed; drawn on the bottom row when absent.
    pub initial_grid: Option<(i32, i32)>,
    /// A fixed evacuee layout; randomized placement when absent.
    pub initial_evac_grid: Option<Vec<EvacueeCell>>,
    /// The number of evacuees.
    pub evac_num: usize,
    /// A separate seed for map generation.
    pub map_seed: Option<u64>,
    /// Learning rate for the cooperative strategy, in micro units.
    pub lc: Option<i64>,
    /// Learning rate for the competitive strategy, in micro units.
    pub ld: Option<i64>,
    /// Fire spread rate, in micro units.
    pub fire_spread: Option<i64>,
}

/// Counters of the three game cases, accumulated over a run.
#[derive(Debug, Default, Clone, Copy)]
pub struct OutputVariables {
    pub per_case_ratio_1: u64,
    pub per_case_ratio_2: u64,
    pub per_case_ratio_3: u64,
}

/// Every occupied entry of an evacuee grid holds an evacuee sitting at that
/// very cell, inside the grid, with well-formed probabilities.
pub open spec fn evac_grid_coherent(g: Seq<Option<EvacueeCell>>, w: int, h: int) -> bool {
    forall|i: int|
        0 <= i < g.len() && (#[trigger] g[i]) is Some ==> {
            let e = g[i]->0;
            &&& 0 <= e.x < w
            &&& 0 <= e.y < h
            &&& i == e.x * h + e.y
            &&& evacuee_probs_ok(e)
        }
}

/// The total number of contenders across a list of contested destinations.
pub open spec fn sum_groups(s: Seq<(Loc, Vec<EvacueeCell>)>, k: int) -> int
    decreases k,
{
    if k <= 0 {
        0
    } else {
        sum_groups(s, k - 1) + s[k - 1].1@.len()
    }
}

/// Group sums only read entries below their index.
pub proof fn lemma_sum_groups_agree(
    s1: Seq<(Loc, Vec<EvacueeCell>)>,
    s2: Seq<(Loc, Vec<EvacueeCell>)>,
    k: int,
)
    requires
        0 <= k <= s1.len(),
        k <= s2.len(),
        forall|i: int| 0 <= i < k ==> s1[i] == s2[i],
    ensures
        sum_groups(s1, k) == sum_groups(s2, k),
    decreases k,
{
    if k > 0 {
        lemma_sum_groups_agree(s1, s2, k - 1);
    }
}

/// Updating one group shifts the total by the length difference.
pub proof fn lemma_sum_groups_update(
    s: Seq<(Loc, Vec<EvacueeCell>)>,
    j: int,
    v: (Loc, Vec<EvacueeCell>),
    k: int,
)
    requires
        0 <= j < s.len(),
        j < k <= s.len(),
    ensures
        sum_groups(s.update(j, v), k) == sum_groups(s, k) - s[j].1@.len() + v.1@.len(),
    decreases k,
{
    if k - 1 == j {
        lemma_sum_groups_agree(s.update(j, v), s, j);
    } else {
        lemma_sum_groups_update(s, j, v, k - 1);
    }
}

/// Group sums are nonnegative, and each group is counted in full.
pub proof fn lemma_sum_groups_member(s: Seq<(Loc, Vec<EvacueeCell>)>, j: int, k: int)
    requires
        0 <= j < k <= s.len(),
    ensures
        s[j].1@.len() <= sum_groups(s, k),
        0 <= sum_groups(s, k),
    decreases k,
{
    lemma_sum_groups_nonneg(s, j);
    if k - 1 > j {
        lemma_sum_groups_member(s, j, k - 1);
    }
}

/// A group sum is at least zero.
pub proof fn lemma_sum_groups_nonneg(s: Seq<(Loc, Vec<EvacueeCell>)>, k: int)
    requires
        0 <= k <= s.len(),
    ensures
        0 <= sum_groups(s, k),
    decreases k,
{
    if k > 0 {
        lemma_sum_groups_nonneg(s, k - 1);
    }
}

/// An alive count is between zero and its index.
pub proof fn lemma_count_alive_bounds(s: Seq<Option<EvacueeCell>>, k: int)
    requires
        0 <= k <= s.len(),
    ensures
        0 <= count_alive_upto(s, k) <= k,
    decreases k,
{
    if k > 0 {
        lemma_count_alive_bounds(s, k - 1);
    }
}

/// Whether the cell `(x, y)` of a column-major fire grid burns.
pub open spec fn fire_at(g: Seq<CellType>, h: int, x: int, y: int) -> bool {
    g[x * h + y] is Fire
}

/// Whether some Moore neighbor of `(x, y)` burns in a `w` by `h` grid.
pub open spec fn has_burning_neighbor(g: Seq<CellType>, w: int, h: int, x: int, y: int) -> bool {
    exists|nx: int, ny: int|
        0 <= nx < w && 0 <= ny < h && x - 1 <= nx <= x + 1 && y - 1 <= ny <= y + 1 && !(nx == x
            && ny == y) && #[trigger] fire_at(g, h, nx, ny)
}

/// One burning seed at column `x0` of the bottom row, everything else
/// empty.
pub open spec fn single_seed_on_bottom_row(g: Seq<CellType>, w: int, h: int, x0: int) -> bool {
    &&& 0 <= x0 < w
    &&& forall|i: int|
        0 <= i < g.len() ==> #[trigger] g[i] == (if i == x0 * h {
            CellType::Fire
        } else {
            CellType::Empty
        })
}

/// A configured evacuee layout is placeable: every entry in bounds with
/// well-formed probabilities, off the fire seed, on pairwise distinct
/// cells.
pub open spec fn layout_valid(v: Seq<EvacueeCell>, w: int, h: int, fire_idx: int) -> bool {
    &&& forall|j: int|
        0 <= j < v.len() ==> {
            let e = #[trigger] v[j];
            &&& 0 <= e.x < w
            &&& 0 <= e.y < h
            &&& evacuee_probs_ok(e)
            &&& e.x * h + e.y != fire_idx
        }
    &&& forall|j1: int, j2: int|
        0 <= j1 < j2 < v.len() ==> (#[trigger] v[j1]).x * h + v[j1].y != (#[trigger] v[j2]).x * h
            + v[j2].y
}

/// The number of cells below `k` whose occupant sits on a burning cell.
pub open spec fn count_dead_upto(eg: Seq<Option<EvacueeCell>>, g: Seq<CellType>, k: int) -> int
    decreases k,
{
    if k <= 0 {
        0
    } else {
        count_dead_upto(eg, g, k - 1) + (if eg[k - 1] is Some && g[k - 1] is Fire {
            1int
        } else {
            0int
        })
    }
}

/// One if `(nx, ny)` is an in-bounds burning cell, else zero.
pub open spec fn nb_fire(g: Seq<CellType>, w: int, h: int, nx: int, ny: int) -> int {
    if 0 <= nx < w && 0 <= ny < h && g[nx * h + ny] is Fire {
        1
    } else {
        0
    }
}

/// The number of burning Moore neighbors of `(x, y)`, in probe order.
pub open spec fn moore_fire_count(g: Seq<CellType>, w: int, h: int, x: int, y: int) -> int {
    nb_fire(g, w, h, x - 1, y - 1) + nb_fire(g, w, h, x - 1, y) + nb_fire(g, w, h, x - 1, y + 1)
        + nb_fire(g, w, h, x, y - 1) + nb_fire(g, w, h, x, y + 1) + nb_fire(
        g,
        w,
        h,
        x + 1,
        y - 1,
    ) + nb_fire(g, w, h, x + 1, y) + nb_fire(g, w, h, x + 1, y + 1)
}

/// The number of cells below `k` that are neither the fire seed nor
/// occupied: the cells still open for placement.
pub open spec fn count_free_upto(g: Seq<Option<EvacueeCell>>, fire_idx: int, k: int) -> int
    decreases k,
{
    if k <= 0 {
        0
    } else {
        count_free_upto(g, fire_idx, k - 1) + (if k - 1 != fire_idx && g[k - 1] is None {
            1int
        } else {
            0int
        })
    }
}

/// Free counts only read entries below their index.
pub proof fn lemma_count_free_agree(
    s1: Seq<Option<EvacueeCell>>,
    s2: Seq<Option<EvacueeCell>>,
    fire_idx: int,
    k: int,
)
    requires
        0 <= k <= s1.len(),
        k <= s2.len(),
        forall|i: int| 0 <= i < k ==> s1[i] == s2[i],
    ensures
        count_free_upto(s1, fire_idx, k) == count_free_upto(s2, fire_idx, k),
    decreases k,
{
    if k > 0 {
        lemma_count_free_agree(s1, s2, fire_idx, k - 1);
    }
}

/// Every cell below `k` is free, occupied, or the (unoccupied) fire seed.
pub proof fn lemma_free_alive_partition(g: Seq<Option<EvacueeCell>>, fire_idx: int, k: int)
    requires
        0 <= k <= g.len(),
    ensures
        count_free_upto(g, fire_idx, k) + count_alive_upto(g, k) + (if 0 <= fire_idx < k
            && g[fire_idx] is None {
            1int
        } else {
            0int
        }) == k,
    decreases k,
{
    if k > 0 {
        lemma_free_alive_partition(g, fire_idx, k - 1);
    }
}

/// The number of `Fire` cells among the first `k` entries of a fire grid.
pub open spec fn count_fire_upto(g: Seq<CellType>, k: int) -> int
    decreases k,
{
    if k <= 0 {
        0
    } else {
        count_fire_upto(g, k - 1) + (if g[k - 1] is Fire {
            1int
        } else {
            0int
        })
    }
}

/// The number of occupied cells among the first `k` entries of an evacuee
/// grid.
pub open spec fn count_alive_upto(g: Seq<Option<EvacueeCell>>, k: int) -> int
    decreases k,
{
    if k <= 0 {
        0
    } else {
        count_alive_upto(g, k - 1) + (if g[k - 1] is Some {
            1int
        } else {
            0int
        })
    }
}

/// Fire counts only read entries below their index.
pub proof fn lemma_count_fire_agree(s1: Seq<CellType>, s2: Seq<CellType>, k: int)
    requires
        0 <= k <= s1.len(),
        k <= s2.len(),
        forall|i: int| 0 <= i < k ==> s1[i] == s2[i],
    ensures
        count_fire_upto(s1, k) == count_fire_upto(s2, k),
    decreases k,
{
    if k > 0 {
        lemma_count_fire_agree(s1, s2, k - 1);
    }
}

/// Alive counts only read entries below their index.
pub proof fn lemma_count_alive_agree(
    s1: Seq<Option<EvacueeCell>>,
    s2: Seq<Option<EvacueeCell>>,
    k: int,
)
    requires
        0 <= k <= s1.len(),
        k <= s2.len(),
        forall|i: int| 0 <= i < k ==> s1[i] == s2[i],
    ensures
        count_alive_upto(s1, k) == count_alive_upto(s2, k),
    decreases k,
{
    if k > 0 {
        lemma_count_alive_agree(s1, s2, k - 1);
    }
}

/// A fire count is between zero and its index.
pub proof fn lemma_count_fire_bounds(s: Seq<CellType>, k: int)
    requires
        0 <= k <= s.len(),
    ensures
        0 <= count_fire_upto(s, k) <= k,
    decreases k,
{
    if k > 0 {
        lemma_count_fire_bounds(s, k - 1);
    }
}

/// A full fire count means every cell burns.
pub proof fn lemma_count_fire_full(s: Seq<CellType>, k: int)
    requires
        0 <= k <= s.len(),
        count_fire_upto(s, k) == k,
    ensures
        forall|i: int| 0 <= i < k ==> s[i] is Fire,
    decreases k,
{
    if k > 0 {
        lemma_count_fire_bounds(s, k - 1);
        lemma_count_fire_full(s, k - 1);
    }
}

/// Updating one entry shifts the fire count by the difference of the old
/// and new state.
pub proof fn lemma_count_fire_update(s: Seq<CellType>, i: int, v: CellType, k: int)
    requires
        0 <= i < s.len(),
        i < k <= s.len(),
    ensures
        count_fire_upto(s.update(i, v), k) == count_fire_upto(s, k) - (if s[i] is Fire {
            1int
        } else {
            0int
        }) + (if v is Fire {
            1int
        } else {
            0int
        }),
    decreases k,
{
    if k - 1 == i {
        lemma_count_fire_agree(s.update(i, v), s, i);
    } else {
        lemma_count_fire_update(s, i, v, k - 1);
    }
}

/// Distinct cells have distinct column-major indices.
pub proof fn lemma_cell_index_inj(x1: int, y1: int, x2: int, y2: int, h: int)
    requires
        0 <= y1 < h,
        0 <= y2 < h,
        x1 * h + y1 == x2 * h + y2,
    ensures
        x1 == x2,
        y1 == y2,
{
    assert(x1 == x2 && y1 == y2) by (nonlinear_arith)
        requires
            0 <= y1 < h,
            0 <= y2 < h,
            x1 * h + y1 == x2 * h + y2,
    ;
}

/// Updating one entry shifts the alive count by the difference of the old
/// and new occupancy.
pub proof fn lemma_count_alive_update(
    s: Seq<Option<EvacueeCell>>,
    i: int,
    v: Option<EvacueeCell>,
    k: int,
)
    requires
        0 <= i < s.len(),
        i < k <= s.len(),
    ensures
        count_alive_upto(s.update(i, v), k) == count_alive_upto(s, k) - (if s[i] is Some {
            1int
        } else {
            0int
        }) + (if v is Some {
            1int
        } else {
            0int
        }),
    decreases k,
{
    if k - 1 == i {
        lemma_count_alive_agree(s.update(i, v), s, i);
    } else {
        lemma_count_alive_update(s, i, v, k - 1);
    }
}

/// The grid in which the simulation runs: the fire field, the evacuee
/// field, their handlers, and the run bookkeeping.
pub struct CellGrid {
    pub simulation_type: SimType,
    pub iteration: u16,
    pub step: u64,
    pub param_seed: Option<u64>,
    /// Fire field, column-major.
    pub grid: Vec<CellType>,
    /// Evacuee field, column-major; at most one evacuee per cell.
    pub evac_grid: Vec<Option<EvacueeCell>>,
    /// Width and height.
    pub dim: (u32, u32),
    pub initial_config: InitialConfig,
    pub fire_influence: FireInfluence,
    pub escape_handler: TimeEscape,
    pub death_handler: Announcer,
    pub static_influence: StaticInfluence,
    pub output_vars: OutputVariables,
}

impl CellGrid {
    pub open spec fn w(&self) -> int {
        self.dim.0 as int
    }

    pub open spec fn h(&self) -> int {
        self.dim.1 as int
    }

    pub open spec fn cells(&self) -> int {
        self.w() * self.h()
    }

    /// The grid index of the cell `(x, y)`.
    pub open spec fn idx_of(&self, x: int, y: int) -> int {
        x * self.h() + y
    }

    /// The frontier records exactly the burning cells.
    pub open spec fn frontier_matches(&self) -> bool {
        forall|x: int, y: int|
            #[trigger] self.fire_influence.fire_state.contains_point(x, y) <==> (0 <= x < self.w()
                && 0 <= y < self.h() && self.grid@[x * self.h() + y] is Fire)
    }

    /// Every evacuee on the grid sits at its own cell, inside the grid, with
    /// well-formed probabilities.
    pub open spec fn evac_coherent(&self) -> bool {
        evac_grid_coherent(self.evac_grid@, self.w(), self.h())
    }

    /// The orchestrator's well-formedness: grids sized to the dimensions,
    /// the frontier index in step with the fire field, the burnt-area
    /// counter equal to the number of burning cells, and every evacuee
    /// coherent.
    pub open spec fn wf(&self) -> bool {
        &&& 1 <= self.dim.0 <= DIM_CAP
        &&& 1 <= self.dim.1 <= DIM_CAP
        &&& self.grid@.len() == self.cells()
        &&& self.evac_grid@.len() == self.cells()
        &&& self.fire_influence.wf()
        &&& self.fire_influence.fire_state.width() == self.w()
        &&& self.frontier_matches()
        &&& self.fire_influence.fire_area == count_fire_upto(self.grid@, self.cells())
        &&& self.evac_coherent()
        &&& self.static_influence.wf()
        &&& 0 <= self.escape_handler.exit.0 <= DIM_CAP
        &&& 0 <= self.escape_handler.exit.1 <= DIM_CAP
    }

    /// Every evacuee of the run is in exactly one place: alive on the grid,
    /// escaped, or dead; the three counts sum to the initial count.
    pub open spec fn conserved(&self) -> bool {
        count_alive_upto(self.evac_grid@, self.evac_grid@.len() as int)
            + self.escape_handler.escaped_evac@.len() + self.death_handler.spec_dead()
            == self.initial_config.evac_num as int
    }

    /// Commit a tick: record the new step index.
    pub fn update(&mut self, step: u64)
        ensures
            *final (self) == (CellGrid { step, ..*old(self) }),
    {
        self.step = step;
    }

    /// Whether the run is over: the whole grid has burned, or every evacuee
    /// has escaped or died.
    pub fn end_condition(&mut self) -> (r: bool)
        requires
            old(self).wf(),
        ensures
            *final (self) == *old(self),
            r == (old(self).fire_influence.fire_area == old(self).cells() || old(self).initial_config.evac_num == old(self).death_handler.spec_dead() + old(self).escape_handler.escaped_evac@.len()),
            r && old(self).fire_influence.fire_area == old(self).cells() ==> forall|i: int|
                0 <= i < old(self).grid@.len() ==> old(self).grid@[i] is Fire,
    {
        proof {
            assert(self.cells() <= 1_440_000) by (nonlinear_arith)
                requires
                    1 <= self.dim.0 <= 1200,
                    1 <= self.dim.1 <= 1200,
            ;
            if self.fire_influence.fire_area == self.cells() {
                lemma_count_fire_full(self.grid@, self.cells());
            }
        }
        let area: u64 = (self.dim.0 as u64) * (self.dim.1 as u64);
        let dead = self.death_handler.get_dead();
        let esc = self.escape_handler.get_escaped_number();
        let everyone: bool = match dead.checked_add(esc) {
            Some(t) => self.initial_config.evac_num == t,
            None => false,
        };
        (self.fire_influence.fire_area as u64) == area || everyone
    }

    /// Clear the run state: empty grids, an empty frontier, zeroed
    /// counters; the configuration and handlers' settings are kept.
    pub fn reset(&mut self)
        requires
            old(self).wf(),
        ensures
            final (self).wf(),
            final (self).step == 0,
            final (self).dim == old(self).dim,
            final (self).fire_influence.fire_area == 0,
            final (self).fire_influence.fire_state.is_empty(),
            final (self).escape_handler.escaped_evac@.len() == 0,
            final (self).escape_handler.exit == old(self).escape_handler.exit,
            final (self).death_handler.spec_dead() == 0,
            final (self).static_influence == old(self).static_influence,
            final (self).initial_config == old(self).initial_config,
            final (self).output_vars.per_case_ratio_1 == 0,
            final (self).output_vars.per_case_ratio_2 == 0,
            final (self).output_vars.per_case_ratio_3 == 0,
            forall|i: int| 0 <= i < final (self).grid@.len() ==> final (self).grid@[i] is Empty,
            forall|i: int|
                0 <= i < final (self).evac_grid@.len() ==> final (self).evac_grid@[i] is None,
            final (self).fire_influence.movement == old(self).fire_influence.movement,
            final (self).fire_influence.aspiration == old(self).fire_influence.aspiration,
            final (self).fire_influence.ratio == old(self).fire_influence.ratio,
            final (self).fire_influence.reward_game == old(self).fire_influence.reward_game,
    {
        self.step = 0;
        self.escape_handler.clear_escaped();
        self.death_handler.clear_dead();
        self.fire_influence.reset();
        assert(self.dim.0 as int * (self.dim.1 as int) <= 1_440_000) by (nonlinear_arith)
            requires
                1 <= self.dim.0 <= 1200,
                1 <= self.dim.1 <= 1200,
        ;
        let n: usize = (self.dim.0 as usize) * (self.dim.1 as usize);
        self.grid = fill_empty_grid(n);
        self.evac_grid = fill_none_grid(n);
        self.output_vars.per_case_ratio_1 = 0;
        self.output_vars.per_case_ratio_2 = 0;
        self.output_vars.per_case_ratio_3 = 0;
        proof {
            lemma_count_fire_empty(self.grid@, n as int);
            assert forall|x: int, y: int| #[trigger]
                self.fire_influence.fire_state.contains_point(x, y) <==> (0 <= x < self.w() && 0
                    <= y < self.h() && self.grid@[x * self.h() + y] is Fire) by {
                assert(!self.fire_influence.fire_state.contains_point(x, y));
                if 0 <= x < self.w() && 0 <= y < self.h() {
                    lemma_cell_index_bounds(x, y, self.w(), self.h());
                    assert(self.grid@[x * self.h() + y] is Empty);
                }
            }
        }
    }

    /// Whether `(nx, ny)` accepts a move: it is the exit, or an in-bounds
    /// cell that neither burns nor holds an evacuee.
    pub open spec fn free_dest(&self, nx: int, ny: int) -> bool {
        ||| Loc(nx as i32, ny as i32) == self.escape_handler.exit
        ||| (0 <= nx < self.w() && 0 <= ny < self.h() && self.grid@[nx * self.h() + ny] is Empty
            && self.evac_grid@[nx * self.h() + ny] is None)
    }

    /// Whether the configuration can always be placed, whatever the random
    /// draws: a configured in-bounds seed with a placeable layout or a
    /// fitting count, or everything drawn with a fitting count.
    pub open spec fn config_placeable(&self) -> bool {
        ||| {
            &&& self.initial_config.initial_grid matches Some(c)
            &&& 0 <= c.0 < self.w()
            &&& 0 <= c.1 < self.h()
            &&& self.initial_config.initial_evac_grid matches Some(v)
            &&& v@.len() == self.initial_config.evac_num
            &&& layout_valid(v@, self.w(), self.h(), c.0 * self.h() + c.1)
        }
        ||| {
            &&& self.initial_config.initial_grid matches Some(c)
            &&& 0 <= c.0 < self.w()
            &&& 0 <= c.1 < self.h()
            &&& self.initial_config.initial_evac_grid is None
            &&& self.initial_config.evac_num <= self.cells() - 1
        }
        ||| {
            &&& self.initial_config.initial_grid is None
            &&& self.initial_config.initial_evac_grid is None
            &&& self.initial_config.evac_num <= self.cells() - 1
        }
    }

    /// Whether every configured scalar parameter is a probability.
    pub open spec fn params_valid(&self) -> bool {
        &&& (self.initial_config.fire_spread matches Some(v) ==> 0 <= v <= SCALE)
        &&& (self.initial_config.lc matches Some(v) ==> 0 <= v <= SCALE)
        &&& (self.initial_config.ld matches Some(v) ==> 0 <= v <= SCALE)
    }

    /// The empty, non-burning, in-bounds (or exit) neighbor cells of
    /// `(x, y)`, in the fixed probe order north, east, west, south: exactly
    /// the von Neumann neighbors that accept a move.
    pub fn get_neigh(&self, x: i32, y: i32) -> (r: Vec<Loc>)
        requires
            self.wf(),
            0 <= x < self.dim.0,
            0 <= y < self.dim.1,
        ensures
            r@.len() <= 4,
            forall|k: int|
                0 <= k < r@.len() ==> 0 <= (#[trigger] r@[k]).0 <= DIM_CAP && 0 <= r@[k].1
                    <= DIM_CAP,
            forall|k: int|
                0 <= k < r@.len() ==> ((#[trigger] r@[k]) == self.escape_handler.exit || (0
                    <= r@[k].0 < self.w() && 0 <= r@[k].1 < self.h() && self.grid@[r@[k].0 * self.h()
                    + r@[k].1] is Empty && self.evac_grid@[r@[k].0 * self.h() + r@[k].1] is None)),
            self.free_dest(x as int, y as int + 1) ==> r@.contains(Loc(x, (y + 1) as i32)),
            self.free_dest(x as int + 1, y as int) ==> r@.contains(Loc((x + 1) as i32, y)),
            self.free_dest(x as int - 1, y as int) ==> r@.contains(Loc((x - 1) as i32, y)),
            self.free_dest(x as int, y as int - 1) ==> r@.contains(Loc(x, (y - 1) as i32)),
            forall|k: int|
                0 <= k < r@.len() ==> ((#[trigger] r@[k]) == Loc(x, (y + 1) as i32) || r@[k]
                    == Loc((x + 1) as i32, y) || r@[k] == Loc((x - 1) as i32, y) || r@[k] == Loc(
                    x,
                    (y - 1) as i32,
                )),
            forall|k1: int, k2: int| 0 <= k1 < k2 < r@.len() ==> r@[k1] != r@[k2],
    {
        let mut empty_vec: Vec<Loc> = Vec::new();
        let mut d: usize = 0;
        while d < 4
            invariant
                self.wf(),
                0 <= x < self.dim.0,
                0 <= y < self.dim.1,
                d <= 4,
                empty_vec@.len() <= d,
                forall|k: int|
                    0 <= k < empty_vec@.len() ==> 0 <= (#[trigger] empty_vec@[k]).0 <= DIM_CAP && 0
                        <= empty_vec@[k].1 <= DIM_CAP,
                forall|k: int|
                    0 <= k < empty_vec@.len() ==> ((#[trigger] empty_vec@[k])
                        == self.escape_handler.exit || (0 <= empty_vec@[k].0 < self.w() && 0
                        <= empty_vec@[k].1 < self.h() && self.grid@[empty_vec@[k].0 * self.h()
                        + empty_vec@[k].1] is Empty && self.evac_grid@[empty_vec@[k].0 * self.h()
                        + empty_vec@[k].1] is None)),
                d >= 1 && self.free_dest(x as int, y as int + 1) ==> empty_vec@.contains(
                    Loc(x, (y + 1) as i32),
                ),
                d >= 2 && self.free_dest(x as int + 1, y as int) ==> empty_vec@.contains(
                    Loc((x + 1) as i32, y),
                ),
                d >= 3 && self.free_dest(x as int - 1, y as int) ==> empty_vec@.contains(
                    Loc((x - 1) as i32, y),
                ),
                d >= 4 && self.free_dest(x as int, y as int - 1) ==> empty_vec@.contains(
                    Loc(x, (y - 1) as i32),
                ),
                forall|k: int|
                    0 <= k < empty_vec@.len() ==> ((d >= 1 && #[trigger] empty_vec@[k] == Loc(
                        x,
                        (y + 1) as i32,
                    )) || (d >= 2 && empty_vec@[k] == Loc((x + 1) as i32, y)) || (d >= 3
                        && empty_vec@[k] == Loc((x - 1) as i32, y)) || (d >= 4 && empty_vec@[k]
                        == Loc(x, (y - 1) as i32))),
                forall|k1: int, k2: int|
                    0 <= k1 < k2 < empty_vec@.len() ==> empty_vec@[k1] != empty_vec@[k2],
            decreases 4 - d,
        {
            let (i, j): (i32, i32) = if d == 0 {
                (0, 1)
            } else if d == 1 {
                (1, 0)
            } else if d == 2 {
                (-1, 0)
            } else {
                (0, -1)
            };
            let nx = x + i;
            let ny = y + j;
            let loc = Loc(nx, ny);
            let ghost before = empty_vec@;
            if self.escape_handler.is_exit(&loc) {
                empty_vec.push(loc);
            } else if within_bounds(nx, self.dim.0 as i32) && within_bounds(ny, self.dim.1 as i32) {
                proof {
                    lemma_cell_index_bounds(nx as int, ny as int, self.w(), self.h());
                }
                let cidx: usize = (nx as usize) * (self.dim.1 as usize) + (ny as usize);
                if matches!(self.evac_grid[cidx], None) && matches!(
                    self.grid[cidx],
                    CellType::Empty,
                ) {
                    empty_vec.push(loc);
                }
            }
            proof {
                if self.free_dest(nx as int, ny as int) {
                    assert(empty_vec@[empty_vec@.len() - 1] == loc);
                    assert(empty_vec@.contains(loc));
                }
                assert forall|l: Loc| before.contains(l) implies empty_vec@.contains(l) by {
                    let k = choose|k: int| 0 <= k < before.len() && before[k] == l;
                    assert(empty_vec@[k] == l);
                }
            }
            d = d + 1;
        }
        empty_vec
    }
}

/// A cell's column-major index lies inside the grid vector.
pub proof fn lemma_cell_index_bounds(x: int, y: int, w: int, h: int)
    requires
        0 <= x < w,
        0 <= y < h,
        w <= 1200,
        h <= 1200,
    ensures
        0 <= x * h + y < w * h,
        x * h + y < 1_440_000,
        w * h <= 1_440_000,
{
    assert(x * h + y < w * h) by (nonlinear_arith)
        requires
            0 <= x < w,
            0 <= y < h,
    ;
    assert(x * h >= 0) by (nonlinear_arith)
        requires
            x >= 0,
            h >= 0,
    ;
    assert(w * h <= 1_440_000) by (nonlinear_arith)
        requires
            0 <= w <= 1200,
            0 <= h <= 1200,
    ;
}

/// An all-`Empty` fire grid of `n` cells.
pub(crate) fn fill_empty_grid(n: usize) -> (r: Vec<CellType>)
    ensures
        r@.len() == n,
        forall|i: int| 0 <= i < n ==> r@[i] is Empty,
{
    let mut g: Vec<CellType> = Vec::new();
    let mut i: usize = 0;
    while i < n
        invariant
            i <= n,
            g@.len() == i,
            forall|k: int| 0 <= k < i ==> g@[k] is Empty,
        decreases n - i,
    {
        g.push(CellType::Empty);
        i = i + 1;
    }
    g
}

/// An unoccupied evacuee grid of `n` cells.
pub(crate) fn fill_none_grid(n: usize) -> (r: Vec<Option<EvacueeCell>>)
    ensures
        r@.len() == n,
        forall|i: int| 0 <= i < n ==> r@[i] is None,
{
    let mut g: Vec<Option<EvacueeCell>> = Vec::new();
    let mut i: usize = 0;
    while i < n
        invariant
            i <= n,
            g@.len() == i,
            forall|k: int| 0 <= k < i ==> g@[k] is None,
        decreases n - i,
    {
        g.push(None);
        i = i + 1;
    }
    g
}

impl CellGrid {
    /// Apply the initial configuration to a fresh board: place the fire
    /// seed (configured, or drawn on the bottom row) and the evacuees
    /// (configured, or placed uniformly on free cells), under the map seed
    /// when one is configured. A malformed configuration is rejected.
    pub fn set_intial(&mut self, rng: &mut SimRng) -> (r: Result<(), SimError>)
        requires
            old(self).wf(),
            forall|i: int| 0 <= i < old(self).grid@.len() ==> old(self).grid@[i] is Empty,
            forall|i: int| 0 <= i < old(self).evac_grid@.len() ==> old(self).evac_grid@[i] is None,
            old(self).escape_handler.escaped_evac@.len() == 0,
            old(self).death_handler.spec_dead() == 0,
        ensures
            final (self).wf(),
            final (self).dim == old(self).dim,
            final (self).initial_config == old(self).initial_config,
            final (self).escape_handler.escaped_evac@.len() == 0,
            final (self).escape_handler.exit == old(self).escape_handler.exit,
            final (self).death_handler.spec_dead() == 0,
            final (self).static_influence == old(self).static_influence,
            final (self).step == old(self).step,
            r is Ok ==> final (self).conserved(),
            r is Ok ==> (old(self).initial_config.initial_grid matches Some(c) ==> {
                &&& 0 <= c.0 < old(self).w() && 0 <= c.1 < old(self).h()
                &&& forall|i: int|
                    0 <= i < final (self).grid@.len() ==> #[trigger] final (self).grid@[i] == (if i
                        == c.0 * old(self).h() + c.1 {
                        CellType::Fire
                    } else {
                        CellType::Empty
                    })
            }),
            r is Ok ==> (old(self).initial_config.initial_evac_grid matches Some(v)
                ==> forall|j: int|
                    0 <= j < v@.len() ==> {
                        let e = #[trigger] v@[j];
                        final (self).evac_grid@[e.x * old(self).h() + e.y] == Some(e)
                    }),
            r is Ok ==> (old(self).initial_config.initial_evac_grid matches Some(v) ==> v@.len()
                == old(self).initial_config.evac_num),
            r is Ok && old(self).initial_config.initial_evac_grid is None ==> old(self).initial_config.evac_num <= old(self).cells() - 1,
            old(self).config_placeable() ==> r is Ok,
            r is Ok && old(self).initial_config.initial_grid is None ==> exists|x0: int|
                #[trigger] single_seed_on_bottom_row(
                    final (self).grid@,
                    old(self).w(),
                    old(self).h(),
                    x0,
                ),
            r is Ok && old(self).initial_config.initial_evac_grid is None ==> forall|i: int|
                0 <= i < final (self).evac_grid@.len() && (#[trigger] final (self).evac_grid@[i])
                    is Some ==> (final (self).evac_grid@[i]->0).pr_c == (final (self).evac_grid@[i]->0).pr_d,
            r is Ok ==> forall|i: int|
                0 <= i < final (self).evac_grid@.len() && (#[trigger] final (self).evac_grid@[i])
                    is Some ==> final (self).grid@[i] is Empty,
            r is Ok ==> final (self).fire_influence.fire_area == 1,
            r is Ok ==> count_fire_upto(final (self).grid@, final (self).cells()) == 1,
    {
        match self.initial_config.map_seed {
            Some(s) => {
                let mut seeded = crate::rng::SimRng::seed_from_u64(s);
                self.place_all(&mut seeded)
            },
            None => self.place_all(rng),
        }
    }

    /// The placement pass behind `set_intial`, on a chosen random stream.
    fn place_all(&mut self, rng: &mut SimRng) -> (r: Result<(), SimError>)
        requires
            old(self).wf(),
            forall|i: int| 0 <= i < old(self).grid@.len() ==> old(self).grid@[i] is Empty,
            forall|i: int| 0 <= i < old(self).evac_grid@.len() ==> old(self).evac_grid@[i] is None,
            old(self).escape_handler.escaped_evac@.len() == 0,
            old(self).death_handler.spec_dead() == 0,
        ensures
            final (self).wf(),
            final (self).dim == old(self).dim,
            final (self).initial_config == old(self).initial_config,
            final (self).escape_handler.escaped_evac@.len() == 0,
            final (self).escape_handler.exit == old(self).escape_handler.exit,
            final (self).death_handler.spec_dead() == 0,
            final (self).static_influence == old(self).static_influence,
            final (self).step == old(self).step,
            r is Ok ==> final (self).conserved(),
            r is Ok ==> (old(self).initial_config.initial_grid matches Some(c) ==> {
                &&& 0 <= c.0 < old(self).w() && 0 <= c.1 < old(self).h()
                &&& forall|i: int|
                    0 <= i < final (self).grid@.len() ==> #[trigger] final (self).grid@[i] == (if i
                        == c.0 * old(self).h() + c.1 {
                        CellType::Fire
                    } else {
                        CellType::Empty
                    })
            }),
            r is Ok ==> (old(self).initial_config.initial_evac_grid matches Some(v)
                ==> forall|j: int|
                    0 <= j < v@.len() ==> {
                        let e = #[trigger] v@[j];
                        final (self).evac_grid@[e.x * old(self).h() + e.y] == Some(e)
                    }),
            r is Ok ==> (old(self).initial_config.initial_evac_grid matches Some(v) ==> v@.len()
                == old(self).initial_config.evac_num),
            r is Ok && old(self).initial_config.initial_evac_grid is None ==> old(self).initial_config.evac_num <= old(self).cells() - 1,
            old(self).config_placeable() ==> r is Ok,
            r is Ok && old(self).initial_config.initial_grid is None ==> exists|x0: int|
                #[trigger] single_seed_on_bottom_row(
                    final (self).grid@,
                    old(self).w(),
                    old(self).h(),
                    x0,
                ),
            r is Ok && old(self).initial_config.initial_evac_grid is None ==> forall|i: int|
                0 <= i < final (self).evac_grid@.len() && (#[trigger] final (self).evac_grid@[i])
                    is Some ==> (final (self).evac_grid@[i]->0).pr_c == (final (self).evac_grid@[i]->0).pr_d,
            r is Ok ==> forall|i: int|
                0 <= i < final (self).evac_grid@.len() && (#[trigger] final (self).evac_grid@[i])
                    is Some ==> final (self).grid@[i] is Empty,
            r is Ok ==> final (self).fire_influence.fire_area == 1,
            r is Ok ==> count_fire_upto(final (self).grid@, final (self).cells()) == 1,
    {
        let w = self.dim.0;
        let h = self.dim.1;
        // the fire seed
        let ghost mut drawn: bool = false;
        let (fx, fy): (i32, i32) = match self.initial_config.initial_grid {
            Some(c) => {
                if !(0 <= c.0 && c.0 < w as i32 && 0 <= c.1 && c.1 < h as i32) {
                    return Err(SimError::InvalidConfig);
                }
                c
            },
            None => {
                let x = rng.gen_below(w as u64) as i32;
                proof {
                    drawn = true;
                }
                (x, 0)
            },
        };
        proof {
            assert(drawn == (self.initial_config.initial_grid is None));
            assert(drawn ==> fy == 0);
        }
        proof {
            lemma_cell_index_bounds(fx as int, fy as int, self.w(), self.h());
        }
        let fire_idx: usize = (fx as usize) * (h as usize) + (fy as usize);
        let ghost oldgrid = self.grid@;
        self.grid.set(fire_idx, CellType::Fire);
        proof {
            lemma_count_fire_update(oldgrid, fire_idx as int, CellType::Fire, self.cells());
            lemma_count_fire_empty(oldgrid, self.cells());
        }
        self.fire_influence.on_step(&Loc(fx, fy));
        proof {
            assert forall|x: int, y: int| #[trigger]
                self.fire_influence.fire_state.contains_point(x, y) <==> (0 <= x < self.w() && 0
                    <= y < self.h() && self.grid@[x * self.h() + y] is Fire) by {
                if 0 <= x < self.w() && 0 <= y < self.h() {
                    lemma_cell_index_bounds(x, y, self.w(), self.h());
                    if self.grid@[x * self.h() + y] is Fire {
                        if x * self.h() + y != fire_idx as int {
                            assert(oldgrid[x * self.h() + y] is Fire);
                        } else {
                            lemma_cell_index_inj(x, y, fx as int, fy as int, self.h());
                        }
                    }
                }
                if self.fire_influence.fire_state.contains_point(x, y) {
                    assert(x == fx as int && y == fy as int);
                    assert(self.grid@[x * self.h() + y] is Fire);
                }
            }
            assert(self.wf());
        }
        proof {
            assert forall|i: int|
                0 <= i < self.grid@.len() implies #[trigger] self.grid@[i] == (
            if i == fire_idx as int {
                CellType::Fire
            } else {
                CellType::Empty
            }) by {
                if i != fire_idx as int {
                    assert(self.grid@[i] == oldgrid[i]);
                }
            }
        }
        // the evacuees
        let has_layout = matches!(&self.initial_config.initial_evac_grid, Some(_));
        let r = if has_layout {
            self.place_evac_layout(fire_idx)
        } else {
            self.place_evac_random(fire_idx, rng)
        };
        proof {
            if r is Ok && drawn {
                assert(fire_idx as int == fx as int * self.h());
                assert(single_seed_on_bottom_row(
                    self.grid@,
                    old(self).w(),
                    old(self).h(),
                    fx as int,
                ));
            }
        }
        r
    }

    /// Place the configured evacuee layout, rejecting anything out of
    /// bounds, ill-formed, duplicated, on the fire seed, or disagreeing
    /// with the configured evacuee count.
    fn place_evac_layout(&mut self, fire_idx: usize) -> (r: Result<(), SimError>)
        requires
            old(self).wf(),
            old(self).initial_config.initial_evac_grid is Some,
            forall|i: int| 0 <= i < old(self).evac_grid@.len() ==> old(self).evac_grid@[i] is None,
            old(self).escape_handler.escaped_evac@.len() == 0,
            old(self).death_handler.spec_dead() == 0,
            fire_idx < old(self).cells(),
        ensures
            final (self).wf(),
            final (self).dim == old(self).dim,
            final (self).initial_config == old(self).initial_config,
            final (self).grid@ == old(self).grid@,
            final (self).fire_influence == old(self).fire_influence,
            final (self).escape_handler == old(self).escape_handler,
            final (self).death_handler == old(self).death_handler,
            final (self).static_influence == old(self).static_influence,
            final (self).step == old(self).step,
            r is Ok <==> (old(self).initial_config.initial_evac_grid->0@.len() == old(self).initial_config.evac_num && layout_valid(
                old(self).initial_config.initial_evac_grid->0@,
                old(self).w(),
                old(self).h(),
                fire_idx as int,
            )),
            r is Ok ==> final (self).conserved(),
            r is Ok ==> forall|j: int|
                0 <= j < old(self).initial_config.initial_evac_grid->0@.len() ==> {
                    let e = #[trigger] old(self).initial_config.initial_evac_grid->0@[j];
                    final (self).evac_grid@[e.x * old(self).h() + e.y] == Some(e)
                },
            final (self).evac_grid@[fire_idx as int] is None,
    {
        // take a copy of the layout, so the state can be filled in below
        let layout: Vec<EvacueeCell> = match &self.initial_config.initial_evac_grid {
            Some(v) => {
                let m = v.len();
                let mut c: Vec<EvacueeCell> = Vec::new();
                let mut i: usize = 0;
                while i < m
                    invariant
                        i <= m,
                        m == v@.len(),
                        c@ == v@.subrange(0, i as int),
                    decreases m - i,
                {
                    c.push(v[i]);
                    proof {
                        assert(v@.subrange(0, i as int + 1) == v@.subrange(0, i as int).push(
                            v@[i as int],
                        ));
                    }
                    i = i + 1;
                }
                proof {
                    assert(v@.subrange(0, m as int) == v@);
                }
                c
            },
            None => Vec::new(),
        };
        let ghost lay = old(self).initial_config.initial_evac_grid->0@;
        let n = layout.len();
        if n != self.initial_config.evac_num {
            return Err(SimError::InvalidConfig);
        }
        proof {
            lemma_count_alive_empty(self.evac_grid@, self.evac_grid@.len() as int);
        }
        let mut k: usize = 0;
        while k < n
            invariant
                0 <= k <= n,
                self.wf(),
                self.dim == old(self).dim,
                self.initial_config == old(self).initial_config,
                self.grid@ == old(self).grid@,
                self.fire_influence == old(self).fire_influence,
                self.escape_handler == old(self).escape_handler,
                self.death_handler == old(self).death_handler,
                self.static_influence == old(self).static_influence,
                self.step == old(self).step,
                layout@ == lay,
                lay == old(self).initial_config.initial_evac_grid->0@,
                n == lay.len() == self.initial_config.evac_num,
                fire_idx < self.cells(),
                count_alive_upto(self.evac_grid@, self.evac_grid@.len() as int) == k,
                self.evac_grid@[fire_idx as int] is None,
                forall|j: int|
                    0 <= j < k ==> {
                        let e = #[trigger] lay[j];
                        &&& 0 <= e.x < self.w()
                        &&& 0 <= e.y < self.h()
                        &&& evacuee_probs_ok(e)
                        &&& e.x * self.h() + e.y != fire_idx as int
                        &&& self.evac_grid@[e.x * self.h() + e.y] == Some(e)
                    },
                forall|j1: int, j2: int|
                    0 <= j1 < j2 < k ==> (#[trigger] lay[j1]).x * self.h() + lay[j1].y != (
                    #[trigger] lay[j2]).x * self.h() + lay[j2].y,
                forall|i: int|
                    0 <= i < self.evac_grid@.len() && (#[trigger] self.evac_grid@[i]) is Some
                        ==> exists|j: int|
                        0 <= j < k && i == (#[trigger] lay[j]).x * self.h() + lay[j].y,
            decreases n - k,
        {
            let e: EvacueeCell = layout[k];
            proof {
                assert(lay[k as int] == e);
                if layout_valid(lay, old(self).w(), old(self).h(), fire_idx as int) {
                    assert(0 <= (lay[k as int]).x < old(self).w());
                }
            }
            if !(0 <= e.x && e.x < self.dim.0 as i32 && 0 <= e.y && e.y < self.dim.1 as i32) {
                return Err(SimError::InvalidConfig);
            }
            if !(0 <= e.pr_c && e.pr_c <= crate::fixed::SCALE && 0 <= e.pr_d && e.pr_d
                <= crate::fixed::SCALE) {
                return Err(SimError::InvalidConfig);
            }
            proof {
                lemma_cell_index_bounds(e.x as int, e.y as int, self.w(), self.h());
            }
            let idx: usize = (e.x as usize) * (self.dim.1 as usize) + (e.y as usize);
            if idx == fire_idx {
                return Err(SimError::InvalidConfig);
            }
            if matches!(self.evac_grid[idx], Some(_)) {
                proof {
                    // the occupant is an earlier layout entry on the same cell
                    let j0 = choose|j: int|
                        0 <= j < k && idx as int == (#[trigger] lay[j]).x * self.h() + lay[j].y;
                    assert(!layout_valid(lay, old(self).w(), old(self).h(), fire_idx as int));
                }
                return Err(SimError::InvalidConfig);
            }
            let ghost oldevac = self.evac_grid@;
            self.evac_grid.set(idx, Some(e));
            proof {
                lemma_count_alive_update(
                    oldevac,
                    idx as int,
                    Some(e),
                    self.evac_grid@.len() as int,
                );
                assert forall|j: int| 0 <= j < k + 1 implies {
                    let ej = #[trigger] lay[j];
                    &&& 0 <= ej.x < self.w()
                    &&& 0 <= ej.y < self.h()
                    &&& evacuee_probs_ok(ej)
                    &&& ej.x * self.h() + ej.y != fire_idx as int
                    &&& self.evac_grid@[ej.x * self.h() + ej.y] == Some(ej)
                } by {
                    let ej = lay[j];
                    if j < k {
                        lemma_cell_index_bounds(ej.x as int, ej.y as int, self.w(), self.h());
                        assert(oldevac[ej.x * self.h() + ej.y] == Some(ej));
                        assert(ej.x * self.h() + ej.y != idx as int);
                        assert(self.evac_grid@[ej.x * self.h() + ej.y] == Some(ej));
                    } else {
                        assert(ej == e);
                        assert(ej.x * self.h() + ej.y == idx as int);
                        assert(self.evac_grid@[idx as int] == Some(e));
                    }
                }
                assert forall|j1: int, j2: int| 0 <= j1 < j2 < k + 1 implies (
                #[trigger] lay[j1]).x * self.h() + lay[j1].y != (#[trigger] lay[j2]).x * self.h()
                    + lay[j2].y by {
                    if j2 == k {
                        lemma_cell_index_bounds(
                            lay[j1].x as int,
                            lay[j1].y as int,
                            self.w(),
                            self.h(),
                        );
                        assert(oldevac[lay[j1].x * self.h() + lay[j1].y] == Some(lay[j1]));
                        assert(oldevac[idx as int] is None);
                    }
                }
                assert forall|i: int|
                    0 <= i < self.evac_grid@.len() && (#[trigger] self.evac_grid@[i])
                        is Some implies exists|j: int|
                    0 <= j < k + 1 && i == (#[trigger] lay[j]).x * self.h() + lay[j].y by {
                    if i == idx as int {
                        assert(i == (lay[k as int]).x * self.h() + lay[k as int].y);
                    } else {
                        assert(oldevac[i] is Some);
                        let j0 = choose|j: int|
                            0 <= j < k && i == (#[trigger] lay[j]).x * self.h() + lay[j].y;
                        assert(i == lay[j0].x * self.h() + lay[j0].y);
                    }
                }
            }
            k = k + 1;
        }
        Ok(())
    }

    /// Place `evac_num` evacuees on uniformly drawn free cells, with a
    /// uniformly drawn strategy and one drawn retention probability for
    /// both strategies.
    fn place_evac_random(&mut self, fire_idx: usize, rng: &mut SimRng) -> (r: Result<
        (),
        SimError,
    >)
        requires
            old(self).wf(),
            forall|i: int| 0 <= i < old(self).evac_grid@.len() ==> old(self).evac_grid@[i] is None,
            old(self).escape_handler.escaped_evac@.len() == 0,
            old(self).death_handler.spec_dead() == 0,
            fire_idx < old(self).cells(),
            forall|i: int|
                0 <= i < old(self).grid@.len() ==> ((#[trigger] old(self).grid@[i]) is Fire <==> i
                    == fire_idx),
        ensures
            final (self).wf(),
            final (self).dim == old(self).dim,
            final (self).initial_config == old(self).initial_config,
            final (self).grid@ == old(self).grid@,
            final (self).fire_influence == old(self).fire_influence,
            final (self).escape_handler == old(self).escape_handler,
            final (self).death_handler == old(self).death_handler,
            final (self).static_influence == old(self).static_influence,
            final (self).step == old(self).step,
            r is Ok <==> old(self).initial_config.evac_num <= old(self).cells() - 1,
            r is Ok ==> final (self).conserved(),
            final (self).evac_grid@[fire_idx as int] is None,
            forall|i: int|
                0 <= i < final (self).evac_grid@.len() && (#[trigger] final (self).evac_grid@[i])
                    is Some ==> (final (self).evac_grid@[i]->0).pr_c == (final (self).evac_grid@[i]->0).pr_d,
    {
        let n = self.initial_config.evac_num;
        assert(self.dim.0 as int * (self.dim.1 as int) <= 1_440_000) by (nonlinear_arith)
            requires
                1 <= self.dim.0 <= 1200,
                1 <= self.dim.1 <= 1200,
        ;
        let cells: usize = (self.dim.0 as usize) * (self.dim.1 as usize);
        proof {
            lemma_cell_index_bounds(0, 0, self.w(), self.h());
            lemma_count_alive_empty(self.evac_grid@, self.evac_grid@.len() as int);
        }
        if n > cells - 1 {
            return Err(SimError::InvalidConfig);
        }
        let mut k: usize = 0;
        while k < n
            invariant
                0 <= k <= n,
                self.wf(),
                cells == self.cells(),
                n <= cells - 1,
                fire_idx < cells,
                self.dim == old(self).dim,
                self.initial_config == old(self).initial_config,
                self.grid@ == old(self).grid@,
                self.fire_influence == old(self).fire_influence,
                self.escape_handler == old(self).escape_handler,
                self.death_handler == old(self).death_handler,
                self.static_influence == old(self).static_influence,
                self.step == old(self).step,
                n == self.initial_config.evac_num,
                forall|i: int|
                    0 <= i < self.grid@.len() ==> ((#[trigger] self.grid@[i]) is Fire <==> i
                        == fire_idx),
                count_alive_upto(self.evac_grid@, self.evac_grid@.len() as int) == k,
                self.evac_grid@[fire_idx as int] is None,
                forall|i: int|
                    0 <= i < self.evac_grid@.len() && (#[trigger] self.evac_grid@[i]) is Some ==> (
                    self.evac_grid@[i]->0).pr_c == (self.evac_grid@[i]->0).pr_d,
            decreases n - k,
        {
            let strat = if rng.gen_flag() {
                crate::strategy::Strategy::Competitive
            } else {
                crate::strategy::Strategy::Cooperative
            };
            let prob = rng.gen_micro();
            let free: u64 = (cells - 1 - k) as u64;
            let target = rng.gen_below(free);
            // walk to the `target`-th open cell; enough are always open
            let mut seen: u64 = 0;
            let mut idx: usize = 0;
            let mut placed: bool = false;
            while idx < cells && !placed
                invariant
                    0 <= idx <= cells,
                    cells == self.cells(),
                    self.wf(),
                    self.dim == old(self).dim,
                    self.initial_config == old(self).initial_config,
                    self.grid@ == old(self).grid@,
                    self.fire_influence == old(self).fire_influence,
                    self.escape_handler == old(self).escape_handler,
                    self.death_handler == old(self).death_handler,
                    self.static_influence == old(self).static_influence,
                    self.step == old(self).step,
                    n == self.initial_config.evac_num,
                    0 <= prob < crate::fixed::SCALE,
                    fire_idx < cells,
                    forall|i: int|
                        0 <= i < self.grid@.len() ==> ((#[trigger] self.grid@[i]) is Fire <==> i
                            == fire_idx),
                    target < cells - 1 - k,
                    self.evac_grid@[fire_idx as int] is None,
                    forall|i: int|
                        0 <= i < self.evac_grid@.len() && (#[trigger] self.evac_grid@[i]) is Some
                            ==> (self.evac_grid@[i]->0).pr_c == (self.evac_grid@[i]->0).pr_d,
                    !placed ==> seen == count_free_upto(
                        self.evac_grid@,
                        fire_idx as int,
                        idx as int,
                    ),
                    !placed ==> seen <= target,
                    !placed ==> count_alive_upto(self.evac_grid@, self.evac_grid@.len() as int)
                        == k,
                    placed ==> count_alive_upto(self.evac_grid@, self.evac_grid@.len() as int) == k
                        + 1,
                decreases cells - idx,
            {
                let ghost pre = self.evac_grid@;
                if idx != fire_idx && matches!(self.evac_grid[idx], None) && matches!(
                    self.grid[idx],
                    CellType::Empty,
                ) {
                    if seen == target {
                        proof {
                            vstd::arithmetic::div_mod::lemma_fundamental_div_mod(
                                idx as int,
                                self.h(),
                            );
                            vstd::arithmetic::div_mod::lemma_mod_division_less_than_divisor(
                                idx as int,
                                self.h(),
                            );
                            vstd::arithmetic::div_mod::lemma_div_pos_is_pos(idx as int, self.h());
                            assert((idx as int) / self.h() < self.w()) by (nonlinear_arith)
                                requires
                                    0 <= idx as int,
                                    (idx as int) < self.w() * self.h(),
                                    0 < self.h(),
                            ;
                            assert(self.h() * ((idx as int) / self.h()) == ((idx as int) / self.h())
                                * self.h()) by (nonlinear_arith);
                        }
                        let x: i32 = (idx / (self.dim.1 as usize)) as i32;
                        let y: i32 = (idx % (self.dim.1 as usize)) as i32;
                        assert(x as int * self.h() + y as int == idx as int);
                        let e = EvacueeCell { strategy: strat, x, y, pr_c: prob, pr_d: prob };
                        let ghost oldevac = self.evac_grid@;
                        self.evac_grid.set(idx, Some(e));
                        proof {
                            lemma_count_alive_update(
                                oldevac,
                                idx as int,
                                Some(e),
                                self.evac_grid@.len() as int,
                            );
                            lemma_count_free_agree(
                                self.evac_grid@,
                                oldevac,
                                fire_idx as int,
                                idx as int,
                            );
                            assert forall|i: int|
                                0 <= i < self.evac_grid@.len() && (#[trigger] self.evac_grid@[i])
                                    is Some implies {
                                let ev = self.evac_grid@[i]->0;
                                &&& 0 <= ev.x < self.w()
                                &&& 0 <= ev.y < self.h()
                                &&& i == ev.x * self.h() + ev.y
                                &&& evacuee_probs_ok(ev)
                            } by {
                                if i == idx as int {
                                    assert(self.evac_grid@[i] == Some(e));
                                    assert(e.x == x && e.y == y);
                                    assert(e.x as int * self.h() + e.y as int == idx as int);
                                } else {
                                    assert(self.evac_grid@[i] == oldevac[i]);
                                    assert(oldevac[i] is Some);
                                }
                            }
                            assert(self.wf());
                        }
                        placed = true;
                    } else {
                        seen = seen + 1;
                    }
                }
                proof {
                    if !placed {
                        assert(count_free_upto(self.evac_grid@, fire_idx as int, idx as int + 1)
                            == count_free_upto(self.evac_grid@, fire_idx as int, idx as int) + (
                        if idx as int != fire_idx as int && self.evac_grid@[idx as int] is None {
                            1int
                        } else {
                            0int
                        }));
                    }
                }
                idx = idx + 1;
            }
            proof {
                if !placed {
                    // the walk saw every open cell, and there are more than
                    // the target index of them
                    lemma_free_alive_partition(
                        self.evac_grid@,
                        fire_idx as int,
                        self.evac_grid@.len() as int,
                    );
                    assert(seen == count_free_upto(
                        self.evac_grid@,
                        fire_idx as int,
                        cells as int,
                    ));
                    assert(false);
                }
            }
            k = k + 1;
        }
        Ok(())
    }
}

/// A count over a wider range grows by at most the range difference.
pub proof fn lemma_count_fire_range(s: Seq<CellType>, p: int, n: int)
    requires
        0 <= p <= n <= s.len(),
    ensures
        0 <= count_fire_upto(s, n) - count_fire_upto(s, p) <= n - p,
    decreases n - p,
{
    if p < n {
        lemma_count_fire_range(s, p + 1, n);
    }
}

impl CellGrid {
    /// One synchronous fire pass: every cell's next state is computed from
    /// the pre-tick grid (visiting cells in a fixed order, one random draw
    /// per empty cell) and committed at once. Fire never goes out, and with
    /// a zero spread rate nothing changes; the frontier index and the
    /// burnt-area counter track the grid exactly.
    pub fn fire_step(&mut self, fire_agent: &crate::fire::FireRules, rng: &mut SimRng)
        requires
            old(self).wf(),
            fire_agent.wf(),
        ensures
            final (self).wf(),
            final (self).grid@.len() == old(self).grid@.len(),
            forall|i: int|
                0 <= i < old(self).grid@.len() && old(self).grid@[i] is Fire ==> final (self).grid@[i] is Fire,
            fire_agent.spread == 0 ==> final (self).grid@ == old(self).grid@
                && final (self).fire_influence.fire_area == old(self).fire_influence.fire_area,
            forall|x: int, y: int|
                0 <= x < old(self).w() && 0 <= y < old(self).h() && #[trigger] fire_at(
                    final (self).grid@,
                    old(self).h(),
                    x,
                    y,
                ) && !fire_at(old(self).grid@, old(self).h(), x, y) ==> has_burning_neighbor(
                    old(self).grid@,
                    old(self).w(),
                    old(self).h(),
                    x,
                    y,
                ),
            forall|x: int, y: int|
                0 <= x < old(self).w() && 0 <= y < old(self).h() && !fire_at(
                    old(self).grid@,
                    old(self).h(),
                    x,
                    y,
                ) && crate::fire::transition_prob(
                    fire_agent.spread as int,
                    CellType::Empty,
                    moore_fire_count(old(self).grid@, old(self).w(), old(self).h(), x, y),
                ) == SCALE ==> #[trigger] fire_at(final (self).grid@, old(self).h(), x, y),
            final (self).dim == old(self).dim,
            final (self).evac_grid@ == old(self).evac_grid@,
            final (self).escape_handler == old(self).escape_handler,
            final (self).death_handler == old(self).death_handler,
            final (self).static_influence == old(self).static_influence,
            final (self).initial_config == old(self).initial_config,
            final (self).step == old(self).step,
            final (self).output_vars == old(self).output_vars,
            final (self).fire_influence.movement == old(self).fire_influence.movement,
            final (self).fire_influence.aspiration == old(self).fire_influence.aspiration,
            final (self).fire_influence.ratio == old(self).fire_influence.ratio,
            final (self).fire_influence.reward_game == old(self).fire_influence.reward_game,
    {
        let w: usize = self.dim.0 as usize;
        let h: usize = self.dim.1 as usize;
        proof {
            lemma_cell_index_bounds(self.w() - 1, self.h() - 1, self.w(), self.h());
        }
        let cells: usize = w * h;
        let ghost g0 = self.grid@;
        let mut updated: Vec<CellType> = Vec::new();
        let mut idx: usize = 0;
        while idx < cells
            invariant
                0 <= idx <= cells,
                w == self.dim.0 && h == self.dim.1,
                cells == self.cells(),
                1 <= self.dim.0 <= 1200,
                1 <= self.dim.1 <= 1200,
                self.grid@.len() == cells,
                self.evac_grid@.len() == cells,
                self.fire_influence.wf(),
                self.evac_coherent(),
                self.static_influence.wf(),
                0 <= self.escape_handler.exit.0 <= DIM_CAP,
                0 <= self.escape_handler.exit.1 <= DIM_CAP,
                fire_agent.wf(),
                self.grid@ == g0,
                self.dim == old(self).dim,
                self.evac_grid@ == old(self).evac_grid@,
                self.escape_handler == old(self).escape_handler,
                self.death_handler == old(self).death_handler,
                self.static_influence == old(self).static_influence,
                self.initial_config == old(self).initial_config,
                self.step == old(self).step,
                self.output_vars == old(self).output_vars,
                self.fire_influence.movement == old(self).fire_influence.movement,
                self.fire_influence.aspiration == old(self).fire_influence.aspiration,
                self.fire_influence.ratio == old(self).fire_influence.ratio,
                self.fire_influence.reward_game == old(self).fire_influence.reward_game,
                self.fire_influence.fire_state.width() == self.w(),
                updated@.len() == idx,
                forall|i: int| 0 <= i < idx && g0[i] is Fire ==> #[trigger] updated@[i] is Fire,
                fire_agent.spread == 0 ==> forall|i: int|
                    0 <= i < idx ==> #[trigger] updated@[i] == g0[i],
                forall|a: int, b: int|
                    0 <= a < self.w() && 0 <= b < self.h() && a * self.h() + b < idx
                        && #[trigger] fire_at(updated@, self.h(), a, b) && !fire_at(
                        g0,
                        self.h(),
                        a,
                        b,
                    ) ==> has_burning_neighbor(g0, self.w(), self.h(), a, b),
                forall|a: int, b: int|
                    0 <= a < self.w() && 0 <= b < self.h() && a * self.h() + b < idx && !fire_at(
                        g0,
                        self.h(),
                        a,
                        b,
                    ) && crate::fire::transition_prob(
                        fire_agent.spread as int,
                        CellType::Empty,
                        moore_fire_count(g0, self.w(), self.h(), a, b),
                    ) == SCALE ==> #[trigger] fire_at(updated@, self.h(), a, b),
                forall|x: int, y: int|
                    #[trigger] self.fire_influence.fire_state.contains_point(x, y) <==> (0 <= x
                        < self.w() && 0 <= y < self.h() && (if x * self.h() + y < idx {
                        updated@[x * self.h() + y] is Fire
                    } else {
                        g0[x * self.h() + y] is Fire
                    })),
                self.fire_influence.fire_area == count_fire_upto(updated@, idx as int) + (
                count_fire_upto(g0, cells as int) - count_fire_upto(g0, idx as int)),
            decreases cells - idx,
        {
            proof {
                vstd::arithmetic::div_mod::lemma_fundamental_div_mod(idx as int, self.h());
                vstd::arithmetic::div_mod::lemma_mod_division_less_than_divisor(
                    idx as int,
                    self.h(),
                );
                vstd::arithmetic::div_mod::lemma_div_pos_is_pos(idx as int, self.h());
                assert((idx as int) / self.h() < self.w()) by (nonlinear_arith)
                    requires
                        0 <= idx as int,
                        (idx as int) < self.w() * self.h(),
                        0 < self.h(),
                ;
                assert(self.h() * ((idx as int) / self.h()) == ((idx as int) / self.h())
                    * self.h()) by (nonlinear_arith);
            }
            let x: usize = idx / h;
            let y: usize = idx % h;
            assert(x as int * self.h() + y as int == idx as int);
            let cell = self.grid[idx];
            // the Moore neighborhood, from the pre-tick snapshot
            let mut n: Vec<CellType> = Vec::new();
            let mut d: usize = 0;
            while d < 9
                invariant
                    d <= 9,
                    n@.len() <= (if d <= 4 {
                        d as int
                    } else {
                        d - 1
                    }),
                    self.grid@ == g0,
                    self.grid@.len() == cells,
                    cells == self.cells(),
                    1 <= self.dim.0 <= 1200,
                    1 <= self.dim.1 <= 1200,
                    w == self.dim.0 && h == self.dim.1,
                    x < w && y < h,
                    crate::fire::count_fire_neigh(n@) > 0 ==> has_burning_neighbor(
                        g0,
                        self.w(),
                        self.h(),
                        x as int,
                        y as int,
                    ),
                    crate::fire::count_fire_neigh(n@) == (if d >= 1 {
                        nb_fire(g0, self.w(), self.h(), x as int - 1, y as int - 1)
                    } else {
                        0int
                    }) + (if d >= 2 {
                        nb_fire(g0, self.w(), self.h(), x as int - 1, y as int)
                    } else {
                        0int
                    }) + (if d >= 3 {
                        nb_fire(g0, self.w(), self.h(), x as int - 1, y as int + 1)
                    } else {
                        0int
                    }) + (if d >= 4 {
                        nb_fire(g0, self.w(), self.h(), x as int, y as int - 1)
                    } else {
                        0int
                    }) + (if d >= 6 {
                        nb_fire(g0, self.w(), self.h(), x as int, y as int + 1)
                    } else {
                        0int
                    }) + (if d >= 7 {
                        nb_fire(g0, self.w(), self.h(), x as int + 1, y as int - 1)
                    } else {
                        0int
                    }) + (if d >= 8 {
                        nb_fire(g0, self.w(), self.h(), x as int + 1, y as int)
                    } else {
                        0int
                    }) + (if d >= 9 {
                        nb_fire(g0, self.w(), self.h(), x as int + 1, y as int + 1)
                    } else {
                        0int
                    }),
                decreases 9 - d,
            {
                if d != 4 {
                    let di: i32 = (d / 3) as i32 - 1;
                    let dj: i32 = (d % 3) as i32 - 1;
                    let nx: i32 = (x as i32) + di;
                    let ny: i32 = (y as i32) + dj;
                    if within_bounds(nx, self.dim.0 as i32) && within_bounds(
                        ny,
                        self.dim.1 as i32,
                    ) {
                        proof {
                            lemma_cell_index_bounds(nx as int, ny as int, self.w(), self.h());
                        }
                        let nidx: usize = (nx as usize) * h + (ny as usize);
                        let ghost n0 = n@;
                        let v = self.grid[nidx];
                        n.push(v);
                        proof {
                            crate::fire::lemma_count_fire_neigh_push(n0, v);
                            if v is Fire {
                                assert(fire_at(g0, self.h(), nx as int, ny as int));
                                assert(!(nx as int == x as int && ny as int == y as int));
                                assert(has_burning_neighbor(
                                    g0,
                                    self.w(),
                                    self.h(),
                                    x as int,
                                    y as int,
                                ));
                            }
                        }
                    }
                }
                d = d + 1;
            }
            proof {
                assert(crate::fire::count_fire_neigh(n@) == moore_fire_count(
                    g0,
                    self.w(),
                    self.h(),
                    x as int,
                    y as int,
                ));
            }
            let flipped = cell.spread(fire_agent, n.as_slice(), rng);
            proof {
                if flipped {
                    crate::fire::lemma_count_fire_neigh_nonneg(n@);
                    assert(crate::fire::count_fire_neigh(n@) > 0) by {
                        if crate::fire::count_fire_neigh(n@) == 0 {
                            assert(crate::fire::transition_prob(
                                fire_agent.spread as int,
                                cell,
                                0,
                            ) == 0);
                        }
                    }
                    assert(has_burning_neighbor(g0, self.w(), self.h(), x as int, y as int));
                }
            }
            let ghost upd0 = updated@;
            proof {
                if fire_agent.spread == 0 {
                    let k = crate::fire::count_fire_neigh(n@);
                    assert(k * 0 == 0) by (nonlinear_arith);
                    assert(crate::fire::transition_prob(0, cell, k) == 0);
                    assert(!flipped);
                }
            }
            if flipped {
                updated.push(CellType::Fire);
                proof {
                    // the cell was empty, so the whole grid is not yet burnt
                    assert(cells as int <= 1_440_000) by (nonlinear_arith)
                        requires
                            cells as int == self.w() * self.h(),
                            1 <= self.w() <= 1200,
                            1 <= self.h() <= 1200,
                    ;
                    assert(cell is Empty);
                    assert(g0[idx as int] is Empty);
                    lemma_count_fire_bounds(upd0, idx as int);
                    lemma_count_fire_range(g0, idx as int + 1, cells as int);
                    assert(count_fire_upto(g0, idx as int + 1) == count_fire_upto(g0, idx as int));
                    assert(self.fire_influence.fire_area < 1_440_000);
                }
                self.fire_influence.on_step(&Loc(x as i32, y as i32));
            } else {
                updated.push(cell);
            }
            proof {
                lemma_count_fire_agree(updated@, upd0, idx as int);
                assert(count_fire_upto(updated@, idx as int + 1) == count_fire_upto(
                    updated@,
                    idx as int,
                ) + (if updated@[idx as int] is Fire {
                    1int
                } else {
                    0int
                }));
                assert forall|a: int, b: int|
                    #[trigger] self.fire_influence.fire_state.contains_point(a, b) <==> (0 <= a
                        < self.w() && 0 <= b < self.h() && (if a * self.h() + b < idx + 1 {
                        updated@[a * self.h() + b] is Fire
                    } else {
                        g0[a * self.h() + b] is Fire
                    })) by {
                    if 0 <= a < self.w() && 0 <= b < self.h() {
                        lemma_cell_index_bounds(a, b, self.w(), self.h());
                        if a * self.h() + b == idx as int {
                            lemma_cell_index_inj(a, b, x as int, y as int, self.h());
                        }
                    }
                }
                assert forall|a: int, b: int|
                    0 <= a < self.w() && 0 <= b < self.h() && a * self.h() + b < idx + 1
                        && #[trigger] fire_at(updated@, self.h(), a, b) && !fire_at(
                        g0,
                        self.h(),
                        a,
                        b,
                    ) implies has_burning_neighbor(g0, self.w(), self.h(), a, b) by {
                    lemma_cell_index_bounds(a, b, self.w(), self.h());
                    if a * self.h() + b == idx as int {
                        lemma_cell_index_inj(a, b, x as int, y as int, self.h());
                    } else {
                        assert(fire_at(upd0, self.h(), a, b));
                    }
                }
                assert forall|a: int, b: int|
                    0 <= a < self.w() && 0 <= b < self.h() && a * self.h() + b < idx + 1
                        && !fire_at(g0, self.h(), a, b) && crate::fire::transition_prob(
                        fire_agent.spread as int,
                        CellType::Empty,
                        moore_fire_count(g0, self.w(), self.h(), a, b),
                    ) == SCALE implies #[trigger] fire_at(updated@, self.h(), a, b) by {
                    lemma_cell_index_bounds(a, b, self.w(), self.h());
                    if a * self.h() + b == idx as int {
                        lemma_cell_index_inj(a, b, x as int, y as int, self.h());
                        assert(cell is Empty);
                        assert(flipped);
                    } else {
                        assert(fire_at(upd0, self.h(), a, b));
                    }
                }
            }
            idx = idx + 1;
        }
        self.grid = updated;
        proof {
            assert forall|a: int, b: int|
                #[trigger] self.fire_influence.fire_state.contains_point(a, b) <==> (0 <= a
                    < self.w() && 0 <= b < self.h() && self.grid@[a * self.h() + b] is Fire) by {
                if 0 <= a < self.w() && 0 <= b < self.h() {
                    lemma_cell_index_bounds(a, b, self.w(), self.h());
                }
            }
            if fire_agent.spread == 0 {
                assert(self.grid@ =~= g0);
            }
            assert forall|a: int, b: int|
                0 <= a < self.w() && 0 <= b < self.h() && #[trigger] fire_at(
                    self.grid@,
                    self.h(),
                    a,
                    b,
                ) && !fire_at(g0, self.h(), a, b) implies has_burning_neighbor(
                g0,
                self.w(),
                self.h(),
                a,
                b,
            ) by {
                lemma_cell_index_bounds(a, b, self.w(), self.h());
            }
            assert forall|a: int, b: int|
                0 <= a < self.w() && 0 <= b < self.h() && !fire_at(g0, self.h(), a, b)
                    && crate::fire::transition_prob(
                    fire_agent.spread as int,
                    CellType::Empty,
                    moore_fire_count(g0, self.w(), self.h(), a, b),
                ) == SCALE implies #[trigger] fire_at(self.grid@, self.h(), a, b) by {
                lemma_cell_index_bounds(a, b, self.w(), self.h());
            }
            assert(self.wf());
        }
    }
}

/// Increment a run counter, saturating instead of overflowing.
fn bump(c: u64) -> (r: u64)
    ensures
        r == (if c < u64::MAX {
            c + 1
        } else {
            c as int
        }),
{
    if c < u64::MAX {
        c + 1
    } else {
        c
    }
}

/// Whether some payoff component deviates from the aspiration, so the
/// stimulus denominator is nonzero.
fn max_dev_nonzero(w: crate::strategy::RSTP, asp: i64) -> (r: bool)
    requires
        -crate::strategy::PAYOFF_MAX <= w.0 <= crate::strategy::PAYOFF_MAX,
        -crate::strategy::PAYOFF_MAX <= w.1 <= crate::strategy::PAYOFF_MAX,
        -crate::strategy::PAYOFF_MAX <= w.2 <= crate::strategy::PAYOFF_MAX,
        -crate::strategy::PAYOFF_MAX <= w.3 <= crate::strategy::PAYOFF_MAX,
        -crate::strategy::PAYOFF_MAX <= asp <= crate::strategy::PAYOFF_MAX,
    ensures
        r == (crate::strategy::max_dev(crate::strategy::rstp_int(w), asp as int) != 0),
{
    w.0 != asp || w.1 != asp || w.2 != asp || w.3 != asp
}

/// Put one evacuee onto its own cell of an evacuee grid; an already
/// occupied cell is an invariant violation.
fn insert_one(g: &mut Vec<Option<EvacueeCell>>, e: EvacueeCell, w: u32, h: u32) -> (r: Result<
    (),
    SimError,
>)
    requires
        1 <= w <= DIM_CAP,
        1 <= h <= DIM_CAP,
        old(g)@.len() == w as int * (h as int),
        evac_grid_coherent(old(g)@, w as int, h as int),
        0 <= e.x < w,
        0 <= e.y < h,
        evacuee_probs_ok(e),
    ensures
        final (g)@.len() == old(g)@.len(),
        evac_grid_coherent(final (g)@, w as int, h as int),
        r is Ok ==> count_alive_upto(final (g)@, final (g)@.len() as int) == count_alive_upto(
            old(g)@,
            old(g)@.len() as int,
        ) + 1,
        r is Ok ==> final (g)@ == old(g)@.update(e.x * (h as int) + e.y, Some(e)),
        r is Ok ==> old(g)@[e.x * (h as int) + e.y] is None,
        r is Err ==> final (g)@ == old(g)@,
{
    proof {
        lemma_cell_index_bounds(e.x as int, e.y as int, w as int, h as int);
    }
    let idx: usize = (e.x as usize) * (h as usize) + (e.y as usize);
    if matches!(g[idx], Some(_)) {
        return Err(SimError::InvariantViolation);
    }
    let ghost g0 = g@;
    g.set(idx, Some(e));
    proof {
        lemma_count_alive_update(g0, idx as int, Some(e), g0.len() as int);
        assert forall|i: int|
            0 <= i < g@.len() && (#[trigger] g@[i]) is Some implies {
            let ev = g@[i]->0;
            &&& 0 <= ev.x < w as int
            &&& 0 <= ev.y < h as int
            &&& i == ev.x * (h as int) + ev.y
            &&& evacuee_probs_ok(ev)
        } by {
            if i == idx as int {
                assert(g@[i] == Some(e));
            } else {
                assert(g@[i] == g0[i]);
            }
        }
    }
    Ok(())
}

/// Whether `o` is `e` after one Bush-Mosteller update of the retention
/// probability of `e`'s strategy with stimulus `stim` (whether the strategy
/// itself is kept is a draw).
pub open spec fn adapted_from(
    agent: EvacueeAgent,
    o: EvacueeCell,
    e: EvacueeCell,
    stim: int,
) -> bool {
    if e.strategy is Competitive {
        o.pr_d == crate::evacuee::calc_prob_spec(e.pr_d as int, agent.ld as int, stim) && o.pr_c
            == e.pr_c
    } else {
        o.pr_c == crate::evacuee::calc_prob_spec(e.pr_c as int, agent.lc as int, stim) && o.pr_d
            == e.pr_d
    }
}

impl CellGrid {
    /// The reward baseline of a game at `dist`: the reward curve at the
    /// contested cell's exit distance.
    pub open spec fn contest_baseline(&self, dist: Loc) -> int {
        self.fire_influence.reward_game.spec_eval(
            self.static_influence.spec_static_influence(dist.0 as int, dist.1 as int),
        )
    }

    /// The payoff tuple of a game of `n` contenders at `dist`: the ratio is
    /// taken at the contested cell's fire distance, the baseline at its
    /// exit distance.
    pub open spec fn contest_tuple(&self, n: int, dist: Loc) -> (int, int, int, int) {
        crate::strategy::strategy_rewards_spec(
            n,
            self.fire_influence.ratio.spec_eval(
                crate::influence::spec_fire_distance(
                    self.fire_influence.fire_state,
                    dist.0 as int,
                    dist.1 as int,
                ),
            ),
            self.contest_baseline(dist),
        )
    }

    /// The aspiration level the games compare against.
    pub open spec fn game_aspiration(&self) -> int {
        crate::influence::asp_value(
            self.fire_influence.aspiration,
            self.fire_influence.fire_area as int,
        )
    }

    /// The stimulus a contender holding strategy `s` realizes in a game of
    /// `n` contenders at `dist`.
    pub open spec fn game_stim(
        &self,
        n: int,
        dist: Loc,
        case: crate::strategy::RuleCase,
        s: crate::strategy::Strategy,
    ) -> int {
        crate::strategy::s_x_spec(
            self.contest_tuple(n, dist),
            self.game_aspiration(),
            crate::strategy::chosen_reward_of(case, self.contest_tuple(n, dist), s),
        )
    }

    /// Resolve one contested destination: a single contender occupies it
    /// outright; otherwise the collision is classified (and counted), the
    /// contested cell's payoff tuple and the aspiration are computed, and
    /// every contender adapts its strategy with its realized stimulus.
    /// Under `AllCoop` a shuffled first contender takes the cell, under
    /// `AllButOneCoop` the competitive one; under `Argument` nobody moves,
    /// but everyone still adapts. The game aborts exactly when every payoff
    /// equals the aspiration, so no stimulus exists.
    pub fn play_game(
        &mut self,
        dist: Loc,
        competing: Vec<EvacueeCell>,
        rng: &mut SimRng,
        evac_agent: &EvacueeAgent,
    ) -> (r: Result<Vec<EvacueeCell>, SimError>)
        requires
            old(self).wf(),
            evac_agent.wf(),
            1 <= competing@.len() <= 2_000_000,
            0 <= dist.0 < old(self).w(),
            0 <= dist.1 < old(self).h(),
            forall|i: int|
                0 <= i < competing@.len() ==> {
                    let e = #[trigger] competing@[i];
                    &&& 0 <= e.x < old(self).w()
                    &&& 0 <= e.y < old(self).h()
                    &&& evacuee_probs_ok(e)
                },
        ensures
            final (self).wf(),
            final (self).grid@ == old(self).grid@,
            final (self).evac_grid@ == old(self).evac_grid@,
            final (self).dim == old(self).dim,
            final (self).initial_config == old(self).initial_config,
            final (self).fire_influence == old(self).fire_influence,
            final (self).escape_handler == old(self).escape_handler,
            final (self).death_handler == old(self).death_handler,
            final (self).static_influence == old(self).static_influence,
            final (self).step == old(self).step,
            r is Err <==> (competing@.len() >= 2 && crate::strategy::max_dev(
                old(self).contest_tuple(competing@.len() as int, dist),
                old(self).game_aspiration(),
            ) == 0),
            r matches Ok(v) ==> v@.len() == competing@.len(),
            r matches Ok(v) ==> forall|i: int|
                0 <= i < v@.len() ==> {
                    let e = #[trigger] v@[i];
                    &&& 0 <= e.x < old(self).w()
                    &&& 0 <= e.y < old(self).h()
                    &&& evacuee_probs_ok(e)
                },
            competing@.len() == 1 ==> (r matches Ok(v) && v@.len() == 1 && v@[0] == (EvacueeCell {
                x: dist.0,
                y: dist.1,
                ..competing@[0]
            }) && final (self).output_vars == old(self).output_vars),
            competing@.len() >= 2 ==> {
                let case = crate::strategy::rule_case_of(
                    crate::strategy::count_comp(
                        competing@.map_values(|e: EvacueeCell| e.strategy),
                    ),
                );
                let o = old(self).output_vars;
                let f = final (self).output_vars;
                &&& f.per_case_ratio_1 == (if case is AllCoop && o.per_case_ratio_1 < u64::MAX {
                    o.per_case_ratio_1 + 1
                } else {
                    o.per_case_ratio_1 as int
                })
                &&& f.per_case_ratio_2 == (if case is AllButOneCoop && o.per_case_ratio_2
                    < u64::MAX {
                    o.per_case_ratio_2 + 1
                } else {
                    o.per_case_ratio_2 as int
                })
                &&& f.per_case_ratio_3 == (if case is Argument && o.per_case_ratio_3 < u64::MAX {
                    o.per_case_ratio_3 + 1
                } else {
                    o.per_case_ratio_3 as int
                })
            },
            r matches Ok(v) ==> (competing@.len() >= 2 ==> {
                let nn = competing@.len() as int;
                let case = crate::strategy::rule_case_of(
                    crate::strategy::count_comp(
                        competing@.map_values(|e: EvacueeCell| e.strategy),
                    ),
                );
                &&& (!(case is Argument) ==> v@[0].x == dist.0 && v@[0].y == dist.1 && exists|
                    j: int,
                |
                    0 <= j < nn && adapted_from(
                        *evac_agent,
                        v@[0],
                        #[trigger] competing@[j],
                        old(self).game_stim(nn, dist, case, competing@[j].strategy),
                    ) && (case is AllButOneCoop ==> competing@[j].strategy is Competitive))
                &&& forall|i: int|
                    (if case is Argument {
                        0int
                    } else {
                        1int
                    }) <= i < nn ==> exists|j: int|
                        0 <= j < nn && (#[trigger] v@[i]).x == competing@[j].x && v@[i].y
                            == competing@[j].y && adapted_from(
                            *evac_agent,
                            v@[i],
                            competing@[j],
                            old(self).game_stim(nn, dist, case, competing@[j].strategy),
                        )
            }),
    {
        let n = competing.len();
        if n == 1 {
            let e0 = competing[0];
            let moved = EvacueeCell { x: dist.0, y: dist.1, ..e0 };
            let mut out: Vec<EvacueeCell> = Vec::new();
            out.push(moved);
            return Ok(out);
        }
        let dist_to_exit = self.static_influence.static_influence(&dist);
        let reward_b = self.fire_influence.calculate_reward(dist_to_exit);
        // classify by the rivals of the first contender
        let mut rivals: Vec<crate::strategy::Strategy> = Vec::new();
        let mut j: usize = 1;
        while j < n
            invariant
                1 <= j <= n,
                n == competing@.len(),
                rivals@ == competing@.subrange(1, j as int).map_values(
                    |e: EvacueeCell| e.strategy,
                ),
            decreases n - j,
        {
            rivals.push(competing[j].strategy);
            proof {
                assert(competing@.subrange(1, j as int + 1) == competing@.subrange(
                    1,
                    j as int,
                ).push(competing@[j as int]));
                assert(competing@.subrange(1, j as int + 1).map_values(
                    |e: EvacueeCell| e.strategy,
                ) == competing@.subrange(1, j as int).map_values(|e: EvacueeCell| e.strategy).push(
                    competing@[j as int].strategy,
                ));
            }
            j = j + 1;
        }
        let game = competing[0].strategy.game_rules(rivals.as_slice());
        proof {
            let strats = competing@.map_values(|e: EvacueeCell| e.strategy);
            assert(strats.drop_first() =~= competing@.subrange(1, n as int).map_values(
                |e: EvacueeCell| e.strategy,
            ));
            assert(crate::strategy::count_comp(strats) == crate::strategy::count_comp(
                strats.drop_first(),
            ) + (if strats[0] == crate::strategy::Strategy::Competitive {
                1int
            } else {
                0int
            }));
            assert(strats[0] == competing@[0].strategy);
        }
        match game {
            crate::strategy::RuleCase::AllCoop => {
                self.output_vars.per_case_ratio_1 = bump(self.output_vars.per_case_ratio_1);
            },
            crate::strategy::RuleCase::AllButOneCoop => {
                self.output_vars.per_case_ratio_2 = bump(self.output_vars.per_case_ratio_2);
            },
            crate::strategy::RuleCase::Argument => {
                self.output_vars.per_case_ratio_3 = bump(self.output_vars.per_case_ratio_3);
            },
        }
        // one payoff tuple and aspiration level for the whole game
        let asp = self.fire_influence.calculate_aspiration();
        let rstp = self.fire_influence.calculcate_rewards(n, &dist, reward_b);
        proof {
            assert(crate::strategy::rstp_int(rstp) == old(self).contest_tuple(n as int, dist));
            assert(asp as int == old(self).game_aspiration());
        }
        if !max_dev_nonzero(rstp, asp) {
            return Err(SimError::InvariantViolation);
        }
        let mut contenders: Vec<crate::strategy::Contender> = Vec::new();
        let mut j: usize = 0;
        while j < n
            invariant
                0 <= j <= n,
                2 <= n == competing@.len() <= 2_000_000,
                -500_000_000_000 <= asp <= 500_000_000_000,
                -crate::strategy::PAYOFF_MAX <= rstp.0 <= crate::strategy::PAYOFF_MAX,
                -crate::strategy::PAYOFF_MAX <= rstp.1 <= crate::strategy::PAYOFF_MAX,
                -crate::strategy::PAYOFF_MAX <= rstp.2 <= crate::strategy::PAYOFF_MAX,
                -crate::strategy::PAYOFF_MAX <= rstp.3 <= crate::strategy::PAYOFF_MAX,
                crate::strategy::max_dev(crate::strategy::rstp_int(rstp), asp as int) != 0,
                contenders@.len() == j,
                forall|i: int|
                    0 <= i < j ==> #[trigger] contenders@[i] == (rstp, competing@[i]),
            decreases n - j,
        {
            let e = competing[j];
            contenders.push((rstp, e));
            j = j + 1;
        }
        proof {
            assert(forall|i: int|
                0 <= i < n ==> crate::strategy::contender_ok(
                    #[trigger] contenders@[i],
                    asp as int,
                ));
            if game is AllButOneCoop {
                let strats = competing@.map_values(|e: EvacueeCell| e.strategy);
                assert(crate::strategy::count_comp(strats) == 1);
                crate::strategy::lemma_count_comp_pos(strats);
                let i = choose|i: int| 0 <= i < strats.len() && strats[i] is Competitive;
                assert(strats[i] == competing@[i].strategy);
                assert((contenders@[i]).1.strategy is Competitive);
            }
        }
        let ghost gcont = contenders@;
        let res = crate::strategy::rules(game, contenders, rng, asp);
        let (was_ok, ids) = match res {
            Ok(v) => (true, v),
            Err(v) => (false, v),
        };
        let ghost nn = n as int;
        let ghost case = game;
        proof {
            assert(was_ok <==> !(game is Argument));
        }
        let m = ids.len();
        let mut out: Vec<EvacueeCell> = Vec::new();
        let mut k: usize = 0;
        while k < m
            invariant
                0 <= k <= m,
                m == ids@.len() == competing@.len() == nn,
                2 <= nn <= 2_000_000,
                case == game,
                self.wf(),
                self.grid@ == old(self).grid@,
                self.evac_grid@ == old(self).evac_grid@,
                self.dim == old(self).dim,
                self.initial_config == old(self).initial_config,
                self.fire_influence == old(self).fire_influence,
                self.escape_handler == old(self).escape_handler,
                self.death_handler == old(self).death_handler,
                self.static_influence == old(self).static_influence,
                self.step == old(self).step,
                evac_agent.wf(),
                0 <= dist.0 < self.w(),
                0 <= dist.1 < self.h(),
                forall|i: int|
                    0 <= i < competing@.len() ==> {
                        let e = #[trigger] competing@[i];
                        &&& 0 <= e.x < self.w()
                        &&& 0 <= e.y < self.h()
                        &&& evacuee_probs_ok(e)
                    },
                crate::strategy::rstp_int(rstp) == old(self).contest_tuple(nn, dist),
                asp as int == old(self).game_aspiration(),
                crate::strategy::max_dev(crate::strategy::rstp_int(rstp), asp as int) != 0,
                was_ok <==> !(game is Argument),
                forall|i: int| 0 <= i < m ==> -SCALE <= (#[trigger] ids@[i]).0 <= SCALE,
                forall|i: int|
                    0 <= i < m ==> exists|jj: int|
                        0 <= jj < nn && #[trigger] ids@[i] == crate::strategy::stim_pair(
                            game,
                            asp as int,
                            (rstp, competing@[jj]),
                        ),
                game is AllButOneCoop ==> ids@[0].1.strategy is Competitive,
                out@.len() == k,
                forall|i: int|
                    0 <= i < k ==> {
                        let e = #[trigger] out@[i];
                        &&& 0 <= e.x < self.w()
                        &&& 0 <= e.y < self.h()
                        &&& evacuee_probs_ok(e)
                    },
                was_ok && k > 0 ==> out@[0].x == dist.0 && out@[0].y == dist.1 && exists|j: int|
                    0 <= j < nn && adapted_from(
                        *evac_agent,
                        out@[0],
                        #[trigger] competing@[j],
                        old(self).game_stim(nn, dist, case, competing@[j].strategy),
                    ) && (case is AllButOneCoop ==> competing@[j].strategy is Competitive),
                forall|i: int|
                    (if was_ok {
                        1int
                    } else {
                        0int
                    }) <= i < k ==> exists|j: int|
                        0 <= j < nn && (#[trigger] out@[i]).x == competing@[j].x && out@[i].y
                            == competing@[j].y && adapted_from(
                            *evac_agent,
                            out@[i],
                            competing@[j],
                            old(self).game_stim(nn, dist, case, competing@[j].strategy),
                        ),
            decreases m - k,
        {
            let (stim, e0) = ids[k];
            let ghost j0 = choose|jj: int|
                0 <= jj < nn && ids@[k as int] == crate::strategy::stim_pair(
                    game,
                    asp as int,
                    (rstp, competing@[jj]),
                );
            proof {
                assert(e0 == competing@[j0]);
                assert(stim as int == crate::strategy::s_x_spec(
                    crate::strategy::rstp_int(rstp),
                    asp as int,
                    crate::strategy::chosen_reward(game, (rstp, competing@[j0])),
                ) as i64 as int);
                crate::strategy::lemma_s_x_spec_bound(
                    crate::strategy::rstp_int(rstp),
                    asp as int,
                    crate::strategy::chosen_reward_of(
                        game,
                        crate::strategy::rstp_int(rstp),
                        competing@[j0].strategy,
                    ),
                );
                assert(stim as int == old(self).game_stim(
                    nn,
                    dist,
                    case,
                    competing@[j0].strategy,
                ));
            }
            let mut evac = e0;
            evac_agent.calculate_strategies(&mut evac, rng, stim);
            proof {
                assert(adapted_from(*evac_agent, evac, e0, stim as int));
            }
            if was_ok && k == 0 {
                evac.x = dist.0;
                evac.y = dist.1;
            }
            out.push(evac);
            proof {
                if was_ok && k == 0 {
                    assert(adapted_from(
                        *evac_agent,
                        out@[0],
                        competing@[j0],
                        old(self).game_stim(nn, dist, case, competing@[j0].strategy),
                    ));
                    if case is AllButOneCoop {
                        assert(competing@[j0].strategy is Competitive);
                    }
                }
            }
            k = k + 1;
        }
        Ok(out)
    }
}

impl CellGrid {
    /// Gather every live evacuee's intention for this tick: evacuees on a
    /// burning cell die; evacuees without a free neighbor stay; the rest
    /// sample a destination from the movement distribution, escaping if it
    /// is the exit and otherwise queueing on the destination cell. Every
    /// live evacuee ends up in exactly one of the four groups.
    fn get_distinations(&mut self, evacuee_agent: &EvacueeAgent, rng: &mut SimRng) -> (r: (
        Vec<(Loc, Vec<EvacueeCell>)>,
        Vec<EvacueeCell>,
    ))
        requires
            old(self).wf(),
            evacuee_agent.wf(),
            old(self).conserved(),
            old(self).initial_config.evac_num <= old(self).cells(),
        ensures
            final (self).wf(),
            final (self).grid@ == old(self).grid@,
            final (self).evac_grid@ == old(self).evac_grid@,
            final (self).dim == old(self).dim,
            final (self).initial_config == old(self).initial_config,
            final (self).fire_influence == old(self).fire_influence,
            final (self).static_influence == old(self).static_influence,
            final (self).step == old(self).step,
            final (self).output_vars == old(self).output_vars,
            final (self).escape_handler.exit == old(self).escape_handler.exit,
            final (self).escape_handler.escaped_evac@.len() >= old(self).escape_handler.escaped_evac@.len(),
            final (self).death_handler.spec_dead() >= old(self).death_handler.spec_dead(),
            count_alive_upto(old(self).evac_grid@, old(self).evac_grid@.len() as int) == (final (self).escape_handler.escaped_evac@.len() - old(self).escape_handler.escaped_evac@.len()) + (
            final (self).death_handler.spec_dead() - old(self).death_handler.spec_dead())
                + r.1@.len() + sum_groups(r.0@, r.0@.len() as int),
            final (self).death_handler.spec_dead() == old(self).death_handler.spec_dead()
                + count_dead_upto(
                old(self).evac_grid@,
                old(self).grid@,
                old(self).grid@.len() as int,
            ),
            forall|k: int|
                0 <= k < r.1@.len() ==> {
                    let e = #[trigger] r.1@[k];
                    &&& 0 <= e.x < old(self).w()
                    &&& 0 <= e.y < old(self).h()
                    &&& evacuee_probs_ok(e)
                    &&& old(self).evac_grid@[e.x * old(self).h() + e.y] == Some(e)
                },
            forall|j: int|
                0 <= j < r.0@.len() ==> {
                    let g = #[trigger] r.0@[j];
                    &&& 1 <= g.1@.len()
                    &&& 0 <= g.0.0 < old(self).w()
                    &&& 0 <= g.0.1 < old(self).h()
                    &&& old(self).grid@[g.0.0 * old(self).h() + g.0.1] is Empty
                    &&& old(self).evac_grid@[g.0.0 * old(self).h() + g.0.1] is None
                    &&& forall|k: int|
                        0 <= k < g.1@.len() ==> {
                            let e = #[trigger] g.1@[k];
                            &&& 0 <= e.x < old(self).w()
                            &&& 0 <= e.y < old(self).h()
                            &&& evacuee_probs_ok(e)
                            &&& old(self).evac_grid@[e.x * old(self).h() + e.y] == Some(e)
                        }
                },
            forall|i: int|
                0 <= i < old(self).evac_grid@.len() ==> ((#[trigger] old(self).evac_grid@[i])
                    matches Some(e) ==> (old(self).grid@[i] is Empty && !old(self).free_dest(
                    e.x as int,
                    e.y as int + 1,
                ) && !old(self).free_dest(e.x as int + 1, e.y as int) && !old(self).free_dest(
                    e.x as int - 1,
                    e.y as int,
                ) && !old(self).free_dest(e.x as int, e.y as int - 1) ==> r.1@.contains(e))),
    {
        let cells: usize = self.grid.len();
        let mut updates: Vec<(Loc, Vec<EvacueeCell>)> = Vec::new();
        let mut still: Vec<EvacueeCell> = Vec::new();
        let ghost esc0 = self.escape_handler.escaped_evac@.len() as int;
        let ghost dead0 = self.death_handler.spec_dead();
        proof {
            lemma_count_alive_bounds(self.evac_grid@, self.evac_grid@.len() as int);
            assert(self.cells() <= 1_440_000) by (nonlinear_arith)
                requires
                    1 <= self.dim.0 <= 1200,
                    1 <= self.dim.1 <= 1200,
            ;
        }
        let mut idx: usize = 0;
        while idx < cells
            invariant
                0 <= idx <= cells,
                cells == self.cells() <= 1_440_000,
                cells == self.grid@.len(),
                self.wf(),
                evacuee_agent.wf(),
                self.grid@ == old(self).grid@,
                self.evac_grid@ == old(self).evac_grid@,
                self.dim == old(self).dim,
                self.initial_config == old(self).initial_config,
                self.fire_influence == old(self).fire_influence,
                self.static_influence == old(self).static_influence,
                self.step == old(self).step,
                self.output_vars == old(self).output_vars,
                self.escape_handler.exit == old(self).escape_handler.exit,
                esc0 == old(self).escape_handler.escaped_evac@.len() as int,
                dead0 == old(self).death_handler.spec_dead(),
                esc0 <= self.escape_handler.escaped_evac@.len(),
                dead0 <= self.death_handler.spec_dead(),
                dead0 <= 1_440_000,
                (self.escape_handler.escaped_evac@.len() - esc0) + (self.death_handler.spec_dead()
                    - dead0) + still@.len() + sum_groups(updates@, updates@.len() as int)
                    == count_alive_upto(self.evac_grid@, idx as int),
                self.death_handler.spec_dead() - dead0 == count_dead_upto(
                    self.evac_grid@,
                    self.grid@,
                    idx as int,
                ),
                forall|k: int|
                    0 <= k < still@.len() ==> {
                        let e = #[trigger] still@[k];
                        &&& 0 <= e.x < self.w()
                        &&& 0 <= e.y < self.h()
                        &&& evacuee_probs_ok(e)
                        &&& self.evac_grid@[e.x * self.h() + e.y] == Some(e)
                    },
                forall|i: int|
                    0 <= i < idx ==> ((#[trigger] self.evac_grid@[i]) matches Some(e) ==> (
                    self.grid@[i] is Empty && !self.free_dest(e.x as int, e.y as int + 1)
                        && !self.free_dest(e.x as int + 1, e.y as int) && !self.free_dest(
                        e.x as int - 1,
                        e.y as int,
                    ) && !self.free_dest(e.x as int, e.y as int - 1) ==> still@.contains(e))),
                forall|j: int|
                    0 <= j < updates@.len() ==> {
                        let g = #[trigger] updates@[j];
                        &&& 1 <= g.1@.len()
                        &&& 0 <= g.0.0 < self.w()
                        &&& 0 <= g.0.1 < self.h()
                        &&& self.grid@[g.0.0 * self.h() + g.0.1] is Empty
                        &&& self.evac_grid@[g.0.0 * self.h() + g.0.1] is None
                        &&& forall|k: int|
                            0 <= k < g.1@.len() ==> {
                                let e = #[trigger] g.1@[k];
                                &&& 0 <= e.x < self.w()
                                &&& 0 <= e.y < self.h()
                                &&& evacuee_probs_ok(e)
                                &&& self.evac_grid@[e.x * self.h() + e.y] == Some(e)
                            }
                    },
            decreases cells - idx,
        {
            let ghost alive_before = count_alive_upto(self.evac_grid@, idx as int);
            let entry = self.evac_grid[idx];
            match entry {
                None => {},
                Some(e) => {
                    proof {
                        lemma_count_alive_bounds(self.evac_grid@, idx as int);
                    }
                    if matches!(self.grid[idx], CellType::Fire) {
                        proof {
                            lemma_sum_groups_nonneg(updates@, updates@.len() as int);
                            assert(self.death_handler.spec_dead() < usize::MAX);
                        }
                        self.death_handler.update_death(Loc(e.x, e.y));
                    } else {
                        let neigh = self.get_neigh(e.x, e.y);
                        if neigh.len() == 0 {
                            let ghost pre_still = still@;
                            still.push(e);
                            proof {
                                assert(still@[still@.len() - 1] == e);
                                assert(still@.contains(e));
                                assert forall|l: EvacueeCell| pre_still.contains(l)
                                    implies still@.contains(l) by {
                                    let kk = choose|kk: int|
                                        0 <= kk < pre_still.len() && pre_still[kk] == l;
                                    assert(still@[kk] == l);
                                }
                            }
                        } else {
                            proof {
                                // some probed direction accepted a move
                                let l = neigh@[0];
                                assert(self.free_dest(e.x as int, e.y as int + 1)
                                    || self.free_dest(e.x as int + 1, e.y as int)
                                    || self.free_dest(e.x as int - 1, e.y as int)
                                    || self.free_dest(e.x as int, e.y as int - 1)) by {
                                    if l == Loc(e.x, (e.y + 1) as i32) {
                                        assert(self.free_dest(e.x as int, e.y as int + 1));
                                    } else if l == Loc((e.x + 1) as i32, e.y) {
                                        assert(self.free_dest(e.x as int + 1, e.y as int));
                                    } else if l == Loc((e.x - 1) as i32, e.y) {
                                        assert(self.free_dest(e.x as int - 1, e.y as int));
                                    } else {
                                        assert(l == Loc(e.x, (e.y - 1) as i32));
                                        assert(self.free_dest(e.x as int, e.y as int - 1));
                                    }
                                }
                            }
                            let probs = evacuee_agent.calculate_probabilities(
                                &neigh,
                                &self.static_influence,
                                &self.fire_influence,
                            );
                            let pick = rng.sample_weighted(&probs);
                            let opted = neigh[pick];
                            if self.escape_handler.is_exit(&opted) {
                                let tick: usize = #[verifier::truncate] (self.step as usize);
                                self.escape_handler.escaped(e, tick);
                            } else {
                                // queue on the destination cell
                                proof {
                                    lemma_cell_index_bounds(
                                        opted.0 as int,
                                        opted.1 as int,
                                        self.w(),
                                        self.h(),
                                    );
                                    assert(self.grid@[opted.0 * self.h() + opted.1] is Empty);
                                    assert(self.evac_grid@[opted.0 * self.h() + opted.1] is None);
                                }
                                let nup = updates.len();
                                let mut gi: usize = 0;
                                while gi < nup && !(updates[gi].0 == opted)
                                    invariant
                                        0 <= gi <= nup,
                                        nup == updates@.len(),
                                    decreases nup - gi,
                                {
                                    gi = gi + 1;
                                }
                                let ghost ups0 = updates@;
                                if gi < nup {
                                    let grp = &mut updates[gi];
                                    grp.1.push(e);
                                    proof {
                                        lemma_sum_groups_update(
                                            ups0,
                                            gi as int,
                                            updates@[gi as int],
                                            ups0.len() as int,
                                        );
                                    }
                                } else {
                                    let mut grp: Vec<EvacueeCell> = Vec::new();
                                    grp.push(e);
                                    updates.push((opted, grp));
                                    proof {
                                        lemma_sum_groups_agree(
                                            updates@,
                                            ups0,
                                            ups0.len() as int,
                                        );
                                    }
                                }
                            }
                        }
                    }
                },
            }
            proof {
                assert(count_alive_upto(self.evac_grid@, idx as int + 1) == alive_before + (
                if self.evac_grid@[idx as int] is Some {
                    1int
                } else {
                    0int
                }));
                assert(count_dead_upto(self.evac_grid@, self.grid@, idx as int + 1)
                    == count_dead_upto(self.evac_grid@, self.grid@, idx as int) + (
                if self.evac_grid@[idx as int] is Some && self.grid@[idx as int] is Fire {
                    1int
                } else {
                    0int
                }));
            }
            idx = idx + 1;
        }
        proof {
            assert(count_alive_upto(self.evac_grid@, cells as int) == count_alive_upto(
                self.evac_grid@,
                self.evac_grid@.len() as int,
            ));
        }
        (updates, still)
    }

    /// One movement pass: gather intentions, admit sole proposers, play the
    /// strategy game on each contested cell, and commit the resulting
    /// evacuee field at once. Every evacuee of the run stays in exactly one
    /// of alive, escaped and dead.
    pub fn evacuee_step(&mut self, evacuee_agent: &EvacueeAgent, rng: &mut SimRng) -> (r: Result<
        (),
        SimError,
    >)
        requires
            old(self).wf(),
            evacuee_agent.wf(),
            old(self).conserved(),
            old(self).initial_config.evac_num <= old(self).cells(),
        ensures
            final (self).wf(),
            final (self).grid@ == old(self).grid@,
            final (self).dim == old(self).dim,
            final (self).initial_config == old(self).initial_config,
            final (self).fire_influence == old(self).fire_influence,
            final (self).static_influence == old(self).static_influence,
            final (self).step == old(self).step,
            r is Ok ==> final (self).conserved(),
            final (self).death_handler.spec_dead() == old(self).death_handler.spec_dead()
                + count_dead_upto(
                old(self).evac_grid@,
                old(self).grid@,
                old(self).grid@.len() as int,
            ),
            r is Ok ==> forall|i: int|
                0 <= i < old(self).evac_grid@.len() ==> ((#[trigger] old(self).evac_grid@[i])
                    matches Some(e) ==> (old(self).grid@[i] is Empty && !old(self).free_dest(
                    e.x as int,
                    e.y as int + 1,
                ) && !old(self).free_dest(e.x as int + 1, e.y as int) && !old(self).free_dest(
                    e.x as int - 1,
                    e.y as int,
                ) && !old(self).free_dest(e.x as int, e.y as int - 1) ==> final (self).evac_grid@[i]
                    == Some(e))),
            r is Ok ==> forall|i: int|
                0 <= i < final (self).evac_grid@.len() && (#[trigger] final (self).evac_grid@[i])
                    is Some ==> (old(self).evac_grid@[i] is Some || old(self).grid@[i] is Empty),
    {
        let (updates, still) = self.get_distinations(evacuee_agent, rng);
        let ghost esc_mid = self.escape_handler.escaped_evac@.len() as int;
        let ghost dead_mid = self.death_handler.spec_dead();
        let w: u32 = self.dim.0;
        let h: u32 = self.dim.1;
        assert(self.dim.0 as int * (self.dim.1 as int) <= 1_440_000) by (nonlinear_arith)
            requires
                1 <= self.dim.0 <= 1200,
                1 <= self.dim.1 <= 1200,
        ;
        let cells: usize = (w as usize) * (h as usize);
        let mut newg = fill_none_grid(cells);
        proof {
            lemma_count_alive_empty(newg@, cells as int);
        }
        // the stayers keep their cells
        let ns = still.len();
        let mut i: usize = 0;
        while i < ns
            invariant
                0 <= i <= ns,
                ns == still@.len(),
                self.wf(),
                self.death_handler.spec_dead() == dead_mid,
                dead_mid == old(self).death_handler.spec_dead() + count_dead_upto(
                    old(self).evac_grid@,
                    old(self).grid@,
                    old(self).grid@.len() as int,
                ),
                forall|k: int|
                    0 <= k < i ==> newg@[(#[trigger] still@[k]).x * (h as int) + still@[k].y]
                        == Some(still@[k]),
                forall|ii: int|
                    0 <= ii < newg@.len() && (#[trigger] newg@[ii]) is Some ==> old(
                        self,
                    ).evac_grid@[ii] is Some,
                forall|k: int|
                    0 <= k < still@.len() ==> old(self).evac_grid@[(#[trigger] still@[k]).x * (
                    h as int) + still@[k].y] == Some(still@[k]),
                forall|k: int|
                    0 <= k < still@.len() ==> 0 <= (#[trigger] still@[k]).x < w as int && 0 <= still@[k].y < h as int,
                self.grid@ == old(self).grid@,
                self.evac_grid@ == old(self).evac_grid@,
                self.dim == old(self).dim,
                self.initial_config == old(self).initial_config,
                self.fire_influence == old(self).fire_influence,
                self.static_influence == old(self).static_influence,
                self.step == old(self).step,
                w == self.dim.0 && h == self.dim.1,
                1 <= w <= 1200 && 1 <= h <= 1200,
                cells == w as int * (h as int),
                newg@.len() == cells,
                evac_grid_coherent(newg@, w as int, h as int),
                count_alive_upto(newg@, newg@.len() as int) == i,
                forall|k: int|
                    0 <= k < still@.len() ==> {
                        let e = #[trigger] still@[k];
                        &&& 0 <= e.x < w as int
                        &&& 0 <= e.y < h as int
                        &&& evacuee_probs_ok(e)
                    },
            decreases ns - i,
        {
            let ghost pre_newg = newg@;
            match insert_one(&mut newg, still[i], w, h) {
                Ok(()) => {},
                Err(er) => {
                    return Err(er);
                },
            }
            proof {
                let e = still@[i as int];
                let tgt = e.x * (h as int) + e.y;
                lemma_cell_index_bounds(e.x as int, e.y as int, w as int, h as int);
                assert(newg@ == pre_newg.update(tgt, Some(e)));
                assert forall|k: int|
                    0 <= k < i + 1 implies newg@[(#[trigger] still@[k]).x * (h as int)
                    + still@[k].y] == Some(still@[k]) by {
                    let sc = still@[k].x * (h as int) + still@[k].y;
                    lemma_cell_index_bounds(
                        still@[k].x as int,
                        still@[k].y as int,
                        w as int,
                        h as int,
                    );
                    if k < i {
                        if sc == tgt {
                            assert(pre_newg[sc] is Some);
                            assert(pre_newg[tgt] is None);
                        }
                    }
                }
                assert forall|ii: int|
                    0 <= ii < newg@.len() && (#[trigger] newg@[ii]) is Some implies (old(
                    self,
                ).evac_grid@[ii] is Some || old(self).grid@[ii] is Empty) by {
                    if ii == tgt {
                        assert(old(self).evac_grid@[tgt] == Some(e));
                    } else {
                        assert(pre_newg[ii] is Some);
                    }
                }
            }
            i = i + 1;
        }
        // each contested cell plays its game
        proof {
            lemma_sum_groups_nonneg(updates@, updates@.len() as int);
            lemma_count_alive_bounds(old(self).evac_grid@, old(self).evac_grid@.len() as int);
            let ghost w0 = old(self).dim.0 as int;
            let ghost h0 = old(self).dim.1 as int;
            assert(w0 * h0 <= 1_440_000) by (nonlinear_arith)
                requires
                    1 <= w0 <= 1200,
                    1 <= h0 <= 1200,
            ;
            assert(sum_groups(updates@, updates@.len() as int) <= 1_440_000);
        }
        let nu = updates.len();
        let mut j: usize = 0;
        while j < nu
            invariant
                0 <= j <= nu,
                nu == updates@.len(),
                self.wf(),
                evacuee_agent.wf(),
                self.grid@ == old(self).grid@,
                self.evac_grid@ == old(self).evac_grid@,
                self.dim == old(self).dim,
                self.initial_config == old(self).initial_config,
                self.fire_influence == old(self).fire_influence,
                self.static_influence == old(self).static_influence,
                self.step == old(self).step,
                self.escape_handler.escaped_evac@.len() == esc_mid,
                self.death_handler.spec_dead() == dead_mid,
                dead_mid == old(self).death_handler.spec_dead() + count_dead_upto(
                    old(self).evac_grid@,
                    old(self).grid@,
                    old(self).grid@.len() as int,
                ),
                forall|k: int|
                    0 <= k < still@.len() ==> newg@[(#[trigger] still@[k]).x * (h as int)
                        + still@[k].y] == Some(still@[k]),
                forall|k: int|
                    0 <= k < still@.len() ==> old(self).evac_grid@[(#[trigger] still@[k]).x * (
                    h as int) + still@[k].y] == Some(still@[k]),
                forall|k: int|
                    0 <= k < still@.len() ==> 0 <= (#[trigger] still@[k]).x < w as int && 0 <= still@[k].y < h as int,
                forall|ii: int|
                    0 <= ii < newg@.len() && (#[trigger] newg@[ii]) is Some ==> (old(
                        self,
                    ).evac_grid@[ii] is Some || old(self).grid@[ii] is Empty),
                w == self.dim.0 && h == self.dim.1,
                cells == w as int * (h as int),
                newg@.len() == cells,
                evac_grid_coherent(newg@, w as int, h as int),
                count_alive_upto(newg@, newg@.len() as int) == still@.len() + sum_groups(
                    updates@,
                    j as int,
                ),
                sum_groups(updates@, updates@.len() as int) <= 1_440_000,
                forall|jj: int|
                    0 <= jj < updates@.len() ==> {
                        let g = #[trigger] updates@[jj];
                        &&& 1 <= g.1@.len()
                        &&& 0 <= g.0.0 < w as int
                        &&& 0 <= g.0.1 < h as int
                        &&& old(self).grid@[g.0.0 * (h as int) + g.0.1] is Empty
                        &&& old(self).evac_grid@[g.0.0 * (h as int) + g.0.1] is None
                        &&& forall|k: int|
                            0 <= k < g.1@.len() ==> {
                                let e = #[trigger] g.1@[k];
                                &&& 0 <= e.x < w as int
                                &&& 0 <= e.y < h as int
                                &&& evacuee_probs_ok(e)
                                &&& old(self).evac_grid@[e.x * (h as int) + e.y] == Some(e)
                            }
                    },
            decreases nu - j,
        {
            let dest: Loc = updates[j].0;
            // take a copy of the group
            let gl = updates[j].1.len();
            let mut competing: Vec<EvacueeCell> = Vec::new();
            let mut t: usize = 0;
            while t < gl
                invariant
                    0 <= t <= gl,
                    0 <= j < updates@.len(),
                    gl == updates@[j as int].1@.len(),
                    competing@ == updates@[j as int].1@.subrange(0, t as int),
                decreases gl - t,
            {
                let grp = &updates[j].1;
                competing.push(grp[t]);
                proof {
                    assert(updates@[j as int].1@.subrange(0, t as int + 1) == updates@[
                    j as int].1@.subrange(0, t as int).push(updates@[j as int].1@[t as int]));
                }
                t = t + 1;
            }
            proof {
                assert(competing@ == updates@[j as int].1@);
                lemma_sum_groups_member(updates@, j as int, updates@.len() as int);
                lemma_count_alive_bounds(newg@, newg@.len() as int);
            }
            let ghost members = competing@;
            let outs = match self.play_game(dest, competing, rng, evacuee_agent) {
                Ok(v) => v,
                Err(er) => {
                    return Err(er);
                },
            };
            proof {
                // every resolved evacuee sits at the contested cell or on
                // one of the group's own cells
                assert forall|kk: int| 0 <= kk < outs@.len() implies ((#[trigger] outs@[kk]).x
                    == dest.0 && outs@[kk].y == dest.1) || (exists|jm: int|
                    0 <= jm < members.len() && outs@[kk].x == (#[trigger] members[jm]).x
                        && outs@[kk].y == members[jm].y) by {
                    if members.len() >= 2 {
                        let case = crate::strategy::rule_case_of(
                            crate::strategy::count_comp(
                                members.map_values(|e: EvacueeCell| e.strategy),
                            ),
                        );
                        if case is Argument || kk >= 1 {
                            assert(exists|jm: int|
                                0 <= jm < members.len() && (#[trigger] members[jm]).x == outs@[
                                kk].x && members[jm].y == outs@[kk].y);
                        }
                    }
                }
            }
            let no = outs.len();
            let mut k: usize = 0;
            while k < no
                invariant
                    0 <= k <= no,
                    no == outs@.len(),
                    self.wf(),
                    self.grid@ == old(self).grid@,
                    self.evac_grid@ == old(self).evac_grid@,
                    self.dim == old(self).dim,
                    self.initial_config == old(self).initial_config,
                    self.fire_influence == old(self).fire_influence,
                    self.static_influence == old(self).static_influence,
                    self.step == old(self).step,
                    self.escape_handler.escaped_evac@.len() == esc_mid,
                    self.death_handler.spec_dead() == dead_mid,
                    dead_mid == old(self).death_handler.spec_dead() + count_dead_upto(
                        old(self).evac_grid@,
                        old(self).grid@,
                        old(self).grid@.len() as int,
                    ),
                    forall|k: int|
                        0 <= k < still@.len() ==> newg@[(#[trigger] still@[k]).x * (h as int)
                            + still@[k].y] == Some(still@[k]),
                    forall|k: int|
                        0 <= k < still@.len() ==> old(self).evac_grid@[(#[trigger] still@[k]).x * (
                        h as int) + still@[k].y] == Some(still@[k]),
                    forall|k: int|
                        0 <= k < still@.len() ==> 0 <= (#[trigger] still@[k]).x < w as int && 0 <= still@[k].y < h as int,
                    forall|ii: int|
                        0 <= ii < newg@.len() && (#[trigger] newg@[ii]) is Some ==> (old(
                            self,
                        ).evac_grid@[ii] is Some || old(self).grid@[ii] is Empty),
                    w == self.dim.0 && h == self.dim.1,
                    1 <= w <= 1200 && 1 <= h <= 1200,
                    cells == w as int * (h as int),
                    newg@.len() == cells,
                    evac_grid_coherent(newg@, w as int, h as int),
                    count_alive_upto(newg@, newg@.len() as int) == still@.len() + sum_groups(
                        updates@,
                        j as int,
                    ) + k,
                    0 <= j < updates@.len(),
                    dest == updates@[j as int].0,
                    members == updates@[j as int].1@,
                    old(self).grid@[dest.0 * (h as int) + dest.1] is Empty,
                    old(self).evac_grid@[dest.0 * (h as int) + dest.1] is None,
                    0 <= dest.0 < w as int && 0 <= dest.1 < h as int,
                    forall|km: int|
                        0 <= km < members.len() ==> old(self).evac_grid@[(
                        #[trigger] members[km]).x * (h as int) + members[km].y] == Some(
                            members[km],
                        ),
                    forall|km: int|
                        0 <= km < members.len() ==> 0 <= (#[trigger] members[km]).x < w as int && 0
                            <= members[km].y < h as int,
                    forall|kk: int|
                        0 <= kk < outs@.len() ==> (((#[trigger] outs@[kk]).x == dest.0 && outs@[
                        kk].y == dest.1) || (exists|jm: int|
                            0 <= jm < members.len() && outs@[kk].x == (#[trigger] members[jm]).x
                                && outs@[kk].y == members[jm].y)),
                    forall|kk: int|
                        0 <= kk < outs@.len() ==> {
                            let e = #[trigger] outs@[kk];
                            &&& 0 <= e.x < w as int
                            &&& 0 <= e.y < h as int
                            &&& evacuee_probs_ok(e)
                        },
                decreases no - k,
            {
                let ghost pre_newg = newg@;
                match insert_one(&mut newg, outs[k], w, h) {
                    Ok(()) => {},
                    Err(er) => {
                        return Err(er);
                    },
                }
                proof {
                    let e = outs@[k as int];
                    let tgt = e.x * (h as int) + e.y;
                    lemma_cell_index_bounds(e.x as int, e.y as int, w as int, h as int);
                    assert(newg@ == pre_newg.update(tgt, Some(e)));
                    if !(e.x == dest.0 && e.y == dest.1) {
                        let jm = choose|jm: int|
                            0 <= jm < members.len() && e.x == (#[trigger] members[jm]).x && e.y
                                == members[jm].y;
                        assert(old(self).evac_grid@[tgt] == Some(members[jm]));
                    } else {
                        assert(tgt == dest.0 * (h as int) + dest.1);
                    }
                    assert forall|ii: int|
                        0 <= ii < newg@.len() && (#[trigger] newg@[ii]) is Some implies (old(
                        self,
                    ).evac_grid@[ii] is Some || old(self).grid@[ii] is Empty) by {
                        if ii != tgt {
                            assert(pre_newg[ii] is Some);
                        }
                    }
                    assert forall|k2: int|
                        0 <= k2 < still@.len() implies newg@[(#[trigger] still@[k2]).x * (
                    h as int) + still@[k2].y] == Some(still@[k2]) by {
                        let sc = still@[k2].x * (h as int) + still@[k2].y;
                        lemma_cell_index_bounds(
                            still@[k2].x as int,
                            still@[k2].y as int,
                            w as int,
                            h as int,
                        );
                        if sc == tgt {
                            assert(pre_newg[sc] is Some);
                            assert(pre_newg[tgt] is None);
                        }
                    }
                }
                k = k + 1;
            }
            proof {
                assert(sum_groups(updates@, j as int + 1) == sum_groups(updates@, j as int)
                    + updates@[j as int].1@.len());
            }
            j = j + 1;
        }
        self.evac_grid = newg;
        proof {
            assert(self.evac_coherent());
            assert(self.wf());
            assert(self.conserved());
        }
        Ok(())
    }
}

/// The outcome counters of one finished run, read by the outer search
/// loops.
#[derive(Debug, Clone, Copy)]
pub struct RunResult {
    pub escaped: usize,
    pub dead: usize,
    pub all_coop_games: u64,
    pub all_but_one_games: u64,
    pub argument_games: u64,
    pub ticks: u64,
}

/// The number of cooperative evacuees among the first `k` entries.
pub open spec fn count_coop_upto(g: Seq<Option<EvacueeCell>>, k: int) -> int
    decreases k,
{
    if k <= 0 {
        0
    } else {
        count_coop_upto(g, k - 1) + (if g[k - 1] matches Some(e) && e.strategy is Cooperative {
            1int
        } else {
            0int
        })
    }
}

/// The sum of the cooperative retention probabilities of the first `k`
/// entries, in micro units.
pub open spec fn sum_pr_c_upto(g: Seq<Option<EvacueeCell>>, k: int) -> int
    decreases k,
{
    if k <= 0 {
        0
    } else {
        sum_pr_c_upto(g, k - 1) + (if g[k - 1] is Some {
            (g[k - 1]->0).pr_c as int
        } else {
            0int
        })
    }
}

/// The sum of the competitive retention probabilities of the first `k`
/// entries, in micro units.
pub open spec fn sum_pr_d_upto(g: Seq<Option<EvacueeCell>>, k: int) -> int
    decreases k,
{
    if k <= 0 {
        0
    } else {
        sum_pr_d_upto(g, k - 1) + (if g[k - 1] is Some {
            (g[k - 1]->0).pr_d as int
        } else {
            0int
        })
    }
}

proof fn lemma_counts_bounded(g: Seq<Option<EvacueeCell>>, k: int, w: int, h: int)
    requires
        0 <= k <= g.len(),
        evac_grid_coherent(g, w, h),
    ensures
        0 <= count_coop_upto(g, k) <= k,
        count_coop_upto(g, k) <= count_alive_upto(g, k),
        0 <= sum_pr_c_upto(g, k) <= k * (SCALE as int),
        0 <= sum_pr_d_upto(g, k) <= k * (SCALE as int),
    decreases k,
{
    if k > 0 {
        lemma_counts_bounded(g, k - 1, w, h);
        assert((k - 1) * (SCALE as int) + (SCALE as int) == k * (SCALE as int)) by (nonlinear_arith);
    }
}

/// A per-tick snapshot of the population: the computable core of the
/// per-tick reporting.
#[derive(Debug, Clone, Copy)]
pub struct TickSummary {
    /// Evacuees still on the grid.
    pub alive: usize,
    /// Of those, how many currently hold the cooperative strategy.
    pub cooperative: usize,
    pub escaped: usize,
    pub dead: usize,
    /// Sum of the cooperative retention probabilities, in micro units.
    pub pr_c_sum: i64,
    /// Sum of the competitive retention probabilities, in micro units.
    pub pr_d_sum: i64,
}

impl CellGrid {
    /// One full tick: the fire pass, then the movement pass, then the tick
    /// counter. Burning cells stay burning, and every evacuee stays
    /// accounted for.
    pub fn step(
        &mut self,
        fire_agent: &crate::fire::FireRules,
        evac_agent: &EvacueeAgent,
        rng: &mut SimRng,
    ) -> (r: Result<(), SimError>)
        requires
            old(self).wf(),
            fire_agent.wf(),
            evac_agent.wf(),
            old(self).conserved(),
            old(self).initial_config.evac_num <= old(self).cells(),
            old(self).step < u64::MAX,
        ensures
            final (self).wf(),
            r is Ok ==> final (self).conserved(),
            forall|i: int|
                0 <= i < old(self).grid@.len() && old(self).grid@[i] is Fire ==> final (self).grid@[i] is Fire,
            forall|x: int, y: int|
                0 <= x < old(self).w() && 0 <= y < old(self).h() && #[trigger] fire_at(
                    final (self).grid@,
                    old(self).h(),
                    x,
                    y,
                ) && !fire_at(old(self).grid@, old(self).h(), x, y) ==> has_burning_neighbor(
                    old(self).grid@,
                    old(self).w(),
                    old(self).h(),
                    x,
                    y,
                ),
            forall|x: int, y: int|
                0 <= x < old(self).w() && 0 <= y < old(self).h() && !fire_at(
                    old(self).grid@,
                    old(self).h(),
                    x,
                    y,
                ) && crate::fire::transition_prob(
                    fire_agent.spread as int,
                    CellType::Empty,
                    moore_fire_count(old(self).grid@, old(self).w(), old(self).h(), x, y),
                ) == SCALE ==> #[trigger] fire_at(final (self).grid@, old(self).h(), x, y),
            final (self).grid@.len() == old(self).grid@.len(),
            final (self).dim == old(self).dim,
            final (self).initial_config == old(self).initial_config,
            final (self).static_influence == old(self).static_influence,
            r is Ok ==> final (self).step == old(self).step + 1,
    {
        self.fire_step(fire_agent, rng);
        match self.evacuee_step(evac_agent, rng) {
            Ok(()) => {},
            Err(er) => {
                return Err(er);
            },
        }
        self.step = self.step + 1;
        Ok(())
    }

    /// Start a run: clear all run state, apply the initial configuration
    /// (under the parameter seed when one is configured), and hand back the
    /// fire rule and evacuee handler the run's ticks will use.
    pub fn init(&mut self, rng: &mut SimRng) -> (r: Result<
        (crate::fire::FireRules, EvacueeAgent),
        SimError,
    >)
        requires
            old(self).wf(),
        ensures
            final (self).wf(),
            r matches Ok(agents) ==> {
                &&& final (self).conserved()
                &&& final (self).initial_config.evac_num <= final (self).cells()
                &&& final (self).step == 0
                &&& agents.0.wf()
                &&& agents.1.wf()
            },
            final (self).dim == old(self).dim,
            final (self).initial_config == old(self).initial_config,
            old(self).config_placeable() && old(self).params_valid() ==> r is Ok,
            r is Ok ==> old(self).params_valid(),
    {
        if self.iteration < u16::MAX {
            self.iteration = self.iteration + 1;
        }
        match self.param_seed {
            Some(s) => {
                let mut seeded = SimRng::seed_from_u64(s);
                self.init_inner(&mut seeded)
            },
            None => self.init_inner(rng),
        }
    }

    fn init_inner(&mut self, rng: &mut SimRng) -> (r: Result<
        (crate::fire::FireRules, EvacueeAgent),
        SimError,
    >)
        requires
            old(self).wf(),
        ensures
            final (self).wf(),
            r matches Ok(agents) ==> {
                &&& final (self).conserved()
                &&& final (self).initial_config.evac_num <= final (self).cells()
                &&& final (self).step == 0
                &&& agents.0.wf()
                &&& agents.1.wf()
            },
            final (self).dim == old(self).dim,
            final (self).initial_config == old(self).initial_config,
            old(self).config_placeable() && old(self).params_valid() ==> r is Ok,
            r is Ok ==> old(self).params_valid(),
    {
        self.reset();
        match self.set_intial(rng) {
            Ok(()) => {},
            Err(er) => {
                return Err(er);
            },
        }
        proof {
            lemma_count_alive_bounds(self.evac_grid@, self.evac_grid@.len() as int);
        }
        let spread: i64 = match self.initial_config.fire_spread {
            Some(s) => {
                if !(0 <= s && s <= SCALE) {
                    return Err(SimError::InvalidConfig);
                }
                s
            },
            None => rng.gen_micro(),
        };
        let lc: i64 = match self.initial_config.lc {
            Some(v) => {
                if !(0 <= v && v <= SCALE) {
                    return Err(SimError::InvalidConfig);
                }
                v
            },
            None => 500_000,
        };
        let ld: i64 = match self.initial_config.ld {
            Some(v) => {
                if !(0 <= v && v <= SCALE) {
                    return Err(SimError::InvalidConfig);
                }
                v
            },
            None => 500_000,
        };
        let fire_rules = crate::fire::FireRules { id: 1, spread, fire_grid: Vec::new() };
        let agent = EvacueeAgent { id: 2, lc, ld };
        Ok((fire_rules, agent))
    }

    /// Drive a run to its end: tick until the end condition holds or the
    /// tick cap is reached, then read the outcome counters.
    pub fn run_to_end(
        &mut self,
        fire_agent: &crate::fire::FireRules,
        evac_agent: &EvacueeAgent,
        max_ticks: u64,
        rng: &mut SimRng,
    ) -> (r: Result<RunResult, SimError>)
        requires
            old(self).wf(),
            fire_agent.wf(),
            evac_agent.wf(),
            old(self).conserved(),
            old(self).initial_config.evac_num <= old(self).cells(),
            old(self).step == 0,
            max_ticks < u64::MAX,
        ensures
            final (self).wf(),
            r matches Ok(res) ==> {
                &&& final (self).conserved()
                &&& res.escaped == final (self).escape_handler.escaped_evac@.len()
                &&& res.dead == final (self).death_handler.spec_dead()
                &&& res.all_coop_games == final (self).output_vars.per_case_ratio_1
                &&& res.all_but_one_games == final (self).output_vars.per_case_ratio_2
                &&& res.argument_games == final (self).output_vars.per_case_ratio_3
                &&& res.ticks <= max_ticks
                &&& res.ticks == final (self).step
                &&& (res.ticks < max_ticks ==> (final (self).fire_influence.fire_area == final (self).cells() || final (self).initial_config.evac_num == final (self).death_handler.spec_dead() + final (self).escape_handler.escaped_evac@.len()))
            },
    {
        let mut t: u64 = 0;
        let mut done: bool = false;
        while t < max_ticks && !done
            invariant
                0 <= t <= max_ticks < u64::MAX,
                self.wf(),
                self.conserved(),
                self.initial_config.evac_num <= self.cells(),
                fire_agent.wf(),
                evac_agent.wf(),
                self.step == t,
                done ==> (self.fire_influence.fire_area == self.cells()
                    || self.initial_config.evac_num == self.death_handler.spec_dead()
                    + self.escape_handler.escaped_evac@.len()),
            decreases max_ticks - t, (if done {
                0int
            } else {
                1int
            }),
        {
            if self.end_condition() {
                done = true;
            } else {
                match self.step(fire_agent, evac_agent, rng) {
                    Ok(()) => {},
                    Err(er) => {
                        return Err(er);
                    },
                }
                t = t + 1;
            }
        }
        let escaped = self.escape_handler.get_escaped_number();
        let dead = self.death_handler.get_dead();
        Ok(
            RunResult {
                escaped,
                dead,
                all_coop_games: self.output_vars.per_case_ratio_1,
                all_but_one_games: self.output_vars.per_case_ratio_2,
                argument_games: self.output_vars.per_case_ratio_3,
                ticks: t,
            },
        )
    }

    /// The population snapshot after a tick: alive and cooperative counts
    /// and the retention-probability sums, beside the escape and death
    /// counters.
    pub fn tick_summary(&self) -> (r: TickSummary)
        requires
            self.wf(),
        ensures
            r.alive == count_alive_upto(self.evac_grid@, self.evac_grid@.len() as int),
            r.cooperative == count_coop_upto(self.evac_grid@, self.evac_grid@.len() as int),
            r.escaped == self.escape_handler.escaped_evac@.len(),
            r.dead == self.death_handler.spec_dead(),
            r.pr_c_sum == sum_pr_c_upto(self.evac_grid@, self.evac_grid@.len() as int),
            r.pr_d_sum == sum_pr_d_upto(self.evac_grid@, self.evac_grid@.len() as int),
            r.cooperative <= r.alive,
    {
        let n = self.evac_grid.len();
        let mut alive: usize = 0;
        let mut coop: usize = 0;
        let mut prc: i64 = 0;
        let mut prd: i64 = 0;
        let mut i: usize = 0;
        proof {
            assert(self.cells() <= 1_440_000) by (nonlinear_arith)
                requires
                    1 <= self.dim.0 <= 1200,
                    1 <= self.dim.1 <= 1200,
            ;
        }
        while i < n
            invariant
                0 <= i <= n,
                n == self.evac_grid@.len() <= 1_440_000,
                self.wf(),
                alive == count_alive_upto(self.evac_grid@, i as int),
                coop == count_coop_upto(self.evac_grid@, i as int),
                prc == sum_pr_c_upto(self.evac_grid@, i as int),
                prd == sum_pr_d_upto(self.evac_grid@, i as int),
                coop <= alive <= i,
                0 <= prc <= i * (SCALE as int),
                0 <= prd <= i * (SCALE as int),
            decreases n - i,
        {
            proof {
                assert((i as int) * (SCALE as int) + (SCALE as int) == (i as int + 1) * (
                SCALE as int)) by (nonlinear_arith);
            }
            match self.evac_grid[i] {
                None => {},
                Some(e) => {
                    alive = alive + 1;
                    if matches!(e.strategy, crate::strategy::Strategy::Cooperative) {
                        coop = coop + 1;
                    }
                    prc = prc + e.pr_c;
                    prd = prd + e.pr_d;
                },
            }
            i = i + 1;
        }
        let escaped = self.escape_handler.get_escaped_number();
        let dead = self.death_handler.get_dead();
        TickSummary { alive, cooperative: coop, escaped, dead, pr_c_sum: prc, pr_d_sum: prd }
    }
}

/// A grid with no fire has a zero fire count.
pub proof fn lemma_count_fire_empty(s: Seq<CellType>, k: int)
    requires
        0 <= k <= s.len(),
        forall|i: int| 0 <= i < s.len() ==> s[i] is Empty,
    ensures
        count_fire_upto(s, k) == 0,
    decreases k,
{
    if k > 0 {
        lemma_count_fire_empty(s, k - 1);
    }
}

/// An unoccupied grid has a zero alive count.
pub proof fn lemma_count_alive_empty(s: Seq<Option<EvacueeCell>>, k: int)
    requires
        0 <= k <= s.len(),
        forall|i: int| 0 <= i < s.len() ==> s[i] is None,
    ensures
        count_alive_upto(s, k) == 0,
    decreases k,
{
    if k > 0 {
        lemma_count_alive_empty(s, k - 1);
    }
}

} // verus!
