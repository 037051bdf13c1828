//! The fire automaton's cell states and transition rule: an `Empty` cell
//! ignites with probability `k/8 * spread` for `k` burning Moore neighbors;
//! `Fire` is absorbing.

use crate::fixed::SCALE;
use crate::rng::SimRng;
use vstd::prelude::*;

verus! {

/// The state of one grid cell.
#[derive(Debug, Clone, Copy, PartialEq, Eq, Structural)]
pub enum CellType {
    Fire,
    Empty,
}

/// The number of burning cells in a neighborhood.
pub open spec fn count_fire_neigh(s: Seq<CellType>) -> int
    decreases s.len(),
{
    if s.len() == 0 {
        0
    } else {
        (if s[0] is Fire {
            1int
        } else {
            0int
        }) + count_fire_neigh(s.drop_first())
    }
}

/// The ignition probability in micro units: zero on a burning cell,
/// `k/8 * spread` (truncated) on an empty one.
pub open spec fn transition_prob(spread: int, curr: CellType, k: int) -> int {
    match curr {
        CellType::Fire => 0,
        CellType::Empty => (k * spread) / 8,
    }
}

/// The fire-spread rule of a run: an identifier, a spread rate in micro
/// units, and the initial fire layout it was built from.
#[derive(Debug, Clone)]
pub struct FireRules {
    pub id: u32,
    pub spread: i64,
    pub fire_grid: Vec<CellType>,
}

impl FireRules {
    /// The spread rate is a probability.
    pub open spec fn wf(&self) -> bool {
        0 <= self.spread <= SCALE
    }

    /// A rule over `dims` cells with one burning seed at `location`.
    pub fn new(dims: usize, id: u32, spread: i64, location: usize) -> (r: FireRules)
        requires
            location < dims,
            0 <= spread <= SCALE,
        ensures
            r.wf(),
            r.id == id,
            r.spread == spread,
            r.fire_grid@.len() == dims,
            forall|i: int|
                0 <= i < dims ==> #[trigger] r.fire_grid@[i] == (if i == location {
                    CellType::Fire
                } else {
                    CellType::Empty
                }),
    {
        let mut fire_grid: Vec<CellType> = Vec::new();
        let mut i: usize = 0;
        while i < dims
            invariant
                i <= dims,
                fire_grid@.len() == i,
                forall|k: int| 0 <= k < i ==> #[trigger] fire_grid@[k] is Empty,
            decreases dims - i,
        {
            fire_grid.push(CellType::Empty);
            i = i + 1;
        }
        fire_grid.set(location, CellType::Fire);
        Self { id, spread, fire_grid }
    }

    /// The ignition probability for a cell with `neigh` burning neighbors.
    pub fn transition_with_number(&self, curr_cell: &CellType, neigh: usize) -> (r: i64)
        requires
            self.wf(),
            neigh <= 8,
        ensures
            r == transition_prob(self.spread as int, *curr_cell, neigh as int),
            0 <= r <= SCALE,
    {
        match curr_cell {
            CellType::Fire => 0,
            CellType::Empty => {
                assert(0 <= neigh as int * (self.spread as int) <= 8 * (self.spread as int))
                    by (nonlinear_arith)
                    requires
                        0 <= neigh <= 8,
                        0 <= self.spread,
                ;
                let p: u64 = ((neigh as u64) * (self.spread as u64)) / 8;
                proof {
                    vstd::arithmetic::div_mod::lemma_div_is_ordered(
                        neigh as int * (self.spread as int),
                        8 * (self.spread as int),
                        8,
                    );
                    vstd::arithmetic::div_mod::lemma_div_multiples_vanish(self.spread as int, 8);
                }
                p as i64
            },
        }
    }

    /// The ignition probability for a cell given its neighborhood.
    pub fn transition(&self, curr_cell: &CellType, neigh: &[CellType]) -> (r: i64)
        requires
            self.wf(),
            neigh@.len() <= 8,
        ensures
            r == transition_prob(self.spread as int, *curr_cell, count_fire_neigh(neigh@)),
            0 <= r <= SCALE,
    {
        let n = neigh.len();
        let mut count: usize = 0;
        let mut i: usize = 0;
        while i < n
            invariant
                0 <= i <= n,
                n == neigh@.len() <= 8,
                count == count_fire_neigh(neigh@.subrange(0, i as int)),
                count <= i,
            decreases n - i,
        {
            proof {
                lemma_count_fire_neigh_push(neigh@.subrange(0, i as int), neigh@[i as int]);
                assert(neigh@.subrange(0, i as int + 1) == neigh@.subrange(0, i as int).push(
                    neigh@[i as int],
                ));
            }
            if matches!(neigh[i], CellType::Fire) {
                count = count + 1;
            }
            i = i + 1;
        }
        proof {
            assert(neigh@.subrange(0, n as int) == neigh@);
        }
        self.transition_with_number(curr_cell, count)
    }

    /// The initial fire layout this rule was built from.
    pub fn handle_grid(&mut self) -> (r: &mut Vec<CellType>)
        ensures
            *r == old(self).fire_grid,
            final (self).fire_grid == *final (r),
            final (self).id == old(self).id,
            final (self).spread == old(self).spread,
    {
        &mut self.fire_grid
    }
}

pub(crate) proof fn lemma_count_fire_neigh_push(s: Seq<CellType>, v: CellType)
    ensures
        count_fire_neigh(s.push(v)) == count_fire_neigh(s) + (if v is Fire {
            1int
        } else {
            0int
        }),
    decreases s.len(),
{
    let t = s.push(v);
    if s.len() == 0 {
        assert(t.drop_first() == s);
    } else {
        assert(t.drop_first() == s.drop_first().push(v));
        lemma_count_fire_neigh_push(s.drop_first(), v);
    }
}

/// A neighborhood's fire count is never negative.
pub(crate) proof fn lemma_count_fire_neigh_nonneg(s: Seq<CellType>)
    ensures
        count_fire_neigh(s) >= 0,
    decreases s.len(),
{
    if s.len() > 0 {
        lemma_count_fire_neigh_nonneg(s.drop_first());
    }
}

impl CellType {
    /// Whether this cell catches fire this tick: a burning cell never
    /// flips (and consumes no draw); an empty one samples a Bernoulli trial
    /// at the rule's transition probability.
    pub fn spread(&self, agent: &FireRules, neigh: &[CellType], rng: &mut SimRng) -> (r: bool)
        requires
            agent.wf(),
            neigh@.len() <= 8,
        ensures
            *self is Fire ==> !r,
            transition_prob(agent.spread as int, *self, count_fire_neigh(neigh@)) == 0 ==> !r,
            *self is Empty && transition_prob(agent.spread as int, *self, count_fire_neigh(neigh@))
                == SCALE ==> r,
    {
        if matches!(self, CellType::Fire) {
            return false;
        }
        let p = agent.transition(self, neigh);
        rng.gen_bool_micro(p)
    }
}

} // verus!
