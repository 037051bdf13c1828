//! Escape and death bookkeeping: who left the grid through the exit (and
//! when), and how many died in the fire.

use crate::misc::{Loc, Reset};
use crate::strategy::EvacueeCell;
use vstd::prelude::*;

verus! {

/// One escape record: the evacuee and the tick it left on.
#[derive(Debug, Clone, Copy)]
pub struct EvacTime {
    pub loc: EvacueeCell,
    pub time: usize,
}

/// Escape handling by a single exit cell, recording escape times.
pub struct TimeEscape {
    pub escaped_evac: Vec<EvacTime>,
    pub exit: Loc,
}

impl Default for TimeEscape {
    /// An empty record with the exit at the middle of the wall just below
    /// the default room.
    fn default() -> (r: TimeEscape)
        ensures
            r.escaped_evac@.len() == 0,
            r.exit == (Loc(
                (crate::state::DEFAULT_WIDTH / 2) as i32,
                crate::state::DEFAULT_HEIGHT as i32,
            )),
    {
        TimeEscape {
            escaped_evac: Vec::new(),
            exit: Loc(
                (crate::state::DEFAULT_WIDTH / 2) as i32,
                crate::state::DEFAULT_HEIGHT as i32,
            ),
        }
    }
}

impl TimeEscape {
    /// Record one escape at the given tick.
    pub fn escaped(&mut self, evac: EvacueeCell, step: usize)
        ensures
            final (self).escaped_evac@ == old(self).escaped_evac@.push(
                EvacTime { loc: evac, time: step },
            ),
            final (self).exit == old(self).exit,
    {
        self.escaped_evac.push(EvacTime { loc: evac, time: step });
    }

    /// A copy of all escape records.
    pub fn get_escaped(&self) -> (r: Vec<EvacTime>)
        ensures
            r@ == self.escaped_evac@,
    {
        let n = self.escaped_evac.len();
        let mut out: Vec<EvacTime> = Vec::new();
        let mut i: usize = 0;
        while i < n
            invariant
                i <= n,
                n == self.escaped_evac@.len(),
                out@ == self.escaped_evac@.subrange(0, i as int),
            decreases n - i,
        {
            out.push(self.escaped_evac[i]);
            proof {
                assert(self.escaped_evac@.subrange(0, i as int + 1) == self.escaped_evac@.subrange(
                    0,
                    i as int,
                ).push(self.escaped_evac@[i as int]));
            }
            i = i + 1;
        }
        proof {
            assert(self.escaped_evac@.subrange(0, n as int) == self.escaped_evac@);
        }
        out
    }

    /// Whether `loc` is the exit cell.
    pub fn is_exit(&self, loc: &Loc) -> (r: bool)
        ensures
            r == (self.exit == *loc),
    {
        self.exit == *loc
    }

    /// How many evacuees have escaped.
    pub fn get_escaped_number(&self) -> (r: usize)
        ensures
            r == self.escaped_evac@.len(),
    {
        self.escaped_evac.len()
    }

    /// Forget all escape records, keeping the exit.
    pub fn clear_escaped(&mut self)
        ensures
            final (self).escaped_evac@.len() == 0,
            final (self).exit == old(self).exit,
    {
        self.escaped_evac = Vec::new();
    }
}

impl Reset for TimeEscape {
    fn reset(&mut self) {
        self.clear_escaped();
    }
}

/// Death handling that only counts.
#[derive(Debug, Clone, Copy)]
pub struct Announcer(usize);

impl Announcer {
    /// The number of recorded deaths.
    pub closed spec fn spec_dead(&self) -> int {
        self.0 as int
    }

    /// Record one death at a cell.
    pub fn update_death(&mut self, loc: Loc)
        requires
            old(self).spec_dead() < usize::MAX,
        ensures
            final (self).spec_dead() == old(self).spec_dead() + 1,
    {
        self.0 = self.0 + 1;
    }

    /// How many evacuees have died.
    pub fn get_dead(&self) -> (r: usize)
        ensures
            r == self.spec_dead(),
    {
        self.0
    }

    /// Zero the death count.
    pub fn clear_dead(&mut self)
        ensures
            final (self).spec_dead() == 0,
    {
        self.0 = 0;
    }
}

impl Default for Announcer {
    /// A counter starting at zero.
    fn default() -> (r: Announcer)
        ensures
            r.spec_dead() == 0,
    {
        Announcer(0)
    }
}

impl Reset for Announcer {
    fn reset(&mut self) {
        self.clear_dead();
    }
}

} // verus!
