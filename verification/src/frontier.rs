//! The frontier index: the set of burning-cell coordinates, partitioned by
//! column into sorted row vectors, answering nearest-burning-cell queries.
//!
//! A query inspects, in each column, only the predecessor and the successor
//! of the query row; the contract states that the answer is nevertheless the
//! exact minimum squared distance over every recorded cell.

use crate::misc::{dist_sq, Loc, COORD_MAX};
use vstd::prelude::*;

verus! {

/// Strictly increasing row values: sorted and free of duplicates.
pub open spec fn sorted_strict(s: Seq<u32>) -> bool {
    forall|i: int, j: int| 0 <= i < j < s.len() ==> s[i] < s[j]
}

/// Whether the row value `y` occurs in a column.
pub open spec fn col_contains(s: Seq<u32>, y: int) -> bool {
    exists|k: int| 0 <= k < s.len() && s[k] == y
}

/// One ordered set of burnt row indices per column.
pub struct Frontier {
    cols: Vec<Vec<u32>>,
}

impl Frontier {
    /// Every column is sorted, every stored row is a valid coordinate, and
    /// the column count itself is a valid coordinate bound.
    pub closed spec fn wf(&self) -> bool {
        &&& self.cols@.len() <= COORD_MAX as int
        &&& forall|x: int|
            0 <= x < self.cols@.len() ==> sorted_strict(#[trigger] self.cols@[x]@)
        &&& forall|x: int, k: int|
            0 <= x < self.cols@.len() && 0 <= k < self.cols@[x]@.len() ==> #[trigger] self.cols@[x]@[k]
                <= COORD_MAX as u32
    }

    /// The number of columns the index was created with.
    pub closed spec fn width(&self) -> int {
        self.cols@.len() as int
    }

    /// Whether the cell `(x, y)` has been recorded as burning.
    pub closed spec fn contains_point(&self, x: int, y: int) -> bool {
        0 <= x < self.cols@.len() && col_contains(self.cols@[x]@, y)
    }

    /// Whether no cell has been recorded at all.
    pub open spec fn is_empty(&self) -> bool {
        forall|x: int, y: int| !self.contains_point(x, y)
    }

    /// Whether `d` is the exact minimum squared distance from `(qx, qy)`
    /// over every recorded cell: some recorded cell achieves it, and no
    /// recorded cell beats it.
    pub open spec fn is_nearest_sq(&self, qx: int, qy: int, d: int) -> bool {
        &&& exists|x: int, y: int|
            #[trigger] self.contains_point(x, y) && dist_sq(qx, qy, x, y) == d
        &&& forall|x: int, y: int|
            #[trigger] self.contains_point(x, y) ==> dist_sq(qx, qy, x, y) >= d
    }

    /// The minimum squared distance from `(qx, qy)` over the recorded
    /// cells, as a function (meaningful only when something is recorded).
    pub open spec fn nearest_sq(&self, qx: int, qy: int) -> int {
        choose|d: int| self.is_nearest_sq(qx, qy, d)
    }

    /// Two answers to one nearest-fire query agree: the relational
    /// contract of `closest_point` pins the distance down.
    pub proof fn lemma_nearest_sq_unique(&self, qx: int, qy: int, d1: int, d2: int)
        requires
            self.is_nearest_sq(qx, qy, d1),
            self.is_nearest_sq(qx, qy, d2),
        ensures
            d1 == d2,
    {
        let (x1, y1) = choose|x1: int, y1: int|
            #[trigger] self.contains_point(x1, y1) && dist_sq(qx, qy, x1, y1) == d1;
        let (x2, y2) = choose|x2: int, y2: int|
            #[trigger] self.contains_point(x2, y2) && dist_sq(qx, qy, x2, y2) == d2;
        assert(dist_sq(qx, qy, x1, y1) >= d2);
        assert(dist_sq(qx, qy, x2, y2) >= d1);
    }

    /// A recorded cell always lies in one of the index's columns.
    pub proof fn lemma_contains_bounds(&self, x: int, y: int)
        requires
            self.contains_point(x, y),
        ensures
            0 <= x < self.width(),
    {
    }

    /// An index over `len` columns with nothing recorded.
    pub fn new(len: usize) -> (r: Frontier)
        requires
            len <= COORD_MAX,
        ensures
            r.wf(),
            r.width() == len,
            r.is_empty(),
    {
        let mut cols: Vec<Vec<u32>> = Vec::new();
        let mut i: usize = 0;
        while i < len
            invariant
                0 <= i <= len,
                cols@.len() == i,
                forall|x: int| 0 <= x < i ==> (#[trigger] cols@[x])@.len() == 0,
            decreases len - i,
        {
            cols.push(Vec::new());
            i = i + 1;
        }
        let r = Frontier { cols };
        assert forall|x: int, y: int| !r.contains_point(x, y) by {
            if 0 <= x < r.cols@.len() {
                assert(r.cols@[x]@.len() == 0);
            }
        }
        r
    }

    /// Record the cell at `loc` as burning. A column outside the index is
    /// ignored (and reported as `None`); recording is idempotent.
    pub fn update(&mut self, loc: &Loc) -> (r: Option<bool>)
        requires
            old(self).wf(),
            0 <= loc.1 <= COORD_MAX,
        ensures
            final (self).wf(),
            final (self).width() == old(self).width(),
            r is None <==> !(0 <= loc.0 < old(self).width()),
            forall|x: int, y: int|
                final (self).contains_point(x, y) <==> (old(self).contains_point(x, y) || (
                r is Some && x == loc.0 && y == loc.1)),
    {
        if loc.0 < 0 || loc.0 as usize >= self.cols.len() {
            return None;
        }
        let x = loc.0 as usize;
        let y = loc.1 as u32;
        let ghost oldcols = self.cols@;
        let col = &mut self.cols[x];
        let ghost s = col@;
        let idx = lower_bound(col, y);
        if idx < col.len() && col[idx] == y {
            proof {
                assert(col_contains(s, y as int));
                assert(forall|a: int, b: int|
                    final (self).contains_point(a, b) <==> old(self).contains_point(a, b));
            }
            return Some(false);
        }
        col.insert(idx, y);
        proof {
            s.insert_ensures(idx as int, y);
            let t = col@;
            assert(t == s.insert(idx as int, y));
            assert forall|i: int, j: int| 0 <= i < j < t.len() implies t[i] < t[j] by {
                if j < idx {
                } else if j == idx {
                    assert(t[i] == s[i] && s[i] < y);
                } else {
                    assert(t[j] == s[j - 1] && s[j - 1] >= y);
                    if idx < s.len() {
                        assert(s[idx as int] > y || s[idx as int] == y);
                    }
                    if i < idx {
                        assert(t[i] == s[i] && s[i] < y);
                        assert(s[j - 1] >= y);
                        if s[j - 1] == y {
                            assert(col_contains(s, y as int));
                        }
                    } else if i == idx {
                        assert(t[i] == y);
                        if s[j - 1] == y {
                            assert(col_contains(s, y as int));
                        }
                    } else {
                        assert(t[i] == s[i - 1] && t[j] == s[j - 1]);
                    }
                }
            }
            assert(sorted_strict(t));
            assert forall|a: int, b: int|
                final (self).contains_point(a, b) <==> (old(self).contains_point(a, b) || (a
                    == loc.0 && b == loc.1)) by {
                if a == x {
                    if final (self).contains_point(a, b) {
                        let k = choose|k: int| 0 <= k < t.len() && t[k] == b;
                        if k < idx {
                            assert(s[k] == b);
                        } else if k == idx {
                            assert(b == y as int);
                        } else {
                            assert(s[k - 1] == b);
                        }
                    }
                    if old(self).contains_point(a, b) {
                        let k = choose|k: int| 0 <= k < s.len() && s[k] == b;
                        if k < idx {
                            assert(t[k] == b);
                        } else {
                            assert(t[k + 1] == b);
                        }
                    }
                    if b == loc.1 as int && a == loc.0 as int {
                        assert(t[idx as int] == y);
                    }
                } else {
                    if 0 <= a < oldcols.len() {
                        assert(final (self).cols@[a] == oldcols[a]);
                    }
                }
            }
        }
        Some(true)
    }

    /// Clear every recorded cell, keeping the column count.
    pub fn reset(&mut self)
        requires
            old(self).wf(),
        ensures
            final (self).wf(),
            final (self).width() == old(self).width(),
            final (self).is_empty(),
    {
        let n = self.cols.len();
        let mut i: usize = 0;
        while i < n
            invariant
                0 <= i <= n,
                self.cols@.len() == n,
                n == old(self).cols@.len() <= COORD_MAX as int,
                forall|x: int| 0 <= x < i ==> (#[trigger] self.cols@[x])@.len() == 0,
                forall|x: int|
                    i <= x < n ==> sorted_strict(#[trigger] self.cols@[x]@),
                forall|x: int, k: int|
                    i <= x < n && 0 <= k < self.cols@[x]@.len() ==> #[trigger] self.cols@[x]@[k]
                        <= COORD_MAX as u32,
            decreases n - i,
        {
            let col = &mut self.cols[i];
            *col = Vec::new();
            i = i + 1;
        }
        assert forall|x: int, y: int| !final (self).contains_point(x, y) by {
            if 0 <= x < self.cols@.len() {
                assert(self.cols@[x]@.len() == 0);
            }
        }
    }

    /// The squared distance from `loc` to the nearest recorded burning cell;
    /// `None` exactly when nothing has been recorded. The result equals the
    /// brute-force minimum over every recorded cell.
    pub fn closest_point(&self, loc: &Loc) -> (r: Option<u64>)
        requires
            self.wf(),
            0 <= loc.0 <= COORD_MAX,
            0 <= loc.1 <= COORD_MAX,
        ensures
            r is None <==> self.is_empty(),
            r matches Some(d) ==> self.is_nearest_sq(loc.0 as int, loc.1 as int, d as int),
            r matches Some(d) ==> d as int == self.nearest_sq(loc.0 as int, loc.1 as int),
    {
        let qx: i32 = loc.0;
        let qy: i32 = loc.1;
        let n = self.cols.len();
        let mut best: Option<u64> = None;
        let mut x: usize = 0;
        while x < n
            invariant
                self.wf(),
                0 <= qx <= COORD_MAX,
                0 <= qy <= COORD_MAX,
                n == self.cols@.len(),
                0 <= x <= n,
                best is None ==> forall|a: int, b: int|
                    #[trigger] self.contains_point(a, b) ==> a >= x,
                best matches Some(d) ==> exists|a: int, b: int|
                    #[trigger] self.contains_point(a, b) && a < x && dist_sq(
                        qx as int,
                        qy as int,
                        a,
                        b,
                    ) == d,
                best matches Some(d) ==> forall|a: int, b: int|
                    #[trigger] self.contains_point(a, b) && a < x ==> dist_sq(
                        qx as int,
                        qy as int,
                        a,
                        b,
                    ) >= d,
            decreases n - x,
        {
            let col = &self.cols[x];
            let m = col.len();
            let dxi: i64 = (x as i64) - (qx as i64);
            assert(0 <= dxi * dxi <= 4_000_000_000_000 && dxi * dxi == ((qx as int) - (x as int)) * (
            (qx as int) - (x as int))) by (nonlinear_arith)
                requires
                    -2_000_000 <= dxi <= 2_000_000,
                    dxi == (x as int) - (qx as int),
            ;
            let dx2: u64 = (dxi * dxi) as u64;
            let idx = lower_bound(col, qy as u32);
            let cpred: Option<u64> = if idx > 0 {
                let py: u32 = col[idx - 1];
                let dyi: i64 = (qy as i64) - (py as i64);
                assert(0 <= dyi * dyi <= 4_000_000_000_000) by (nonlinear_arith)
                    requires
                        -2_000_000 <= dyi <= 2_000_000,
                ;
                Some(dx2 + ((dyi * dyi) as u64))
            } else {
                None
            };
            let csucc: Option<u64> = if idx < m {
                let py: u32 = col[idx];
                let dyi: i64 = (qy as i64) - (py as i64);
                assert(0 <= dyi * dyi <= 4_000_000_000_000) by (nonlinear_arith)
                    requires
                        -2_000_000 <= dyi <= 2_000_000,
                ;
                Some(dx2 + ((dyi * dyi) as u64))
            } else {
                None
            };
            let cand: Option<u64> = match (cpred, csucc) {
                (None, c) => c,
                (c, None) => c,
                (Some(c1), Some(c2)) => if c2 < c1 {
                    Some(c2)
                } else {
                    Some(c1)
                },
            };
            proof {
                if cpred is Some {
                    let p = col@[idx - 1] as int;
                    assert(cpred->0 == dx2 + (qy as int - p) * (qy as int - p));
                    assert(cpred->0 == dist_sq(qx as int, qy as int, x as int, p));
                }
                if csucc is Some {
                    let p = col@[idx as int] as int;
                    assert(csucc->0 == dx2 + (qy as int - p) * (qy as int - p));
                    assert((qy as int - p) * (qy as int - p) == (p - qy as int) * (p
                        - qy as int)) by (nonlinear_arith);
                    assert(csucc->0 == dist_sq(qx as int, qy as int, x as int, p));
                }
                if cand is Some {
                    let c = cand->0;
                    assert forall|k: int| 0 <= k < col@.len() implies dist_sq(
                        qx as int,
                        qy as int,
                        x as int,
                        col@[k] as int,
                    ) >= c by {
                        let b = col@[k] as int;
                        if b < qy as int {
                            assert(k < idx) by {
                                if k >= idx {
                                    assert(col@[k] >= qy as u32);
                                }
                            }
                            assert(cpred is Some);
                            let p = col@[idx - 1] as int;
                            assert(col@[k] <= col@[idx - 1]) by {
                                if k < idx - 1 {
                                    assert(col@[k] < col@[idx - 1]);
                                }
                            }
                            assert(p < qy as int);
                            lemma_square_le(qy as int - p, qy as int - b);
                            assert(dist_sq(qx as int, qy as int, x as int, b) == dx2 + (qy as int
                                - b) * (qy as int - b));
                            assert(dist_sq(qx as int, qy as int, x as int, b) >= cpred->0);
                            assert(c <= cpred->0);
                        } else {
                            assert(k >= idx) by {
                                if k < idx {
                                    assert(col@[k] < qy as u32);
                                }
                            }
                            assert(csucc is Some);
                            let p = col@[idx as int] as int;
                            assert(col@[idx as int] <= col@[k]) by {
                                if idx < k {
                                    assert(col@[idx as int] < col@[k]);
                                }
                            }
                            assert(p >= qy as int);
                            lemma_square_le(p - qy as int, b - qy as int);
                            assert((qy as int - b) * (qy as int - b) == (b - qy as int) * (b
                                - qy as int)) by (nonlinear_arith);
                            assert(dist_sq(qx as int, qy as int, x as int, b) == dx2 + (qy as int
                                - b) * (qy as int - b));
                            assert(dist_sq(qx as int, qy as int, x as int, b) >= csucc->0);
                            assert(c <= csucc->0);
                        }
                    }
                    // the candidate itself is a recorded point
                    assert(exists|k: int|
                        0 <= k < col@.len() && dist_sq(
                            qx as int,
                            qy as int,
                            x as int,
                            col@[k] as int,
                        ) == c) by {
                        if cand == cpred {
                            assert(0 <= idx - 1 < col@.len() && dist_sq(
                                qx as int,
                                qy as int,
                                x as int,
                                col@[idx - 1] as int,
                            ) == c);
                        } else {
                            assert(0 <= idx < col@.len() && dist_sq(
                                qx as int,
                                qy as int,
                                x as int,
                                col@[idx as int] as int,
                            ) == c);
                        }
                    }
                } else {
                    assert(col@.len() == 0);
                }
            }
            let newbest: Option<u64> = match (best, cand) {
                (None, c) => c,
                (b, None) => b,
                (Some(b), Some(c)) => if c < b {
                    Some(c)
                } else {
                    Some(b)
                },
            };
            proof {
                if newbest is Some {
                    let d = newbest->0;
                    assert forall|a: int, b: int|
                        #[trigger] self.contains_point(a, b) && a < x + 1 implies dist_sq(
                        qx as int,
                        qy as int,
                        a,
                        b,
                    ) >= d by {
                        if a == x as int {
                            let k = choose|k: int| 0 <= k < col@.len() && col@[k] == b;
                            assert(dist_sq(qx as int, qy as int, x as int, col@[k] as int) >= d);
                        }
                    }
                    if best is Some && (cand is None || best->0 <= cand->0) {
                        let db = best->0;
                        let (a0, b0) = choose|a0: int, b0: int|
                            #[trigger] self.contains_point(a0, b0) && a0 < x && dist_sq(
                                qx as int,
                                qy as int,
                                a0,
                                b0,
                            ) == db;
                        assert(self.contains_point(a0, b0) && a0 < x + 1 && dist_sq(
                            qx as int,
                            qy as int,
                            a0,
                            b0,
                        ) == d);
                    } else {
                        let k = choose|k: int|
                            0 <= k < col@.len() && dist_sq(
                                qx as int,
                                qy as int,
                                x as int,
                                col@[k] as int,
                            ) == d;
                        assert(self.contains_point(x as int, col@[k] as int));
                    }
                } else {
                    assert forall|a: int, b: int|
                        #[trigger] self.contains_point(a, b) implies a >= x + 1 by {
                        if a == x as int {
                            assert(col_contains(col@, b));
                            assert(col@.len() == 0);
                        }
                    }
                }
            }
            best = newbest;
            x = x + 1;
        }
        proof {
            if best is None {
                assert forall|a: int, b: int| !self.contains_point(a, b) by {
                    if self.contains_point(a, b) {
                        assert(a >= n);
                        assert(a < self.cols@.len());
                    }
                }
            } else {
                assert(!self.is_empty()) by {
                    let (a0, b0) = choose|a0: int, b0: int|
                        #[trigger] self.contains_point(a0, b0) && a0 < n as int && dist_sq(
                            qx as int,
                            qy as int,
                            a0,
                            b0,
                        ) == best->0;
                    assert(self.contains_point(a0, b0));
                };
                assert(self.is_nearest_sq(qx as int, qy as int, best->0 as int));
                let d2 = self.nearest_sq(qx as int, qy as int);
                assert(self.is_nearest_sq(qx as int, qy as int, d2));
                self.lemma_nearest_sq_unique(qx as int, qy as int, best->0 as int, d2);
            }
        }
        best
    }
}

/// For nonnegative reaches, the farther point has the larger square.
proof fn lemma_square_le(a: int, b: int)
    requires
        0 <= a <= b,
    ensures
        a * a <= b * b,
{
    assert(a * a <= b * b) by (nonlinear_arith)
        requires
            0 <= a <= b,
    ;
}

/// The first index whose row value is at least `y`, by binary search.
fn lower_bound(col: &Vec<u32>, y: u32) -> (idx: usize)
    requires
        sorted_strict(col@),
    ensures
        idx <= col@.len(),
        forall|k: int| 0 <= k < idx ==> col@[k] < y,
        forall|k: int| idx <= k < col@.len() ==> col@[k] >= y,
{
    let mut lo: usize = 0;
    let mut hi: usize = col.len();
    while lo < hi
        invariant
            0 <= lo <= hi <= col@.len(),
            sorted_strict(col@),
            forall|k: int| 0 <= k < lo ==> col@[k] < y,
            forall|k: int| hi <= k < col@.len() ==> col@[k] >= y,
        decreases hi - lo,
    {
        let mid = lo + (hi - lo) / 2;
        if col[mid] < y {
            assert forall|k: int| 0 <= k < mid + 1 implies col@[k] < y by {
                if k < mid {
                    assert(col@[k] < col@[mid as int]);
                }
            }
            lo = mid + 1;
        } else {
            assert forall|k: int| mid <= k < col@.len() implies col@[k] >= y by {
                if k > mid {
                    assert(col@[mid as int] < col@[k]);
                }
            }
            hi = mid;
        }
    }
    lo
}

} // verus!
