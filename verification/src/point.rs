//! Grid coordinates on the fixed 5x5 board, and tile adjacency.

use vstd::prelude::*;
use crate::seqs::{lemma_push_contains, lemma_push_no_duplicates};

verus! {

/// A coordinate on the board; both components lie in [0, 5).
#[derive(Clone, Copy, PartialEq, Eq, Structural)]
pub struct Point {
    pub x: usize,
    pub y: usize,
}

/// The coordinate lies inside the 5x5 board.
pub open spec fn in_grid(p: Point) -> bool {
    p.x < 5 && p.y < 5
}

/// Two distinct cells whose rows and whose columns each differ by at most
/// one — the up-to-eight surrounding cells, diagonals included.
pub open spec fn adjacent(a: Point, b: Point) -> bool {
    a != b && -1 <= a.x - b.x <= 1 && -1 <= a.y - b.y <= 1
}

/// Row-major order: the cell `q` comes before the cell `(x, y)`.
spec fn row_major_before(q: Point, x: int, y: int) -> bool {
    q.x < x || (q.x == x && q.y < y)
}

impl Point {
    /// Coordinates outside [0, 5) are a programming error and are excluded.
    pub fn new(x: usize, y: usize) -> (r: Point)
        requires
            x < 5,
            y < 5,
        ensures
            r.x == x,
            r.y == y,
    {
        Point { x, y }
    }

    /// One step towards zero, clipped at the lower board edge.
    pub fn before_bounded(i: usize) -> (r: usize)
        ensures
            r == if i == 0 { 0int } else { i - 1 },
    {
        if i == 0 {
            0
        } else {
            i - 1
        }
    }

    /// One step away from zero, clipped at the upper board edge.
    pub fn after_bounded(i: usize) -> (r: usize)
        requires
            i < 5,
        ensures
            r == if i == 4 { 4int } else { i + 1 },
    {
        if i == 4 {
            4
        } else {
            i + 1
        }
    }

    /// Exactly the in-grid cells adjacent to `self`, each listed once.
    pub fn neighbors(&self) -> (r: Vec<Point>)
        requires
            in_grid(*self),
        ensures
            forall|k: int|
                0 <= k < r@.len() ==> in_grid(#[trigger] r@[k]) && adjacent(*self, r@[k]),
            forall|q: Point| in_grid(q) && adjacent(*self, q) ==> r@.contains(q),
            r@.no_duplicates(),
    {
        let mut ret: Vec<Point> = Vec::new();
        let start_x = Self::before_bounded(self.x);
        let end_x = Self::after_bounded(self.x);
        let start_y = Self::before_bounded(self.y);
        let end_y = Self::after_bounded(self.y);
        let mut x = start_x;
        while x <= end_x
            invariant
                in_grid(*self),
                start_x == (if self.x == 0 { 0int } else { self.x - 1 }),
                end_x == (if self.x == 4 { 4int } else { self.x + 1 }),
                start_y == (if self.y == 0 { 0int } else { self.y - 1 }),
                end_y == (if self.y == 4 { 4int } else { self.y + 1 }),
                start_x <= x <= end_x + 1,
                forall|k: int|
                    0 <= k < ret@.len() ==> in_grid(#[trigger] ret@[k]) && adjacent(
                        *self,
                        ret@[k],
                    ) && row_major_before(ret@[k], x as int, start_y as int),
                forall|q: Point|
                    in_grid(q) && adjacent(*self, q) && row_major_before(
                        q,
                        x as int,
                        start_y as int,
                    ) ==> ret@.contains(q),
                ret@.no_duplicates(),
            decreases end_x + 1 - x,
        {
            let mut y = start_y;
            while y <= end_y
                invariant
                    in_grid(*self),
                    start_x == (if self.x == 0 { 0int } else { self.x - 1 }),
                    end_x == (if self.x == 4 { 4int } else { self.x + 1 }),
                    start_y == (if self.y == 0 { 0int } else { self.y - 1 }),
                    end_y == (if self.y == 4 { 4int } else { self.y + 1 }),
                    start_x <= x <= end_x,
                    start_y <= y <= end_y + 1,
                    forall|k: int|
                        0 <= k < ret@.len() ==> in_grid(#[trigger] ret@[k]) && adjacent(
                            *self,
                            ret@[k],
                        ) && row_major_before(ret@[k], x as int, y as int),
                    forall|q: Point|
                        in_grid(q) && adjacent(*self, q) && row_major_before(
                            q,
                            x as int,
                            y as int,
                        ) ==> ret@.contains(q),
                    ret@.no_duplicates(),
                decreases end_y + 1 - y,
            {
                let pt = Point::new(x, y);
                if pt != *self {
                    proof {
                        assert(!ret@.contains(pt));
                        lemma_push_no_duplicates(ret@, pt);
                        assert forall|q: Point|
                            in_grid(q) && adjacent(*self, q) && row_major_before(
                                q,
                                x as int,
                                y as int + 1,
                            ) implies ret@.push(pt).contains(q) by {
                            lemma_push_contains(ret@, pt, q);
                            if q != pt {
                                assert(row_major_before(q, x as int, y as int));
                            }
                        }
                        assert forall|k: int| 0 <= k < ret@.push(pt).len() implies in_grid(
                            #[trigger] ret@.push(pt)[k],
                        ) && adjacent(*self, ret@.push(pt)[k]) && row_major_before(
                            ret@.push(pt)[k],
                            x as int,
                            y as int + 1,
                        ) by {
                            if k < ret@.len() {
                                assert(ret@.push(pt)[k] == ret@[k]);
                            }
                        }
                    }
                    ret.push(pt);
                } else {
                    proof {
                        assert forall|q: Point|
                            in_grid(q) && adjacent(*self, q) && row_major_before(
                                q,
                                x as int,
                                y as int + 1,
                            ) implies ret@.contains(q) by {
                            if !row_major_before(q, x as int, y as int) {
                                assert(q.x == x && q.y == y);
                                assert(q == *self);
                                assert(!adjacent(*self, q));
                            }
                        }
                    }
                }
                y = y + 1;
            }
            proof {
                assert forall|q: Point|
                    in_grid(q) && adjacent(*self, q) && row_major_before(
                        q,
                        x as int + 1,
                        start_y as int,
                    ) implies ret@.contains(q) by {
                    if !row_major_before(q, x as int, y as int) {
                        assert(q.y >= start_y);
                        assert(q.y <= end_y);
                        assert(false);
                    }
                }
            }
            x = x + 1;
        }
        proof {
            assert forall|q: Point| in_grid(q) && adjacent(*self, q) implies ret@.contains(q) by {
                assert(q.x <= end_x);
                assert(row_major_before(q, x as int, start_y as int));
            }
        }
        ret
    }
}

} // verus!
