//! A concrete search domain: a rectangular grid of cells, some of them
//! walls, with one goal cell. A state is the cell the agent stands on,
//! numbered row by row, so cell `y * width + x` is column `x` of row `y`.
//! Moving up or down changes the row, moving left or right the column, and
//! a move is illegal when it would leave the grid or enter a wall.

use vstd::prelude::*;
use crate::space::{Direction, StateSpace};

verus! {

/// A rectangular grid domain. A `GridSpace` whose dimensions are zero or
/// whose cell count overflows `u64` has no legal moves at all.
pub struct GridSpace {
    /// Number of columns.
    pub width: u64,
    /// Number of rows.
    pub height: u64,
    /// The cell that satisfies the goal predicate.
    pub goal_cell: u64,
    /// Cells that can never be entered.
    pub walls: Vec<u64>,
}

impl GridSpace {
    /// The dimensions describe a real grid whose cell count fits in `u64`.
    pub open spec fn wf(&self) -> bool {
        1 <= self.width && 1 <= self.height && self.width * self.height <= u64::MAX
    }

    /// Number of cells of the grid.
    pub open spec fn size(&self) -> int {
        self.width * self.height
    }

    /// The cell a move would lead to, ignoring walls, or `None` when the
    /// move would leave the grid.
    pub open spec fn move_target(&self, s: u64, a: Direction) -> Option<int> {
        let w = self.width as int;
        let x = (s as int) % w;
        let y = (s as int) / w;
        match a {
            Direction::Up => if y >= 1 {
                Some(s - w)
            } else {
                None
            },
            Direction::Right => if x + 1 < w {
                Some(s + 1)
            } else {
                None
            },
            Direction::Down => if y + 1 < self.height as int {
                Some(s + w)
            } else {
                None
            },
            Direction::Left => if x >= 1 {
                Some(s - 1)
            } else {
                None
            },
        }
    }

    /// Build a grid domain.
    pub fn new(width: u64, height: u64, goal_cell: u64, walls: Vec<u64>) -> (r: GridSpace)
        ensures
            r == (GridSpace { width, height, goal_cell, walls }),
    {
        GridSpace { width, height, goal_cell, walls }
    }

    /// Whether `c` is a wall cell.
    fn has_wall(&self, c: u64) -> (r: bool)
        ensures
            r == self.walls@.contains(c),
    {
        let mut i: usize = 0;
        while i < self.walls.len()
            invariant
                i <= self.walls@.len(),
                forall|j: int| 0 <= j < i ==> self.walls@[j] != c,
            decreases self.walls@.len() - i,
        {
            if self.walls[i] == c {
                return true;
            }
            i = i + 1;
        }
        false
    }
}

impl StateSpace for GridSpace {
    open spec fn transition(&self, s: u64, a: Direction) -> Option<u64> {
        if self.wf() && (s as int) < self.size() {
            match self.move_target(s, a) {
                Some(c) => if self.walls@.contains(c as u64) {
                    None
                } else {
                    Some(c as u64)
                },
                None => None,
            }
        } else {
            None
        }
    }

    open spec fn goal(&self, s: u64) -> bool {
        s == self.goal_cell
    }

    fn apply(&self, s: u64, a: Direction) -> (r: Option<u64>)
        ensures
            r == self.transition(s, a),
    {
        if self.width == 0 || self.height == 0 {
            return None;
        }
        proof {
            vstd::arithmetic::div_mod::lemma_fundamental_div_mod(
                u64::MAX as int,
                self.height as int,
            );
            vstd::arithmetic::div_mod::lemma_mod_bound(u64::MAX as int, self.height as int);
        }
        let ghost q = u64::MAX as int / self.height as int;
        let ghost rem = u64::MAX as int % self.height as int;
        if self.width > u64::MAX / self.height {
            proof {
                assert(self.width * self.height > u64::MAX) by (nonlinear_arith)
                    requires
                        u64::MAX as int == self.height as int * q + rem,
                        0 <= rem < self.height as int,
                        self.width as int > q,
                        self.height >= 1,
                ;
            }
            return None;
        }
        proof {
            assert(self.width * self.height <= u64::MAX) by (nonlinear_arith)
                requires
                    u64::MAX as int == self.height as int * q + rem,
                    0 <= rem < self.height as int,
                    self.width as int <= q,
                    self.height >= 1,
            ;
        }
        let size = self.width * self.height;
        if s >= size {
            return None;
        }
        let x = s % self.width;
        let y = s / self.width;
        proof {
            vstd::arithmetic::div_mod::lemma_fundamental_div_mod(s as int, self.width as int);
            vstd::arithmetic::div_mod::lemma_mod_bound(s as int, self.width as int);
            assert((s as int) / (self.width as int) < self.height as int) by (nonlinear_arith)
                requires
                    s as int == self.width as int * ((s as int) / (self.width as int)) + (
                    s as int) % (self.width as int),
                    0 <= (s as int) % (self.width as int) < self.width as int,
                    (s as int) < self.width as int * self.height as int,
                    self.width >= 1,
            ;
        }
        let cand: Option<u64> = match a {
            Direction::Up => if y >= 1 {
                proof {
                    assert(s >= self.width) by (nonlinear_arith)
                        requires
                            s as int == self.width as int * (y as int) + (x as int),
                            x >= 0,
                            y >= 1,
                    ;
                }
                Some(s - self.width)
            } else {
                None
            },
            Direction::Right => if x + 1 < self.width {
                Some(s + 1)
            } else {
                None
            },
            Direction::Down => if y + 1 < self.height {
                proof {
                    assert(s + self.width < self.width * self.height) by (nonlinear_arith)
                        requires
                            s as int == self.width as int * (y as int) + (x as int),
                            0 <= x < self.width as int,
                            y as int + 1 < self.height as int,
                    ;
                }
                Some(s + self.width)
            } else {
                None
            },
            Direction::Left => if x >= 1 {
                Some(s - 1)
            } else {
                None
            },
        };
        match cand {
            None => None,
            Some(c) => if self.has_wall(c) {
                None
            } else {
                Some(c)
            },
        }
    }

    fn is_goal(&self, s: u64) -> (r: bool)
        ensures
            r == self.goal(s),
    {
        s == self.goal_cell
    }
}

} // verus!
