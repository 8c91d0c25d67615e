//! A mutable copy of the per-cell "within recycler range" flags, used while
//! planning to simulate the coverage of a recycler chosen this turn but not
//! yet submitted, so overlapping placements are not credited twice.

use vstd::prelude::*;

use crate::board::{lemma_row_major_coords, lemma_row_major_index_in_range, Board};
use crate::field::Field;

verus! {

/// Per-cell recycler coverage, in the same row-major layout as the board it
/// was copied from.
pub struct RecyclerRangeBoard {
    pub width: u32,
    pub height: u32,
    pub in_range: Vec<bool>,
}

impl RecyclerRangeBoard {
    pub open spec fn idx(self, x: int, y: int) -> int {
        y * (self.width as int) + x
    }

    pub open spec fn in_bounds(self, x: int, y: int) -> bool {
        0 <= x < self.width && 0 <= y < self.height
    }

    pub open spec fn flag(self, x: int, y: int) -> bool {
        self.in_range@[self.idx(x, y)]
    }

    pub open spec fn wf(self) -> bool {
        &&& self.width <= 0xFFFF
        &&& self.height <= 0xFFFF
        &&& self.in_range@.len() == self.width * self.height
    }

    /// Copy the current recycler-range flags out of a board.
    pub fn from_board(board: &Board) -> (r: RecyclerRangeBoard)
        requires
            board.wf(),
        ensures
            r.wf(),
            r.width == board.width,
            r.height == board.height,
            forall|x: int, y: int|
                board.in_bounds(x, y) ==> #[trigger] r.flag(x, y) == board.cell(
                    x,
                    y,
                ).in_recycler_range,
    {
        let n = board.fields.len();
        let mut in_range: Vec<bool> = Vec::with_capacity(n);
        let mut i: usize = 0;
        while i < n
            invariant
                board.wf(),
                n == board.fields@.len(),
                i <= n,
                in_range@.len() == i,
                forall|k: int| 0 <= k < i ==> #[trigger] in_range@[k] == board.fields@[k].in_recycler_range,
            decreases n - i,
        {
            in_range.push(board.fields[i].in_recycler_range);
            i += 1;
        }
        let r = RecyclerRangeBoard { width: board.width, height: board.height, in_range };
        proof {
            assert forall|x: int, y: int| board.in_bounds(x, y) implies #[trigger] r.flag(x, y)
                == board.cell(x, y).in_recycler_range by {
                lemma_row_major_index_in_range(board.width as int, board.height as int, x, y);
            }
        }
        r
    }

    /// The flag at `(x, y)`, absent when the coordinates are off the board.
    pub fn get_field(&self, x: u32, y: u32) -> (r: Option<&bool>)
        requires
            self.wf(),
        ensures
            match r {
                Some(b) => self.in_bounds(x as int, y as int) && *b == self.flag(x as int, y as int),
                None => !self.in_bounds(x as int, y as int),
            },
    {
        if x < self.width && y < self.height {
            proof {
                lemma_row_major_index_in_range(self.width as int, self.height as int, x as int, y as int);
            }
            Some(&self.in_range[(x + y * self.width) as usize])
        } else {
            None
        }
    }

    /// Mutable access to the flag at `(x, y)`; `None` when the coordinates
    /// are off the board, leaving the flags untouched.
    pub fn get_field_mut(&mut self, x: u32, y: u32) -> (r: Option<&mut bool>)
        requires
            old(self).wf(),
        ensures
            match r {
                Some(p) => {
                    &&& old(self).in_bounds(x as int, y as int)
                    &&& *p == old(self).flag(x as int, y as int)
                    &&& final(self).width == old(self).width
                    &&& final(self).height == old(self).height
                    &&& final(self).in_range@ == old(self).in_range@.update(
                        old(self).idx(x as int, y as int),
                        *final(p),
                    )
                },
                None => !old(self).in_bounds(x as int, y as int) && *final(self) == *old(self),
            },
    {
        if x < self.width && y < self.height {
            proof {
                lemma_row_major_index_in_range(
                    self.width as int,
                    self.height as int,
                    x as int,
                    y as int,
                );
            }
            Some(&mut self.in_range[(x + y * self.width) as usize])
        } else {
            None
        }
    }

    /// The flags of the four orthogonal neighbours, north, east, south, west.
    pub fn get_adjacent_fields(&self, x: u32, y: u32) -> (r: [Option<&bool>; 4])
        requires
            self.wf(),
            self.in_bounds(x as int, y as int),
        ensures
            same_flag(r[0], *self, x as int, (y - 1) as int),
            same_flag(r[1], *self, (x + 1) as int, y as int),
            same_flag(r[2], *self, x as int, (y + 1) as int),
            same_flag(r[3], *self, (x - 1) as int, y as int),
    {
        let north = if y >= 1 { self.get_field(x, y - 1) } else { None };
        let east = self.get_field(x + 1, y);
        let south = self.get_field(x, y + 1);
        let west = if x >= 1 { self.get_field(x - 1, y) } else { None };
        [north, east, south, west]
    }

    /// The flags of the plus-neighbourhood: the cell itself, then north, east,
    /// south, west.
    pub fn get_fields_in_range(&self, x: u32, y: u32) -> (r: [Option<&bool>; 5])
        requires
            self.wf(),
            self.in_bounds(x as int, y as int),
        ensures
            same_flag(r[0], *self, x as int, y as int),
            same_flag(r[1], *self, x as int, (y - 1) as int),
            same_flag(r[2], *self, (x + 1) as int, y as int),
            same_flag(r[3], *self, x as int, (y + 1) as int),
            same_flag(r[4], *self, (x - 1) as int, y as int),
    {
        let center = self.get_field(x, y);
        let north = if y >= 1 { self.get_field(x, y - 1) } else { None };
        let east = self.get_field(x + 1, y);
        let south = self.get_field(x, y + 1);
        let west = if x >= 1 { self.get_field(x - 1, y) } else { None };
        [center, north, east, south, west]
    }

    /// Mark the coverage a recycler placed at `(x, y)` would add: the cell
    /// itself and its four orthogonal neighbours become "in range"; every
    /// other flag is untouched.
    pub fn process_recycler_placement(&mut self, x: u32, y: u32)
        requires
            old(self).wf(),
            old(self).in_bounds(x as int, y as int),
        ensures
            final(self).wf(),
            final(self).width == old(self).width,
            final(self).height == old(self).height,
            forall|px: int, py: int|
                old(self).in_bounds(px, py) ==> #[trigger] final(self).flag(px, py) == (old(
                    self,
                ).flag(px, py) || covered_by(x as int, y as int, px, py)),
    {
        let ghost pre = *self;
        proof {
            lemma_row_major_index_in_range(self.width as int, self.height as int, x as int, y as int);
        }
        let w = self.width;
        self.in_range[(x + y * w) as usize] = true;
        if y >= 1 {
            proof {
                lemma_row_major_index_in_range(
                    self.width as int,
                    self.height as int,
                    x as int,
                    y - 1,
                );
            }
            self.in_range[(x + (y - 1) * w) as usize] = true;
        }
        if x + 1 < self.width {
            proof {
                lemma_row_major_index_in_range(
                    self.width as int,
                    self.height as int,
                    x + 1,
                    y as int,
                );
            }
            self.in_range[(x + 1 + y * w) as usize] = true;
        }
        if y + 1 < self.height {
            proof {
                lemma_row_major_index_in_range(
                    self.width as int,
                    self.height as int,
                    x as int,
                    y + 1,
                );
            }
            self.in_range[(x + (y + 1) * w) as usize] = true;
        }
        if x >= 1 {
            proof {
                lemma_row_major_index_in_range(
                    self.width as int,
                    self.height as int,
                    x - 1,
                    y as int,
                );
            }
            self.in_range[(x - 1 + y * w) as usize] = true;
        }
        proof {
            assert forall|px: int, py: int| pre.in_bounds(px, py) implies #[trigger] self.flag(
                px,
                py,
            ) == (pre.flag(px, py) || covered_by(x as int, y as int, px, py)) by {
                lemma_row_major_index_in_range(pre.width as int, pre.height as int, px, py);
                lemma_distinct_cells_distinct_indices(pre.width as int, pre.height as int);
            }
        }
    }

    /// `process_recycler_placement` at a cell's own coordinates.
    pub fn process_recycler_placement_field(&mut self, field: &Field)
        requires
            old(self).wf(),
            old(self).in_bounds(field.x as int, field.y as int),
        ensures
            final(self).wf(),
            final(self).width == old(self).width,
            final(self).height == old(self).height,
            forall|px: int, py: int|
                old(self).in_bounds(px, py) ==> #[trigger] final(self).flag(px, py) == (old(
                    self,
                ).flag(px, py) || covered_by(field.x as int, field.y as int, px, py)),
    {
        self.process_recycler_placement(field.x, field.y);
    }
}

/// Whether a recycler at `(x, y)` covers `(px, py)`: the same cell or an
/// orthogonal neighbour.
pub open spec fn covered_by(x: int, y: int, px: int, py: int) -> bool {
    ||| (px == x && py == y)
    ||| (px == x && py == y - 1)
    ||| (px == x + 1 && py == y)
    ||| (px == x && py == y + 1)
    ||| (px == x - 1 && py == y)
}

/// An optional borrowed flag agrees with the stored flag at `(x, y)`, and is
/// absent exactly when `(x, y)` is off the board.
pub open spec fn same_flag(a: Option<&bool>, b: RecyclerRangeBoard, x: int, y: int) -> bool {
    match a {
        Some(f) => b.in_bounds(x, y) && *f == b.flag(x, y),
        None => !b.in_bounds(x, y),
    }
}

/// Distinct in-bounds coordinates map to distinct row-major indices.
pub proof fn lemma_distinct_cells_distinct_indices(width: int, height: int)
    requires
        width >= 1,
    ensures
        forall|ax: int, ay: int, bx: int, by: int|
            0 <= ax < width && 0 <= ay < height && 0 <= bx < width && 0 <= by < height && #[trigger] (
            ay * width + ax) == #[trigger] (by * width + bx) ==> ax == bx && ay == by,
{
    assert forall|ax: int, ay: int, bx: int, by: int|
        0 <= ax < width && 0 <= ay < height && 0 <= bx < width && 0 <= by < height && #[trigger] (ay
        * width + ax) == #[trigger] (by * width + bx) implies ax == bx && ay == by by {
        assert(ay * width + ax == by * width + bx ==> ax == bx && ay == by) by (nonlinear_arith)
            requires
                0 <= ax < width && 0 <= ay < height && 0 <= bx < width && 0 <= by < height,
        ;
    }
}

} // verus!
