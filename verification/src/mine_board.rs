//! A coarser yield layer: the prospective harvest per cell counting every
//! existing neighbour, with no regard for traversability or recycler
//! coverage.

use vstd::prelude::*;

use crate::board::{lemma_row_major_coords, lemma_row_major_index_in_range, Board};
use crate::yield_board::min_int;

verus! {

/// What the neighbour in direction `d` adds to the raw prospective yield at
/// `(x, y)`: its scrap, capped by the candidate cell's own scrap; a missing
/// neighbour adds nothing.
pub open spec fn raw_neighbor_term(b: Board, x: int, y: int, d: int) -> int {
    match b.neighbor_cell(x, y, d) {
        Some(n) => min_int(b.cell(x, y).scrap_amount as int, n.scrap_amount as int),
        None => 0,
    }
}

/// Raw prospective yield of a recycler at `(x, y)`: its own scrap plus the
/// capped scrap of every existing neighbour.
pub open spec fn raw_yield(b: Board, x: int, y: int) -> int {
    b.cell(x, y).scrap_amount + raw_neighbor_term(b, x, y, 0) + raw_neighbor_term(b, x, y, 1)
        + raw_neighbor_term(b, x, y, 2) + raw_neighbor_term(b, x, y, 3)
}

/// A per-cell raw yield layer in the same row-major layout as its board.
pub struct MineBoard {
    pub width: u32,
    pub height: u32,
    pub prospective_scrap: Vec<u32>,
}

impl MineBoard {
    pub open spec fn idx(self, x: int, y: int) -> int {
        y * (self.width as int) + x
    }

    pub open spec fn in_bounds(self, x: int, y: int) -> bool {
        0 <= x < self.width && 0 <= y < self.height
    }

    pub open spec fn value(self, x: int, y: int) -> int {
        self.prospective_scrap@[self.idx(x, y)] as int
    }

    pub open spec fn wf(self) -> bool {
        &&& self.width <= 0xFFFF
        &&& self.height <= 0xFFFF
        &&& self.prospective_scrap@.len() == self.width * self.height
    }

    /// Build the raw yield layer for a board.
    pub fn new(board: &Board) -> (r: MineBoard)
        requires
            board.wf(),
            forall|x: int, y: int| board.in_bounds(x, y) ==> raw_yield(*board, x, y) <= u32::MAX,
        ensures
            r.wf(),
            r.width == board.width,
            r.height == board.height,
            forall|x: int, y: int|
                board.in_bounds(x, y) ==> #[trigger] r.value(x, y) == raw_yield(*board, x, y),
    {
        let n = board.fields.len();
        let mut values: Vec<u32> = Vec::with_capacity(n);
        let mut i: usize = 0;
        while i < n
            invariant
                board.wf(),
                forall|x: int, y: int|
                    board.in_bounds(x, y) ==> raw_yield(*board, x, y) <= u32::MAX,
                n == board.fields@.len(),
                i <= n,
                values@.len() == i,
                forall|k: int|
                    0 <= k < i ==> #[trigger] values@[k] == raw_yield(
                        *board,
                        board.fields@[k].x as int,
                        board.fields@[k].y as int,
                    ),
            decreases n - i,
        {
            let f = board.fields[i];
            proof {
                lemma_row_major_coords(board.width as int, board.height as int, i as int);
            }
            let v = cell_raw_yield(board, f.x, f.y);
            values.push(v);
            i += 1;
        }
        let r = MineBoard { width: board.width, height: board.height, prospective_scrap: values };
        proof {
            assert forall|x: int, y: int| board.in_bounds(x, y) implies #[trigger] r.value(x, y)
                == raw_yield(*board, x, y) by {
                lemma_row_major_index_in_range(board.width as int, board.height as int, x, y);
                lemma_row_major_coords(
                    board.width as int,
                    board.height as int,
                    y * board.width as int + x,
                );
            }
        }
        r
    }
}

/// The raw yield of the cell at `(x, y)`, computed directly.
fn cell_raw_yield(board: &Board, x: u32, y: u32) -> (r: u32)
    requires
        board.wf(),
        board.in_bounds(x as int, y as int),
        raw_yield(*board, x as int, y as int) <= u32::MAX,
    ensures
        r == raw_yield(*board, x as int, y as int),
{
    let f = *board.get_field(x, y).unwrap();
    let mut acc: u32 = f.scrap_amount;
    let adj = board.get_adjacent_fields(x, y);
    if let Some(a) = adj[0] {
        acc = acc + (if f.scrap_amount <= a.scrap_amount {
            f.scrap_amount
        } else {
            a.scrap_amount
        });
    }
    if let Some(a) = adj[1] {
        acc = acc + (if f.scrap_amount <= a.scrap_amount {
            f.scrap_amount
        } else {
            a.scrap_amount
        });
    }
    if let Some(a) = adj[2] {
        acc = acc + (if f.scrap_amount <= a.scrap_amount {
            f.scrap_amount
        } else {
            a.scrap_amount
        });
    }
    if let Some(a) = adj[3] {
        acc = acc + (if f.scrap_amount <= a.scrap_amount {
            f.scrap_amount
        } else {
            a.scrap_amount
        });
    }
    acc
}

} // verus!
