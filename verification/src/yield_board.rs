//! Economic layers: for every cell, the one-time harvest a recycler placed
//! there could recover. The without-recycling variant ignores existing
//! recyclers; the with-recycling variant credits nothing for material already
//! claimed by a recycler in range.

use vstd::prelude::*;

use crate::board::{lemma_row_major_coords, lemma_row_major_index_in_range, Board};
use crate::field::Field;

verus! {

/// The smaller of two mathematical integers.
pub open spec fn min_int(a: int, b: int) -> int {
    if a <= b {
        a
    } else {
        b
    }
}

/// What the neighbour in direction `d` adds to the prospective yield at
/// `(x, y)`, ignoring existing recyclers: a traversable neighbour contributes
/// its scrap, capped by the candidate cell's own scrap (a recycler cannot
/// out-harvest its own tile's remaining life); grass, doomed or missing
/// neighbours contribute nothing.
pub open spec fn neighbor_yield_term(b: Board, x: int, y: int, d: int) -> int {
    match b.neighbor_cell(x, y, d) {
        Some(n) => if n.spec_is_traversible() {
            min_int(b.cell(x, y).scrap_amount as int, n.scrap_amount as int)
        } else {
            0
        },
        None => 0,
    }
}

/// Prospective one-time yield of a recycler at `(x, y)`, ignoring existing
/// recyclers.
pub open spec fn yield_without(b: Board, x: int, y: int) -> int {
    b.cell(x, y).scrap_amount + neighbor_yield_term(b, x, y, 0) + neighbor_yield_term(b, x, y, 1)
        + neighbor_yield_term(b, x, y, 2) + neighbor_yield_term(b, x, y, 3)
}

/// As `neighbor_yield_term`, but a neighbour already inside some recycler's
/// range contributes nothing: that material is presumed claimed.
pub open spec fn neighbor_yield_term_wr(b: Board, x: int, y: int, d: int) -> int {
    match b.neighbor_cell(x, y, d) {
        Some(n) => if n.spec_is_traversible() && !n.in_recycler_range {
            min_int(b.cell(x, y).scrap_amount as int, n.scrap_amount as int)
        } else {
            0
        },
        None => 0,
    }
}

/// Prospective one-time yield of a recycler at `(x, y)`, counting only
/// material not already claimed by an existing recycler.
pub open spec fn yield_with(b: Board, x: int, y: int) -> int {
    (if b.cell(x, y).in_recycler_range {
        0
    } else {
        b.cell(x, y).scrap_amount as int
    }) + neighbor_yield_term_wr(b, x, y, 0) + neighbor_yield_term_wr(b, x, y, 1)
        + neighbor_yield_term_wr(b, x, y, 2) + neighbor_yield_term_wr(b, x, y, 3)
}

/// A per-cell yield layer in the same row-major layout as its board.
pub struct YieldBoard {
    pub width: u32,
    pub height: u32,
    pub prospective_scrap: Vec<u32>,
}

impl YieldBoard {
    pub open spec fn idx(self, x: int, y: int) -> int {
        y * (self.width as int) + x
    }

    pub open spec fn in_bounds(self, x: int, y: int) -> bool {
        0 <= x < self.width && 0 <= y < self.height
    }

    pub open spec fn value(self, x: int, y: int) -> int {
        self.prospective_scrap@[self.idx(x, y)] as int
    }

    pub open spec fn wf(self) -> bool {
        &&& self.width <= 0xFFFF
        &&& self.height <= 0xFFFF
        &&& self.prospective_scrap@.len() == self.width * self.height
    }

    /// Build the layer that counts only unclaimed material.
    pub fn with_recycling(board: &Board) -> (r: YieldBoard)
        requires
            board.wf(),
            forall|x: int, y: int| board.in_bounds(x, y) ==> yield_with(*board, x, y) <= u32::MAX,
        ensures
            r.wf(),
            r.width == board.width,
            r.height == board.height,
            forall|x: int, y: int|
                board.in_bounds(x, y) ==> #[trigger] r.value(x, y) == yield_with(*board, x, y),
    {
        let n = board.fields.len();
        let mut values: Vec<u32> = Vec::with_capacity(n);
        let mut i: usize = 0;
        while i < n
            invariant
                board.wf(),
                forall|x: int, y: int|
                    board.in_bounds(x, y) ==> yield_with(*board, x, y) <= u32::MAX,
                n == board.fields@.len(),
                i <= n,
                values@.len() == i,
                forall|k: int|
                    0 <= k < i ==> #[trigger] values@[k] == yield_with(
                        *board,
                        board.fields@[k].x as int,
                        board.fields@[k].y as int,
                    ),
            decreases n - i,
        {
            let f = board.fields[i];
            proof {
                lemma_row_major_coords(board.width as int, board.height as int, i as int);
            }
            let v = cell_yield_with(board, f.x, f.y);
            values.push(v);
            i += 1;
        }
        let r = YieldBoard { width: board.width, height: board.height, prospective_scrap: values };
        proof {
            assert forall|x: int, y: int| board.in_bounds(x, y) implies #[trigger] r.value(x, y)
                == yield_with(*board, x, y) by {
                lemma_row_major_index_in_range(board.width as int, board.height as int, x, y);
                lemma_row_major_coords(
                    board.width as int,
                    board.height as int,
                    y * board.width as int + x,
                );
            }
        }
        r
    }

    /// Build the layer that ignores existing recyclers.
    pub fn without_recycling(board: &Board) -> (r: YieldBoard)
        requires
            board.wf(),
            forall|x: int, y: int|
                board.in_bounds(x, y) ==> yield_without(*board, x, y) <= u32::MAX,
        ensures
            r.wf(),
            r.width == board.width,
            r.height == board.height,
            forall|x: int, y: int|
                board.in_bounds(x, y) ==> #[trigger] r.value(x, y) == yield_without(*board, x, y),
    {
        let n = board.fields.len();
        let mut values: Vec<u32> = Vec::with_capacity(n);
        let mut i: usize = 0;
        while i < n
            invariant
                board.wf(),
                forall|x: int, y: int|
                    board.in_bounds(x, y) ==> yield_without(*board, x, y) <= u32::MAX,
                n == board.fields@.len(),
                i <= n,
                values@.len() == i,
                forall|k: int|
                    0 <= k < i ==> #[trigger] values@[k] == yield_without(
                        *board,
                        board.fields@[k].x as int,
                        board.fields@[k].y as int,
                    ),
            decreases n - i,
        {
            let f = board.fields[i];
            proof {
                lemma_row_major_coords(board.width as int, board.height as int, i as int);
            }
            let v = cell_yield_without(board, f.x, f.y);
            values.push(v);
            i += 1;
        }
        let r = YieldBoard { width: board.width, height: board.height, prospective_scrap: values };
        proof {
            assert forall|x: int, y: int| board.in_bounds(x, y) implies #[trigger] r.value(x, y)
                == yield_without(*board, x, y) by {
                lemma_row_major_index_in_range(board.width as int, board.height as int, x, y);
                lemma_row_major_coords(
                    board.width as int,
                    board.height as int,
                    y * board.width as int + x,
                );
            }
        }
        r
    }

    /// The stored yield at `(x, y)`, absent when off the board.
    pub fn get_field(&self, x: u32, y: u32) -> (r: Option<&u32>)
        requires
            self.wf(),
        ensures
            match r {
                Some(v) => self.in_bounds(x as int, y as int) && *v == self.value(
                    x as int,
                    y as int,
                ),
                None => !self.in_bounds(x as int, y as int),
            },
    {
        if x < self.width && y < self.height {
            proof {
                lemma_row_major_index_in_range(
                    self.width as int,
                    self.height as int,
                    x as int,
                    y as int,
                );
            }
            Some(&self.prospective_scrap[(x + y * self.width) as usize])
        } else {
            None
        }
    }
}


/// The with-recycling yield of the cell at `(x, y)`, computed directly.
#[verifier::rlimit(50)]
fn cell_yield_with(board: &Board, x: u32, y: u32) -> (r: u32)
    requires
        board.wf(),
        board.in_bounds(x as int, y as int),
        yield_with(*board, x as int, y as int) <= u32::MAX,
    ensures
        r == yield_with(*board, x as int, y as int),
{
    proof {
        lemma_yield_terms_nonneg(*board, x as int, y as int);
    }
    let f = *board.get_field(x, y).unwrap();
    let mut acc: u32 = if f.in_recycler_range {
        0
    } else {
        f.scrap_amount
    };
    let adj = board.get_adjacent_fields(x, y);
    if let Some(a) = adj[0] {
        if a.is_traversible() && !a.in_recycler_range {
            acc = acc + (if f.scrap_amount <= a.scrap_amount {
                f.scrap_amount
            } else {
                a.scrap_amount
            });
        }
    }
    if let Some(a) = adj[1] {
        if a.is_traversible() && !a.in_recycler_range {
            acc = acc + (if f.scrap_amount <= a.scrap_amount {
                f.scrap_amount
            } else {
                a.scrap_amount
            });
        }
    }
    if let Some(a) = adj[2] {
        if a.is_traversible() && !a.in_recycler_range {
            acc = acc + (if f.scrap_amount <= a.scrap_amount {
                f.scrap_amount
            } else {
                a.scrap_amount
            });
        }
    }
    if let Some(a) = adj[3] {
        if a.is_traversible() && !a.in_recycler_range {
            acc = acc + (if f.scrap_amount <= a.scrap_amount {
                f.scrap_amount
            } else {
                a.scrap_amount
            });
        }
    }
    acc
}

/// The without-recycling yield of the cell at `(x, y)`, computed directly.
#[verifier::rlimit(50)]
fn cell_yield_without(board: &Board, x: u32, y: u32) -> (r: u32)
    requires
        board.wf(),
        board.in_bounds(x as int, y as int),
        yield_without(*board, x as int, y as int) <= u32::MAX,
    ensures
        r == yield_without(*board, x as int, y as int),
{
    proof {
        lemma_yield_terms_nonneg(*board, x as int, y as int);
    }
    let f = *board.get_field(x, y).unwrap();
    let mut acc: u32 = f.scrap_amount;
    let adj = board.get_adjacent_fields(x, y);
    if let Some(a) = adj[0] {
        if a.is_traversible() {
            acc = acc + (if f.scrap_amount <= a.scrap_amount {
                f.scrap_amount
            } else {
                a.scrap_amount
            });
        }
    }
    if let Some(a) = adj[1] {
        if a.is_traversible() {
            acc = acc + (if f.scrap_amount <= a.scrap_amount {
                f.scrap_amount
            } else {
                a.scrap_amount
            });
        }
    }
    if let Some(a) = adj[2] {
        if a.is_traversible() {
            acc = acc + (if f.scrap_amount <= a.scrap_amount {
                f.scrap_amount
            } else {
                a.scrap_amount
            });
        }
    }
    if let Some(a) = adj[3] {
        if a.is_traversible() {
            acc = acc + (if f.scrap_amount <= a.scrap_amount {
                f.scrap_amount
            } else {
                a.scrap_amount
            });
        }
    }
    acc
}


/// The with-recycling yield of the cell at `(x, y)`, computed without any
/// assumption that it fits a 32-bit counter.
#[verifier::rlimit(60)]
#[verifier::spinoff_prover]
pub fn cell_yield_with_wide(board: &Board, x: u32, y: u32) -> (r: u64)
    requires
        board.wf(),
        board.in_bounds(x as int, y as int),
    ensures
        r == yield_with(*board, x as int, y as int),
{
    proof {
        lemma_yield_terms_nonneg(*board, x as int, y as int);
    }
    let f = *board.get_field(x, y).unwrap();
    let mut acc: u64 = if f.in_recycler_range {
        0
    } else {
        f.scrap_amount as u64
    };
    let adj = board.get_adjacent_fields(x, y);
    if let Some(a) = adj[0] {
        if a.is_traversible() && !a.in_recycler_range {
            acc = acc + (if f.scrap_amount <= a.scrap_amount {
                f.scrap_amount
            } else {
                a.scrap_amount
            }) as u64;
        }
    }
    if let Some(a) = adj[1] {
        if a.is_traversible() && !a.in_recycler_range {
            acc = acc + (if f.scrap_amount <= a.scrap_amount {
                f.scrap_amount
            } else {
                a.scrap_amount
            }) as u64;
        }
    }
    if let Some(a) = adj[2] {
        if a.is_traversible() && !a.in_recycler_range {
            acc = acc + (if f.scrap_amount <= a.scrap_amount {
                f.scrap_amount
            } else {
                a.scrap_amount
            }) as u64;
        }
    }
    if let Some(a) = adj[3] {
        if a.is_traversible() && !a.in_recycler_range {
            acc = acc + (if f.scrap_amount <= a.scrap_amount {
                f.scrap_amount
            } else {
                a.scrap_amount
            }) as u64;
        }
    }
    acc
}

/// The without-recycling yield of the cell at `(x, y)`, computed without any
/// assumption that it fits a 32-bit counter.
#[verifier::rlimit(60)]
#[verifier::spinoff_prover]
pub fn cell_yield_without_wide(board: &Board, x: u32, y: u32) -> (r: u64)
    requires
        board.wf(),
        board.in_bounds(x as int, y as int),
    ensures
        r == yield_without(*board, x as int, y as int),
{
    proof {
        lemma_yield_terms_nonneg(*board, x as int, y as int);
    }
    let f = *board.get_field(x, y).unwrap();
    let mut acc: u64 = f.scrap_amount as u64;
    let adj = board.get_adjacent_fields(x, y);
    if let Some(a) = adj[0] {
        if a.is_traversible() {
            acc = acc + (if f.scrap_amount <= a.scrap_amount {
                f.scrap_amount
            } else {
                a.scrap_amount
            }) as u64;
        }
    }
    if let Some(a) = adj[1] {
        if a.is_traversible() {
            acc = acc + (if f.scrap_amount <= a.scrap_amount {
                f.scrap_amount
            } else {
                a.scrap_amount
            }) as u64;
        }
    }
    if let Some(a) = adj[2] {
        if a.is_traversible() {
            acc = acc + (if f.scrap_amount <= a.scrap_amount {
                f.scrap_amount
            } else {
                a.scrap_amount
            }) as u64;
        }
    }
    if let Some(a) = adj[3] {
        if a.is_traversible() {
            acc = acc + (if f.scrap_amount <= a.scrap_amount {
                f.scrap_amount
            } else {
                a.scrap_amount
            }) as u64;
        }
    }
    acc
}

/// A cell's scrap counted only when no recycler already claims it.
pub fn scrap_if_not_in_harvester_range(field: &Field) -> (r: u32)
    ensures
        r == (if field.in_recycler_range {
            0u32
        } else {
            field.scrap_amount
        }),
{
    if field.in_recycler_range {
        0
    } else {
        field.scrap_amount
    }
}

/// Every yield term is non-negative, and each neighbour term is bounded by the
/// candidate cell's own scrap.
pub proof fn lemma_yield_terms_nonneg(b: Board, x: int, y: int)
    requires
        b.wf(),
        b.in_bounds(x, y),
    ensures
        forall|d: int| 0 <= #[trigger] neighbor_yield_term(b, x, y, d),
        forall|d: int| 0 <= #[trigger] neighbor_yield_term_wr(b, x, y, d),
        forall|d: int|
            #[trigger] neighbor_yield_term(b, x, y, d) <= b.cell(x, y).scrap_amount as int,
        forall|d: int|
            #[trigger] neighbor_yield_term_wr(b, x, y, d) <= b.cell(x, y).scrap_amount as int,
{
}

/// Claimed material only ever lowers the estimate: on any board the
/// with-recycling yield of a cell is at most its without-recycling yield.
pub proof fn lemma_yield_with_le_without(b: Board, x: int, y: int)
    requires
        b.wf(),
        b.in_bounds(x, y),
    ensures
        yield_with(b, x, y) <= yield_without(b, x, y),
{
    lemma_yield_terms_nonneg(b, x, y);
    assert(neighbor_yield_term_wr(b, x, y, 0) <= neighbor_yield_term(b, x, y, 0));
    assert(neighbor_yield_term_wr(b, x, y, 1) <= neighbor_yield_term(b, x, y, 1));
    assert(neighbor_yield_term_wr(b, x, y, 2) <= neighbor_yield_term(b, x, y, 2));
    assert(neighbor_yield_term_wr(b, x, y, 3) <= neighbor_yield_term(b, x, y, 3));
}

/// The neighbour of `(x, y)` in direction `d` either is missing on both
/// boards, or exists on both with the second's scrap at least the first's and
/// everything else about it unchanged.
pub open spec fn neighbor_scrap_raised(b1: Board, b2: Board, x: int, y: int, d: int) -> bool {
    match (b1.neighbor_cell(x, y, d), b2.neighbor_cell(x, y, d)) {
        (Some(n1), Some(n2)) => n1.scrap_amount <= n2.scrap_amount && n1.in_recycler_range
            == n2.in_recycler_range,
        (None, None) => true,
        _ => false,
    }
}

/// Yield layers are monotonic: raising neighbour scrap amounts while holding
/// the cell's own entry fixed never lowers either yield variant.
pub proof fn lemma_yield_monotone_in_neighbors(b1: Board, b2: Board, x: int, y: int)
    requires
        b1.wf(),
        b2.wf(),
        b1.in_bounds(x, y),
        b2.in_bounds(x, y),
        b1.cell(x, y) == b2.cell(x, y),
        forall|d: int| 0 <= d < 4 ==> #[trigger] neighbor_scrap_raised(b1, b2, x, y, d),
    ensures
        yield_without(b1, x, y) <= yield_without(b2, x, y),
        yield_with(b1, x, y) <= yield_with(b2, x, y),
{
    assert forall|d: int| 0 <= d < 4 implies #[trigger] neighbor_yield_term(b1, x, y, d)
        <= neighbor_yield_term(b2, x, y, d) && neighbor_yield_term_wr(b1, x, y, d)
        <= neighbor_yield_term_wr(b2, x, y, d) by {
        assert(neighbor_scrap_raised(b1, b2, x, y, d));
    }
    assert(neighbor_yield_term(b1, x, y, 0) <= neighbor_yield_term(b2, x, y, 0));
    assert(neighbor_yield_term(b1, x, y, 1) <= neighbor_yield_term(b2, x, y, 1));
    assert(neighbor_yield_term(b1, x, y, 2) <= neighbor_yield_term(b2, x, y, 2));
    assert(neighbor_yield_term(b1, x, y, 3) <= neighbor_yield_term(b2, x, y, 3));
    assert(neighbor_yield_term_wr(b1, x, y, 0) <= neighbor_yield_term_wr(b2, x, y, 0));
    assert(neighbor_yield_term_wr(b1, x, y, 1) <= neighbor_yield_term_wr(b2, x, y, 1));
    assert(neighbor_yield_term_wr(b1, x, y, 2) <= neighbor_yield_term_wr(b2, x, y, 2));
    assert(neighbor_yield_term_wr(b1, x, y, 3) <= neighbor_yield_term_wr(b2, x, y, 3));
}

} // verus!
