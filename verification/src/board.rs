//! The board: a row-major rectangle of cells plus the two players' matter
//! pools, with the pure harvest-cycle simulation used for one-step lookahead.

use vstd::prelude::*;

use crate::field::Field;
use crate::owner::Owner;

verus! {

/// The whole game state for one turn. Rebuilt fresh from input every turn and
/// treated as immutable during planning; `process_harvest_cycle` returns a new
/// board instead of mutating this one.
pub struct Board {
    pub width: u32,
    pub height: u32,
    pub my_matter: u32,
    pub opponent_matter: u32,
    pub fields: Vec<Field>,
}

/// An optional borrowed cell holds the same cell as an optional ghost one.
pub open spec fn same_cell(a: Option<&Field>, b: Option<Field>) -> bool {
    match (a, b) {
        (Some(f), Some(g)) => *f == g,
        (None, None) => true,
        _ => false,
    }
}

impl Board {
    /// Row-major position of `(x, y)` in `fields`.
    pub open spec fn idx(self, x: int, y: int) -> int {
        y * (self.width as int) + x
    }

    pub open spec fn in_bounds(self, x: int, y: int) -> bool {
        0 <= x < self.width && 0 <= y < self.height
    }

    pub open spec fn cell(self, x: int, y: int) -> Field {
        self.fields@[self.idx(x, y)]
    }

    /// Well-formed board: the cell vector has exactly one row-major entry per
    /// coordinate and each cell knows its own coordinates. Dimensions are
    /// bounded so index and label arithmetic stays within `u32`.
    pub open spec fn wf(self) -> bool {
        &&& self.width <= 0xFFFF
        &&& self.height <= 0xFFFF
        &&& self.fields@.len() == self.width * self.height
        &&& forall|i: int|
            0 <= i < self.fields@.len() ==> {
                &&& (#[trigger] self.fields@[i]).x == i % (self.width as int)
                &&& self.fields@[i].y == i / (self.width as int)
            }
    }

    /// Runtime check for `wf`, so unverified input handling can reject a
    /// malformed board before planning starts.
    pub fn wf_check(&self) -> (r: bool)
        ensures
            r == self.wf(),
    {
        if self.width > 0xFFFF || self.height > 0xFFFF {
            return false;
        }
        proof {
            assert((self.width as int) * (self.height as int) <= 0xFFFF * 0xFFFF && (self.width
                == 0 ==> (self.width as int) * (self.height as int) == 0)) by (nonlinear_arith)
                requires
                    self.width <= 0xFFFF && self.height <= 0xFFFF,
            ;
        }
        let n: usize = (self.width as usize) * (self.height as usize);
        if self.fields.len() != n {
            return false;
        }
        if self.width == 0 {
            return true;
        }
        let mut i: usize = 0;
        while i < n
            invariant
                self.width > 0,
                n == self.width * self.height,
                self.fields@.len() == n,
                i <= n,
                forall|j: int|
                    0 <= j < i ==> {
                        &&& (#[trigger] self.fields@[j]).x == j % (self.width as int)
                        &&& self.fields@[j].y == j / (self.width as int)
                    },
            decreases n - i,
        {
            let f = &self.fields[i];
            if f.x as usize != i % (self.width as usize) || f.y as usize != i / (self.width as usize) {
                return false;
            }
            i += 1;
        }
        true
    }

    /// The cell at `(x, y)`, or `None` when the coordinates fall outside the
    /// board: out-of-range lookups are "absent", never an error.
    pub fn get_field(&self, x: u32, y: u32) -> (r: Option<&Field>)
        requires
            self.wf(),
        ensures
            match r {
                Some(f) => self.in_bounds(x as int, y as int) && *f == self.cell(x as int, y as int),
                None => !self.in_bounds(x as int, y as int),
            },
    {
        if x < self.width && y < self.height {
            proof {
                lemma_row_major_index_in_range(self.width as int, self.height as int, x as int, y as int);
            }
            Some(&self.fields[(x + y * self.width) as usize])
        } else {
            None
        }
    }

    /// Mutable access to the cell at `(x, y)`; `None` when the coordinates
    /// fall outside the board, leaving the board untouched.
    pub fn get_field_mut(&mut self, x: u32, y: u32) -> (r: Option<&mut Field>)
        requires
            old(self).wf(),
        ensures
            match r {
                Some(p) => {
                    &&& old(self).in_bounds(x as int, y as int)
                    &&& *p == old(self).cell(x as int, y as int)
                    &&& final(self).width == old(self).width
                    &&& final(self).height == old(self).height
                    &&& final(self).my_matter == old(self).my_matter
                    &&& final(self).opponent_matter == old(self).opponent_matter
                    &&& final(self).fields@ == old(self).fields@.update(
                        old(self).idx(x as int, y as int),
                        *final(p),
                    )
                },
                None => !old(self).in_bounds(x as int, y as int) && *final(self) == *old(self),
            },
    {
        if x < self.width && y < self.height {
            proof {
                lemma_row_major_index_in_range(
                    self.width as int,
                    self.height as int,
                    x as int,
                    y as int,
                );
            }
            Some(&mut self.fields[(x + y * self.width) as usize])
        } else {
            None
        }
    }

    /// The four orthogonal neighbours of `(x, y)` in fixed order north, east,
    /// south, west; a missing neighbour at the border is `None`, not wrapped.
    pub fn get_adjacent_fields(&self, x: u32, y: u32) -> (r: [Option<&Field>; 4])
        requires
            self.wf(),
            self.in_bounds(x as int, y as int),
        ensures
            same_cell(r[0], self.neighbor_cell(x as int, y as int, 0)),
            same_cell(r[1], self.neighbor_cell(x as int, y as int, 1)),
            same_cell(r[2], self.neighbor_cell(x as int, y as int, 2)),
            same_cell(r[3], self.neighbor_cell(x as int, y as int, 3)),
    {
        let north = if y >= 1 { self.get_field(x, y - 1) } else { None };
        let east = self.get_field(x + 1, y);
        let south = self.get_field(x, y + 1);
        let west = if x >= 1 { self.get_field(x - 1, y) } else { None };
        [north, east, south, west]
    }

    /// The neighbour of `(x, y)` in direction `d` (north, east, south, west for
    /// `d` = 0..3) as a ghost option, `None` when off the board.
    pub open spec fn neighbor_cell(self, x: int, y: int, d: int) -> Option<Field> {
        let nx = neighbor_x(x, d);
        let ny = neighbor_y(y, d);
        if self.in_bounds(nx, ny) {
            Some(self.cell(nx, ny))
        } else {
            None
        }
    }

    /// The plus-neighbourhood of `(x, y)`: the cell itself, then its four
    /// orthogonal neighbours in order north, east, south, west.
    pub fn get_fields_in_range(&self, x: u32, y: u32) -> (r: [Option<&Field>; 5])
        requires
            self.wf(),
            self.in_bounds(x as int, y as int),
        ensures
            same_cell(r[0], Some(self.cell(x as int, y as int))),
            same_cell(r[1], self.neighbor_cell(x as int, y as int, 0)),
            same_cell(r[2], self.neighbor_cell(x as int, y as int, 1)),
            same_cell(r[3], self.neighbor_cell(x as int, y as int, 2)),
            same_cell(r[4], self.neighbor_cell(x as int, y as int, 3)),
    {
        let center = self.get_field(x, y);
        let north = if y >= 1 { self.get_field(x, y - 1) } else { None };
        let east = self.get_field(x + 1, y);
        let south = self.get_field(x, y + 1);
        let west = if x >= 1 { self.get_field(x - 1, y) } else { None };
        [center, north, east, south, west]
    }
    /// Units on `(x, y)` counted only when the cell exists and belongs to `o`.
    pub open spec fn cell_units_at(self, x: int, y: int, o: Owner) -> int {
        if self.in_bounds(x, y) && self.cell(x, y).owner == o {
            self.cell(x, y).num_units as int
        } else {
            0
        }
    }

    /// Units owned by `o` over the four orthogonal neighbours of `(x, y)`.
    pub open spec fn adj_units(self, x: int, y: int, o: Owner) -> int {
        self.cell_units_at(x, y - 1, o) + self.cell_units_at(x + 1, y, o) + self.cell_units_at(
            x,
            y + 1,
            o,
        ) + self.cell_units_at(x - 1, y, o)
    }

    /// Total number of units owned by `o` on the whole board.
    pub fn robot_count(&self, owner: Owner) -> (r: u32)
        requires
            self.wf(),
            sum_units(self.fields@, owner) <= u32::MAX,
        ensures
            r == sum_units(self.fields@, owner),
    {
        let n = self.fields.len();
        let mut acc: u32 = 0;
        let mut i: usize = 0;
        while i < n
            invariant
                n == self.fields@.len(),
                i <= n,
                sum_units(self.fields@, owner) <= u32::MAX,
                acc == sum_units(self.fields@.take(i as int), owner),
            decreases n - i,
        {
            let f = &self.fields[i];
            proof {
                assert(self.fields@.take(i + 1).drop_last() =~= self.fields@.take(i as int));
                assert(self.fields@.take(i + 1).last() == self.fields@[i as int]);
                lemma_sum_units_prefix_le(self.fields@, i + 1, owner);
            }
            if f.owner == owner {
                acc = acc + f.num_units;
            }
            i += 1;
        }
        proof {
            assert(self.fields@.take(n as int) =~= self.fields@);
        }
        acc
    }

    /// Units owned by `o` on the four neighbours of `(x, y)`.
    pub fn adjacent_robot_count(&self, x: u32, y: u32, owner: Owner) -> (r: u32)
        requires
            self.wf(),
            self.in_bounds(x as int, y as int),
            self.adj_units(x as int, y as int, owner) <= u32::MAX,
        ensures
            r == self.adj_units(x as int, y as int, owner),
    {
        let mut acc: u32 = 0;
        if y >= 1 {
            if let Some(f) = self.get_field(x, y - 1) {
                if f.owner == owner {
                    acc = acc + f.num_units;
                }
            }
        }
        if let Some(f) = self.get_field(x + 1, y) {
            if f.owner == owner {
                acc = acc + f.num_units;
            }
        }
        if let Some(f) = self.get_field(x, y + 1) {
            if f.owner == owner {
                acc = acc + f.num_units;
            }
        }
        if x >= 1 {
            if let Some(f) = self.get_field(x - 1, y) {
                if f.owner == owner {
                    acc = acc + f.num_units;
                }
            }
        }
        acc
    }

    /// Units owned by `o` on the four neighbours of `(x, y)`, counted wide
    /// so no bound on the total is assumed.
    pub fn adjacent_robot_count_wide(&self, x: u32, y: u32, owner: Owner) -> (r: u64)
        requires
            self.wf(),
            self.in_bounds(x as int, y as int),
        ensures
            r == self.adj_units(x as int, y as int, owner),
    {
        let mut acc: u64 = 0;
        if y >= 1 {
            if let Some(f) = self.get_field(x, y - 1) {
                if f.owner == owner {
                    acc = acc + f.num_units as u64;
                }
            }
        }
        if let Some(f) = self.get_field(x + 1, y) {
            if f.owner == owner {
                acc = acc + f.num_units as u64;
            }
        }
        if let Some(f) = self.get_field(x, y + 1) {
            if f.owner == owner {
                acc = acc + f.num_units as u64;
            }
        }
        if x >= 1 {
            if let Some(f) = self.get_field(x - 1, y) {
                if f.owner == owner {
                    acc = acc + f.num_units as u64;
                }
            }
        }
        acc
    }

    /// Whether `(x, y)` exists and carries a recycler.
    pub open spec fn recycler_at(self, x: int, y: int) -> bool {
        self.in_bounds(x, y) && self.cell(x, y).has_recycler
    }

    /// How many recyclers cover `(x, y)`: one per recycler in its
    /// plus-neighbourhood (itself and the four orthogonal neighbours).
    pub open spec fn recyclers_in_range(self, x: int, y: int) -> int {
        bool_to_int(self.recycler_at(x, y)) + bool_to_int(self.recycler_at(x, y - 1)) + bool_to_int(
            self.recycler_at(x + 1, y),
        ) + bool_to_int(self.recycler_at(x, y + 1)) + bool_to_int(self.recycler_at(x - 1, y))
    }

    /// Scrap left on `(x, y)` after one harvest tick: each covering recycler
    /// takes one scrap, and the amount saturates at zero.
    pub open spec fn scrap_after(self, x: int, y: int) -> int {
        let s = self.cell(x, y).scrap_amount as int;
        let c = self.recyclers_in_range(x, y);
        if s <= c {
            0
        } else {
            s - c
        }
    }

    /// Whether `(x, y)` exists and still carries a recycler after one harvest
    /// tick: a recycler on a cell harvested down to zero is removed.
    pub open spec fn recycler_survives(self, x: int, y: int) -> bool {
        self.in_bounds(x, y) && self.cell(x, y).has_recycler && self.scrap_after(x, y) > 0
    }

    /// Whether `(x, y)` is within range of a recycler after one harvest tick.
    pub open spec fn in_range_after(self, x: int, y: int) -> bool {
        ||| self.recycler_survives(x, y)
        ||| self.recycler_survives(x, y - 1)
        ||| self.recycler_survives(x + 1, y)
        ||| self.recycler_survives(x, y + 1)
        ||| self.recycler_survives(x - 1, y)
    }

    /// How many recyclers cover `(x, y)` right now.
    pub fn count_recyclers_in_range(&self, x: u32, y: u32) -> (r: u32)
        requires
            self.wf(),
            self.in_bounds(x as int, y as int),
        ensures
            r == self.recyclers_in_range(x as int, y as int),
    {
        let mut acc: u32 = 0;
        if let Some(f) = self.get_field(x, y) {
            if f.has_recycler {
                acc = acc + 1;
            }
        }
        if y >= 1 {
            if let Some(f) = self.get_field(x, y - 1) {
                if f.has_recycler {
                    acc = acc + 1;
                }
            }
        }
        if let Some(f) = self.get_field(x + 1, y) {
            if f.has_recycler {
                acc = acc + 1;
            }
        }
        if let Some(f) = self.get_field(x, y + 1) {
            if f.has_recycler {
                acc = acc + 1;
            }
        }
        if x >= 1 {
            if let Some(f) = self.get_field(x - 1, y) {
                if f.has_recycler {
                    acc = acc + 1;
                }
            }
        }
        acc
    }

    /// Simulate one harvest cycle and return the resulting board: every cell
    /// loses one scrap per recycler covering it (never below zero), recyclers
    /// on exhausted cells disappear, and the recycler-range flags are
    /// recomputed from the surviving recyclers. The input board is unchanged.
    pub fn process_harvest_cycle(&self) -> (r: Board)
        requires
            self.wf(),
        ensures
            r.wf(),
            r.width == self.width,
            r.height == self.height,
            r.my_matter == self.my_matter,
            r.opponent_matter == self.opponent_matter,
            forall|x: int, y: int|
                self.in_bounds(x, y) ==> #[trigger] r.cell(x, y) == (Field {
                    scrap_amount: self.scrap_after(x, y) as u32,
                    has_recycler: self.recycler_survives(x, y),
                    in_recycler_range: self.in_range_after(x, y),
                    ..self.cell(x, y)
                }),
    {
        let n = self.fields.len();
        let mut harvested: Vec<Field> = Vec::with_capacity(n);
        let mut i: usize = 0;
        while i < n
            invariant
                self.wf(),
                n == self.fields@.len(),
                i <= n,
                harvested@.len() == i,
                forall|k: int|
                    0 <= k < i ==> #[trigger] harvested@[k] == (Field {
                        scrap_amount: self.scrap_after(
                            self.fields@[k].x as int,
                            self.fields@[k].y as int,
                        ) as u32,
                        has_recycler: self.recycler_survives(
                            self.fields@[k].x as int,
                            self.fields@[k].y as int,
                        ),
                        ..self.fields@[k]
                    }),
            decreases n - i,
        {
            let f = self.fields[i];
            proof {
                lemma_row_major_coords(self.width as int, self.height as int, i as int);
            }
            let cnt = self.count_recyclers_in_range(f.x, f.y);
            let scrap2 = if f.scrap_amount <= cnt {
                0
            } else {
                f.scrap_amount - cnt
            };
            let rec2 = f.has_recycler && scrap2 > 0;
            harvested.push(
                Field { scrap_amount: scrap2, has_recycler: rec2, ..f },
            );
            i += 1;
        }
        let mut out: Vec<Field> = Vec::with_capacity(n);
        let mut j: usize = 0;
        while j < n
            invariant
                self.wf(),
                n == self.fields@.len(),
                j <= n,
                harvested@.len() == n,
                out@.len() == j,
                forall|k: int|
                    0 <= k < n ==> #[trigger] harvested@[k] == (Field {
                        scrap_amount: self.scrap_after(
                            self.fields@[k].x as int,
                            self.fields@[k].y as int,
                        ) as u32,
                        has_recycler: self.recycler_survives(
                            self.fields@[k].x as int,
                            self.fields@[k].y as int,
                        ),
                        ..self.fields@[k]
                    }),
                forall|k: int|
                    0 <= k < j ==> #[trigger] out@[k] == (Field {
                        in_recycler_range: self.in_range_after(
                            self.fields@[k].x as int,
                            self.fields@[k].y as int,
                        ),
                        ..harvested@[k]
                    }),
            decreases n - j,
        {
            let f = harvested[j];
            proof {
                lemma_row_major_coords(self.width as int, self.height as int, j as int);
            }
            let inr = self.survivor_flag(&harvested, f.x, f.y) || (f.y >= 1 && self.survivor_flag(
                &harvested,
                f.x,
                f.y - 1,
            )) || self.survivor_flag(&harvested, f.x + 1, f.y) || self.survivor_flag(
                &harvested,
                f.x,
                f.y + 1,
            ) || (f.x >= 1 && self.survivor_flag(&harvested, f.x - 1, f.y));
            out.push(Field { in_recycler_range: inr, ..f });
            j += 1;
        }
        let r = Board {
            width: self.width,
            height: self.height,
            my_matter: self.my_matter,
            opponent_matter: self.opponent_matter,
            fields: out,
        };
        proof {
            assert forall|x: int, y: int| self.in_bounds(x, y) implies #[trigger] r.cell(x, y)
                == (Field {
                scrap_amount: self.scrap_after(x, y) as u32,
                has_recycler: self.recycler_survives(x, y),
                in_recycler_range: self.in_range_after(x, y),
                ..self.cell(x, y)
            }) by {
                lemma_row_major_index_in_range(
                    self.width as int,
                    self.height as int,
                    x,
                    y,
                );
                lemma_row_major_coords(
                    self.width as int,
                    self.height as int,
                    y * self.width as int + x,
                );
            }
            assert(r.wf());
        }
        r
    }

    /// Whether the harvested copy of this board still has a recycler at
    /// `(x, y)`; false off the board.
    fn survivor_flag(&self, harvested: &Vec<Field>, x: u32, y: u32) -> (r: bool)
        requires
            self.wf(),
            harvested@.len() == self.fields@.len(),
            forall|k: int|
                0 <= k < harvested@.len() ==> (#[trigger] harvested@[k]).has_recycler
                    == self.recycler_survives(
                    self.fields@[k].x as int,
                    self.fields@[k].y as int,
                ),
        ensures
            r == self.recycler_survives(x as int, y as int),
    {
        if x < self.width && y < self.height {
            proof {
                lemma_row_major_index_in_range(
                    self.width as int,
                    self.height as int,
                    x as int,
                    y as int,
                );
                lemma_row_major_coords(
                    self.width as int,
                    self.height as int,
                    y as int * self.width as int + x as int,
                );
            }
            harvested[(x + y * self.width) as usize].has_recycler
        } else {
            false
        }
    }
}

/// One harvest tick is bounded and tidy: a cell never loses more scrap than
/// the number of recyclers covering it, scrap never goes negative, and the
/// recyclers removed are exactly those standing on a cell harvested to zero.
pub proof fn lemma_harvest_cycle_bounds(b: Board, x: int, y: int)
    requires
        b.wf(),
        b.in_bounds(x, y),
    ensures
        b.scrap_after(x, y) >= 0,
        b.scrap_after(x, y) <= b.cell(x, y).scrap_amount,
        b.cell(x, y).scrap_amount - b.scrap_after(x, y) <= b.recyclers_in_range(x, y),
        b.recycler_survives(x, y) == (b.cell(x, y).has_recycler && b.scrap_after(x, y) != 0),
{
}

/// 1 for true, 0 for false: lets counts be written as sums.
pub open spec fn bool_to_int(b: bool) -> int {
    if b {
        1
    } else {
        0
    }
}

/// Total units owned by `o` over the cells of `s`.
pub open spec fn sum_units(s: Seq<Field>, o: Owner) -> int
    decreases s.len(),
{
    if s.len() == 0 {
        0
    } else {
        sum_units(s.drop_last(), o) + if s.last().owner == o {
            s.last().num_units as int
        } else {
            0
        }
    }
}

/// A prefix never sums to more units than the whole sequence.
pub proof fn lemma_sum_units_prefix_le(s: Seq<Field>, i: int, o: Owner)
    requires
        0 <= i <= s.len(),
    ensures
        sum_units(s.take(i), o) <= sum_units(s, o),
    decreases s.len() - i,
{
    if i == s.len() {
        assert(s.take(i) =~= s);
    } else {
        assert(s.take(i + 1).drop_last() =~= s.take(i));
        lemma_sum_units_prefix_le(s, i + 1, o);
    }
}

/// Inside a row-major board, entry `i` sits at column `i % width` and row
/// `i / width`, both in bounds.
pub proof fn lemma_row_major_coords(width: int, height: int, i: int)
    requires
        width >= 0,
        0 <= i < width * height,
    ensures
        width >= 1,
        0 <= i % width < width,
        0 <= i / width < height,
        (i / width) * width + (i % width) == i,
{
    assert(width >= 1 && 0 <= i % width < width && 0 <= i / width < height && (i / width) * width
        + (i % width) == i) by (nonlinear_arith)
        requires
            width >= 0,
            0 <= i < width * height,
    ;
}

/// X coordinate of the neighbour in direction `d` (0 = north, 1 = east,
/// 2 = south, 3 = west).
pub open spec fn neighbor_x(x: int, d: int) -> int {
    if d == 1 {
        x + 1
    } else if d == 3 {
        x - 1
    } else {
        x
    }
}

/// Y coordinate of the neighbour in direction `d`.
pub open spec fn neighbor_y(y: int, d: int) -> int {
    if d == 0 {
        y - 1
    } else if d == 2 {
        y + 1
    } else {
        y
    }
}

/// In a `width` by `height` row-major layout, an in-bounds coordinate pair maps
/// below `width * height`, and the map agrees with the stored coordinates.
pub proof fn lemma_row_major_index_in_range(width: int, height: int, x: int, y: int)
    requires
        0 <= x < width <= 0xFFFF,
        0 <= y < height <= 0xFFFF,
    ensures
        0 <= y * width + x < width * height,
        width * height <= 0xFFFF * 0xFFFF,
        (y * width + x) % width == x,
        (y * width + x) / width == y,
{
    assert(0 <= y * width + x < width * height && width * height <= 0xFFFF * 0xFFFF && (y * width
        + x) % width == x && (y * width + x) / width == y) by (nonlinear_arith)
        requires
            0 <= x < width <= 0xFFFF,
            0 <= y < height <= 0xFFFF,
    ;
}

/// The coordinates of the up-to-four orthogonal neighbours of `(x, y)` on a
/// `width` by `height` board, in order north, east, south, west; `None` where
/// the board ends.
pub fn adjacent_in_range(x: u32, y: u32, width: u32, height: u32) -> (r: [Option<(u32, u32)>; 4])
    requires
        x < width,
        y < height,
    ensures
        r[0] == (if y >= 1 { Some((x, (y - 1) as u32)) } else { None::<(u32, u32)> }),
        r[1] == (if x + 1 < width { Some(((x + 1) as u32, y)) } else { None::<(u32, u32)> }),
        r[2] == (if y + 1 < height { Some((x, (y + 1) as u32)) } else { None::<(u32, u32)> }),
        r[3] == (if x >= 1 { Some(((x - 1) as u32, y)) } else { None::<(u32, u32)> }),
{
    [
        if y >= 1 { Some((x, y - 1)) } else { None },
        if x + 1 < width { Some((x + 1, y)) } else { None },
        if y + 1 < height { Some((x, y + 1)) } else { None },
        if x >= 1 { Some((x - 1, y)) } else { None },
    ]
}

} // verus!
