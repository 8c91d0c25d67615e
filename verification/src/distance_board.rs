//! Multi-source distance labelling. For a chosen owner, every traversable
//! cell gets the minimum number of turns a unit of that owner needs to reach
//! it, where cells already carrying a unit are sources at distance 0 and
//! owned cells where a unit could be spawned next turn are sources at
//! distance 1. The labelling is defined layer by layer: `in_layer` says
//! exactly which cells are first reached at each distance, so a label is
//! provably the true minimum under the stated edge rules.

use vstd::prelude::*;

use core::cmp::Ordering;

use crate::board::{lemma_row_major_coords, lemma_row_major_index_in_range, Board};
use crate::owner::Owner;

verus! {

/// A distance label: a finite number of turns, or unreachable. Ordered by
/// value with `Unreachable` as the maximum.
#[derive(Copy, Clone, Debug, PartialEq, Eq, Structural)]
pub enum ManhattanDistance {
    Dist(u32),
    Unreachable,
}

impl ManhattanDistance {
    /// Every label mapped to an integer that orders labels: finite distances
    /// by value, `Unreachable` above them all.
    pub open spec fn spec_key(self) -> int {
        match self {
            ManhattanDistance::Dist(d) => d as int,
            ManhattanDistance::Unreachable => 0x1_0000_0000,
        }
    }

    pub fn is_unreachable(self) -> (r: bool)
        ensures
            r == (self is Unreachable),
    {
        match self {
            ManhattanDistance::Unreachable => true,
            _ => false,
        }
    }

    /// The finite distance inside a label; unreachable labels are excluded by
    /// the caller.
    pub fn distance_or_panic(self) -> (r: u32)
        requires
            self is Dist,
        ensures
            self == ManhattanDistance::Dist(r),
    {
        match self {
            ManhattanDistance::Dist(x) => x,
            ManhattanDistance::Unreachable => vstd::pervasive::unreached(),
        }
    }

    /// Three-way comparison matching the label order.
    pub fn cmp_label(self, other: Self) -> (r: Ordering)
        ensures
            (r == Ordering::Less) == (self.spec_key() < other.spec_key()),
            (r == Ordering::Equal) == (self.spec_key() == other.spec_key()),
            (r == Ordering::Greater) == (self.spec_key() > other.spec_key()),
    {
        match (self, other) {
            (ManhattanDistance::Dist(a), ManhattanDistance::Dist(b)) => {
                if a < b {
                    Ordering::Less
                } else if a == b {
                    Ordering::Equal
                } else {
                    Ordering::Greater
                }
            },
            (ManhattanDistance::Dist(_), ManhattanDistance::Unreachable) => Ordering::Less,
            (ManhattanDistance::Unreachable, ManhattanDistance::Dist(_)) => Ordering::Greater,
            (ManhattanDistance::Unreachable, ManhattanDistance::Unreachable) => Ordering::Equal,
        }
    }
}

/// `(nx, ny)` is one of the four orthogonal neighbours of `(x, y)`.
pub open spec fn is_adjacent(x: int, y: int, nx: int, ny: int) -> bool {
    ||| (nx == x && ny == y - 1)
    ||| (nx == x + 1 && ny == y)
    ||| (nx == x && ny == y + 1)
    ||| (nx == x - 1 && ny == y)
}

/// A class A source for `o`: an existing cell owned by `o` with a unit
/// already on it. Such a cell is reached in zero turns.
pub open spec fn class_a(b: Board, o: Owner, x: int, y: int) -> bool {
    &&& b.in_bounds(x, y)
    &&& b.cell(x, y).owner == o
    &&& b.cell(x, y).num_units > 0
}

/// A class B source for `o`: an existing cell owned by `o` with no unit and
/// no recycler, where a unit could be spawned next turn. Reached in one turn.
pub open spec fn class_b(b: Board, o: Owner, x: int, y: int) -> bool {
    &&& b.in_bounds(x, y)
    &&& b.cell(x, y).owner == o
    &&& b.cell(x, y).num_units == 0
    &&& !b.cell(x, y).has_recycler
}

/// A cell expansion can first step onto from a source: traversable and not
/// already owned by `o` (owned cells are sources themselves, or blocked).
pub open spec fn entry_cell(b: Board, o: Owner, x: int, y: int) -> bool {
    &&& b.in_bounds(x, y)
    &&& b.cell(x, y).spec_is_traversible()
    &&& b.cell(x, y).owner != o
}

/// An existing traversable cell; expansion beyond the first step only ever
/// enters such cells.
pub open spec fn open_cell(b: Board, x: int, y: int) -> bool {
    &&& b.in_bounds(x, y)
    &&& b.cell(x, y).spec_is_traversible()
}

/// A cell of layer 1 that is not itself a class B source: the entry cells a
/// class A source stepped onto. Expansion continues from these, not from the
/// class B sources themselves, whose neighbours are seeded separately.
pub open spec fn arrived_first(b: Board, o: Owner, x: int, y: int) -> bool
    decreases 1nat, 2nat,
{
    in_layer(b, o, x, y, 1) && !class_b(b, o, x, y)
}

/// The cells first reached at distance `d`, defined layer by layer.
///
/// - Layer 0 is exactly the class A sources.
/// - Layer 1 adds the class B sources and the entry cells adjacent to a
///   class A source.
/// - Layer 2 adds the entry cells adjacent to a class B source, and the
///   traversable cells adjacent to a non-source cell of layer 1 (class B
///   cells seed their neighbours through the entry rule only; expansion does
///   not pass through them).
/// - Each later layer adds the traversable cells adjacent to the previous
///   layer.
///
/// A cell is in at most one layer: each case excludes every earlier layer,
/// so membership in layer `d` says the cell is reachable in `d` turns and in
/// no fewer — the true minimum under these edge rules.
pub open spec fn in_layer(b: Board, o: Owner, x: int, y: int, d: nat) -> bool
    decreases d, 1nat, 0nat,
{
    if d == 0 {
        class_a(b, o, x, y)
    } else if d == 1 {
        &&& !class_a(b, o, x, y)
        &&& {
            ||| class_b(b, o, x, y)
            ||| (entry_cell(b, o, x, y) && exists|nx: int, ny: int|
                is_adjacent(x, y, nx, ny) && class_a(b, o, nx, ny))
        }
    } else if d == 2 {
        &&& !in_layer(b, o, x, y, 0)
        &&& !in_layer(b, o, x, y, 1)
        &&& {
            ||| (entry_cell(b, o, x, y) && exists|nx: int, ny: int|
                is_adjacent(x, y, nx, ny) && class_b(b, o, nx, ny))
            ||| (open_cell(b, x, y) && {
                ||| arrived_first(b, o, x, y - 1)
                ||| arrived_first(b, o, x + 1, y)
                ||| arrived_first(b, o, x, y + 1)
                ||| arrived_first(b, o, x - 1, y)
            })
        }
    } else {
        &&& !labeled_before(b, o, x, y, d)
        &&& open_cell(b, x, y)
        &&& {
            ||| in_layer(b, o, x, y - 1, (d - 1) as nat)
            ||| in_layer(b, o, x + 1, y, (d - 1) as nat)
            ||| in_layer(b, o, x, y + 1, (d - 1) as nat)
            ||| in_layer(b, o, x - 1, y, (d - 1) as nat)
        }
    }
}

/// The cell is in some layer below `d`.
pub open spec fn labeled_before(b: Board, o: Owner, x: int, y: int, d: nat) -> bool
    decreases d, 0nat, 0nat,
{
    if d == 0 {
        false
    } else {
        in_layer(b, o, x, y, (d - 1) as nat) || labeled_before(b, o, x, y, (d - 1) as nat)
    }
}

/// A cell in layer `m` is labelled before any later height `d`.
pub proof fn lemma_labeled_before_intro(b: Board, o: Owner, x: int, y: int, m: nat, d: nat)
    requires
        m < d,
        in_layer(b, o, x, y, m),
    ensures
        labeled_before(b, o, x, y, d),
    decreases d,
{
    if m + 1 < d {
        lemma_labeled_before_intro(b, o, x, y, m, (d - 1) as nat);
    }
}

/// Layers are pairwise disjoint: a cell in layer `m` is in no later layer.
pub proof fn lemma_layers_disjoint(b: Board, o: Owner, x: int, y: int, m: nat, d: nat)
    requires
        m < d,
        in_layer(b, o, x, y, m),
    ensures
        !in_layer(b, o, x, y, d),
{
    if d == 1 {
        assert(!class_a(b, o, x, y) ==> !in_layer(b, o, x, y, 0));
    } else if d == 2 {
    } else {
        lemma_labeled_before_intro(b, o, x, y, m, d);
    }
}

/// Once a layer at height two or more is empty, every later layer is empty
/// too: each new layer needs a neighbour in the one before it.
pub proof fn lemma_no_later_layers(b: Board, o: Owner, d: nat, dp: nat)
    requires
        d >= 2,
        d <= dp,
        forall|x: int, y: int| !in_layer(b, o, x, y, d),
    ensures
        forall|x: int, y: int| !in_layer(b, o, x, y, dp),
    decreases dp - d,
{
    if dp == d {
    } else {
        lemma_no_later_layers(b, o, d, (dp - 1) as nat);
        assert forall|x: int, y: int| !in_layer(b, o, x, y, dp) by {
            assert(!in_layer(b, o, x, y - 1, (dp - 1) as nat));
            assert(!in_layer(b, o, x + 1, y, (dp - 1) as nat));
            assert(!in_layer(b, o, x, y + 1, (dp - 1) as nat));
            assert(!in_layer(b, o, x - 1, y, (dp - 1) as nat));
        }
    }
}

/// No layer contains a cell that is off the board.
pub proof fn lemma_in_layer_out_of_bounds(b: Board, o: Owner, x: int, y: int, d: nat)
    requires
        !b.in_bounds(x, y),
    ensures
        !in_layer(b, o, x, y, d),
{
    if d == 0 {
    } else if d == 1 {
    } else if d == 2 {
        assert(!entry_cell(b, o, x, y) && !open_cell(b, x, y));
    } else {
        assert(!open_cell(b, x, y));
    }
}

/// A cell in no layer below `d` is not labelled before `d`.
pub proof fn lemma_not_labeled_before(b: Board, o: Owner, x: int, y: int, d: nat)
    requires
        forall|m: int| 0 <= m < d ==> !(#[trigger] in_layer(b, o, x, y, m as nat)),
    ensures
        !labeled_before(b, o, x, y, d),
    decreases d,
{
    if d > 0 {
        assert(!in_layer(b, o, x, y, (d - 1) as nat));
        lemma_not_labeled_before(b, o, x, y, (d - 1) as nat);
    }
}

/// A finished label array: every existing cell labelled `Dist(d)` is first
/// reached at distance exactly `d`, and every `Unreachable` cell is in no
/// layer at all.
pub open spec fn labels_correct(b: Board, o: Owner, dist: Seq<ManhattanDistance>) -> bool {
    &&& dist.len() == b.fields@.len()
    &&& forall|x: int, y: int|
        b.in_bounds(x, y) ==> match #[trigger] dist[b.idx(x, y)] {
            ManhattanDistance::Dist(d) => in_layer(b, o, x, y, d as nat),
            ManhattanDistance::Unreachable => forall|m: nat| !in_layer(b, o, x, y, m),
        }
}

/// Distance labelling is a function of the board and owner alone: any two
/// label arrays that are both correct for the same board and owner agree on
/// every cell, so rebuilding the field from the same snapshot reproduces it.
pub proof fn lemma_labels_unique(
    b: Board,
    o: Owner,
    d1: Seq<ManhattanDistance>,
    d2: Seq<ManhattanDistance>,
)
    requires
        b.wf(),
        labels_correct(b, o, d1),
        labels_correct(b, o, d2),
    ensures
        d1 =~= d2,
{
    assert forall|k: int| 0 <= k < d1.len() implies d1[k] == d2[k] by {
        lemma_row_major_coords(b.width as int, b.height as int, k);
        let x = k % (b.width as int);
        let y = k / (b.width as int);
        assert(b.in_bounds(x, y));
        assert(b.idx(x, y) == k);
        match (d1[k], d2[k]) {
            (ManhattanDistance::Dist(a), ManhattanDistance::Dist(c)) => {
                if a != c {
                    if (a as nat) < (c as nat) {
                        lemma_layers_disjoint(b, o, x, y, a as nat, c as nat);
                    } else {
                        lemma_layers_disjoint(b, o, x, y, c as nat, a as nat);
                    }
                }
            },
            (ManhattanDistance::Dist(a), ManhattanDistance::Unreachable) => {
                assert(in_layer(b, o, x, y, a as nat));
            },
            (ManhattanDistance::Unreachable, ManhattanDistance::Dist(c)) => {
                assert(in_layer(b, o, x, y, c as nat));
            },
            (ManhattanDistance::Unreachable, ManhattanDistance::Unreachable) => {},
        }
    }
}

/// A legal route for `o`, mirroring the edge rules of the expansion: it
/// starts on a source cell (class A or class B), steps first onto an entry
/// cell, and then walks traversable cells that are not themselves sources —
/// expansion never passes back through a source.
pub open spec fn path_ok(b: Board, o: Owner, p: Seq<(int, int)>) -> bool {
    &&& p.len() >= 1
    &&& (class_a(b, o, p[0].0, p[0].1) || class_b(b, o, p[0].0, p[0].1))
    &&& (p.len() >= 2 ==> is_adjacent(p[0].0, p[0].1, p[1].0, p[1].1) && entry_cell(
        b,
        o,
        p[1].0,
        p[1].1,
    ))
    &&& forall|i: int|
        2 <= i < p.len() ==> {
            &&& is_adjacent(p[i - 1].0, p[i - 1].1, (#[trigger] p[i]).0, p[i].1)
            &&& open_cell(b, p[i].0, p[i].1)
            &&& !class_a(b, o, p[i].0, p[i].1)
            &&& !class_b(b, o, p[i].0, p[i].1)
        }
}

/// The turns a route takes: one per hop, plus one up front when the start
/// is a class B source (spawning there costs the extra turn).
pub open spec fn path_cost(b: Board, o: Owner, p: Seq<(int, int)>) -> int {
    (if class_a(b, o, p[0].0, p[0].1) {
        0int
    } else {
        1int
    }) + p.len() - 1
}

/// Every cell of layer `d` is reached by some route of cost exactly `d`.
pub proof fn lemma_layer_has_path(b: Board, o: Owner, x: int, y: int, d: nat)
    requires
        in_layer(b, o, x, y, d),
    ensures
        exists|p: Seq<(int, int)>|
            #[trigger] path_ok(b, o, p) && p.last() == (x, y) && path_cost(b, o, p) == d,
    decreases d,
{
    if d == 0 {
        let p = seq![(x, y)];
        assert(path_ok(b, o, p) && p.last() == (x, y) && path_cost(b, o, p) == d);
    } else if d == 1 {
        if class_b(b, o, x, y) {
            let p = seq![(x, y)];
            assert(path_ok(b, o, p) && p.last() == (x, y) && path_cost(b, o, p) == d);
        } else {
            let (nx, ny) = choose|nx: int, ny: int|
                is_adjacent(x, y, nx, ny) && class_a(b, o, nx, ny);
            let p = seq![(nx, ny), (x, y)];
            assert(path_ok(b, o, p) && p.last() == (x, y) && path_cost(b, o, p) == d);
        }
    } else if d == 2 {
        if entry_cell(b, o, x, y) && (exists|nx: int, ny: int|
            is_adjacent(x, y, nx, ny) && class_b(b, o, nx, ny)) {
            let (nx, ny) = choose|nx: int, ny: int|
                is_adjacent(x, y, nx, ny) && class_b(b, o, nx, ny);
            let p = seq![(nx, ny), (x, y)];
            assert(path_ok(b, o, p) && p.last() == (x, y) && path_cost(b, o, p) == d);
        } else {
            let (ux, uy): (int, int) = if arrived_first(b, o, x, y - 1) {
                (x, y - 1)
            } else if arrived_first(b, o, x + 1, y) {
                (x + 1, y)
            } else if arrived_first(b, o, x, y + 1) {
                (x, y + 1)
            } else {
                (x - 1, y)
            };
            assert(arrived_first(b, o, ux, uy));
            assert(in_layer(b, o, ux, uy, 1) && !class_b(b, o, ux, uy));
            let (ax, ay) = choose|ax: int, ay: int|
                is_adjacent(ux, uy, ax, ay) && class_a(b, o, ax, ay);
            let p = seq![(ax, ay), (ux, uy), (x, y)];
            assert(!class_a(b, o, x, y)) by {
                assert(!in_layer(b, o, x, y, 0));
            }
            assert(!class_b(b, o, x, y)) by {
                if class_b(b, o, x, y) {
                    assert(in_layer(b, o, x, y, 1));
                }
            }
            assert(path_ok(b, o, p) && p.last() == (x, y) && path_cost(b, o, p) == d);
        }
    } else {
        let (ux, uy): (int, int) = if in_layer(b, o, x, y - 1, (d - 1) as nat) {
            (x, y - 1)
        } else if in_layer(b, o, x + 1, y, (d - 1) as nat) {
            (x + 1, y)
        } else if in_layer(b, o, x, y + 1, (d - 1) as nat) {
            (x, y + 1)
        } else {
            (x - 1, y)
        };
        assert(in_layer(b, o, ux, uy, (d - 1) as nat));
        lemma_layer_has_path(b, o, ux, uy, (d - 1) as nat);
        let q = choose|q: Seq<(int, int)>|
            #[trigger] path_ok(b, o, q) && q.last() == (ux, uy) && path_cost(b, o, q) == d - 1;
        let p = q.push((x, y));
        assert(q.len() >= 2);
        assert(!class_a(b, o, x, y)) by {
            if class_a(b, o, x, y) {
                lemma_labeled_before_intro(b, o, x, y, 0, d);
            }
        }
        assert(!class_b(b, o, x, y)) by {
            if class_b(b, o, x, y) {
                assert(in_layer(b, o, x, y, 1));
                lemma_labeled_before_intro(b, o, x, y, 1, d);
            }
        }
        assert(path_ok(b, o, p)) by {
            assert(p[0] == q[0]);
            assert(p[1] == q[1]);
            assert forall|i: int| 2 <= i < p.len() implies {
                &&& is_adjacent(p[i - 1].0, p[i - 1].1, (#[trigger] p[i]).0, p[i].1)
                &&& open_cell(b, p[i].0, p[i].1)
                &&& !class_a(b, o, p[i].0, p[i].1)
                &&& !class_b(b, o, p[i].0, p[i].1)
            } by {
                if i < q.len() {
                    assert(p[i] == q[i]);
                    assert(p[i - 1] == q[i - 1]);
                } else {
                    assert(p[i] == (x, y));
                    assert(p[i - 1] == q.last());
                }
            }
        }
        assert(p.last() == (x, y) && path_cost(b, o, p) == d);
    }
}

/// Every route of cost `c` reaches a cell of some layer at most `c`: no
/// route beats the labelling.
pub proof fn lemma_path_bounds_layer(b: Board, o: Owner, p: Seq<(int, int)>)
    requires
        path_ok(b, o, p),
    ensures
        exists|m: nat|
            m <= path_cost(b, o, p) && #[trigger] in_layer(b, o, p.last().0, p.last().1, m),
    decreases p.len(),
{
    let vx = p.last().0;
    let vy = p.last().1;
    if p.len() == 1 {
        if class_a(b, o, vx, vy) {
            assert(in_layer(b, o, vx, vy, 0));
            assert(0 <= path_cost(b, o, p) && in_layer(b, o, vx, vy, 0));
        } else {
            assert(in_layer(b, o, vx, vy, 1));
            assert(1 <= path_cost(b, o, p) && in_layer(b, o, vx, vy, 1));
        }
    } else if p.len() == 2 {
        let ux = p[0].0;
        let uy = p[0].1;
        assert(is_adjacent(vx, vy, ux, uy));
        if class_a(b, o, ux, uy) {
            assert(in_layer(b, o, vx, vy, 1));
            assert(1 <= path_cost(b, o, p) && in_layer(b, o, vx, vy, 1));
        } else {
            if in_layer(b, o, vx, vy, 1) {
                assert((1 as nat) <= path_cost(b, o, p) && in_layer(b, o, vx, vy, 1));
            } else {
                assert(class_b(b, o, ux, uy));
                assert(entry_cell(b, o, vx, vy));
                assert(!class_a(b, o, vx, vy));
                assert(!in_layer(b, o, vx, vy, 0));
                assert(in_layer(b, o, vx, vy, 2));
                assert((2 as nat) <= path_cost(b, o, p) && in_layer(b, o, vx, vy, 2));
            }
        }
    } else {
        let q = p.drop_last();
        assert(path_ok(b, o, q)) by {
            assert(q[0] == p[0]);
            assert(q[1] == p[1]);
            assert forall|i: int| 2 <= i < q.len() implies {
                &&& is_adjacent(q[i - 1].0, q[i - 1].1, (#[trigger] q[i]).0, q[i].1)
                &&& open_cell(b, q[i].0, q[i].1)
                &&& !class_a(b, o, q[i].0, q[i].1)
                &&& !class_b(b, o, q[i].0, q[i].1)
            } by {
                assert(q[i] == p[i]);
                assert(q[i - 1] == p[i - 1]);
            }
        }
        lemma_path_bounds_layer(b, o, q);
        let ux = q.last().0;
        let uy = q.last().1;
        let m = choose|m: nat| m <= path_cost(b, o, q) && #[trigger] in_layer(b, o, ux, uy, m);
        assert(is_adjacent(ux, uy, vx, vy)) by {
            assert(p[p.len() - 2] == q.last());
            assert(is_adjacent(p[p.len() - 2].0, p[p.len() - 2].1, p[p.len() - 1].0, p[
                p.len() - 1].1));
        }
        assert(open_cell(b, vx, vy) && !class_a(b, o, vx, vy) && !class_b(b, o, vx, vy));
        assert(m >= 1) by {
            if m == 0 {
                assert(class_a(b, o, ux, uy));
                if q.len() == 2 {
                    assert(entry_cell(b, o, ux, uy));
                } else {
                    assert(!class_a(b, o, q[q.len() - 1].0, q[q.len() - 1].1));
                }
            }
        }
        if exists|mm: nat| mm <= m && #[trigger] in_layer(b, o, vx, vy, mm) {
            let mm = choose|mm: nat| mm <= m && #[trigger] in_layer(b, o, vx, vy, mm);
            assert(mm <= path_cost(b, o, p) && in_layer(b, o, vx, vy, mm));
        } else {
            assert forall|mm: nat| mm <= m implies !(#[trigger] in_layer(b, o, vx, vy, mm)) by {
                if in_layer(b, o, vx, vy, mm) {
                    assert(mm <= m && in_layer(b, o, vx, vy, mm));
                }
            }
            if m == 1 {
                assert(arrived_first(b, o, ux, uy)) by {
                    if q.len() == 2 {
                        assert(entry_cell(b, o, ux, uy));
                        assert(!class_b(b, o, ux, uy));
                    } else {
                        assert(!class_b(b, o, q[q.len() - 1].0, q[q.len() - 1].1));
                    }
                }
                assert(!in_layer(b, o, vx, vy, 0));
                assert(!in_layer(b, o, vx, vy, 1));
                assert(in_layer(b, o, vx, vy, 2));
                assert((2 as nat) <= path_cost(b, o, p) && in_layer(b, o, vx, vy, 2));
            } else {
                assert forall|mm: int| 0 <= mm < m + 1 implies !(#[trigger] in_layer(
                    b,
                    o,
                    vx,
                    vy,
                    mm as nat,
                )) by {
                    assert(!in_layer(b, o, vx, vy, ((mm as nat))));
                }
                lemma_not_labeled_before(b, o, vx, vy, (m + 1) as nat);
                assert(in_layer(b, o, vx, vy, (m + 1) as nat));
                assert(((m + 1) as nat) <= path_cost(b, o, p) && in_layer(
                    b,
                    o,
                    vx,
                    vy,
                    (m + 1) as nat,
                ));
            }
        }
    }
}

/// The distance field is exact: a finite label is the cost of a cheapest
/// route to the cell under the stated edge rules — some route achieves it
/// and none beats it — and an unreachable label means no route ends there.
pub proof fn lemma_labels_are_shortest_routes(
    b: Board,
    o: Owner,
    dist: Seq<ManhattanDistance>,
    x: int,
    y: int,
)
    requires
        b.wf(),
        labels_correct(b, o, dist),
        b.in_bounds(x, y),
    ensures
        match dist[b.idx(x, y)] {
            ManhattanDistance::Dist(d) => {
                &&& exists|p: Seq<(int, int)>|
                    #[trigger] path_ok(b, o, p) && p.last() == (x, y) && path_cost(b, o, p) == d
                &&& forall|p: Seq<(int, int)>|
                    #[trigger] path_ok(b, o, p) && p.last() == (x, y) ==> path_cost(b, o, p) >= d
            },
            ManhattanDistance::Unreachable => forall|p: Seq<(int, int)>|
                #[trigger] path_ok(b, o, p) ==> p.last() != (x, y),
        },
{
    match dist[b.idx(x, y)] {
        ManhattanDistance::Dist(d) => {
            assert(in_layer(b, o, x, y, d as nat));
            lemma_layer_has_path(b, o, x, y, d as nat);
            assert forall|p: Seq<(int, int)>|
                #[trigger] path_ok(b, o, p) && p.last() == (x, y) implies path_cost(b, o, p)
                >= d by {
                lemma_path_bounds_layer(b, o, p);
                let m = choose|m: nat|
                    m <= path_cost(b, o, p) && #[trigger] in_layer(b, o, x, y, m);
                if m < d as nat {
                    lemma_layers_disjoint(b, o, x, y, m, d as nat);
                }
            }
        },
        ManhattanDistance::Unreachable => {
            assert forall|p: Seq<(int, int)>| #[trigger] path_ok(b, o, p) implies p.last() != (
            x,
            y,
            ) by {
                if p.last() == (x, y) {
                    lemma_path_bounds_layer(b, o, p);
                }
            }
        },
    }
}

/// One cell's label agrees with the layers up to height `dmax`: a finite
/// label is a layer membership no higher than `dmax`, and an unlabelled cell
/// is in no layer up to `dmax`.
pub open spec fn cell_ok_through(
    b: Board,
    o: Owner,
    dist: Seq<ManhattanDistance>,
    x: int,
    y: int,
    dmax: int,
) -> bool {
    match dist[b.idx(x, y)] {
        ManhattanDistance::Dist(dd) => dd <= dmax && in_layer(b, o, x, y, dd as nat),
        ManhattanDistance::Unreachable => !labeled_before(b, o, x, y, (dmax + 1) as nat),
    }
}

/// The whole label array agrees with the layers up to height `dmax`.
pub open spec fn labels_through(
    b: Board,
    o: Owner,
    dist: Seq<ManhattanDistance>,
    dmax: int,
) -> bool {
    &&& dist.len() == b.fields@.len()
    &&& forall|x: int, y: int|
        b.in_bounds(x, y) ==> #[trigger] cell_ok_through(b, o, dist, x, y, dmax)
}

/// One cell whose label agrees with the layers through `dmax` carries the
/// label `Dist(m)` exactly when it is in layer `m`, for any `m` up to `dmax`.
pub proof fn lemma_flag_from_cell_ok(
    b: Board,
    o: Owner,
    dist: Seq<ManhattanDistance>,
    x: int,
    y: int,
    m: u32,
    dmax: int,
)
    requires
        b.in_bounds(x, y),
        cell_ok_through(b, o, dist, x, y, dmax),
        m <= dmax,
    ensures
        (dist[b.idx(x, y)] == ManhattanDistance::Dist(m)) <==> in_layer(b, o, x, y, m as nat),
{
    match dist[b.idx(x, y)] {
        ManhattanDistance::Dist(dd) => {
            if dd != m && in_layer(b, o, x, y, m as nat) {
                if (m as nat) < (dd as nat) {
                    lemma_layers_disjoint(b, o, x, y, m as nat, dd as nat);
                } else {
                    lemma_layers_disjoint(b, o, x, y, dd as nat, m as nat);
                }
            }
        },
        ManhattanDistance::Unreachable => {
            if in_layer(b, o, x, y, m as nat) {
                lemma_labeled_before_intro(b, o, x, y, m as nat, (dmax + 1) as nat);
            }
        },
    }
}

/// How many entries of a label array are finite.
pub open spec fn count_labeled(s: Seq<ManhattanDistance>) -> int
    decreases s.len(),
{
    if s.len() == 0 {
        0
    } else {
        count_labeled(s.drop_last()) + if s.last() is Dist {
            1int
        } else {
            0int
        }
    }
}

/// The count of finite labels never exceeds the array length.
pub proof fn lemma_count_labeled_le_len(s: Seq<ManhattanDistance>)
    ensures
        0 <= count_labeled(s) <= s.len(),
    decreases s.len(),
{
    if s.len() > 0 {
        lemma_count_labeled_le_len(s.drop_last());
    }
}

/// Labelling one unlabelled entry raises the count by exactly one.
pub proof fn lemma_count_labeled_update(s: Seq<ManhattanDistance>, i: int, v: ManhattanDistance)
    requires
        0 <= i < s.len(),
        s[i] is Unreachable,
        v is Dist,
    ensures
        count_labeled(s.update(i, v)) == count_labeled(s) + 1,
    decreases s.len(),
{
    let t = s.update(i, v);
    if i == s.len() - 1 {
        assert(t.drop_last() =~= s.drop_last());
    } else {
        assert(t.drop_last() =~= s.drop_last().update(i, v));
        lemma_count_labeled_update(s.drop_last(), i, v);
    }
}

/// Whether the cell at `(x, y)` is a class A source; false off the board.
fn class_a_at(b: &Board, o: Owner, x: u32, y: u32) -> (r: bool)
    requires
        b.wf(),
    ensures
        r == class_a(*b, o, x as int, y as int),
{
    match b.get_field(x, y) {
        Some(f) => f.owner == o && f.num_units > 0,
        None => false,
    }
}

/// Whether the cell at `(x, y)` is a class B source; false off the board.
fn class_b_at(b: &Board, o: Owner, x: u32, y: u32) -> (r: bool)
    requires
        b.wf(),
    ensures
        r == class_b(*b, o, x as int, y as int),
{
    match b.get_field(x, y) {
        Some(f) => f.owner == o && f.num_units == 0 && !f.has_recycler,
        None => false,
    }
}

/// Whether the cell at `(x, y)` is an entry cell; false off the board.
fn entry_cell_at(b: &Board, o: Owner, x: u32, y: u32) -> (r: bool)
    requires
        b.wf(),
    ensures
        r == entry_cell(*b, o, x as int, y as int),
{
    match b.get_field(x, y) {
        Some(f) => f.is_traversible() && f.owner != o,
        None => false,
    }
}

/// Whether the cell at `(x, y)` exists and is traversable.
fn open_at(b: &Board, x: u32, y: u32) -> (r: bool)
    requires
        b.wf(),
    ensures
        r == open_cell(*b, x as int, y as int),
{
    match b.get_field(x, y) {
        Some(f) => f.is_traversible(),
        None => false,
    }
}

/// Whether some orthogonal neighbour of `(x, y)` is a class A source.
fn has_adj_class_a(b: &Board, o: Owner, x: u32, y: u32) -> (r: bool)
    requires
        b.wf(),
        b.in_bounds(x as int, y as int),
    ensures
        r == exists|nx: int, ny: int|
            is_adjacent(x as int, y as int, nx, ny) && class_a(*b, o, nx, ny),
{
    let north = if y >= 1 {
        class_a_at(b, o, x, y - 1)
    } else {
        false
    };
    let east = class_a_at(b, o, x + 1, y);
    let south = class_a_at(b, o, x, y + 1);
    let west = if x >= 1 {
        class_a_at(b, o, x - 1, y)
    } else {
        false
    };
    let r = north || east || south || west;
    proof {
        let xi = x as int;
        let yi = y as int;
        if north {
            assert(is_adjacent(xi, yi, xi, yi - 1) && class_a(*b, o, xi, yi - 1));
        } else if east {
            assert(is_adjacent(xi, yi, xi + 1, yi) && class_a(*b, o, xi + 1, yi));
        } else if south {
            assert(is_adjacent(xi, yi, xi, yi + 1) && class_a(*b, o, xi, yi + 1));
        } else if west {
            assert(is_adjacent(xi, yi, xi - 1, yi) && class_a(*b, o, xi - 1, yi));
        } else {
            assert forall|nx: int, ny: int| is_adjacent(xi, yi, nx, ny) implies !class_a(
                *b,
                o,
                nx,
                ny,
            ) by {}
        }
    }
    r
}

/// Whether some orthogonal neighbour of `(x, y)` is a class B source.
fn has_adj_class_b(b: &Board, o: Owner, x: u32, y: u32) -> (r: bool)
    requires
        b.wf(),
        b.in_bounds(x as int, y as int),
    ensures
        r == exists|nx: int, ny: int|
            is_adjacent(x as int, y as int, nx, ny) && class_b(*b, o, nx, ny),
{
    let north = if y >= 1 {
        class_b_at(b, o, x, y - 1)
    } else {
        false
    };
    let east = class_b_at(b, o, x + 1, y);
    let south = class_b_at(b, o, x, y + 1);
    let west = if x >= 1 {
        class_b_at(b, o, x - 1, y)
    } else {
        false
    };
    let r = north || east || south || west;
    proof {
        let xi = x as int;
        let yi = y as int;
        if north {
            assert(is_adjacent(xi, yi, xi, yi - 1) && class_b(*b, o, xi, yi - 1));
        } else if east {
            assert(is_adjacent(xi, yi, xi + 1, yi) && class_b(*b, o, xi + 1, yi));
        } else if south {
            assert(is_adjacent(xi, yi, xi, yi + 1) && class_b(*b, o, xi, yi + 1));
        } else if west {
            assert(is_adjacent(xi, yi, xi - 1, yi) && class_b(*b, o, xi - 1, yi));
        } else {
            assert forall|nx: int, ny: int| is_adjacent(xi, yi, nx, ny) implies !class_b(
                *b,
                o,
                nx,
                ny,
            ) by {}
        }
    }
    r
}

/// The stored label of the cell at `(x, y)`.
fn label_at(b: &Board, dist: &Vec<ManhattanDistance>, x: u32, y: u32) -> (r: ManhattanDistance)
    requires
        b.wf(),
        b.in_bounds(x as int, y as int),
        dist@.len() == b.fields@.len(),
    ensures
        r == dist@[b.idx(x as int, y as int)],
{
    proof {
        lemma_row_major_index_in_range(b.width as int, b.height as int, x as int, y as int);
    }
    dist[(x + y * b.width) as usize]
}

/// Label every class A source with distance 0.
fn seed_class_a(b: &Board, o: Owner, dist: &mut Vec<ManhattanDistance>)
    requires
        b.wf(),
        old(dist)@.len() == b.fields@.len(),
        forall|j: int| 0 <= j < old(dist)@.len() ==> old(dist)@[j] is Unreachable,
    ensures
        labels_through(*b, o, final(dist)@, 0),
{
    let n = dist.len();
    let mut k: usize = 0;
    while k < n
        invariant
            b.wf(),
            dist@.len() == n,
            n == b.fields@.len(),
            k <= n,
            forall|x: int, y: int|
                b.in_bounds(x, y) && b.idx(x, y) < k ==> #[trigger] cell_ok_through(
                    *b,
                    o,
                    dist@,
                    x,
                    y,
                    0,
                ),
            forall|j: int| k <= j < n ==> dist@[j] is Unreachable,
        decreases n - k,
    {
        let ghost pre = dist@;
        proof {
            lemma_row_major_coords(b.width as int, b.height as int, k as int);
        }
        let f = b.fields[k];
        if class_a_at(b, o, f.x, f.y) {
            dist[k] = ManhattanDistance::Dist(0);
        }
        proof {
            assert forall|x: int, y: int| b.in_bounds(x, y) && b.idx(x, y) < k + 1 implies #[trigger] cell_ok_through(
                *b,
                o,
                dist@,
                x,
                y,
                0,
            ) by {
                lemma_row_major_index_in_range(b.width as int, b.height as int, x, y);
                if b.idx(x, y) < k {
                    assert(cell_ok_through(*b, o, pre, x, y, 0));
                    assert(dist@[b.idx(x, y)] == pre[b.idx(x, y)]);
                } else {
                    assert(b.idx(x, y) == k);
                    assert(x == f.x && y == f.y);
                    if dist@[k as int] is Unreachable {
                        assert(!class_a(*b, o, x, y));
                        assert(!in_layer(*b, o, x, y, 0));
                        assert(!labeled_before(*b, o, x, y, 0));
                        assert(!labeled_before(*b, o, x, y, 1));
                    } else {
                        assert(dist@[k as int] == ManhattanDistance::Dist(0));
                        assert(class_a(*b, o, x, y));
                        assert(in_layer(*b, o, x, y, 0));
                    }
                }
            }
        }
        k += 1;
    }
    proof {
        assert forall|x: int, y: int| b.in_bounds(x, y) implies #[trigger] cell_ok_through(
            *b,
            o,
            dist@,
            x,
            y,
            0,
        ) by {
            lemma_row_major_index_in_range(b.width as int, b.height as int, x, y);
        }
    }
}

/// Label the class B sources and the entry cells next to class A sources with
/// distance 1.
fn seed_pass_1(b: &Board, o: Owner, dist: &mut Vec<ManhattanDistance>)
    requires
        b.wf(),
        labels_through(*b, o, old(dist)@, 0),
    ensures
        labels_through(*b, o, final(dist)@, 1),
{
    let n = dist.len();
    let mut k: usize = 0;
    while k < n
        invariant
            b.wf(),
            dist@.len() == n,
            n == b.fields@.len(),
            k <= n,
            forall|x: int, y: int|
                b.in_bounds(x, y) && b.idx(x, y) < k ==> #[trigger] cell_ok_through(
                    *b,
                    o,
                    dist@,
                    x,
                    y,
                    1,
                ),
            forall|x: int, y: int|
                b.in_bounds(x, y) && b.idx(x, y) >= k ==> #[trigger] cell_ok_through(
                    *b,
                    o,
                    dist@,
                    x,
                    y,
                    0,
                ),
        decreases n - k,
    {
        let ghost pre = dist@;
        proof {
            lemma_row_major_coords(b.width as int, b.height as int, k as int);
        }
        let f = b.fields[k];
        let cur = dist[k];
        if cur.is_unreachable() {
            if class_b_at(b, o, f.x, f.y) || (entry_cell_at(b, o, f.x, f.y) && has_adj_class_a(
                b,
                o,
                f.x,
                f.y,
            )) {
                dist[k] = ManhattanDistance::Dist(1);
            }
        }
        proof {
            assert(cell_ok_through(*b, o, pre, f.x as int, f.y as int, 0));
            assert forall|x: int, y: int| b.in_bounds(x, y) && b.idx(x, y) < k + 1 implies #[trigger] cell_ok_through(
                *b,
                o,
                dist@,
                x,
                y,
                1,
            ) by {
                lemma_row_major_index_in_range(b.width as int, b.height as int, x, y);
                if b.idx(x, y) < k {
                    assert(cell_ok_through(*b, o, pre, x, y, 1));
                    assert(dist@[b.idx(x, y)] == pre[b.idx(x, y)]);
                } else {
                    assert(b.idx(x, y) == k);
                    assert(x == f.x && y == f.y);
                    assert(cell_ok_through(*b, o, pre, x, y, 0));
                    if pre[k as int] is Unreachable {
                        assert(!labeled_before(*b, o, x, y, 1));
                        assert(!in_layer(*b, o, x, y, 0));
                        assert(!class_a(*b, o, x, y));
                        if dist@[k as int] is Unreachable {
                            assert(!in_layer(*b, o, x, y, 1));
                            assert(!labeled_before(*b, o, x, y, 2));
                        } else {
                            assert(dist@[k as int] == ManhattanDistance::Dist(1));
                            assert(in_layer(*b, o, x, y, 1));
                        }
                    } else {
                        assert(dist@[k as int] == pre[k as int]);
                    }
                }
            }
            assert forall|x: int, y: int| b.in_bounds(x, y) && b.idx(x, y) >= k + 1 implies #[trigger] cell_ok_through(
                *b,
                o,
                dist@,
                x,
                y,
                0,
            ) by {
                lemma_row_major_index_in_range(b.width as int, b.height as int, x, y);
                assert(cell_ok_through(*b, o, pre, x, y, 0));
            }
        }
        k += 1;
    }
    proof {
        assert forall|x: int, y: int| b.in_bounds(x, y) implies #[trigger] cell_ok_through(
            *b,
            o,
            dist@,
            x,
            y,
            1,
        ) by {
            lemma_row_major_index_in_range(b.width as int, b.height as int, x, y);
        }
    }
}

/// Whether some orthogonal neighbour of `(x, y)` is a non-source cell of
/// layer 1, read off the labels.
fn has_adj_arrived1(
    b: &Board,
    o: Owner,
    dist: &Vec<ManhattanDistance>,
    x: u32,
    y: u32,
) -> (r: bool)
    requires
        b.wf(),
        b.in_bounds(x as int, y as int),
        dist@.len() == b.fields@.len(),
        forall|px: int, py: int|
            b.in_bounds(px, py) ==> ((#[trigger] dist@[b.idx(px, py)] == ManhattanDistance::Dist(1))
                <==> in_layer(*b, o, px, py, 1)),
    ensures
        r == {
            ||| arrived_first(*b, o, x as int, y as int - 1)
            ||| arrived_first(*b, o, x as int + 1, y as int)
            ||| arrived_first(*b, o, x as int, y as int + 1)
            ||| arrived_first(*b, o, x as int - 1, y as int)
        },
{
    let north = y >= 1 && label_at(b, dist, x, y - 1) == ManhattanDistance::Dist(1) && !class_b_at(
        b,
        o,
        x,
        y - 1,
    );
    let east = x + 1 < b.width && label_at(b, dist, x + 1, y) == ManhattanDistance::Dist(1)
        && !class_b_at(b, o, x + 1, y);
    let south = y + 1 < b.height && label_at(b, dist, x, y + 1) == ManhattanDistance::Dist(1)
        && !class_b_at(b, o, x, y + 1);
    let west = x >= 1 && label_at(b, dist, x - 1, y) == ManhattanDistance::Dist(1) && !class_b_at(
        b,
        o,
        x - 1,
        y,
    );
    proof {
        let xi = x as int;
        let yi = y as int;
        if !(yi - 1 >= 0) {
            lemma_in_layer_out_of_bounds(*b, o, xi, yi - 1, 1);
        }
        if !(xi + 1 < b.width) {
            lemma_in_layer_out_of_bounds(*b, o, xi + 1, yi, 1);
        }
        if !(yi + 1 < b.height) {
            lemma_in_layer_out_of_bounds(*b, o, xi, yi + 1, 1);
        }
        if !(xi - 1 >= 0) {
            lemma_in_layer_out_of_bounds(*b, o, xi - 1, yi, 1);
        }
    }
    north || east || south || west
}

/// Label layer 2 with distance 2: entry cells next to class B sources, and
/// traversable cells next to the non-source part of layer 1.
fn seed_pass_2(b: &Board, o: Owner, dist: &mut Vec<ManhattanDistance>)
    requires
        b.wf(),
        labels_through(*b, o, old(dist)@, 1),
    ensures
        labels_through(*b, o, final(dist)@, 2),
{
    let n = dist.len();
    let mut k: usize = 0;
    while k < n
        invariant
            b.wf(),
            dist@.len() == n,
            n == b.fields@.len(),
            k <= n,
            forall|x: int, y: int|
                b.in_bounds(x, y) && b.idx(x, y) < k ==> #[trigger] cell_ok_through(
                    *b,
                    o,
                    dist@,
                    x,
                    y,
                    2,
                ),
            forall|x: int, y: int|
                b.in_bounds(x, y) && b.idx(x, y) >= k ==> #[trigger] cell_ok_through(
                    *b,
                    o,
                    dist@,
                    x,
                    y,
                    1,
                ),
        decreases n - k,
    {
        let ghost pre = dist@;
        proof {
            lemma_row_major_coords(b.width as int, b.height as int, k as int);
            assert forall|px: int, py: int| b.in_bounds(px, py) implies ((#[trigger] dist@[b.idx(
                px,
                py,
            )] == ManhattanDistance::Dist(1)) <==> in_layer(*b, o, px, py, 1)) by {
                lemma_row_major_index_in_range(b.width as int, b.height as int, px, py);
                if b.idx(px, py) < k {
                    lemma_flag_from_cell_ok(*b, o, dist@, px, py, 1, 2);
                } else {
                    lemma_flag_from_cell_ok(*b, o, dist@, px, py, 1, 1);
                }
            }
        }
        let f = b.fields[k];
        let cur = dist[k];
        if cur.is_unreachable() {
            if (entry_cell_at(b, o, f.x, f.y) && has_adj_class_b(b, o, f.x, f.y)) || (open_at(b, f.x, f.y)
                && has_adj_arrived1(b, o, dist, f.x, f.y)) {
                dist[k] = ManhattanDistance::Dist(2);
            }
        }
        proof {
            assert(cell_ok_through(*b, o, pre, f.x as int, f.y as int, 1));
            assert forall|x: int, y: int| b.in_bounds(x, y) && b.idx(x, y) < k + 1 implies #[trigger] cell_ok_through(
                *b,
                o,
                dist@,
                x,
                y,
                2,
            ) by {
                lemma_row_major_index_in_range(b.width as int, b.height as int, x, y);
                if b.idx(x, y) < k {
                    assert(cell_ok_through(*b, o, pre, x, y, 2));
                    assert(dist@[b.idx(x, y)] == pre[b.idx(x, y)]);
                } else {
                    assert(b.idx(x, y) == k);
                    assert(x == f.x && y == f.y);
                    assert(cell_ok_through(*b, o, pre, x, y, 1));
                    if pre[k as int] is Unreachable {
                        assert(!labeled_before(*b, o, x, y, 2));
                        assert(!in_layer(*b, o, x, y, 1));
                        assert(!labeled_before(*b, o, x, y, 1));
                        assert(!in_layer(*b, o, x, y, 0));
                        if dist@[k as int] is Unreachable {
                            assert(!in_layer(*b, o, x, y, 2));
                            assert(!labeled_before(*b, o, x, y, 3));
                        } else {
                            assert(dist@[k as int] == ManhattanDistance::Dist(2));
                            assert(in_layer(*b, o, x, y, 2));
                        }
                    } else {
                        assert(dist@[k as int] == pre[k as int]);
                    }
                }
            }
            assert forall|x: int, y: int| b.in_bounds(x, y) && b.idx(x, y) >= k + 1 implies #[trigger] cell_ok_through(
                *b,
                o,
                dist@,
                x,
                y,
                1,
            ) by {
                lemma_row_major_index_in_range(b.width as int, b.height as int, x, y);
                assert(cell_ok_through(*b, o, pre, x, y, 1));
            }
        }
        k += 1;
    }
    proof {
        assert forall|x: int, y: int| b.in_bounds(x, y) implies #[trigger] cell_ok_through(
            *b,
            o,
            dist@,
            x,
            y,
            2,
        ) by {
            lemma_row_major_index_in_range(b.width as int, b.height as int, x, y);
        }
    }
}

/// Whether some orthogonal neighbour of `(x, y)` is in layer `dm1`, read off
/// the labels.
fn has_adj_layer(
    b: &Board,
    o: Owner,
    dist: &Vec<ManhattanDistance>,
    x: u32,
    y: u32,
    dm1: u32,
) -> (r: bool)
    requires
        b.wf(),
        b.in_bounds(x as int, y as int),
        dist@.len() == b.fields@.len(),
        forall|px: int, py: int|
            b.in_bounds(px, py) ==> ((#[trigger] dist@[b.idx(px, py)] == ManhattanDistance::Dist(
                dm1,
            )) <==> in_layer(*b, o, px, py, dm1 as nat)),
    ensures
        r == {
            ||| in_layer(*b, o, x as int, y as int - 1, dm1 as nat)
            ||| in_layer(*b, o, x as int + 1, y as int, dm1 as nat)
            ||| in_layer(*b, o, x as int, y as int + 1, dm1 as nat)
            ||| in_layer(*b, o, x as int - 1, y as int, dm1 as nat)
        },
{
    let north = y >= 1 && label_at(b, dist, x, y - 1) == ManhattanDistance::Dist(dm1);
    let east = x + 1 < b.width && label_at(b, dist, x + 1, y) == ManhattanDistance::Dist(dm1);
    let south = y + 1 < b.height && label_at(b, dist, x, y + 1) == ManhattanDistance::Dist(dm1);
    let west = x >= 1 && label_at(b, dist, x - 1, y) == ManhattanDistance::Dist(dm1);
    proof {
        let xi = x as int;
        let yi = y as int;
        if !(yi - 1 >= 0) {
            lemma_in_layer_out_of_bounds(*b, o, xi, yi - 1, dm1 as nat);
        }
        if !(xi + 1 < b.width) {
            lemma_in_layer_out_of_bounds(*b, o, xi + 1, yi, dm1 as nat);
        }
        if !(yi + 1 < b.height) {
            lemma_in_layer_out_of_bounds(*b, o, xi, yi + 1, dm1 as nat);
        }
        if !(xi - 1 >= 0) {
            lemma_in_layer_out_of_bounds(*b, o, xi - 1, yi, dm1 as nat);
        }
    }
    north || east || south || west
}

/// One expansion round: label with `d` every unlabelled traversable cell that
/// touches layer `d - 1`. Returns whether anything was labelled; when nothing
/// was, layer `d` is empty.
fn expansion_pass(b: &Board, o: Owner, dist: &mut Vec<ManhattanDistance>, d: u32) -> (wrote: bool)
    requires
        b.wf(),
        d >= 3,
        labels_through(*b, o, old(dist)@, d - 1),
    ensures
        labels_through(*b, o, final(dist)@, d as int),
        count_labeled(final(dist)@) >= count_labeled(old(dist)@),
        wrote ==> count_labeled(final(dist)@) >= count_labeled(old(dist)@) + 1,
        !wrote ==> forall|x: int, y: int|
            b.in_bounds(x, y) ==> !in_layer(*b, o, x, y, d as nat),
{
    let n = dist.len();
    let ghost base = dist@;
    let mut wrote: bool = false;
    let mut k: usize = 0;
    proof {
        lemma_count_labeled_le_len(dist@);
    }
    while k < n
        invariant
            b.wf(),
            d >= 3,
            dist@.len() == n,
            n == b.fields@.len(),
            k <= n,
            count_labeled(dist@) >= count_labeled(base),
            wrote ==> count_labeled(dist@) >= count_labeled(base) + 1,
            !wrote ==> forall|x: int, y: int|
                b.in_bounds(x, y) && b.idx(x, y) < k ==> !in_layer(*b, o, x, y, d as nat),
            forall|x: int, y: int|
                b.in_bounds(x, y) && b.idx(x, y) < k ==> #[trigger] cell_ok_through(
                    *b,
                    o,
                    dist@,
                    x,
                    y,
                    d as int,
                ),
            forall|x: int, y: int|
                b.in_bounds(x, y) && b.idx(x, y) >= k ==> #[trigger] cell_ok_through(
                    *b,
                    o,
                    dist@,
                    x,
                    y,
                    d - 1,
                ),
        decreases n - k,
    {
        let ghost pre = dist@;
        proof {
            lemma_row_major_coords(b.width as int, b.height as int, k as int);
            assert forall|px: int, py: int| b.in_bounds(px, py) implies ((#[trigger] dist@[b.idx(
                px,
                py,
            )] == ManhattanDistance::Dist((d - 1) as u32)) <==> in_layer(
                *b,
                o,
                px,
                py,
                (d - 1) as nat,
            )) by {
                lemma_row_major_index_in_range(b.width as int, b.height as int, px, py);
                if b.idx(px, py) < k {
                    lemma_flag_from_cell_ok(*b, o, dist@, px, py, (d - 1) as u32, d as int);
                } else {
                    lemma_flag_from_cell_ok(*b, o, dist@, px, py, (d - 1) as u32, d - 1);
                }
            }
        }
        let f = b.fields[k];
        let cur = dist[k];
        if cur.is_unreachable() {
            if open_at(b, f.x, f.y) && has_adj_layer(b, o, dist, f.x, f.y, d - 1) {
                dist[k] = ManhattanDistance::Dist(d);
                wrote = true;
                proof {
                    lemma_count_labeled_update(pre, k as int, ManhattanDistance::Dist(d));
                }
            }
        }
        proof {
            assert(cell_ok_through(*b, o, pre, f.x as int, f.y as int, d - 1));
            assert forall|x: int, y: int| b.in_bounds(x, y) && b.idx(x, y) < k + 1 implies #[trigger] cell_ok_through(
                *b,
                o,
                dist@,
                x,
                y,
                d as int,
            ) by {
                lemma_row_major_index_in_range(b.width as int, b.height as int, x, y);
                if b.idx(x, y) < k {
                    assert(cell_ok_through(*b, o, pre, x, y, d as int));
                    assert(dist@[b.idx(x, y)] == pre[b.idx(x, y)]);
                } else {
                    assert(b.idx(x, y) == k);
                    assert(x == f.x && y == f.y);
                    assert(cell_ok_through(*b, o, pre, x, y, d - 1));
                    if pre[k as int] is Unreachable {
                        assert(!labeled_before(*b, o, x, y, d as nat));
                        if dist@[k as int] is Unreachable {
                            assert(!in_layer(*b, o, x, y, d as nat));
                            assert(!labeled_before(*b, o, x, y, (d + 1) as nat));
                        } else {
                            assert(dist@[k as int] == ManhattanDistance::Dist(d));
                            assert(in_layer(*b, o, x, y, d as nat));
                        }
                    } else {
                        assert(dist@[k as int] == pre[k as int]);
                    }
                }
            }
            assert forall|x: int, y: int| b.in_bounds(x, y) && b.idx(x, y) >= k + 1 implies #[trigger] cell_ok_through(
                *b,
                o,
                dist@,
                x,
                y,
                d - 1,
            ) by {
                lemma_row_major_index_in_range(b.width as int, b.height as int, x, y);
                assert(cell_ok_through(*b, o, pre, x, y, d - 1));
            }
            if !wrote {
                assert forall|x: int, y: int|
                    b.in_bounds(x, y) && b.idx(x, y) < k + 1 implies !in_layer(
                    *b,
                    o,
                    x,
                    y,
                    d as nat,
                ) by {
                    lemma_row_major_index_in_range(b.width as int, b.height as int, x, y);
                    if b.idx(x, y) == k {
                        assert(x == f.x && y == f.y);
                        if pre[k as int] is Unreachable {
                        } else {
                            assert(cell_ok_through(*b, o, pre, x, y, d - 1));
                            if in_layer(*b, o, x, y, d as nat) {
                                let dd = pre[k as int]->Dist_0;
                                lemma_layers_disjoint(*b, o, x, y, dd as nat, d as nat);
                            }
                        }
                    }
                }
            }
        }
        k += 1;
    }
    proof {
        assert forall|x: int, y: int| b.in_bounds(x, y) implies #[trigger] cell_ok_through(
            *b,
            o,
            dist@,
            x,
            y,
            d as int,
        ) by {
            lemma_row_major_index_in_range(b.width as int, b.height as int, x, y);
        }
        if !wrote {
            assert forall|x: int, y: int| b.in_bounds(x, y) implies !in_layer(
                *b,
                o,
                x,
                y,
                d as nat,
            ) by {
                lemma_row_major_index_in_range(b.width as int, b.height as int, x, y);
            }
        }
    }
    wrote
}

/// A per-cell distance labelling in the same row-major layout as its board.
#[derive(Clone, Debug)]
pub struct DistanceBoard {
    pub width: u32,
    pub height: u32,
    pub distances: Vec<ManhattanDistance>,
}

impl DistanceBoard {
    pub open spec fn idx(self, x: int, y: int) -> int {
        y * (self.width as int) + x
    }

    pub open spec fn in_bounds(self, x: int, y: int) -> bool {
        0 <= x < self.width && 0 <= y < self.height
    }

    pub open spec fn label(self, x: int, y: int) -> ManhattanDistance {
        self.distances@[self.idx(x, y)]
    }

    pub open spec fn wf(self) -> bool {
        &&& self.width <= 0xFFFF
        &&& self.height <= 0xFFFF
        &&& self.distances@.len() == self.width * self.height
    }

    /// Build the distance field for `from_owner`: label every cell with the
    /// least number of turns a unit of that owner needs to reach it, or
    /// `Unreachable` when no turn count suffices.
    pub fn from_owner(board: &Board, from_owner: Owner) -> (r: DistanceBoard)
        requires
            board.wf(),
        ensures
            r.wf(),
            r.width == board.width,
            r.height == board.height,
            labels_correct(*board, from_owner, r.distances@),
    {
        let n = board.fields.len();
        let mut dist: Vec<ManhattanDistance> = Vec::with_capacity(n);
        let mut i: usize = 0;
        while i < n
            invariant
                i <= n,
                dist@.len() == i,
                forall|j: int| 0 <= j < i ==> dist@[j] is Unreachable,
            decreases n - i,
        {
            dist.push(ManhattanDistance::Unreachable);
            i += 1;
        }
        seed_class_a(board, from_owner, &mut dist);
        seed_pass_1(board, from_owner, &mut dist);
        seed_pass_2(board, from_owner, &mut dist);
        proof {
            lemma_count_labeled_le_len(dist@);
            assert((board.width as int) * (board.height as int) <= 0xFFFF * 0xFFFF)
                by (nonlinear_arith)
                requires
                    board.width <= 0xFFFF && board.height <= 0xFFFF,
            ;
        }
        let mut d: u32 = 3;
        let mut changed: bool = true;
        while changed
            invariant
                board.wf(),
                dist@.len() == n,
                n == board.fields@.len(),
                n <= 0xFFFF * 0xFFFF,
                3 <= d,
                d - 3 <= count_labeled(dist@),
                count_labeled(dist@) <= n,
                changed ==> labels_through(*board, from_owner, dist@, d - 1),
                !changed ==> labels_through(*board, from_owner, dist@, d as int) && (forall|
                    x: int,
                    y: int,
                |
                    board.in_bounds(x, y) ==> !in_layer(*board, from_owner, x, y, d as nat)),
            decreases n - count_labeled(dist@), (if changed {
                1int
            } else {
                0int
            }),
        {
            let ghost count_before = count_labeled(dist@);
            let wrote = expansion_pass(board, from_owner, &mut dist, d);
            proof {
                lemma_count_labeled_le_len(dist@);
            }
            if wrote {
                d += 1;
            } else {
                changed = false;
            }
        }
        let r = DistanceBoard { width: board.width, height: board.height, distances: dist };
        proof {
            assert forall|x: int, y: int| board.in_bounds(x, y) implies match r.label(x, y) {
                ManhattanDistance::Dist(dd) => in_layer(*board, from_owner, x, y, dd as nat),
                ManhattanDistance::Unreachable => forall|m: nat|
                    !in_layer(*board, from_owner, x, y, m),
            } by {
                lemma_row_major_index_in_range(board.width as int, board.height as int, x, y);
                assert(cell_ok_through(*board, from_owner, r.distances@, x, y, d as int));
                match r.label(x, y) {
                    ManhattanDistance::Dist(dd) => {},
                    ManhattanDistance::Unreachable => {
                        assert forall|m: nat| !in_layer(*board, from_owner, x, y, m) by {
                            if m <= d {
                                if in_layer(*board, from_owner, x, y, m) {
                                    lemma_labeled_before_intro(
                                        *board,
                                        from_owner,
                                        x,
                                        y,
                                        m,
                                        (d + 1) as nat,
                                    );
                                }
                            } else {
                                lemma_no_later_layers_everywhere(
                                    *board,
                                    from_owner,
                                    d as nat,
                                    m,
                                );
                            }
                        }
                    },
                }
            }
        }
        r
    }

    /// The label at `(x, y)`, absent when the coordinates are off the board.
    pub fn get_field(&self, x: u32, y: u32) -> (r: Option<&ManhattanDistance>)
        requires
            self.wf(),
        ensures
            match r {
                Some(l) => self.in_bounds(x as int, y as int) && *l == self.label(
                    x as int,
                    y as int,
                ),
                None => !self.in_bounds(x as int, y as int),
            },
    {
        if x < self.width && y < self.height {
            proof {
                lemma_row_major_index_in_range(
                    self.width as int,
                    self.height as int,
                    x as int,
                    y as int,
                );
            }
            Some(&self.distances[(x + y * self.width) as usize])
        } else {
            None
        }
    }

    /// The labels of the four orthogonal neighbours, north, east, south,
    /// west.
    pub fn get_adjacent_fields(&self, x: u32, y: u32) -> (r: [Option<&ManhattanDistance>; 4])
        requires
            self.wf(),
            self.in_bounds(x as int, y as int),
        ensures
            same_label(r[0], *self, x as int, y as int - 1),
            same_label(r[1], *self, x as int + 1, y as int),
            same_label(r[2], *self, x as int, y as int + 1),
            same_label(r[3], *self, x as int - 1, y as int),
    {
        let north = if y >= 1 {
            self.get_field(x, y - 1)
        } else {
            None
        };
        let east = self.get_field(x + 1, y);
        let south = self.get_field(x, y + 1);
        let west = if x >= 1 {
            self.get_field(x - 1, y)
        } else {
            None
        };
        [north, east, south, west]
    }

    /// Whether the neighbour of `(x, y)` in direction `dir` exists and its
    /// label compares to the cell's own label as `ordering` asks.
    pub open spec fn direction_matches(
        self,
        x: int,
        y: int,
        dir: int,
        ordering: Ordering,
    ) -> bool {
        let nx = crate::board::neighbor_x(x, dir);
        let ny = crate::board::neighbor_y(y, dir);
        &&& self.in_bounds(nx, ny)
        &&& (match ordering {
            Ordering::Less => self.label(nx, ny).spec_key() < self.label(x, y).spec_key(),
            Ordering::Equal => self.label(nx, ny).spec_key() == self.label(x, y).spec_key(),
            Ordering::Greater => self.label(nx, ny).spec_key() > self.label(x, y).spec_key(),
        })
    }

    /// For each of the four neighbour slots (north, east, south, west),
    /// whether that neighbour exists and its label compares to the own label
    /// per the requested ordering — `Less` picks the directions leading down
    /// the field, `Greater` up. Absent neighbours give `false`.
    pub fn towards(&self, x: u32, y: u32, ordering: Ordering) -> (r: [bool; 4])
        requires
            self.wf(),
            self.in_bounds(x as int, y as int),
        ensures
            r[0] == self.direction_matches(x as int, y as int, 0, ordering),
            r[1] == self.direction_matches(x as int, y as int, 1, ordering),
            r[2] == self.direction_matches(x as int, y as int, 2, ordering),
            r[3] == self.direction_matches(x as int, y as int, 3, ordering),
    {
        proof {
            lemma_row_major_index_in_range(
                self.width as int,
                self.height as int,
                x as int,
                y as int,
            );
        }
        let own = self.distances[(x + y * self.width) as usize];
        let north = if y >= 1 {
            match self.get_field(x, y - 1) {
                Some(l) => ordering_eq(l.cmp_label(own), ordering),
                None => false,
            }
        } else {
            false
        };
        let east = match self.get_field(x + 1, y) {
            Some(l) => ordering_eq(l.cmp_label(own), ordering),
            None => false,
        };
        let south = match self.get_field(x, y + 1) {
            Some(l) => ordering_eq(l.cmp_label(own), ordering),
            None => false,
        };
        let west = if x >= 1 {
            match self.get_field(x - 1, y) {
                Some(l) => ordering_eq(l.cmp_label(own), ordering),
                None => false,
            }
        } else {
            false
        };
        [north, east, south, west]
    }
}

/// An optional borrowed label agrees with the stored label at `(x, y)`, and
/// is absent exactly when `(x, y)` is off the board.
pub open spec fn same_label(a: Option<&ManhattanDistance>, b: DistanceBoard, x: int, y: int) -> bool {
    match a {
        Some(l) => b.in_bounds(x, y) && *l == b.label(x, y),
        None => !b.in_bounds(x, y),
    }
}

/// Whether two comparison results are the same.
fn ordering_eq(a: Ordering, b: Ordering) -> (r: bool)
    ensures
        r == (a == b),
{
    match (a, b) {
        (Ordering::Less, Ordering::Less) => true,
        (Ordering::Equal, Ordering::Equal) => true,
        (Ordering::Greater, Ordering::Greater) => true,
        _ => false,
    }
}

/// As `lemma_no_later_layers`, starting from a layer known empty on the board
/// and hence, by `lemma_in_layer_out_of_bounds`, empty everywhere.
pub proof fn lemma_no_later_layers_everywhere(b: Board, o: Owner, d: nat, dp: nat)
    requires
        d >= 2,
        d <= dp,
        forall|x: int, y: int| b.in_bounds(x, y) ==> !in_layer(b, o, x, y, d),
    ensures
        forall|x: int, y: int| !in_layer(b, o, x, y, dp),
{
    assert forall|x: int, y: int| !in_layer(b, o, x, y, d) by {
        if !b.in_bounds(x, y) {
            lemma_in_layer_out_of_bounds(b, o, x, y, d);
        }
    }
    lemma_no_later_layers(b, o, d, dp);
}

} // verus!
