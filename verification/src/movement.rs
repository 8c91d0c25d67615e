//! The move phase: every unit group is spread over its stepping-stone
//! neighbours toward the opponent, with arrival counts and ownership bias
//! shared across groups; a group that cannot reach the opponent drifts
//! toward neutral ground.

use vstd::prelude::*;

use core::cmp::Ordering;

use crate::action::Action;
use crate::agent::SimpleEconomyAgent;
use crate::allocation::{allocate, lemma_sum_placed_entry_le, sum_placed};
use crate::board::{lemma_row_major_coords, lemma_row_major_index_in_range, Board};
use crate::distance_board::{labels_correct, DistanceBoard, ManhattanDistance};
use crate::owner::Owner;
use crate::sorting::sort_pairs;

verus! {

/// Appending an action adds exactly its contribution to each cell's
/// outflow.
pub proof fn lemma_moved_from_push(s: Seq<Action>, a: Action, x: int, y: int)
    ensures
        moved_from(s.push(a), x, y) == moved_from(s, x, y) + move_contrib(a, x, y),
{
    assert(s.push(a).drop_last() =~= s);
    assert(s.push(a).last() == a);
}

/// If a unit can step onto `(nx, ny)` and the opponent stays reachable from
/// there, append it as a move destination with its effective cost: weighted
/// distance plus claimed arrivals plus ownership bias.
fn consider_move_dest(
    board: &Board,
    odb: &DistanceBoard,
    arrival: &Vec<u32>,
    owner_score: &Vec<u32>,
    weight: u32,
    fx: u32,
    fy: u32,
    nx: u32,
    ny: u32,
    dests: &mut Vec<usize>,
    costs: &mut Vec<u64>,
)
    requires
        board.wf(),
        odb.wf(),
        odb.width == board.width,
        odb.height == board.height,
        board.in_bounds(nx as int, ny as int),
        crate::distance_board::is_adjacent(fx as int, fy as int, nx as int, ny as int),
        arrival@.len() == board.fields@.len(),
        owner_score@.len() == board.fields@.len(),
        forall|a: int| 0 <= a < owner_score@.len() ==> #[trigger] owner_score@[a] <= 1000,
        weight <= 1000,
        old(dests)@.len() == old(costs)@.len(),
        forall|t: int|
            0 <= t < old(dests)@.len() ==> dest_entry_ok(
                *board,
                *odb,
                fx as int,
                fy as int,
                #[trigger] old(dests)@[t] as int,
            ),
        forall|t: int|
            0 <= t < old(costs)@.len() ==> #[trigger] old(costs)@[t] <= 0x4000_0000_0000_0000,
    ensures
        final(dests)@.len() == final(costs)@.len(),
        final(dests)@.len() == old(dests)@.len() + (if step_target_ok(
            *board,
            *odb,
            fx as int,
            fy as int,
            nx as int,
            ny as int,
        ) {
            1int
        } else {
            0int
        }),
        forall|t: int|
            0 <= t < final(dests)@.len() ==> dest_entry_ok(
                *board,
                *odb,
                fx as int,
                fy as int,
                #[trigger] final(dests)@[t] as int,
            ),
        forall|t: int|
            0 <= t < final(costs)@.len() ==> #[trigger] final(costs)@[t] <= 0x4000_0000_0000_0000,
        step_target_ok(*board, *odb, fx as int, fy as int, nx as int, ny as int) ==> {
            &&& final(dests)@.drop_last() == old(dests)@
            &&& final(costs)@.drop_last() == old(costs)@
            &&& final(dests)@.last() as int == board.idx(nx as int, ny as int)
            &&& final(costs)@.last() as int == (odb.label(nx as int, ny as int)->Dist_0 as int) * (
            weight as int) + arrival@[board.idx(nx as int, ny as int)] + owner_score@[board.idx(
                nx as int,
                ny as int,
            )]
        },
        !step_target_ok(*board, *odb, fx as int, fy as int, nx as int, ny as int) ==> {
            &&& final(dests)@ == old(dests)@
            &&& final(costs)@ == old(costs)@
        },
{
    proof {
        lemma_row_major_index_in_range(board.width as int, board.height as int, nx as int, ny as int);
        lemma_row_major_coords(
            board.width as int,
            board.height as int,
            ny as int * board.width as int + nx as int,
        );
    }
    let nidx = (nx + ny * board.width) as usize;
    let nf = board.fields[nidx];
    if !(nf.scrap_amount <= 1 && nf.in_recycler_range) {
        let l = *odb.get_field(nx, ny).unwrap();
        match l {
            ManhattanDistance::Dist(dd) => {
                proof {
                    assert((dd as u64) * (weight as u64) <= 0xFFFF_FFFF * 1000) by (nonlinear_arith)
                        requires
                            0 <= dd <= 0xFFFF_FFFF,
                            0 <= weight <= 1000,
                    ;
                }
                let cost: u64 = (dd as u64) * (weight as u64) + (arrival[nidx] as u64) + (
                owner_score[nidx] as u64);
                dests.push(nidx);
                costs.push(cost);
                proof {
                    assert(dests@.drop_last() =~= old(dests)@);
                    assert(costs@.drop_last() =~= old(costs)@);
                }
            },
            ManhattanDistance::Unreachable => {},
        }
    }
}

/// A move destination entry: the row-major index of a stepping stone of the
/// group cell at `(fx, fy)`.
pub open spec fn dest_entry_ok(b: Board, odb: DistanceBoard, fx: int, fy: int, d: int) -> bool {
    &&& 0 <= d < b.fields@.len()
    &&& b.idx(b.fields@[d].x as int, b.fields@[d].y as int) == d
    &&& step_target_ok(b, odb, fx, fy, b.fields@[d].x as int, b.fields@[d].y as int)
}

/// The amount a move action carries.
pub open spec fn move_amount(a: Action) -> int {
    match a {
        Action::Move { amount, from, to } => amount as int,
        _ => 0,
    }
}

/// The source coordinates of a move action.
pub open spec fn move_from(a: Action) -> (int, int) {
    match a {
        Action::Move { amount, from, to } => (from.0 as int, from.1 as int),
        _ => (0, 0),
    }
}

/// The destination coordinates of a move action.
pub open spec fn move_to(a: Action) -> (int, int) {
    match a {
        Action::Move { amount, from, to } => (to.0 as int, to.1 as int),
        _ => (0, 0),
    }
}

/// What one action contributes to the outflow of `(x, y)`.
pub open spec fn move_contrib(a: Action, x: int, y: int) -> int {
    if a is Move && move_from(a) == (x, y) {
        move_amount(a)
    } else {
        0
    }
}

/// Total units a sequence of actions moves out of `(x, y)`.
pub open spec fn moved_from(s: Seq<Action>, x: int, y: int) -> int
    decreases s.len(),
{
    if s.len() == 0 {
        0
    } else {
        moved_from(s.drop_last(), x, y) + move_contrib(s.last(), x, y)
    }
}

/// Splitting a sequence of orders splits each cell's outflow.
pub proof fn lemma_moved_from_concat(s1: Seq<Action>, s2: Seq<Action>, x: int, y: int)
    ensures
        moved_from(s1 + s2, x, y) == moved_from(s1, x, y) + moved_from(s2, x, y),
    decreases s2.len(),
{
    if s2.len() == 0 {
        assert(s1 + s2 =~= s1);
    } else {
        lemma_moved_from_concat(s1, s2.drop_last(), x, y);
        assert((s1 + s2).drop_last() =~= s1 + s2.drop_last());
        assert((s1 + s2).last() == s2.last());
    }
}

/// Total units a sequence of orders moves, over all sources.
pub open spec fn total_moved(s: Seq<Action>) -> int
    decreases s.len(),
{
    if s.len() == 0 {
        0
    } else {
        total_moved(s.drop_last()) + move_amount(s.last())
    }
}

/// Appending an order adds exactly its amount to the total.
pub proof fn lemma_total_moved_push(s: Seq<Action>, a: Action)
    ensures
        total_moved(s.push(a)) == total_moved(s) + move_amount(a),
{
    assert(s.push(a).drop_last() =~= s);
    assert(s.push(a).last() == a);
}

/// What one order claims on the shared destination-load board at `(x, y)`:
/// orders of a group that spreads (its cell has a stepping stone) claim
/// their arrivals; the single fallback order of a stranded group claims
/// nothing.
pub open spec fn arrival_contrib(b: Board, odb: DistanceBoard, a: Action, x: int, y: int) -> int {
    if a is Move && move_to(a) == (x, y) && has_step_target(
        b,
        odb,
        move_from(a).0,
        move_from(a).1,
    ) {
        move_amount(a)
    } else {
        0
    }
}

/// Units the orders `s` have already committed to arrive at `(x, y)` on the
/// shared destination-load board.
pub open spec fn arrivals(b: Board, odb: DistanceBoard, s: Seq<Action>, x: int, y: int) -> int
    decreases s.len(),
{
    if s.len() == 0 {
        0
    } else {
        arrivals(b, odb, s.drop_last(), x, y) + arrival_contrib(b, odb, s.last(), x, y)
    }
}

/// Appending an order adds exactly its claim to each destination.
pub proof fn lemma_arrivals_push(b: Board, odb: DistanceBoard, s: Seq<Action>, a: Action, x: int, y: int)
    ensures
        arrivals(b, odb, s.push(a), x, y) == arrivals(b, odb, s, x, y) + arrival_contrib(
            b,
            odb,
            a,
            x,
            y,
        ),
{
    assert(s.push(a).drop_last() =~= s);
    assert(s.push(a).last() == a);
}

/// No destination is ever claimed negatively, nor beyond the total moved.
pub proof fn lemma_arrivals_le_total(b: Board, odb: DistanceBoard, s: Seq<Action>, x: int, y: int)
    ensures
        0 <= arrivals(b, odb, s, x, y) <= total_moved(s),
    decreases s.len(),
{
    if s.len() > 0 {
        lemma_arrivals_le_total(b, odb, s.drop_last(), x, y);
    }
}

/// The ownership bias a destination starts the turn with: own cells attract
/// least, opponent cells most.
pub open spec fn base_bias(b: Board, x: int, y: int) -> int {
    match b.cell(x, y).owner {
        Owner::Me => 5,
        Owner::Neutral => 1,
        Owner::Opponent => 0,
    }
}

/// Whether an earlier order has claimed `(x, y)`: some spreading order
/// carried at least one unit there.
pub open spec fn claimed(b: Board, odb: DistanceBoard, s: Seq<Action>, x: int, y: int) -> bool {
    exists|i: int| 0 <= i < s.len() && arrival_contrib(b, odb, #[trigger] s[i], x, y) > 0
}

/// Appending an order claims a destination exactly when the order itself
/// carries something there.
pub proof fn lemma_claimed_push(b: Board, odb: DistanceBoard, s: Seq<Action>, a: Action, x: int, y: int)
    ensures
        claimed(b, odb, s.push(a), x, y) <==> (claimed(b, odb, s, x, y) || arrival_contrib(
            b,
            odb,
            a,
            x,
            y,
        ) > 0),
{
    let t = s.push(a);
    if claimed(b, odb, t, x, y) {
        let i = choose|i: int| 0 <= i < t.len() && arrival_contrib(b, odb, #[trigger] t[i], x, y) > 0;
        if i < s.len() {
            assert(arrival_contrib(b, odb, s[i], x, y) > 0);
        } else {
            assert(t[i] == a);
        }
    }
    if claimed(b, odb, s, x, y) {
        let i = choose|i: int| 0 <= i < s.len() && arrival_contrib(b, odb, #[trigger] s[i], x, y) > 0;
        assert(arrival_contrib(b, odb, t[i], x, y) > 0);
    }
    if arrival_contrib(b, odb, a, x, y) > 0 {
        assert(arrival_contrib(b, odb, t[s.len() as int], x, y) > 0);
    }
}

/// The ownership bias of `(x, y)` after the orders `s`: once claimed it
/// carries the configured own-cell score, otherwise its owner's base bias.
pub open spec fn bias(
    cfg: SimpleEconomyAgent,
    b: Board,
    odb: DistanceBoard,
    s: Seq<Action>,
    x: int,
    y: int,
) -> int {
    if claimed(b, odb, s, x, y) {
        cfg.movement_own_score as int
    } else {
        base_bias(b, x, y)
    }
}

/// The effective cost of stepping onto `(tx, ty)` after the orders `prior`:
/// weighted distance toward the opponent, plus the arrivals already
/// committed there, plus the ownership bias.
pub open spec fn step_cost(
    cfg: SimpleEconomyAgent,
    b: Board,
    odb: DistanceBoard,
    prior: Seq<Action>,
    tx: int,
    ty: int,
) -> int {
    (odb.label(tx, ty)->Dist_0 as int) * (cfg.distance_move_weighting as int) + arrivals(
        b,
        odb,
        prior,
        tx,
        ty,
    ) + bias(cfg, b, odb, prior, tx, ty)
}

/// The one-or-zero element sequence holding `(tx, ty)` when it is a
/// stepping stone of `(x, y)`.
pub open spec fn dir_if_ok(
    b: Board,
    odb: DistanceBoard,
    x: int,
    y: int,
    tx: int,
    ty: int,
) -> Seq<(int, int)> {
    if step_target_ok(b, odb, x, y, tx, ty) {
        seq![(tx, ty)]
    } else {
        Seq::empty()
    }
}

/// The stepping stones of `(x, y)` in the fixed north, east, south, west
/// order.
pub open spec fn step_targets(b: Board, odb: DistanceBoard, x: int, y: int) -> Seq<(int, int)> {
    dir_if_ok(b, odb, x, y, x, y - 1) + dir_if_ok(b, odb, x, y, x + 1, y) + dir_if_ok(
        b,
        odb,
        x,
        y,
        x,
        y + 1,
    ) + dir_if_ok(b, odb, x, y, x - 1, y)
}

/// The collected destination rows match the stepping stones `dirs`: one row
/// per stone, holding its row-major index and the effective cost read off
/// the shared boards.
pub open spec fn dests_match(
    b: Board,
    odb: DistanceBoard,
    weight: int,
    arrival: Seq<u32>,
    owner_score: Seq<u32>,
    dests: Seq<usize>,
    costs: Seq<u64>,
    dirs: Seq<(int, int)>,
) -> bool {
    &&& dests.len() == dirs.len()
    &&& costs.len() == dirs.len()
    &&& forall|t: int|
        0 <= t < dirs.len() ==> {
            &&& ((#[trigger] dests[t]) as int) < b.fields@.len()
            &&& dests[t] as int == b.idx(dirs[t].0, dirs[t].1)
            &&& b.fields@[dests[t] as int].x as int == dirs[t].0
            &&& b.fields@[dests[t] as int].y as int == dirs[t].1
            &&& costs[t] as int == (odb.label(dirs[t].0, dirs[t].1)->Dist_0 as int) * weight
                + arrival[dests[t] as int] + owner_score[dests[t] as int]
        }
}

/// One group's orders, planned after `prior`: the cell at row-major index
/// `j` sends every unit out. With stepping stones available the group
/// spreads over them — one order per stone in the fixed direction order,
/// the amounts a fair allocation against the effective costs after `prior`;
/// without any it is the single fallback order down the neutral field.
pub open spec fn group_chunk_ok(
    cfg: SimpleEconomyAgent,
    b: Board,
    odb: DistanceBoard,
    ndb: DistanceBoard,
    prior: Seq<Action>,
    chunk: Seq<Action>,
    j: int,
) -> bool {
    let x = b.fields@[j].x as int;
    let y = b.fields@[j].y as int;
    let units = b.fields@[j].num_units as int;
    let dirs = step_targets(b, odb, x, y);
    if has_step_target(b, odb, x, y) {
        &&& chunk.len() == dirs.len()
        &&& forall|t: int|
            0 <= t < chunk.len() ==> {
                &&& (#[trigger] chunk[t]) is Move
                &&& move_from(chunk[t]) == (x, y)
                &&& move_to(chunk[t]) == dirs[t]
            }
        &&& moved_from(chunk, x, y) == units
        &&& forall|t: int, u: int|
            0 <= t < chunk.len() && 0 <= u < chunk.len() && move_amount(#[trigger] chunk[t]) > 0
                ==> step_cost(cfg, b, odb, prior, dirs[t].0, dirs[t].1) + move_amount(chunk[t])
                <= step_cost(cfg, b, odb, prior, dirs[u].0, dirs[u].1) + move_amount(
                #[trigger] chunk[u],
            ) + 1
    } else {
        &&& chunk.len() == 1
        &&& chunk[0] is Move
        &&& move_from(chunk[0]) == (x, y)
        &&& move_to(chunk[0]) == fallback_to(b, ndb, x, y)
        &&& move_amount(chunk[0]) == units
    }
}

/// A whole move plan: the groups `gs` are exactly the occupied cells, each
/// once, planned closest-first, and the orders split at `bounds` into one
/// chunk per group, each chunk planned against the arrivals and ownership
/// biases committed by the chunks before it.
pub open spec fn move_plan_ok(
    cfg: SimpleEconomyAgent,
    b: Board,
    odb: DistanceBoard,
    ndb: DistanceBoard,
    gs: Seq<(u64, usize)>,
    bounds: Seq<int>,
    r: Seq<Action>,
) -> bool {
    &&& forall|a: int| 0 <= a < gs.len() ==> group_ok(b, odb, #[trigger] gs[a])
    &&& crate::sorting::distinct_indices(gs)
    &&& forall|j: int|
        #[trigger] occupied_by_me(b, j) ==> gs.contains(
            ((group_key(b, odb, j)) as u64, j as usize),
        )
    &&& crate::sorting::sorted_by_key(gs)
    &&& bounds.len() == gs.len() + 1
    &&& bounds[0] == 0
    &&& bounds[gs.len() as int] == r.len()
    &&& forall|a: int| 0 <= a <= gs.len() ==> 0 <= #[trigger] bounds[a] <= r.len()
    &&& forall|a: int| 0 <= a < gs.len() ==> #[trigger] bounds[a] <= bounds[a + 1]
    &&& forall|a: int|
        0 <= a < gs.len() ==> group_chunk_ok(
            cfg,
            b,
            odb,
            ndb,
            r.take(bounds[a]),
            r.subrange(bounds[a], bounds[a + 1]),
            (#[trigger] gs[a]).1 as int,
        )
}

/// Total units standing on the listed cells.
pub open spec fn group_units(fields: Seq<crate::field::Field>, gs: Seq<(u64, usize)>) -> int
    decreases gs.len(),
{
    if gs.len() == 0 {
        0
    } else {
        group_units(fields, gs.drop_last()) + fields[gs.last().1 as int].num_units
    }
}

/// A cell total is never negative.
pub proof fn lemma_group_units_nonneg(fields: Seq<crate::field::Field>, gs: Seq<(u64, usize)>)
    requires
        forall|a: int| 0 <= a < gs.len() ==> 0 <= (#[trigger] gs[a]).1 < fields.len(),
    ensures
        group_units(fields, gs) >= 0,
    decreases gs.len(),
{
    if gs.len() > 0 {
        lemma_group_units_nonneg(fields, gs.drop_last());
    }
}

/// Removing one entry takes exactly its cell's units out of the total.
pub proof fn lemma_group_units_remove(
    fields: Seq<crate::field::Field>,
    gs: Seq<(u64, usize)>,
    p: int,
)
    requires
        0 <= p < gs.len(),
    ensures
        group_units(fields, gs.remove(p)) == group_units(fields, gs) - fields[gs[p].1 as int].num_units,
    decreases gs.len(),
{
    gs.remove_ensures(p);
    if p == gs.len() - 1 {
        assert(gs.remove(p) =~= gs.drop_last());
    } else {
        lemma_group_units_remove(fields, gs.drop_last(), p);
        assert(gs.remove(p).drop_last() =~= gs.drop_last().remove(p));
        assert(gs.remove(p).last() == gs.last());
    }
}

/// Entries that never reach the last cell read the same total off the
/// shorter board.
pub proof fn lemma_group_units_drop_field(fields: Seq<crate::field::Field>, gs: Seq<(u64, usize)>)
    requires
        fields.len() > 0,
        forall|a: int| 0 <= a < gs.len() ==> 0 <= (#[trigger] gs[a]).1 < fields.len() - 1,
    ensures
        group_units(fields, gs) == group_units(fields.drop_last(), gs),
    decreases gs.len(),
{
    if gs.len() > 0 {
        lemma_group_units_drop_field(fields, gs.drop_last());
    }
}

/// Distinct owned cells never hold more units together than the owner's
/// board total.
pub proof fn lemma_group_units_le_sum(fields: Seq<crate::field::Field>, gs: Seq<(u64, usize)>)
    requires
        forall|a: int|
            0 <= a < gs.len() ==> 0 <= (#[trigger] gs[a]).1 < fields.len() && fields[(gs[a]).1
                as int].owner == Owner::Me,
        crate::sorting::distinct_indices(gs),
    ensures
        0 <= group_units(fields, gs) <= crate::board::sum_units(fields, Owner::Me),
    decreases fields.len(),
{
    lemma_group_units_nonneg(fields, gs);
    crate::board::lemma_sum_units_prefix_le(fields, 0, Owner::Me);
    assert(fields.take(0) =~= Seq::<crate::field::Field>::empty());
    if gs.len() > 0 {
        let n = fields.len() - 1;
        if exists|p: int| 0 <= p < gs.len() && (#[trigger] gs[p]).1 == n {
            let p = choose|p: int| 0 <= p < gs.len() && (#[trigger] gs[p]).1 == n;
            let gs2 = gs.remove(p);
            gs.remove_ensures(p);
            lemma_group_units_remove(fields, gs, p);
            assert forall|a: int|
                0 <= a < gs2.len() implies 0 <= (#[trigger] gs2[a]).1 < n && fields[(gs2[a]).1
                as int].owner == Owner::Me by {
                if a < p {
                    assert(gs2[a] == gs[a]);
                    if (gs[a]).1 == n {
                        assert((gs[a]).1 != (gs[p]).1);
                    }
                } else {
                    assert(gs2[a] == gs[a + 1]);
                    if (gs[a + 1]).1 == n {
                        assert((gs[p]).1 != (gs[a + 1]).1);
                    }
                }
            }
            assert forall|a: int, c: int|
                0 <= a < c < gs2.len() implies (#[trigger] gs2[a]).1 != (#[trigger] gs2[c]).1 by {
                if c < p {
                    assert(gs2[a] == gs[a] && gs2[c] == gs[c]);
                } else if a < p {
                    assert(gs2[a] == gs[a] && gs2[c] == gs[c + 1]);
                } else {
                    assert(gs2[a] == gs[a + 1] && gs2[c] == gs[c + 1]);
                }
            }
            lemma_group_units_drop_field(fields, gs2);
            lemma_group_units_le_sum(fields.drop_last(), gs2);
        } else {
            assert forall|a: int|
                0 <= a < gs.len() implies 0 <= (#[trigger] gs[a]).1 < fields.len() - 1 by {
                assert((gs[a]).1 != n);
            }
            lemma_group_units_drop_field(fields, gs);
            lemma_group_units_le_sum(fields.drop_last(), gs);
        }
    }
}

/// A stepping stone for a unit at `(fx, fy)`: an orthogonal neighbour that
/// exists, is not about to turn to grass, and still reaches the opponent.
pub open spec fn step_target_ok(
    b: Board,
    odb: DistanceBoard,
    fx: int,
    fy: int,
    tx: int,
    ty: int,
) -> bool {
    &&& crate::distance_board::is_adjacent(fx, fy, tx, ty)
    &&& b.in_bounds(tx, ty)
    &&& !(b.cell(tx, ty).scrap_amount <= 1 && b.cell(tx, ty).in_recycler_range)
    &&& odb.label(tx, ty) is Dist
}

/// Whether a unit at `(x, y)` has any stepping stone toward the opponent.
pub open spec fn has_step_target(b: Board, odb: DistanceBoard, x: int, y: int) -> bool {
    ||| step_target_ok(b, odb, x, y, x, y - 1)
    ||| step_target_ok(b, odb, x, y, x + 1, y)
    ||| step_target_ok(b, odb, x, y, x, y + 1)
    ||| step_target_ok(b, odb, x, y, x - 1, y)
}

/// Where a group with no stepping stone drifts: the first direction (north,
/// east, south, west) whose neutral-field label is smaller than the cell's
/// own, or the cell itself when no direction leads down.
pub open spec fn fallback_to(b: Board, ndb: DistanceBoard, x: int, y: int) -> (int, int) {
    if ndb.direction_matches(x, y, 0, Ordering::Less) {
        (x, y - 1)
    } else if ndb.direction_matches(x, y, 1, Ordering::Less) {
        (x + 1, y)
    } else if ndb.direction_matches(x, y, 2, Ordering::Less) {
        (x, y + 1)
    } else if ndb.direction_matches(x, y, 3, Ordering::Less) {
        (x - 1, y)
    } else {
        (x, y)
    }
}

/// A sound move order: out of an owned, occupied cell, carrying no more
/// units than stand there. When the cell has a stepping stone toward the
/// opponent, the order targets one; otherwise it is the single fallback
/// order carrying every unit down the neutral field (or standing still).
pub open spec fn move_step_ok(
    b: Board,
    odb: DistanceBoard,
    ndb: DistanceBoard,
    a: Action,
) -> bool {
    &&& a is Move
    &&& b.in_bounds(move_from(a).0, move_from(a).1)
    &&& b.cell(move_from(a).0, move_from(a).1).owner == Owner::Me
    &&& b.cell(move_from(a).0, move_from(a).1).num_units > 0
    &&& move_amount(a) <= b.cell(move_from(a).0, move_from(a).1).num_units
    &&& (has_step_target(b, odb, move_from(a).0, move_from(a).1) ==> step_target_ok(
        b,
        odb,
        move_from(a).0,
        move_from(a).1,
        move_to(a).0,
        move_to(a).1,
    ))
    &&& (!has_step_target(b, odb, move_from(a).0, move_from(a).1) ==> {
        &&& move_to(a) == fallback_to(b, ndb, move_from(a).0, move_from(a).1)
        &&& move_amount(a) == b.cell(move_from(a).0, move_from(a).1).num_units
    })
}

/// The move phase against given opponent and neutral distance fields:
/// every order is sound and every owned occupied cell sends out exactly the
/// units standing on it.
pub open spec fn moves_phase_ok(
    b: Board,
    odb: DistanceBoard,
    ndb: DistanceBoard,
    r: Seq<Action>,
) -> bool {
    &&& forall|i: int| 0 <= i < r.len() ==> move_step_ok(b, odb, ndb, #[trigger] r[i])
    &&& forall|x: int, y: int|
        b.in_bounds(x, y) && b.cell(x, y).owner == Owner::Me && b.cell(x, y).num_units > 0
            ==> #[trigger] moved_from(r, x, y) == b.cell(x, y).num_units
}

/// What the move phase guarantees, with the fallback judged against the
/// snapshot's true neutral distance field: every order is sound, every
/// occupied cell sends out exactly its units, and the orders decompose into
/// one chunk per group, planned closest-first, each spreading its units
/// fairly over the effective costs left behind by the chunks before it.
pub open spec fn moves_ok(
    cfg: SimpleEconomyAgent,
    b: Board,
    odb: DistanceBoard,
    r: Seq<Action>,
) -> bool {
    exists|ndb: DistanceBoard, gs: Seq<(u64, usize)>, bounds: Seq<int>|
        {
            &&& ndb.wf()
            &&& ndb.width == b.width
            &&& ndb.height == b.height
            &&& labels_correct(b, Owner::Neutral, ndb.distances@)
            &&& moves_phase_ok(b, odb, ndb, r)
            &&& #[trigger] move_plan_ok(cfg, b, odb, ndb, gs, bounds, r)
        }
}

/// Whether the cell at row-major index `j` holds this player's units.
pub open spec fn occupied_by_me(b: Board, j: int) -> bool {
    &&& 0 <= j < b.fields@.len()
    &&& b.fields@[j].owner == Owner::Me
    &&& b.fields@[j].num_units > 0
}

/// The sort key of a unit group: its cell's distance label, unreachable
/// sorting last.
pub open spec fn group_key(b: Board, odb: DistanceBoard, j: int) -> int {
    odb.label(b.fields@[j].x as int, b.fields@[j].y as int).spec_key()
}

/// A unit group entry: the second component is the row-major index of an
/// occupied cell, the first its distance sort key.
pub open spec fn group_ok(b: Board, odb: DistanceBoard, g: (u64, usize)) -> bool {
    let idx = g.1 as int;
    &&& occupied_by_me(b, idx)
    &&& b.idx(b.fields@[idx].x as int, b.fields@[idx].y as int) == idx
    &&& g.0 == group_key(b, odb, idx)
}

/// Collecting one more direction keeps the destination rows matched to the
/// stepping stones: a stone appends its row, a non-stone appends nothing.
pub proof fn lemma_dests_extend(
    b: Board,
    odb: DistanceBoard,
    w: int,
    arrival: Seq<u32>,
    owner_score: Seq<u32>,
    d0: Seq<usize>,
    c0: Seq<u64>,
    d1: Seq<usize>,
    c1: Seq<u64>,
    prevd: Seq<(int, int)>,
    fx: int,
    fy: int,
    tx: int,
    ty: int,
)
    requires
        b.wf(),
        dests_match(b, odb, w, arrival, owner_score, d0, c0, prevd),
        step_target_ok(b, odb, fx, fy, tx, ty) ==> {
            &&& d1.len() == d0.len() + 1
            &&& c1.len() == c0.len() + 1
            &&& d1.drop_last() == d0
            &&& c1.drop_last() == c0
            &&& d1.last() as int == b.idx(tx, ty)
            &&& c1.last() as int == (odb.label(tx, ty)->Dist_0 as int) * w + arrival[b.idx(tx, ty)]
                + owner_score[b.idx(tx, ty)]
        },
        !step_target_ok(b, odb, fx, fy, tx, ty) ==> d1 == d0 && c1 == c0,
    ensures
        dests_match(
            b,
            odb,
            w,
            arrival,
            owner_score,
            d1,
            c1,
            prevd + dir_if_ok(b, odb, fx, fy, tx, ty),
        ),
{
    let stepd = dir_if_ok(b, odb, fx, fy, tx, ty);
    let dirs = prevd + stepd;
    if step_target_ok(b, odb, fx, fy, tx, ty) {
        lemma_row_major_index_in_range(b.width as int, b.height as int, tx, ty);
        lemma_row_major_coords(b.width as int, b.height as int, ty * b.width as int + tx);
        assert forall|t: int|
            0 <= t < dirs.len() implies {
            &&& ((#[trigger] d1[t]) as int) < b.fields@.len()
            &&& d1[t] as int == b.idx(dirs[t].0, dirs[t].1)
            &&& b.fields@[d1[t] as int].x as int == dirs[t].0
            &&& b.fields@[d1[t] as int].y as int == dirs[t].1
            &&& c1[t] as int == (odb.label(dirs[t].0, dirs[t].1)->Dist_0 as int) * w + arrival[d1[t]
                as int] + owner_score[d1[t] as int]
        } by {
            if t < prevd.len() {
                assert(d1[t] == d0[t]);
                assert(c1[t] == c0[t]);
                assert(dirs[t] == prevd[t]);
            } else {
                assert(t == dirs.len() - 1);
                assert(dirs[t] == (tx, ty));
                assert(d1[t] == d1.last());
                assert(c1[t] == c1.last());
            }
        }
    } else {
        assert(dirs =~= prevd);
    }
}

impl SimpleEconomyAgent {
    /// Spread one group's units over its stepping stones: allocate the
    /// cell's units fairly against the effective costs read off the shared
    /// boards, emit one order per stone, and record the arrivals and claimed
    /// ownership.
    #[verifier::rlimit(100)]
    #[verifier::spinoff_prover]
    fn spread_group(
        &self,
        board: &Board,
        opponent_distance_board: &DistanceBoard,
        neutral_distance_board: &DistanceBoard,
        idx: usize,
        dests: Vec<usize>,
        costs: Vec<u64>,
        dirs_g: Ghost<Seq<(int, int)>>,
        r: &mut Vec<Action>,
        arrival: &mut Vec<u32>,
        owner_score: &mut Vec<u32>,
    )
        requires
            board.wf(),
            self.config_wf(),
            opponent_distance_board.wf(),
            opponent_distance_board.width == board.width,
            opponent_distance_board.height == board.height,
            neutral_distance_board.wf(),
            neutral_distance_board.width == board.width,
            neutral_distance_board.height == board.height,
            occupied_by_me(*board, idx as int),
            dests@.len() == costs@.len(),
            dests@.len() > 0,
            dirs_g@ == step_targets(
                *board,
                *opponent_distance_board,
                board.fields@[idx as int].x as int,
                board.fields@[idx as int].y as int,
            ),
            dirs_g@.len() == dests@.len(),
            forall|tt: int|
                0 <= tt < dests@.len() ==> {
                    &&& ((#[trigger] dests@[tt]) as int) < board.fields@.len()
                    &&& dests@[tt] as int == board.idx(dirs_g@[tt].0, dirs_g@[tt].1)
                    &&& board.fields@[dests@[tt] as int].x as int == dirs_g@[tt].0
                    &&& board.fields@[dests@[tt] as int].y as int == dirs_g@[tt].1
                },
            forall|tt: int|
                0 <= tt < dests@.len() ==> (#[trigger] costs@[tt]) as int == step_cost(
                    *self,
                    *board,
                    *opponent_distance_board,
                    old(r)@,
                    dirs_g@[tt].0,
                    dirs_g@[tt].1,
                ),
            forall|tt: int|
                0 <= tt < costs@.len() ==> #[trigger] costs@[tt] <= 0x4000_0000_0000_0000,
            forall|tt: int|
                0 <= tt < dests@.len() ==> dest_entry_ok(
                    *board,
                    *opponent_distance_board,
                    board.fields@[idx as int].x as int,
                    board.fields@[idx as int].y as int,
                    #[trigger] dests@[tt] as int,
                ),
            has_step_target(
                *board,
                *opponent_distance_board,
                board.fields@[idx as int].x as int,
                board.fields@[idx as int].y as int,
            ),
            old(arrival)@.len() == board.fields@.len(),
            old(owner_score)@.len() == board.fields@.len(),
            forall|a: int|
                0 <= a < old(owner_score)@.len() ==> #[trigger] old(owner_score)@[a] <= 1000,
            forall|i3: int|
                0 <= i3 < old(r)@.len() ==> move_step_ok(
                    *board,
                    *opponent_distance_board,
                    *neutral_distance_board,
                    #[trigger] old(r)@[i3],
                ),
            moved_from(
                old(r)@,
                board.fields@[idx as int].x as int,
                board.fields@[idx as int].y as int,
            ) == 0,
            forall|d: int|
                0 <= d < board.fields@.len() ==> (#[trigger] old(arrival)@[d]) as int == arrivals(
                    *board,
                    *opponent_distance_board,
                    old(r)@,
                    board.fields@[d].x as int,
                    board.fields@[d].y as int,
                ),
            forall|d: int|
                0 <= d < board.fields@.len() ==> (#[trigger] old(owner_score)@[d]) as int == bias(
                    *self,
                    *board,
                    *opponent_distance_board,
                    old(r)@,
                    board.fields@[d].x as int,
                    board.fields@[d].y as int,
                ),
            total_moved(old(r)@) + board.fields@[idx as int].num_units <= u32::MAX,
        ensures
            final(arrival)@.len() == old(arrival)@.len(),
            final(owner_score)@.len() == old(owner_score)@.len(),
            forall|a: int|
                0 <= a < final(owner_score)@.len() ==> #[trigger] final(owner_score)@[a] <= 1000,
            forall|i3: int|
                0 <= i3 < final(r)@.len() ==> move_step_ok(
                    *board,
                    *opponent_distance_board,
                    *neutral_distance_board,
                    #[trigger] final(r)@[i3],
                ),
            moved_from(
                final(r)@,
                board.fields@[idx as int].x as int,
                board.fields@[idx as int].y as int,
            ) == board.fields@[idx as int].num_units,
            forall|px: int, py: int|
                !(px == board.fields@[idx as int].x as int && py == board.fields@[idx as int].y
                    as int) ==> #[trigger] moved_from(final(r)@, px, py) == moved_from(
                    old(r)@,
                    px,
                    py,
                ),
            final(r)@.len() >= old(r)@.len(),
            forall|i3: int| 0 <= i3 < old(r)@.len() ==> #[trigger] final(r)@[i3] == old(r)@[i3],
            forall|d: int|
                0 <= d < board.fields@.len() ==> (#[trigger] final(arrival)@[d]) as int == arrivals(
                    *board,
                    *opponent_distance_board,
                    final(r)@,
                    board.fields@[d].x as int,
                    board.fields@[d].y as int,
                ),
            forall|d: int|
                0 <= d < board.fields@.len() ==> (#[trigger] final(owner_score)@[d]) as int == bias(
                    *self,
                    *board,
                    *opponent_distance_board,
                    final(r)@,
                    board.fields@[d].x as int,
                    board.fields@[d].y as int,
                ),
            total_moved(final(r)@) == total_moved(old(r)@) + board.fields@[idx as int].num_units,
            group_chunk_ok(
                *self,
                *board,
                *opponent_distance_board,
                *neutral_distance_board,
                old(r)@,
                final(r)@.skip(old(r)@.len() as int),
                idx as int,
            ),
    {
        proof {
            lemma_row_major_coords(board.width as int, board.height as int, idx as int);
        }
        let f = board.fields[idx];
        let units = f.num_units;
        let ghost chunk_start = r@;
        let ghost w = self.distance_move_weighting as int;
        let ghost fxi = f.x as int;
        let ghost fyi = f.y as int;
        let ghost dirs = dirs_g@;
            let placed = allocate(units, &costs);
            let k2 = dests.len();
            let mut t: usize = 0;
            while t < k2
                invariant
                    board.wf(),
                    self.config_wf(),
                    opponent_distance_board.wf(),
                    opponent_distance_board.width == board.width,
                    opponent_distance_board.height == board.height,
                    arrival@.len() == board.fields@.len(),
                    owner_score@.len() == board.fields@.len(),
                    forall|a: int|
                        0 <= a < owner_score@.len() ==> #[trigger] owner_score@[a] <= 1000,
                    0 <= (idx as int) < board.fields@.len(),
                    f == board.fields@[idx as int],
                    units == f.num_units,
                    fxi == f.x as int,
                    fyi == f.y as int,
                    w == self.distance_move_weighting as int,
                    occupied_by_me(*board, idx as int),
                    board.in_bounds(fxi, fyi),
                    board.idx(fxi, fyi) == idx as int,
                    k2 == dests@.len(),
                    placed@.len() == k2,
                    costs@.len() == k2,
                    sum_placed(placed@) == units,
                    forall|i2: int, j2: int|
                        0 <= i2 < placed@.len() && 0 <= j2 < placed@.len() && placed@[i2] > 0
                            ==> crate::allocation::effective(costs@, placed@, i2)
                            <= crate::allocation::effective(costs@, placed@, j2) + 1,
                    forall|tt: int|
                        0 <= tt < k2 ==> dest_entry_ok(
                            *board,
                            *opponent_distance_board,
                            fxi,
                            fyi,
                            #[trigger] dests@[tt] as int,
                        ),
                    dirs == step_targets(*board, *opponent_distance_board, fxi, fyi),
                    dirs.len() == k2,
                    forall|tt: int|
                        0 <= tt < k2 ==> {
                            &&& ((#[trigger] dests@[tt]) as int) < board.fields@.len()
                            &&& dests@[tt] as int == board.idx(dirs[tt].0, dirs[tt].1)
                            &&& board.fields@[dests@[tt] as int].x as int == dirs[tt].0
                            &&& board.fields@[dests@[tt] as int].y as int == dirs[tt].1
                        },
                    forall|tt: int|
                        0 <= tt < k2 ==> (#[trigger] costs@[tt]) as int == step_cost(
                            *self,
                            *board,
                            *opponent_distance_board,
                            chunk_start,
                            dirs[tt].0,
                            dirs[tt].1,
                        ),
                    t <= k2,
                    has_step_target(*board, *opponent_distance_board, fxi, fyi),
                    moved_from(chunk_start, fxi, fyi) == 0,
                    forall|i3: int|
                        0 <= i3 < r@.len() ==> move_step_ok(
                            *board,
                            *opponent_distance_board,
                            *neutral_distance_board,
                            #[trigger] r@[i3],
                        ),
                    moved_from(r@, fxi, fyi) == sum_placed(placed@.take(t as int)),
                    forall|px: int, py: int|
                        !(px == fxi && py == fyi) ==> #[trigger] moved_from(
                            r@,
                            px,
                            py,
                        ) == moved_from(chunk_start, px, py),
                    r@.len() == chunk_start.len() + t,
                    forall|i3: int|
                        0 <= i3 < chunk_start.len() ==> #[trigger] r@[i3] == chunk_start[i3],
                    forall|u: int|
                        0 <= u < t ==> {
                            &&& (#[trigger] r@[chunk_start.len() + u]) is Move
                            &&& move_from(r@[chunk_start.len() + u]) == (fxi, fyi)
                            &&& move_to(r@[chunk_start.len() + u]) == dirs[u]
                            &&& move_amount(r@[chunk_start.len() + u]) == placed@[u]
                        },
                    total_moved(r@) == total_moved(chunk_start) + sum_placed(
                        placed@.take(t as int),
                    ),
                    total_moved(chunk_start) + units <= u32::MAX,
                    forall|dd: int|
                        0 <= dd < board.fields@.len() ==> (#[trigger] arrival@[dd]) as int
                            == arrivals(
                            *board,
                            *opponent_distance_board,
                            r@,
                            board.fields@[dd].x as int,
                            board.fields@[dd].y as int,
                        ),
                    forall|dd: int|
                        0 <= dd < board.fields@.len() ==> (#[trigger] owner_score@[dd]) as int
                            == bias(
                            *self,
                            *board,
                            *opponent_distance_board,
                            r@,
                            board.fields@[dd].x as int,
                            board.fields@[dd].y as int,
                        ),
                decreases k2 - t,
            {
                let amt = placed[t];
                let d = dests[t];
                proof {
                    assert(dest_entry_ok(
                        *board,
                        *opponent_distance_board,
                        fxi,
                        fyi,
                        dests@[t as int] as int,
                    ));
                    lemma_row_major_coords(
                        board.width as int,
                        board.height as int,
                        dests@[t as int] as int,
                    );
                    lemma_sum_placed_entry_le(placed@, t as int);
                    crate::allocation::lemma_sum_placed_prefix_le(placed@, t + 1);
                    assert(placed@.take(t + 1).drop_last() =~= placed@.take(t as int));
                    assert(placed@.take(t + 1).last() == placed@[t as int]);
                    lemma_arrivals_le_total(
                        *board,
                        *opponent_distance_board,
                        r@,
                        dirs[t as int].0,
                        dirs[t as int].1,
                    );
                    assert((arrival@[d as int]) as int + amt as int <= u32::MAX as int);
                }
                let df = board.fields[d];
                let a = Action::Move { amount: amt, from: (f.x, f.y), to: (df.x, df.y) };
                let ghost r_prev = r@;
                r.push(a);
                let bumped = arrival[d] + amt;
                arrival[d] = bumped;
                if amt > 0 {
                    owner_score[d] = self.movement_own_score;
                }
                proof {
                    assert forall|px: int, py: int| #[trigger] moved_from(r@, px, py)
                        == moved_from(r_prev, px, py) + move_contrib(a, px, py) by {
                        lemma_moved_from_push(r_prev, a, px, py);
                    }
                    lemma_total_moved_push(r_prev, a);
                    assert(move_step_ok(
                        *board,
                        *opponent_distance_board,
                        *neutral_distance_board,
                        a,
                    ));
                    assert forall|i3: int| 0 <= i3 < r@.len() implies move_step_ok(
                        *board,
                        *opponent_distance_board,
                        *neutral_distance_board,
                        #[trigger] r@[i3],
                    ) by {
                        if i3 < r_prev.len() {
                            assert(r@[i3] == r_prev[i3]);
                        }
                    }
                    assert(move_to(a) == dirs[t as int]);
                    assert(arrival_contrib(
                        *board,
                        *opponent_distance_board,
                        a,
                        dirs[t as int].0,
                        dirs[t as int].1,
                    ) == amt as int);
                    assert forall|dd: int|
                        0 <= dd < board.fields@.len() implies (#[trigger] arrival@[dd]) as int
                        == arrivals(
                        *board,
                        *opponent_distance_board,
                        r@,
                        board.fields@[dd].x as int,
                        board.fields@[dd].y as int,
                    ) by {
                        lemma_arrivals_push(
                            *board,
                            *opponent_distance_board,
                            r_prev,
                            a,
                            board.fields@[dd].x as int,
                            board.fields@[dd].y as int,
                        );
                        if dd != d as int {
                            lemma_row_major_coords(board.width as int, board.height as int, dd);
                            if move_to(a) == (board.fields@[dd].x as int, board.fields@[dd].y
                                as int) {
                                assert(board.idx(
                                    board.fields@[dd].x as int,
                                    board.fields@[dd].y as int,
                                ) == dd);
                                assert(board.idx(dirs[t as int].0, dirs[t as int].1) == d as int);
                                assert(false);
                            }
                            assert(arrival_contrib(
                                *board,
                                *opponent_distance_board,
                                a,
                                board.fields@[dd].x as int,
                                board.fields@[dd].y as int,
                            ) == 0);
                        }
                    }
                    assert forall|dd: int|
                        0 <= dd < board.fields@.len() implies (#[trigger] owner_score@[dd]) as int
                        == bias(
                        *self,
                        *board,
                        *opponent_distance_board,
                        r@,
                        board.fields@[dd].x as int,
                        board.fields@[dd].y as int,
                    ) by {
                        lemma_claimed_push(
                            *board,
                            *opponent_distance_board,
                            r_prev,
                            a,
                            board.fields@[dd].x as int,
                            board.fields@[dd].y as int,
                        );
                        if dd != d as int {
                            lemma_row_major_coords(board.width as int, board.height as int, dd);
                            if move_to(a) == (board.fields@[dd].x as int, board.fields@[dd].y
                                as int) {
                                assert(board.idx(
                                    board.fields@[dd].x as int,
                                    board.fields@[dd].y as int,
                                ) == dd);
                                assert(false);
                            }
                            assert(arrival_contrib(
                                *board,
                                *opponent_distance_board,
                                a,
                                board.fields@[dd].x as int,
                                board.fields@[dd].y as int,
                            ) == 0);
                        }
                    }
                    assert forall|u: int| 0 <= u < t + 1 implies {
                        &&& (#[trigger] r@[chunk_start.len() + u]) is Move
                        &&& move_from(r@[chunk_start.len() + u]) == (fxi, fyi)
                        &&& move_to(r@[chunk_start.len() + u]) == dirs[u]
                        &&& move_amount(r@[chunk_start.len() + u]) == placed@[u]
                    } by {
                        if u < t {
                            assert(r@[chunk_start.len() + u] == r_prev[chunk_start.len() + u]);
                        } else {
                            assert(r@[chunk_start.len() + u] == a);
                        }
                    }
                }
                t += 1;
            }
            proof {
                assert(placed@.take(k2 as int) =~= placed@);
                let chunk = r@.skip(chunk_start.len() as int);
                assert(chunk.len() == k2);
                assert forall|u: int| 0 <= u < k2 implies #[trigger] chunk[u] == r@[chunk_start.len()
                    + u] by {}
                assert(r@ =~= chunk_start + chunk);
                lemma_moved_from_concat(chunk_start, chunk, fxi, fyi);
                assert(moved_from(chunk, fxi, fyi) == units);
                assert forall|t2: int, u2: int|
                    0 <= t2 < chunk.len() && 0 <= u2 < chunk.len() && move_amount(
                        #[trigger] chunk[t2],
                    ) > 0 implies step_cost(
                    *self,
                    *board,
                    *opponent_distance_board,
                    chunk_start,
                    dirs[t2].0,
                    dirs[t2].1,
                ) + move_amount(chunk[t2]) <= step_cost(
                    *self,
                    *board,
                    *opponent_distance_board,
                    chunk_start,
                    dirs[u2].0,
                    dirs[u2].1,
                ) + move_amount(#[trigger] chunk[u2]) + 1 by {
                    assert(move_amount(chunk[t2]) == placed@[t2]);
                    assert(move_amount(chunk[u2]) == placed@[u2]);
                    assert(crate::allocation::effective(costs@, placed@, t2)
                        <= crate::allocation::effective(costs@, placed@, u2) + 1);
                }
                assert(group_chunk_ok(
                    *self,
                    *board,
                    *opponent_distance_board,
                    *neutral_distance_board,
                    chunk_start,
                    chunk,
                    idx as int,
                ));
            }
    }

    /// Plan the moves of one unit group: spread the cell's units over its
    /// stepping-stone neighbours by effective cost, or drift toward neutral
    /// ground when the opponent is out of reach. Appends the orders to `r`
    /// and records the arrivals and claimed ownership on the shared boards.
    #[verifier::rlimit(100)]
    #[verifier::spinoff_prover]
    fn plan_group(
        &self,
        board: &Board,
        opponent_distance_board: &DistanceBoard,
        neutral_distance_board: &DistanceBoard,
        idx: usize,
        r: &mut Vec<Action>,
        arrival: &mut Vec<u32>,
        owner_score: &mut Vec<u32>,
    )
        requires
            board.wf(),
            self.config_wf(),
            opponent_distance_board.wf(),
            opponent_distance_board.width == board.width,
            opponent_distance_board.height == board.height,
            neutral_distance_board.wf(),
            neutral_distance_board.width == board.width,
            neutral_distance_board.height == board.height,
            occupied_by_me(*board, idx as int),
            old(arrival)@.len() == board.fields@.len(),
            old(owner_score)@.len() == board.fields@.len(),
            forall|a: int|
                0 <= a < old(owner_score)@.len() ==> #[trigger] old(owner_score)@[a] <= 1000,
            forall|i3: int|
                0 <= i3 < old(r)@.len() ==> move_step_ok(
                    *board,
                    *opponent_distance_board,
                    *neutral_distance_board,
                    #[trigger] old(r)@[i3],
                ),
            moved_from(
                old(r)@,
                board.fields@[idx as int].x as int,
                board.fields@[idx as int].y as int,
            ) == 0,
            forall|d: int|
                0 <= d < board.fields@.len() ==> (#[trigger] old(arrival)@[d]) as int == arrivals(
                    *board,
                    *opponent_distance_board,
                    old(r)@,
                    board.fields@[d].x as int,
                    board.fields@[d].y as int,
                ),
            forall|d: int|
                0 <= d < board.fields@.len() ==> (#[trigger] old(owner_score)@[d]) as int == bias(
                    *self,
                    *board,
                    *opponent_distance_board,
                    old(r)@,
                    board.fields@[d].x as int,
                    board.fields@[d].y as int,
                ),
            total_moved(old(r)@) + board.fields@[idx as int].num_units <= u32::MAX,
        ensures
            final(arrival)@.len() == old(arrival)@.len(),
            final(owner_score)@.len() == old(owner_score)@.len(),
            forall|a: int|
                0 <= a < final(owner_score)@.len() ==> #[trigger] final(owner_score)@[a] <= 1000,
            forall|i3: int|
                0 <= i3 < final(r)@.len() ==> move_step_ok(
                    *board,
                    *opponent_distance_board,
                    *neutral_distance_board,
                    #[trigger] final(r)@[i3],
                ),
            moved_from(
                final(r)@,
                board.fields@[idx as int].x as int,
                board.fields@[idx as int].y as int,
            ) == board.fields@[idx as int].num_units,
            forall|px: int, py: int|
                !(px == board.fields@[idx as int].x as int && py == board.fields@[idx as int].y
                    as int) ==> #[trigger] moved_from(final(r)@, px, py) == moved_from(
                    old(r)@,
                    px,
                    py,
                ),
            final(r)@.len() >= old(r)@.len(),
            forall|i3: int| 0 <= i3 < old(r)@.len() ==> #[trigger] final(r)@[i3] == old(r)@[i3],
            forall|d: int|
                0 <= d < board.fields@.len() ==> (#[trigger] final(arrival)@[d]) as int == arrivals(
                    *board,
                    *opponent_distance_board,
                    final(r)@,
                    board.fields@[d].x as int,
                    board.fields@[d].y as int,
                ),
            forall|d: int|
                0 <= d < board.fields@.len() ==> (#[trigger] final(owner_score)@[d]) as int == bias(
                    *self,
                    *board,
                    *opponent_distance_board,
                    final(r)@,
                    board.fields@[d].x as int,
                    board.fields@[d].y as int,
                ),
            total_moved(final(r)@) == total_moved(old(r)@) + board.fields@[idx as int].num_units,
            group_chunk_ok(
                *self,
                *board,
                *opponent_distance_board,
                *neutral_distance_board,
                old(r)@,
                final(r)@.skip(old(r)@.len() as int),
                idx as int,
            ),
    {
        proof {
            lemma_row_major_coords(board.width as int, board.height as int, idx as int);
        }
        let f = board.fields[idx];
        let units = f.num_units;
        let ghost chunk_start = r@;
        let ghost w = self.distance_move_weighting as int;
        let ghost fxi = f.x as int;
        let ghost fyi = f.y as int;
        let mut dests: Vec<usize> = Vec::new();
        let mut costs: Vec<u64> = Vec::new();
        let ghost mut dirs: Seq<(int, int)> = Seq::empty();
        let ghost d0 = dests@;
        let ghost c0 = costs@;
        if f.y >= 1 {
            consider_move_dest(
                board,
                opponent_distance_board,
                arrival,
                owner_score,
                self.distance_move_weighting,
                f.x,
                f.y,
                f.x,
                f.y - 1,
                &mut dests,
                &mut costs,
            );
        }
        proof {
            if !(f.y >= 1) {
                assert(!step_target_ok(
                    *board,
                    *opponent_distance_board,
                    fxi,
                    fyi,
                    fxi,
                    fyi - 1,
                ));
            }
            lemma_dests_extend(
                *board,
                *opponent_distance_board,
                w,
                arrival@,
                owner_score@,
                d0,
                c0,
                dests@,
                costs@,
                dirs,
                fxi,
                fyi,
                fxi,
                fyi - 1,
            );
            dirs = dirs + dir_if_ok(*board, *opponent_distance_board, fxi, fyi, fxi, fyi - 1);
        }
        let ghost d1 = dests@;
        let ghost c1 = costs@;
        if f.x + 1 < board.width {
            consider_move_dest(
                board,
                opponent_distance_board,
                arrival,
                owner_score,
                self.distance_move_weighting,
                f.x,
                f.y,
                f.x + 1,
                f.y,
                &mut dests,
                &mut costs,
            );
        }
        proof {
            if !(f.x + 1 < board.width) {
                assert(!step_target_ok(
                    *board,
                    *opponent_distance_board,
                    fxi,
                    fyi,
                    fxi + 1,
                    fyi,
                ));
            }
            lemma_dests_extend(
                *board,
                *opponent_distance_board,
                w,
                arrival@,
                owner_score@,
                d1,
                c1,
                dests@,
                costs@,
                dirs,
                fxi,
                fyi,
                fxi + 1,
                fyi,
            );
            dirs = dirs + dir_if_ok(*board, *opponent_distance_board, fxi, fyi, fxi + 1, fyi);
        }
        let ghost d2 = dests@;
        let ghost c2 = costs@;
        if f.y + 1 < board.height {
            consider_move_dest(
                board,
                opponent_distance_board,
                arrival,
                owner_score,
                self.distance_move_weighting,
                f.x,
                f.y,
                f.x,
                f.y + 1,
                &mut dests,
                &mut costs,
            );
        }
        proof {
            if !(f.y + 1 < board.height) {
                assert(!step_target_ok(
                    *board,
                    *opponent_distance_board,
                    fxi,
                    fyi,
                    fxi,
                    fyi + 1,
                ));
            }
            lemma_dests_extend(
                *board,
                *opponent_distance_board,
                w,
                arrival@,
                owner_score@,
                d2,
                c2,
                dests@,
                costs@,
                dirs,
                fxi,
                fyi,
                fxi,
                fyi + 1,
            );
            dirs = dirs + dir_if_ok(*board, *opponent_distance_board, fxi, fyi, fxi, fyi + 1);
        }
        let ghost d3 = dests@;
        let ghost c3 = costs@;
        if f.x >= 1 {
            consider_move_dest(
                board,
                opponent_distance_board,
                arrival,
                owner_score,
                self.distance_move_weighting,
                f.x,
                f.y,
                f.x - 1,
                f.y,
                &mut dests,
                &mut costs,
            );
        }
        proof {
            if !(f.x >= 1) {
                assert(!step_target_ok(
                    *board,
                    *opponent_distance_board,
                    fxi,
                    fyi,
                    fxi - 1,
                    fyi,
                ));
            }
            lemma_dests_extend(
                *board,
                *opponent_distance_board,
                w,
                arrival@,
                owner_score@,
                d3,
                c3,
                dests@,
                costs@,
                dirs,
                fxi,
                fyi,
                fxi - 1,
                fyi,
            );
            dirs = dirs + dir_if_ok(*board, *opponent_distance_board, fxi, fyi, fxi - 1, fyi);
            assert(dirs =~= step_targets(*board, *opponent_distance_board, fxi, fyi));
            assert(dests_match(
                *board,
                *opponent_distance_board,
                w,
                arrival@,
                owner_score@,
                dests@,
                costs@,
                dirs,
            ));
            assert((costs@.len() > 0) == has_step_target(
                *board,
                *opponent_distance_board,
                fxi,
                fyi,
            ));
            assert forall|t: int| 0 <= t < dirs.len() implies #[trigger] costs@[t] as int
                == step_cost(*self, *board, *opponent_distance_board, chunk_start, dirs[t].0, dirs[t].1) by {
                let dd = dests@[t] as int;
                assert(arrival@[dd] as int == arrivals(
                    *board,
                    *opponent_distance_board,
                    chunk_start,
                    board.fields@[dd].x as int,
                    board.fields@[dd].y as int,
                ));
                assert(owner_score@[dd] as int == bias(
                    *self,
                    *board,
                    *opponent_distance_board,
                    chunk_start,
                    board.fields@[dd].x as int,
                    board.fields@[dd].y as int,
                ));
            }
        }
        if costs.len() > 0 {
            self.spread_group(
                board,
                opponent_distance_board,
                neutral_distance_board,
                idx,
                dests,
                costs,
                Ghost(dirs),
                r,
                arrival,
                owner_score,
            );
        } else {
            let dir_flags = neutral_distance_board.towards(f.x, f.y, Ordering::Less);
            let to: (u32, u32) = if dir_flags[0] {
                (f.x, f.y - 1)
            } else if dir_flags[1] {
                (f.x + 1, f.y)
            } else if dir_flags[2] {
                (f.x, f.y + 1)
            } else if dir_flags[3] {
                (f.x - 1, f.y)
            } else {
                (f.x, f.y)
            };
            let a = Action::Move { amount: units, from: (f.x, f.y), to };
            let ghost r_prev = r@;
            r.push(a);
            proof {
                if dir_flags[0] {
                    assert(neutral_distance_board.direction_matches(
                        f.x as int,
                        f.y as int,
                        0,
                        Ordering::Less,
                    ));
                    assert(board.in_bounds(f.x as int, f.y as int - 1));
                } else if dir_flags[1] {
                    assert(neutral_distance_board.direction_matches(
                        f.x as int,
                        f.y as int,
                        1,
                        Ordering::Less,
                    ));
                    assert(board.in_bounds(f.x as int + 1, f.y as int));
                } else if dir_flags[2] {
                    assert(neutral_distance_board.direction_matches(
                        f.x as int,
                        f.y as int,
                        2,
                        Ordering::Less,
                    ));
                    assert(board.in_bounds(f.x as int, f.y as int + 1));
                } else if dir_flags[3] {
                    assert(neutral_distance_board.direction_matches(
                        f.x as int,
                        f.y as int,
                        3,
                        Ordering::Less,
                    ));
                    assert(board.in_bounds(f.x as int - 1, f.y as int));
                }
                assert forall|px: int, py: int| #[trigger] moved_from(r@, px, py) == moved_from(
                    r_prev,
                    px,
                    py,
                ) + move_contrib(a, px, py) by {
                    lemma_moved_from_push(r_prev, a, px, py);
                }
                assert(!has_step_target(
                    *board,
                    *opponent_distance_board,
                    f.x as int,
                    f.y as int,
                ));
                assert((move_to(a).0, move_to(a).1) == fallback_to(
                    *board,
                    *neutral_distance_board,
                    f.x as int,
                    f.y as int,
                ));
                assert(move_step_ok(
                    *board,
                    *opponent_distance_board,
                    *neutral_distance_board,
                    a,
                ));
                assert forall|i3: int| 0 <= i3 < r@.len() implies move_step_ok(
                    *board,
                    *opponent_distance_board,
                    *neutral_distance_board,
                    #[trigger] r@[i3],
                ) by {
                    if i3 < r_prev.len() {
                        assert(r@[i3] == r_prev[i3]);
                    }
                }
                lemma_total_moved_push(r_prev, a);
                assert forall|dd: int|
                    0 <= dd < board.fields@.len() implies (#[trigger] arrival@[dd]) as int
                    == arrivals(
                    *board,
                    *opponent_distance_board,
                    r@,
                    board.fields@[dd].x as int,
                    board.fields@[dd].y as int,
                ) by {
                    lemma_arrivals_push(
                        *board,
                        *opponent_distance_board,
                        r_prev,
                        a,
                        board.fields@[dd].x as int,
                        board.fields@[dd].y as int,
                    );
                    assert(arrival_contrib(
                        *board,
                        *opponent_distance_board,
                        a,
                        board.fields@[dd].x as int,
                        board.fields@[dd].y as int,
                    ) == 0);
                }
                assert forall|dd: int|
                    0 <= dd < board.fields@.len() implies (#[trigger] owner_score@[dd]) as int
                    == bias(
                    *self,
                    *board,
                    *opponent_distance_board,
                    r@,
                    board.fields@[dd].x as int,
                    board.fields@[dd].y as int,
                ) by {
                    lemma_claimed_push(
                        *board,
                        *opponent_distance_board,
                        r_prev,
                        a,
                        board.fields@[dd].x as int,
                        board.fields@[dd].y as int,
                    );
                    assert(arrival_contrib(
                        *board,
                        *opponent_distance_board,
                        a,
                        board.fields@[dd].x as int,
                        board.fields@[dd].y as int,
                    ) == 0);
                }
                let chunk = r@.skip(chunk_start.len() as int);
                assert(chunk =~= seq![a]);
                assert(chunk[0] == a);
                assert(group_chunk_ok(
                    *self,
                    *board,
                    *opponent_distance_board,
                    *neutral_distance_board,
                    chunk_start,
                    chunk,
                    idx as int,
                ));
            }
        }
    }

    /// Move every unit group toward the opponent: each group's units are
    /// spread over its stepping-stone neighbours by effective cost, closest
    /// groups planning first, with arrival counts and ownership bias shared
    /// across groups so simultaneous moves do not all pile onto one
    /// destination. A group that cannot reach the opponent drifts toward
    /// neutral ground instead, or stays put.
    #[verifier::rlimit(100)]
    #[verifier::spinoff_prover]
    pub fn move_robots(&self, board: &Board, opponent_distance_board: &DistanceBoard) -> (r: Vec<
        Action,
    >)
        requires
            board.wf(),
            self.config_wf(),
            opponent_distance_board.wf(),
            opponent_distance_board.width == board.width,
            opponent_distance_board.height == board.height,
            crate::board::sum_units(board.fields@, Owner::Me) <= u32::MAX,
        ensures
            moves_ok(*self, *board, *opponent_distance_board, r@),
    {
        let n = board.fields.len();
        let neutral_distance_board = DistanceBoard::from_owner(board, Owner::Neutral);
        let mut arrival: Vec<u32> = Vec::new();
        let mut owner_score: Vec<u32> = Vec::new();
        let mut z: usize = 0;
        while z < n
            invariant
                board.wf(),
                n == board.fields@.len(),
                z <= n,
                arrival@.len() == z,
                owner_score@.len() == z,
                forall|a: int| 0 <= a < z ==> #[trigger] owner_score@[a] <= 1000,
                forall|a: int| 0 <= a < z ==> #[trigger] arrival@[a] == 0,
                forall|a: int|
                    0 <= a < z ==> (#[trigger] owner_score@[a]) as int == base_bias(
                        *board,
                        board.fields@[a].x as int,
                        board.fields@[a].y as int,
                    ),
            decreases n - z,
        {
            arrival.push(0);
            let f = &board.fields[z];
            proof {
                lemma_row_major_coords(board.width as int, board.height as int, z as int);
            }
            let bias: u32 = match f.owner {
                Owner::Me => 5,
                Owner::Neutral => 1,
                Owner::Opponent => 0,
            };
            owner_score.push(bias);
            z += 1;
        }
        let mut groups: Vec<(u64, usize)> = Vec::new();
        let mut i: usize = 0;
        while i < n
            invariant
                board.wf(),
                opponent_distance_board.wf(),
                opponent_distance_board.width == board.width,
                opponent_distance_board.height == board.height,
                n == board.fields@.len(),
                i <= n,
                forall|a: int|
                    0 <= a < groups@.len() ==> group_ok(
                        *board,
                        *opponent_distance_board,
                        #[trigger] groups@[a],
                    ),
                forall|a: int| 0 <= a < groups@.len() ==> (#[trigger] groups@[a]).1 < i,
                crate::sorting::distinct_indices(groups@),
                forall|j: int|
                    0 <= j < i && #[trigger] occupied_by_me(*board, j) ==> groups@.contains(
                        ((group_key(*board, *opponent_distance_board, j)) as u64, j as usize),
                    ),
            decreases n - i,
        {
            let f = board.fields[i];
            proof {
                lemma_row_major_coords(board.width as int, board.height as int, i as int);
            }
            let ghost before = groups@;
            if f.owner == Owner::Me && f.num_units > 0 {
                let l = *opponent_distance_board.get_field(f.x, f.y).unwrap();
                let key: u64 = match l {
                    ManhattanDistance::Dist(d) => d as u64,
                    ManhattanDistance::Unreachable => 0x1_0000_0000u64,
                };
                groups.push((key, i));
                proof {
                    assert(groups@.last() == ((group_key(*board, *opponent_distance_board, i as int))
                        as u64, i as usize));
                }
            }
            proof {
                assert forall|j: int|
                    0 <= j < i + 1 && #[trigger] occupied_by_me(*board, j) implies groups@.contains(
                    ((group_key(*board, *opponent_distance_board, j)) as u64, j as usize),
                ) by {
                    if j < i {
                        let v = ((group_key(*board, *opponent_distance_board, j)) as u64, j
                            as usize);
                        let a0 = choose|a: int| 0 <= a < before.len() && before[a] == v;
                        assert(groups@[a0] == v);
                    } else {
                        assert(groups@.last() == ((group_key(*board, *opponent_distance_board, j))
                            as u64, j as usize));
                    }
                }
            }
            i += 1;
        }
        let ghost unsorted = groups@;
        sort_pairs(&mut groups);
        proof {
            broadcast use vstd::seq_lib::group_to_multiset_ensures;

            assert forall|a: int| 0 <= a < groups@.len() implies group_ok(
                *board,
                *opponent_distance_board,
                #[trigger] groups@[a],
            ) by {
                assert(groups@.contains(groups@[a]));
                assert(unsorted.to_multiset().count(groups@[a]) > 0);
                assert(unsorted.contains(groups@[a]));
            }
            crate::sorting::lemma_permutation_keeps_distinct_indices(unsorted, groups@);
            assert forall|j: int| #[trigger] occupied_by_me(*board, j) implies groups@.contains(
                ((group_key(*board, *opponent_distance_board, j)) as u64, j as usize),
            ) by {
                let v = ((group_key(*board, *opponent_distance_board, j)) as u64, j as usize);
                assert(unsorted.contains(v));
                assert(groups@.to_multiset().count(v) > 0);
            }
        }
        let mut r: Vec<Action> = Vec::new();
        let mut gi: usize = 0;
        let ghost mut bounds: Seq<int> = seq![0int];
        proof {
            assert(groups@.take(0) =~= Seq::<(u64, usize)>::empty());
        }
        while gi < groups.len()
            invariant
                board.wf(),
                self.config_wf(),
                opponent_distance_board.wf(),
                opponent_distance_board.width == board.width,
                opponent_distance_board.height == board.height,
                neutral_distance_board.wf(),
                neutral_distance_board.width == board.width,
                neutral_distance_board.height == board.height,
                n == board.fields@.len(),
                crate::board::sum_units(board.fields@, Owner::Me) <= u32::MAX,
                arrival@.len() == n,
                owner_score@.len() == n,
                forall|a: int| 0 <= a < n ==> #[trigger] owner_score@[a] <= 1000,
                gi <= groups@.len(),
                forall|a: int|
                    0 <= a < groups@.len() ==> group_ok(
                        *board,
                        *opponent_distance_board,
                        #[trigger] groups@[a],
                    ),
                crate::sorting::distinct_indices(groups@),
                crate::sorting::sorted_by_key(groups@),
                forall|j: int|
                    #[trigger] occupied_by_me(*board, j) ==> groups@.contains(
                        ((group_key(*board, *opponent_distance_board, j)) as u64, j as usize),
                    ),
                forall|i3: int|
                    0 <= i3 < r@.len() ==> move_step_ok(
                        *board,
                        *opponent_distance_board,
                        neutral_distance_board,
                        #[trigger] r@[i3],
                    ),
                forall|a: int|
                    0 <= a < gi ==> #[trigger] moved_from(
                        r@,
                        board.fields@[groups@[a].1 as int].x as int,
                        board.fields@[groups@[a].1 as int].y as int,
                    ) == board.fields@[groups@[a].1 as int].num_units,
                forall|j: int|
                    #[trigger] occupied_by_me(*board, j) && !(exists|a: int|
                        0 <= a < gi && (#[trigger] groups@[a]).1 == j) ==> moved_from(
                        r@,
                        board.fields@[j].x as int,
                        board.fields@[j].y as int,
                    ) == 0,
                forall|dd: int|
                    0 <= dd < n ==> (#[trigger] arrival@[dd]) as int == arrivals(
                        *board,
                        *opponent_distance_board,
                        r@,
                        board.fields@[dd].x as int,
                        board.fields@[dd].y as int,
                    ),
                forall|dd: int|
                    0 <= dd < n ==> (#[trigger] owner_score@[dd]) as int == bias(
                        *self,
                        *board,
                        *opponent_distance_board,
                        r@,
                        board.fields@[dd].x as int,
                        board.fields@[dd].y as int,
                    ),
                total_moved(r@) == group_units(board.fields@, groups@.take(gi as int)),
                bounds.len() == gi + 1,
                bounds[0] == 0,
                bounds[gi as int] == r@.len(),
                forall|a: int| 0 <= a <= gi ==> 0 <= #[trigger] bounds[a] <= r@.len(),
                forall|a: int| 0 <= a < gi ==> #[trigger] bounds[a] <= bounds[a + 1],
                forall|a: int|
                    0 <= a < gi ==> group_chunk_ok(
                        *self,
                        *board,
                        *opponent_distance_board,
                        neutral_distance_board,
                        r@.take(bounds[a]),
                        r@.subrange(bounds[a], bounds[a + 1]),
                        (#[trigger] groups@[a]).1 as int,
                    ),
            decreases groups@.len() - gi,
        {
            let (_key, idx) = groups[gi];
            proof {
                assert(group_ok(*board, *opponent_distance_board, groups@[gi as int]));
                lemma_row_major_coords(board.width as int, board.height as int, idx as int);
                if exists|a: int| 0 <= a < gi && (#[trigger] groups@[a]).1 == idx {
                    let a0 = choose|a: int| 0 <= a < gi && (#[trigger] groups@[a]).1 == idx;
                    assert(groups@[a0].1 != groups@[gi as int].1);
                }
                let taken = groups@.take(gi + 1);
                assert(taken.drop_last() =~= groups@.take(gi as int));
                assert(taken.last() == groups@[gi as int]);
                assert forall|a: int|
                    0 <= a < taken.len() implies 0 <= ((#[trigger] taken[a]).1 as int)
                    < board.fields@.len() && board.fields@[(taken[a]).1 as int].owner
                    == Owner::Me by {
                    assert(taken[a] == groups@[a]);
                    assert(group_ok(*board, *opponent_distance_board, groups@[a]));
                }
                assert forall|a: int, c: int|
                    0 <= a < c < taken.len() implies (#[trigger] taken[a]).1 != (
                #[trigger] taken[c]).1 by {
                    assert(taken[a] == groups@[a] && taken[c] == groups@[c]);
                }
                lemma_group_units_le_sum(board.fields@, taken);
                assert(group_units(board.fields@, taken) == total_moved(r@)
                    + board.fields@[idx as int].num_units);
            }
            let ghost r_entry = r@;
            self.plan_group(
                board,
                opponent_distance_board,
                &neutral_distance_board,
                idx,
                &mut r,
                &mut arrival,
                &mut owner_score,
            );
            proof {
                let bprev = bounds;
                bounds = bprev.push(r@.len() as int);
                assert forall|a: int| 0 <= a <= gi implies #[trigger] bounds[a] == bprev[a] by {}
                assert(r@.take(r_entry.len() as int) =~= r_entry);
                assert forall|a: int| 0 <= a < gi implies group_chunk_ok(
                    *self,
                    *board,
                    *opponent_distance_board,
                    neutral_distance_board,
                    r@.take(bounds[a]),
                    r@.subrange(bounds[a], bounds[a + 1]),
                    ((#[trigger] groups@[a]).1) as int,
                ) by {
                    assert(bounds[a] == bprev[a] && bounds[a + 1] == bprev[a + 1]);
                    assert(r@.take(bprev[a]) =~= r_entry.take(bprev[a]));
                    assert(r@.subrange(bprev[a], bprev[a + 1]) =~= r_entry.subrange(
                        bprev[a],
                        bprev[a + 1],
                    ));
                }
                assert(r@.subrange(r_entry.len() as int, r@.len() as int) =~= r@.skip(
                    r_entry.len() as int,
                ));
                assert(group_chunk_ok(
                    *self,
                    *board,
                    *opponent_distance_board,
                    neutral_distance_board,
                    r@.take(bounds[gi as int]),
                    r@.subrange(bounds[gi as int], bounds[gi as int + 1]),
                    idx as int,
                ));
                assert(groups@.take(gi + 1).drop_last() =~= groups@.take(gi as int));
                assert(total_moved(r@) == group_units(board.fields@, groups@.take(gi + 1)));
                let fx = board.fields@[idx as int].x as int;
                let fy = board.fields@[idx as int].y as int;
                assert forall|a: int| 0 <= a < gi + 1 implies #[trigger] moved_from(
                    r@,
                    board.fields@[groups@[a].1 as int].x as int,
                    board.fields@[groups@[a].1 as int].y as int,
                ) == board.fields@[groups@[a].1 as int].num_units by {
                    if a < gi {
                        assert(group_ok(*board, *opponent_distance_board, groups@[a]));
                        let oidx = groups@[a].1 as int;
                        assert(oidx != idx as int);
                        lemma_row_major_coords(board.width as int, board.height as int, oidx);
                        assert(!(board.fields@[oidx].x as int == fx && board.fields@[oidx].y as int
                            == fy));
                    }
                }
                assert forall|j: int|
                    #[trigger] occupied_by_me(*board, j) && !(exists|a: int|
                        0 <= a < gi + 1 && (#[trigger] groups@[a]).1 == j) implies moved_from(
                    r@,
                    board.fields@[j].x as int,
                    board.fields@[j].y as int,
                ) == 0 by {
                    assert(groups@[gi as int].1 == j ==> (exists|a: int|
                        0 <= a < gi + 1 && (#[trigger] groups@[a]).1 == j));
                    assert(j != idx as int);
                    lemma_row_major_coords(board.width as int, board.height as int, j);
                    assert(!(board.fields@[j].x as int == fx && board.fields@[j].y as int == fy));
                    assert(!(exists|a: int| 0 <= a < gi && (#[trigger] groups@[a]).1 == j));
                }
            }
            gi += 1;
        }
        proof {
            assert forall|x: int, y: int|
                board.in_bounds(x, y) && board.cell(x, y).owner == Owner::Me && board.cell(
                    x,
                    y,
                ).num_units > 0 implies #[trigger] moved_from(r@, x, y) == board.cell(
                x,
                y,
            ).num_units by {
                lemma_row_major_index_in_range(board.width as int, board.height as int, x, y);
                let j = y * (board.width as int) + x;
                lemma_row_major_coords(board.width as int, board.height as int, j);
                assert(occupied_by_me(*board, j));
                let v = ((group_key(*board, *opponent_distance_board, j)) as u64, j as usize);
                assert(groups@.contains(v));
                let a0 = choose|a: int| 0 <= a < groups@.len() && groups@[a] == v;
                assert(moved_from(
                    r@,
                    board.fields@[groups@[a0].1 as int].x as int,
                    board.fields@[groups@[a0].1 as int].y as int,
                ) == board.fields@[groups@[a0].1 as int].num_units);
            }
            assert(moves_phase_ok(
                *board,
                *opponent_distance_board,
                neutral_distance_board,
                r@,
            ));
            assert(groups@.take(groups@.len() as int) =~= groups@);
            assert(move_plan_ok(
                *self,
                *board,
                *opponent_distance_board,
                neutral_distance_board,
                groups@,
                bounds,
                r@,
            ));
            assert(moves_ok(*self, *board, *opponent_distance_board, r@));
        }
        r
    }
}

} // verus!
