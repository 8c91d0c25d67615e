//! The policy layer: an agent turns one board snapshot into the turn's
//! actions. `SimpleEconomyAgent` tries to keep more value in matter and
//! units on the board than the opponent while pushing its units toward
//! enemy territory: it moves every unit, builds recyclers while its material
//! score trails, and spends the rest of its matter on spawns.

use vstd::prelude::*;

use crate::action::Action;
use crate::allocation::{allocate, sum_placed};
use crate::board::{
    lemma_row_major_coords, lemma_row_major_index_in_range, sum_units, Board,
};
use crate::distance_board::{labels_correct, DistanceBoard, ManhattanDistance};
use crate::movement::moves_ok;
use crate::owner::Owner;
use crate::recycler_range_board::{covered_by, RecyclerRangeBoard};
use crate::sorting::sort_pairs;
use crate::yield_board::{yield_with, yield_without, YieldBoard};

verus! {

/// A per-turn decision maker: a board snapshot in, the turn's actions out.
/// Each implementation says through `planning_req` what it needs of the
/// snapshot and through `actions_ens` what its actions guarantee.
pub trait Agent {
    spec fn planning_req(&self, board: &Board) -> bool;

    spec fn actions_ens(&self, board: &Board, r: Seq<Action>) -> bool;

    fn generate_actions(&mut self, board: Board) -> (r: Vec<Action>)
        requires
            old(self).planning_req(&board),
        ensures
            old(self).actions_ens(&board, r@),
    ;
}

/// The integer-weight configuration of the economy policy. The mining
/// discount is a percentage: a projected harvest counts at
/// `expected_mining_discount` percent of its face value.
pub struct SimpleEconomyAgent {
    pub min_scrap_lead: i32,
    pub recycler_min_score: i32,
    pub expected_mining_discount: u32,
    pub distance_move_weighting: u32,
    pub distance_mine_weighting: i32,
    pub recycler_robot_adjacency_weight: u32,
    pub movement_own_score: u32,
    pub movement_neutral_score: u32,
    pub movement_opponent_score: u32,
}

/// The total yield of the cells carrying `o`'s recyclers, over the first `n`
/// cells of the board.
pub open spec fn recycler_yield_total(b: Board, o: Owner, n: int) -> int
    decreases n,
{
    if n <= 0 {
        0
    } else {
        recycler_yield_total(b, o, n - 1) + (if b.fields@[n - 1].has_recycler && b.fields@[n
            - 1].owner == o {
            yield_without(b, b.fields@[n - 1].x as int, b.fields@[n - 1].y as int)
        } else {
            0
        })
    }
}

/// A cell's yield estimate is never negative.
pub proof fn lemma_yield_without_nonneg(b: Board, x: int, y: int)
    requires
        b.wf(),
        b.in_bounds(x, y),
    ensures
        yield_without(b, x, y) >= 0,
{
    crate::yield_board::lemma_yield_terms_nonneg(b, x, y);
}

/// The recycler yield total grows with the prefix length.
pub proof fn lemma_recycler_yield_total_prefix(b: Board, o: Owner, n: int)
    requires
        b.wf(),
        0 <= n <= b.fields@.len(),
    ensures
        0 <= recycler_yield_total(b, o, n) <= recycler_yield_total(b, o, b.fields@.len() as int),
    decreases b.fields@.len() - n,
{
    if n == b.fields@.len() {
        lemma_recycler_yield_total_nonneg(b, o, n);
    } else {
        lemma_recycler_yield_total_prefix(b, o, n + 1);
        lemma_recycler_yield_total_nonneg(b, o, n);
        if b.fields@[n].has_recycler && b.fields@[n].owner == o {
            lemma_row_major_coords(b.width as int, b.height as int, n);
            lemma_yield_without_nonneg(b, b.fields@[n].x as int, b.fields@[n].y as int);
        }
    }
}

/// The recycler yield total is never negative.
pub proof fn lemma_recycler_yield_total_nonneg(b: Board, o: Owner, n: int)
    requires
        b.wf(),
        n <= b.fields@.len(),
    ensures
        recycler_yield_total(b, o, n) >= 0,
    decreases n,
{
    if n > 0 {
        lemma_recycler_yield_total_nonneg(b, o, n - 1);
        if b.fields@[n - 1].has_recycler && b.fields@[n - 1].owner == o {
            lemma_row_major_coords(b.width as int, b.height as int, n - 1);
            lemma_yield_without_nonneg(b, b.fields@[n - 1].x as int, b.fields@[n - 1].y as int);
        }
    }
}

/// The stored yields of the cells carrying `o`'s recyclers, over the first
/// `n` cells of the board, read off a yield layer.
pub open spec fn stored_recycler_yield_total(b: Board, yb: YieldBoard, o: Owner, n: int) -> int
    decreases n,
{
    if n <= 0 {
        0
    } else {
        stored_recycler_yield_total(b, yb, o, n - 1) + (if b.fields@[n - 1].has_recycler
            && b.fields@[n - 1].owner == o {
            yb.value(b.fields@[n - 1].x as int, b.fields@[n - 1].y as int)
        } else {
            0
        })
    }
}

/// Every entry a stored total can pick up is a counter, never negative.
pub proof fn lemma_stored_recycler_yield_nonneg(b: Board, yb: YieldBoard, o: Owner, n: int)
    requires
        b.wf(),
        yb.wf(),
        yb.width == b.width,
        yb.height == b.height,
        n <= b.fields@.len(),
    ensures
        stored_recycler_yield_total(b, yb, o, n) >= 0,
    decreases n,
{
    if n > 0 {
        lemma_stored_recycler_yield_nonneg(b, yb, o, n - 1);
        if b.fields@[n - 1].has_recycler && b.fields@[n - 1].owner == o {
            lemma_row_major_coords(b.width as int, b.height as int, n - 1);
            lemma_row_major_index_in_range(
                b.width as int,
                b.height as int,
                b.fields@[n - 1].x as int,
                b.fields@[n - 1].y as int,
            );
        }
    }
}

/// The stored total grows with the prefix length.
pub proof fn lemma_stored_recycler_yield_prefix(b: Board, yb: YieldBoard, o: Owner, n: int)
    requires
        b.wf(),
        yb.wf(),
        yb.width == b.width,
        yb.height == b.height,
        0 <= n <= b.fields@.len(),
    ensures
        0 <= stored_recycler_yield_total(b, yb, o, n) <= stored_recycler_yield_total(
            b,
            yb,
            o,
            b.fields@.len() as int,
        ),
    decreases b.fields@.len() - n,
{
    lemma_stored_recycler_yield_nonneg(b, yb, o, n);
    if n < b.fields@.len() {
        lemma_stored_recycler_yield_prefix(b, yb, o, n + 1);
        if b.fields@[n].has_recycler && b.fields@[n].owner == o {
            lemma_row_major_coords(b.width as int, b.height as int, n);
            lemma_row_major_index_in_range(
                b.width as int,
                b.height as int,
                b.fields@[n].x as int,
                b.fields@[n].y as int,
            );
        }
    }
}

/// On a layer that stores the without-recycling yields, the stored recycler
/// total is the projected harvest itself.
pub proof fn lemma_stored_total_is_projected_harvest(b: Board, yb: YieldBoard, o: Owner, n: int)
    requires
        b.wf(),
        n <= b.fields@.len(),
        forall|x: int, y: int|
            b.in_bounds(x, y) ==> #[trigger] yb.value(x, y) == yield_without(b, x, y),
    ensures
        stored_recycler_yield_total(b, yb, o, n) == recycler_yield_total(b, o, n),
    decreases n,
{
    if n > 0 {
        lemma_stored_total_is_projected_harvest(b, yb, o, n - 1);
        if b.fields@[n - 1].has_recycler && b.fields@[n - 1].owner == o {
            lemma_row_major_coords(b.width as int, b.height as int, n - 1);
        }
    }
}

/// The matter a player's existing recyclers are projected to harvest: the
/// yield layer's entry for each cell carrying one of their recyclers,
/// summed.
pub fn expected_yield(board: &Board, yield_board: &YieldBoard, owner: Owner) -> (r: u32)
    requires
        board.wf(),
        yield_board.wf(),
        yield_board.width == board.width,
        yield_board.height == board.height,
        stored_recycler_yield_total(*board, *yield_board, owner, board.fields@.len() as int)
            <= u32::MAX,
    ensures
        r == stored_recycler_yield_total(
            *board,
            *yield_board,
            owner,
            board.fields@.len() as int,
        ),
{
    let n = board.fields.len();
    let mut acc: u32 = 0;
    let mut i: usize = 0;
    while i < n
        invariant
            board.wf(),
            yield_board.wf(),
            yield_board.width == board.width,
            yield_board.height == board.height,
            stored_recycler_yield_total(*board, *yield_board, owner, n as int) <= u32::MAX,
            n == board.fields@.len(),
            i <= n,
            acc == stored_recycler_yield_total(*board, *yield_board, owner, i as int),
        decreases n - i,
    {
        let f = board.fields[i];
        proof {
            lemma_row_major_coords(board.width as int, board.height as int, i as int);
            lemma_stored_recycler_yield_prefix(*board, *yield_board, owner, i + 1);
        }
        if f.has_recycler && f.owner == owner {
            let v = *yield_board.get_field(f.x, f.y).unwrap();
            acc = acc + v;
        }
        i += 1;
    }
    acc
}

impl SimpleEconomyAgent {
    /// Sane weights: every configured weight and threshold is small, so
    /// score arithmetic stays far from the integer limits.
    pub open spec fn config_wf(self) -> bool {
        &&& self.expected_mining_discount <= 1000
        &&& self.distance_move_weighting <= 1000
        &&& self.recycler_robot_adjacency_weight <= 1000
        &&& self.movement_own_score <= 1000
        &&& self.movement_neutral_score <= 1000
        &&& self.movement_opponent_score <= 1000
        &&& -1000000 <= self.min_scrap_lead <= 1000000
        &&& -1000000 <= self.recycler_min_score <= 1000000
        &&& -1000000 <= self.distance_mine_weighting <= 1000000
    }

    /// What planning needs of a snapshot: a well-formed board whose derived
    /// sums all fit the machine integers they are computed in.
    pub open spec fn board_ready(self, b: Board) -> bool {
        &&& b.wf()
        &&& sum_units(b.fields@, Owner::Me) <= u32::MAX
        &&& sum_units(b.fields@, Owner::Opponent) <= u32::MAX
        &&& forall|x: int, y: int| b.in_bounds(x, y) ==> yield_without(b, x, y) <= u32::MAX
        &&& forall|x: int, y: int| b.in_bounds(x, y) ==> yield_with(b, x, y) <= u32::MAX
        &&& forall|x: int, y: int|
            b.in_bounds(x, y) ==> b.adj_units(x, y, Owner::Opponent) <= u32::MAX
        &&& recycler_yield_total(b, Owner::Me, b.fields@.len() as int) <= u32::MAX
        &&& recycler_yield_total(b, Owner::Opponent, b.fields@.len() as int) <= u32::MAX
    }

    /// Runtime check for `config_wf`, so unverified startup code can reject
    /// a bad configuration before planning.
    pub fn config_ok(&self) -> (r: bool)
        ensures
            r == self.config_wf(),
    {
        self.expected_mining_discount <= 1000 && self.distance_move_weighting <= 1000
            && self.recycler_robot_adjacency_weight <= 1000 && self.movement_own_score <= 1000
            && self.movement_neutral_score <= 1000 && self.movement_opponent_score <= 1000
            && -1000000 <= self.min_scrap_lead && self.min_scrap_lead <= 1000000 && -1000000
            <= self.recycler_min_score && self.recycler_min_score <= 1000000 && -1000000
            <= self.distance_mine_weighting && self.distance_mine_weighting <= 1000000
    }

    /// Runtime check for `board_ready`, so unverified input handling can
    /// reject a snapshot whose derived sums would overflow before planning
    /// starts.
    #[verifier::rlimit(100)]
    #[verifier::spinoff_prover]
    pub fn board_ready_check(&self, board: &Board) -> (r: bool)
        ensures
            r == self.board_ready(*board),
    {
        if !board.wf_check() {
            return false;
        }
        let n = board.fields.len();
        let mut me_sum: u64 = 0;
        let mut opp_sum: u64 = 0;
        let mut i: usize = 0;
        while i < n
            invariant
                board.wf(),
                n == board.fields@.len(),
                i <= n,
                me_sum == sum_units(board.fields@.take(i as int), Owner::Me),
                opp_sum == sum_units(board.fields@.take(i as int), Owner::Opponent),
                me_sum <= u32::MAX,
                opp_sum <= u32::MAX,
            decreases n - i,
        {
            let f = board.fields[i];
            proof {
                assert(board.fields@.take(i + 1).drop_last() =~= board.fields@.take(i as int));
                assert(board.fields@.take(i + 1).last() == board.fields@[i as int]);
            }
            if f.owner == Owner::Me {
                me_sum = me_sum + f.num_units as u64;
            } else if f.owner == Owner::Opponent {
                opp_sum = opp_sum + f.num_units as u64;
            }
            if me_sum > u32::MAX as u64 {
                proof {
                    crate::board::lemma_sum_units_prefix_le(board.fields@, i + 1, Owner::Me);
                }
                return false;
            }
            if opp_sum > u32::MAX as u64 {
                proof {
                    crate::board::lemma_sum_units_prefix_le(board.fields@, i + 1, Owner::Opponent);
                }
                return false;
            }
            i += 1;
        }
        proof {
            assert(board.fields@.take(n as int) =~= board.fields@);
        }
        let mut my_ry: u64 = 0;
        let mut opp_ry: u64 = 0;
        let mut k: usize = 0;
        while k < n
            invariant
                board.wf(),
                n == board.fields@.len(),
                k <= n,
                my_ry == recycler_yield_total(*board, Owner::Me, k as int),
                opp_ry == recycler_yield_total(*board, Owner::Opponent, k as int),
                my_ry <= u32::MAX,
                opp_ry <= u32::MAX,
                forall|x: int, y: int|
                    board.in_bounds(x, y) && board.idx(x, y) < k ==> #[trigger] yield_without(
                        *board,
                        x,
                        y,
                    ) <= u32::MAX,
                forall|x: int, y: int|
                    board.in_bounds(x, y) && board.idx(x, y) < k ==> #[trigger] yield_with(
                        *board,
                        x,
                        y,
                    ) <= u32::MAX,
                forall|x: int, y: int|
                    board.in_bounds(x, y) && board.idx(x, y) < k ==> #[trigger] board.adj_units(
                        x,
                        y,
                        Owner::Opponent,
                    ) <= u32::MAX,
            decreases n - k,
        {
            let f = board.fields[k];
            proof {
                lemma_row_major_coords(board.width as int, board.height as int, k as int);
            }
            let yw = crate::yield_board::cell_yield_without_wide(board, f.x, f.y);
            if yw > u32::MAX as u64 {
                return false;
            }
            let ywr = crate::yield_board::cell_yield_with_wide(board, f.x, f.y);
            if ywr > u32::MAX as u64 {
                return false;
            }
            let adj = board.adjacent_robot_count_wide(f.x, f.y, Owner::Opponent);
            if adj > u32::MAX as u64 {
                return false;
            }
            if f.has_recycler && f.owner == Owner::Me {
                my_ry = my_ry + yw;
                if my_ry > u32::MAX as u64 {
                    proof {
                        lemma_recycler_yield_total_prefix(*board, Owner::Me, k + 1);
                    }
                    return false;
                }
            }
            if f.has_recycler && f.owner == Owner::Opponent {
                opp_ry = opp_ry + yw;
                if opp_ry > u32::MAX as u64 {
                    proof {
                        lemma_recycler_yield_total_prefix(*board, Owner::Opponent, k + 1);
                    }
                    return false;
                }
            }
            proof {
                assert forall|x: int, y: int|
                    board.in_bounds(x, y) && board.idx(x, y) < k + 1 implies #[trigger] yield_without(
                    *board,
                    x,
                    y,
                ) <= u32::MAX by {
                    lemma_row_major_index_in_range(board.width as int, board.height as int, x, y);
                    if board.idx(x, y) == k {
                        assert(x == f.x && y == f.y);
                    }
                }
                assert forall|x: int, y: int|
                    board.in_bounds(x, y) && board.idx(x, y) < k + 1 implies #[trigger] yield_with(
                    *board,
                    x,
                    y,
                ) <= u32::MAX by {
                    lemma_row_major_index_in_range(board.width as int, board.height as int, x, y);
                    if board.idx(x, y) == k {
                        assert(x == f.x && y == f.y);
                    }
                }
                assert forall|x: int, y: int|
                    board.in_bounds(x, y) && board.idx(x, y) < k + 1 implies #[trigger] board.adj_units(
                    x,
                    y,
                    Owner::Opponent,
                ) <= u32::MAX by {
                    lemma_row_major_index_in_range(board.width as int, board.height as int, x, y);
                    if board.idx(x, y) == k {
                        assert(x == f.x && y == f.y);
                    }
                }
            }
            k += 1;
        }
        proof {
            assert forall|x: int, y: int| board.in_bounds(x, y) implies #[trigger] yield_without(
                *board,
                x,
                y,
            ) <= u32::MAX by {
                lemma_row_major_index_in_range(board.width as int, board.height as int, x, y);
            }
            assert forall|x: int, y: int| board.in_bounds(x, y) implies #[trigger] yield_with(
                *board,
                x,
                y,
            ) <= u32::MAX by {
                lemma_row_major_index_in_range(board.width as int, board.height as int, x, y);
            }
            assert forall|x: int, y: int| board.in_bounds(x, y) implies #[trigger] board.adj_units(
                x,
                y,
                Owner::Opponent,
            ) <= u32::MAX by {
                lemma_row_major_index_in_range(board.width as int, board.height as int, x, y);
            }
        }
        true
    }

    /// A player's material score: matter in hand, ten per unit on the board,
    /// and the discounted projected harvest of their recyclers.
    pub open spec fn material_score(self, b: Board, o: Owner) -> int {
        (if o == Owner::Me {
            b.my_matter as int
        } else {
            b.opponent_matter as int
        }) + 10 * sum_units(b.fields@, o) + (recycler_yield_total(b, o, b.fields@.len() as int)
            * self.expected_mining_discount) / 100
    }

    /// The build budget the policy allows: a recycler per ten matter while
    /// the material score trails, and none once it leads.
    pub open spec fn policy_build_amount(self, b: Board) -> int {
        if self.should_build(b) {
            (b.my_matter / 10) as int
        } else {
            0
        }
    }

    /// Whether the agent builds recyclers this turn: only while its own
    /// material score does not lead the opponent's by the configured margin.
    pub open spec fn should_build(self, b: Board) -> bool {
        self.material_score(b, Owner::Me) < self.material_score(b, Owner::Opponent)
            + self.min_scrap_lead
    }

    /// The desirability of a recycler at `(x, y)`: adjacent enemy presence
    /// and unclaimed yield speak for it, distance from the opponent against
    /// it.
    pub open spec fn build_score(self, b: Board, db: DistanceBoard, x: int, y: int) -> int {
        b.adj_units(x, y, Owner::Opponent) * self.recycler_robot_adjacency_weight + yield_with(
            b,
            x,
            y,
        ) - self.distance_mine_weighting * (db.label(x, y)->Dist_0 as int)
    }

    /// What the build phase guarantees: at most `amount` actions, each a
    /// `Build` on an owned, empty, traversable cell that can reach the
    /// opponent, scoring at least the configured minimum, not already inside
    /// recycler range, and not covered by an earlier build of the same turn;
    /// best cells first, and the budget is exhausted greedily — while any of
    /// it is left, every qualifying cell is covered by a chosen placement.
    pub open spec fn builds_ok(
        self,
        b: Board,
        db: DistanceBoard,
        r: Seq<Action>,
        amount: int,
    ) -> bool {
        &&& r.len() <= amount
        &&& forall|i: int|
            0 <= i < r.len() ==> {
                &&& (#[trigger] r[i]) is Build
                &&& build_eligible(b, db, build_x(r[i]), build_y(r[i]))
                &&& self.build_score(b, db, build_x(r[i]), build_y(r[i]))
                    >= self.recycler_min_score
                &&& !b.cell(build_x(r[i]), build_y(r[i])).in_recycler_range
                &&& forall|j: int|
                    0 <= j < i ==> !covered_by(
                        build_x(#[trigger] r[j]),
                        build_y(r[j]),
                        build_x(r[i]),
                        build_y(r[i]),
                    )
            }
        &&& forall|i: int, j: int|
            0 <= i < j < r.len() ==> #[trigger] self.build_score(b, db, build_x(r[i]), build_y(
                r[i],
            )) >= #[trigger] self.build_score(b, db, build_x(r[j]), build_y(r[j]))
        &&& forall|x: int, y: int|
            amount > 0 && #[trigger] build_candidate_available(self, b, db, x, y) ==> r.len() > 0
        &&& r.len() < amount ==> forall|x: int, y: int|
            #[trigger] build_candidate_available(self, b, db, x, y) ==> exists|j: int|
                0 <= j < r.len() && covered_by(build_x(#[trigger] r[j]), build_y(r[j]), x, y)
    }

    /// The descending-score sort key of one eligible cell.
    #[verifier::spinoff_prover]
    fn build_key_for(
        &self,
        board: &Board,
        yield_board: &YieldBoard,
        opponent_distance_board: &DistanceBoard,
        x: u32,
        y: u32,
        dist: u32,
    ) -> (key: u64)
        requires
            board.wf(),
            self.config_wf(),
            board.in_bounds(x as int, y as int),
            board.adj_units(x as int, y as int, Owner::Opponent) <= u32::MAX,
            yield_with(*board, x as int, y as int) <= u32::MAX,
            yield_board.wf(),
            yield_board.width == board.width,
            yield_board.height == board.height,
            yield_board.value(x as int, y as int) == yield_with(*board, x as int, y as int),
            opponent_distance_board.wf(),
            opponent_distance_board.width == board.width,
            opponent_distance_board.height == board.height,
            opponent_distance_board.label(x as int, y as int) == ManhattanDistance::Dist(dist),
        ensures
            key == BUILD_KEY_BASE - self.build_score(
                *board,
                *opponent_distance_board,
                x as int,
                y as int,
            ),
            key < 2 * BUILD_KEY_BASE,
    {
        let enemy = board.adjacent_robot_count(x, y, Owner::Opponent);
        let yld = *yield_board.get_field(x, y).unwrap();
        proof {
            assert((enemy as i64) * (self.recycler_robot_adjacency_weight as i64) <= 0xFFFF_FFFF
                * 1000 && 0 <= (enemy as i64) * (self.recycler_robot_adjacency_weight as i64))
                by (nonlinear_arith)
                requires
                    0 <= enemy <= 0xFFFF_FFFF,
                    0 <= self.recycler_robot_adjacency_weight <= 1000,
            ;
            assert(-1000000 * 0xFFFF_FFFFi64 <= (self.distance_mine_weighting as i64) * (dist
                as i64) <= 1000000 * 0xFFFF_FFFFi64) by (nonlinear_arith)
                requires
                    -1000000 <= self.distance_mine_weighting <= 1000000,
                    0 <= dist <= 0xFFFF_FFFF,
            ;
        }
        let score: i64 = (enemy as i64) * (self.recycler_robot_adjacency_weight as i64) + (yld
            as i64) - (self.distance_mine_weighting as i64) * (dist as i64);
        (BUILD_KEY_BASE - score) as u64
    }

    /// Choose up to `amount` recycler placements: the highest-scoring
    /// eligible cells whose score reaches the configured minimum, skipping
    /// any cell already covered — by an existing recycler or by a placement
    /// chosen earlier this same turn.
    #[verifier::rlimit(100)]
    #[verifier::spinoff_prover]
    pub fn build_recyclers(
        &self,
        board: &Board,
        yield_board: &YieldBoard,
        opponent_distance_board: &DistanceBoard,
        amount: u32,
    ) -> (r: Vec<Action>)
        requires
            board.wf(),
            self.config_wf(),
            forall|x: int, y: int|
                board.in_bounds(x, y) ==> board.adj_units(x, y, Owner::Opponent) <= u32::MAX,
            forall|x: int, y: int| board.in_bounds(x, y) ==> yield_with(*board, x, y) <= u32::MAX,
            yield_board.wf(),
            yield_board.width == board.width,
            yield_board.height == board.height,
            forall|x: int, y: int|
                board.in_bounds(x, y) ==> #[trigger] yield_board.value(x, y) == yield_with(
                    *board,
                    x,
                    y,
                ),
            opponent_distance_board.wf(),
            opponent_distance_board.width == board.width,
            opponent_distance_board.height == board.height,
        ensures
            self.builds_ok(*board, *opponent_distance_board, r@, amount as int),
    {
        let n = board.fields.len();
        let mut candidates: Vec<(u64, usize)> = Vec::new();
        let mut i: usize = 0;
        while i < n
            invariant
                board.wf(),
                self.config_wf(),
                forall|x: int, y: int|
                    board.in_bounds(x, y) ==> board.adj_units(x, y, Owner::Opponent) <= u32::MAX,
                forall|x: int, y: int|
                    board.in_bounds(x, y) ==> yield_with(*board, x, y) <= u32::MAX,
                yield_board.wf(),
                yield_board.width == board.width,
                yield_board.height == board.height,
                forall|x: int, y: int|
                    board.in_bounds(x, y) ==> #[trigger] yield_board.value(x, y) == yield_with(
                        *board,
                        x,
                        y,
                    ),
                opponent_distance_board.wf(),
                opponent_distance_board.width == board.width,
                opponent_distance_board.height == board.height,
                n == board.fields@.len(),
                i <= n,
                forall|a: int|
                    0 <= a < candidates@.len() ==> candidate_ok(
                        *self,
                        *board,
                        *opponent_distance_board,
                        #[trigger] candidates@[a],
                    ),
                forall|j: int|
                    0 <= j < i && #[trigger] build_eligible(
                        *board,
                        *opponent_distance_board,
                        board.fields@[j].x as int,
                        board.fields@[j].y as int,
                    ) ==> has_candidate_for(candidates@, j),
            decreases n - i,
        {
            let f = board.fields[i];
            let ghost cand_before = candidates@;
            proof {
                lemma_row_major_coords(board.width as int, board.height as int, i as int);
            }
            if f.owner == Owner::Me && f.is_traversible() && f.num_units == 0 {
                let label = *opponent_distance_board.get_field(f.x, f.y).unwrap();
                match label {
                    ManhattanDistance::Dist(dist) => {
                        let key = self.build_key_for(
                            board,
                            yield_board,
                            opponent_distance_board,
                            f.x,
                            f.y,
                            dist,
                        );
                        candidates.push((key, i));
                    },
                    ManhattanDistance::Unreachable => {},
                }
            }
            proof {
                assert forall|j: int|
                    0 <= j < i + 1 && #[trigger] build_eligible(
                        *board,
                        *opponent_distance_board,
                        board.fields@[j].x as int,
                        board.fields@[j].y as int,
                    ) implies has_candidate_for(candidates@, j) by {
                    if j < i {
                        let a0 = choose|a: int|
                            0 <= a < cand_before.len() && (#[trigger] cand_before[a]).1 == j;
                        assert(candidates@[a0] == cand_before[a0]);
                        assert((candidates@[a0]).1 == j);
                    } else {
                        assert((candidates@.last()).1 == j);
                    }
                }
            }
            i += 1;
        }
        let ghost unsorted = candidates@;
        sort_pairs(&mut candidates);
        proof {
            broadcast use vstd::seq_lib::group_to_multiset_ensures;

            assert forall|a: int| 0 <= a < candidates@.len() implies candidate_ok(
                *self,
                *board,
                *opponent_distance_board,
                #[trigger] candidates@[a],
            ) by {
                assert(candidates@.contains(candidates@[a]));
                assert(unsorted.to_multiset().count(candidates@[a]) > 0);
                assert(unsorted.contains(candidates@[a]));
            }
            assert forall|j: int|
                0 <= j < n && #[trigger] build_eligible(
                    *board,
                    *opponent_distance_board,
                    board.fields@[j].x as int,
                    board.fields@[j].y as int,
                ) implies has_candidate_for(candidates@, j) by {
                let a0 = choose|a: int|
                    0 <= a < unsorted.len() && (#[trigger] unsorted[a]).1 == j;
                let v = unsorted[a0];
                assert(unsorted.contains(v));
                assert(candidates@.to_multiset().count(v) > 0);
                assert(candidates@.contains(v));
                let a1 = choose|a: int| 0 <= a < candidates@.len() && candidates@[a] == v;
                assert((candidates@[a1]).1 == j);
            }
        }
        let r = self.choose_builds(board, opponent_distance_board, candidates, amount);
        r
    }

    /// Walk the ranked candidates best first, accepting each uncovered cell
    /// whose score reaches the minimum until the budget is spent, and mark
    /// each accepted placement's coverage so later candidates cannot overlap
    /// it.
    #[verifier::rlimit(100)]
    #[verifier::spinoff_prover]
    fn choose_builds(
        &self,
        board: &Board,
        opponent_distance_board: &DistanceBoard,
        candidates: Vec<(u64, usize)>,
        amount: u32,
    ) -> (r: Vec<Action>)
        requires
            board.wf(),
            self.config_wf(),
            opponent_distance_board.wf(),
            opponent_distance_board.width == board.width,
            opponent_distance_board.height == board.height,
            crate::sorting::sorted_by_key(candidates@),
            forall|a: int|
                0 <= a < candidates@.len() ==> candidate_ok(
                    *self,
                    *board,
                    *opponent_distance_board,
                    #[trigger] candidates@[a],
                ),
            forall|j: int|
                0 <= j < board.fields@.len() && #[trigger] build_eligible(
                    *board,
                    *opponent_distance_board,
                    board.fields@[j].x as int,
                    board.fields@[j].y as int,
                ) ==> has_candidate_for(candidates@, j),
        ensures
            self.builds_ok(*board, *opponent_distance_board, r@, amount as int),
    {
        let mut range_board = RecyclerRangeBoard::from_board(board);
        let mut r: Vec<Action> = Vec::new();
        let ghost mut srcs: Seq<int> = Seq::empty();
        let mut c: usize = 0;
        while c < candidates.len()
            invariant
                board.wf(),
                self.config_wf(),
                opponent_distance_board.wf(),
                opponent_distance_board.width == board.width,
                opponent_distance_board.height == board.height,
                c <= candidates@.len(),
                forall|a: int|
                    0 <= a < candidates@.len() ==> candidate_ok(
                        *self,
                        *board,
                        *opponent_distance_board,
                        #[trigger] candidates@[a],
                    ),
                range_board.wf(),
                range_board.width == board.width,
                range_board.height == board.height,
                r@.len() <= amount,
                srcs.len() == r@.len(),
                forall|i2: int, j2: int| 0 <= i2 < j2 < srcs.len() ==> srcs[i2] < srcs[j2],
                forall|i2: int|
                    0 <= i2 < srcs.len() ==> 0 <= #[trigger] srcs[i2] < c,
                forall|i2: int|
                    0 <= i2 < r@.len() ==> build_x(#[trigger] r@[i2]) == board.fields@[candidates@[
                        srcs[i2]].1 as int].x as int && build_y(r@[i2]) == board.fields@[candidates@[
                        srcs[i2]].1 as int].y as int,
                forall|px: int, py: int|
                    board.in_bounds(px, py) ==> #[trigger] range_board.flag(px, py) == (board.cell(
                        px,
                        py,
                    ).in_recycler_range || exists|j: int|
                        0 <= j < r@.len() && covered_by(
                            build_x(#[trigger] r@[j]),
                            build_y(r@[j]),
                            px,
                            py,
                        )),
                forall|i2: int|
                    0 <= i2 < r@.len() ==> {
                        &&& (#[trigger] r@[i2]) is Build
                        &&& build_eligible(
                            *board,
                            *opponent_distance_board,
                            build_x(r@[i2]),
                            build_y(r@[i2]),
                        )
                        &&& self.build_score(
                            *board,
                            *opponent_distance_board,
                            build_x(r@[i2]),
                            build_y(r@[i2]),
                        ) >= self.recycler_min_score
                        &&& !board.cell(build_x(r@[i2]), build_y(r@[i2])).in_recycler_range
                        &&& forall|j: int|
                            0 <= j < i2 ==> !covered_by(
                                build_x(#[trigger] r@[j]),
                                build_y(r@[j]),
                                build_x(r@[i2]),
                                build_y(r@[i2]),
                            )
                    },
                (amount > 0 && r@.len() == 0) ==> (forall|a: int|
                    0 <= a < c ==> !build_candidate_qualifies(
                        *self,
                        *board,
                        #[trigger] candidates@[a],
                    )),
                forall|a: int|
                    0 <= a < c && build_candidate_qualifies(
                        *self,
                        *board,
                        #[trigger] candidates@[a],
                    ) ==> r@.len() == amount || (exists|j: int|
                        0 <= j < r@.len() && covered_by(
                            build_x(#[trigger] r@[j]),
                            build_y(r@[j]),
                            board.fields@[candidates@[a].1 as int].x as int,
                            board.fields@[candidates@[a].1 as int].y as int,
                        )),
            decreases candidates@.len() - c,
        {
            let ghost r_entry = r@;
            let (key, idx) = candidates[c];
            proof {
                assert(candidate_ok(*self, *board, *opponent_distance_board, candidates@[c as int]));
                lemma_row_major_coords(board.width as int, board.height as int, idx as int);
            }
            let f = board.fields[idx];
            let score: i64 = BUILD_KEY_BASE - (key as i64);
            let ghost was_empty = r@.len() == 0;
            if (r.len() as u64) < (amount as u64) && score >= (self.recycler_min_score as i64) {
                let covered = *range_board.get_field(f.x, f.y).unwrap();
                proof {
                    if was_empty && covered {
                        assert(board.cell(f.x as int, f.y as int).in_recycler_range);
                        assert(!build_candidate_qualifies(*self, *board, candidates@[c as int]));
                    }
                }
                if covered {
                    proof {
                        assert(range_board.flag(f.x as int, f.y as int));
                        if !board.cell(f.x as int, f.y as int).in_recycler_range {
                            assert(exists|j: int|
                                0 <= j < r@.len() && covered_by(
                                    build_x(#[trigger] r@[j]),
                                    build_y(r@[j]),
                                    f.x as int,
                                    f.y as int,
                                ));
                        }
                    }
                } else {
                    let ghost r_before = r@;
                    let ghost flags_before = range_board;
                    r.push(Action::Build(f.x, f.y));
                    range_board.process_recycler_placement(f.x, f.y);
                    proof {
                        srcs = srcs.push(c as int);
                        let newest = r@.len() - 1;
                        assert(r@[newest] == Action::Build(f.x, f.y));
                        assert(build_x(r@[newest]) == f.x as int && build_y(r@[newest]) == f.y
                            as int);
                        assert(build_eligible(*board, *opponent_distance_board, f.x as int, f.y
                            as int));
                        assert(self.build_score(*board, *opponent_distance_board, f.x as int, f.y
                            as int) >= self.recycler_min_score);
                        assert(!flags_before.flag(f.x as int, f.y as int));
                        assert(!board.cell(f.x as int, f.y as int).in_recycler_range);
                        assert forall|j: int| 0 <= j < newest implies !covered_by(
                            build_x(#[trigger] r@[j]),
                            build_y(r@[j]),
                            f.x as int,
                            f.y as int,
                        ) by {
                            assert(r@[j] == r_before[j]);
                            if covered_by(build_x(r@[j]), build_y(r@[j]), f.x as int, f.y as int) {
                                assert(flags_before.flag(f.x as int, f.y as int));
                            }
                        }
                        assert forall|i2: int| 0 <= i2 < newest implies r@[i2] == r_before[i2]
                            by {}
                        assert forall|px: int, py: int| board.in_bounds(px, py) implies #[trigger] range_board.flag(
                            px,
                            py,
                        ) == (board.cell(px, py).in_recycler_range || exists|j: int|
                            0 <= j < r@.len() && covered_by(
                                build_x(#[trigger] r@[j]),
                                build_y(r@[j]),
                                px,
                                py,
                            )) by {
                            assert(r@[newest] == Action::Build(f.x, f.y));
                            if flags_before.flag(px, py) {
                                if !board.cell(px, py).in_recycler_range {
                                    let j = choose|j: int|
                                        0 <= j < r_before.len() && covered_by(
                                            build_x(#[trigger] r_before[j]),
                                            build_y(r_before[j]),
                                            px,
                                            py,
                                        );
                                    assert(r@[j] == r_before[j]);
                                    assert(covered_by(build_x(r@[j]), build_y(r@[j]), px, py));
                                }
                            } else {
                                if range_board.flag(px, py) {
                                    assert(covered_by(f.x as int, f.y as int, px, py));
                                } else {
                                    if exists|j: int|
                                        0 <= j < r@.len() && covered_by(
                                            build_x(#[trigger] r@[j]),
                                            build_y(r@[j]),
                                            px,
                                            py,
                                        ) {
                                        let j = choose|j: int|
                                            0 <= j < r@.len() && covered_by(
                                                build_x(#[trigger] r@[j]),
                                                build_y(r@[j]),
                                                px,
                                                py,
                                            );
                                        if j < r_before.len() {
                                            assert(covered_by(
                                                build_x(r_before[j]),
                                                build_y(r_before[j]),
                                                px,
                                                py,
                                            ));
                                        }
                                    }
                                }
                            }
                        }
                        let newest2 = r@.len() - 1;
                        assert(covered_by(
                            build_x(r@[newest2]),
                            build_y(r@[newest2]),
                            f.x as int,
                            f.y as int,
                        ));
                    }
                }
            } else {
                proof {
                    if score >= self.recycler_min_score as i64 {
                        assert(r@.len() == amount);
                    } else {
                        assert(!build_candidate_qualifies(*self, *board, candidates@[c as int]));
                    }
                }
            }
            proof {
                if amount > 0 && r@.len() == 0 {
                    assert forall|a: int| 0 <= a < c + 1 implies !build_candidate_qualifies(
                        *self,
                        *board,
                        #[trigger] candidates@[a],
                    ) by {
                        if a == c {
                            assert(!(BUILD_KEY_BASE - candidates@[c as int].0
                                >= self.recycler_min_score) || board.fields@[idx as int].in_recycler_range);
                        }
                    }
                }
                assert forall|a: int|
                    0 <= a < c + 1 && build_candidate_qualifies(
                        *self,
                        *board,
                        #[trigger] candidates@[a],
                    ) implies r@.len() == amount || (exists|j: int|
                    0 <= j < r@.len() && covered_by(
                        build_x(#[trigger] r@[j]),
                        build_y(r@[j]),
                        board.fields@[candidates@[a].1 as int].x as int,
                        board.fields@[candidates@[a].1 as int].y as int,
                    )) by {
                    if a < c {
                        if r_entry.len() == amount {
                            assert(r@ =~= r_entry);
                        } else if !(r@.len() == amount) {
                            let j0 = choose|j: int|
                                0 <= j < r_entry.len() && covered_by(
                                    build_x(#[trigger] r_entry[j]),
                                    build_y(r_entry[j]),
                                    board.fields@[candidates@[a].1 as int].x as int,
                                    board.fields@[candidates@[a].1 as int].y as int,
                                );
                            assert(r@[j0] == r_entry[j0]);
                            assert(covered_by(
                                build_x(r@[j0]),
                                build_y(r@[j0]),
                                board.fields@[candidates@[a].1 as int].x as int,
                                board.fields@[candidates@[a].1 as int].y as int,
                            ));
                        }
                    }
                }
            }
            c += 1;
        }
        proof {
            assert forall|i2: int, j2: int| 0 <= i2 < j2 < r@.len() implies #[trigger] self.build_score(
                *board,
                *opponent_distance_board,
                build_x(r@[i2]),
                build_y(r@[i2]),
            ) >= #[trigger] self.build_score(
                *board,
                *opponent_distance_board,
                build_x(r@[j2]),
                build_y(r@[j2]),
            ) by {
                let a1 = srcs[i2];
                let a2 = srcs[j2];
                assert(a1 < a2);
                assert(candidates@[a1].0 <= candidates@[a2].0);
                assert(candidate_ok(*self, *board, *opponent_distance_board, candidates@[a1]));
                assert(candidate_ok(*self, *board, *opponent_distance_board, candidates@[a2]));
                lemma_row_major_coords(
                    board.width as int,
                    board.height as int,
                    candidates@[a1].1 as int,
                );
                lemma_row_major_coords(
                    board.width as int,
                    board.height as int,
                    candidates@[a2].1 as int,
                );
            }
            if amount > 0 && r@.len() == 0 {
                assert forall|x: int, y: int|
                    !(#[trigger] build_candidate_available(
                        *self,
                        *board,
                        *opponent_distance_board,
                        x,
                        y,
                    )) by {
                    if build_candidate_available(*self, *board, *opponent_distance_board, x, y) {
                        lemma_row_major_index_in_range(
                            board.width as int,
                            board.height as int,
                            x,
                            y,
                        );
                        let j = y * (board.width as int) + x;
                        lemma_row_major_coords(board.width as int, board.height as int, j);
                        assert(build_eligible(
                            *board,
                            *opponent_distance_board,
                            board.fields@[j].x as int,
                            board.fields@[j].y as int,
                        ));
                        let a0 = choose|a: int|
                            0 <= a < candidates@.len() && (#[trigger] candidates@[a]).1 == j;
                        assert(candidate_ok(
                            *self,
                            *board,
                            *opponent_distance_board,
                            candidates@[a0],
                        ));
                        assert(build_candidate_qualifies(*self, *board, candidates@[a0]));
                    }
                }
            }
            if r@.len() < amount {
                assert forall|x: int, y: int|
                    #[trigger] build_candidate_available(
                        *self,
                        *board,
                        *opponent_distance_board,
                        x,
                        y,
                    ) implies exists|j: int|
                    0 <= j < r@.len() && covered_by(
                        build_x(#[trigger] r@[j]),
                        build_y(r@[j]),
                        x,
                        y,
                    ) by {
                    lemma_row_major_index_in_range(board.width as int, board.height as int, x, y);
                    let jj = y * (board.width as int) + x;
                    lemma_row_major_coords(board.width as int, board.height as int, jj);
                    assert(build_eligible(
                        *board,
                        *opponent_distance_board,
                        board.fields@[jj].x as int,
                        board.fields@[jj].y as int,
                    ));
                    let a0 = choose|a: int|
                        0 <= a < candidates@.len() && (#[trigger] candidates@[a]).1 == jj;
                    assert(candidate_ok(*self, *board, *opponent_distance_board, candidates@[a0]));
                    assert(build_candidate_qualifies(*self, *board, candidates@[a0]));
                    assert(board.fields@[jj].x as int == x && board.fields@[jj].y as int == y);
                    let j0 = choose|j: int|
                        0 <= j < r@.len() && covered_by(
                            build_x(#[trigger] r@[j]),
                            build_y(r@[j]),
                            board.fields@[candidates@[a0].1 as int].x as int,
                            board.fields@[candidates@[a0].1 as int].y as int,
                        );
                    assert(covered_by(build_x(r@[j0]), build_y(r@[j0]), x, y));
                }
            }
        }
        r
    }

    /// Spread `amount` new units over the owned cells that border territory
    /// worth taking, preferring lightly loaded cells close to the opponent;
    /// when no owned cell can reach the opponent, distances to neutral
    /// ground guide the spread instead.
    #[verifier::rlimit(100)]
    #[verifier::spinoff_prover]
    pub fn spawn_robots(
        &self,
        board: &Board,
        opponent_distance_board: &DistanceBoard,
        amount: u32,
    ) -> (r: Vec<Action>)
        requires
            board.wf(),
            opponent_distance_board.wf(),
            opponent_distance_board.width == board.width,
            opponent_distance_board.height == board.height,
        ensures
            spawns_ok(*board, *opponent_distance_board, r@, amount as int),
    {
        let n = board.fields.len();
        let neutral_distance_board = DistanceBoard::from_owner(board, Owner::Neutral);
        let mut any_opponent_reach = false;
        let mut i: usize = 0;
        while i < n
            invariant
                board.wf(),
                opponent_distance_board.wf(),
                opponent_distance_board.width == board.width,
                opponent_distance_board.height == board.height,
                n == board.fields@.len(),
                i <= n,
                any_opponent_reach <==> exists|j: int|
                    0 <= j < i && #[trigger] owned_reach(*board, *opponent_distance_board, j),
            decreases n - i,
        {
            let f = board.fields[i];
            proof {
                lemma_row_major_coords(board.width as int, board.height as int, i as int);
            }
            if f.owner == Owner::Me {
                let l = *opponent_distance_board.get_field(f.x, f.y).unwrap();
                if !l.is_unreachable() {
                    any_opponent_reach = true;
                    proof {
                        assert(owned_reach(*board, *opponent_distance_board, i as int));
                    }
                }
            }
            i += 1;
        }
        proof {
            if any_opponent_reach {
                assert(any_owned_reach(*board, *opponent_distance_board));
            } else {
                assert forall|j: int|
                    !(#[trigger] owned_reach(*board, *opponent_distance_board, j)) by {}
            }
        }
        let db: &DistanceBoard = if any_opponent_reach {
            opponent_distance_board
        } else {
            &neutral_distance_board
        };
        let mut candidates: Vec<(u64, usize)> = Vec::new();
        let mut i2: usize = 0;
        while i2 < n
            invariant
                board.wf(),
                db.wf(),
                db.width == board.width,
                db.height == board.height,
                any_opponent_reach ==> *db == *opponent_distance_board && any_owned_reach(
                    *board,
                    *opponent_distance_board,
                ),
                !any_opponent_reach ==> *db == neutral_distance_board && !any_owned_reach(
                    *board,
                    *opponent_distance_board,
                ),
                neutral_distance_board.wf(),
                neutral_distance_board.width == board.width,
                neutral_distance_board.height == board.height,
                labels_correct(*board, Owner::Neutral, neutral_distance_board.distances@),
                n == board.fields@.len(),
                i2 <= n,
                forall|a: int|
                    0 <= a < candidates@.len() ==> spawn_cand_ok(
                        *board,
                        *db,
                        #[trigger] candidates@[a],
                    ),
                forall|a: int| 0 <= a < candidates@.len() ==> (#[trigger] candidates@[a]).1 < i2,
                crate::sorting::distinct_indices(candidates@),
                forall|j: int|
                    0 <= j < i2 && #[trigger] spawn_candidate(*board, *db, j)
                        ==> has_candidate_for(candidates@, j),
            decreases n - i2,
        {
            let f = board.fields[i2];
            proof {
                lemma_row_major_coords(board.width as int, board.height as int, i2 as int);
            }
            let ghost before = candidates@;
            if f.owner == Owner::Me && f.is_traversible() {
                let l = *db.get_field(f.x, f.y).unwrap();
                match l {
                    ManhattanDistance::Dist(d) => {
                        if has_adj_entry_cell(board, f.x, f.y) {
                            candidates.push(((f.num_units as u64) + (d as u64), i2));
                        }
                    },
                    ManhattanDistance::Unreachable => {},
                }
            }
            proof {
                assert forall|a: int| 0 <= a < candidates@.len() implies spawn_cand_ok(
                    *board,
                    *db,
                    #[trigger] candidates@[a],
                ) by {
                    if a < before.len() {
                        assert(candidates@[a] == before[a]);
                    }
                }
                assert forall|j: int|
                    0 <= j < i2 + 1 && #[trigger] spawn_candidate(*board, *db, j)
                        implies has_candidate_for(candidates@, j) by {
                    if j < i2 {
                        let a0 = choose|a: int|
                            0 <= a < before.len() && (#[trigger] before[a]).1 == j;
                        assert(candidates@[a0] == before[a0]);
                        assert((candidates@[a0]).1 == j);
                    } else {
                        assert((candidates@.last()).1 == j);
                    }
                }
            }
            i2 += 1;
        }
        if candidates.len() == 0 {
            let r: Vec<Action> = Vec::new();
            proof {
                assert forall|j: int| !(#[trigger] spawn_candidate(*board, *db, j)) by {
                    if spawn_candidate(*board, *db, j) {
                        assert(has_candidate_for(candidates@, j));
                    }
                }
                assert(spawn_phase_ok(*board, *db, r@, amount as int));
                if !any_opponent_reach {
                    assert(spawn_phase_ok(*board, neutral_distance_board, r@, amount as int));
                }
            }
            return r;
        }
        let ghost unsorted = candidates@;
        sort_pairs(&mut candidates);
        proof {
            broadcast use vstd::seq_lib::group_to_multiset_ensures;

            assert forall|a: int| 0 <= a < candidates@.len() implies spawn_cand_ok(
                *board,
                *db,
                #[trigger] candidates@[a],
            ) by {
                assert(candidates@.contains(candidates@[a]));
                assert(unsorted.to_multiset().count(candidates@[a]) > 0);
                assert(unsorted.contains(candidates@[a]));
            }
            crate::sorting::lemma_permutation_keeps_distinct_indices(unsorted, candidates@);
            assert forall|j: int|
                #[trigger] spawn_candidate(*board, *db, j)
                    implies has_candidate_for(candidates@, j) by {
                let a0 = choose|a: int|
                    0 <= a < unsorted.len() && (#[trigger] unsorted[a]).1 == j;
                let v = unsorted[a0];
                assert(unsorted.contains(v));
                assert(candidates@.to_multiset().count(v) > 0);
                assert(candidates@.contains(v));
                let a1 = choose|a: int| 0 <= a < candidates@.len() && candidates@[a] == v;
                assert((candidates@[a1]).1 == j);
            }
        }
        let k = candidates.len();
        let mut costs: Vec<u64> = Vec::new();
        let mut t: usize = 0;
        while t < k
            invariant
                k == candidates@.len(),
                t <= k,
                costs@.len() == t,
                forall|a: int| 0 <= a < t ==> #[trigger] costs@[a] == candidates@[a].0,
                board.wf(),
                db.wf(),
                db.width == board.width,
                db.height == board.height,
                forall|a: int|
                    0 <= a < candidates@.len() ==> spawn_cand_ok(
                        *board,
                        *db,
                        #[trigger] candidates@[a],
                    ),
            decreases k - t,
        {
            let (cost, _idx) = candidates[t];
            proof {
                assert(spawn_cand_ok(*board, *db, candidates@[t as int]));
            }
            costs.push(cost);
            t += 1;
        }
        proof {
            assert forall|a: int| 0 <= a < costs@.len() implies #[trigger] costs@[a]
                <= 0x4000_0000_0000_0000 by {
                assert(spawn_cand_ok(*board, *db, candidates@[a]));
            }
        }
        let placed = allocate(amount, &costs);
        let mut r: Vec<Action> = Vec::new();
        let mut e: usize = 0;
        while e < k
            invariant
                board.wf(),
                db.wf(),
                db.width == board.width,
                db.height == board.height,
                any_opponent_reach ==> *db == *opponent_distance_board && any_owned_reach(
                    *board,
                    *opponent_distance_board,
                ),
                !any_opponent_reach ==> *db == neutral_distance_board && !any_owned_reach(
                    *board,
                    *opponent_distance_board,
                ),
                neutral_distance_board.wf(),
                neutral_distance_board.width == board.width,
                neutral_distance_board.height == board.height,
                labels_correct(*board, Owner::Neutral, neutral_distance_board.distances@),
                k == candidates@.len(),
                placed@.len() == k,
                costs@.len() == k,
                sum_placed(placed@) == amount,
                forall|a: int| 0 <= a < k ==> #[trigger] costs@[a] == candidates@[a].0,
                forall|a: int, b: int|
                    0 <= a < placed@.len() && 0 <= b < placed@.len() && placed@[a] > 0
                        ==> crate::allocation::effective(costs@, placed@, a)
                        <= crate::allocation::effective(costs@, placed@, b) + 1,
                e <= k,
                r@.len() == e,
                forall|a: int|
                    0 <= a < candidates@.len() ==> spawn_cand_ok(
                        *board,
                        *db,
                        #[trigger] candidates@[a],
                    ),
                crate::sorting::distinct_indices(candidates@),
                crate::sorting::sorted_by_key(candidates@),
                forall|j: int|
                    #[trigger] spawn_candidate(*board, *db, j) ==> has_candidate_for(
                        candidates@,
                        j,
                    ),
                forall|a: int|
                    0 <= a < e ==> {
                        &&& (#[trigger] r@[a]) is Spawn
                        &&& spawn_idx(*board, r@[a]) == candidates@[a].1 as int
                        &&& spawn_x(r@[a]) == board.fields@[candidates@[a].1 as int].x as int
                        &&& spawn_y(r@[a]) == board.fields@[candidates@[a].1 as int].y as int
                        &&& spawn_amount(r@[a]) == placed@[a]
                    },
                sum_spawned(r@) == sum_placed(placed@.take(e as int)),
            decreases k - e,
        {
            let (_cost, idx) = candidates[e];
            proof {
                assert(spawn_cand_ok(*board, *db, candidates@[e as int]));
                lemma_row_major_coords(board.width as int, board.height as int, idx as int);
            }
            let f = board.fields[idx];
            let ghost r_before = r@;
            r.push(Action::Spawn(placed[e], f.x, f.y));
            proof {
                assert(r@.drop_last() =~= r_before);
                assert(placed@.take(e + 1).drop_last() =~= placed@.take(e as int));
                assert(placed@.take(e + 1).last() == placed@[e as int]);
                assert forall|a: int| 0 <= a < e implies r@[a] == r_before[a] by {}
            }
            e += 1;
        }
        proof {
            assert(placed@.take(k as int) =~= placed@);
            assert forall|a: int| 0 <= a < r@.len() implies spawn_cost(
                *board,
                *db,
                spawn_idx(*board, #[trigger] r@[a]),
            ) == candidates@[a].0 by {
                assert(spawn_cand_ok(*board, *db, candidates@[a]));
            }
            assert forall|j: int|
                #[trigger] spawn_candidate(*board, *db, j) implies exists|i3: int|
                0 <= i3 < r@.len() && spawn_idx(*board, #[trigger] r@[i3]) == j by {
                let a0 = choose|a: int|
                    0 <= a < candidates@.len() && (#[trigger] candidates@[a]).1 == j;
                assert(spawn_idx(*board, r@[a0]) == j);
            }
            assert(spawn_phase_ok(*board, *db, r@, amount as int));
            if !any_opponent_reach {
                assert(spawn_phase_ok(*board, neutral_distance_board, r@, amount as int));
            }
        }
        r
    }

}

impl SimpleEconomyAgent {
    /// One turn's phases against one opponent-distance field: `m` moves
    /// every unit, `bld` builds only while the material score trails (and
    /// never more than the matter in hand pays for), and `sp` spends the
    /// remaining matter on spawns.
    pub open spec fn turn_parts_ok(
        self,
        b: Board,
        m: Seq<Action>,
        bld: Seq<Action>,
        sp: Seq<Action>,
        db: DistanceBoard,
    ) -> bool {
        &&& db.wf()
        &&& db.width == b.width
        &&& db.height == b.height
        &&& labels_correct(b, Owner::Opponent, db.distances@)
        &&& moves_ok(self, b, db, m)
        &&& self.builds_ok(b, db, bld, self.policy_build_amount(b))
        &&& spawns_ok(b, db, sp, (b.my_matter - 10 * bld.len()) as int / 10)
    }

    /// What a whole turn guarantees: the actions split into moves, then
    /// builds, then spawns, sound against the snapshot's true
    /// opponent-distance field.
    pub open spec fn turn_plan_ok(self, b: Board, r: Seq<Action>) -> bool {
        exists|m: Seq<Action>, bld: Seq<Action>, sp: Seq<Action>, db: DistanceBoard|
            #[trigger] self.turn_parts_ok(b, m, bld, sp, db) && r == m + bld + sp
    }
}

/// A turn that builds nothing meets the build-phase contract for a zero
/// budget.
#[verifier::spinoff_prover]
pub proof fn lemma_builds_ok_empty(agent: SimpleEconomyAgent, b: Board, db: DistanceBoard)
    ensures
        agent.builds_ok(b, db, Seq::<Action>::empty(), 0),
{
}


/// Whether the board's cell at row-major index `j` is owned and can reach
/// the opponent on the given distance field.
pub open spec fn owned_reach(b: Board, odb: DistanceBoard, j: int) -> bool {
    &&& 0 <= j < b.fields@.len()
    &&& b.fields@[j].owner == Owner::Me
    &&& odb.label(b.fields@[j].x as int, b.fields@[j].y as int) is Dist
}

/// Whether any owned cell can reach the opponent: the regime switch between
/// spawning toward the opponent and the neutral-ground fallback.
pub open spec fn any_owned_reach(b: Board, odb: DistanceBoard) -> bool {
    exists|j: int| #[trigger] owned_reach(b, odb, j)
}

/// The X coordinate a spawn action targets.
pub open spec fn spawn_x(a: Action) -> int {
    match a {
        Action::Spawn(_, x, _) => x as int,
        _ => 0,
    }
}

/// The Y coordinate a spawn action targets.
pub open spec fn spawn_y(a: Action) -> int {
    match a {
        Action::Spawn(_, _, y) => y as int,
        _ => 0,
    }
}

/// How many units a spawn action places.
pub open spec fn spawn_amount(a: Action) -> int {
    match a {
        Action::Spawn(amount, _, _) => amount as int,
        _ => 0,
    }
}

/// Total units placed by a sequence of spawn actions.
pub open spec fn sum_spawned(s: Seq<Action>) -> int
    decreases s.len(),
{
    if s.len() == 0 {
        0
    } else {
        sum_spawned(s.drop_last()) + spawn_amount(s.last())
    }
}

/// A cell where spawning makes sense: owned, traversable, and next to at
/// least one traversable cell not already owned — somewhere to expand to.
pub open spec fn spawn_site_ok(b: Board, x: int, y: int) -> bool {
    &&& b.in_bounds(x, y)
    &&& b.cell(x, y).owner == Owner::Me
    &&& b.cell(x, y).spec_is_traversible()
    &&& exists|nx: int, ny: int|
        crate::distance_board::is_adjacent(x, y, nx, ny) && crate::distance_board::entry_cell(
            b,
            Owner::Me,
            nx,
            ny,
        )
}

/// The spawn candidate set against a given distance field: cell `j` is a
/// sensible spawn site whose label on that field is finite.
pub open spec fn spawn_candidate(b: Board, db: DistanceBoard, j: int) -> bool {
    &&& 0 <= j < b.fields@.len()
    &&& spawn_site_ok(b, b.fields@[j].x as int, b.fields@[j].y as int)
    &&& db.label(b.fields@[j].x as int, b.fields@[j].y as int) is Dist
}

/// The base cost of spawning at cell `j`: the units already standing there
/// plus the cell's distance label.
pub open spec fn spawn_cost(b: Board, db: DistanceBoard, j: int) -> int {
    b.fields@[j].num_units + db.label(b.fields@[j].x as int, b.fields@[j].y as int)->Dist_0
}

/// The row-major index a spawn action targets.
pub open spec fn spawn_idx(b: Board, a: Action) -> int {
    b.idx(spawn_x(a), spawn_y(a))
}

/// The spawn phase against one distance field: exactly one spawn order per
/// candidate cell (so no order targets a non-candidate, no candidate is
/// passed over, and none is served twice), cheapest candidates first; the
/// amounts sum to exactly the budget, and no loaded site ends more than one
/// effective unit (base cost plus units placed) above any other site.
pub open spec fn spawn_phase_ok(b: Board, db: DistanceBoard, r: Seq<Action>, amount: int) -> bool {
    &&& forall|i: int|
        0 <= i < r.len() ==> {
            &&& (#[trigger] r[i]) is Spawn
            &&& spawn_candidate(b, db, spawn_idx(b, r[i]))
            &&& spawn_x(r[i]) == b.fields@[spawn_idx(b, r[i])].x as int
            &&& spawn_y(r[i]) == b.fields@[spawn_idx(b, r[i])].y as int
        }
    &&& forall|j: int|
        #[trigger] spawn_candidate(b, db, j) ==> exists|i: int|
            0 <= i < r.len() && spawn_idx(b, #[trigger] r[i]) == j
    &&& forall|i: int, k: int|
        0 <= i < k < r.len() ==> spawn_idx(b, #[trigger] r[i]) != spawn_idx(b, #[trigger] r[k])
    &&& forall|i: int, k: int|
        0 <= i < k < r.len() ==> spawn_cost(b, db, spawn_idx(b, #[trigger] r[i])) <= spawn_cost(
            b,
            db,
            spawn_idx(b, #[trigger] r[k]),
        )
    &&& r.len() > 0 ==> sum_spawned(r) == amount
    &&& forall|i: int, k: int|
        0 <= i < r.len() && 0 <= k < r.len() && spawn_amount(#[trigger] r[i]) > 0 ==> spawn_cost(
            b,
            db,
            spawn_idx(b, r[i]),
        ) + spawn_amount(r[i]) <= spawn_cost(b, db, spawn_idx(b, r[k])) + spawn_amount(
            #[trigger] r[k],
        ) + 1
}

/// What the spawn phase guarantees: when some owned cell can reach the
/// opponent the candidates are judged against the opponent distance field;
/// otherwise against the snapshot's true neutral distance field. Either way
/// the orders serve exactly the candidate cells, cheapest first, spreading
/// the whole budget fairly.
pub open spec fn spawns_ok(b: Board, odb: DistanceBoard, r: Seq<Action>, amount: int) -> bool {
    if any_owned_reach(b, odb) {
        spawn_phase_ok(b, odb, r, amount)
    } else {
        exists|ndb: DistanceBoard|
            {
                &&& ndb.wf()
                &&& ndb.width == b.width
                &&& ndb.height == b.height
                &&& labels_correct(b, Owner::Neutral, ndb.distances@)
                &&& #[trigger] spawn_phase_ok(b, ndb, r, amount)
            }
    }
}

/// A ranked spawn candidate for the distance field in use: the second
/// component is the row-major index of a spawn site, the first its load plus
/// distance.
pub open spec fn spawn_cand_ok(b: Board, db: DistanceBoard, cand: (u64, usize)) -> bool {
    let idx = cand.1 as int;
    let x = b.fields@[idx].x as int;
    let y = b.fields@[idx].y as int;
    &&& 0 <= idx < b.fields@.len()
    &&& b.idx(x, y) == idx
    &&& spawn_site_ok(b, x, y)
    &&& db.label(x, y) is Dist
    &&& cand.0 == b.cell(x, y).num_units + db.label(x, y)->Dist_0
}

/// Whether some orthogonal neighbour of `(x, y)` is traversable and not
/// owned by this player.
fn has_adj_entry_cell(b: &Board, x: u32, y: u32) -> (r: bool)
    requires
        b.wf(),
        b.in_bounds(x as int, y as int),
    ensures
        r == exists|nx: int, ny: int|
            crate::distance_board::is_adjacent(x as int, y as int, nx, ny)
                && crate::distance_board::entry_cell(*b, Owner::Me, nx, ny),
{
    let adj = b.get_adjacent_fields(x, y);
    let north = match adj[0] {
        Some(f) => f.is_traversible() && f.owner != Owner::Me,
        None => false,
    };
    let east = match adj[1] {
        Some(f) => f.is_traversible() && f.owner != Owner::Me,
        None => false,
    };
    let south = match adj[2] {
        Some(f) => f.is_traversible() && f.owner != Owner::Me,
        None => false,
    };
    let west = match adj[3] {
        Some(f) => f.is_traversible() && f.owner != Owner::Me,
        None => false,
    };
    let r = north || east || south || west;
    proof {
        let xi = x as int;
        let yi = y as int;
        if north {
            assert(crate::distance_board::is_adjacent(xi, yi, xi, yi - 1)
                && crate::distance_board::entry_cell(*b, Owner::Me, xi, yi - 1));
        } else if east {
            assert(crate::distance_board::is_adjacent(xi, yi, xi + 1, yi)
                && crate::distance_board::entry_cell(*b, Owner::Me, xi + 1, yi));
        } else if south {
            assert(crate::distance_board::is_adjacent(xi, yi, xi, yi + 1)
                && crate::distance_board::entry_cell(*b, Owner::Me, xi, yi + 1));
        } else if west {
            assert(crate::distance_board::is_adjacent(xi, yi, xi - 1, yi)
                && crate::distance_board::entry_cell(*b, Owner::Me, xi - 1, yi));
        } else {
            assert forall|nx: int, ny: int|
                crate::distance_board::is_adjacent(xi, yi, nx, ny) implies !crate::distance_board::entry_cell(
                *b,
                Owner::Me,
                nx,
                ny,
            ) by {}
        }
    }
    r
}

/// The offset that turns a build score into an ascending sort key: bigger
/// scores give smaller keys, so sorting ascending ranks the best cells
/// first.
pub const BUILD_KEY_BASE: i64 = 0x20_0000_0000_0000;

/// The X coordinate a build action targets.
pub open spec fn build_x(a: Action) -> int {
    match a {
        Action::Build(x, _) => x as int,
        _ => 0,
    }
}

/// The Y coordinate a build action targets.
pub open spec fn build_y(a: Action) -> int {
    match a {
        Action::Build(_, y) => y as int,
        _ => 0,
    }
}

/// An owned, empty, traversable cell that can reach the opponent.
pub open spec fn build_eligible(b: Board, db: DistanceBoard, x: int, y: int) -> bool {
    &&& b.in_bounds(x, y)
    &&& b.cell(x, y).owner == Owner::Me
    &&& b.cell(x, y).spec_is_traversible()
    &&& b.cell(x, y).num_units == 0
    &&& db.label(x, y) is Dist
}

/// Assembling a turn: the three phase contracts, each against the same
/// distance field and with the build budget the policy allows, make the
/// whole turn sound.
#[verifier::spinoff_prover]
pub proof fn lemma_turn_parts_ok(
    agent: SimpleEconomyAgent,
    b: Board,
    m: Seq<Action>,
    bld: Seq<Action>,
    sp: Seq<Action>,
    db: DistanceBoard,
)
    requires
        db.wf(),
        db.width == b.width,
        db.height == b.height,
        labels_correct(b, Owner::Opponent, db.distances@),
        moves_ok(agent, b, db, m),
        agent.builds_ok(b, db, bld, agent.policy_build_amount(b)),
        spawns_ok(b, db, sp, (b.my_matter - 10 * bld.len()) as int / 10),
    ensures
        agent.turn_parts_ok(b, m, bld, sp, db),
{
}

impl Agent for SimpleEconomyAgent {
    open spec fn planning_req(&self, board: &Board) -> bool {
        self.config_wf() && self.board_ready(*board)
    }

    open spec fn actions_ens(&self, board: &Board, r: Seq<Action>) -> bool {
        self.turn_plan_ok(*board, r)
    }

    #[verifier::rlimit(100)]
    #[verifier::spinoff_prover]
    fn generate_actions(&mut self, board: Board) -> (r: Vec<Action>) {
        let expected_mining = YieldBoard::without_recycling(&board);
        let prospective_mining = YieldBoard::with_recycling(&board);
        let my_robot_count = board.robot_count(Owner::Me);
        let opponent_robot_count = board.robot_count(Owner::Opponent);
        proof {
            lemma_stored_total_is_projected_harvest(
                board,
                expected_mining,
                Owner::Me,
                board.fields@.len() as int,
            );
            lemma_stored_total_is_projected_harvest(
                board,
                expected_mining,
                Owner::Opponent,
                board.fields@.len() as int,
            );
        }
        let my_yield = expected_yield(&board, &expected_mining, Owner::Me);
        let opponent_yield = expected_yield(&board, &expected_mining, Owner::Opponent);
        proof {
            assert((my_yield as u64) * (self.expected_mining_discount as u64) <= 0xFFFF_FFFF
                * 1000 && (opponent_yield as u64) * (self.expected_mining_discount as u64)
                <= 0xFFFF_FFFF * 1000) by (nonlinear_arith)
                requires
                    0 <= my_yield <= 0xFFFF_FFFF,
                    0 <= opponent_yield <= 0xFFFF_FFFF,
                    0 <= self.expected_mining_discount <= 1000,
            ;
        }
        let my_matter_robot_score: u64 = (board.my_matter as u64) + 10u64 * (my_robot_count
            as u64) + ((my_yield as u64) * (self.expected_mining_discount as u64)) / 100;
        let opponent_matter_robot_score: u64 = (board.opponent_matter as u64) + 10u64 * (
        opponent_robot_count as u64) + ((opponent_yield as u64) * (self.expected_mining_discount
            as u64)) / 100;
        let opponent_distance_board = DistanceBoard::from_owner(&board, Owner::Opponent);
        let mut result = self.move_robots(&board, &opponent_distance_board);
        let ghost m = result@;
        let mut scrap_to_spend = board.my_matter;
        let mut built: usize = 0;
        let ghost bld: Seq<Action>;
        if (my_matter_robot_score as i64) < (opponent_matter_robot_score as i64) + (
        self.min_scrap_lead as i64) {
            let mut build_commands = self.build_recyclers(
                &board,
                &prospective_mining,
                &opponent_distance_board,
                scrap_to_spend / 10,
            );
            proof {
                bld = build_commands@;
                assert((scrap_to_spend / 10) as int == self.policy_build_amount(board));
            }
            built = build_commands.len();
            scrap_to_spend = scrap_to_spend - 10 * (built as u32);
            result.append(&mut build_commands);
        } else {
            proof {
                bld = Seq::empty();
                lemma_builds_ok_empty(*self, board, opponent_distance_board);
                assert(self.policy_build_amount(board) == 0);
            }
        }
        let mut spawns = self.spawn_robots(&board, &opponent_distance_board, scrap_to_spend / 10);
        let ghost sp = spawns@;
        result.append(&mut spawns);
        proof {
            lemma_turn_parts_ok(*self, board, m, bld, sp, opponent_distance_board);
            assert(result@ == m + bld + sp);
        }
        result
    }
}

/// A cell the build phase must not pass over: eligible, scoring at least
/// the configured minimum, and not already inside recycler range.
pub open spec fn build_candidate_available(
    agent: SimpleEconomyAgent,
    b: Board,
    db: DistanceBoard,
    x: int,
    y: int,
) -> bool {
    &&& build_eligible(b, db, x, y)
    &&& agent.build_score(b, db, x, y) >= agent.recycler_min_score
    &&& !b.cell(x, y).in_recycler_range
}

/// Some ranked candidate stands for the cell at row-major index `j`.
pub open spec fn has_candidate_for(cands: Seq<(u64, usize)>, j: int) -> bool {
    exists|a: int| 0 <= a < cands.len() && (#[trigger] cands[a]).1 == j
}

/// A ranked candidate worth building on: its score reaches the threshold
/// and its cell starts the turn uncovered.
pub open spec fn build_candidate_qualifies(
    agent: SimpleEconomyAgent,
    b: Board,
    cand: (u64, usize),
) -> bool {
    &&& BUILD_KEY_BASE - cand.0 >= agent.recycler_min_score
    &&& 0 <= (cand.1 as int) < b.fields@.len()
    &&& !b.fields@[cand.1 as int].in_recycler_range
}

/// A ranked build candidate: the second component is the row-major index of
/// an eligible cell and the first its descending-score sort key.
pub open spec fn candidate_ok(
    agent: SimpleEconomyAgent,
    b: Board,
    db: DistanceBoard,
    cand: (u64, usize),
) -> bool {
    let idx = cand.1 as int;
    let x = b.fields@[idx].x as int;
    let y = b.fields@[idx].y as int;
    &&& 0 <= idx < b.fields@.len()
    &&& b.idx(x, y) == idx
    &&& build_eligible(b, db, x, y)
    &&& cand.0 == BUILD_KEY_BASE - agent.build_score(b, db, x, y)
    &&& cand.0 < 2 * BUILD_KEY_BASE
}

} // verus!
