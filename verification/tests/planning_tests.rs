//! Distance labelling, allocation, policy phases and the action protocol.

use core::cmp::Ordering;

use scrapgrid::action::Action;
use scrapgrid::agent::{expected_yield, Agent, SimpleEconomyAgent};
use scrapgrid::allocation::allocate;
use scrapgrid::board::Board;
use scrapgrid::distance_board::{DistanceBoard, ManhattanDistance};
use scrapgrid::field::Field;
use scrapgrid::owner::Owner;
use scrapgrid::sorting::sort_pairs;
use scrapgrid::yield_board::YieldBoard;

fn cell(x: u32, y: u32, scrap: u32, owner: Owner, units: u32, recycler: bool, in_range: bool) -> Field {
    Field {
        x,
        y,
        scrap_amount: scrap,
        owner,
        num_units: units,
        has_recycler: recycler,
        can_build: false,
        can_spawn: false,
        in_recycler_range: in_range,
    }
}

fn row_board(cells: Vec<Field>) -> Board {
    Board {
        width: cells.len() as u32,
        height: 1,
        my_matter: 0,
        opponent_matter: 0,
        fields: cells,
    }
}

fn agent() -> SimpleEconomyAgent {
    SimpleEconomyAgent {
        min_scrap_lead: 12,
        recycler_min_score: 15,
        expected_mining_discount: 80,
        distance_move_weighting: 3,
        distance_mine_weighting: 2,
        recycler_robot_adjacency_weight: 3,
        movement_own_score: 4,
        movement_neutral_score: 2,
        movement_opponent_score: 0,
    }
}

#[test]
fn distance_field_three_cell_scenario() {
    // [scrap=5 mine units=1][scrap=5 neutral][scrap=5 opponent units=1]
    // from my side: 0, 1, 2.
    let b = row_board(vec![
        cell(0, 0, 5, Owner::Me, 1, false, false),
        cell(1, 0, 5, Owner::Neutral, 0, false, false),
        cell(2, 0, 5, Owner::Opponent, 1, false, false),
    ]);
    let d = DistanceBoard::from_owner(&b, Owner::Me);
    assert_eq!(*d.get_field(0, 0).unwrap(), ManhattanDistance::Dist(0));
    assert_eq!(*d.get_field(1, 0).unwrap(), ManhattanDistance::Dist(1));
    assert_eq!(*d.get_field(2, 0).unwrap(), ManhattanDistance::Dist(2));
}

#[test]
fn distance_field_spawnable_source_counts_one_turn() {
    // An owned empty cell is a source at distance 1; its neighbour costs 2.
    let b = row_board(vec![
        cell(0, 0, 5, Owner::Me, 0, false, false),
        cell(1, 0, 5, Owner::Neutral, 0, false, false),
        cell(2, 0, 5, Owner::Neutral, 0, false, false),
    ]);
    let d = DistanceBoard::from_owner(&b, Owner::Me);
    assert_eq!(*d.get_field(0, 0).unwrap(), ManhattanDistance::Dist(1));
    assert_eq!(*d.get_field(1, 0).unwrap(), ManhattanDistance::Dist(2));
    assert_eq!(*d.get_field(2, 0).unwrap(), ManhattanDistance::Dist(3));
}

#[test]
fn distance_field_grass_blocks() {
    let b = row_board(vec![
        cell(0, 0, 5, Owner::Me, 1, false, false),
        cell(1, 0, 0, Owner::Neutral, 0, false, false),
        cell(2, 0, 5, Owner::Neutral, 0, false, false),
    ]);
    let d = DistanceBoard::from_owner(&b, Owner::Me);
    assert_eq!(*d.get_field(0, 0).unwrap(), ManhattanDistance::Dist(0));
    assert!(d.get_field(1, 0).unwrap().is_unreachable());
    assert!(d.get_field(2, 0).unwrap().is_unreachable());
}

#[test]
fn distance_field_rebuild_is_identical() {
    let b = row_board(vec![
        cell(0, 0, 5, Owner::Me, 1, false, false),
        cell(1, 0, 1, Owner::Neutral, 0, false, true),
        cell(2, 0, 5, Owner::Neutral, 0, false, false),
        cell(3, 0, 5, Owner::Opponent, 2, false, false),
    ]);
    let d1 = DistanceBoard::from_owner(&b, Owner::Me);
    let d2 = DistanceBoard::from_owner(&b, Owner::Me);
    for x in 0..4 {
        assert_eq!(*d1.get_field(x, 0).unwrap(), *d2.get_field(x, 0).unwrap());
    }
}

#[test]
fn manhattan_distance_helpers() {
    assert!(ManhattanDistance::Unreachable.is_unreachable());
    assert!(!ManhattanDistance::Dist(3).is_unreachable());
    assert_eq!(ManhattanDistance::Dist(3).distance_or_panic(), 3);
    assert_eq!(
        ManhattanDistance::Dist(1).cmp_label(ManhattanDistance::Dist(2)),
        Ordering::Less
    );
    assert_eq!(
        ManhattanDistance::Dist(7).cmp_label(ManhattanDistance::Unreachable),
        Ordering::Less
    );
    assert_eq!(
        ManhattanDistance::Unreachable.cmp_label(ManhattanDistance::Unreachable),
        Ordering::Equal
    );
}

#[test]
fn towards_picks_descending_directions() {
    let b = row_board(vec![
        cell(0, 0, 5, Owner::Me, 1, false, false),
        cell(1, 0, 5, Owner::Neutral, 0, false, false),
        cell(2, 0, 5, Owner::Neutral, 0, false, false),
    ]);
    let d = DistanceBoard::from_owner(&b, Owner::Me);
    // Labels are [0, 1, 2]; from the middle cell, west leads down.
    let down = d.towards(1, 0, Ordering::Less);
    assert_eq!(down, [false, false, false, true]);
    let up = d.towards(1, 0, Ordering::Greater);
    assert_eq!(up, [false, true, false, false]);
}

#[test]
fn allocate_single_candidate_takes_whole_budget() {
    let placed = allocate(2, &vec![0u64]);
    assert_eq!(placed, vec![2]);
}

#[test]
fn allocate_spreads_fairly_over_ties() {
    let placed = allocate(3, &vec![0u64, 0u64]);
    assert_eq!(placed.iter().map(|p| *p as u64).sum::<u64>(), 3);
    // No candidate's effective load exceeds the other's by more than one.
    let e0 = placed[0] as i64;
    let e1 = placed[1] as i64;
    assert!((e0 - e1).abs() <= 1);
}

#[test]
fn allocate_prefers_cheap_candidates() {
    let placed = allocate(3, &vec![0u64, 10u64]);
    assert_eq!(placed, vec![3, 0]);
}

#[test]
fn allocate_zero_budget() {
    let placed = allocate(0, &vec![5u64, 7u64]);
    assert_eq!(placed, vec![0, 0]);
    let empty = allocate(0, &Vec::new());
    assert!(empty.is_empty());
}

#[test]
fn sort_pairs_orders_by_key() {
    let mut v = vec![(5u64, 0usize), (1u64, 1usize), (3u64, 2usize)];
    sort_pairs(&mut v);
    assert_eq!(v, vec![(1, 1), (3, 2), (5, 0)]);
}

#[test]
fn expected_yield_sums_recycler_cells() {
    let b = row_board(vec![
        cell(0, 0, 2, Owner::Me, 0, true, true),
        cell(1, 0, 4, Owner::Neutral, 0, false, true),
        cell(2, 0, 9, Owner::Opponent, 0, true, true),
    ]);
    let yb = YieldBoard::without_recycling(&b);
    // My recycler cell: 2 + min(2, 4) = 4. Opponent's: 9 + min(9, 4) = 13.
    assert_eq!(expected_yield(&b, &yb, Owner::Me), 4);
    assert_eq!(expected_yield(&b, &yb, Owner::Opponent), 13);
    assert_eq!(expected_yield(&b, &yb, Owner::Neutral), 0);
}

#[test]
fn move_robots_conserves_units() {
    let a = agent();
    let b = row_board(vec![
        cell(0, 0, 5, Owner::Me, 3, false, false),
        cell(1, 0, 5, Owner::Neutral, 0, false, false),
        cell(2, 0, 5, Owner::Opponent, 1, false, false),
    ]);
    let odb = DistanceBoard::from_owner(&b, Owner::Opponent);
    let moves = a.move_robots(&b, &odb);
    let mut total = 0u32;
    for m in &moves {
        match m {
            Action::Move { amount, from, to } => {
                assert_eq!(*from, (0, 0));
                assert!(*to == (1, 0) || *to == (0, 0));
                total += amount;
            },
            _ => panic!("move phase emitted a non-move action"),
        }
    }
    assert_eq!(total, 3);
}

#[test]
fn move_robots_falls_back_when_opponent_unreachable() {
    // My unit is walled off from the opponent by grass; it must still move
    // (or stand), and all units stay accounted for.
    let a = agent();
    let b = row_board(vec![
        cell(0, 0, 5, Owner::Me, 2, false, false),
        cell(1, 0, 0, Owner::Neutral, 0, false, false),
        cell(2, 0, 5, Owner::Opponent, 1, false, false),
    ]);
    let odb = DistanceBoard::from_owner(&b, Owner::Opponent);
    let moves = a.move_robots(&b, &odb);
    let mut total = 0u32;
    for m in &moves {
        if let Action::Move { amount, from, .. } = m {
            assert_eq!(*from, (0, 0));
            total += amount;
        }
    }
    assert_eq!(total, 2);
}

#[test]
fn spawn_robots_spends_whole_budget() {
    let a = agent();
    let b = row_board(vec![
        cell(0, 0, 5, Owner::Me, 0, false, false),
        cell(1, 0, 5, Owner::Neutral, 0, false, false),
        cell(2, 0, 5, Owner::Opponent, 1, false, false),
    ]);
    let odb = DistanceBoard::from_owner(&b, Owner::Opponent);
    let spawns = a.spawn_robots(&b, &odb, 4);
    let mut total = 0u32;
    for s in &spawns {
        match s {
            Action::Spawn(amount, x, y) => {
                assert_eq!((*x, *y), (0, 0));
                total += amount;
            },
            _ => panic!("spawn phase emitted a non-spawn action"),
        }
    }
    assert_eq!(total, 4);
}

#[test]
fn build_recyclers_picks_scoring_cells_and_respects_budget() {
    let a = agent();
    // A fat owned cell next to enemy units scores well.
    let b = Board {
        width: 3,
        height: 1,
        my_matter: 30,
        opponent_matter: 0,
        fields: vec![
            cell(0, 0, 9, Owner::Me, 0, false, false),
            cell(1, 0, 9, Owner::Opponent, 8, false, false),
            cell(2, 0, 9, Owner::Opponent, 0, false, false),
        ],
    };
    let odb = DistanceBoard::from_owner(&b, Owner::Opponent);
    let yb = YieldBoard::with_recycling(&b);
    let builds = a.build_recyclers(&b, &yb, &odb, 3);
    assert_eq!(builds.len(), 1);
    match builds[0] {
        Action::Build(x, y) => assert_eq!((x, y), (0, 0)),
        _ => panic!("build phase emitted a non-build action"),
    }
}

#[test]
fn build_recyclers_skips_covered_cells() {
    let a = agent();
    let b = Board {
        width: 3,
        height: 1,
        my_matter: 30,
        opponent_matter: 0,
        fields: vec![
            cell(0, 0, 9, Owner::Me, 0, false, true),
            cell(1, 0, 9, Owner::Opponent, 8, false, false),
            cell(2, 0, 9, Owner::Opponent, 0, false, false),
        ],
    };
    let odb = DistanceBoard::from_owner(&b, Owner::Opponent);
    let yb = YieldBoard::with_recycling(&b);
    let builds = a.build_recyclers(&b, &yb, &odb, 3);
    assert!(builds.is_empty());
}

#[test]
fn generate_actions_produces_all_three_phases() {
    let mut a = agent();
    let b = Board {
        width: 3,
        height: 1,
        my_matter: 20,
        opponent_matter: 50,
        fields: vec![
            cell(0, 0, 9, Owner::Me, 2, false, false),
            cell(1, 0, 9, Owner::Neutral, 0, false, false),
            cell(2, 0, 9, Owner::Opponent, 9, false, false),
        ],
    };
    let actions = a.generate_actions(b);
    let mut moved = 0u32;
    let mut spawned = 0u32;
    for act in &actions {
        match act {
            Action::Move { amount, .. } => moved += amount,
            Action::Spawn(amount, ..) => spawned += amount,
            Action::Build(..) => {},
            _ => {},
        }
    }
    assert_eq!(moved, 2);
    // Whatever was not spent on builds was spawned: matter is 20, so builds
    // and spawns together account for two tens.
    let builds = actions
        .iter()
        .filter(|x| matches!(x, Action::Build(..)))
        .count() as u32;
    assert_eq!(spawned + builds, 2);
}

#[test]
fn generate_taunt_is_a_message() {
    assert!(matches!(Action::generate_taunt(), Action::Message(_)));
}

#[test]
fn distance_field_routes_around_grass() {
    // A 3x3 board with a grass wall down the middle column except at the
    // bottom: the opponent corner is reached the long way round.
    let mut cells = Vec::new();
    for y in 0..3u32 {
        for x in 0..3u32 {
            let (owner, units, scrap) = match (x, y) {
                (0, 0) => (Owner::Me, 1, 5),
                (1, 0) | (1, 1) => (Owner::Neutral, 0, 0), // grass wall
                (2, 0) => (Owner::Opponent, 0, 5),
                _ => (Owner::Neutral, 0, 5),
            };
            cells.push(cell(x, y, scrap, owner, units, false, false));
        }
    }
    let b = Board { width: 3, height: 3, my_matter: 0, opponent_matter: 0, fields: cells };
    let d = DistanceBoard::from_owner(&b, Owner::Me);
    assert_eq!(*d.get_field(0, 0).unwrap(), ManhattanDistance::Dist(0));
    assert!(d.get_field(1, 0).unwrap().is_unreachable());
    assert_eq!(*d.get_field(0, 1).unwrap(), ManhattanDistance::Dist(1));
    assert_eq!(*d.get_field(0, 2).unwrap(), ManhattanDistance::Dist(2));
    assert_eq!(*d.get_field(1, 2).unwrap(), ManhattanDistance::Dist(3));
    assert_eq!(*d.get_field(2, 2).unwrap(), ManhattanDistance::Dist(4));
    assert_eq!(*d.get_field(2, 1).unwrap(), ManhattanDistance::Dist(5));
    assert_eq!(*d.get_field(2, 0).unwrap(), ManhattanDistance::Dist(6));
}

#[test]
fn spawn_robots_serves_every_candidate_cheapest_first() {
    let a = agent();
    // Two eligible frontier cells: cell 1 (no units, distance 2, cost 2) and
    // cell 2 (two units, distance 1, cost 3). A budget of 5 levels their
    // effective loads: 3 units on the cheap cell, 2 on the loaded one, one
    // spawn order per candidate, cheapest first.
    let b = row_board(vec![
        cell(0, 0, 5, Owner::Neutral, 0, false, false),
        cell(1, 0, 5, Owner::Me, 0, false, false),
        cell(2, 0, 5, Owner::Me, 2, false, false),
        cell(3, 0, 5, Owner::Opponent, 1, false, false),
    ]);
    let odb = DistanceBoard::from_owner(&b, Owner::Opponent);
    let spawns = a.spawn_robots(&b, &odb, 5);
    assert_eq!(spawns.len(), 2);
    assert!(matches!(spawns[0], Action::Spawn(3, 1, 0)));
    assert!(matches!(spawns[1], Action::Spawn(2, 2, 0)));
}

#[test]
fn move_robots_plans_closest_groups_first() {
    let a = agent();
    // Two groups: the cell at x=2 (distance 1) plans before the cell at x=0
    // (distance 3). The closer group spreads over both its stepping stones —
    // one order per stone, everything onto the opponent cell — and the far
    // group follows with its single stone.
    let b = row_board(vec![
        cell(0, 0, 5, Owner::Me, 1, false, false),
        cell(1, 0, 5, Owner::Neutral, 0, false, false),
        cell(2, 0, 5, Owner::Me, 1, false, false),
        cell(3, 0, 5, Owner::Opponent, 1, false, false),
    ]);
    let odb = DistanceBoard::from_owner(&b, Owner::Opponent);
    let moves = a.move_robots(&b, &odb);
    assert_eq!(moves.len(), 3);
    assert!(matches!(moves[0], Action::Move { amount: 1, from: (2, 0), to: (3, 0) }));
    assert!(matches!(moves[1], Action::Move { amount: 0, from: (2, 0), to: (1, 0) }));
    assert!(matches!(moves[2], Action::Move { amount: 1, from: (0, 0), to: (1, 0) }));
}

#[test]
fn build_recyclers_spends_leftover_budget_on_uncovered_cells() {
    let a = agent();
    // Three owned cells all score above the minimum. The best placement
    // covers its neighbour, so the remaining budget falls to the farthest
    // cell, which no chosen placement covers.
    let b = Board {
        width: 4,
        height: 1,
        my_matter: 30,
        opponent_matter: 0,
        fields: vec![
            cell(0, 0, 12, Owner::Me, 0, false, false),
            cell(1, 0, 12, Owner::Me, 0, false, false),
            cell(2, 0, 12, Owner::Me, 0, false, false),
            cell(3, 0, 12, Owner::Opponent, 8, false, false),
        ],
    };
    let odb = DistanceBoard::from_owner(&b, Owner::Opponent);
    let yb = YieldBoard::with_recycling(&b);
    let builds = a.build_recyclers(&b, &yb, &odb, 3);
    assert_eq!(builds.len(), 2);
    assert!(matches!(builds[0], Action::Build(2, 0)));
    assert!(matches!(builds[1], Action::Build(0, 0)));
}

#[test]
fn spawn_robots_uses_neutral_field_when_opponent_is_walled_off() {
    let a = agent();
    // Grass separates my territory from the opponent; spawning still happens
    // on the owned cell that borders neutral ground.
    let b = row_board(vec![
        cell(0, 0, 5, Owner::Me, 0, false, false),
        cell(1, 0, 5, Owner::Neutral, 0, false, false),
        cell(2, 0, 0, Owner::Neutral, 0, false, false),
        cell(3, 0, 5, Owner::Opponent, 1, false, false),
    ]);
    let odb = DistanceBoard::from_owner(&b, Owner::Opponent);
    let spawns = a.spawn_robots(&b, &odb, 2);
    let mut total = 0u32;
    for s in &spawns {
        if let Action::Spawn(amount, x, y) = s {
            assert_eq!((*x, *y), (0, 0));
            total += amount;
        }
    }
    assert_eq!(total, 2);
}
