//! Board model, harvest simulation and derived-layer behaviour on small
//! fixtures.

use scrapgrid::board::Board;
use scrapgrid::boardbuilder::BoardBuilder;
use scrapgrid::field::Field;
use scrapgrid::mine_board::MineBoard;
use scrapgrid::owner::Owner;
use scrapgrid::recycler_range_board::RecyclerRangeBoard;
use scrapgrid::yield_board::YieldBoard;

fn cell(x: u32, y: u32, scrap: u32, owner: Owner, units: u32, recycler: bool, in_range: bool) -> Field {
    Field {
        x,
        y,
        scrap_amount: scrap,
        owner,
        num_units: units,
        has_recycler: recycler,
        can_build: false,
        can_spawn: false,
        in_recycler_range: in_range,
    }
}

fn row_board(cells: Vec<Field>) -> Board {
    Board {
        width: cells.len() as u32,
        height: 1,
        my_matter: 0,
        opponent_matter: 0,
        fields: cells,
    }
}

#[test]
fn field_predicates() {
    let grass = cell(0, 0, 0, Owner::Neutral, 0, false, false);
    assert!(grass.is_grass());
    assert!(!grass.is_traversible());
    let doomed = cell(0, 0, 1, Owner::Neutral, 0, false, true);
    assert!(!doomed.is_traversible());
    let last_scrap = cell(0, 0, 1, Owner::Neutral, 0, false, false);
    assert!(last_scrap.is_traversible());
    let healthy = cell(0, 0, 5, Owner::Me, 2, false, true);
    assert!(healthy.is_traversible());
}

#[test]
fn owner_from_num() {
    assert_eq!(Owner::from_num(-1), Owner::Neutral);
    assert_eq!(Owner::from_num(0), Owner::Opponent);
    assert_eq!(Owner::from_num(1), Owner::Me);
}

#[test]
fn get_field_and_neighbors() {
    let b = row_board(vec![
        cell(0, 0, 5, Owner::Me, 1, false, false),
        cell(1, 0, 5, Owner::Neutral, 0, false, false),
        cell(2, 0, 5, Owner::Opponent, 1, false, false),
    ]);
    assert!(b.wf_check());
    assert_eq!(b.get_field(1, 0).unwrap().owner, Owner::Neutral);
    assert!(b.get_field(3, 0).is_none());
    assert!(b.get_field(0, 1).is_none());
    let adj = b.get_adjacent_fields(1, 0);
    assert!(adj[0].is_none()); // north
    assert_eq!(adj[1].unwrap().x, 2); // east
    assert!(adj[2].is_none()); // south
    assert_eq!(adj[3].unwrap().x, 0); // west
    let plus = b.get_fields_in_range(0, 0);
    assert_eq!(plus[0].unwrap().x, 0);
    assert!(plus[4].is_none()); // west edge
}

#[test]
fn counts() {
    let b = row_board(vec![
        cell(0, 0, 5, Owner::Me, 3, false, false),
        cell(1, 0, 5, Owner::Me, 2, false, false),
        cell(2, 0, 5, Owner::Opponent, 4, false, false),
    ]);
    assert_eq!(b.robot_count(Owner::Me), 5);
    assert_eq!(b.robot_count(Owner::Opponent), 4);
    assert_eq!(b.robot_count(Owner::Neutral), 0);
    assert_eq!(b.adjacent_robot_count(1, 0, Owner::Me), 3);
    assert_eq!(b.adjacent_robot_count(1, 0, Owner::Opponent), 4);
}

#[test]
fn harvest_cycle_reduces_and_cleans() {
    // A recycler on the middle cell of a 1x3 strip: every cell is covered
    // once, so each loses one scrap; the recycler's own cell drops to zero
    // and the recycler disappears, clearing the range flags.
    let b = row_board(vec![
        cell(0, 0, 5, Owner::Me, 0, false, true),
        cell(1, 0, 1, Owner::Me, 0, true, true),
        cell(2, 0, 3, Owner::Neutral, 0, false, true),
    ]);
    let after = b.process_harvest_cycle();
    assert_eq!(after.get_field(0, 0).unwrap().scrap_amount, 4);
    assert_eq!(after.get_field(1, 0).unwrap().scrap_amount, 0);
    assert_eq!(after.get_field(2, 0).unwrap().scrap_amount, 2);
    assert!(!after.get_field(1, 0).unwrap().has_recycler);
    assert!(!after.get_field(0, 0).unwrap().in_recycler_range);
    assert!(!after.get_field(1, 0).unwrap().in_recycler_range);
    assert!(!after.get_field(2, 0).unwrap().in_recycler_range);
}

#[test]
fn harvest_cycle_saturates_and_keeps_live_recyclers() {
    let b = row_board(vec![
        cell(0, 0, 0, Owner::Neutral, 0, false, true),
        cell(1, 0, 9, Owner::Me, 0, true, true),
        cell(2, 0, 9, Owner::Neutral, 0, false, true),
    ]);
    let after = b.process_harvest_cycle();
    // Grass stays at zero rather than wrapping.
    assert_eq!(after.get_field(0, 0).unwrap().scrap_amount, 0);
    // The recycler survives on its still-scrapped cell and keeps covering.
    assert_eq!(after.get_field(1, 0).unwrap().scrap_amount, 8);
    assert!(after.get_field(1, 0).unwrap().has_recycler);
    assert!(after.get_field(2, 0).unwrap().in_recycler_range);
}

#[test]
fn yield_boards() {
    // Middle cell: own scrap 4, neighbours 2 and 9 (capped at 4).
    let b = row_board(vec![
        cell(0, 0, 2, Owner::Neutral, 0, false, false),
        cell(1, 0, 4, Owner::Neutral, 0, false, false),
        cell(2, 0, 9, Owner::Neutral, 0, false, false),
    ]);
    let without = YieldBoard::without_recycling(&b);
    assert_eq!(*without.get_field(1, 0).unwrap(), 4 + 2 + 4);
    assert_eq!(*without.get_field(0, 0).unwrap(), 2 + 2);
    let with = YieldBoard::with_recycling(&b);
    assert_eq!(*with.get_field(1, 0).unwrap(), 4 + 2 + 4);
    // Raw layer counts every neighbour, even non-traversable ones.
    let raw = MineBoard::new(&b);
    assert_eq!(raw.prospective_scrap[1], 4 + 2 + 4);
}

#[test]
fn yield_with_recycling_discounts_claimed_cells() {
    let b = row_board(vec![
        cell(0, 0, 2, Owner::Neutral, 0, false, true),
        cell(1, 0, 4, Owner::Neutral, 0, false, false),
        cell(2, 0, 9, Owner::Neutral, 0, false, true),
    ]);
    let without = YieldBoard::without_recycling(&b);
    let with = YieldBoard::with_recycling(&b);
    // Both neighbours are already claimed: they add nothing to the
    // with-recycling estimate.
    assert_eq!(*with.get_field(1, 0).unwrap(), 4);
    assert_eq!(*without.get_field(1, 0).unwrap(), 4 + 2 + 4);
    // The with-recycling estimate never exceeds the raw one, on any cell.
    for x in 0..3 {
        assert!(*with.get_field(x, 0).unwrap() <= *without.get_field(x, 0).unwrap());
    }
}

#[test]
fn recycler_range_board_marks_plus_neighborhood() {
    let mut cells = Vec::new();
    for y in 0..3 {
        for x in 0..3 {
            cells.push(cell(x, y, 5, Owner::Neutral, 0, false, false));
        }
    }
    let b = Board { width: 3, height: 3, my_matter: 0, opponent_matter: 0, fields: cells };
    let mut rb = RecyclerRangeBoard::from_board(&b);
    assert_eq!(*rb.get_field(1, 1).unwrap(), false);
    rb.process_recycler_placement(1, 1);
    assert_eq!(*rb.get_field(1, 1).unwrap(), true);
    assert_eq!(*rb.get_field(1, 0).unwrap(), true);
    assert_eq!(*rb.get_field(2, 1).unwrap(), true);
    assert_eq!(*rb.get_field(1, 2).unwrap(), true);
    assert_eq!(*rb.get_field(0, 1).unwrap(), true);
    assert_eq!(*rb.get_field(0, 0).unwrap(), false);
    let adj = rb.get_adjacent_fields(0, 0);
    assert_eq!(*adj[1].unwrap(), true); // east of the corner is (1, 0)
    let plus = rb.get_fields_in_range(1, 1);
    assert_eq!(*plus[0].unwrap(), true);
}

#[test]
fn recycler_range_board_field_variant() {
    let b = row_board(vec![
        cell(0, 0, 5, Owner::Neutral, 0, false, false),
        cell(1, 0, 5, Owner::Neutral, 0, false, false),
    ]);
    let mut rb = RecyclerRangeBoard::from_board(&b);
    let f = *b.get_field(1, 0).unwrap();
    rb.process_recycler_placement_field(&f);
    assert_eq!(*rb.get_field(1, 0).unwrap(), true);
    assert_eq!(*rb.get_field(0, 0).unwrap(), true);
}

#[test]
fn get_field_mut_updates_in_place() {
    let mut b = row_board(vec![
        cell(0, 0, 5, Owner::Neutral, 0, false, false),
        cell(1, 0, 5, Owner::Neutral, 0, false, false),
    ]);
    if let Some(f) = b.get_field_mut(1, 0) {
        f.scrap_amount = 9;
    }
    assert_eq!(b.get_field(1, 0).unwrap().scrap_amount, 9);
    assert!(b.get_field_mut(5, 0).is_none());
}

#[test]
fn builder_stages() {
    let fields = vec![
        cell(0, 0, 5, Owner::Me, 1, false, false),
        cell(1, 0, 5, Owner::Neutral, 0, false, false),
    ];
    let b = BoardBuilder::new(2, 1).with_fields(17, 23, fields).build();
    assert_eq!(b.width, 2);
    assert_eq!(b.height, 1);
    assert_eq!(b.my_matter, 17);
    assert_eq!(b.opponent_matter, 23);
    assert!(b.wf_check());
}

#[test]
fn wf_check_rejects_bad_layouts() {
    let b = Board {
        width: 2,
        height: 1,
        my_matter: 0,
        opponent_matter: 0,
        fields: vec![cell(0, 0, 5, Owner::Neutral, 0, false, false)],
    };
    assert!(!b.wf_check());
    let b2 = Board {
        width: 2,
        height: 1,
        my_matter: 0,
        opponent_matter: 0,
        fields: vec![
            cell(0, 0, 5, Owner::Neutral, 0, false, false),
            cell(0, 0, 5, Owner::Neutral, 0, false, false),
        ],
    };
    assert!(!b2.wf_check());
}

#[test]
fn adjacent_in_range_borders() {
    let r = scrapgrid::board::adjacent_in_range(0, 0, 3, 3);
    assert_eq!(r[0], None);
    assert_eq!(r[1], Some((1, 0)));
    assert_eq!(r[2], Some((0, 1)));
    assert_eq!(r[3], None);
    let m = scrapgrid::board::adjacent_in_range(1, 1, 3, 3);
    assert_eq!(m[0], Some((1, 0)));
    assert_eq!(m[1], Some((2, 1)));
    assert_eq!(m[2], Some((1, 2)));
    assert_eq!(m[3], Some((0, 1)));
}

#[test]
fn yield_grows_with_neighbor_scrap() {
    // Raising a neighbour's scrap (own cell fixed) never lowers the yield.
    let lean = row_board(vec![
        cell(0, 0, 3, Owner::Neutral, 0, false, false),
        cell(1, 0, 4, Owner::Neutral, 0, false, false),
        cell(2, 0, 9, Owner::Neutral, 0, false, false),
    ]);
    let rich = row_board(vec![
        cell(0, 0, 7, Owner::Neutral, 0, false, false),
        cell(1, 0, 4, Owner::Neutral, 0, false, false),
        cell(2, 0, 10, Owner::Neutral, 0, false, false),
    ]);
    let lean_without = YieldBoard::without_recycling(&lean);
    let rich_without = YieldBoard::without_recycling(&rich);
    assert!(*lean_without.get_field(1, 0).unwrap() <= *rich_without.get_field(1, 0).unwrap());
    let lean_with = YieldBoard::with_recycling(&lean);
    let rich_with = YieldBoard::with_recycling(&rich);
    assert!(*lean_with.get_field(1, 0).unwrap() <= *rich_with.get_field(1, 0).unwrap());
}

#[test]
fn scrap_if_not_in_harvester_range_discounts_claimed_cells() {
    let free = cell(0, 0, 7, Owner::Neutral, 0, false, false);
    let claimed = cell(0, 0, 7, Owner::Neutral, 0, false, true);
    assert_eq!(scrapgrid::yield_board::scrap_if_not_in_harvester_range(&free), 7);
    assert_eq!(scrapgrid::yield_board::scrap_if_not_in_harvester_range(&claimed), 0);
}
