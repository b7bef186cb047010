use penguin_mcts::eval::heuristic_value;
use penguin_mcts::eval::playout;
use penguin_mcts::num::isqrt;
use penguin_mcts::num::log2_floor;
use penguin_mcts::rng::XorShift;
use penguin_mcts::table::TableCell;
use penguin_mcts::table::TablePos;
use penguin_mcts::table::TableRow;
use penguin_mcts::territory::distances;
use penguin_mcts::Side;

fn cell(fish: u32, src_one: bool, src_two: bool, dests: Vec<usize>) -> TableCell {
    TableCell { fish, src_one, src_two, dests }
}

fn board_row(
    succs: Vec<usize>,
    terminal: bool,
    to_move: Side,
    p1: u32,
    p2: u32,
    cells: Vec<TableCell>,
) -> TableRow {
    TableRow { succs, terminal, to_move, points_one: p1, points_two: p2, cells }
}

#[test]
fn heuristic_without_territory_is_the_material_share() {
    // Three points against one, no board cells: three quarters of the unit.
    let rows = vec![board_row(vec![], true, Side::One, 3, 1, vec![])];
    let p = TablePos { rows, id: 0 };
    assert_eq!(heuristic_value(&p, Side::One), 750);
    let rows2 = vec![board_row(vec![], true, Side::One, 3, 1, vec![])];
    let p2 = TablePos { rows: rows2, id: 0 };
    assert_eq!(heuristic_value(&p2, Side::Two), 250);
}

#[test]
fn heuristic_with_nothing_to_share_is_the_midpoint() {
    let rows = vec![board_row(vec![], true, Side::One, 0, 0, vec![])];
    let p = TablePos { rows, id: 0 };
    assert_eq!(heuristic_value(&p, Side::One), 500);
}

fn contested_board() -> TablePos {
    // Side one reaches the four-fish cell in one step, side two needs two.
    let cells = vec![
        cell(0, true, false, vec![1]),
        cell(4, false, false, vec![]),
        cell(0, false, true, vec![3]),
        cell(0, false, false, vec![1]),
    ];
    let rows = vec![board_row(vec![], true, Side::One, 1, 1, cells)];
    TablePos { rows, id: 0 }
}

#[test]
fn flood_fill_records_least_step_counts() {
    let p = contested_board();
    let d_one = distances(&p, Side::One);
    assert_eq!(d_one[0], 0);
    assert_eq!(d_one[1], 1);
    assert_eq!(d_one[2], u64::MAX);
    assert_eq!(d_one[3], u64::MAX);
    let d_two = distances(&p, Side::Two);
    assert_eq!(d_two[0], u64::MAX);
    assert_eq!(d_two[1], 2);
    assert_eq!(d_two[2], 0);
    assert_eq!(d_two[3], 1);
}

#[test]
fn contested_fish_go_to_the_strictly_closer_side() {
    // Material one against one; the contested four fish go to side one:
    // five sixths of the unit, rounded down.
    let p = contested_board();
    assert_eq!(heuristic_value(&p, Side::One), 833);
    let q = contested_board();
    assert_eq!(heuristic_value(&q, Side::Two), 166);
}

#[test]
fn playout_of_a_forced_line_scores_the_terminal_position() {
    let rows = vec![
        board_row(vec![1], false, Side::One, 0, 0, vec![]),
        board_row(vec![], true, Side::Two, 2, 1, vec![]),
    ];
    let p = TablePos { rows, id: 0 };
    let mut rng = XorShift::new(3);
    assert_eq!(playout(&p, Side::One, 64, &mut rng), 1000);
    let mut rng2 = XorShift::new(3);
    assert_eq!(playout(&p, Side::Two, 64, &mut rng2), 0);
}

#[test]
fn playout_scores_a_draw_as_half() {
    let rows = vec![board_row(vec![], true, Side::One, 5, 5, vec![])];
    let p = TablePos { rows, id: 0 };
    let mut rng = XorShift::new(11);
    assert_eq!(playout(&p, Side::One, 64, &mut rng), 500);
}

#[test]
fn integer_square_root_brackets_its_argument() {
    assert_eq!(isqrt(0), 0);
    assert_eq!(isqrt(1), 1);
    assert_eq!(isqrt(24), 4);
    assert_eq!(isqrt(25), 5);
    assert_eq!(isqrt(43659000), 6607);
}

#[test]
fn base_two_logarithm_floors() {
    assert_eq!(log2_floor(1), 0);
    assert_eq!(log2_floor(2), 1);
    assert_eq!(log2_floor(1023), 9);
    assert_eq!(log2_floor(1024), 10);
}

#[test]
fn generator_is_deterministic_from_its_seed() {
    let mut a = XorShift::new(42);
    let mut b = XorShift::new(42);
    assert_eq!(a.next(), b.next());
    assert_eq!(a.next(), b.next());
    let mut c = XorShift::new(0);
    // A zero seed falls back to a fixed nonzero state.
    assert_ne!(c.next(), 0);
}
