use penguin_mcts::choose_move;
use penguin_mcts::game_outcome;
use penguin_mcts::reuse_root;
use penguin_mcts::table::TableCell;
use penguin_mcts::table::TablePos;
use penguin_mcts::table::TableRow;
use penguin_mcts::Config;
use penguin_mcts::Node;
use penguin_mcts::Outcome;
use penguin_mcts::Policy;
use penguin_mcts::Side;

fn row(succs: Vec<usize>, terminal: bool, to_move: Side, p1: u32, p2: u32) -> TableRow {
    TableRow { succs, terminal, to_move, points_one: p1, points_two: p2, cells: Vec::new() }
}

fn pos(rows: &[TableRow], id: usize) -> TablePos {
    let mut copy: Vec<TableRow> = Vec::new();
    for r in rows {
        let mut cells: Vec<TableCell> = Vec::new();
        for c in &r.cells {
            cells.push(TableCell {
                fish: c.fish,
                src_one: c.src_one,
                src_two: c.src_two,
                dests: c.dests.clone(),
            });
        }
        copy.push(TableRow {
            succs: r.succs.clone(),
            terminal: r.terminal,
            to_move: r.to_move,
            points_one: r.points_one,
            points_two: r.points_two,
            cells,
        });
    }
    TablePos { rows: copy, id }
}

fn cfg(policy: Policy, max_cycles: u64) -> Config {
    Config { time_ms: 10000, explore_milli: 1410, policy, max_cycles, seed: 7 }
}

fn leaf(rows: &[TableRow], id: usize, visits: u64, total: u64) -> Node<TablePos> {
    Node { pos: pos(rows, id), children: Vec::new(), visits, total, resolved: false }
}

// A one-ply game: the root has exactly one legal move, into a terminal win.
fn one_ply() -> Vec<TableRow> {
    vec![
        row(vec![1], false, Side::One, 0, 0),
        row(vec![], true, Side::Two, 3, 1),
    ]
}

#[test]
fn terminal_position_yields_no_move() {
    let rows = vec![row(vec![], true, Side::One, 2, 2)];
    let r = choose_move(None, pos(&rows, 0), &cfg(Policy::Heuristic, 100));
    assert!(r.is_none());
}

#[test]
fn one_ply_game_selects_the_single_move() {
    let rows = one_ply();
    let r = choose_move(None, pos(&rows, 0), &cfg(Policy::Heuristic, 1));
    let (mv, tree) = r.unwrap();
    assert_eq!(mv, 0);
    assert!(tree.visits >= 1);
}

#[test]
fn one_ply_game_selects_the_single_move_after_many_cycles() {
    let rows = one_ply();
    let r = choose_move(None, pos(&rows, 0), &cfg(Policy::RandomPlayout, 50));
    let (mv, tree) = r.unwrap();
    assert_eq!(mv, 0);
    assert_eq!(tree.children.len(), 1);
}

#[test]
fn resolution_is_reached_and_never_reset() {
    let rows = one_ply();
    let r = choose_move(None, pos(&rows, 0), &cfg(Policy::Heuristic, 50));
    let (_, tree) = r.unwrap();
    // The whole game tree is tiny: fifty cycles fully resolve it.
    assert!(tree.resolved);
    assert!(tree.children[0].resolved);
    // A further turn at the same position reuses the tree; the flag stays.
    let r2 = choose_move(Some(tree), pos(&rows, 0), &cfg(Policy::Heuristic, 50));
    let (_, tree2) = r2.unwrap();
    assert!(tree2.resolved);
    assert!(tree2.children[0].resolved);
}

#[test]
fn visit_conservation_on_the_returned_tree() {
    // Root with three moves, each into a terminal position.
    let rows = vec![
        row(vec![1, 2, 3], false, Side::One, 0, 0),
        row(vec![], true, Side::Two, 1, 0),
        row(vec![], true, Side::Two, 0, 1),
        row(vec![], true, Side::Two, 1, 1),
    ];
    let r = choose_move(None, pos(&rows, 0), &cfg(Policy::RandomPlayout, 3));
    let (_, tree) = r.unwrap();
    let child_sum: u64 = tree.children.iter().map(|c| c.visits).sum();
    assert_eq!(tree.visits, 1 + child_sum);
}

#[test]
fn reuse_takes_the_matching_grandchild_with_its_statistics() {
    // Root 0 with children A (row 1) and B (row 2); A has the child A1 (row 3).
    let rows = vec![
        row(vec![1, 2], false, Side::One, 0, 0),
        row(vec![3], false, Side::Two, 0, 0),
        row(vec![3], false, Side::Two, 0, 0),
        row(vec![], true, Side::One, 2, 1),
    ];
    let a1 = leaf(&rows, 3, 1, 700);
    let a = Node {
        pos: pos(&rows, 1),
        children: vec![a1],
        visits: 2,
        total: 900,
        resolved: false,
    };
    let b = leaf(&rows, 2, 1, 100);
    let root = Node {
        pos: pos(&rows, 0),
        children: vec![a, b],
        visits: 4,
        total: 1500,
        resolved: false,
    };
    let new_root = reuse_root(Some(root), pos(&rows, 3));
    assert_eq!(new_root.pos.id, 3);
    assert_eq!(new_root.visits, 1);
    assert_eq!(new_root.total, 700);
    assert!(!new_root.resolved);
    assert_eq!(new_root.children.len(), 0);
}

#[test]
fn reuse_prefers_the_earlier_candidate() {
    // The actual position matches the retained root itself: its statistics
    // survive wholesale.
    let rows = one_ply();
    let child = leaf(&rows, 1, 1, 1000);
    let root = Node {
        pos: pos(&rows, 0),
        children: vec![child],
        visits: 2,
        total: 1200,
        resolved: false,
    };
    let new_root = reuse_root(Some(root), pos(&rows, 0));
    assert_eq!(new_root.pos.id, 0);
    assert_eq!(new_root.visits, 2);
    assert_eq!(new_root.total, 1200);
    assert_eq!(new_root.children.len(), 1);
}

#[test]
fn reuse_falls_back_to_a_fresh_root() {
    let rows = vec![
        row(vec![1], false, Side::One, 0, 0),
        row(vec![], true, Side::Two, 1, 0),
        row(vec![], true, Side::Two, 0, 1),
    ];
    let old_root = leaf(&rows, 1, 1, 500);
    // Row 2 appears nowhere in the retained tree.
    let new_root = reuse_root(Some(old_root), pos(&rows, 2));
    assert_eq!(new_root.pos.id, 2);
    assert_eq!(new_root.visits, 0);
    assert_eq!(new_root.total, 0);
    assert!(!new_root.resolved);
    assert_eq!(new_root.children.len(), 0);
}

#[test]
fn same_seed_gives_the_same_move() {
    let rows = vec![
        row(vec![1, 2, 3], false, Side::One, 0, 0),
        row(vec![], true, Side::Two, 2, 0),
        row(vec![], true, Side::Two, 0, 2),
        row(vec![], true, Side::Two, 1, 1),
    ];
    let c = cfg(Policy::RandomPlayout, 40);
    let (mv1, _) = choose_move(None, pos(&rows, 0), &c).unwrap();
    let (mv2, _) = choose_move(None, pos(&rows, 0), &c).unwrap();
    assert_eq!(mv1, mv2);
}

#[test]
fn reuse_takes_the_first_of_two_matching_children() {
    // Both moves of the root lead to the same position: the scan must hand
    // back the first matching child, with its own statistics.
    let rows = vec![
        row(vec![1, 1], false, Side::One, 0, 0),
        row(vec![], true, Side::Two, 1, 0),
    ];
    let c0 = leaf(&rows, 1, 1, 300);
    let c1 = leaf(&rows, 1, 1, 900);
    let root = Node {
        pos: pos(&rows, 0),
        children: vec![c0, c1],
        visits: 3,
        total: 1200,
        resolved: false,
    };
    let new_root = reuse_root(Some(root), pos(&rows, 1));
    assert_eq!(new_root.total, 300);
}

#[test]
fn robust_child_rule_prefers_visits_then_value_then_order() {
    let rows = vec![
        row(vec![1, 2, 3], false, Side::One, 0, 0),
        row(vec![], true, Side::Two, 1, 0),
        row(vec![], true, Side::Two, 0, 1),
        row(vec![], true, Side::Two, 1, 1),
    ];
    let parent = Node {
        pos: pos(&rows, 0),
        children: vec![
            leaf(&rows, 1, 3, 3000),
            leaf(&rows, 2, 5, 100),
            leaf(&rows, 3, 5, 200),
        ],
        visits: 14,
        total: 3300,
        resolved: false,
    };
    // Five visits beat three, and at five visits the larger total wins.
    assert_eq!(penguin_mcts::engine::best_child_index(&parent), 2);
    let tied = Node {
        pos: pos(&rows, 0),
        children: vec![
            leaf(&rows, 1, 4, 200),
            leaf(&rows, 2, 4, 200),
            leaf(&rows, 3, 1, 900),
        ],
        visits: 10,
        total: 1300,
        resolved: false,
    };
    // A full tie falls back to enumeration order.
    assert_eq!(penguin_mcts::engine::best_child_index(&tied), 0);
}

#[test]
fn outcome_of_a_reported_winner() {
    assert_eq!(game_outcome(Some(Side::One), Side::One), Outcome::Win);
    assert_eq!(game_outcome(Some(Side::Two), Side::One), Outcome::Loss);
    assert_eq!(game_outcome(None, Side::Two), Outcome::Draw);
}
