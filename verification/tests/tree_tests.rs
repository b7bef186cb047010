use penguin_mcts::rng::XorShift;
use penguin_mcts::table::TableCell;
use penguin_mcts::table::TablePos;
use penguin_mcts::table::TableRow;
use penguin_mcts::Node;
use penguin_mcts::Policy;
use penguin_mcts::Side;

fn row(succs: Vec<usize>, terminal: bool, to_move: Side, p1: u32, p2: u32) -> TableRow {
    TableRow { succs, terminal, to_move, points_one: p1, points_two: p2, cells: Vec::new() }
}

fn pos(rows: &[TableRow], id: usize) -> TablePos {
    let mut copy: Vec<TableRow> = Vec::new();
    for r in rows {
        let mut cells: Vec<TableCell> = Vec::new();
        for c in &r.cells {
            cells.push(TableCell {
                fish: c.fish,
                src_one: c.src_one,
                src_two: c.src_two,
                dests: c.dests.clone(),
            });
        }
        copy.push(TableRow {
            succs: r.succs.clone(),
            terminal: r.terminal,
            to_move: r.to_move,
            points_one: r.points_one,
            points_two: r.points_two,
            cells,
        });
    }
    TablePos { rows: copy, id }
}

fn leaf(rows: &[TableRow], id: usize, visits: u64, total: u64) -> Node<TablePos> {
    Node { pos: pos(rows, id), children: Vec::new(), visits, total, resolved: false }
}

#[test]
fn expansion_mirrors_the_enumerated_moves() {
    let rows = vec![
        row(vec![3, 1, 2], false, Side::One, 0, 0),
        row(vec![], true, Side::Two, 1, 0),
        row(vec![], true, Side::Two, 0, 1),
        row(vec![], true, Side::Two, 1, 1),
    ];
    let mut n: Node<TablePos> = Node::new(pos(&rows, 0));
    n.expand();
    // One child per legal move, in enumeration order, each unexplored.
    assert_eq!(n.children.len(), 3);
    assert_eq!(n.children[0].pos.id, 3);
    assert_eq!(n.children[1].pos.id, 1);
    assert_eq!(n.children[2].pos.id, 2);
    for c in &n.children {
        assert_eq!(c.visits, 0);
        assert_eq!(c.total, 0);
        assert!(!c.resolved);
        assert!(c.children.is_empty());
    }
}

#[test]
fn terminal_leaf_is_scored_without_expansion_and_resolves() {
    let rows = vec![row(vec![], true, Side::One, 1, 2)];
    let n: Node<TablePos> = Node::new(pos(&rows, 0));
    let mut rng = XorShift::new(5);
    let (n2, value) = n.mcts(Side::One, 1410, Policy::RandomPlayout, &mut rng);
    assert!(n2.resolved);
    assert!(n2.children.is_empty());
    assert_eq!(n2.visits, 1);
    // One point against two is a loss for side one.
    assert_eq!(value, 0);
    assert_eq!(n2.total, 0);
}

#[test]
fn terminal_draw_scores_half() {
    let rows = vec![row(vec![], true, Side::Two, 2, 2)];
    let n: Node<TablePos> = Node::new(pos(&rows, 0));
    let mut rng = XorShift::new(5);
    let (n2, value) = n.mcts(Side::One, 1410, Policy::Heuristic, &mut rng);
    assert_eq!(value, 500);
    assert!(n2.resolved);
}

#[test]
fn zero_visit_child_is_selected_first() {
    let rows = vec![
        row(vec![1, 2], false, Side::One, 0, 0),
        row(vec![], true, Side::Two, 1, 0),
        row(vec![], true, Side::Two, 0, 1),
    ];
    // The first child has a perfect average; the second was never tried.
    let c0 = leaf(&rows, 1, 5, 5000);
    let c1 = leaf(&rows, 2, 0, 0);
    let parent = Node {
        pos: pos(&rows, 0),
        children: vec![c0, c1],
        visits: 6,
        total: 5500,
        resolved: false,
    };
    assert_eq!(parent.select_child(Side::One, 1410), 1);
}

#[test]
fn equal_scores_select_the_first_child() {
    let rows = vec![
        row(vec![1, 2], false, Side::One, 0, 0),
        row(vec![], true, Side::Two, 1, 0),
        row(vec![], true, Side::Two, 0, 1),
    ];
    let c0 = leaf(&rows, 1, 2, 1000);
    let c1 = leaf(&rows, 2, 2, 1000);
    let parent = Node {
        pos: pos(&rows, 0),
        children: vec![c0, c1],
        visits: 5,
        total: 2500,
        resolved: false,
    };
    assert_eq!(parent.select_child(Side::One, 1410), 0);
}

#[test]
fn resolved_children_are_skipped_by_selection() {
    let rows = vec![
        row(vec![1, 2], false, Side::One, 0, 0),
        row(vec![], true, Side::Two, 1, 0),
        row(vec![], true, Side::Two, 0, 1),
    ];
    let c0 = Node { resolved: true, ..leaf(&rows, 1, 3, 3000) };
    let c1 = leaf(&rows, 2, 1, 0);
    let parent = Node {
        pos: pos(&rows, 0),
        children: vec![c0, c1],
        visits: 5,
        total: 3000,
        resolved: false,
    };
    assert_eq!(parent.select_child(Side::One, 1410), 1);
}

#[test]
fn selection_flips_the_winrate_for_the_opposing_side() {
    // At a node where the opponent moves, a child that is bad for us scores
    // well for them: with no exploration constant the selection must prefer
    // the child with the lower average.
    let rows = vec![
        row(vec![1, 2], false, Side::Two, 0, 0),
        row(vec![], true, Side::One, 1, 0),
        row(vec![], true, Side::One, 0, 1),
    ];
    let c0 = leaf(&rows, 1, 3, 3000);
    let c1 = leaf(&rows, 2, 3, 0);
    let parent = Node {
        pos: pos(&rows, 0),
        children: vec![c0, c1],
        visits: 7,
        total: 3000,
        resolved: false,
    };
    // The search runs for side one, but side two moves here.
    assert_eq!(parent.select_child(Side::One, 0), 1);
}

#[test]
fn exploration_term_favors_the_under_sampled_child() {
    // With a hundred visits against one, the exploration bonus of the barely
    // sampled child (about 2.87 units here) dwarfs the sampled child's better
    // average: the selection rule must pick the second child.
    let rows = vec![
        row(vec![1, 2], false, Side::One, 0, 0),
        row(vec![], true, Side::Two, 1, 0),
        row(vec![], true, Side::Two, 0, 1),
    ];
    let c0 = leaf(&rows, 1, 100, 60000);
    let c1 = leaf(&rows, 2, 1, 500);
    let parent = Node {
        pos: pos(&rows, 0),
        children: vec![c0, c1],
        visits: 102,
        total: 60500,
        resolved: false,
    };
    assert_eq!(parent.select_child(Side::One, 1410), 1);
}

#[test]
fn descent_accumulates_value_and_visits_along_the_path() {
    let rows = vec![
        row(vec![1], false, Side::One, 0, 0),
        row(vec![], true, Side::Two, 3, 1),
    ];
    let n: Node<TablePos> = Node::new(pos(&rows, 0));
    let mut rng = XorShift::new(9);
    // First cycle: the unvisited root itself is evaluated.
    let (n1, v1) = n.mcts(Side::One, 1410, Policy::Heuristic, &mut rng);
    assert_eq!(n1.visits, 1);
    assert_eq!(n1.total, v1);
    assert!(n1.children.is_empty());
    // Second cycle: the root expands and the terminal child is reached; the
    // heuristic scores its three points against one as three quarters.
    let (n2, v2) = n1.mcts(Side::One, 1410, Policy::Heuristic, &mut rng);
    assert_eq!(n2.visits, 2);
    assert_eq!(n2.children.len(), 1);
    assert_eq!(n2.children[0].visits, 1);
    assert_eq!(v2, 750);
    assert!(n2.children[0].resolved);
    // All children resolved: the root resolved with them.
    assert!(n2.resolved);
}
