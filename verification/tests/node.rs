use eight_puzzle::explored::Explored;
use eight_puzzle::frontier::Frontier;
use eight_puzzle::node::path_to;
use eight_puzzle::{Direction, Heuristic, Node, Puzzle, State};

fn board(text: &str) -> State {
    let mut s = State::new();
    s.set_state(text);
    s
}

fn cells(text: &str) -> Vec<char> {
    text.chars().collect()
}

#[test]
fn the_root_has_no_parent_and_no_moves() {
    let r = Node::root(board("1b2345678"), Heuristic::Manhattan);
    assert_eq!(r.moves, 0);
    assert_eq!(r.cost, 1);
    assert_eq!(r.dir, None);
    assert_eq!(r.parent, None);
    assert_eq!(r.state.cells(), cells("1b2345678"));
}

#[test]
fn expand_tries_up_left_down_right() {
    let r = Node::root(board("1234b5678"), Heuristic::Manhattan);
    let kids = r.expand(7, Heuristic::Manhattan);
    let dirs: Vec<Option<Direction>> = kids.iter().map(|k| k.dir).collect();
    assert_eq!(
        dirs,
        vec![
            Some(Direction::Up),
            Some(Direction::Left),
            Some(Direction::Down),
            Some(Direction::Right)
        ]
    );
    let boards: Vec<Vec<char>> = kids.iter().map(|k| k.state.cells()).collect();
    assert_eq!(
        boards,
        vec![cells("1b3425678"), cells("123b45678"), cells("1234756b8"), cells("12345b678")]
    );
    for k in kids.iter() {
        assert_eq!(k.parent, Some(7));
        assert_eq!(k.moves, 1);
    }
}

#[test]
fn expand_leaves_out_the_moves_that_the_edge_forbids() {
    let corner = Node::root(State::new(), Heuristic::Misplaced);
    let kids = corner.expand(0, Heuristic::Misplaced);
    let dirs: Vec<Option<Direction>> = kids.iter().map(|k| k.dir).collect();
    assert_eq!(dirs, vec![Some(Direction::Down), Some(Direction::Right)]);
    let edge = Node::root(board("1b2345678"), Heuristic::Misplaced);
    let dirs: Vec<Option<Direction>> =
        edge.expand(0, Heuristic::Misplaced).iter().map(|k| k.dir).collect();
    assert_eq!(dirs, vec![Some(Direction::Left), Some(Direction::Down), Some(Direction::Right)]);
    let last = Node::root(board("12345678b"), Heuristic::Misplaced);
    let dirs: Vec<Option<Direction>> =
        last.expand(0, Heuristic::Misplaced).iter().map(|k| k.dir).collect();
    assert_eq!(dirs, vec![Some(Direction::Up), Some(Direction::Left)]);
}

#[test]
fn the_cost_of_a_child_is_its_moves_plus_its_estimate() {
    let root = Node::root(board("1b2345678"), Heuristic::Manhattan);
    let kids = root.expand(0, Heuristic::Manhattan);
    // Left gives the goal; down and right move a tile away from its place.
    let costs: Vec<u128> = kids.iter().map(|k| k.cost).collect();
    assert_eq!(costs, vec![1 + 0, 1 + 2, 1 + 2]);
    let grand = kids[1].expand(2, Heuristic::Manhattan);
    for g in grand.iter() {
        assert_eq!(g.moves, 2);
        assert_eq!(g.parent, Some(2));
    }
    let kids1 = root.expand(0, Heuristic::Misplaced);
    let costs1: Vec<u128> = kids1.iter().map(|k| k.cost).collect();
    assert_eq!(costs1, vec![1 + 0, 1 + 2, 1 + 2]);
}

#[test]
fn the_path_lists_the_oldest_move_first() {
    let h = Heuristic::Manhattan;
    let mut nodes: Vec<Node> = vec![Node::root(State::new(), h)];
    let down = nodes[0].expand(0, h)[0];
    nodes.push(down);
    let right = nodes[1].expand(1, h)[2];
    nodes.push(right);
    let up = nodes[2].expand(2, h)[0];
    nodes.push(up);
    assert_eq!(path_to(&nodes, 0), vec![]);
    assert_eq!(path_to(&nodes, 1), vec![Direction::Down]);
    assert_eq!(path_to(&nodes, 3), vec![Direction::Down, Direction::Right, Direction::Up]);
    let mut s = State::new();
    for d in path_to(&nodes, 3) {
        assert!(s.slide(d));
    }
    assert!(s.same_board(&nodes[3].state));
}

#[test]
fn keys_tell_boards_apart() {
    assert_eq!(State::new().key(), 6053444);
    assert_eq!(board("12345678b").key(), 54480996);
    let mut seen = std::collections::HashSet::new();
    let mut s = State::new();
    for w in ["down", "right", "up", "right", "down", "down", "left", "left", "up"] {
        assert!(seen.insert(s.key()));
        assert!(s.move_blank(w));
    }
}

fn node_of_cost(cost: u128) -> Node {
    let mut n = Node::root(State::new(), Heuristic::Manhattan);
    n.cost = cost;
    n
}

#[test]
fn the_frontier_gives_the_cheapest_first() {
    let costs: [u128; 10] = [5, 3, 9, 3, 7, 1, 8, 1, 5, 0];
    let nodes: Vec<Node> = costs.iter().map(|c| node_of_cost(*c)).collect();
    let mut f = Frontier::new();
    for id in 0..nodes.len() {
        f.insert(id, &nodes);
        assert_eq!(f.len(), id + 1);
    }
    let mut out: Vec<usize> = Vec::new();
    while let Some(id) = f.take_cheapest(&nodes) {
        out.push(id);
    }
    // By cost and, for equal cost, by index.
    assert_eq!(out, vec![9, 5, 7, 1, 3, 0, 8, 4, 6, 2]);
    assert_eq!(f.len(), 0);
    assert_eq!(f.take_cheapest(&nodes), None);
}

#[test]
fn the_frontier_keeps_order_between_insertions() {
    let costs: [u128; 6] = [4, 4, 2, 6, 2, 4];
    let nodes: Vec<Node> = costs.iter().map(|c| node_of_cost(*c)).collect();
    let mut f = Frontier::new();
    f.insert(3, &nodes);
    f.insert(1, &nodes);
    f.insert(5, &nodes);
    assert_eq!(f.take_cheapest(&nodes), Some(1));
    f.insert(0, &nodes);
    f.insert(4, &nodes);
    assert_eq!(f.take_cheapest(&nodes), Some(4));
    f.insert(2, &nodes);
    assert_eq!(f.take_cheapest(&nodes), Some(2));
    assert_eq!(f.take_cheapest(&nodes), Some(0));
    assert_eq!(f.take_cheapest(&nodes), Some(5));
    assert_eq!(f.take_cheapest(&nodes), Some(3));
    assert_eq!(f.take_cheapest(&nodes), None);
}

#[test]
fn the_explored_set_keeps_one_node_for_a_board() {
    let mut e = Explored::new();
    assert_eq!(e.get(7), None);
    e.insert(7, 1);
    e.insert(9, 2);
    assert_eq!(e.get(7), Some(1));
    assert_eq!(e.get(9), Some(2));
    e.insert(7, 5);
    assert_eq!(e.get(7), Some(5));
    assert_eq!(e.get(8), None);
}
