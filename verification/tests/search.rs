use eight_puzzle::{Direction, Heuristic, Outcome, Puzzle, Reply, State};
use std::collections::{HashMap, VecDeque};

fn board(text: &str) -> State {
    let mut s = State::new();
    s.set_state(text);
    s
}

const ALL: [Direction; 4] = [Direction::Up, Direction::Left, Direction::Down, Direction::Right];

/// The number of moves that every board within `depth` moves of the goal needs, by
/// breadth-first search from the goal.
fn distances(depth: usize) -> HashMap<Vec<char>, usize> {
    let mut seen: HashMap<Vec<char>, usize> = HashMap::new();
    let mut queue: VecDeque<State> = VecDeque::new();
    seen.insert(State::new().cells(), 0);
    queue.push_back(State::new());
    while let Some(s) = queue.pop_front() {
        let d = seen[&s.cells()];
        if d == depth {
            continue;
        }
        for m in ALL {
            let mut t = s;
            if t.slide(m) && !seen.contains_key(&t.cells()) {
                seen.insert(t.cells(), d + 1);
                queue.push_back(t);
            }
        }
    }
    seen
}

fn follow(start: &State, path: &[Direction]) -> State {
    let mut s = *start;
    for m in path {
        assert!(s.slide(*m), "a move of the path is not possible");
    }
    s
}

fn solved(o: Outcome) -> (usize, Vec<Direction>) {
    match o {
        Outcome::Solved { moves, path } => (moves, path),
        other => panic!("not solved: {:?}", other),
    }
}

#[test]
fn astar_on_the_goal_reports_no_moves() {
    let s = State::new();
    assert_eq!(s.solve_astar(Heuristic::Manhattan), Outcome::Solved { moves: 0, path: vec![] });
    assert_eq!(s.solve_astar(Heuristic::Misplaced), Outcome::Solved { moves: 0, path: vec![] });
    assert_eq!(
        s.solve("A-star h2"),
        Reply::Searched(Outcome::Solved { moves: 0, path: vec![] })
    );
}

#[test]
fn astar_undoes_one_move_right() {
    let mut s = State::new();
    assert!(s.move_blank("right"));
    s.set_max_nodes("0");
    assert_eq!(
        s.solve("A-star h1"),
        Reply::Searched(Outcome::Solved { moves: 1, path: vec![Direction::Left] })
    );
    assert_eq!(
        s.solve_astar(Heuristic::Manhattan),
        Outcome::Solved { moves: 1, path: vec![Direction::Left] }
    );
}

#[test]
fn astar_with_one_node_runs_out_of_nodes() {
    let mut s = board("724b56831");
    s.set_max_nodes("1");
    assert_eq!(s.solve("A-star h2"), Reply::Searched(Outcome::OutOfNodes));
    assert_eq!(s.solve_astar(Heuristic::Misplaced), Outcome::OutOfNodes);
    let mut near = board("1b2345678");
    near.set_max_nodes("1");
    assert_eq!(near.solve_astar(Heuristic::Manhattan), Outcome::OutOfNodes);
}

#[test]
fn astar_with_one_node_still_knows_the_goal() {
    let mut s = State::new();
    s.set_max_nodes("1");
    assert_eq!(s.solve_astar(Heuristic::Manhattan), Outcome::Solved { moves: 0, path: vec![] });
}

#[test]
fn the_budget_counts_the_nodes_that_are_kept() {
    // One move right of the goal: the first board and its three children make
    // four nodes, and the goal is among the children.
    let mut s = board("1b2345678");
    s.limit_nodes(3);
    assert_eq!(s.solve_astar(Heuristic::Manhattan), Outcome::OutOfNodes);
    s.limit_nodes(4);
    assert_eq!(
        s.solve_astar(Heuristic::Manhattan),
        Outcome::Solved { moves: 1, path: vec![Direction::Left] }
    );
    // In a corner the blank has two moves: three nodes are enough.
    let mut c = board("12b345678");
    c.limit_nodes(2);
    assert_eq!(c.solve_astar(Heuristic::Manhattan), Outcome::OutOfNodes);
}

#[test]
fn astar_finds_shortest_paths_near_the_goal() {
    let known = distances(8);
    for (cells, d) in known.iter() {
        let text: String = cells.iter().collect();
        let s = board(&text);
        for h in [Heuristic::Misplaced, Heuristic::Manhattan] {
            let (moves, path) = solved(s.solve_astar(h));
            assert_eq!(moves, *d, "{}", text);
            assert_eq!(path.len(), *d);
            assert!(follow(&s, &path).same_board(&State::new()));
        }
    }
}

#[test]
fn astar_solves_a_board_far_from_the_goal() {
    let s = board("724b56831");
    let (moves, path) = solved(s.solve_astar(Heuristic::Manhattan));
    assert_eq!(moves, path.len());
    assert!(follow(&s, &path).same_board(&State::new()));
    let (other, _) = solved(s.solve_astar(Heuristic::Misplaced));
    assert_eq!(moves, other);
}

#[test]
fn astar_breaks_ties_by_the_order_up_left_down_right() {
    // One move down and one move right of the goal: two shortest paths lead
    // back, up then left and left then up.
    let s = board("312475b68");
    let (moves, path) = solved(s.solve_astar(Heuristic::Manhattan));
    assert_eq!(moves, path.len());
    assert!(follow(&s, &path).same_board(&State::new()));
    let again = solved(s.solve_astar(Heuristic::Manhattan));
    assert_eq!(again.1, path);
}

#[test]
fn beam_of_width_one_on_the_goal_reports_no_moves() {
    let s = State::new();
    assert_eq!(s.solve_beam(1), Outcome::Solved { moves: 0, path: vec![] });
    assert_eq!(s.solve_beam(0), Outcome::Solved { moves: 0, path: vec![] });
    assert_eq!(s.solve("beam 1"), Reply::Searched(Outcome::Solved { moves: 0, path: vec![] }));
    let mut tight = State::new();
    tight.limit_nodes(1);
    assert_eq!(tight.solve_beam(1), Outcome::Solved { moves: 0, path: vec![] });
}

#[test]
fn beam_of_width_one_walks_downhill() {
    let s = board("1b2345678");
    assert_eq!(s.solve_beam(1), Outcome::Solved { moves: 1, path: vec![Direction::Left] });
    let t = board("12534b678");
    let (moves, path) = solved(t.solve_beam(1));
    assert_eq!(moves, 3);
    assert_eq!(path, vec![Direction::Up, Direction::Left, Direction::Left]);
}

#[test]
fn beam_ends_with_the_goal_or_the_budget() {
    let known = distances(6);
    for (cells, _) in known.iter() {
        let text: String = cells.iter().collect();
        let mut s = board(&text);
        s.limit_nodes(2000);
        for width in [1usize, 2, 5, 50] {
            match s.solve_beam(width) {
                Outcome::Solved { moves, path } => {
                    assert_eq!(moves, path.len());
                    assert!(follow(&s, &path).same_board(&State::new()));
                },
                Outcome::OutOfNodes => {},
                Outcome::NoSolution => panic!("a beam search never says so"),
            }
        }
    }
}

#[test]
fn a_wide_beam_solves_a_board_far_from_the_goal() {
    let s = board("724b56831");
    let (moves, path) = solved(s.solve_beam(200));
    assert_eq!(moves, path.len());
    assert!(follow(&s, &path).same_board(&State::new()));
}

#[test]
fn beam_with_one_node_runs_out_of_nodes() {
    let mut s = board("724b56831");
    s.limit_nodes(1);
    assert_eq!(s.solve_beam(5), Outcome::OutOfNodes);
    s.limit_nodes(40);
    assert_eq!(s.solve_beam(5), Outcome::OutOfNodes);
}

#[test]
fn beam_goes_round_in_circles_until_the_budget_is_spent() {
    // Two tiles exchanged: the goal cannot be reached.
    let mut s = board("b21345678");
    s.limit_nodes(5000);
    assert_eq!(s.solve_beam(3), Outcome::OutOfNodes);
}

#[test]
fn astar_runs_out_of_nodes_where_the_goal_cannot_be_reached() {
    let mut s = board("b21345678");
    s.limit_nodes(3000);
    assert_eq!(s.solve_astar(Heuristic::Manhattan), Outcome::OutOfNodes);
}

#[test]
fn solve_reads_method_and_parameter() {
    let s = board("1b2345678");
    let one = Reply::Searched(Outcome::Solved { moves: 1, path: vec![Direction::Left] });
    assert_eq!(s.solve("A-star h1"), one);
    assert_eq!(s.solve("A-star h2"), one);
    assert_eq!(s.solve(" a h2"), one);
    assert_eq!(s.solve("beam 10"), one);
    assert_eq!(s.solve(" beam 0"), one);
    assert_eq!(s.solve("A-star h3"), Reply::NoHeuristic);
    assert_eq!(s.solve("A-star 2"), Reply::NoHeuristic);
    assert_eq!(s.solve("dfs 3"), Reply::NoMethod);
    assert_eq!(s.solve("Beam 3"), Reply::NoMethod);
    assert_eq!(s.solve("beam"), Reply::Malformed);
    assert_eq!(s.solve(""), Reply::Malformed);
    assert_eq!(s.solve("A-star  h2"), Reply::Malformed);
}

#[test]
fn solve_takes_the_first_match_in_the_payload() {
    let s = board("1b2345678");
    // The pattern is searched for, so what stands before the method is passed over.
    let one = Reply::Searched(Outcome::Solved { moves: 1, path: vec![Direction::Left] });
    assert_eq!(s.solve("please beam 2 now"), one);
    assert_eq!(s.solve("? A-star h2!"), one);
    assert_eq!(s.solve("x-beam 4"), Reply::NoMethod);
    assert_eq!(s.solve("beam h2"), Reply::NoWidth);
    assert_eq!(s.solve("beam 99999999999"), Reply::NoWidth);
}

#[test]
fn astar_says_so_when_the_goal_cannot_be_reached() {
    // Two tiles exchanged: no sequence of moves leads to the goal.
    let s = board("b21345678");
    assert_eq!(s.solve_astar(Heuristic::Manhattan), Outcome::NoSolution);
}

#[test]
fn astar_solves_the_hardest_boards() {
    let known = distances(40);
    // Half of all arrangements can be reached, and none needs more than 31 moves.
    assert_eq!(known.len(), 181440);
    let most = *known.values().max().unwrap();
    assert_eq!(most, 31);
    for (cells, d) in known.iter() {
        if *d == most {
            let text: String = cells.iter().collect();
            let s = board(&text);
            let (moves, path) = solved(s.solve_astar(Heuristic::Manhattan));
            assert_eq!(moves, 31);
            assert_eq!(path.len(), 31);
            assert!(follow(&s, &path).same_board(&State::new()));
        }
    }
}
