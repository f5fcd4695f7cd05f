use eight_puzzle::{Direction, Heuristic, Outcome, Puzzle, State};
use rand::{SeedableRng, StdRng};

fn rng(seed: usize) -> StdRng {
    let words: [usize; 4] = [1, 2, 3, seed];
    StdRng::from_seed(&words[..])
}

#[test]
fn a_random_move_is_one_that_the_blank_can_make() {
    let mut r = rng(4);
    let mut s = State::new();
    for _ in 0..200 {
        let before = s;
        let d = s.random_move(&mut r);
        let mut again = before;
        assert!(again.slide(d));
        assert_eq!(again, s);
        assert!(s != before);
    }
}

#[test]
fn every_direction_is_drawn() {
    let mut r = rng(9);
    let mut seen: Vec<Direction> = Vec::new();
    for _ in 0..200 {
        let mut s = State::new();
        s.set_state("1234b5678");
        let d = s.random_move(&mut r);
        if !seen.contains(&d) {
            seen.push(d);
        }
    }
    assert_eq!(seen.len(), 4);
}

#[test]
fn scramble_makes_the_number_of_moves_it_is_told() {
    for n in 0..12u32 {
        let mut r = rng(n as usize);
        let mut s = State::new();
        s.scramble(n, &mut r);
        assert!(s.is_legal());
        match s.solve_astar(Heuristic::Manhattan) {
            Outcome::Solved { moves, .. } => {
                assert!(moves <= n as usize);
                // Every move changes the parity of the distance.
                assert_eq!(moves % 2, (n as usize) % 2);
            },
            other => panic!("not solved: {:?}", other),
        }
    }
}

#[test]
fn scramble_of_zero_moves_changes_nothing() {
    let mut r = rng(1);
    let mut s = State::new();
    s.scramble(0, &mut r);
    assert_eq!(s, State::new());
}

#[test]
fn randomize_state_reads_the_number_of_moves() {
    let mut r = rng(2);
    let mut s = State::new();
    assert!(s.randomize_state(" 1", &mut r));
    assert!(s.cells() == "1b2345678".chars().collect::<Vec<char>>()
        || s.cells() == "312b45678".chars().collect::<Vec<char>>());
    let mut t = State::new();
    assert!(!t.randomize_state("a few", &mut r));
    assert!(!t.randomize_state("", &mut r));
    assert_eq!(t, State::new());
    t.set_max_nodes("12");
    assert!(t.randomize_state("25", &mut r));
    assert!(t.is_legal());
    assert_eq!(t.max_nodes(), 12);
}

#[test]
fn the_same_seed_gives_the_same_board() {
    let mut a = State::new();
    let mut b = State::new();
    a.randomize_state("40", &mut rng(7));
    b.randomize_state("40", &mut rng(7));
    assert_eq!(a, b);
}
