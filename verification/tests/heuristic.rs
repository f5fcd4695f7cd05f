use eight_puzzle::heuristic::score;
use eight_puzzle::{h1, h2, Heuristic, Puzzle, State};

fn cells(text: &str) -> Vec<char> {
    text.chars().collect()
}

fn board(text: &str) -> State {
    let mut s = State::new();
    s.set_state(text);
    s
}

#[test]
fn both_are_zero_at_the_goal() {
    let goal = cells("b12345678");
    assert_eq!(h1(&goal, &goal), 0);
    assert_eq!(h2(&goal, &goal), 0);
    assert_eq!(score(Heuristic::Misplaced, &State::new()), 0);
    assert_eq!(score(Heuristic::Manhattan, &State::new()), 0);
}

#[test]
fn one_move_away_counts_one() {
    let goal = cells("b12345678");
    let right = cells("1b2345678");
    let down = cells("312b45678");
    assert_eq!(h1(&right, &goal), 1);
    assert_eq!(h2(&right, &goal), 1);
    assert_eq!(h1(&down, &goal), 1);
    assert_eq!(h2(&down, &goal), 1);
}

#[test]
fn the_blank_is_not_counted() {
    // Only tiles 1 and 2 are out of place; the blank is, too, but does not count.
    let goal = cells("b12345678");
    let board = cells("12b345678");
    assert_eq!(h1(&board, &goal), 2);
    assert_eq!(h2(&board, &goal), 2);
}

#[test]
fn misplaced_counts_tiles_and_manhattan_their_distances() {
    let goal = cells("b12345678");
    let far = cells("87654321b");
    // Tile 4 sits in the middle in both; the seven other tiles are misplaced.
    assert_eq!(h1(&far, &goal), 7);
    // Rows plus columns apart, for the tiles 8 down to 1.
    assert_eq!(h2(&far, &goal), 4 + 2 + 4 + 2 + 0 + 2 + 4 + 2);
    let mixed = cells("724b56831");
    assert_eq!(h1(&mixed, &goal), 8);
    // In the order of the board: 7, 2, 4, 5, 6, 8, 3, 1.
    assert_eq!(h2(&mixed, &goal), 3 + 1 + 2 + 1 + 3 + 2 + 2 + 3);
}

#[test]
fn manhattan_is_the_same_both_ways_round() {
    let a = cells("724b56831");
    let b = cells("b12345678");
    assert_eq!(h2(&a, &b), h2(&b, &a));
}

#[test]
fn misplaced_compares_up_to_the_shorter() {
    assert_eq!(h1(&cells("12345"), &cells("12")), 0);
    assert_eq!(h1(&cells("21"), &cells("12345")), 2);
    assert_eq!(h1(&cells(""), &cells("12345")), 0);
    assert_eq!(h1(&cells("b2"), &cells("12")), 0);
}

#[test]
fn manhattan_takes_the_first_place_of_a_tile() {
    // Tile 1 stands at index 3 of the second board; its first place in the first is index 0.
    assert_eq!(h2(&cells("1xx1"), &cells("bbb1")), 1);
    assert_eq!(h2(&cells("xyz"), &cells("zxy")), 2 + 1 + 1);
}

#[test]
fn score_uses_the_goal() {
    let s = board("1b2345678");
    assert_eq!(score(Heuristic::Misplaced, &s), 1);
    assert_eq!(score(Heuristic::Manhattan, &s), 1);
    let t = board("87654321b");
    assert_eq!(score(Heuristic::Misplaced, &t), 7);
    assert_eq!(score(Heuristic::Manhattan, &t), 20);
}

#[test]
fn a_move_changes_either_estimate_by_at_most_one() {
    let mut s = board("724b56831");
    let words = ["up", "right", "down", "down", "left", "up", "right", "right", "up", "left"];
    for w in words {
        let before1 = score(Heuristic::Misplaced, &s);
        let before2 = score(Heuristic::Manhattan, &s);
        assert!(s.move_blank(w));
        let after1 = score(Heuristic::Misplaced, &s);
        let after2 = score(Heuristic::Manhattan, &s);
        assert!(before1.abs_diff(after1) <= 1);
        assert_eq!(before2.abs_diff(after2), 1);
    }
}
