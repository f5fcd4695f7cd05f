use eight_puzzle::{Direction, Puzzle, State};

fn board(text: &str) -> State {
    let mut s = State::new();
    s.set_state(text);
    s
}

fn cells(text: &str) -> Vec<char> {
    text.chars().collect()
}

#[test]
fn new_board_is_goal() {
    let s = State::new();
    assert_eq!(s.cells(), cells("b12345678"));
    assert_eq!(s.max_nodes(), 0);
    assert!(s.is_legal());
}

#[test]
fn set_state_ignores_spaces() {
    let s = board(" 1 2 b 3 4 5 6 7 8 ");
    assert_eq!(s.cells(), cells("12b345678"));
    let t = board("12b 345 678");
    assert_eq!(s, t);
    let u = board("12b\t345\n678");
    assert_eq!(s, u);
}

#[test]
fn set_state_with_fewer_symbols_overwrites_the_first_cells() {
    let s = board("8765");
    assert_eq!(s.cells(), cells("876545678"));
    assert!(!s.is_legal());
    let t = board("");
    assert_eq!(t, State::new());
}

#[test]
fn set_state_does_not_validate() {
    let s = board("zzzzzzzzz");
    assert_eq!(s.cells(), cells("zzzzzzzzz"));
    assert!(!s.is_legal());
    assert_eq!(s.locate('b'), None);
}

#[test]
fn set_state_keeps_the_node_budget() {
    let mut s = State::new();
    s.set_max_nodes("17");
    s.set_state("12345678b");
    assert_eq!(s.max_nodes(), 17);
}

#[test]
fn legality_needs_every_symbol_once() {
    assert!(board("12345678b").is_legal());
    assert!(board("87654321b").is_legal());
    assert!(!board("11345678b").is_legal());
    assert!(!board("12345678 9").is_legal());
    assert!(!board("bb2345678").is_legal());
    assert!(!board("012345678").is_legal());
}

#[test]
fn up_moves_the_blank_one_row_up() {
    let mut s = board("1234b5678");
    assert!(s.slide(Direction::Up));
    assert_eq!(s.cells(), cells("1b3425678"));
}

#[test]
fn down_moves_the_blank_one_row_down() {
    let mut s = board("1234b5678");
    assert!(s.slide(Direction::Down));
    assert_eq!(s.cells(), cells("1234756b8"));
}

#[test]
fn left_moves_the_blank_one_column_left() {
    let mut s = board("1234b5678");
    assert!(s.slide(Direction::Left));
    assert_eq!(s.cells(), cells("123b45678"));
}

#[test]
fn right_moves_the_blank_one_column_right() {
    let mut s = board("1234b5678");
    assert!(s.slide(Direction::Right));
    assert_eq!(s.cells(), cells("12345b678"));
}

#[test]
fn each_edge_blocks_exactly_its_direction() {
    let all = [Direction::Up, Direction::Down, Direction::Left, Direction::Right];
    for at in 0..9usize {
        let mut text: Vec<char> = "12345678".chars().collect();
        text.insert(at, 'b');
        let text: String = text.into_iter().collect();
        for d in all {
            let mut s = board(&text);
            let before = s;
            let blocked = match d {
                Direction::Up => at < 3,
                Direction::Down => at >= 6,
                Direction::Left => at % 3 == 0,
                Direction::Right => at % 3 == 2,
            };
            let moved = s.slide(d);
            assert_eq!(moved, !blocked);
            assert_eq!(s == before, blocked);
        }
    }
}

#[test]
fn a_move_and_its_opposite_restore_the_board() {
    let all = [Direction::Up, Direction::Down, Direction::Left, Direction::Right];
    for at in 0..9usize {
        let mut text: Vec<char> = "83256147".chars().collect();
        text.insert(at, 'b');
        let text: String = text.into_iter().collect();
        for d in all {
            let mut s = board(&text);
            let before = s;
            if s.slide(d) {
                assert!(s.slide(d.reverse()));
                assert_eq!(s, before);
            }
        }
    }
}

#[test]
fn reverse_pairs_up_with_down_and_left_with_right() {
    assert_eq!(Direction::Up.reverse(), Direction::Down);
    assert_eq!(Direction::Down.reverse(), Direction::Up);
    assert_eq!(Direction::Left.reverse(), Direction::Right);
    assert_eq!(Direction::Right.reverse(), Direction::Left);
}

#[test]
fn direction_names() {
    assert_eq!(Direction::Up.name(), "up");
    assert_eq!(Direction::Left.name(), "left");
    assert_eq!(Direction::Down.name(), "down");
    assert_eq!(Direction::Right.name(), "right");
    assert_eq!(Direction::parse(&cells("up")), Some(Direction::Up));
    assert_eq!(Direction::parse(&cells("down")), Some(Direction::Down));
    assert_eq!(Direction::parse(&cells("left")), Some(Direction::Left));
    assert_eq!(Direction::parse(&cells("right")), Some(Direction::Right));
    assert_eq!(Direction::parse(&cells("Up")), None);
    assert_eq!(Direction::parse(&cells("")), None);
}

#[test]
fn move_blank_reads_the_direction_from_the_payload() {
    let mut s = State::new();
    assert!(s.move_blank(" right "));
    assert_eq!(s.cells(), cells("1b2345678"));
    assert!(s.move_blank("down"));
    assert_eq!(s.cells(), cells("1423b5678"));
    assert!(s.move_blank("left"));
    assert_eq!(s.cells(), cells("142b35678"));
    assert!(s.move_blank("up"));
    assert_eq!(s.cells(), cells("b42135678"));
}

#[test]
fn move_blank_refuses_what_is_not_a_direction() {
    let mut s = board("1234b5678");
    let before = s;
    assert!(!s.move_blank("north"));
    assert!(!s.move_blank(""));
    assert!(!s.move_blank("up down"));
    assert_eq!(s, before);
}

#[test]
fn move_blank_at_the_edge_changes_nothing() {
    let mut s = State::new();
    assert!(!s.move_blank("up"));
    assert!(!s.move_blank("left"));
    assert_eq!(s, State::new());
    let mut t = board("12345678b");
    let before = t;
    assert!(!t.move_blank("down"));
    assert!(!t.move_blank("right"));
    assert_eq!(t, before);
}

#[test]
fn two_blanks_move_the_first() {
    let mut s = board("1b2b45678");
    assert!(s.slide(Direction::Down));
    assert_eq!(s.cells(), cells("142bb5678"));
}

#[test]
fn render_shows_the_blank_as_a_space() {
    assert_eq!(State::new().render(), " 12\n345\n678\n");
    assert_eq!(board("1234b5678").render(), "123\n4 5\n678\n");
    assert_eq!(board("12345678b").render(), "123\n456\n78 \n");
}

#[test]
fn print_state_wants_no_argument() {
    let s = State::new();
    assert_eq!(s.print_state(""), Some(" 12\n345\n678\n".to_string()));
    assert_eq!(s.print_state("  \t "), Some(" 12\n345\n678\n".to_string()));
    assert_eq!(s.print_state(" now"), None);
}

#[test]
fn a_printed_block_reads_back_as_the_board() {
    let texts = ["b12345678", "12345678b", "1234b5678", "87654321b", "3b1842765"];
    for t in texts {
        let s = board(t);
        let back = State::from_block(&s.render());
        assert_eq!(back, Some(s));
    }
}

#[test]
fn from_block_wants_nine_cells() {
    assert_eq!(State::from_block(""), None);
    assert_eq!(State::from_block(" 12\n345\n67\n"), None);
    assert_eq!(State::from_block(" 12\n345\n6789\n"), None);
    let s = State::from_block(" 12345678");
    assert_eq!(s, Some(State::new()));
}

#[test]
fn set_max_nodes_reads_a_number() {
    let mut s = State::new();
    assert!(s.set_max_nodes(" 250"));
    assert_eq!(s.max_nodes(), 250);
    assert!(!s.set_max_nodes("many"));
    assert!(!s.set_max_nodes(""));
    assert!(!s.set_max_nodes("-3"));
    assert_eq!(s.max_nodes(), 250);
    assert!(s.set_max_nodes("0"));
    assert_eq!(s.max_nodes(), 0);
    assert!(s.set_max_nodes("3"));
    s.limit_nodes(9);
    assert_eq!(s.max_nodes(), 9);
    assert_eq!(s.cells(), cells("b12345678"));
}

#[test]
fn same_board_ignores_the_budget() {
    let mut s = State::new();
    let t = State::new();
    s.set_max_nodes("5");
    assert!(s.same_board(&t));
    assert!(s != t);
    assert!(!s.same_board(&board("1b2345678")));
}

#[test]
fn locate_finds_the_first() {
    let s = board("1b2b45678");
    assert_eq!(s.locate('b'), Some(1));
    assert_eq!(s.locate('8'), Some(8));
    assert_eq!(s.locate('3'), None);
    assert_eq!(s.cell(4), '4');
}
