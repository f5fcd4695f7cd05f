use eight_puzzle::{
    execute_statement, is_quit, is_solve, Direction, Outcome, Reply, Response, State,
};
use rand::{SeedableRng, StdRng};

fn rng() -> StdRng {
    let words: [usize; 4] = [1, 2, 3, 4];
    StdRng::from_seed(&words[..])
}

fn cells(text: &str) -> Vec<char> {
    text.chars().collect()
}

fn run(state: &mut State, line: &str) -> Response {
    execute_statement(state, line, &mut rng())
}

fn said(state: &mut State, line: &str) -> Vec<String> {
    run(state, line).lines()
}

#[test]
fn set_state_and_print_state() {
    let mut s = State::new();
    assert_eq!(run(&mut s, "setState 123 4b5 678"), Response::Silent);
    assert_eq!(s.cells(), cells("1234b5678"));
    assert_eq!(run(&mut s, "printState"), Response::Block("123\n4 5\n678\n".to_string()));
    assert_eq!(said(&mut s, "p"), vec!["123\n4 5\n678\n".to_string()]);
    assert_eq!(run(&mut s, "printState now"), Response::UnexpectedText);
    assert_eq!(said(&mut s, "p 3"), vec!["printState takes no argument".to_string()]);
    assert_eq!(run(&mut s, "printState   "), Response::Block("123\n4 5\n678\n".to_string()));
    assert_eq!(run(&mut s, "s b12345678"), Response::Silent);
    assert_eq!(s, State::new());
}

#[test]
fn set_state_refuses_more_than_nine_symbols() {
    let mut s = State::new();
    assert_eq!(run(&mut s, "setState 1234b56789"), Response::TooManySymbols);
    assert_eq!(s, State::new());
    assert_eq!(
        said(&mut s, "setState 1234b56789"),
        vec!["setState takes at most nine symbols".to_string()]
    );
}

#[test]
fn move_reports_what_the_edge_forbids() {
    let mut s = State::new();
    assert_eq!(run(&mut s, "move up"), Response::IllegalMove);
    assert_eq!(said(&mut s, "move left"), vec!["Illegal move".to_string()]);
    assert_eq!(s, State::new());
    assert_eq!(run(&mut s, "move right"), Response::Silent);
    assert_eq!(s.cells(), cells("1b2345678"));
    assert_eq!(run(&mut s, "move sideways"), Response::IllegalMove);
    assert_eq!(run(&mut s, "move"), Response::IllegalMove);
    assert_eq!(s.cells(), cells("1b2345678"));
}

#[test]
fn commands_on_a_board_that_does_not_allow_them_are_refused() {
    let mut s = State::new();
    assert_eq!(run(&mut s, "setState 123456789"), Response::Silent);
    let before = s;
    assert_eq!(run(&mut s, "move up"), Response::BadBoard);
    assert_eq!(run(&mut s, "randomizeState 3"), Response::BadBoard);
    assert_eq!(run(&mut s, "randomizeState three"), Response::NotANumber);
    assert_eq!(run(&mut s, "solve A-star h2"), Response::BadBoard);
    assert_eq!(said(&mut s, "solve beam 4"), vec!["the board does not allow this command".to_string()]);
    assert_eq!(s, before);
    assert_eq!(run(&mut s, "setState 11b345678"), Response::Silent);
    assert_eq!(run(&mut s, "move left"), Response::Silent);
    assert_eq!(run(&mut s, "solve A-star h2"), Response::BadBoard);
}

#[test]
fn max_nodes_sets_the_budget() {
    let mut s = State::new();
    assert_eq!(run(&mut s, "maxNodes 1"), Response::Silent);
    assert_eq!(s.max_nodes(), 1);
    assert_eq!(run(&mut s, "move right"), Response::Silent);
    assert_eq!(
        run(&mut s, "solve A-star h2"),
        Response::Answer(Reply::Searched(Outcome::OutOfNodes))
    );
    assert_eq!(
        said(&mut s, "solve A-star h2"),
        vec!["Ran out of nodes.  Try increasing maxNodes and running again.".to_string()]
    );
    assert_eq!(run(&mut s, "maxNodes 0"), Response::Silent);
    assert_eq!(
        run(&mut s, "solve A-star h2"),
        Response::Answer(Reply::Searched(Outcome::Solved {
            moves: 1,
            path: vec![Direction::Left]
        }))
    );
    assert_eq!(run(&mut s, "maxNodes 7"), Response::Silent);
    assert_eq!(run(&mut s, "maxNodes lots"), Response::NotANumber);
    assert_eq!(run(&mut s, "maxNodes"), Response::NotANumber);
    assert_eq!(run(&mut s, "maxNodes -1"), Response::NotANumber);
    assert_eq!(said(&mut s, "maxNodes 4294967296"), vec!["that is not a number".to_string()]);
    assert_eq!(s.max_nodes(), 7);
}

#[test]
fn solve_reports_the_moves() {
    let mut s = State::new();
    assert_eq!(
        said(&mut s, "solve A-star h2"),
        vec![
            "Goal!  Moves: 0".to_string(),
            "Directions to move the blank tile (invert for physical tile):".to_string(),
        ]
    );
    run(&mut s, "setState 3124b5678");
    assert_eq!(
        said(&mut s, "solve A-star h1"),
        vec![
            "Goal!  Moves: 2".to_string(),
            "Directions to move the blank tile (invert for physical tile):".to_string(),
            "left".to_string(),
            "up".to_string(),
        ]
    );
    assert_eq!(
        said(&mut s, "solve beam 3"),
        vec![
            "Goal!  Moves: 2".to_string(),
            "Directions to move the blank tile (invert for physical tile):".to_string(),
            "left".to_string(),
            "up".to_string(),
        ]
    );
}

#[test]
fn solve_reports_what_it_does_not_understand() {
    let mut s = State::new();
    assert_eq!(said(&mut s, "solve A-star h7"), vec!["Please specify a heuristic.".to_string()]);
    assert_eq!(said(&mut s, "solve depth 3"), vec!["Please specify a method.".to_string()]);
    assert_eq!(said(&mut s, "solve beam h3"), vec!["Please specify a width.".to_string()]);
    assert_eq!(run(&mut s, "solve"), Response::Answer(Reply::Malformed));
    assert_eq!(run(&mut s, "solve beam"), Response::Answer(Reply::Malformed));
    assert_eq!(
        said(&mut s, "solve beam"),
        vec!["Please specify a method and a parameter.".to_string()]
    );
    assert_eq!(
        said(&mut s, "solve"),
        vec!["Please specify a method and a parameter.".to_string()]
    );
    assert_eq!(s, State::new());
}

#[test]
fn solve_reports_failure() {
    let mut s = State::new();
    run(&mut s, "setState b21345678");
    assert_eq!(said(&mut s, "solve A-star h2"), vec!["Failed to find a solution.".to_string()]);
}

#[test]
fn randomize_state_makes_legal_moves() {
    let mut s = State::new();
    assert_eq!(run(&mut s, "randomizeState 20"), Response::Silent);
    assert!(s.is_legal());
    let mut t = State::new();
    assert_eq!(run(&mut t, "r 20"), Response::Silent);
    assert_eq!(s, t);
    let mut u = State::new();
    assert_eq!(run(&mut u, "r"), Response::NotANumber);
    assert_eq!(run(&mut u, "randomizeState a few"), Response::NotANumber);
    assert_eq!(run(&mut u, "randomizeState 0"), Response::Silent);
    assert_eq!(u, State::new());
}

#[test]
fn unknown_words_are_reported() {
    let mut s = State::new();
    assert_eq!(run(&mut s, "quit"), Response::Unrecognized);
    assert_eq!(
        said(&mut s, "shuffle 3"),
        vec!["unrecognized command, no action taken".to_string()]
    );
    assert_eq!(run(&mut s, "setstate 12345678b"), Response::Unrecognized);
    assert_eq!(run(&mut s, "moveup"), Response::Unrecognized);
    assert_eq!(s, State::new());
}

#[test]
fn a_line_without_a_command_word_is_reported() {
    let mut s = State::new();
    assert_eq!(run(&mut s, ""), Response::Unrecognized);
    assert_eq!(run(&mut s, " move right"), Response::Unrecognized);
    assert_eq!(run(&mut s, "# a remark"), Response::Unrecognized);
    assert_eq!(said(&mut s, ""), vec!["unrecognized command, no action taken".to_string()]);
    assert_eq!(
        said(&mut s, "?"),
        vec!["unrecognized command, no action taken".to_string()]
    );
    assert_eq!(s, State::new());
}

#[test]
fn only_what_was_carried_out_is_silent() {
    let mut s = State::new();
    let lines = [
        "", "?", "fly", "setState 0123456789", "randomizeState x", "maxNodes x", "printState x",
        "move up", "move nowhere", "solve", "solve beam", "solve beam h1", "solve A-star h9",
        "solve dfs 1", "solve A-star h2", "solve beam 2",
    ];
    for line in lines {
        assert!(!said(&mut s, line).is_empty(), "{:?}", line);
    }
    assert_eq!(s, State::new());
    for line in ["setState 1b2345678", "move left", "maxNodes 3", "randomizeState 0"] {
        assert_eq!(run(&mut s, line), Response::Silent, "{:?}", line);
    }
}

#[test]
fn the_command_word_ends_where_the_word_ends() {
    let mut s = State::new();
    // The rest of the line starts right after the word, whatever comes there.
    assert_eq!(run(&mut s, "move\tright"), Response::Silent);
    assert_eq!(s.cells(), cells("1b2345678"));
    assert_eq!(run(&mut s, "move-left"), Response::IllegalMove);
}

#[test]
fn quit_words() {
    assert!(is_quit("q"));
    assert!(is_quit("quit"));
    assert!(is_quit("exit"));
    assert!(is_quit("  exit\n"));
    assert!(!is_quit("Quit"));
    assert!(!is_quit("quit now"));
    assert!(!is_quit(""));
}

#[test]
fn solve_lines_are_told_apart() {
    assert!(is_solve("solve A-star h2"));
    assert!(is_solve("solve"));
    assert!(!is_solve("solved"));
    assert!(!is_solve(" solve beam 2"));
    assert!(!is_solve("move up"));
    assert!(!is_solve(""));
}

#[test]
fn lines_of_the_answers() {
    let solved = Outcome::Solved { moves: 12, path: vec![Direction::Down, Direction::Right] };
    assert_eq!(
        solved.lines(),
        vec![
            "Goal!  Moves: 12".to_string(),
            "Directions to move the blank tile (invert for physical tile):".to_string(),
            "down".to_string(),
            "right".to_string(),
        ]
    );
    assert_eq!(Outcome::NoSolution.lines(), vec!["Failed to find a solution.".to_string()]);
    assert_eq!(Reply::NoMethod.lines(), vec!["Please specify a method.".to_string()]);
    assert_eq!(
        Reply::Malformed.lines(),
        vec!["Please specify a method and a parameter.".to_string()]
    );
    assert_eq!(Reply::NoWidth.lines(), vec!["Please specify a width.".to_string()]);
    assert_eq!(Reply::NoHeuristic.lines(), vec!["Please specify a heuristic.".to_string()]);
    assert_eq!(
        Response::UnexpectedText.lines(),
        vec!["printState takes no argument".to_string()]
    );
    assert_eq!(Response::NotANumber.lines(), vec!["that is not a number".to_string()]);
    assert_eq!(Response::Silent.lines(), Vec::<String>::new());
}
