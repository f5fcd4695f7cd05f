//! One line of the command language: which command it is, what it does to
//! the puzzle, and what there is to say about it.
//!
//! Reading lines and printing is left to the caller. [`execute_statement`]
//! takes a line, changes the puzzle as the line says and returns a
//! [`Response`]; [`Response::lines`] gives the lines to print for it.

use vstd::prelude::*;
use vstd::string::*;
use crate::board::{
    BLANK, Direction, State, block, can_move, direction_named, legal, overwritten, step,
};
use crate::puzzle::{Puzzle, Reply, answers, SOLVE_PATTERN, request_of, text_or_empty};
use crate::search::Outcome;
use crate::text::{
    chars_of, decimal, decimal_text, parse_u32, parsed_u32, spells, strip_white, trim, trimmed,
    without_white,
};
use crate::trusted::{capture_groups, groups_view, regex_groups};
use crate::walk::connects;

verus! {

/// The commands of the language.
#[derive(Clone, Copy, PartialEq, Eq, Debug, Structural)]
pub enum Command {
    /// `setState` or `s`: overwrite the board.
    SetState,
    /// `randomizeState` or `r`: make random moves.
    Randomize,
    /// `printState` or `p`: show the board.
    Print,
    /// `move`: move the blank.
    Move,
    /// `solve`: search for the goal.
    Solve,
    /// `maxNodes`: set the node budget.
    MaxNodes,
    /// Any other word.
    Unknown,
}

/// What there is to say after a line was executed. Only a command that was
/// carried out and has nothing to show is answered in silence; whatever
/// was not carried out is answered with the reason.
#[derive(PartialEq, Eq, Debug)]
pub enum Response {
    /// The command was carried out; there is nothing to say.
    Silent,
    /// The board, as a printed block.
    Block(String),
    /// The blank could not move as asked.
    IllegalMove,
    /// The answer of a `solve` command.
    Answer(Reply),
    /// The line does not start with a command word of the language.
    Unrecognized,
    /// `printState` was given text, and takes none; nothing was shown.
    UnexpectedText,
    /// `setState` was given more than nine symbols; the board is unchanged.
    TooManySymbols,
    /// `randomizeState` or `maxNodes` was not given a number; nothing was done.
    NotANumber,
    /// The board does not allow the command: it has no blank to move, or it
    /// is not a legal arrangement to search from. Nothing was done.
    BadBoard,
}

/// The pattern that splits a line into the command word and the rest.
pub const LINE_PATTERN: &'static str = "^(\\w+)(.*)$";

/// The command that a word names.
pub open spec fn command_named(word: Seq<char>) -> Command {
    if word == "s"@ || word == "setState"@ {
        Command::SetState
    } else if word == "r"@ || word == "randomizeState"@ {
        Command::Randomize
    } else if word == "p"@ || word == "printState"@ {
        Command::Print
    } else if word == "move"@ {
        Command::Move
    } else if word == "solve"@ {
        Command::Solve
    } else if word == "maxNodes"@ {
        Command::MaxNodes
    } else {
        Command::Unknown
    }
}

/// The command that `word` names.
pub fn command_of(word: &Vec<char>) -> (c: Command)
    ensures
        c == command_named(word@),
{
    if spells(word, "s") || spells(word, "setState") {
        Command::SetState
    } else if spells(word, "r") || spells(word, "randomizeState") {
        Command::Randomize
    } else if spells(word, "p") || spells(word, "printState") {
        Command::Print
    } else if spells(word, "move") {
        Command::Move
    } else if spells(word, "solve") {
        Command::Solve
    } else if spells(word, "maxNodes") {
        Command::MaxNodes
    } else {
        Command::Unknown
    }
}

/// The command word and the rest of a line, as the two groups of
/// [`LINE_PATTERN`] give them; `None` when the line does not start with a word.
pub open spec fn parts_of(groups: Option<(Option<Seq<char>>, Option<Seq<char>>)>) -> Option<
    (Seq<char>, Seq<char>),
> {
    match groups {
        Some((word, rest)) => Some((text_or_empty(word), text_or_empty(rest))),
        None => None,
    }
}

/// `true` when the line, once trimmed, is one of the words that end a session.
pub open spec fn quits(line: Seq<char>) -> bool {
    let word = trimmed(line);
    word == "q"@ || word == "quit"@ || word == "exit"@
}

/// `true` when the line, once trimmed, is one of the words that end a
/// session: `q`, `quit` or `exit`.
pub fn is_quit(line: &str) -> (r: bool)
    ensures
        r == quits(line@),
{
    let word: Vec<char> = trim(&chars_of(line));
    spells(&word, "q") || spells(&word, "quit") || spells(&word, "exit")
}

/// What executing the command `c` with the text `rest` makes of the puzzle
/// `before`: the puzzle `after` and the response `r`.
///
/// A `setState` with more than nine symbols, a `randomizeState` or a
/// `maxNodes` without a number, a `printState` with text after it, a move
/// or a shuffle of a board without a blank, and a search from a board that
/// is not a legal arrangement are refused: the puzzle stays as it was, and
/// the response says why.
pub open spec fn executed(
    before: State,
    c: Command,
    rest: Seq<char>,
    after: State,
    r: Response,
) -> bool {
    match c {
        Command::SetState => if without_white(rest).len() <= 9 {
            &&& r is Silent
            &&& after@ == overwritten(before@, without_white(rest))
            &&& after.node_limit() == before.node_limit()
        } else {
            r is TooManySymbols && after == before
        },
        Command::Randomize => match parsed_u32(trimmed(rest)) {
            None => r is NotANumber && after == before,
            Some(n) => if before@.contains(BLANK) {
                &&& r is Silent
                &&& after.node_limit() == before.node_limit()
                &&& exists|path: Seq<Direction>|
                    path.len() == n && #[trigger] connects(before@, path, after@)
            } else {
                r is BadBoard && after == before
            },
        },
        Command::Print => {
            &&& after == before
            &&& if trimmed(rest).len() == 0 {
                r is Block && r->Block_0@ == block(before@)
            } else {
                r is UnexpectedText
            }
        },
        Command::Move => if before@.contains(BLANK) {
            &&& after.node_limit() == before.node_limit()
            &&& match direction_named(trimmed(rest)) {
                Some(d) => {
                    &&& after@ == step(before@, d)
                    &&& if can_move(before@, d) {
                        r is Silent
                    } else {
                        r is IllegalMove
                    }
                },
                None => after@ == before@ && r is IllegalMove,
            }
        } else {
            r is BadBoard && after == before
        },
        Command::Solve => {
            &&& after == before
            &&& if legal(before@) {
                r is Answer && answers(
                    before@,
                    before.node_limit(),
                    request_of(regex_groups(SOLVE_PATTERN@, rest)),
                    r->Answer_0,
                )
            } else {
                r is BadBoard
            }
        },
        Command::MaxNodes => match parsed_u32(trimmed(rest)) {
            None => r is NotANumber && after == before,
            Some(n) => {
                &&& r is Silent
                &&& after@ == before@
                &&& after.node_limit() == n
            },
        },
        Command::Unknown => r is Unrecognized && after == before,
    }
}

/// Executes the command `c` with the text `rest` that followed the command word.
pub fn execute(state: &mut State, c: Command, rest: &str, rng: &mut rand::StdRng) -> (r: Response)
    ensures
        executed(*old(state), c, rest@, *final(state), r),
{
    match c {
        Command::SetState => {
            let symbols: Vec<char> = strip_white(&chars_of(rest));
            if symbols.len() <= 9 {
                state.set_state(rest);
                Response::Silent
            } else {
                Response::TooManySymbols
            }
        },
        Command::Randomize => {
            if parse_u32(&trim(&chars_of(rest))).is_none() {
                Response::NotANumber
            } else if state.locate(BLANK).is_some() {
                let ghost before = state@;
                state.randomize_state(rest, rng);
                proof {
                    let n = parsed_u32(trimmed(rest@))->0;
                    let p = choose|p: Seq<Direction>|
                        p.len() == n && #[trigger] connects(before, p, state@);
                    assert(connects(before, p, state@));
                }
                Response::Silent
            } else {
                Response::BadBoard
            }
        },
        Command::Print => {
            match state.print_state(rest) {
                Some(text) => Response::Block(text),
                None => Response::UnexpectedText,
            }
        },
        Command::Move => {
            if state.locate(BLANK).is_some() {
                if state.move_blank(rest) {
                    Response::Silent
                } else {
                    Response::IllegalMove
                }
            } else {
                Response::BadBoard
            }
        },
        Command::Solve => {
            if state.is_legal() {
                Response::Answer(state.solve(rest))
            } else {
                Response::BadBoard
            }
        },
        Command::MaxNodes => {
            if parse_u32(&trim(&chars_of(rest))).is_none() {
                Response::NotANumber
            } else {
                state.set_max_nodes(rest);
                Response::Silent
            }
        },
        Command::Unknown => Response::Unrecognized,
    }
}

/// What executing the line whose groups are `groups` makes of the puzzle
/// `before`. A line that does not start with a command word, the empty
/// line among them, does nothing and is answered as unrecognized.
pub open spec fn executed_line(
    before: State,
    groups: Option<(Option<Seq<char>>, Option<Seq<char>>)>,
    after: State,
    r: Response,
) -> bool {
    match parts_of(groups) {
        Some((word, rest)) => executed(before, command_named(word), rest, after, r),
        None => r is Unrecognized && after == before,
    }
}

/// Executes a line that was split into its two groups already.
pub fn execute_groups(
    state: &mut State,
    groups: &Option<(Option<String>, Option<String>)>,
    rng: &mut rand::StdRng,
) -> (r: Response)
    ensures
        executed_line(*old(state), groups_view(*groups), *final(state), r),
{
    match groups {
        None => Response::Unrecognized,
        Some((word, rest)) => {
            let word: Vec<char> = match word {
                Some(w) => chars_of(w.as_str()),
                None => Vec::new(),
            };
            let c: Command = command_of(&word);
            match rest {
                Some(text) => execute(state, c, text.as_str(), rng),
                None => {
                    proof {
                        reveal_strlit("");
                        assert(""@ =~= Seq::<char>::empty());
                    }
                    execute(state, c, "", rng)
                },
            }
        },
    }
}

/// Executes one line of the command language on the puzzle: the line is
/// split into the command word and the rest, and the command is carried out.
pub fn execute_statement(state: &mut State, cmd: &str, rng: &mut rand::StdRng) -> (r: Response)
    ensures
        executed_line(*old(state), regex_groups(LINE_PATTERN@, cmd@), *final(state), r),
{
    let groups = capture_groups(LINE_PATTERN, cmd);
    execute_groups(state, &groups, rng)
}

/// `true` when the line is a `solve` command, the one command that may take long.
pub fn is_solve(cmd: &str) -> (r: bool)
    ensures
        r == match parts_of(regex_groups(LINE_PATTERN@, cmd@)) {
            Some((word, _)) => command_named(word) == Command::Solve,
            None => false,
        },
{
    let groups = capture_groups(LINE_PATTERN, cmd);
    match groups {
        Some((Some(word), _)) => command_of(&chars_of(word.as_str())) == Command::Solve,
        Some((None, _)) => command_of(&Vec::new()) == Command::Solve,
        None => false,
    }
}

/// The words of a list of moves, one for each move.
pub open spec fn move_words(path: Seq<Direction>) -> Seq<Seq<char>> {
    Seq::new(path.len(), |i: int| path[i].word())
}

/// The lines that report how a search ended.
pub open spec fn outcome_lines(o: Outcome) -> Seq<Seq<char>> {
    match o {
        Outcome::Solved { moves, path } => seq![
            "Goal!  Moves: "@ + decimal_text(moves as nat),
            "Directions to move the blank tile (invert for physical tile):"@,
        ] + move_words(path@),
        Outcome::OutOfNodes => seq![
            "Ran out of nodes.  Try increasing maxNodes and running again."@,
        ],
        Outcome::NoSolution => seq!["Failed to find a solution."@],
    }
}

/// The lines that answer a `solve` command.
pub open spec fn reply_lines(r: Reply) -> Seq<Seq<char>> {
    match r {
        Reply::Searched(o) => outcome_lines(o),
        Reply::NoWidth => seq!["Please specify a width."@],
        Reply::NoHeuristic => seq!["Please specify a heuristic."@],
        Reply::NoMethod => seq!["Please specify a method."@],
        Reply::Malformed => seq!["Please specify a method and a parameter."@],
    }
}

/// The lines to print for a response.
pub open spec fn response_lines(r: Response) -> Seq<Seq<char>> {
    match r {
        Response::Silent => Seq::empty(),
        Response::Block(text) => seq![text@],
        Response::IllegalMove => seq!["Illegal move"@],
        Response::Answer(reply) => reply_lines(reply),
        Response::Unrecognized => seq!["unrecognized command, no action taken"@],
        Response::UnexpectedText => seq!["printState takes no argument"@],
        Response::TooManySymbols => seq!["setState takes at most nine symbols"@],
        Response::NotANumber => seq!["that is not a number"@],
        Response::BadBoard => seq!["the board does not allow this command"@],
    }
}

/// Every answer to a `solve` command has something to say.
pub proof fn lemma_reply_is_said(r: Reply)
    ensures
        reply_lines(r).len() >= 1,
{
}

/// Only the response to a command that was carried out, and has nothing to
/// show, is without a line.
pub proof fn lemma_response_is_said(r: Response)
    ensures
        response_lines(r).len() == 0 <==> r is Silent,
{
    match r {
        Response::Answer(reply) => lemma_reply_is_said(reply),
        _ => {},
    }
}

/// The texts of a list of strings.
pub open spec fn texts(lines: Seq<String>) -> Seq<Seq<char>> {
    Seq::new(lines.len(), |i: int| lines[i]@)
}

/// A list that holds the one line `text`.
fn one_line(text: &str) -> (lines: Vec<String>)
    ensures
        texts(lines@) == seq![text@],
{
    let mut lines: Vec<String> = Vec::new();
    lines.push(String::from_str(text));
    assert(texts(lines@) =~= seq![text@]);
    lines
}

impl Outcome {
    /// The lines that report how the search ended: for a solution the
    /// number of moves, a heading, and the moves one to a line.
    pub fn lines(&self) -> (lines: Vec<String>)
        ensures
            texts(lines@) == outcome_lines(*self),
    {
        match self {
            Outcome::Solved { moves, path } => {
                let mut lines: Vec<String> = Vec::new();
                let mut head: String = String::from_str("Goal!  Moves: ");
                let count: String = decimal(*moves);
                head.append(count.as_str());
                lines.push(head);
                lines.push(
                    String::from_str(
                        "Directions to move the blank tile (invert for physical tile):",
                    ),
                );
                let mut i: usize = 0;
                while i < path.len()
                    invariant
                        i <= path.len(),
                        lines@.len() == 2 + i,
                        lines@[0]@ == "Goal!  Moves: "@ + decimal_text(*moves as nat),
                        lines@[1]@
                            == "Directions to move the blank tile (invert for physical tile):"@,
                        forall|j: int| 0 <= j < i ==> (#[trigger] lines@[2 + j])@ == path@[j].word(),
                    decreases path.len() - i,
                {
                    lines.push(String::from_str(path[i].name()));
                    i += 1;
                }
                assert(texts(lines@) =~= outcome_lines(*self)) by {
                    let want = outcome_lines(*self);
                    assert(want.len() == 2 + path@.len());
                    assert forall|j: int| 0 <= j < want.len() implies texts(lines@)[j] == want[j] by {
                        if j >= 2 {
                            assert(lines@[2 + (j - 2)]@ == path@[j - 2].word());
                            assert(want[j] == move_words(path@)[j - 2]);
                        }
                    }
                }
                lines
            },
            Outcome::OutOfNodes => one_line(
                "Ran out of nodes.  Try increasing maxNodes and running again.",
            ),
            Outcome::NoSolution => one_line("Failed to find a solution."),
        }
    }
}

impl Reply {
    /// The lines that answer a `solve` command.
    pub fn lines(&self) -> (lines: Vec<String>)
        ensures
            texts(lines@) == reply_lines(*self),
    {
        match self {
            Reply::Searched(o) => o.lines(),
            Reply::NoWidth => one_line("Please specify a width."),
            Reply::NoHeuristic => one_line("Please specify a heuristic."),
            Reply::NoMethod => one_line("Please specify a method."),
            Reply::Malformed => one_line("Please specify a method and a parameter."),
        }
    }
}

impl Response {
    /// The lines to print for this response, each to be followed by a line break.
    pub fn lines(&self) -> (lines: Vec<String>)
        ensures
            texts(lines@) == response_lines(*self),
    {
        match self {
            Response::Silent => {
                let lines: Vec<String> = Vec::new();
                assert(texts(lines@) =~= Seq::<Seq<char>>::empty());
                lines
            },
            Response::Block(text) => one_line(text.as_str()),
            Response::IllegalMove => one_line("Illegal move"),
            Response::Answer(reply) => reply.lines(),
            Response::Unrecognized => one_line("unrecognized command, no action taken"),
            Response::UnexpectedText => one_line("printState takes no argument"),
            Response::TooManySymbols => one_line("setState takes at most nine symbols"),
            Response::NotANumber => one_line("that is not a number"),
            Response::BadBoard => one_line("the board does not allow this command"),
        }
    }
}

} // verus!
