//! The command surface of the puzzle: every operation takes the text that
//! follows the command word and reads what it needs from it.

use vstd::prelude::*;
use crate::astar::astar_result;
use crate::beam::beam_result;
use crate::hunt::astar_answer;
use crate::board::{
    BLANK, Direction, State, block, can_move, direction_named, legal, overwritten, step,
};
use crate::heuristic::Heuristic;
use crate::search::{Outcome, answer_of};
use crate::sweep::beam_answer;
use crate::text::{
    chars_of, parse_u32, parsed_u32, spells, strip_white, trim, trimmed, without_white,
};
use crate::trusted::{capture_groups, groups_view, regex_groups};
use crate::walk::connects;

verus! {

/// What a `solve` command asks for.
#[derive(Clone, Copy, PartialEq, Eq, Debug, Structural)]
pub enum Request {
    /// Beam search of the given width.
    Beam(usize),
    /// Best-first search with the given estimate.
    AStar(Heuristic),
    /// Beam search, but the width is not a number.
    NoWidth,
    /// Best-first search, but the estimate is neither `h1` nor `h2`.
    NoHeuristic,
    /// The method is neither `beam` nor `A-star`.
    NoMethod,
    /// The text is not a method followed by a parameter.
    Malformed,
}

/// What a `solve` command answers.
#[derive(PartialEq, Eq, Debug)]
pub enum Reply {
    /// A search ran, and this is how it ended.
    Searched(Outcome),
    /// The width of the beam was not given as a number.
    NoWidth,
    /// The estimate was not named.
    NoHeuristic,
    /// The method was not named.
    NoMethod,
    /// The text was not a method followed by a parameter.
    Malformed,
}

/// The pattern that splits the text of a `solve` command into a method and
/// its parameter: a word, which may hold hyphens, a space, and digits that
/// an `h` may precede.
pub const SOLVE_PATTERN: &'static str = "([\\w-]+) (h?\\d+)";

/// The text of a capture group, empty if the group took no part in the match.
pub open spec fn text_or_empty(group: Option<Seq<char>>) -> Seq<char> {
    match group {
        Some(t) => t,
        None => Seq::empty(),
    }
}

/// What the two groups of a `solve` command ask for: the first is the
/// method, the second its parameter.
pub open spec fn request_of(groups: Option<(Option<Seq<char>>, Option<Seq<char>>)>) -> Request {
    match groups {
        None => Request::Malformed,
        Some((method, param)) => {
            let method = text_or_empty(method);
            let param = text_or_empty(param);
            if method == "beam"@ {
                match parsed_u32(trimmed(param)) {
                    Some(width) => Request::Beam(width as usize),
                    None => Request::NoWidth,
                }
            } else if method == "A-star"@ || method == "a"@ {
                if trimmed(param) == "h1"@ {
                    Request::AStar(Heuristic::Misplaced)
                } else if trimmed(param) == "h2"@ {
                    Request::AStar(Heuristic::Manhattan)
                } else {
                    Request::NoHeuristic
                }
            } else {
                Request::NoMethod
            }
        },
    }
}

/// The characters of a capture group, none if the group took no part in the match.
fn group_chars(group: &Option<String>) -> (v: Vec<char>)
    ensures
        v@ == text_or_empty(
            match *group {
                Some(s) => Some(s@),
                None => None,
            },
        ),
{
    match group {
        Some(s) => chars_of(s.as_str()),
        None => Vec::new(),
    }
}

/// What the two groups of a `solve` command ask for.
pub fn parse_request(groups: &Option<(Option<String>, Option<String>)>) -> (r: Request)
    ensures
        r == request_of(groups_view(*groups)),
{
    match groups {
        None => Request::Malformed,
        Some((method, param)) => {
            let method: Vec<char> = group_chars(method);
            let param: Vec<char> = group_chars(param);
            if spells(&method, "beam") {
                match parse_u32(&trim(&param)) {
                    Some(width) => Request::Beam(width as usize),
                    None => Request::NoWidth,
                }
            } else if spells(&method, "A-star") || spells(&method, "a") {
                let name: Vec<char> = trim(&param);
                if spells(&name, "h1") {
                    Request::AStar(Heuristic::Misplaced)
                } else if spells(&name, "h2") {
                    Request::AStar(Heuristic::Manhattan)
                } else {
                    Request::NoHeuristic
                }
            } else {
                Request::NoMethod
            }
        },
    }
}

/// `r` is the answer to the request `req` on the board `start` under the
/// node limit `limit`: the outcome of the search that was asked for, or the
/// reason why none ran.
pub open spec fn answers(start: Seq<char>, limit: usize, req: Request, r: Reply) -> bool {
    match req {
        Request::Beam(width) => {
            &&& r is Searched
            &&& beam_result(start, limit, r->0)
            &&& beam_answer(start, width, limit, answer_of(r->0))
        },
        Request::AStar(h) => {
            &&& r is Searched
            &&& astar_result(start, limit, r->0)
            &&& astar_answer(start, h, limit, answer_of(r->0))
        },
        Request::NoWidth => r is NoWidth,
        Request::NoHeuristic => r is NoHeuristic,
        Request::NoMethod => r is NoMethod,
        Request::Malformed => r is Malformed,
    }
}

impl State {
    /// Does what the request `req` asks for.
    pub fn run(&self, req: Request) -> (r: Reply)
        requires
            legal(self@),
        ensures
            answers(self@, self.node_limit(), req, r),
    {
        match req {
            Request::Beam(width) => Reply::Searched(self.solve_beam(width)),
            Request::AStar(h) => Reply::Searched(self.solve_astar(h)),
            Request::NoWidth => Reply::NoWidth,
            Request::NoHeuristic => Reply::NoHeuristic,
            Request::NoMethod => Reply::NoMethod,
            Request::Malformed => Reply::Malformed,
        }
    }
}

/// The operations of the puzzle as the command line names them. Each takes
/// the text that follows the command word.
pub trait Puzzle {
    /// The nine cells in row-major order.
    spec fn board(&self) -> Seq<char>;

    /// The node budget of searches; zero means no limit.
    spec fn budget(&self) -> usize;

    /// Overwrites the board with the symbols of `payload`, white space left out.
    /// Fewer than nine symbols overwrite the first cells only. Nothing is
    /// checked: the result need not be a legal board.
    fn set_state(&mut self, payload: &str)
        requires
            without_white(payload@).len() <= 9,
        ensures
            final(self).board() == overwritten(old(self).board(), without_white(payload@)),
            final(self).budget() == old(self).budget(),
    ;

    /// Makes as many random moves as `payload` says, each of them one that
    /// the blank can make. Returns whether `payload` is a number; if it is
    /// not, nothing is done.
    fn randomize_state(&mut self, payload: &str, rng: &mut rand::StdRng) -> (done: bool)
        requires
            old(self).board().contains(BLANK),
        ensures
            match parsed_u32(trimmed(payload@)) {
                Some(n) => done && exists|path: Seq<Direction>|
                    path.len() == n && #[trigger] connects(
                        old(self).board(),
                        path,
                        final(self).board(),
                    ),
                None => !done && final(self).board() == old(self).board(),
            },
            final(self).budget() == old(self).budget(),
    ;

    /// The board as a printed block, if `payload` holds nothing but white space.
    fn print_state(&self, payload: &str) -> (r: Option<String>)
        ensures
            match r {
                Some(text) => trimmed(payload@).len() == 0 && text@ == block(self.board()),
                None => trimmed(payload@).len() != 0,
            },
    ;

    /// Moves the blank in the direction that `payload` names, if it names
    /// one and the blank is not on that edge. Returns whether the blank moved.
    fn move_blank(&mut self, payload: &str) -> (moved: bool)
        requires
            old(self).board().contains(BLANK),
        ensures
            match direction_named(trimmed(payload@)) {
                Some(d) => moved == can_move(old(self).board(), d) && final(self).board() == step(
                    old(self).board(),
                    d,
                ),
                None => !moved && final(self).board() == old(self).board(),
            },
            final(self).budget() == old(self).budget(),
    ;

    /// Runs the search that `payload` names: `beam` and a width, or `A-star`
    /// and `h1` or `h2`. A payload that names none is answered with the
    /// reason, and no search runs.
    fn solve(&self, payload: &str) -> (r: Reply)
        requires
            legal(self.board()),
        ensures
            answers(
                self.board(),
                self.budget(),
                request_of(regex_groups(SOLVE_PATTERN@, payload@)),
                r,
            ),
    ;

    /// Sets the node budget of searches to the number in `payload`; zero
    /// means no limit. Returns whether `payload` is a number; if it is not,
    /// the budget stays as it was.
    fn set_max_nodes(&mut self, payload: &str) -> (done: bool)
        ensures
            final(self).board() == old(self).board(),
            match parsed_u32(trimmed(payload@)) {
                Some(n) => done && final(self).budget() == n,
                None => !done && final(self).budget() == old(self).budget(),
            },
    ;
}

impl Puzzle for State {
    open spec fn board(&self) -> Seq<char> {
        self@
    }

    open spec fn budget(&self) -> usize {
        self.node_limit()
    }

    fn set_state(&mut self, payload: &str) {
        let symbols: Vec<char> = strip_white(&chars_of(payload));
        self.overwrite(&symbols);
    }

    fn randomize_state(&mut self, payload: &str, rng: &mut rand::StdRng) -> (done: bool) {
        match parse_u32(&trim(&chars_of(payload))) {
            Some(n) => {
                let ghost before = self@;
                self.scramble(n, rng);
                proof {
                    let p = choose|p: Seq<Direction>|
                        p.len() == n && #[trigger] connects(before, p, self@);
                    assert(connects(old(self).board(), p, self.board()));
                }
                true
            },
            None => false,
        }
    }

    fn print_state(&self, payload: &str) -> (r: Option<String>) {
        let rest: Vec<char> = trim(&chars_of(payload));
        if rest.len() == 0 {
            Some(self.render())
        } else {
            None
        }
    }

    fn move_blank(&mut self, payload: &str) -> (moved: bool) {
        let word: Vec<char> = trim(&chars_of(payload));
        match Direction::parse(&word) {
            Some(d) => self.slide(d),
            None => false,
        }
    }

    fn solve(&self, payload: &str) -> (r: Reply) {
        let groups = capture_groups(SOLVE_PATTERN, payload);
        let req: Request = parse_request(&groups);
        self.run(req)
    }

    fn set_max_nodes(&mut self, payload: &str) -> (done: bool) {
        match parse_u32(&trim(&chars_of(payload))) {
            Some(n) => {
                self.limit_nodes(n as usize);
                true
            },
            None => false,
        }
    }
}

} // verus!
