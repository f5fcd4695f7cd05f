//! The few places where the library relies on code that is not verified here.
//!
//! Each item states what is taken on trust from the standard library or from
//! another crate. Everything else in the library is proved from these
//! statements.

use vstd::prelude::*;
use crate::board::Direction;

verus! {

/// `String::push` of the standard library: the character is appended at the
/// end of the string and nothing else changes.
pub assume_specification[ String::push ](s: &mut String, c: char)
    ensures
        final(s)@ == old(s)@.push(c),
;

/// The random number generator of the `rand` crate that the puzzle draws
/// its moves from. Nothing is known of its state.
#[verifier::external_type_specification]
#[verifier::external_body]
pub struct ExStdRng(rand::StdRng);

/// `Rng::choose` of the `rand` crate, on a list of directions: a random
/// element of the list, or `None` when the list is empty. Which element is
/// not known; only that it is one of the list.
#[verifier::external_body]
pub(crate) fn choose_direction(rng: &mut rand::StdRng, options: &Vec<Direction>) -> (r: Option<
    Direction,
>)
    ensures
        options@.len() == 0 ==> r is None,
        options@.len() > 0 ==> r is Some && options@.contains(r->0),
{
    rand::Rng::choose(rng, options.as_slice()).copied()
}

/// What `Regex::captures` of the `regex` crate finds when the pattern
/// `pattern` is compiled with `Regex::new` and searched for in `text`: the
/// text of the first and of the second capture group of the leftmost match,
/// each `None` if the group took no part in the match. The whole is `None`
/// when there is no match or when the pattern does not compile.
pub uninterp spec fn regex_groups(pattern: Seq<char>, text: Seq<char>) -> Option<
    (Option<Seq<char>>, Option<Seq<char>>),
>;

/// The view of what [`capture_groups`] returns.
pub open spec fn groups_view(r: Option<(Option<String>, Option<String>)>) -> Option<
    (Option<Seq<char>>, Option<Seq<char>>),
> {
    match r {
        Some((a, b)) => Some(
            (
                match a {
                    Some(s) => Some(s@),
                    None => None,
                },
                match b {
                    Some(s) => Some(s@),
                    None => None,
                },
            ),
        ),
        None => None,
    }
}

/// `Regex::new`, `Regex::captures` and `Captures::at` of the `regex` crate:
/// compiles `pattern`, searches `text` for it and hands back the first two
/// capture groups of the leftmost match. The contract only gives the result
/// a name: it depends on nothing but the pattern and the text.
#[verifier::external_body]
pub(crate) fn capture_groups(pattern: &str, text: &str) -> (r: Option<
    (Option<String>, Option<String>),
>)
    ensures
        groups_view(r) == regex_groups(pattern@, text@),
{
    match regex::Regex::new(pattern) {
        Ok(re) => re.captures(text).map(
            |caps| (caps.at(1).map(String::from), caps.at(2).map(String::from)),
        ),
        Err(_) => None,
    }
}

} // verus!
