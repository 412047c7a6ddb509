//! One round of play against a hidden word, and the choice of that word.

use crate::feedback::{feedback, feedback_of_code, placement, Placement, PlacementInfo};
use crate::solver::{retained, same_word, words_view, Solver};
use rand::Rng;
use vstd::prelude::*;

verus! {

/// Calls `rand::thread_rng` and `rand::Rng::gen_range` on `0..n`. The range is
/// not empty, so `gen_range` does not panic, and what it samples lies in the
/// range. Nothing else is claimed of the index. The generator is seeded by the
/// operating system when a thread first uses it, and gives up where that fails.
#[verifier::external_body]
fn random_index(n: usize) -> (r: usize)
    requires
        n > 0,
    ensures
        r < n,
{
    rand::thread_rng().gen_range(0..n)
}

/// The word at `index`, where the list has one there.
pub fn target_at(words: &[String], index: usize) -> (r: Option<&str>)
    ensures
        r.is_some() <==> index < words@.len(),
        r.is_some() ==> r.unwrap()@ == words_view(words@)[index as int],
{
    if index < words.len() {
        Some(words[index].as_str())
    } else {
        None
    }
}

/// Picks a hidden word from the list at random: some word of the list, or
/// `None` where the list is empty.
pub fn choose_target(words: &[String]) -> (r: Option<&str>)
    ensures
        r.is_some() <==> words@.len() > 0,
        r.is_some() ==> words_view(words@).contains(r.unwrap()@),
{
    if words.len() == 0 {
        None
    } else {
        let index: usize = random_index(words.len());
        target_at(words, index)
    }
}

/// What a player is shown after a guess.
#[derive(Clone, Copy, Debug)]
pub struct Round {
    /// The feedback on the guess.
    pub info: PlacementInfo,
    /// Whether the guess is the hidden word, which ends the game.
    pub solved: bool,
}

/// Answers one guess against the hidden word.
pub fn play_round(target: &str, guess: &str) -> (r: Round)
    ensures
        r.info@ == feedback(target@, guess@),
        r.solved == (guess@ == target@),
{
    Round { info: placement(target, guess), solved: same_word(guess, target) }
}

/// What the solver says to a line of feedback from the player.
#[derive(Clone, Debug)]
pub enum Advice {
    /// The line is no feedback code: nothing has changed, the guess stands.
    Ignored,
    /// The feedback is applied, and this is the next guess.
    Guess(String),
    /// The feedback is applied, and no word of the dictionary is left.
    Exhausted,
}

/// Takes the player's line of feedback on `guess` and says what to do next. A
/// line that is no feedback code changes nothing; any other narrows the
/// candidates, and the first of those that stay is the next guess.
pub fn assist_step(solver: &mut Solver, guess: &str, line: &str) -> (r: Advice)
    ensures
        PlacementInfo::try_from_outcome(line@).is_err() ==> r == Advice::Ignored && final(solver)@
            == old(solver)@,
        PlacementInfo::try_from_outcome(line@).is_ok() ==> final(solver)@ == retained(
            old(solver)@,
            guess@,
            feedback_of_code(line@),
        ) && match r {
            Advice::Guess(word) => final(solver)@.len() > 0 && word@ == final(solver)@[0],
            Advice::Exhausted => final(solver)@.len() == 0,
            Advice::Ignored => false,
        },
{
    match solver.respond(guess, line) {
        Err(_) => Advice::Ignored,
        Ok(()) => match solver.next_guess() {
            Some(word) => Advice::Guess(word.to_owned()),
            None => Advice::Exhausted,
        },
    }
}

/// The terminal background colour in which a character of a guess is shown:
/// green (42) for `Correct`, yellow (43) for `Misplaced`, black (40) for `Absent`.
pub fn background_of(p: Placement) -> (r: u8)
    ensures
        r == match p {
            Placement::Correct => 42u8,
            Placement::Misplaced => 43u8,
            Placement::Absent => 40u8,
        },
{
    match p {
        Placement::Correct => 42,
        Placement::Misplaced => 43,
        Placement::Absent => 40,
    }
}

} // verus!
