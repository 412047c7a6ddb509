//! Placements, feedback on a guess, and the consistency of a word with feedback.

use vstd::prelude::*;

verus! {

/// The number of characters in each word.
pub const WORD_LENGTH: usize = 5;

/// What is learned about one character of a guess.
#[derive(Clone, Copy, Debug, PartialEq, Eq, Structural)]
pub enum Placement {
    /// The character is at the right spot.
    Correct,
    /// The character is at the wrong spot, but in the word nonetheless.
    Misplaced,
    /// The character is not in the word.
    Absent,
}

/// Why a feedback code was rejected.
#[derive(Clone, Copy, Debug, PartialEq, Eq, Structural)]
pub enum CodeError {
    /// The code does not have exactly `WORD_LENGTH` characters.
    WrongLength,
    /// The code has the right length but holds a character that names no placement.
    UnknownCode,
}

/// Why a pair of words cannot be compared.
#[derive(Clone, Copy, Debug, PartialEq, Eq, Structural)]
pub enum LengthMismatch {
    /// The target does not have exactly `WORD_LENGTH` characters.
    Target,
    /// The target is fine, the guess does not have exactly `WORD_LENGTH` characters.
    Guess,
}

/// The placement that a code character names: `g`, `y`, `b` in either case.
pub open spec fn placement_of_code(c: char) -> Option<Placement> {
    if c == 'g' || c == 'G' {
        Some(Placement::Correct)
    } else if c == 'y' || c == 'Y' {
        Some(Placement::Misplaced)
    } else if c == 'b' || c == 'B' {
        Some(Placement::Absent)
    } else {
        None
    }
}

/// The feedback that a whole code names, where every character names a placement.
pub open spec fn feedback_of_code(code: Seq<char>) -> Seq<Placement> {
    Seq::new(code.len(), |i: int| placement_of_code(code[i]).unwrap())
}

/// Every character of the code names a placement.
pub open spec fn code_recognized(code: Seq<char>) -> bool {
    forall|i: int| 0 <= i < code.len() ==> (#[trigger] placement_of_code(code[i])).is_some()
}

/// The placement of position `i` of `guess` against `target`. Positions that
/// either word lacks are `Absent`.
pub open spec fn placement_at(target: Seq<char>, guess: Seq<char>, i: int) -> Placement {
    if 0 <= i < target.len() && i < guess.len() {
        if guess[i] == target[i] {
            Placement::Correct
        } else if target.contains(guess[i]) {
            Placement::Misplaced
        } else {
            Placement::Absent
        }
    } else {
        Placement::Absent
    }
}

/// The feedback on `guess` when the hidden word is `target`.
pub open spec fn feedback(target: Seq<char>, guess: Seq<char>) -> Seq<Placement> {
    Seq::new(WORD_LENGTH as nat, |i: int| placement_at(target, guess, i))
}

/// Position `i` of `info` can be explained by `word` being the hidden word.
pub open spec fn position_consistent(
    word: Seq<char>,
    guess: Seq<char>,
    info: Seq<Placement>,
    i: int,
) -> bool {
    match info[i] {
        Placement::Correct => word[i] == guess[i],
        Placement::Misplaced => word[i] != guess[i],
        Placement::Absent => !word.contains(guess[i]),
    }
}

/// `word` could be the hidden word, given `guess` and the feedback `info` on it:
/// every position that both words have, up to `WORD_LENGTH`, is explained.
pub open spec fn is_consistent(word: Seq<char>, guess: Seq<char>, info: Seq<Placement>) -> bool {
    forall|i: int|
        0 <= i < WORD_LENGTH && i < word.len() && i < guess.len()
            ==> #[trigger] position_consistent(word, guess, info, i)
}

impl Placement {
    /// Reads one code character, case-insensitively.
    pub fn try_from(value: char) -> (r: Result<Placement, CodeError>)
        ensures
            r.is_ok() <==> placement_of_code(value).is_some(),
            r.is_ok() ==> Some(r.unwrap()) == placement_of_code(value),
            r.is_err() ==> r == Err::<Placement, CodeError>(CodeError::UnknownCode),
    {
        if value == 'g' || value == 'G' {
            Ok(Placement::Correct)
        } else if value == 'y' || value == 'Y' {
            Ok(Placement::Misplaced)
        } else if value == 'b' || value == 'B' {
            Ok(Placement::Absent)
        } else {
            Err(CodeError::UnknownCode)
        }
    }
}

/// The feedback on a whole guess: one placement per character.
#[derive(Clone, Copy, Debug)]
pub struct PlacementInfo {
    pub placements: [Placement; WORD_LENGTH],
}

impl View for PlacementInfo {
    type V = Seq<Placement>;

    open spec fn view(&self) -> Seq<Placement> {
        self.placements@
    }
}

impl PlacementInfo {
    /// Whether a code is accepted, and the error with which it is rejected.
    pub open spec fn try_from_outcome(code: Seq<char>) -> Result<(), CodeError> {
        if code.len() != WORD_LENGTH {
            Err(CodeError::WrongLength)
        } else if !code_recognized(code) {
            Err(CodeError::UnknownCode)
        } else {
            Ok(())
        }
    }

    /// Reads a feedback code of exactly `WORD_LENGTH` characters. A code of
    /// another length, or with a character that names no placement, is rejected.
    pub fn try_from(value: &str) -> (r: Result<PlacementInfo, CodeError>)
        ensures
            r.is_ok() <==> value@.len() == WORD_LENGTH && code_recognized(value@),
            r.is_ok() ==> r.unwrap()@ == feedback_of_code(value@),
            r == Err::<PlacementInfo, CodeError>(CodeError::WrongLength) <==> value@.len()
                != WORD_LENGTH,
            r == Err::<PlacementInfo, CodeError>(CodeError::UnknownCode) <==> value@.len()
                == WORD_LENGTH && !code_recognized(value@),
    {
        if value.unicode_len() != WORD_LENGTH {
            return Err(CodeError::WrongLength);
        }
        let mut placements = [Placement::Absent; WORD_LENGTH];
        let mut i: usize = 0;
        while i < WORD_LENGTH
            invariant
                i <= WORD_LENGTH,
                value@.len() == WORD_LENGTH,
                placements@.len() == WORD_LENGTH,
                forall|j: int|
                    0 <= j < i ==> Some(placements@[j]) == #[trigger] placement_of_code(value@[j]),
            decreases WORD_LENGTH - i,
        {
            match Placement::try_from(value.get_char(i)) {
                Ok(p) => {
                    placements[i] = p;
                },
                Err(e) => {
                    return Err(e);
                },
            }
            i += 1;
        }
        let info = PlacementInfo { placements };
        assert(info@ =~= feedback_of_code(value@));
        Ok(info)
    }

    /// Whether every position is `Correct`.
    pub fn is_solved(&self) -> (r: bool)
        ensures
            r <==> forall|i: int| 0 <= i < WORD_LENGTH ==> self@[i] == Placement::Correct,
    {
        let mut i: usize = 0;
        while i < WORD_LENGTH
            invariant
                i <= WORD_LENGTH,
                forall|j: int| 0 <= j < i ==> self@[j] == Placement::Correct,
            decreases WORD_LENGTH - i,
        {
            if self.placements[i] != Placement::Correct {
                return false;
            }
            i += 1;
        }
        true
    }
}

/// Whether `s` holds the character `c`.
pub fn contains_char(s: &str, c: char) -> (r: bool)
    ensures
        r == s@.contains(c),
{
    let n = s.unicode_len();
    let mut i: usize = 0;
    while i < n
        invariant
            i <= n,
            n == s@.len(),
            forall|j: int| 0 <= j < i ==> s@[j] != c,
        decreases n - i,
    {
        if s.get_char(i) == c {
            return true;
        }
        i += 1;
    }
    false
}

/// Compares `guess` with `target`, position by position over the first
/// `WORD_LENGTH` characters that both have: `Correct` where the characters
/// agree, `Misplaced` where the target holds the guess's character somewhere,
/// `Absent` otherwise and at positions that one of the words lacks.
pub fn placement(target: &str, guess: &str) -> (ret: PlacementInfo)
    ensures
        ret@ == feedback(target@, guess@),
{
    let mut placements = [Placement::Absent; WORD_LENGTH];
    let tn = target.unicode_len();
    let gn = guess.unicode_len();
    let mut i: usize = 0;
    while i < WORD_LENGTH && i < tn && i < gn
        invariant
            i <= WORD_LENGTH,
            tn == target@.len(),
            gn == guess@.len(),
            placements@.len() == WORD_LENGTH,
            forall|j: int| 0 <= j < i ==> placements@[j] == placement_at(target@, guess@, j),
            forall|j: int| i <= j < WORD_LENGTH ==> placements@[j] == Placement::Absent,
        decreases WORD_LENGTH - i,
    {
        let gi = guess.get_char(i);
        let ti = target.get_char(i);
        if ti == gi {
            placements[i] = Placement::Correct;
        } else if contains_char(target, gi) {
            placements[i] = Placement::Misplaced;
        }
        i += 1;
    }
    let ret = PlacementInfo { placements };
    assert(ret@ =~= feedback(target@, guess@));
    ret
}

/// Compares `guess` with `target` as `placement` does, once both are known to
/// have exactly `WORD_LENGTH` characters.
pub fn evaluate(target: &str, guess: &str) -> (r: Result<PlacementInfo, LengthMismatch>)
    ensures
        r.is_ok() <==> target@.len() == WORD_LENGTH && guess@.len() == WORD_LENGTH,
        r.is_ok() ==> r.unwrap()@ == feedback(target@, guess@),
        r == Err::<PlacementInfo, LengthMismatch>(LengthMismatch::Target) <==> target@.len()
            != WORD_LENGTH,
        r == Err::<PlacementInfo, LengthMismatch>(LengthMismatch::Guess) <==> target@.len()
            == WORD_LENGTH && guess@.len() != WORD_LENGTH,
{
    if target.unicode_len() != WORD_LENGTH {
        Err(LengthMismatch::Target)
    } else if guess.unicode_len() != WORD_LENGTH {
        Err(LengthMismatch::Guess)
    } else {
        Ok(placement(target, guess))
    }
}

/// Whether `word` is consistent with `guess` and the feedback `info` on it.
pub fn consistent(word: &str, guess: &str, info: PlacementInfo) -> (r: bool)
    ensures
        r == is_consistent(word@, guess@, info@),
{
    let wn = word.unicode_len();
    let gn = guess.unicode_len();
    let mut i: usize = 0;
    while i < WORD_LENGTH && i < wn && i < gn
        invariant
            i <= WORD_LENGTH,
            wn == word@.len(),
            gn == guess@.len(),
            forall|j: int| 0 <= j < i ==> position_consistent(word@, guess@, info@, j),
        decreases WORD_LENGTH - i,
    {
        let wi = word.get_char(i);
        let gi = guess.get_char(i);
        let ok = match info.placements[i] {
            Placement::Correct => wi == gi,
            Placement::Misplaced => wi != gi,
            Placement::Absent => !contains_char(word, gi),
        };
        if !ok {
            assert(!position_consistent(word@, guess@, info@, i as int));
            return false;
        }
        i += 1;
    }
    true
}

} // verus!
