//! The candidate solver: the words that all feedback so far allows, best first.

use crate::feedback::{
    consistent, feedback, is_consistent, placement, CodeError, Placement, PlacementInfo,
};
use crate::frequencies::{weight_of, Frequencies};
use vstd::prelude::*;

verus! {

/// The most guesses that `guess_count` makes for one target.
pub const GUESS_CEILING: usize = 100;

/// The words that a sequence of strings holds, in order.
pub open spec fn words_view(words: Seq<String>) -> Seq<Seq<char>> {
    words.map_values(|s: String| s@)
}

/// The test "has weight `k` in `table`".
pub open spec fn has_weight(table: Map<Seq<char>, u64>, k: u64) -> spec_fn(Seq<char>) -> bool {
    |w: Seq<char>| weight_of(table, w) == k
}

/// The test "is consistent with `guess` and the feedback `info` on it".
pub open spec fn allowed_by(guess: Seq<char>, info: Seq<Placement>) -> spec_fn(Seq<char>) -> bool {
    |w: Seq<char>| is_consistent(w, guess, info)
}

/// No word stands before one of greater weight.
pub open spec fn descending(words: Seq<Seq<char>>, table: Map<Seq<char>, u64>) -> bool {
    forall|a: int, b: int|
        0 <= a < b < words.len() ==> weight_of(table, #[trigger] words[a]) >= weight_of(
            table,
            #[trigger] words[b],
        )
}

/// `ranking` is `dictionary` ordered by descending weight, words of equal
/// weight in the order in which the dictionary has them: for each weight, the
/// words of that weight are the same sequence in both.
pub open spec fn ranked(
    dictionary: Seq<Seq<char>>,
    table: Map<Seq<char>, u64>,
    ranking: Seq<Seq<char>>,
) -> bool {
    &&& descending(ranking, table)
    &&& forall|k: u64| #[trigger]
        ranking.filter(has_weight(table, k)) == dictionary.filter(has_weight(table, k))
}

/// The candidates that stay after feedback `info` on `guess`, in their order.
pub open spec fn retained(
    candidates: Seq<Seq<char>>,
    guess: Seq<char>,
    info: Seq<Placement>,
) -> Seq<Seq<char>> {
    candidates.filter(allowed_by(guess, info))
}

/// The number of guesses that the solver makes until it guesses `target`, with
/// `budget` guesses left. A solver that runs out of candidates, or out of
/// budget, uses the budget up.
pub open spec fn guesses_needed(candidates: Seq<Seq<char>>, target: Seq<char>, budget: nat) -> nat
    decreases budget,
{
    if budget == 0 {
        0
    } else if candidates.len() == 0 {
        budget
    } else if candidates[0] == target {
        1
    } else {
        1 + guesses_needed(
            retained(candidates, candidates[0], feedback(target, candidates[0])),
            target,
            (budget - 1) as nat,
        )
    }
}

/// What the guess `guess` is worth against the hidden word `target`: the
/// weight of `target` times the number of candidates that the feedback on the
/// guess would remove.
pub open spec fn gain(
    candidates: Seq<Seq<char>>,
    table: Map<Seq<char>, u64>,
    guess: Seq<char>,
    target: Seq<char>,
) -> nat {
    (weight_of(table, target) * (candidates.len() - retained(
        candidates,
        guess,
        feedback(target, guess),
    ).len())) as nat
}

/// The gains of `guess` against each of `targets`, added up.
pub open spec fn score_over(
    candidates: Seq<Seq<char>>,
    table: Map<Seq<char>, u64>,
    guess: Seq<char>,
    targets: Seq<Seq<char>>,
) -> nat
    decreases targets.len(),
{
    if targets.len() == 0 {
        0
    } else {
        score_over(candidates, table, guess, targets.drop_last()) + gain(
            candidates,
            table,
            guess,
            targets.last(),
        )
    }
}

/// The score of `guess`: its gains against every candidate as the hidden word.
pub open spec fn score(
    candidates: Seq<Seq<char>>,
    table: Map<Seq<char>, u64>,
    guess: Seq<char>,
) -> nat {
    score_over(candidates, table, guess, candidates)
}

/// The candidate at `best` has the greatest score, and is the first that has it.
pub open spec fn is_best(
    candidates: Seq<Seq<char>>,
    table: Map<Seq<char>, u64>,
    best: int,
) -> bool {
    &&& 0 <= best < candidates.len()
    &&& forall|i: int|
        0 <= i < candidates.len() ==> score(candidates, table, #[trigger] candidates[i]) <= score(
            candidates,
            table,
            candidates[best],
        )
    &&& forall|i: int|
        0 <= i < best ==> score(candidates, table, #[trigger] candidates[i]) < score(
            candidates,
            table,
            candidates[best],
        )
}

/// The most candidates that `choose_best_guess` ranks, so that scores fit in
/// 128 bits.
pub const RANKING_LIMIT: usize = 0xFFFF_FFFF;

/// Inserting a word of weight `w` behind every word of at least that weight and
/// before every word of less adds it at the end of the words of weight `w`, and
/// leaves the words of each other weight as they were.
proof fn lemma_insert_ranked(
    ranking: Seq<Seq<char>>,
    table: Map<Seq<char>, u64>,
    j: int,
    word: Seq<char>,
    k: u64,
)
    requires
        0 <= j <= ranking.len(),
        forall|b: int|
            j <= b < ranking.len() ==> weight_of(table, ranking[b]) < weight_of(table, word),
    ensures
        ranking.insert(j, word).filter(has_weight(table, k)) == ranking.filter(
            has_weight(table, k),
        ).push(word).filter(has_weight(table, k)),
        ranking.push(word).filter(has_weight(table, k)) == ranking.filter(
            has_weight(table, k),
        ).push(word).filter(has_weight(table, k)),
{
    broadcast use Seq::filter_distributes_over_add, Seq::lemma_filter_push;

    let pred = has_weight(table, k);
    let head = ranking.take(j);
    let tail = ranking.skip(j);
    assert(ranking =~= head + tail);
    assert(ranking.insert(j, word) =~= head.push(word) + tail);
    assert(ranking.filter(pred).filter(pred) == ranking.filter(pred)) by {
        lemma_filter_twice(ranking, pred);
    }
    if pred(word) {
        assert(tail.all(|x: Seq<char>| !pred(x)));
        tail.lemma_all_neg_filter_empty(pred);
        assert(tail.filter(pred) =~= Seq::<Seq<char>>::empty());
        assert(head.filter(pred) + tail.filter(pred) =~= head.filter(pred));
        assert(head.filter(pred).push(word) + tail.filter(pred) =~= head.filter(pred).push(word));
    }
}

/// Filtering twice by one test is filtering once.
pub proof fn lemma_filter_twice(words: Seq<Seq<char>>, pred: spec_fn(Seq<char>) -> bool)
    ensures
        words.filter(pred).filter(pred) == words.filter(pred),
    decreases words.len(),
{
    broadcast use Seq::lemma_filter_push;

    reveal(Seq::filter);
    if words.len() > 0 {
        lemma_filter_twice(words.drop_last(), pred);
        assert(words =~= words.drop_last().push(words.last()));
    }
}

/// The words of a dictionary that all feedback so far allows, best guess first.
#[derive(Debug)]
pub struct Solver {
    sorted: Vec<String>,
}

impl View for Solver {
    type V = Seq<Seq<char>>;

    /// The candidate words, in order.
    closed spec fn view(&self) -> Seq<Seq<char>> {
        words_view(self.sorted@)
    }
}

impl Clone for Solver {
    /// A solver of its own with the same candidates.
    fn clone(&self) -> (r: Solver)
        ensures
            r@ == self@,
    {
        let mut sorted: Vec<String> = Vec::new();
        let mut i: usize = 0;
        while i < self.sorted.len()
            invariant
                i <= self.sorted.len(),
                words_view(sorted@) == words_view(self.sorted@.take(i as int)),
            decreases self.sorted.len() - i,
        {
            let ghost before = words_view(sorted@);
            sorted.push(self.sorted[i].clone());
            assert(self.sorted@.take(i + 1) =~= self.sorted@.take(i as int).push(
                self.sorted[i as int],
            ));
            assert(words_view(sorted@) =~= before.push(self.sorted[i as int]@));
            assert(words_view(self.sorted@.take(i + 1)) =~= before.push(self.sorted[i as int]@));
            i += 1;
        }
        assert(self.sorted@.take(i as int) =~= self.sorted@);
        Solver { sorted }
    }
}

impl Solver {
    /// A solver whose candidates are the words of the dictionary by descending
    /// weight, words of equal weight in dictionary order. A word that the table
    /// does not hold has weight 0.
    pub fn make(words: &[String], frequencies: &Frequencies) -> (r: Solver)
        ensures
            ranked(words_view(words@), frequencies@, r@),
            r@.len() == words@.len(),
    {
        let mut sorted: Vec<String> = Vec::new();
        let mut weights: Vec<u64> = Vec::new();
        let mut i: usize = 0;
        while i < words.len()
            invariant
                i <= words.len(),
                sorted.len() == i,
                weights.len() == i,
                forall|a: int|
                    0 <= a < i ==> #[trigger] weights[a] == weight_of(frequencies@, sorted[a]@),
                forall|a: int, b: int| 0 <= a < b < i ==> weights[a] >= weights[b],
                forall|k: u64| #[trigger]
                    words_view(sorted@).filter(has_weight(frequencies@, k)) == words_view(
                        words@.take(i as int),
                    ).filter(has_weight(frequencies@, k)),
            decreases words.len() - i,
        {
            let w: u64 = frequencies.weight(words[i].as_str());
            let mut j: usize = 0;
            while j < weights.len() && weights[j] >= w
                invariant
                    j <= weights.len(),
                    forall|a: int| 0 <= a < j ==> weights[a] >= w,
                decreases weights.len() - j,
            {
                j += 1;
            }
            let ghost before = words_view(sorted@);
            let ghost seen = words_view(words@.take(i as int));
            assert forall|b: int| j <= b < before.len() implies weight_of(frequencies@, before[b])
                < w by {
                assert(weights[b] == weight_of(frequencies@, sorted[b]@));
                assert(weights[j as int] >= weights[b]);
            }
            sorted.insert(j, words[i].clone());
            weights.insert(j, w);
            proof {
                let word = words[i as int]@;
                assert(words_view(sorted@) =~= before.insert(j as int, word));
                assert(words@.take(i + 1) =~= words@.take(i as int).push(words[i as int]));
                assert(words_view(words@.take(i + 1)) =~= seen.push(word));
                assert forall|k: u64| #[trigger]
                    words_view(sorted@).filter(has_weight(frequencies@, k)) == words_view(
                        words@.take(i + 1),
                    ).filter(has_weight(frequencies@, k)) by {
                    lemma_insert_ranked(before, frequencies@, j as int, word, k);
                    lemma_insert_ranked(seen, frequencies@, seen.len() as int, word, k);
                    assert(before.filter(has_weight(frequencies@, k)) == seen.filter(
                        has_weight(frequencies@, k),
                    ));
                }
            }
            i += 1;
        }
        assert(words@.take(i as int) =~= words@);
        let r = Solver { sorted };
        assert forall|a: int, b: int| 0 <= a < b < r@.len() implies weight_of(
            frequencies@,
            #[trigger] r@[a],
        ) >= weight_of(frequencies@, #[trigger] r@[b]) by {
            assert(weights[a] >= weights[b]);
        }
        r
    }

    /// Keeps the candidates that are consistent with `guess` and the feedback
    /// `info` on it, in their order, and removes the others.
    pub fn update(&mut self, guess: &str, info: PlacementInfo)
        ensures
            final(self)@ == retained(old(self)@, guess@, info@),
            final(self)@.len() <= old(self)@.len(),
    {
        let mut new_sorted: Vec<String> = Vec::new();
        let mut i: usize = 0;
        while i < self.sorted.len()
            invariant
                i <= self.sorted.len(),
                words_view(new_sorted@) == retained(
                    words_view(self.sorted@.take(i as int)),
                    guess@,
                    info@,
                ),
            decreases self.sorted.len() - i,
        {
            broadcast use Seq::lemma_filter_push;

            let ghost seen = words_view(self.sorted@.take(i as int));
            let ghost kept = words_view(new_sorted@);
            assert(self.sorted@.take(i + 1) =~= self.sorted@.take(i as int).push(
                self.sorted[i as int],
            ));
            assert(words_view(self.sorted@.take(i + 1)) =~= seen.push(self.sorted[i as int]@));
            if consistent(self.sorted[i].as_str(), guess, info) {
                new_sorted.push(self.sorted[i].clone());
                assert(words_view(new_sorted@) =~= kept.push(self.sorted[i as int]@));
            }
            i += 1;
        }
        assert(self.sorted@.take(i as int) =~= self.sorted@);
        proof {
            self@.lemma_filter_len(allowed_by(guess@, info@));
        }
        self.sorted = new_sorted;
    }

    /// The best guess: the first candidate, or `None` when no candidate is left.
    pub fn next_guess(&self) -> (r: Option<&str>)
        ensures
            r.is_some() <==> self@.len() > 0,
            r.is_some() ==> r.unwrap()@ == self@[0] && self@.contains(r.unwrap()@),
    {
        if self.sorted.len() == 0 {
            None
        } else {
            Some(self.sorted[0].as_str())
        }
    }

    /// The number of candidates.
    pub fn len(&self) -> (r: usize)
        ensures
            r == self@.len(),
    {
        self.sorted.len()
    }

    /// The candidate at position `i`.
    pub fn candidate(&self, i: usize) -> (r: &str)
        requires
            i < self@.len(),
        ensures
            r@ == self@[i as int],
    {
        self.sorted[i].as_str()
    }

    /// The number of candidates that are consistent with `guess` and `info`.
    fn count_consistent(&self, guess: &str, info: PlacementInfo) -> (r: usize)
        ensures
            r == retained(self@, guess@, info@).len(),
            r <= self@.len(),
    {
        let mut count: usize = 0;
        let mut i: usize = 0;
        while i < self.sorted.len()
            invariant
                i <= self.sorted.len(),
                count <= i,
                count == retained(words_view(self.sorted@.take(i as int)), guess@, info@).len(),
            decreases self.sorted.len() - i,
        {
            broadcast use Seq::lemma_filter_push;

            let ghost seen = words_view(self.sorted@.take(i as int));
            assert(self.sorted@.take(i + 1) =~= self.sorted@.take(i as int).push(
                self.sorted[i as int],
            ));
            assert(words_view(self.sorted@.take(i + 1)) =~= seen.push(self.sorted[i as int]@));
            if consistent(self.sorted[i].as_str(), guess, info) {
                count += 1;
            }
            i += 1;
        }
        assert(self.sorted@.take(i as int) =~= self.sorted@);
        count
    }

    /// The score of the candidate at position `g`, among at most
    /// `RANKING_LIMIT` candidates.
    pub fn score_of(&self, frequencies: &Frequencies, g: usize) -> (r: u128)
        requires
            g < self@.len(),
            self@.len() <= RANKING_LIMIT,
        ensures
            r == score(self@, frequencies@, self@[g as int]),
    {
        let n: usize = self.sorted.len();
        let mut total: u128 = 0;
        let mut t: usize = 0;
        assert(self@.take(0) =~= Seq::<Seq<char>>::empty());
        while t < n
            invariant
                t <= n,
                g < n,
                n == self.sorted.len(),
                n <= RANKING_LIMIT,
                total == score_over(self@, frequencies@, self@[g as int], self@.take(t as int)),
                total <= t * 0xFFFF_FFFF_FFFF_FFFF_FFFF_FFFF,
            decreases n - t,
        {
            let info = placement(self.sorted[t].as_str(), self.sorted[g].as_str());
            let kept: usize = self.count_consistent(self.sorted[g].as_str(), info);
            let weight: u64 = frequencies.weight(self.sorted[t].as_str());
            let removed: usize = n - kept;
            assert(weight * removed <= 0xFFFF_FFFF_FFFF_FFFF_FFFF_FFFF) by (nonlinear_arith)
                requires
                    0 <= weight <= 0xFFFF_FFFF_FFFF_FFFF,
                    0 <= removed <= 0xFFFF_FFFF,
            ;
            proof {
                assert(self@.take(t + 1).drop_last() =~= self@.take(t as int));
                assert(self@.take(t + 1).last() == self@[t as int]);
            }
            let term: u128 = (weight as u128) * (removed as u128);
            total = total + term;
            t += 1;
        }
        assert(self@.take(t as int) =~= self@);
        total
    }

    /// Finds the candidate of the greatest score, the first of them where
    /// several have it, and exchanges it with the first candidate, so that it is
    /// the next guess. Returns the position at which it stood, or `None` where
    /// there is no candidate. Every candidate is scored against every other, so
    /// this is for short lists: at most `RANKING_LIMIT` candidates.
    pub fn choose_best_guess(&mut self, frequencies: &Frequencies) -> (r: Option<usize>)
        requires
            old(self)@.len() <= RANKING_LIMIT,
        ensures
            r.is_some() <==> old(self)@.len() > 0,
            r.is_none() ==> final(self)@ == old(self)@,
            r.is_some() ==> is_best(old(self)@, frequencies@, r.unwrap() as int) && final(self)@
                == old(self)@.update(0, old(self)@[r.unwrap() as int]).update(
                r.unwrap() as int,
                old(self)@[0],
            ),
    {
        let n: usize = self.sorted.len();
        if n == 0 {
            return None;
        }
        let mut best: usize = 0;
        let mut best_score: u128 = self.score_of(frequencies, 0);
        let mut g: usize = 1;
        while g < n
            invariant
                1 <= g <= n,
                best < g,
                n == self.sorted.len(),
                n <= RANKING_LIMIT,
                best_score == score(self@, frequencies@, self@[best as int]),
                forall|i: int|
                    0 <= i < g ==> score(self@, frequencies@, #[trigger] self@[i]) <= best_score,
                forall|i: int|
                    0 <= i < best ==> score(self@, frequencies@, #[trigger] self@[i]) < best_score,
            decreases n - g,
        {
            let s: u128 = self.score_of(frequencies, g);
            if s > best_score {
                best = g;
                best_score = s;
            }
            g += 1;
        }
        let ghost before = self@;
        let first: String = self.sorted[0].clone();
        let chosen: String = self.sorted[best].clone();
        self.sorted[0] = chosen;
        self.sorted[best] = first;
        assert(self@ =~= before.update(0, before[best as int]).update(best as int, before[0]));
        Some(best)
    }

    /// Takes a line of feedback on `guess` as written by a player. A line that
    /// is no feedback code is rejected and leaves the candidates as they were;
    /// any other is applied as `update` applies it.
    pub fn respond(&mut self, guess: &str, code: &str) -> (r: Result<(), CodeError>)
        ensures
            r == PlacementInfo::try_from_outcome(code@),
            r.is_err() ==> final(self)@ == old(self)@,
            r.is_ok() ==> final(self)@ == retained(
                old(self)@,
                guess@,
                crate::feedback::feedback_of_code(code@),
            ),
    {
        match PlacementInfo::try_from(code) {
            Ok(info) => {
                self.update(guess, info);
                Ok(())
            },
            Err(e) => Err(e),
        }
    }
}

/// Plays the solver against `target`: guesses, takes the feedback, narrows the
/// candidates, and counts the guesses up to the one that is `target`. The
/// count stops at `GUESS_CEILING`, which is also the count of a solver that
/// runs out of candidates.
pub fn guess_count(solver: Solver, target: &str) -> (r: usize)
    ensures
        r == guesses_needed(solver@, target@, GUESS_CEILING as nat),
        1 <= r <= GUESS_CEILING,
{
    let mut state = solver;
    let mut count: usize = 0;
    while count < GUESS_CEILING
        invariant
            count <= GUESS_CEILING,
            guesses_needed(solver@, target@, GUESS_CEILING as nat) == count + guesses_needed(
                state@,
                target@,
                (GUESS_CEILING - count) as nat,
            ),
        decreases GUESS_CEILING - count,
    {
        if state.len() == 0 {
            return GUESS_CEILING;
        }
        let guess: String = state.candidate(0).to_owned();
        count += 1;
        if same_word(guess.as_str(), target) {
            return count;
        }
        let info = placement(target, guess.as_str());
        state.update(guess.as_str(), info);
    }
    count
}

/// Whether two words are the same.
pub fn same_word(a: &str, b: &str) -> (r: bool)
    ensures
        r == (a@ == b@),
{
    let n = a.unicode_len();
    if b.unicode_len() != n {
        return false;
    }
    let mut i: usize = 0;
    while i < n
        invariant
            i <= n,
            n == a@.len(),
            n == b@.len(),
            forall|j: int| 0 <= j < i ==> a@[j] == b@[j],
        decreases n - i,
    {
        if a.get_char(i) != b.get_char(i) {
            return false;
        }
        i += 1;
    }
    assert(a@ =~= b@);
    true
}

} // verus!
