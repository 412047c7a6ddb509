//! What holds of the oracle and the solver on all inputs.

use crate::feedback::{feedback, is_consistent, position_consistent, Placement, WORD_LENGTH};
use crate::solver::{
    allowed_by, descending, guesses_needed, has_weight, lemma_filter_twice, ranked, retained,
    GUESS_CEILING,
};
use crate::frequencies::weight_of;
use vstd::prelude::*;

verus! {

/// A word guessed against itself is correct at every position.
pub proof fn lemma_self_feedback_all_correct(word: Seq<char>)
    requires
        word.len() == WORD_LENGTH,
    ensures
        feedback(word, word).len() == WORD_LENGTH,
        forall|i: int| 0 <= i < WORD_LENGTH ==> feedback(word, word)[i] == Placement::Correct,
{
}

/// The oracle and the consistency test read repeated letters alike: the hidden
/// word is always consistent with the feedback that it gives.
pub proof fn lemma_target_consistent_with_own_feedback(target: Seq<char>, guess: Seq<char>)
    ensures
        is_consistent(target, guess, feedback(target, guess)),
{
    let info = feedback(target, guess);
    assert forall|i: int|
        0 <= i < WORD_LENGTH && i < target.len() && i < guess.len()
        implies #[trigger] position_consistent(target, guess, info, i) by {
        if guess[i] != target[i] && !target.contains(guess[i]) {
            assert(info[i] == Placement::Absent);
        }
    }
}

/// After feedback, the candidates are exactly the earlier candidates that are
/// consistent with it: each one that stays is consistent, each one that left
/// is not.
pub proof fn lemma_retained_exactly_consistent(
    candidates: Seq<Seq<char>>,
    guess: Seq<char>,
    info: Seq<Placement>,
    word: Seq<char>,
)
    ensures
        retained(candidates, guess, info).contains(word) <==> candidates.contains(word)
            && is_consistent(word, guess, info),
{
    let pred = allowed_by(guess, info);
    let kept = candidates.filter(pred);
    if kept.contains(word) {
        let i = choose|i: int| 0 <= i < kept.len() && kept[i] == word;
        candidates.lemma_filter_pred(pred, i);
        candidates.lemma_filter_contains_rev(pred, word);
    }
    if candidates.contains(word) && is_consistent(word, guess, info) {
        let i = choose|i: int| 0 <= i < candidates.len() && candidates[i] == word;
        candidates.lemma_filter_contains(pred, i);
    }
}

/// Feedback never adds a candidate: the candidates do not grow in number.
pub proof fn lemma_retained_no_longer(
    candidates: Seq<Seq<char>>,
    guess: Seq<char>,
    info: Seq<Placement>,
)
    ensures
        retained(candidates, guess, info).len() <= candidates.len(),
{
    candidates.lemma_filter_len(allowed_by(guess, info));
}

/// Applying the same guess and feedback twice leaves the candidates that
/// applying them once leaves.
pub proof fn lemma_retained_idempotent(
    candidates: Seq<Seq<char>>,
    guess: Seq<char>,
    info: Seq<Placement>,
)
    ensures
        retained(retained(candidates, guess, info), guess, info) == retained(
            candidates,
            guess,
            info,
        ),
{
    lemma_filter_twice(candidates, allowed_by(guess, info));
}

/// The candidates that stay after each guess and feedback of `history`, in turn.
pub open spec fn narrowed(
    candidates: Seq<Seq<char>>,
    history: Seq<(Seq<char>, Seq<Placement>)>,
) -> Seq<Seq<char>>
    decreases history.len(),
{
    if history.len() == 0 {
        candidates
    } else {
        retained(narrowed(candidates, history.drop_last()), history.last().0, history.last().1)
    }
}

/// Whatever feedback has been applied, a word that is still a candidate was one
/// at the start and is consistent with every guess and feedback so far.
pub proof fn lemma_narrowed_within_and_consistent(
    candidates: Seq<Seq<char>>,
    history: Seq<(Seq<char>, Seq<Placement>)>,
    word: Seq<char>,
)
    requires
        narrowed(candidates, history).contains(word),
    ensures
        candidates.contains(word),
        forall|i: int|
            0 <= i < history.len() ==> is_consistent(word, (#[trigger] history[i]).0, history[i].1),
    decreases history.len(),
{
    if history.len() > 0 {
        let earlier = history.drop_last();
        lemma_retained_exactly_consistent(
            narrowed(candidates, earlier),
            history.last().0,
            history.last().1,
            word,
        );
        lemma_narrowed_within_and_consistent(candidates, earlier, word);
        assert forall|i: int| 0 <= i < history.len() implies is_consistent(
            word,
            (#[trigger] history[i]).0,
            history[i].1,
        ) by {
            if i < history.len() - 1 {
                assert(history[i] == earlier[i]);
            }
        }
    }
}

/// However much feedback is applied, the candidates never grow in number:
/// each further guess and feedback leaves at most as many as before.
pub proof fn lemma_narrowed_never_grows(
    candidates: Seq<Seq<char>>,
    history: Seq<(Seq<char>, Seq<Placement>)>,
    guess: Seq<char>,
    info: Seq<Placement>,
)
    ensures
        narrowed(candidates, history.push((guess, info))).len() <= narrowed(
            candidates,
            history,
        ).len(),
        narrowed(candidates, history).len() <= candidates.len(),
    decreases history.len(),
{
    assert(history.push((guess, info)).drop_last() =~= history);
    lemma_retained_no_longer(narrowed(candidates, history), guess, info);
    if history.len() > 0 {
        lemma_narrowed_never_grows(
            candidates,
            history.drop_last(),
            history.last().0,
            history.last().1,
        );
        assert(history.drop_last().push((history.last().0, history.last().1)) =~= history);
    }
}

/// The hidden word stays a candidate through the feedback that it gives.
pub proof fn lemma_target_survives(
    candidates: Seq<Seq<char>>,
    target: Seq<char>,
    guess: Seq<char>,
)
    requires
        candidates.contains(target),
    ensures
        retained(candidates, guess, feedback(target, guess)).contains(target),
{
    lemma_target_consistent_with_own_feedback(target, guess);
    lemma_retained_exactly_consistent(candidates, guess, feedback(target, guess), target);
}

/// A ranking holds the words of its dictionary and no others.
pub proof fn lemma_ranked_same_words(
    dictionary: Seq<Seq<char>>,
    table: Map<Seq<char>, u64>,
    ranking: Seq<Seq<char>>,
    word: Seq<char>,
)
    requires
        ranked(dictionary, table, ranking),
    ensures
        ranking.contains(word) <==> dictionary.contains(word),
{
    let pred = has_weight(table, weight_of(table, word));
    assert(ranking.filter(pred) == dictionary.filter(pred));
    if ranking.contains(word) {
        let i = choose|i: int| 0 <= i < ranking.len() && ranking[i] == word;
        ranking.lemma_filter_contains(pred, i);
        dictionary.lemma_filter_contains_rev(pred, word);
    }
    if dictionary.contains(word) {
        let i = choose|i: int| 0 <= i < dictionary.len() && dictionary[i] == word;
        dictionary.lemma_filter_contains(pred, i);
        ranking.lemma_filter_contains_rev(pred, word);
    }
}

/// A dictionary has one ranking only: two rankings of it are the same sequence.
pub proof fn lemma_ranking_unique(
    dictionary: Seq<Seq<char>>,
    table: Map<Seq<char>, u64>,
    first: Seq<Seq<char>>,
    second: Seq<Seq<char>>,
)
    requires
        ranked(dictionary, table, first),
        ranked(dictionary, table, second),
    ensures
        first == second,
{
    assert forall|k: u64| #[trigger]
        first.filter(has_weight(table, k)) == second.filter(has_weight(table, k)) by {
        assert(first.filter(has_weight(table, k)) == dictionary.filter(has_weight(table, k)));
        assert(second.filter(has_weight(table, k)) == dictionary.filter(has_weight(table, k)));
    }
    lemma_same_classes_same_order(table, first, second);
}

/// A word of a sequence stands among the words of its weight.
proof fn lemma_class_holds(table: Map<Seq<char>, u64>, words: Seq<Seq<char>>, i: int)
    requires
        0 <= i < words.len(),
    ensures
        words.filter(has_weight(table, weight_of(table, words[i]))).contains(words[i]),
{
    words.lemma_filter_contains(has_weight(table, weight_of(table, words[i])), i);
}

/// Two descending sequences with the same words of each weight, in the same
/// order, are equal.
proof fn lemma_same_classes_same_order(
    table: Map<Seq<char>, u64>,
    first: Seq<Seq<char>>,
    second: Seq<Seq<char>>,
)
    requires
        descending(first, table),
        descending(second, table),
        forall|k: u64| #[trigger]
            first.filter(has_weight(table, k)) == second.filter(has_weight(table, k)),
    ensures
        first == second,
    decreases first.len(),
{
    broadcast use Seq::lemma_filter_push;

    if first.len() == 0 {
        if second.len() > 0 {
            let k = weight_of(table, second[0]);
            lemma_class_holds(table, second, 0);
            assert(first.filter(has_weight(table, k)) == second.filter(has_weight(table, k)));
            first.lemma_filter_contains_rev(has_weight(table, k), second[0]);
        }
        assert(first =~= second);
    } else {
        let m = weight_of(table, first.last());
        lemma_class_holds(table, first, first.len() - 1);
        assert(first.filter(has_weight(table, m)) == second.filter(has_weight(table, m)));
        second.lemma_filter_contains_rev(has_weight(table, m), first.last());
        let j = choose|j: int| 0 <= j < second.len() && second[j] == first.last();
        let n = weight_of(table, second.last());
        lemma_class_holds(table, second, second.len() - 1);
        assert(first.filter(has_weight(table, n)) == second.filter(has_weight(table, n)));
        first.lemma_filter_contains_rev(has_weight(table, n), second.last());
        let i = choose|i: int| 0 <= i < first.len() && first[i] == second.last();
        assert(weight_of(table, second[j]) >= weight_of(table, second[second.len() - 1]));
        assert(weight_of(table, first[i]) >= weight_of(table, first[first.len() - 1]));
        assert(m == n);
        let a = first.drop_last();
        let b = second.drop_last();
        assert(first =~= a.push(first.last()));
        assert(second =~= b.push(second.last()));
        assert(a.push(first.last()).filter(has_weight(table, m)) == a.filter(
            has_weight(table, m),
        ).push(first.last()));
        assert(b.push(second.last()).filter(has_weight(table, m)) == b.filter(
            has_weight(table, m),
        ).push(second.last()));
        let fa = a.filter(has_weight(table, m));
        let fb = b.filter(has_weight(table, m));
        assert(fa.push(first.last()) == fb.push(second.last()));
        assert(fa.push(first.last()).last() == first.last());
        assert(fb.push(second.last()).last() == second.last());
        assert(first.last() == second.last());
        assert(fa =~= fa.push(first.last()).drop_last());
        assert(fb =~= fb.push(second.last()).drop_last());
        assert forall|k: u64| #[trigger]
            a.filter(has_weight(table, k)) == b.filter(has_weight(table, k)) by {
            assert(first.filter(has_weight(table, k)) == second.filter(has_weight(table, k)));
            assert(a.push(first.last()).filter(has_weight(table, k)) == first.filter(
                has_weight(table, k),
            ));
            assert(b.push(second.last()).filter(has_weight(table, k)) == second.filter(
                has_weight(table, k),
            ));
        }
        assert(descending(a, table)) by {
            assert forall|x: int, y: int| 0 <= x < y < a.len() implies weight_of(
                table,
                #[trigger] a[x],
            ) >= weight_of(table, #[trigger] a[y]) by {
                assert(a[x] == first[x] && a[y] == first[y]);
            }
        }
        assert(descending(b, table)) by {
            assert forall|x: int, y: int| 0 <= x < y < b.len() implies weight_of(
                table,
                #[trigger] b[x],
            ) >= weight_of(table, #[trigger] b[y]) by {
                assert(b[x] == second[x] && b[y] == second[y]);
            }
        }
        lemma_same_classes_same_order(table, a, b);
    }
}

/// When the hidden word is the solver's first guess, `guess_count` counts one
/// guess.
pub proof fn lemma_first_guess_needs_one(candidates: Seq<Seq<char>>)
    requires
        candidates.len() >= 1,
    ensures
        guesses_needed(candidates, candidates[0], GUESS_CEILING as nat) == 1,
{
}

} // verus!
