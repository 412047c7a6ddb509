use wordle_solver::feedback::{placement, CodeError, Placement, PlacementInfo};
use wordle_solver::frequencies::Frequencies;
use wordle_solver::solver::{guess_count, same_word, Solver, GUESS_CEILING, RANKING_LIMIT};

fn words(list: &[&str]) -> Vec<String> {
    list.iter().map(|w| w.to_string()).collect()
}

fn table(entries: &[(&str, u64)]) -> Frequencies {
    let mut t = Frequencies::new();
    for (w, n) in entries {
        t.insert(w.to_string(), *n);
    }
    t
}

fn candidates(s: &Solver) -> Vec<String> {
    (0..s.len()).map(|i| s.candidate(i).to_string()).collect()
}

fn fruit() -> Solver {
    Solver::make(
        &words(&["apple", "grape", "mango"]),
        &table(&[("apple", 10), ("grape", 5), ("mango", 1)]),
    )
}

#[test]
fn frequencies_default_to_zero() {
    let t = table(&[("apple", 10), ("grape", 5)]);
    assert_eq!(t.weight("apple"), 10);
    assert_eq!(t.weight("grape"), 5);
    assert_eq!(t.weight("mango"), 0);
    assert_eq!(Frequencies::new().weight("apple"), 0);
}

#[test]
fn later_weight_replaces_earlier() {
    let t = table(&[("apple", 10), ("apple", 3)]);
    assert_eq!(t.weight("apple"), 3);
}

#[test]
fn make_orders_by_descending_weight() {
    let s = Solver::make(
        &words(&["mango", "apple", "grape"]),
        &table(&[("apple", 10), ("grape", 5), ("mango", 1)]),
    );
    assert_eq!(candidates(&s), words(&["apple", "grape", "mango"]));
}

#[test]
fn make_keeps_dictionary_order_among_equal_weights() {
    let s = Solver::make(
        &words(&["delta", "alpha", "gamma", "kappa", "omega"]),
        &table(&[("alpha", 7), ("kappa", 7), ("gamma", 9), ("omega", 0)]),
    );
    assert_eq!(candidates(&s), words(&["gamma", "alpha", "kappa", "delta", "omega"]));
}

#[test]
fn make_tolerates_duplicates_and_empty_dictionary() {
    let s = Solver::make(&words(&["apple", "mango", "apple"]), &table(&[("mango", 2)]));
    assert_eq!(candidates(&s), words(&["mango", "apple", "apple"]));
    let e = Solver::make(&[], &Frequencies::new());
    assert_eq!(e.len(), 0);
    assert_eq!(e.next_guess(), None);
}

#[test]
fn end_to_end_fruit() {
    let mut s = fruit();
    assert_eq!(s.next_guess(), Some("apple"));
    s.update("apple", placement("mango", "apple"));
    assert_eq!(candidates(&s), words(&["mango"]));
    assert_eq!(s.next_guess(), Some("mango"));
}

#[test]
fn next_guess_is_a_candidate() {
    let mut s = fruit();
    let g = s.next_guess().unwrap().to_string();
    assert!(candidates(&s).contains(&g));
    s.update("grape", placement("grape", "grape"));
    let g = s.next_guess().unwrap().to_string();
    assert!(candidates(&s).contains(&g));
    assert_eq!(g, "grape");
}

#[test]
fn exhausted_candidates_give_no_guess() {
    let mut s = fruit();
    s.update("zzzzz", PlacementInfo { placements: [Placement::Correct; 5] });
    assert_eq!(s.len(), 0);
    assert_eq!(s.next_guess(), None);
}

#[test]
fn update_keeps_exactly_the_consistent_in_order() {
    let dict = words(&["crane", "crate", "grate", "slate", "fuzzy", "trace"]);
    let mut s = Solver::make(&dict, &Frequencies::new());
    let info = placement("slate", "crate");
    let before = candidates(&s);
    s.update("crate", info);
    let after = candidates(&s);
    let expected: Vec<String> = before
        .iter()
        .filter(|w| wordle_solver::feedback::consistent(w, "crate", info))
        .cloned()
        .collect();
    assert_eq!(after, expected);
    assert_eq!(after, words(&["slate"]));
}

#[test]
fn update_never_grows_and_is_idempotent() {
    let dict = words(&["crane", "crate", "grate", "slate", "fuzzy", "trace"]);
    let mut s = Solver::make(&dict, &Frequencies::new());
    let info = placement("grate", "slate");
    let n0 = s.len();
    s.update("slate", info);
    let once = candidates(&s);
    assert!(once.len() <= n0);
    assert_eq!(once, words(&["crate", "grate"]));
    s.update("slate", info);
    assert_eq!(candidates(&s), once);
    let n1 = s.len();
    s.update("crate", placement("grate", "crate"));
    assert!(s.len() <= n1);
    assert_eq!(candidates(&s), words(&["grate"]));
}

#[test]
fn respond_applies_a_code() {
    let mut s = fruit();
    assert_eq!(s.respond("apple", "Ybbbb"), Ok(()));
    assert_eq!(candidates(&s), words(&["mango"]));
}

#[test]
fn respond_rejects_malformed_code_without_change() {
    let mut s = fruit();
    assert_eq!(s.respond("apple", "ybbb"), Err(CodeError::WrongLength));
    assert_eq!(candidates(&s), words(&["apple", "grape", "mango"]));
    assert_eq!(s.respond("apple", "ybbbbb"), Err(CodeError::WrongLength));
    assert_eq!(candidates(&s), words(&["apple", "grape", "mango"]));
    assert_eq!(s.respond("apple", "ybb?b"), Err(CodeError::UnknownCode));
    assert_eq!(candidates(&s), words(&["apple", "grape", "mango"]));
}

#[test]
fn guess_count_of_first_guess_is_one() {
    let s = fruit();
    let first = s.next_guess().unwrap().to_string();
    assert_eq!(guess_count(s, &first), 1);
    let single = Solver::make(&words(&["mango"]), &Frequencies::new());
    assert_eq!(guess_count(single, "mango"), 1);
}

#[test]
fn guess_count_counts_each_guess() {
    assert_eq!(guess_count(fruit(), "apple"), 1);
    assert_eq!(guess_count(fruit(), "mango"), 2);
    assert_eq!(guess_count(fruit(), "grape"), 2);
}

#[test]
fn guess_count_is_capped() {
    assert_eq!(GUESS_CEILING, 100);
    // a target outside the dictionary exhausts the candidates
    assert_eq!(guess_count(fruit(), "zzzzz"), 100);
    let empty = Solver::make(&[], &Frequencies::new());
    assert_eq!(guess_count(empty, "apple"), 100);
}

#[test]
fn same_word_compares_characters() {
    assert!(same_word("mango", "mango"));
    assert!(!same_word("mango", "mange"));
    assert!(!same_word("mango", "mang"));
    assert!(same_word("", ""));
}

#[test]
fn scores_are_weighted_removals() {
    let s = Solver::make(
        &words(&["fuzzy", "crane", "crate", "grate", "slate"]),
        &table(&[("fuzzy", 9), ("crane", 3), ("crate", 3), ("grate", 2), ("slate", 2)]),
    );
    let t = table(&[("fuzzy", 9), ("crane", 3), ("crate", 3), ("grate", 2), ("slate", 2)]);
    let scores: Vec<u128> = (0..s.len()).map(|g| s.score_of(&t, g)).collect();
    assert_eq!(scores, vec![46, 76, 76, 76, 71]);
    let f = fruit();
    let ft = table(&[("apple", 10), ("grape", 5), ("mango", 1)]);
    assert_eq!(f.score_of(&ft, 0), 32);
    assert_eq!(f.score_of(&ft, 1), 32);
    assert_eq!(f.score_of(&ft, 2), 27);
}

#[test]
fn best_guess_is_first_of_greatest_score() {
    let t = table(&[("fuzzy", 9), ("crane", 3), ("crate", 3), ("grate", 2), ("slate", 2)]);
    let mut s = Solver::make(&words(&["fuzzy", "crane", "crate", "grate", "slate"]), &t);
    assert!(s.len() <= RANKING_LIMIT);
    assert_eq!(s.choose_best_guess(&t), Some(1));
    assert_eq!(candidates(&s), words(&["crane", "fuzzy", "crate", "grate", "slate"]));
    assert_eq!(s.next_guess(), Some("crane"));
}

#[test]
fn best_guess_swaps_with_the_front() {
    let t = table(&[("jazzy", 8), ("fizzy", 7), ("crane", 5), ("brine", 5), ("stone", 4)]);
    let mut s = Solver::make(&words(&["jazzy", "fizzy", "crane", "brine", "stone"]), &t);
    assert_eq!(s.choose_best_guess(&t), Some(3));
    assert_eq!(candidates(&s), words(&["brine", "fizzy", "crane", "jazzy", "stone"]));
}

#[test]
fn best_guess_of_ties_and_of_nothing() {
    let ft = table(&[("apple", 10), ("grape", 5), ("mango", 1)]);
    let mut f = fruit();
    assert_eq!(f.choose_best_guess(&ft), Some(0));
    assert_eq!(candidates(&f), words(&["apple", "grape", "mango"]));
    let mut e = Solver::make(&[], &ft);
    assert_eq!(e.choose_best_guess(&ft), None);
    assert_eq!(e.len(), 0);
}

#[test]
fn clone_is_a_solver_of_its_own() {
    let s = fruit();
    let mut c = s.clone();
    c.update("apple", placement("mango", "apple"));
    assert_eq!(candidates(&c), words(&["mango"]));
    assert_eq!(candidates(&s), words(&["apple", "grape", "mango"]));
    assert_eq!(guess_count(s.clone(), "mango"), 2);
    assert_eq!(guess_count(s, "grape"), 2);
}
