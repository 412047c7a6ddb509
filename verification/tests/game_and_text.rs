use wordle_solver::feedback::Placement;
use wordle_solver::frequencies::Frequencies;
use wordle_solver::game::{assist_step, background_of, choose_target, play_round, target_at, Advice};
use wordle_solver::solver::Solver;
use wordle_solver::text::{lines, parse_count, parse_entry, read_frequencies, read_wordle_answers};

fn words(list: &[&str]) -> Vec<String> {
    list.iter().map(|w| w.to_string()).collect()
}

#[test]
fn chosen_target_is_in_the_list() {
    let list = words(&["apple", "grape", "mango"]);
    for _ in 0..200 {
        let t = choose_target(&list).unwrap();
        assert!(list.iter().any(|w| w == t));
    }
    let one = words(&["mango"]);
    assert_eq!(choose_target(&one), Some("mango"));
}

#[test]
fn no_target_in_an_empty_list() {
    assert_eq!(choose_target(&[]), None);
}

#[test]
fn target_at_index() {
    let list = words(&["apple", "grape", "mango"]);
    assert_eq!(target_at(&list, 0), Some("apple"));
    assert_eq!(target_at(&list, 2), Some("mango"));
    assert_eq!(target_at(&list, 3), None);
}

#[test]
fn round_reports_feedback_and_end() {
    let r = play_round("mango", "apple");
    assert!(!r.solved);
    assert_eq!(r.info.placements[0], Placement::Misplaced);
    assert_eq!(r.info.placements[1], Placement::Absent);
    let r = play_round("mango", "mango");
    assert!(r.solved);
    assert_eq!(r.info.placements, [Placement::Correct; 5]);
    // a longer guess that agrees on five characters is all correct and not the word
    let r = play_round("mango", "mangos");
    assert!(!r.solved);
    assert_eq!(r.info.placements, [Placement::Correct; 5]);
}

#[test]
fn backgrounds() {
    assert_eq!(background_of(Placement::Correct), 42);
    assert_eq!(background_of(Placement::Misplaced), 43);
    assert_eq!(background_of(Placement::Absent), 40);
}

#[test]
fn lines_split_at_line_feeds() {
    assert_eq!(lines(""), Vec::<&str>::new());
    assert_eq!(lines("apple"), vec!["apple"]);
    assert_eq!(lines("apple\n"), vec!["apple"]);
    assert_eq!(lines("apple\ngrape\nmango"), vec!["apple", "grape", "mango"]);
    assert_eq!(lines("apple\r\ngrape\r\n"), vec!["apple", "grape"]);
    assert_eq!(lines("\n"), vec![""]);
    assert_eq!(lines("a\n\nb"), vec!["a", "", "b"]);
    assert_eq!(lines("a\r"), vec!["a\r"]);
    assert_eq!(lines("a\rb\n"), vec!["a\rb"]);
    assert_eq!(lines("\r\n\r\n"), vec!["", ""]);
    assert_eq!(lines("naïve\r\ncafé\n"), vec!["naïve", "café"]);
}

#[test]
fn lines_agree_with_std() {
    for text in ["", "a", "a\n", "\n\n", "a\r\n\r\nb", "x\ny\r", "\r", "\r\n", "é\r\nü", "a\n\r\nb\r\r\n"] {
        let expected: Vec<&str> = text.lines().collect();
        assert_eq!(lines(text), expected, "{:?}", text);
    }
}

#[test]
fn answers_are_the_lines() {
    assert_eq!(read_wordle_answers("apple\ngrape\nmango\n"), words(&["apple", "grape", "mango"]));
    assert_eq!(read_wordle_answers(""), Vec::<String>::new());
}

#[test]
fn counts_are_decimal() {
    assert_eq!(parse_count("0"), Some(0));
    assert_eq!(parse_count("12"), Some(12));
    assert_eq!(parse_count("+12"), Some(12));
    assert_eq!(parse_count("007"), Some(7));
    assert_eq!(parse_count("18446744073709551615"), Some(u64::MAX));
    assert_eq!(parse_count("18446744073709551616"), None);
    assert_eq!(parse_count("99999999999999999999999"), None);
    assert_eq!(parse_count(""), None);
    assert_eq!(parse_count("+"), None);
    assert_eq!(parse_count("++1"), None);
    assert_eq!(parse_count("-1"), None);
    assert_eq!(parse_count("1 "), None);
    assert_eq!(parse_count("1a"), None);
    assert_eq!(parse_count("١٢"), None);
}

#[test]
fn counts_agree_with_std() {
    for field in ["0", "+0", "42", "+", "", "4 2", "18446744073709551615", "18446744073709551616", "184467440737095516150", "-0", "0x10"] {
        assert_eq!(parse_count(field), u64::from_str_radix(field, 10).ok(), "{:?}", field);
    }
}

#[test]
fn entries_are_word_and_count() {
    assert_eq!(parse_entry("apple,10"), Some(("apple".to_string(), 10)));
    assert_eq!(parse_entry("apple,10,extra"), Some(("apple".to_string(), 10)));
    assert_eq!(parse_entry(",5"), Some((String::new(), 5)));
    assert_eq!(parse_entry("apple"), None);
    assert_eq!(parse_entry("apple,"), None);
    assert_eq!(parse_entry("apple,ten"), None);
    assert_eq!(parse_entry(""), None);
}

#[test]
fn frequencies_are_read_line_by_line() {
    let t = read_frequencies("apple,10\ngrape,5\r\nmango,1\n").unwrap();
    assert_eq!(t.weight("apple"), 10);
    assert_eq!(t.weight("grape"), 5);
    assert_eq!(t.weight("mango"), 1);
    assert_eq!(t.weight("lemon"), 0);
    let t = read_frequencies("apple,10\napple,4\n").unwrap();
    assert_eq!(t.weight("apple"), 4);
    let t = read_frequencies("").unwrap();
    assert_eq!(t.weight("apple"), 0);
}

#[test]
fn malformed_frequencies_are_refused() {
    assert!(read_frequencies("apple,10\ngrape\n").is_none());
    assert!(read_frequencies("apple,10\n\ngrape,5\n").is_none());
    assert!(read_frequencies("apple,x\n").is_none());
}

fn fruit() -> Solver {
    let mut t = Frequencies::new();
    t.insert("apple".to_string(), 10);
    t.insert("grape".to_string(), 5);
    t.insert("mango".to_string(), 1);
    Solver::make(&words(&["apple", "grape", "mango"]), &t)
}

#[test]
fn assist_gives_the_next_guess() {
    let mut s = fruit();
    let advice = assist_step(&mut s, "apple", "ybbbb");
    assert!(matches!(advice, Advice::Guess(ref w) if w == "mango"));
    assert_eq!(s.len(), 1);
    assert_eq!(s.next_guess(), Some("mango"));
}

#[test]
fn assist_ignores_malformed_lines() {
    let mut s = fruit();
    for line in ["", "ybbb", "ybbbbb", "ybbbx", "hello", "g g g"] {
        assert!(matches!(assist_step(&mut s, "apple", line), Advice::Ignored), "{:?}", line);
        assert_eq!(s.len(), 3);
        assert_eq!(s.next_guess(), Some("apple"));
        assert_eq!(s.candidate(1), "grape");
        assert_eq!(s.candidate(2), "mango");
    }
}

#[test]
fn assist_reports_exhaustion() {
    let mut s = fruit();
    assert!(matches!(assist_step(&mut s, "zzzzz", "ggggg"), Advice::Exhausted));
    assert_eq!(s.len(), 0);
    assert!(matches!(assist_step(&mut s, "zzzzz", "bbbbb"), Advice::Exhausted));
}
