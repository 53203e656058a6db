use flashcard::calendar::Timestamp;
use flashcard::record::{parse_deck, parse_log, result_line, Card, FlashError, Outcome, ResultEntry};

fn card(c: &str, f: &str, b: &str) -> Card {
    Card { category: c.to_string(), front: f.to_string(), back: b.to_string() }
}

fn stamp(year: i32, month: u32, day: u32, hour: u32, minute: u32, second: u32) -> Timestamp {
    Timestamp { year, month, day, hour, minute, second }
}

#[test]
fn deck_reads_one_card_per_line() {
    let cards = parse_deck("Math\tWhat is 2+2?\t4\nGeo\tCapital of France?\tParis\n").unwrap();
    assert_eq!(cards, vec![card("Math", "What is 2+2?", "4"), card("Geo", "Capital of France?", "Paris")]);
}

#[test]
fn deck_fields_are_trimmed() {
    let cards = parse_deck("  Math \t What is 2+2? \t 4  \r\n").unwrap();
    assert_eq!(cards, vec![card("Math", "What is 2+2?", "4")]);
}

#[test]
fn deck_ignores_trailing_empty_lines() {
    let cards = parse_deck("A\tB\tC\n\n\n").unwrap();
    assert_eq!(cards, vec![card("A", "B", "C")]);
}

#[test]
fn deck_ignores_fields_past_the_third() {
    let cards = parse_deck("A\tB\tC\tD").unwrap();
    assert_eq!(cards, vec![card("A", "B", "C")]);
}

#[test]
fn empty_deck_text_has_no_cards() {
    assert_eq!(parse_deck("").unwrap(), Vec::<Card>::new());
}

#[test]
fn deck_line_with_two_fields_is_malformed() {
    assert_eq!(parse_deck("Math\tWhat is 2+2?"), Err(FlashError::MalformedRecord));
}

#[test]
fn deck_with_empty_line_in_the_middle_is_malformed() {
    assert_eq!(parse_deck("A\tB\tC\n\nD\tE\tF\n"), Err(FlashError::MalformedRecord));
}

#[test]
fn deck_read_twice_gives_equal_cards() {
    let text = "Math\tWhat is 2+2?\t4\nGeo\tCapital of France?\tParis\n";
    assert_eq!(parse_deck(text), parse_deck(text));
}

#[test]
fn log_reads_entries() {
    let log = parse_log("2024-03-01 10:20:30\tcorrect\tMath\t2+2\t4\n2024-03-02 00:00:00\tincorrect\tGeo\tFrance\tParis\n")
        .unwrap();
    assert_eq!(
        log,
        vec![
            ResultEntry { timestamp: stamp(2024, 3, 1, 10, 20, 30), outcome: Outcome::Correct, card: card("Math", "2+2", "4") },
            ResultEntry { timestamp: stamp(2024, 3, 2, 0, 0, 0), outcome: Outcome::Incorrect, card: card("Geo", "France", "Paris") },
        ]
    );
}

#[test]
fn log_line_with_four_fields_is_malformed() {
    assert_eq!(parse_log("2024-03-01 10:20:30\tcorrect\tMath\t2+2\n"), Err(FlashError::MalformedRecord));
}

#[test]
fn log_with_unknown_label_is_malformed() {
    assert_eq!(parse_log("2024-03-01 10:20:30\tmaybe\tMath\t2+2\t4\n"), Err(FlashError::MalformedRecord));
}

#[test]
fn log_with_bad_timestamp_is_malformed() {
    assert_eq!(parse_log("yesterday\tcorrect\tMath\t2+2\t4\n"), Err(FlashError::MalformedRecord));
    assert_eq!(parse_log("2023-02-29 10:00:00\tcorrect\tMath\t2+2\t4\n"), Err(FlashError::MalformedRecord));
    assert_eq!(parse_log("2024-03-01 24:00:00\tcorrect\tMath\t2+2\t4\n"), Err(FlashError::MalformedRecord));
}

#[test]
fn leap_day_timestamp_is_read() {
    let log = parse_log("2024-02-29 23:59:59\tcorrect\tA\tB\tC").unwrap();
    assert_eq!(log[0].timestamp, stamp(2024, 2, 29, 23, 59, 59));
}

#[test]
fn result_line_has_five_tab_separated_fields() {
    let e = ResultEntry { timestamp: stamp(2024, 3, 1, 9, 5, 7), outcome: Outcome::Incorrect, card: card("Math", "What is 2+2?", "4") };
    assert_eq!(result_line(&e), "2024-03-01 09:05:07\tincorrect\tMath\tWhat is 2+2?\t4\n");
}

#[test]
fn result_line_reads_back_as_the_same_entry() {
    let e = ResultEntry { timestamp: stamp(987, 12, 31, 23, 0, 59), outcome: Outcome::Correct, card: card("Geo", "Capital of France?", "Paris") };
    let text = result_line(&e);
    assert_eq!(parse_log(&text), Ok(vec![e]));
}

#[test]
fn log_of_appended_lines_reads_back_in_order() {
    let a = ResultEntry { timestamp: stamp(2024, 1, 1, 1, 1, 1), outcome: Outcome::Correct, card: card("A", "B", "C") };
    let b = ResultEntry { timestamp: stamp(2024, 1, 2, 1, 1, 1), outcome: Outcome::Incorrect, card: card("D", "E", "") };
    let text = format!("{}{}", result_line(&a), result_line(&b));
    assert_eq!(parse_log(&text), Ok(vec![a, b]));
}

#[test]
fn log_with_timestamp_not_in_the_fixed_shape_is_malformed() {
    assert_eq!(parse_log("2024-3-01 10:20:30\tcorrect\tMath\t2+2\t4\n"), Err(FlashError::MalformedRecord));
    assert_eq!(parse_log("2024-03-01T10:20:30\tcorrect\tMath\t2+2\t4\n"), Err(FlashError::MalformedRecord));
    assert_eq!(parse_log("2024-03-01 10:20:60\tcorrect\tMath\t2+2\t4\n"), Err(FlashError::MalformedRecord));
    assert_eq!(parse_log("+2024-03-01 10:20:30\tcorrect\tMath\t2+2\t4\n"), Err(FlashError::MalformedRecord));
}

#[test]
fn appending_to_a_log_keeps_old_entries_first() {
    let old = "2024-03-01 10:20:30\tcorrect\tMath\t2+2\t4\n";
    let before = parse_log(old).unwrap();
    let e = ResultEntry { timestamp: stamp(2024, 3, 5, 8, 0, 0), outcome: Outcome::Incorrect, card: card("Geo", "France", "Paris") };
    let after = parse_log(&format!("{}{}", old, result_line(&e))).unwrap();
    let mut expected = before.clone();
    expected.push(e);
    assert_eq!(after, expected);
}
