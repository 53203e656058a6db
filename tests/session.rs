use flashcard::calendar::{days_between, log_time, log_time_now, Timestamp};
use flashcard::quiz::{is_yes, parse_count, QuizSession};
use flashcard::record::{parse_log, Card, FlashError, Outcome, ResultEntry};
use flashcard::sampler::sample;
use flashcard::stats::{summarize, summarize_at, tally_correct, Summary};
use flashcard::table::{column_widths, fixed_width, table_lines};

fn card(c: &str, f: &str, b: &str) -> Card {
    Card { category: c.to_string(), front: f.to_string(), back: b.to_string() }
}

fn stamp(year: i32, month: u32, day: u32, hour: u32, minute: u32, second: u32) -> Timestamp {
    Timestamp { year, month, day, hour, minute, second }
}

fn entry(t: Timestamp, outcome: Outcome) -> ResultEntry {
    ResultEntry { timestamp: t, outcome, card: card("A", "B", "C") }
}

fn deck() -> Vec<Card> {
    vec![card("Math", "2+2", "4"), card("Geo", "France", "Paris"), card("Art", "Mona Lisa", "da Vinci")]
}

#[test]
fn sample_refuses_non_positive_count() {
    assert_eq!(sample(&deck(), 0), Err(FlashError::InvalidCount));
    assert_eq!(sample(&deck(), -3), Err(FlashError::InvalidCount));
}

#[test]
fn sample_refuses_empty_deck() {
    assert_eq!(sample(&Vec::new(), 4), Err(FlashError::InvalidCount));
}

#[test]
fn sample_draws_count_cards_from_the_deck() {
    let d = deck();
    for count in [1i64, 2, 3, 10] {
        let picked = sample(&d, count).unwrap();
        assert_eq!(picked.len(), count as usize);
        assert!(picked.iter().all(|c| d.contains(c)));
    }
}

#[test]
fn sample_of_one_card_deck_repeats_it() {
    let d = vec![card("X", "Y", "Z")];
    assert_eq!(sample(&d, 3).unwrap(), vec![d[0].clone(), d[0].clone(), d[0].clone()]);
}

#[test]
fn quiz_tallies_add_up_to_cards_shown() {
    let now = stamp(2024, 5, 6, 7, 8, 9);
    let mut s = QuizSession::new(deck());
    let mut log = Vec::new();
    for judged in [true, false, true] {
        assert!(!s.is_finished());
        let shown = s.current().unwrap().clone();
        let e = s.record(judged, now);
        assert_eq!(e.card, shown);
        log.push(e);
    }
    assert!(s.is_finished());
    assert!(s.current().is_none());
    assert_eq!(s.correct, 2);
    assert_eq!(s.incorrect, 1);
    assert_eq!(s.correct + s.incorrect, 3);
    let cards: Vec<Card> = log.iter().map(|e| e.card.clone()).collect();
    assert_eq!(cards, deck());
    assert_eq!(s.outcomes, vec![Outcome::Correct, Outcome::Incorrect, Outcome::Correct]);
}

#[test]
fn confirmation_accepts_only_y() {
    assert!(is_yes("y\n"));
    assert!(is_yes("  y "));
    assert!(!is_yes("yes"));
    assert!(!is_yes("n"));
    assert!(!is_yes(""));
}

#[test]
fn summary_of_two_correct_one_incorrect() {
    let log = vec![
        entry(stamp(2024, 3, 1, 10, 0, 0), Outcome::Correct),
        entry(stamp(2024, 3, 2, 10, 0, 0), Outcome::Incorrect),
        entry(stamp(2024, 3, 3, 10, 0, 0), Outcome::Correct),
    ];
    let s = summarize_at(&log, &stamp(2024, 3, 3, 12, 0, 0)).unwrap();
    assert_eq!(
        s,
        Summary {
            total: 3,
            correct: 2,
            incorrect: 1,
            correct_pct: 66,
            incorrect_pct: 33,
            last: stamp(2024, 3, 3, 10, 0, 0),
            days_since_last: 0,
        }
    );
}

#[test]
fn summary_last_is_last_in_log_order() {
    let log = vec![
        entry(stamp(2024, 3, 9, 10, 0, 0), Outcome::Incorrect),
        entry(stamp(2024, 3, 1, 10, 0, 0), Outcome::Incorrect),
    ];
    let s = summarize_at(&log, &stamp(2024, 3, 11, 0, 0, 0)).unwrap();
    assert_eq!(s.last, stamp(2024, 3, 1, 10, 0, 0));
    assert_eq!(s.days_since_last, 10);
    assert_eq!((s.correct, s.incorrect, s.correct_pct, s.incorrect_pct), (0, 2, 0, 100));
}

#[test]
fn empty_log_has_no_summary() {
    let log = parse_log("").unwrap();
    assert_eq!(summarize_at(&log, &stamp(2024, 1, 1, 0, 0, 0)), Err(FlashError::EmptyLog));
    assert_eq!(summarize(&log), Err(FlashError::EmptyLog));
}

#[test]
fn summary_by_the_clock_counts_entries() {
    let log = vec![entry(stamp(2000, 1, 1, 0, 0, 0), Outcome::Correct)];
    let s = summarize(&log).unwrap();
    assert_eq!((s.total, s.correct, s.incorrect, s.correct_pct, s.incorrect_pct), (1, 1, 0, 100, 0));
    assert!(s.days_since_last > 8000);
}

#[test]
fn days_since_five_calendar_days_ignores_time_of_day() {
    assert_eq!(days_between(&stamp(2024, 2, 26, 23, 59, 59), &stamp(2024, 3, 2, 0, 0, 1)), 5);
    assert_eq!(days_between(&stamp(2024, 2, 26, 0, 0, 0), &stamp(2024, 3, 2, 23, 59, 59)), 5);
    assert_eq!(days_between(&stamp(2023, 12, 30, 12, 0, 0), &stamp(2024, 1, 4, 12, 0, 0)), 5);
}

#[test]
fn days_between_counts_back_for_a_later_entry() {
    assert_eq!(days_between(&stamp(2024, 1, 3, 0, 0, 0), &stamp(2024, 1, 1, 0, 0, 0)), -2);
}

#[test]
fn local_clock_gives_a_plausible_time() {
    let t = log_time_now().unwrap();
    assert!(t.year >= 2000 && (1..=12).contains(&t.month) && (1..=31).contains(&t.day));
    assert!(t.hour < 24 && t.minute < 60 && t.second < 60);
}

#[test]
fn tally_counts_correct_entries() {
    let log = vec![
        entry(stamp(2024, 3, 1, 10, 0, 0), Outcome::Correct),
        entry(stamp(2024, 3, 2, 10, 0, 0), Outcome::Incorrect),
    ];
    assert_eq!(tally_correct(&log), 1);
}

#[test]
fn fixed_width_pads_short_text_only() {
    assert_eq!(fixed_width("ab", 5).iter().collect::<String>(), "ab   ");
    assert_eq!(fixed_width("abcdef", 3).iter().collect::<String>(), "abcdef");
}

#[test]
fn listing_aligns_columns() {
    let lines = table_lines(&deck());
    assert_eq!(column_widths(&deck()), (4, 9));
    assert_eq!(lines[0], "Category  Front      Back");
    assert_eq!(lines[1], "Math  2+2        4");
    assert_eq!(lines[3], "Art   Mona Lisa  da Vinci");
    assert_eq!(lines.len(), 4);
}

#[test]
fn quiz_length_reads_digits() {
    assert_eq!(parse_count("5\n"), Ok(5));
    assert_eq!(parse_count("  +12 "), Ok(12));
    assert_eq!(parse_count("0"), Ok(0));
    assert_eq!(parse_count("9223372036854775807"), Ok(i64::MAX));
}

#[test]
fn quiz_length_refuses_other_text() {
    for answer in ["", "+", "five", "3 cards", "-3", "9223372036854775808", "1.5"] {
        assert_eq!(parse_count(answer), Err(FlashError::InvalidCount), "{}", answer);
    }
}

#[test]
fn timestamp_text_is_zero_padded() {
    let t = stamp(987, 1, 2, 3, 4, 5);
    assert_eq!(t.to_text().iter().collect::<String>(), "0987-01-02 03:04:05");
}

#[test]
fn log_time_keeps_four_digit_years_only() {
    let t = stamp(2024, 5, 6, 7, 8, 9);
    assert_eq!(log_time(t), Some(t));
    assert_eq!(log_time(stamp(10000, 1, 1, 0, 0, 0)), None);
    assert_eq!(log_time(stamp(-1, 1, 1, 0, 0, 0)), None);
}
