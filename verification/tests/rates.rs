use subtitle_align::rate::{average_wait, micros_per_byte, scaled_millis};
use subtitle_align::word::{is_chronological, Word};

fn word(text: &str, start_ms: u64, end_ms: u64) -> Word {
    Word { start_ms, end_ms, word: text.to_string() }
}

fn with_gaps(gaps: &[u64]) -> Vec<Word> {
    let mut words = vec![word("w", 0, 100)];
    let mut at = 100;
    for gap in gaps {
        words.push(word("w", at + gap, at + gap + 100));
        at = at + gap + 100;
    }
    words
}

#[test]
fn average_wait_of_no_word_is_zero() {
    assert_eq!(average_wait(&vec![]), 0);
}

#[test]
fn average_wait_of_one_word_is_zero() {
    assert_eq!(average_wait(&vec![word("a", 5, 9)]), 0);
}

#[test]
fn average_wait_is_the_mean_of_the_pauses() {
    assert_eq!(average_wait(&with_gaps(&[10, 20, 30])), 20);
}

#[test]
fn average_wait_rounds_down() {
    assert_eq!(average_wait(&with_gaps(&[10, 11])), 10);
}

#[test]
fn average_wait_leaves_out_a_long_silence() {
    assert_eq!(average_wait(&with_gaps(&[10, 12, 11, 500, 9])), 10);
}

#[test]
fn average_wait_does_not_depend_on_the_silence() {
    assert_eq!(
        average_wait(&with_gaps(&[10, 12, 11, 500, 9])),
        average_wait(&with_gaps(&[10, 12, 11, 100_000, 9]))
    );
}

#[test]
fn average_wait_keeps_a_pause_of_twenty_times_the_one_before() {
    assert_eq!(average_wait(&with_gaps(&[10, 200])), 105);
    assert_eq!(average_wait(&with_gaps(&[10, 201])), 10);
}

#[test]
fn average_wait_always_keeps_the_first_pause() {
    assert_eq!(average_wait(&with_gaps(&[100_000])), 100_000);
}

#[test]
fn average_wait_leaves_out_any_pause_after_none() {
    assert_eq!(average_wait(&with_gaps(&[0, 1])), 0);
    assert_eq!(average_wait(&with_gaps(&[0, 0, 6])), 0);
}

#[test]
fn average_wait_holds_the_largest_pause() {
    let words = vec![word("a", 0, 0), word("b", u64::MAX, u64::MAX)];
    assert_eq!(average_wait(&words), u64::MAX);
}

#[test]
fn micros_per_byte_of_no_word_is_zero() {
    assert_eq!(micros_per_byte(&vec![], 0, 0), 0);
}

#[test]
fn micros_per_byte_is_the_mean_of_the_rates() {
    let words = vec![word("ab", 0, 40), word("cd", 90, 130)];
    assert_eq!(micros_per_byte(&words, 0, 2), 20_000);
    let words = vec![word("aaaa", 0, 400), word("bb", 400, 1000)];
    assert_eq!(micros_per_byte(&words, 0, 2), 200_000);
}

#[test]
fn micros_per_byte_weighs_words_alike() {
    let words = vec![word("a", 0, 100), word("bbbbbbbbbb", 100, 200)];
    assert_eq!(micros_per_byte(&words, 0, 2), 55_000);
}

#[test]
fn micros_per_byte_keeps_fractions_of_a_millisecond() {
    let words = vec![word("abc", 0, 100)];
    assert_eq!(micros_per_byte(&words, 0, 1), 33_333);
}

#[test]
fn micros_per_byte_counts_bytes() {
    let words = vec![word("\u{e9}\u{e9}", 0, 100)];
    assert_eq!(micros_per_byte(&words, 0, 1), 25_000);
}

#[test]
fn micros_per_byte_takes_a_part_of_the_transcript() {
    let words = vec![word("a", 0, 10), word("b", 10, 40), word("c", 40, 90)];
    assert_eq!(micros_per_byte(&words, 1, 3), 40_000);
    assert_eq!(micros_per_byte(&words, 1, 1), 0);
}

#[test]
fn micros_per_byte_leaves_out_a_word_without_text() {
    let words = vec![word("ab", 0, 40), word("", 40, 50), word("cd", 50, 110)];
    assert_eq!(micros_per_byte(&words, 0, 3), 25_000);
    assert_eq!(micros_per_byte(&words, 1, 2), 0);
}

#[test]
fn micros_per_byte_holds_the_largest_rate() {
    let words = vec![word("a", 0, u64::MAX), word("b", u64::MAX, u64::MAX)];
    assert_eq!(micros_per_byte(&words, 0, 1), u64::MAX as u128 * 1000);
    assert_eq!(micros_per_byte(&words, 0, 2), u64::MAX as u128 * 500);
    let words = vec![word("a", 0, 7), word("b", 7, 7), word("c", 7, 7)];
    assert_eq!(micros_per_byte(&words, 0, 3), 2333);
}

#[test]
fn scaled_millis_rounds_down() {
    assert_eq!(scaled_millis(1, 20_000), Some(20));
    assert_eq!(scaled_millis(3, 20_000), Some(60));
    assert_eq!(scaled_millis(3, 33_333), Some(99));
    assert_eq!(scaled_millis(1, 999), Some(0));
    assert_eq!(scaled_millis(0, 20_000), Some(0));
}

#[test]
fn scaled_millis_stops_at_what_fits() {
    assert_eq!(scaled_millis(1, u64::MAX as u128 * 1000), Some(u64::MAX));
    assert_eq!(scaled_millis(1, u64::MAX as u128 * 1000 + 1000), None);
    assert_eq!(scaled_millis(2, u64::MAX as u128 * 1000), None);
    assert_eq!(scaled_millis(usize::MAX, u128::MAX), None);
}

#[test]
fn is_chronological_takes_words_in_order() {
    assert!(is_chronological(&vec![]));
    assert!(is_chronological(&vec![word("a", 0, 0)]));
    assert!(is_chronological(&vec![word("a", 0, 10), word("b", 10, 20), word("c", 25, 25)]));
}

#[test]
fn is_chronological_refuses_a_word_that_ends_before_it_starts() {
    assert!(!is_chronological(&vec![word("a", 0, 10), word("b", 20, 19)]));
}

#[test]
fn is_chronological_refuses_words_that_overlap() {
    assert!(!is_chronological(&vec![word("a", 0, 10), word("b", 9, 20)]));
}
