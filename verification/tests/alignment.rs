use subtitle_align::align::{
    align_tokens, align_with_ranges, match_timestamps_to_script, script_text, AlignError,
};
use subtitle_align::diff::{is_partition, DiffRange, DiffTag};
use subtitle_align::synth::{
    insert_words, last_anchor_of, lay_out, lengths_below, merge_words, pair_words, replace_words,
    synthesize, untimed_words,
};
use subtitle_align::tokenizer::split;
use subtitle_align::word::Word;

fn word(text: &str, start_ms: u64, end_ms: u64) -> Word {
    Word { start_ms, end_ms, word: text.to_string() }
}

fn range(tag: DiffTag, old: (usize, usize), new: (usize, usize)) -> DiffRange {
    DiffRange { tag, old_start: old.0, old_end: old.1, new_start: new.0, new_end: new.1 }
}

#[test]
fn equal_words_keep_their_times_and_take_the_script_spelling() {
    let words = vec![word("hello", 5, 105), word("WORLD", 120, 333)];
    let out = match_timestamps_to_script(words, "Hello, world!").unwrap();
    assert_eq!(out, vec![word("Hello,", 5, 105), word("world!", 120, 333)]);
}

#[test]
fn equal_length_tie_break() {
    let words = vec![word("teh", 0, 100), word("wrold", 110, 260)];
    let out = match_timestamps_to_script(words, "the world").unwrap();
    assert_eq!(out, vec![word("the", 0, 100), word("world", 110, 260)]);
}

#[test]
fn insert_with_anchor() {
    let tokens = split("a big");
    let out = lay_out(&tokens, 0, 2, 1000, 50, 20_000).unwrap();
    assert_eq!(out, vec![word("a", 1000, 1020), word("big", 1070, 1130)]);
}

#[test]
fn insert_with_anchor_from_the_transcript() {
    let words = vec![word("ab", 870, 910), word("cd", 960, 1000)];
    let out = match_timestamps_to_script(words, "ab cd a big").unwrap();
    assert_eq!(
        out,
        vec![word("ab", 870, 910), word("cd", 960, 1000), word("a", 1000, 1020), word("big", 1070, 1130)]
    );
}

#[test]
fn merge_fallback() {
    let words = vec![word("x", 1000, 2000)];
    let script = "one  two three\tfour   five";
    let out = match_timestamps_to_script(words, script).unwrap();
    assert_eq!(out, vec![word("one  two three\tfour   five", 1000, 2000)]);
}

#[test]
fn merge_fallback_keeps_line_breaks_between_its_tokens() {
    let words = vec![word("k", 0, 10), word("x", 1000, 1500), word("y", 1500, 2000), word("z", 2100, 2200)];
    let script = "k one\n two z";
    let ranges = vec![
        range(DiffTag::Equal, (0, 1), (0, 1)),
        range(DiffTag::Replace, (1, 3), (1, 4)),
        range(DiffTag::Equal, (3, 4), (4, 5)),
    ];
    let out = align_with_ranges(&words, script, &ranges).unwrap();
    assert_eq!(out, vec![word("k", 0, 10), word("one\n two", 1000, 2000), word("z", 2100, 2200)]);
}

#[test]
fn merge_fallback_when_the_tokens_just_fill_the_time() {
    let words = vec![word("abcd", 0, 300), word("ef", 300, 600)];
    let ranges = vec![range(DiffTag::Replace, (0, 2), (0, 3))];
    let out = align_with_ranges(&words, "xx yy zz", &ranges).unwrap();
    assert_eq!(out, vec![word("xx yy zz", 0, 600)]);
}

#[test]
fn replace_shares_out_the_time_that_is_left() {
    let words = vec![word("aaaa", 0, 400), word("bb", 400, 1000)];
    let out = match_timestamps_to_script(words, "x y z").unwrap();
    assert_eq!(out, vec![word("x", 0, 200), word("y", 400, 600), word("z", 800, 1000)]);
}

#[test]
fn replace_with_one_token_has_no_pause() {
    let words = vec![word("ab", 100, 200), word("cd", 300, 500)];
    let ranges = vec![range(DiffTag::Replace, (0, 2), (0, 1))];
    let out = align_with_ranges(&words, "xyz", &ranges).unwrap();
    assert_eq!(out, vec![word("xyz", 100, 325)]);
}

#[test]
fn replace_rounds_the_pause_down() {
    let words = vec![word("a", 0, 10), word("b", 10, 20)];
    let ranges = vec![range(DiffTag::Replace, (0, 2), (0, 3))];
    let out = align_with_ranges(&words, "p q r", &ranges);
    assert_eq!(out.unwrap(), vec![word("p q r", 0, 20)]);
    let words = vec![word("aa", 0, 10), word("bb", 10, 25)];
    let ranges = vec![range(DiffTag::Replace, (0, 2), (0, 3))];
    let out = align_with_ranges(&words, "p q r", &ranges).unwrap();
    assert_eq!(out, vec![word("p", 0, 6), word("q", 9, 15), word("r", 18, 24)]);
}

#[test]
fn replace_uses_the_rate_of_its_own_words() {
    let words = vec![word("slow", 0, 4000), word("ab", 5000, 5100), word("cd", 5100, 5300)];
    let ranges = vec![
        range(DiffTag::Equal, (0, 1), (0, 1)),
        range(DiffTag::Replace, (1, 3), (1, 2)),
    ];
    let out = align_with_ranges(&words, "slow x", &ranges).unwrap();
    assert_eq!(out, vec![word("slow", 0, 4000), word("x", 5000, 5075)]);
}

#[test]
fn delete_gives_nothing() {
    let words = vec![word("a", 0, 10), word("zzz", 20, 30), word("b", 40, 50)];
    let out = match_timestamps_to_script(words, "a b").unwrap();
    assert_eq!(out, vec![word("a", 0, 10), word("b", 40, 50)]);
}

#[test]
fn empty_transcript_gives_tokens_without_a_time() {
    let out = match_timestamps_to_script(vec![], "a b\nc").unwrap();
    assert_eq!(out, vec![word("a", 0, 0), word("b", 0, 0), word("\n", 0, 0), word("c", 0, 0)]);
}

#[test]
fn empty_script_gives_nothing() {
    let out = match_timestamps_to_script(vec![word("a", 0, 10)], "").unwrap();
    assert_eq!(out, vec![]);
    let out = match_timestamps_to_script(vec![], "").unwrap();
    assert_eq!(out, vec![]);
}

#[test]
fn leading_insert_has_no_time_and_a_later_one_has() {
    let words = vec![word("b", 100, 200)];
    let out = match_timestamps_to_script(words, "a b c").unwrap();
    assert_eq!(out, vec![word("a", 0, 0), word("b", 100, 200), word("c", 200, 300)]);
}

#[test]
fn insert_after_untimed_tokens_looks_back_to_the_anchor() {
    let words = vec![word("b", 100, 200)];
    let ranges = vec![
        range(DiffTag::Equal, (0, 1), (0, 1)),
        range(DiffTag::Insert, (1, 1), (1, 2)),
        range(DiffTag::Insert, (1, 1), (2, 3)),
    ];
    let out = align_with_ranges(&words, "b c d", &ranges).unwrap();
    assert_eq!(out, vec![word("b", 100, 200), word("c", 200, 300), word("d", 300, 400)]);
}

#[test]
fn line_breaks_of_the_script_are_tokens_of_the_alignment() {
    let words = vec![word("one", 10, 20), word("two", 30, 50)];
    let out = match_timestamps_to_script(words, "one\ntwo").unwrap();
    assert_eq!(out, vec![word("one", 10, 20), word("\n", 20, 24), word("two", 30, 50)]);
}

#[test]
fn a_word_without_text_is_left_out_of_the_rate() {
    let words = vec![word("ab", 0, 40), word("", 40, 50), word("cd", 50, 110)];
    let ranges = vec![
        range(DiffTag::Equal, (0, 1), (0, 1)),
        range(DiffTag::Delete, (1, 2), (1, 1)),
        range(DiffTag::Equal, (2, 3), (1, 2)),
        range(DiffTag::Insert, (3, 3), (2, 3)),
    ];
    let out = align_with_ranges(&words, "ab cd efgh", &ranges).unwrap();
    assert_eq!(out, vec![word("ab", 0, 40), word("cd", 50, 110), word("efgh", 110, 210)]);
}

#[test]
fn alignment_is_the_same_each_time() {
    let words = || vec![word("teh", 0, 100), word("quick", 150, 400), word("fox", 900, 1200)];
    let script = "The quick brown fox\njumps";
    let first = match_timestamps_to_script(words(), script);
    let second = match_timestamps_to_script(words(), script);
    assert_eq!(first, second);
    assert!(first.is_ok());
}

#[test]
fn alignment_holds_every_token_once_and_in_order() {
    let words = vec![word("teh", 0, 100), word("quick", 150, 400), word("fox", 900, 1200)];
    let script = "The quick brown fox\njumps";
    let out = match_timestamps_to_script(words, script).unwrap();
    let texts: Vec<&str> = out.iter().map(|w| w.word.as_str()).collect();
    let tokens: Vec<&str> = split(script).iter().map(|t| t.text).collect();
    assert_eq!(texts, tokens);
}

#[test]
fn alignment_has_no_word_that_ends_before_it_starts() {
    let words = vec![word("a", 0, 100), word("bb", 150, 400), word("cc", 900, 1200)];
    let out = match_timestamps_to_script(words, "x a y z bb w\ncc v").unwrap();
    for timed in out {
        assert!(timed.start_ms <= timed.end_ms);
    }
}

#[test]
fn alignment_of_a_malformed_transcript_fails() {
    let out = match_timestamps_to_script(vec![word("a", 10, 5)], "a");
    assert_eq!(out, Err(AlignError::MalformedTranscript));
    let out = match_timestamps_to_script(vec![word("a", 0, 10), word("b", 5, 20)], "a b");
    assert_eq!(out, Err(AlignError::MalformedTranscript));
}

#[test]
fn alignment_along_ranges_that_do_not_partition_fails() {
    let words = vec![word("a", 0, 10), word("b", 10, 20)];
    let gap = vec![range(DiffTag::Equal, (0, 1), (0, 1))];
    assert_eq!(align_with_ranges(&words, "a b", &gap), Err(AlignError::RangeInvariantViolation));
    let overlap = vec![
        range(DiffTag::Equal, (0, 2), (0, 2)),
        range(DiffTag::Equal, (1, 2), (1, 2)),
    ];
    assert_eq!(align_with_ranges(&words, "a b", &overlap), Err(AlignError::RangeInvariantViolation));
    let none: Vec<DiffRange> = vec![];
    assert_eq!(align_with_ranges(&words, "a b", &none), Err(AlignError::RangeInvariantViolation));
}

#[test]
fn alignment_whose_time_does_not_fit_fails() {
    let words = vec![word("ab", u64::MAX - 10, u64::MAX - 1)];
    let out = match_timestamps_to_script(words, "ab cd");
    assert_eq!(out, Err(AlignError::TimingOverflow));
}

#[test]
fn alignment_whose_time_just_fits_succeeds() {
    let words = vec![word("abcd", u64::MAX - 8, u64::MAX - 4)];
    let out = match_timestamps_to_script(words, "abcd cdef").unwrap();
    assert_eq!(out[1], word("cdef", u64::MAX - 4, u64::MAX));
}

#[test]
fn a_malformed_transcript_is_told_before_bad_ranges() {
    let none: Vec<DiffRange> = vec![];
    let out = align_with_ranges(&vec![word("a", 10, 5)], "a", &none);
    assert_eq!(out, Err(AlignError::MalformedTranscript));
}

#[test]
fn align_tokens_takes_the_tokens_of_the_script() {
    let words = vec![word("a", 1, 2)];
    let script = "A";
    let tokens = split(script);
    let ranges = vec![range(DiffTag::Equal, (0, 1), (0, 1))];
    assert_eq!(align_tokens(&words, script, &tokens, &ranges), Ok(vec![word("A", 1, 2)]));
}

#[test]
fn is_partition_takes_ranges_that_follow_one_another() {
    let ranges = vec![
        range(DiffTag::Insert, (0, 0), (0, 1)),
        range(DiffTag::Equal, (0, 2), (1, 3)),
        range(DiffTag::Delete, (2, 3), (3, 3)),
        range(DiffTag::Replace, (3, 4), (3, 6)),
    ];
    assert!(is_partition(&ranges, 4, 6));
    assert!(!is_partition(&ranges, 5, 6));
    assert!(!is_partition(&ranges, 4, 7));
    assert!(is_partition(&vec![], 0, 0));
    assert!(!is_partition(&vec![], 1, 0));
}

#[test]
fn is_partition_refuses_a_range_out_of_shape() {
    assert!(!is_partition(&vec![range(DiffTag::Equal, (0, 1), (0, 2))], 1, 2));
    assert!(!is_partition(&vec![range(DiffTag::Delete, (0, 1), (0, 1))], 1, 1));
    assert!(!is_partition(&vec![range(DiffTag::Insert, (0, 1), (0, 1))], 1, 1));
    assert!(!is_partition(&vec![range(DiffTag::Replace, (0, 0), (0, 1))], 0, 1));
    assert!(!is_partition(&vec![range(DiffTag::Replace, (0, 1), (0, 0))], 1, 0));
    assert!(!is_partition(&vec![range(DiffTag::Equal, (1, 0), (0, 0))], 0, 0));
}

#[test]
fn is_partition_refuses_a_range_that_starts_elsewhere() {
    assert!(!is_partition(&vec![range(DiffTag::Equal, (1, 2), (0, 1))], 2, 1));
    let ranges = vec![
        range(DiffTag::Equal, (0, 1), (0, 1)),
        range(DiffTag::Equal, (1, 2), (2, 3)),
    ];
    assert!(!is_partition(&ranges, 2, 3));
}

#[test]
fn last_anchor_of_skips_words_without_a_time() {
    assert_eq!(last_anchor_of(&vec![]), None);
    assert_eq!(last_anchor_of(&vec![word("a", 0, 0)]), None);
    assert_eq!(last_anchor_of(&vec![word("a", 3, 7), word("b", 0, 0)]), Some(7));
    assert_eq!(last_anchor_of(&vec![word("a", 3, 7), word("b", 8, 9)]), Some(9));
}

#[test]
fn pair_words_takes_times_from_words_and_texts_from_tokens() {
    let words = vec![word("x", 1, 2), word("y", 3, 4), word("z", 5, 6)];
    let tokens = split("a b c d");
    let out = pair_words(&words, &tokens, range(DiffTag::Equal, (1, 3), (2, 4)));
    assert_eq!(out, vec![word("c", 3, 4), word("d", 5, 6)]);
}

#[test]
fn untimed_words_have_both_times_zero() {
    let tokens = split("a b c");
    assert_eq!(untimed_words(&tokens, 1, 2), vec![word("b", 0, 0), word("c", 0, 0)]);
    assert_eq!(untimed_words(&tokens, 3, 0), vec![]);
}

#[test]
fn lay_out_puts_no_gap_before_the_first_token() {
    let tokens = split("abc");
    assert_eq!(lay_out(&tokens, 0, 1, 7, 1000, 2_500), Some(vec![word("abc", 7, 14)]));
    assert_eq!(lay_out(&tokens, 0, 0, 7, 1000, 2_500), Some(vec![]));
}

#[test]
fn lay_out_fails_where_a_time_does_not_fit() {
    let tokens = split("a b");
    assert_eq!(lay_out(&tokens, 0, 2, u64::MAX - 1, 0, 1000), None);
    assert_eq!(lay_out(&tokens, 0, 2, u64::MAX - 2, 0, 1000), Some(vec![
        word("a", u64::MAX - 2, u64::MAX - 1),
        word("b", u64::MAX - 1, u64::MAX),
    ]));
    assert_eq!(lay_out(&tokens, 0, 2, u64::MAX - 2, 1, 1000), None);
    assert_eq!(lay_out(&tokens, 0, 1, 0, 0, u128::MAX), None);
}

#[test]
fn lengths_below_sums_the_rounded_times() {
    let tokens = split("a bb ccc");
    assert_eq!(lengths_below(&tokens, 0, 3, 1_500, 100), Some(1 + 3 + 4));
    assert_eq!(lengths_below(&tokens, 1, 2, 1_500, 8), Some(7));
    assert_eq!(lengths_below(&tokens, 1, 2, 1_500, 7), None);
    assert_eq!(lengths_below(&tokens, 0, 0, 1_500, 0), None);
    assert_eq!(lengths_below(&tokens, 0, 0, 1_500, 1), Some(0));
    assert_eq!(lengths_below(&tokens, 0, 3, u128::MAX, u64::MAX), None);
}

#[test]
fn merge_words_cuts_the_script_from_first_to_last_token() {
    let words = vec![word("x", 10, 20), word("y", 30, 40)];
    let script = " a  b\n c ";
    let tokens = split(script);
    let out = merge_words(script, &words, &tokens, range(DiffTag::Replace, (0, 2), (0, 4)));
    assert_eq!(out, word("a  b\n c", 10, 40));
    let out = merge_words(script, &words, &tokens, range(DiffTag::Replace, (1, 2), (1, 2)));
    assert_eq!(out, word("b", 30, 40));
}

#[test]
fn replace_words_chooses_by_count_and_by_room() {
    let words = vec![word("aa", 0, 100), word("bb", 100, 200)];
    let script = "p q rrrrrrrr";
    let tokens = split(script);
    let same = replace_words(script, &words, &tokens, range(DiffTag::Replace, (0, 2), (0, 2)));
    assert_eq!(same, vec![word("p", 0, 100), word("q", 100, 200)]);
    let fits = replace_words(script, &words, &tokens, range(DiffTag::Replace, (0, 2), (0, 1)));
    assert_eq!(fits, vec![word("p", 0, 50)]);
    let full = replace_words(script, &words, &tokens, range(DiffTag::Replace, (0, 2), (0, 3)));
    assert_eq!(full, vec![word("p q rrrrrrrr", 0, 200)]);
}

#[test]
fn insert_words_depends_on_the_anchor() {
    let words = vec![word("ab", 0, 40), word("cd", 90, 130)];
    let tokens = split("x yz");
    let all = range(DiffTag::Insert, (2, 2), (0, 2));
    let none = insert_words(&words, &tokens, all, &vec![word("q", 0, 0)], 50, 20_000);
    assert_eq!(none, Some(vec![word("x", 0, 0), word("yz", 0, 0)]));
    let some = insert_words(&words, &tokens, all, &vec![word("q", 5, 130)], 50, 20_000);
    assert_eq!(some, Some(vec![word("x", 130, 150), word("yz", 200, 240)]));
}

#[test]
fn synthesize_follows_the_ranges() {
    let words = vec![word("a", 10, 20), word("b", 30, 40)];
    let script = "A c";
    let tokens = split(script);
    let ranges = vec![
        range(DiffTag::Equal, (0, 1), (0, 1)),
        range(DiffTag::Delete, (1, 2), (1, 1)),
        range(DiffTag::Insert, (2, 2), (1, 2)),
    ];
    let out = synthesize(&words, script, &tokens, &ranges);
    assert_eq!(out, Some(vec![word("A", 10, 20), word("c", 20, 30)]));
}

#[test]
fn script_text_takes_valid_bytes() {
    assert_eq!(script_text(b"one two"), Ok("one two"));
    assert_eq!(script_text("h\u{e9}\n\u{8d8a}".as_bytes()), Ok("h\u{e9}\n\u{8d8a}"));
    assert_eq!(script_text(b""), Ok(""));
}

#[test]
fn script_text_refuses_bytes_that_are_no_text() {
    assert_eq!(script_text(&[0x61, 0xff, 0x62]), Err(AlignError::InvalidEncoding));
    assert_eq!(script_text(&[0xc3]), Err(AlignError::InvalidEncoding));
    assert_eq!(script_text(&[0xed, 0xa0, 0x80]), Err(AlignError::InvalidEncoding));
    assert_eq!(script_text(&[0xc0, 0x80]), Err(AlignError::InvalidEncoding));
}
