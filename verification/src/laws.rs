//! What holds of every alignment.

use vstd::prelude::*;
use vstd::utf8::*;
use vstd::arithmetic::div_mod::lemma_div_pos_is_pos;
use vstd::arithmetic::mul::lemma_mul_nonnegative;
use crate::align::{AlignError, alignment};
use crate::diff::{DiffRange, DiffTag, in_place, partitions, shaped, new_reach};
use crate::rate::{mean_pause, mean_rate, pause_count, pause_sum, scaled, lemma_rate_sum_bounds};
use crate::synth::{
    emitted, laid_out, last_anchor, lengths_sum, merged, paired, placed, replaced, span,
    synthesized, timing, untimed, lemma_lengths_sum_grows, lemma_partition_bounds,
    lemma_scaled_nonnegative,
};
use crate::text::{byte_len, byte_slice};
use crate::tokenizer::{TokenView, token_fits, tokens_fit};
use crate::word::{WordView, chronological, follows, times_fit, lemma_chronological_span};

verus! {

/// An alignment depends on the transcript and the script alone: two results
/// for the same two are the same, error for error and word for word.
pub proof fn law_alignment_is_determined(
    words: Seq<WordView>,
    script: Seq<char>,
    first: Result<Seq<WordView>, AlignError>,
    second: Result<Seq<WordView>, AlignError>,
)
    requires
        first == alignment(words, script),
        second == alignment(words, script),
    ensures
        first == second,
{
}

/// What the first ranges give stays as it is when more ranges follow.
pub proof fn lemma_synthesized_prefix(
    script: Seq<char>,
    words: Seq<WordView>,
    tokens: Seq<TokenView>,
    ranges: Seq<DiffRange>,
    i: int,
    n: int,
)
    requires
        0 <= i <= n,
    ensures
        synthesized(script, words, tokens, ranges, i).len() <= synthesized(
            script,
            words,
            tokens,
            ranges,
            n,
        ).len(),
        forall|k: int|
            0 <= k < synthesized(script, words, tokens, ranges, i).len() ==> (#[trigger] synthesized(
                script,
                words,
                tokens,
                ranges,
                n,
            )[k]) == synthesized(script, words, tokens, ranges, i)[k],
    decreases n - i,
{
    if i < n {
        lemma_synthesized_prefix(script, words, tokens, ranges, i, n - 1);
    }
}

/// The range, among the first `n`, that gave word `k` of the alignment.
pub open spec fn source(
    script: Seq<char>,
    words: Seq<WordView>,
    tokens: Seq<TokenView>,
    ranges: Seq<DiffRange>,
    n: int,
    k: int,
) -> int
    decreases n,
{
    if n <= 0 {
        -1
    } else if synthesized(script, words, tokens, ranges, n - 1).len() <= k {
        n - 1
    } else {
        source(script, words, tokens, ranges, n - 1, k)
    }
}

/// Word `k` of an alignment is one of those that its source gave.
pub proof fn lemma_source(
    script: Seq<char>,
    words: Seq<WordView>,
    tokens: Seq<TokenView>,
    ranges: Seq<DiffRange>,
    n: int,
    k: int,
)
    requires
        0 <= k < synthesized(script, words, tokens, ranges, n).len(),
    ensures
        ({
            let i = source(script, words, tokens, ranges, n, k);
            let before = synthesized(script, words, tokens, ranges, i);
            let given = emitted(script, words, tokens, ranges[i], before);
            &&& 0 <= i < n
            &&& 0 <= k - before.len() < given.len()
            &&& synthesized(script, words, tokens, ranges, n)[k] == given[k - before.len()]
        }),
    decreases n,
{
    if n > 0 && synthesized(script, words, tokens, ranges, n - 1).len() > k {
        lemma_source(script, words, tokens, ranges, n - 1, k);
    }
}

/// Each token of an `Equal` range stands in the alignment with the times of
/// the word that it matches, unchanged, and with its own text.
pub proof fn law_equal_range_keeps_times(
    script: Seq<char>,
    words: Seq<WordView>,
    tokens: Seq<TokenView>,
    ranges: Seq<DiffRange>,
    i: int,
    j: int,
)
    requires
        0 <= i < ranges.len(),
        ranges[i].tag == DiffTag::Equal,
        0 <= j < ranges[i].new_end - ranges[i].new_start,
    ensures
        ({
            let out = timing(script, words, tokens, ranges);
            let at = synthesized(script, words, tokens, ranges, i).len() + j;
            &&& at < out.len()
            &&& out[at].start_ms == words[ranges[i].old_start + j].start_ms
            &&& out[at].end_ms == words[ranges[i].old_start + j].end_ms
            &&& out[at].text == tokens[ranges[i].new_start + j].text
        }),
{
    lemma_synthesized_prefix(script, words, tokens, ranges, i + 1, ranges.len() as int);
    let before = synthesized(script, words, tokens, ranges, i);
    let after = synthesized(script, words, tokens, ranges, i + 1);
    assert(after[before.len() + j] == paired(words, tokens, ranges[i])[j]);
}

/// Every time of `out` is at least zero, and no word ends before it starts.
pub open spec fn ordered(out: Seq<WordView>) -> bool {
    forall|k: int| 0 <= k < out.len() ==> 0 <= (#[trigger] out[k]).start_ms <= out[k].end_ms
}

/// An anchor among ordered words lies after time zero.
pub proof fn lemma_anchor_positive(out: Seq<WordView>)
    requires
        ordered(out),
    ensures
        last_anchor(out) matches Some(anchor) ==> anchor > 0,
    decreases out.len(),
{
    if out.len() > 0 {
        assert(0 <= out[out.len() - 1].start_ms);
        if out.last().end_ms == 0 {
            let rest = out.drop_last();
            assert forall|k: int| 0 <= k < rest.len() implies 0 <= (#[trigger] rest[k]).start_ms
                <= rest[k].end_ms by {
                assert(rest[k] == out[k]);
            }
            lemma_anchor_positive(rest);
        }
    }
}

/// The usual pause of a chronological transcript is not negative.
pub proof fn lemma_mean_pause_nonnegative(words: Seq<WordView>)
    requires
        chronological(words),
    ensures
        0 <= mean_pause(words),
{
    lemma_pauses_nonnegative(words, words.len() as int);
    let count = pause_count(words, words.len() as int);
    if count > 0 {
        lemma_div_pos_is_pos(pause_sum(words, words.len() as int), count);
    }
}

proof fn lemma_pauses_nonnegative(words: Seq<WordView>, n: int)
    requires
        chronological(words),
        n <= words.len(),
    ensures
        0 <= pause_sum(words, n),
        0 <= pause_count(words, n),
    decreases n,
{
    if n > 1 {
        lemma_pauses_nonnegative(words, n - 1);
        assert(follows(words, n - 1));
    }
}

/// Tokens laid out from a time that is not negative, with a gap and at a
/// rate that are not, are ordered and start no earlier than that time.
pub proof fn lemma_laid_out_ordered(
    tokens: Seq<TokenView>,
    from: int,
    count: int,
    origin: int,
    gap: int,
    rate: int,
)
    requires
        0 <= origin,
        0 <= gap,
        0 <= rate,
    ensures
        ordered(laid_out(tokens, from, count, origin, gap, rate)),
        forall|i: int|
            0 <= i < count ==> origin <= (#[trigger] laid_out(
                tokens,
                from,
                count,
                origin,
                gap,
                rate,
            )[i]).start_ms,
{
    let all = laid_out(tokens, from, count, origin, gap, rate);
    assert forall|i: int| 0 <= i < all.len() implies origin <= (#[trigger] all[i]).start_ms
        <= all[i].end_ms by {
        lemma_lengths_sum_grows(tokens, from, i, i, rate);
        lemma_scaled_nonnegative(byte_len(tokens[from + i].text), rate);
        lemma_mul_nonnegative(i, gap);
    }
}

/// What a range gives after ordered words is ordered.
pub proof fn lemma_emitted_ordered(
    script: Seq<char>,
    words: Seq<WordView>,
    tokens: Seq<TokenView>,
    range: DiffRange,
    before: Seq<WordView>,
)
    requires
        chronological(words),
        times_fit(words),
        shaped(range),
        range.old_end <= words.len(),
        ordered(before),
    ensures
        ordered(emitted(script, words, tokens, range, before)),
{
    let given = emitted(script, words, tokens, range, before);
    lemma_rate_sum_bounds(words, 0, words.len() as int);
    lemma_rate_sum_bounds(words, range.old_start as int, range.old_end as int);
    lemma_mean_pause_nonnegative(words);
    lemma_anchor_positive(before);
    let count = range.new_end - range.new_start;
    match range.tag {
        DiffTag::Equal => {
            assert forall|k: int| 0 <= k < given.len() implies 0 <= (#[trigger] given[k]).start_ms
                <= given[k].end_ms by {
                assert(0 <= words[range.old_start + k].start_ms);
            }
        },
        DiffTag::Delete => {},
        DiffTag::Insert => {
            match last_anchor(before) {
                Some(anchor) => {
                    lemma_laid_out_ordered(
                        tokens,
                        range.new_start as int,
                        count,
                        anchor,
                        mean_pause(words),
                        mean_rate(words, 0, words.len() as int),
                    );
                },
                None => {},
            }
        },
        DiffTag::Replace => {
            lemma_chronological_span(words, range.old_start as int, range.old_end - 1);
            assert(0 <= words[range.old_start as int].start_ms);
            if count == range.old_end - range.old_start {
                assert forall|k: int| 0 <= k < given.len() implies 0 <= (
                #[trigger] given[k]).start_ms <= given[k].end_ms by {
                    assert(0 <= words[range.old_start + k].start_ms);
                }
            } else {
                let rate = mean_rate(words, range.old_start as int, range.old_end as int);
                let total = lengths_sum(tokens, range.new_start as int, count, rate);
                let room = span(words, range);
                if total < room {
                    let gap = if count == 1 {
                        0
                    } else {
                        (room - total) / (count - 1)
                    };
                    if count != 1 {
                        lemma_div_pos_is_pos(room - total, count - 1);
                    }
                    lemma_laid_out_ordered(
                        tokens,
                        range.new_start as int,
                        count,
                        words[range.old_start as int].start_ms,
                        gap,
                        rate,
                    );
                } else {
                    assert(given[0] == merged(script, words, tokens, range));
                }
            }
        },
    }
}

/// What the first `n` ranges of a partition give is ordered.
pub proof fn lemma_synthesized_ordered(
    script: Seq<char>,
    words: Seq<WordView>,
    tokens: Seq<TokenView>,
    ranges: Seq<DiffRange>,
    n: int,
)
    requires
        chronological(words),
        times_fit(words),
        partitions(ranges, words.len() as int, tokens.len() as int),
        n <= ranges.len(),
    ensures
        ordered(synthesized(script, words, tokens, ranges, n)),
    decreases n,
{
    if n > 0 {
        lemma_synthesized_ordered(script, words, tokens, ranges, n - 1);
        lemma_partition_bounds(ranges, words.len() as int, tokens.len() as int, n - 1);
        let before = synthesized(script, words, tokens, ranges, n - 1);
        assert(in_place(ranges, n - 1));
        lemma_emitted_ordered(script, words, tokens, ranges[n - 1], before);
        let given = emitted(script, words, tokens, ranges[n - 1], before);
        let now = synthesized(script, words, tokens, ranges, n);
        assert forall|k: int| 0 <= k < now.len() implies 0 <= (#[trigger] now[k]).start_ms
            <= now[k].end_ms by {
            if k < before.len() {
                assert(now[k] == before[k]);
            } else {
                assert(now[k] == given[k - before.len()]);
            }
        }
    }
}

/// No word of the alignment of a chronological transcript ends before it
/// starts.
pub proof fn law_no_word_ends_before_it_starts(
    script: Seq<char>,
    words: Seq<WordView>,
    tokens: Seq<TokenView>,
    ranges: Seq<DiffRange>,
)
    requires
        chronological(words),
        times_fit(words),
        partitions(ranges, words.len() as int, tokens.len() as int),
    ensures
        forall|k: int|
            0 <= k < timing(script, words, tokens, ranges).len() ==> (#[trigger] timing(
                script,
                words,
                tokens,
                ranges,
            )[k]).start_ms <= timing(script, words, tokens, ranges)[k].end_ms,
{
    lemma_synthesized_ordered(script, words, tokens, ranges, ranges.len() as int);
}

/// A word without a time: both of its times are zero.
pub open spec fn sentinel(word: WordView) -> bool {
    word.start_ms == 0 && word.end_ms == 0
}

/// Whether word `k` of the alignment was given by an `Insert` range that had
/// no anchor before it.
pub open spec fn inserted_without_anchor(
    script: Seq<char>,
    words: Seq<WordView>,
    tokens: Seq<TokenView>,
    ranges: Seq<DiffRange>,
    k: int,
) -> bool {
    let i = source(script, words, tokens, ranges, ranges.len() as int, k);
    ranges[i].tag == DiffTag::Insert && last_anchor(
        synthesized(script, words, tokens, ranges, i),
    ) is None
}

/// A word that an `Insert` range gave without an anchor has no time.
pub proof fn law_insert_without_anchor_has_no_time(
    script: Seq<char>,
    words: Seq<WordView>,
    tokens: Seq<TokenView>,
    ranges: Seq<DiffRange>,
    k: int,
)
    requires
        0 <= k < timing(script, words, tokens, ranges).len(),
        inserted_without_anchor(script, words, tokens, ranges, k),
    ensures
        sentinel(timing(script, words, tokens, ranges)[k]),
{
    lemma_source(script, words, tokens, ranges, ranges.len() as int, k);
}

/// Whether the tokens of a `Replace` range become one word.
pub open spec fn merges(words: Seq<WordView>, tokens: Seq<TokenView>, range: DiffRange) -> bool {
    let count = range.new_end - range.new_start;
    &&& range.tag == DiffTag::Replace
    &&& count != range.old_end - range.old_start
    &&& span(words, range) <= lengths_sum(
        tokens,
        range.new_start as int,
        count,
        mean_rate(words, range.old_start as int, range.old_end as int),
    )
}

/// Whether a range gives no word without a time, unless it is an `Insert`
/// range: an `Equal` range and a `Replace` range that pairs have no word
/// with both times zero; a range that merges does not start and end at zero;
/// a range that lays out its tokens does not start at zero with a first
/// token that takes no time.
pub open spec fn range_clear_of_zero(
    words: Seq<WordView>,
    tokens: Seq<TokenView>,
    range: DiffRange,
) -> bool {
    let pairs_clear = forall|j: int|
        range.old_start <= j < range.old_end ==> !sentinel(#[trigger] words[j]);
    match range.tag {
        DiffTag::Equal => pairs_clear,
        DiffTag::Delete => true,
        DiffTag::Insert => true,
        DiffTag::Replace => if range.new_end - range.new_start == range.old_end - range.old_start {
            pairs_clear
        } else if merges(words, tokens, range) {
            words[range.old_start as int].start_ms != 0 || words[range.old_end - 1].end_ms != 0
        } else {
            words[range.old_start as int].start_ms != 0 || scaled(
                byte_len(tokens[range.new_start as int].text),
                mean_rate(words, range.old_start as int, range.old_end as int),
            ) != 0
        },
    }
}

/// No range but an `Insert` range gives a word without a time.
pub open spec fn clear_of_zero(
    words: Seq<WordView>,
    tokens: Seq<TokenView>,
    ranges: Seq<DiffRange>,
) -> bool {
    forall|i: int| 0 <= i < ranges.len() ==> range_clear_of_zero(words, tokens, #[trigger] ranges[i])
}

/// A word that a `Replace` range gives has a time, where the range is clear
/// of zero.
pub proof fn lemma_replaced_has_time(
    script: Seq<char>,
    words: Seq<WordView>,
    tokens: Seq<TokenView>,
    range: DiffRange,
    j: int,
)
    requires
        chronological(words),
        times_fit(words),
        range.tag == DiffTag::Replace,
        range.old_start < range.old_end <= words.len(),
        range.new_start < range.new_end,
        range_clear_of_zero(words, tokens, range),
        0 <= j < replaced(script, words, tokens, range).len(),
    ensures
        !sentinel(replaced(script, words, tokens, range)[j]),
{
    let given = replaced(script, words, tokens, range);
    let count = range.new_end - range.new_start;
    lemma_rate_sum_bounds(words, range.old_start as int, range.old_end as int);
    lemma_chronological_span(words, range.old_start as int, range.old_end - 1);
    assert(0 <= words[range.old_start as int].start_ms);
    if count == range.old_end - range.old_start {
        assert(!sentinel(words[range.old_start + j]));
    } else {
        let rate = mean_rate(words, range.old_start as int, range.old_end as int);
        let total = lengths_sum(tokens, range.new_start as int, count, rate);
        let room = span(words, range);
        if total < room {
            let gap = if count == 1 {
                0
            } else {
                (room - total) / (count - 1)
            };
            if count != 1 {
                lemma_div_pos_is_pos(room - total, count - 1);
            }
            let origin = words[range.old_start as int].start_ms;
            let first = scaled(byte_len(tokens[range.new_start as int].text), rate);
            lemma_scaled_nonnegative(byte_len(tokens[range.new_start as int].text), rate);
            lemma_scaled_nonnegative(byte_len(tokens[range.new_start + j].text), rate);
            lemma_mul_nonnegative(j, gap);
            lemma_lengths_sum_grows(tokens, range.new_start as int, 0, j, rate);
            assert(lengths_sum(tokens, range.new_start as int, 1, rate) == first) by {
                assert(lengths_sum(tokens, range.new_start as int, 0, rate) == 0);
            }
            if j > 0 {
                lemma_lengths_sum_grows(tokens, range.new_start as int, 1, j, rate);
            }
            let word = placed(tokens, range.new_start as int, j, origin, gap, rate);
            assert(given[j] == word);
            assert(word.end_ms >= origin + first);
        } else {
            assert(merges(words, tokens, range));
            assert(given[j] == merged(script, words, tokens, range));
        }
    }
}

/// Where no range but an `Insert` range gives a word without a time, a word
/// without a time was given by an `Insert` range that had no anchor before
/// it.
pub proof fn law_no_time_means_insert_without_anchor(
    script: Seq<char>,
    words: Seq<WordView>,
    tokens: Seq<TokenView>,
    ranges: Seq<DiffRange>,
    k: int,
)
    requires
        chronological(words),
        times_fit(words),
        partitions(ranges, words.len() as int, tokens.len() as int),
        clear_of_zero(words, tokens, ranges),
        0 <= k < timing(script, words, tokens, ranges).len(),
        sentinel(timing(script, words, tokens, ranges)[k]),
    ensures
        inserted_without_anchor(script, words, tokens, ranges, k),
{
    lemma_source(script, words, tokens, ranges, ranges.len() as int, k);
    let i = source(script, words, tokens, ranges, ranges.len() as int, k);
    let range = ranges[i];
    let before = synthesized(script, words, tokens, ranges, i);
    let given = emitted(script, words, tokens, range, before);
    let j = k - before.len();
    lemma_partition_bounds(ranges, words.len() as int, tokens.len() as int, i);
    assert(in_place(ranges, i));
    assert(range_clear_of_zero(words, tokens, range));
    assert(sentinel(given[j]));
    match range.tag {
        DiffTag::Equal => {
            assert(!sentinel(words[range.old_start + j]));
        },
        DiffTag::Delete => {},
        DiffTag::Insert => {
            match last_anchor(before) {
                Some(anchor) => {
                    lemma_synthesized_ordered(script, words, tokens, ranges, i);
                    lemma_anchor_positive(before);
                    lemma_rate_sum_bounds(words, 0, words.len() as int);
                    lemma_mean_pause_nonnegative(words);
                    lemma_laid_out_ordered(
                        tokens,
                        range.new_start as int,
                        range.new_end - range.new_start,
                        anchor,
                        mean_pause(words),
                        mean_rate(words, 0, words.len() as int),
                    );
                },
                None => {},
            }
        },
        DiffTag::Replace => {
            lemma_replaced_has_time(script, words, tokens, range, j);
        },
    }
}

/// Words that all lack a time hold no anchor.
pub proof fn lemma_no_anchor(out: Seq<WordView>)
    requires
        forall|k: int| 0 <= k < out.len() ==> sentinel(#[trigger] out[k]),
    ensures
        last_anchor(out) is None,
    decreases out.len(),
{
    if out.len() > 0 {
        assert(sentinel(out[out.len() - 1]));
        let rest = out.drop_last();
        assert forall|k: int| 0 <= k < rest.len() implies sentinel(#[trigger] rest[k]) by {
            assert(rest[k] == out[k]);
        }
        lemma_no_anchor(rest);
    }
}

/// Without words a range gives its tokens without a time, if nothing before
/// it has one.
proof fn lemma_emitted_without_words(
    script: Seq<char>,
    tokens: Seq<TokenView>,
    range: DiffRange,
    before: Seq<WordView>,
)
    requires
        shaped(range),
        range.old_end == 0,
        forall|k: int| 0 <= k < before.len() ==> sentinel(#[trigger] before[k]),
    ensures
        emitted(script, Seq::empty(), tokens, range, before) == untimed(
            tokens,
            range.new_start as int,
            range.new_end - range.new_start,
        ),
{
    let words = Seq::<WordView>::empty();
    let none = untimed(tokens, range.new_start as int, range.new_end - range.new_start);
    match range.tag {
        DiffTag::Equal => {
            assert(paired(words, tokens, range) =~= none);
        },
        DiffTag::Delete => {
            assert(Seq::<WordView>::empty() =~= none);
        },
        DiffTag::Insert => {
            lemma_no_anchor(before);
        },
        DiffTag::Replace => {},
    }
}

proof fn lemma_empty_transcript(
    script: Seq<char>,
    tokens: Seq<TokenView>,
    ranges: Seq<DiffRange>,
    n: int,
)
    requires
        partitions(ranges, 0, tokens.len() as int),
        0 <= n <= ranges.len(),
    ensures
        ({
            let out = synthesized(script, Seq::empty(), tokens, ranges, n);
            &&& out.len() == new_reach(ranges, n)
            &&& forall|k: int|
                0 <= k < out.len() ==> sentinel(#[trigger] out[k]) && out[k].text == tokens[k].text
        }),
    decreases n,
{
    if n > 0 {
        let words = Seq::<WordView>::empty();
        lemma_empty_transcript(script, tokens, ranges, n - 1);
        lemma_partition_bounds(ranges, 0, tokens.len() as int, n - 1);
        let range = ranges[n - 1];
        let before = synthesized(script, words, tokens, ranges, n - 1);
        let given = untimed(tokens, range.new_start as int, range.new_end - range.new_start);
        let out = synthesized(script, words, tokens, ranges, n);
        assert(in_place(ranges, n - 1));
        lemma_emitted_without_words(script, tokens, range, before);
        assert(out == before + given);
        assert forall|k: int| 0 <= k < out.len() implies sentinel(#[trigger] out[k]) && out[k].text
            == tokens[k].text by {
            if k < before.len() {
                assert(out[k] == before[k]);
            } else {
                assert(out[k] == given[k - before.len()]);
            }
        }
    }
}

/// With an empty transcript no token gets a time: the alignment holds the
/// tokens of the script, in order, each with both times zero.
pub proof fn law_empty_transcript_gives_no_time(
    script: Seq<char>,
    tokens: Seq<TokenView>,
    ranges: Seq<DiffRange>,
)
    requires
        partitions(ranges, 0, tokens.len() as int),
    ensures
        ({
            let out = timing(script, Seq::empty(), tokens, ranges);
            &&& out.len() == tokens.len()
            &&& forall|k: int|
                0 <= k < out.len() ==> sentinel(#[trigger] out[k]) && out[k].text == tokens[k].text
        }),
{
    lemma_empty_transcript(script, tokens, ranges, ranges.len() as int);
}

/// The tokens that each word given by a range stands for, as the index of
/// the first and the index past the last: all the tokens of the range for a
/// range that merges, and one token for each word otherwise.
pub open spec fn spans_given(words: Seq<WordView>, tokens: Seq<TokenView>, range: DiffRange) -> Seq<
    (int, int),
> {
    if merges(words, tokens, range) {
        seq![(range.new_start as int, range.new_end as int)]
    } else {
        Seq::new(
            (range.new_end - range.new_start) as nat,
            |j: int| (range.new_start + j, range.new_start + j + 1),
        )
    }
}

/// The tokens that each word given by the first `n` ranges stands for.
pub open spec fn rendered(
    words: Seq<WordView>,
    tokens: Seq<TokenView>,
    ranges: Seq<DiffRange>,
    n: int,
) -> Seq<(int, int)>
    decreases n,
{
    if n <= 0 {
        Seq::empty()
    } else {
        rendered(words, tokens, ranges, n - 1) + spans_given(words, tokens, ranges[n - 1])
    }
}

/// The text of the script that the tokens `first..past` stand for: the text
/// of the one token, or the script from the start of the first to the end of
/// the last.
pub open spec fn text_of_tokens(script: Seq<char>, tokens: Seq<TokenView>, first: int, past: int) -> Seq<
    char,
> {
    if past == first + 1 {
        tokens[first].text
    } else {
        byte_slice(
            script,
            tokens[first].byte_offset,
            tokens[past - 1].byte_offset + byte_len(tokens[past - 1].text),
        )
    }
}

/// Span `k` is not empty and starts where the span before it ended, or at
/// `from` if it is the first.
pub open spec fn tile_at(spans: Seq<(int, int)>, k: int, from: int) -> bool {
    &&& spans[k].0 < spans[k].1
    &&& spans[k].0 == if k == 0 {
        from
    } else {
        spans[k - 1].1
    }
}

/// The spans `spans` follow one another from token `from` up to token `to`,
/// none of them empty.
pub open spec fn tiles(spans: Seq<(int, int)>, from: int, to: int) -> bool {
    &&& forall|k: int| 0 <= k < spans.len() ==> #[trigger] tile_at(spans, k, from)
    &&& to == if spans.len() == 0 {
        from
    } else {
        spans.last().1
    }
}

/// Each word of `out` has the text of the tokens that its span names.
pub open spec fn reads(
    out: Seq<WordView>,
    spans: Seq<(int, int)>,
    script: Seq<char>,
    tokens: Seq<TokenView>,
) -> bool {
    &&& spans.len() == out.len()
    &&& forall|k: int|
        0 <= k < spans.len() ==> (#[trigger] out[k]).text == text_of_tokens(
            script,
            tokens,
            spans[k].0,
            spans[k].1,
        )
}

/// Spans that tile one stretch, followed by spans that tile the next, tile
/// both.
pub proof fn lemma_tiles_join(
    first: Seq<(int, int)>,
    second: Seq<(int, int)>,
    from: int,
    mid: int,
    to: int,
)
    requires
        tiles(first, from, mid),
        tiles(second, mid, to),
    ensures
        tiles(first + second, from, to),
{
    let all = first + second;
    assert forall|k: int| 0 <= k < all.len() implies #[trigger] tile_at(all, k, from) by {
        if k < first.len() {
            assert(tile_at(first, k, from));
            assert(all[k] == first[k]);
            if k > 0 {
                assert(all[k - 1] == first[k - 1]);
            }
        } else {
            let j = k - first.len();
            assert(tile_at(second, j, mid));
            assert(all[k] == second[j]);
            if j > 0 {
                assert(all[k - 1] == second[j - 1]);
            } else if k > 0 {
                assert(all[k - 1] == first[k - 1]);
                assert(first.last() == first[k - 1]);
            }
        }
    }
    if second.len() > 0 {
        assert(all.last() == second.last());
    } else {
        assert(all =~= first);
    }
}

/// Words that read their spans, followed by more that read theirs, read
/// them all.
pub proof fn lemma_reads_join(
    first: Seq<WordView>,
    first_spans: Seq<(int, int)>,
    second: Seq<WordView>,
    second_spans: Seq<(int, int)>,
    script: Seq<char>,
    tokens: Seq<TokenView>,
)
    requires
        reads(first, first_spans, script, tokens),
        reads(second, second_spans, script, tokens),
    ensures
        reads(first + second, first_spans + second_spans, script, tokens),
{
    let out = first + second;
    let spans = first_spans + second_spans;
    assert forall|k: int| 0 <= k < spans.len() implies (#[trigger] out[k]).text == text_of_tokens(
        script,
        tokens,
        spans[k].0,
        spans[k].1,
    ) by {
        if k < first.len() {
            assert(out[k] == first[k]);
            assert(spans[k] == first_spans[k]);
        } else {
            assert(out[k] == second[k - first.len()]);
            assert(spans[k] == second_spans[k - first.len()]);
        }
    }
}

/// What one range of a partition gives stands for its tokens, each once and
/// in order.
pub proof fn lemma_range_renders_its_tokens(
    script: Seq<char>,
    words: Seq<WordView>,
    tokens: Seq<TokenView>,
    range: DiffRange,
    before: Seq<WordView>,
)
    requires
        tokens_fit(script, tokens),
        shaped(range),
        range.new_end <= tokens.len(),
    ensures
        tiles(spans_given(words, tokens, range), range.new_start as int, range.new_end as int),
        reads(
            emitted(script, words, tokens, range, before),
            spans_given(words, tokens, range),
            script,
            tokens,
        ),
{
    broadcast use encode_utf8_decode_utf8;
    let given = emitted(script, words, tokens, range, before);
    let spans = spans_given(words, tokens, range);
    assert forall|k: int| 0 <= k < spans.len() implies #[trigger] tile_at(
        spans,
        k,
        range.new_start as int,
    ) by {}
    if merges(words, tokens, range) {
        assert(given[0] == merged(script, words, tokens, range));
        if range.new_end == range.new_start + 1 {
            assert(token_fits(script, tokens[range.new_start as int]));
        }
    } else {
        match range.tag {
            DiffTag::Equal => {},
            DiffTag::Delete => {},
            DiffTag::Insert => {
                match last_anchor(before) {
                    Some(anchor) => {},
                    None => {},
                }
            },
            DiffTag::Replace => {},
        }
        assert(spans.len() == given.len());
        assert forall|k: int| 0 <= k < spans.len() implies (#[trigger] given[k]).text
            == text_of_tokens(script, tokens, spans[k].0, spans[k].1) by {}
    }
}

/// What the first `n` ranges of a partition give stands for the tokens that
/// these ranges reach, each once and in order.
pub proof fn lemma_rendered_tiles(
    script: Seq<char>,
    words: Seq<WordView>,
    tokens: Seq<TokenView>,
    ranges: Seq<DiffRange>,
    n: int,
)
    requires
        tokens_fit(script, tokens),
        partitions(ranges, words.len() as int, tokens.len() as int),
        0 <= n <= ranges.len(),
    ensures
        tiles(rendered(words, tokens, ranges, n), 0, new_reach(ranges, n)),
        reads(
            synthesized(script, words, tokens, ranges, n),
            rendered(words, tokens, ranges, n),
            script,
            tokens,
        ),
    decreases n,
{
    if n > 0 {
        lemma_rendered_tiles(script, words, tokens, ranges, n - 1);
        lemma_partition_bounds(ranges, words.len() as int, tokens.len() as int, n - 1);
        let range = ranges[n - 1];
        let before = synthesized(script, words, tokens, ranges, n - 1);
        let given = emitted(script, words, tokens, range, before);
        let earlier = rendered(words, tokens, ranges, n - 1);
        let added = spans_given(words, tokens, range);
        assert(in_place(ranges, n - 1));
        assert(range.new_end == new_reach(ranges, n));
        lemma_range_renders_its_tokens(script, words, tokens, range, before);
        lemma_tiles_join(earlier, added, 0, range.new_start as int, range.new_end as int);
        lemma_reads_join(before, earlier, given, added, script, tokens);
        assert(synthesized(script, words, tokens, ranges, n) == before + given);
        assert(rendered(words, tokens, ranges, n) == earlier + added);
    }
}

/// The words of an alignment stand for the tokens of the script, each token
/// once and in order: every word stands for the one token whose text it has,
/// or, where a `Replace` range merged its tokens, for all the tokens of the
/// range, whose stretch of the script it has.
pub proof fn law_every_token_once_and_in_order(
    script: Seq<char>,
    words: Seq<WordView>,
    tokens: Seq<TokenView>,
    ranges: Seq<DiffRange>,
)
    requires
        tokens_fit(script, tokens),
        partitions(ranges, words.len() as int, tokens.len() as int),
    ensures
        tiles(rendered(words, tokens, ranges, ranges.len() as int), 0, tokens.len() as int),
        reads(
            timing(script, words, tokens, ranges),
            rendered(words, tokens, ranges, ranges.len() as int),
            script,
            tokens,
        ),
{
    lemma_rendered_tiles(script, words, tokens, ranges, ranges.len() as int);
}

} // verus!
