//! Timing synthesis: what each range of the diff gives to the alignment.

use vstd::prelude::*;
use vstd::arithmetic::div_mod::{lemma_remainder_lower, lemma_div_pos_is_pos};
use vstd::arithmetic::mul::{lemma_mul_inequality, lemma_mul_nonnegative};
use crate::diff::{DiffRange, DiffTag, in_place, partitions};
use crate::rate::{mean_pause, mean_rate, scaled, average_wait, micros_per_byte, scaled_millis, MICROS};
use crate::text::{byte_len, byte_length, byte_slice, slice};
use crate::tokenizer::{Token, TokenView, tokens_fit, token_fits};
use crate::word::{Word, WordView, chronological, times_fit, lemma_chronological_span};

verus! {

/// The end of the last word of `out` that has a time, if there is one: a
/// word whose end is zero has none.
pub open spec fn last_anchor(out: Seq<WordView>) -> Option<int>
    decreases out.len(),
{
    if out.len() == 0 {
        None
    } else if out.last().end_ms != 0 {
        Some(out.last().end_ms)
    } else {
        last_anchor(out.drop_last())
    }
}

/// The time that the first `count` tokens from `from` on take together at
/// `rate`, each rounded down by itself.
pub open spec fn lengths_sum(tokens: Seq<TokenView>, from: int, count: int, rate: int) -> int
    decreases count,
{
    if count <= 0 {
        0
    } else {
        lengths_sum(tokens, from, count - 1, rate) + scaled(
            byte_len(tokens[from + count - 1].text),
            rate,
        )
    }
}

/// Token `from + i` laid out after `i` others: they start at `origin`, each
/// lasts what its bytes take at `rate`, and `gap` lies between two of them.
pub open spec fn placed(
    tokens: Seq<TokenView>,
    from: int,
    i: int,
    origin: int,
    gap: int,
    rate: int,
) -> WordView {
    let start = origin + lengths_sum(tokens, from, i, rate) + i * gap;
    WordView {
        start_ms: start,
        end_ms: start + scaled(byte_len(tokens[from + i].text), rate),
        text: tokens[from + i].text,
    }
}

/// The `count` tokens from `from` on, laid out one after the other.
pub open spec fn laid_out(
    tokens: Seq<TokenView>,
    from: int,
    count: int,
    origin: int,
    gap: int,
    rate: int,
) -> Seq<WordView> {
    Seq::new(count as nat, |i: int| placed(tokens, from, i, origin, gap, rate))
}

/// The `count` tokens from `from` on, without a time.
pub open spec fn untimed(tokens: Seq<TokenView>, from: int, count: int) -> Seq<WordView> {
    Seq::new(count as nat, |i: int| WordView { start_ms: 0, end_ms: 0, text: tokens[from + i].text })
}

/// The tokens of a range, each with the times of the word that stands at the
/// same place in the range.
pub open spec fn paired(words: Seq<WordView>, tokens: Seq<TokenView>, range: DiffRange) -> Seq<
    WordView,
> {
    Seq::new(
        (range.new_end - range.new_start) as nat,
        |i: int|
            WordView {
                start_ms: words[range.old_start + i].start_ms,
                end_ms: words[range.old_start + i].end_ms,
                text: tokens[range.new_start + i].text,
            },
    )
}

/// The time from the start of the first word of a range to the end of its
/// last.
pub open spec fn span(words: Seq<WordView>, range: DiffRange) -> int {
    words[range.old_end - 1].end_ms - words[range.old_start as int].start_ms
}

/// The tokens of a range as one word: it lasts as long as the words of the
/// range, and its text is the script from the start of the first token to
/// the end of the last, with all that stands between them.
pub open spec fn merged(
    script: Seq<char>,
    words: Seq<WordView>,
    tokens: Seq<TokenView>,
    range: DiffRange,
) -> WordView {
    let last = tokens[range.new_end - 1];
    WordView {
        start_ms: words[range.old_start as int].start_ms,
        end_ms: words[range.old_end - 1].end_ms,
        text: byte_slice(
            script,
            tokens[range.new_start as int].byte_offset,
            last.byte_offset + byte_len(last.text),
        ),
    }
}

/// What a `Replace` range gives.  With as many tokens as words, each token
/// takes the times of its word.  Otherwise the tokens are sized at the rate
/// of the words of the range; if together they take less time than the
/// words, they are laid out from the start of the first word, with what is
/// left of the time shared out between them; if not, they become one word.
pub open spec fn replaced(
    script: Seq<char>,
    words: Seq<WordView>,
    tokens: Seq<TokenView>,
    range: DiffRange,
) -> Seq<WordView> {
    let count = range.new_end - range.new_start;
    if count == range.old_end - range.old_start {
        paired(words, tokens, range)
    } else {
        let rate = mean_rate(words, range.old_start as int, range.old_end as int);
        let total = lengths_sum(tokens, range.new_start as int, count, rate);
        let room = span(words, range);
        if total < room {
            let gap = if count == 1 {
                0
            } else {
                (room - total) / (count - 1)
            };
            laid_out(
                tokens,
                range.new_start as int,
                count,
                words[range.old_start as int].start_ms,
                gap,
                rate,
            )
        } else {
            seq![merged(script, words, tokens, range)]
        }
    }
}

/// What an `Insert` range gives, `before` being what the ranges before it
/// gave.  With an anchor the tokens are laid out from it, at the rate of the
/// whole transcript and with its usual pause between them; without one they
/// have no time.
pub open spec fn inserted(
    words: Seq<WordView>,
    tokens: Seq<TokenView>,
    range: DiffRange,
    before: Seq<WordView>,
) -> Seq<WordView> {
    let count = range.new_end - range.new_start;
    match last_anchor(before) {
        Some(anchor) => laid_out(
            tokens,
            range.new_start as int,
            count,
            anchor,
            mean_pause(words),
            mean_rate(words, 0, words.len() as int),
        ),
        None => untimed(tokens, range.new_start as int, count),
    }
}

/// What one range gives, `before` being what the ranges before it gave.
pub open spec fn emitted(
    script: Seq<char>,
    words: Seq<WordView>,
    tokens: Seq<TokenView>,
    range: DiffRange,
    before: Seq<WordView>,
) -> Seq<WordView> {
    match range.tag {
        DiffTag::Equal => paired(words, tokens, range),
        DiffTag::Delete => Seq::empty(),
        DiffTag::Insert => inserted(words, tokens, range, before),
        DiffTag::Replace => replaced(script, words, tokens, range),
    }
}

/// What the first `n` ranges give, one after the other.
pub open spec fn synthesized(
    script: Seq<char>,
    words: Seq<WordView>,
    tokens: Seq<TokenView>,
    ranges: Seq<DiffRange>,
    n: int,
) -> Seq<WordView>
    decreases n,
{
    if n <= 0 {
        Seq::empty()
    } else {
        let before = synthesized(script, words, tokens, ranges, n - 1);
        before + emitted(script, words, tokens, ranges[n - 1], before)
    }
}

/// The alignment that the ranges give: the script's tokens with their times.
pub open spec fn timing(
    script: Seq<char>,
    words: Seq<WordView>,
    tokens: Seq<TokenView>,
    ranges: Seq<DiffRange>,
) -> Seq<WordView> {
    synthesized(script, words, tokens, ranges, ranges.len() as int)
}

/// A length of text takes no negative time at a rate that is not negative.
pub proof fn lemma_scaled_nonnegative(len: int, rate: int)
    requires
        0 <= len,
        0 <= rate,
    ensures
        0 <= scaled(len, rate),
{
    lemma_mul_nonnegative(len, rate);
    lemma_div_pos_is_pos(len * rate, MICROS as int);
}

/// More tokens take no less time.
pub proof fn lemma_lengths_sum_grows(
    tokens: Seq<TokenView>,
    from: int,
    i: int,
    j: int,
    rate: int,
)
    requires
        0 <= i <= j,
        0 <= rate,
    ensures
        0 <= lengths_sum(tokens, from, i, rate) <= lengths_sum(tokens, from, j, rate),
    decreases j,
{
    if j > 0 {
        lemma_scaled_nonnegative(byte_len(tokens[from + j - 1].text), rate);
        if i < j {
            lemma_lengths_sum_grows(tokens, from, i, j - 1, rate);
        } else {
            lemma_lengths_sum_grows(tokens, from, i - 1, j - 1, rate);
        }
    }
}

/// Tokens laid out in a room that holds them stay in it.
pub proof fn lemma_laid_out_in_room(
    tokens: Seq<TokenView>,
    from: int,
    count: int,
    origin: int,
    gap: int,
    rate: int,
    room: int,
)
    requires
        0 < count,
        0 <= rate,
        0 <= gap,
        lengths_sum(tokens, from, count, rate) + (count - 1) * gap <= room,
    ensures
        forall|i: int|
            0 <= i < count ==> {
                let word = #[trigger] laid_out(tokens, from, count, origin, gap, rate)[i];
                origin <= word.start_ms <= word.end_ms <= origin + room
            },
{
    assert forall|i: int| 0 <= i < count implies {
        let word = #[trigger] laid_out(tokens, from, count, origin, gap, rate)[i];
        origin <= word.start_ms <= word.end_ms <= origin + room
    } by {
        lemma_lengths_sum_grows(tokens, from, i, i + 1, rate);
        lemma_lengths_sum_grows(tokens, from, i + 1, count, rate);
        lemma_mul_inequality(i, count - 1, gap);
        lemma_mul_nonnegative(i, gap);
    }
}

/// Each range of a partition ends within the two sequences.
pub proof fn lemma_partition_bounds(ranges: Seq<DiffRange>, old_len: int, new_len: int, i: int)
    requires
        partitions(ranges, old_len, new_len),
        0 <= i < ranges.len(),
    ensures
        ranges[i].old_end <= old_len,
        ranges[i].new_end <= new_len,
    decreases ranges.len() - i,
{
    if i + 1 < ranges.len() {
        lemma_partition_bounds(ranges, old_len, new_len, i + 1);
        assert(in_place(ranges, i + 1));
    }
}

/// A time that does not fit stays in the alignment whatever comes after it.
pub proof fn lemma_unfit_stays(
    script: Seq<char>,
    words: Seq<WordView>,
    tokens: Seq<TokenView>,
    ranges: Seq<DiffRange>,
    i: int,
    n: int,
)
    requires
        0 <= i <= n,
        !times_fit(synthesized(script, words, tokens, ranges, i)),
    ensures
        !times_fit(synthesized(script, words, tokens, ranges, n)),
    decreases n - i,
{
    if i < n {
        lemma_unfit_stays(script, words, tokens, ranges, i, n - 1);
        let before = synthesized(script, words, tokens, ranges, n - 1);
        let after = synthesized(script, words, tokens, ranges, n);
        let k = choose|k: int|
            0 <= k < before.len() && !(0 <= (#[trigger] before[k]).start_ms <= u64::MAX && 0
                <= before[k].end_ms <= u64::MAX);
        assert(after[k] == before[k]);
    }
}

/// A word with the text of `text`.
fn timed(start_ms: u64, end_ms: u64, text: &str) -> (word: Word)
    ensures
        word@ == (WordView { start_ms: start_ms as int, end_ms: end_ms as int, text: text@ }),
{
    Word { start_ms, end_ms, word: text.to_owned() }
}

/// The end of the last word of `out` that has a time.
pub fn last_anchor_of(out: &Vec<Word>) -> (anchor: Option<u64>)
    ensures
        last_anchor(out.deep_view()) == match anchor {
            Some(end) => Some(end as int),
            None => None::<int>,
        },
{
    let ghost views = out.deep_view();
    let mut i: usize = out.len();
    assert(views.take(i as int) =~= views);
    while i > 0
        invariant
            i <= out.len(),
            views == out.deep_view(),
            last_anchor(views) == last_anchor(views.take(i as int)),
        decreases i,
    {
        assert(views.take(i as int).last() == views[i - 1]);
        assert(views.take(i as int).drop_last() =~= views.take(i - 1));
        if out[i - 1].end_ms != 0 {
            return Some(out[i - 1].end_ms);
        }
        i = i - 1;
    }
    None
}

/// The tokens of a range with the times of its words, place by place.
pub fn pair_words(words: &Vec<Word>, tokens: &Vec<Token>, range: DiffRange) -> (piece: Vec<Word>)
    requires
        range.old_start <= range.old_end <= words.len(),
        range.new_start <= range.new_end <= tokens.len(),
        range.old_end - range.old_start == range.new_end - range.new_start,
    ensures
        piece.deep_view() == paired(words.deep_view(), tokens.deep_view(), range),
{
    let count = range.new_end - range.new_start;
    let mut piece: Vec<Word> = Vec::new();
    let mut i: usize = 0;
    while i < count
        invariant
            i <= count,
            count == range.new_end - range.new_start,
            range.old_end - range.old_start == count,
            range.old_end <= words.len(),
            range.new_end <= tokens.len(),
            piece.len() == i,
            forall|j: int|
                0 <= j < i ==> (#[trigger] piece[j])@ == paired(
                    words.deep_view(),
                    tokens.deep_view(),
                    range,
                )[j],
        decreases count - i,
    {
        let word = &words[range.old_start + i];
        piece.push(timed(word.start_ms, word.end_ms, tokens[range.new_start + i].text));
        i = i + 1;
    }
    assert(piece.deep_view() =~= paired(words.deep_view(), tokens.deep_view(), range));
    piece
}

/// The `count` tokens from `from` on, without a time.
pub fn untimed_words(tokens: &Vec<Token>, from: usize, count: usize) -> (piece: Vec<Word>)
    requires
        from + count <= tokens.len(),
    ensures
        piece.deep_view() == untimed(tokens.deep_view(), from as int, count as int),
{
    let mut piece: Vec<Word> = Vec::new();
    let mut i: usize = 0;
    while i < count
        invariant
            i <= count,
            from + count <= tokens.len(),
            piece.len() == i,
            forall|j: int|
                0 <= j < i ==> (#[trigger] piece[j])@ == untimed(
                    tokens.deep_view(),
                    from as int,
                    count as int,
                )[j],
        decreases count - i,
    {
        piece.push(timed(0, 0, tokens[from + i].text));
        i = i + 1;
    }
    assert(piece.deep_view() =~= untimed(tokens.deep_view(), from as int, count as int));
    piece
}

/// The `count` tokens from `from` on, laid out from `origin` at `rate`
/// microseconds per byte with `gap` between two of them; `None` where a time
/// passes what a `u64` holds.
pub fn lay_out(
    tokens: &Vec<Token>,
    from: usize,
    count: usize,
    origin: u64,
    gap: u64,
    rate: u128,
) -> (piece: Option<Vec<Word>>)
    requires
        from + count <= tokens.len(),
    ensures
        piece is Some <==> times_fit(
            laid_out(tokens.deep_view(), from as int, count as int, origin as int, gap as int, rate as int),
        ),
        piece is Some ==> piece->0.deep_view() == laid_out(
            tokens.deep_view(),
            from as int,
            count as int,
            origin as int,
            gap as int,
            rate as int,
        ),
{
    let ghost views = tokens.deep_view();
    let ghost all = laid_out(views, from as int, count as int, origin as int, gap as int, rate as int);
    let mut piece: Vec<Word> = Vec::new();
    let mut cursor: u64 = origin;
    let mut i: usize = 0;
    while i < count
        invariant
            i <= count,
            from + count <= tokens.len(),
            views == tokens.deep_view(),
            all == laid_out(views, from as int, count as int, origin as int, gap as int, rate as int),
            piece.len() == i,
            forall|j: int| 0 <= j < i ==> (#[trigger] piece[j])@ == all[j],
            cursor == origin + lengths_sum(views, from as int, i as int, rate as int) + (if i == 0 {
                0
            } else {
                (i - 1) * gap
            }),
        decreases count - i,
    {
        let ghost here = all[i as int];
        proof {
            assert(here == placed(views, from as int, i as int, origin as int, gap as int, rate as int));
            if i > 0 {
                assert(i * gap == (i - 1) * gap + gap) by (nonlinear_arith);
            } else {
                assert(i * gap == 0) by (nonlinear_arith)
                    requires
                        i == 0,
                ;
            }
            lemma_lengths_sum_grows(views, from as int, i as int, i as int, rate as int);
            lemma_scaled_nonnegative(byte_len(views[from + i].text), rate as int);
        }
        let start = if i == 0 {
            cursor
        } else {
            match cursor.checked_add(gap) {
                Some(start) => start,
                None => {
                    assert(here.start_ms > u64::MAX);
                    return None;
                },
            }
        };
        assert(start == here.start_ms);
        let token = &tokens[from + i];
        let length = match scaled_millis(byte_length(token.text), rate) {
            Some(length) => length,
            None => {
                assert(here.end_ms > u64::MAX);
                return None;
            },
        };
        let end = match start.checked_add(length) {
            Some(end) => end,
            None => {
                assert(here.end_ms > u64::MAX);
                return None;
            },
        };
        assert(end == here.end_ms);
        piece.push(timed(start, end, token.text));
        cursor = end;
        i = i + 1;
    }
    assert(piece.deep_view() =~= all);
    Some(piece)
}

/// The time that the `count` tokens from `from` on take together at `rate`,
/// where it is less than `limit`.
pub fn lengths_below(tokens: &Vec<Token>, from: usize, count: usize, rate: u128, limit: u64) -> (total:
    Option<u64>)
    requires
        from + count <= tokens.len(),
    ensures
        match total {
            Some(time) => time < limit && time == lengths_sum(
                tokens.deep_view(),
                from as int,
                count as int,
                rate as int,
            ),
            None => limit <= lengths_sum(tokens.deep_view(), from as int, count as int, rate as int),
        },
{
    let ghost views = tokens.deep_view();
    let mut sum: u64 = 0;
    let mut i: usize = 0;
    proof {
        lemma_lengths_sum_grows(views, from as int, 0, count as int, rate as int);
    }
    if limit == 0 {
        return None;
    }
    while i < count
        invariant
            i <= count,
            from + count <= tokens.len(),
            views == tokens.deep_view(),
            sum == lengths_sum(views, from as int, i as int, rate as int),
            sum < limit,
        decreases count - i,
    {
        proof {
            lemma_lengths_sum_grows(views, from as int, i + 1, count as int, rate as int);
            lemma_scaled_nonnegative(byte_len(views[from + i].text), rate as int);
        }
        match scaled_millis(byte_length(tokens[from + i].text), rate) {
            None => {
                return None;
            },
            Some(length) => {
                if length >= limit - sum {
                    return None;
                }
                sum = sum + length;
            },
        }
        i = i + 1;
    }
    Some(sum)
}

/// The tokens of a range as one word.
pub fn merge_words(script: &str, words: &Vec<Word>, tokens: &Vec<Token>, range: DiffRange) -> (word:
    Word)
    requires
        chronological(words.deep_view()),
        tokens_fit(script@, tokens.deep_view()),
        range.old_start < range.old_end <= words.len(),
        range.new_start < range.new_end <= tokens.len(),
    ensures
        word@ == merged(script@, words.deep_view(), tokens.deep_view(), range),
{
    let ghost views = tokens.deep_view();
    let first = &tokens[range.new_start];
    let last = &tokens[range.new_end - 1];
    let total = byte_length(script);
    proof {
        assert(token_fits(script@, views[range.new_start as int]));
        assert(token_fits(script@, views[range.new_end - 1]));
        if range.new_start < range.new_end - 1 {
            assert(views[range.new_start as int].byte_offset + byte_len(
                views[range.new_start as int].text,
            ) <= views[range.new_end - 1].byte_offset);
        }
    }
    let from = first.byte_offset;
    let to = last.byte_offset + byte_length(last.text);
    timed(
        words[range.old_start].start_ms,
        words[range.old_end - 1].end_ms,
        slice(script, from, to),
    )
}

/// What a `Replace` range gives.
pub fn replace_words(script: &str, words: &Vec<Word>, tokens: &Vec<Token>, range: DiffRange) -> (piece:
    Vec<Word>)
    requires
        chronological(words.deep_view()),
        tokens_fit(script@, tokens.deep_view()),
        range.old_start < range.old_end <= words.len(),
        range.new_start < range.new_end <= tokens.len(),
    ensures
        piece.deep_view() == replaced(script@, words.deep_view(), tokens.deep_view(), range),
{
    let ghost heard = words.deep_view();
    let ghost views = tokens.deep_view();
    let count = range.new_end - range.new_start;
    if count == range.old_end - range.old_start {
        return pair_words(words, tokens, range);
    }
    proof {
        lemma_chronological_span(heard, range.old_start as int, range.old_end - 1);
        assert forall|i: int| range.old_start <= i < range.old_end implies (
        #[trigger] heard[i]).start_ms <= heard[i].end_ms by {}
    }
    let rate = micros_per_byte(words, range.old_start, range.old_end);
    let origin = words[range.old_start].start_ms;
    let room = words[range.old_end - 1].end_ms - origin;
    match lengths_below(tokens, range.new_start, count, rate, room) {
        Some(total) => {
            let gap = if count == 1 {
                0
            } else {
                (room - total) / ((count - 1) as u64)
            };
            proof {
                if count == 1 {
                    assert((count - 1) * gap == 0) by (nonlinear_arith)
                        requires
                            count == 1,
                    ;
                } else {
                    lemma_remainder_lower((room - total) as int, (count - 1) as int);
                    assert((count - 1) * gap == gap * (count - 1)) by (nonlinear_arith);
                }
                lemma_laid_out_in_room(
                    views,
                    range.new_start as int,
                    count as int,
                    origin as int,
                    gap as int,
                    rate as int,
                    room as int,
                );
                let all = laid_out(
                    views,
                    range.new_start as int,
                    count as int,
                    origin as int,
                    gap as int,
                    rate as int,
                );
                assert(times_fit(all)) by {
                    assert forall|i: int| 0 <= i < all.len() implies 0 <= (#[trigger] all[i]).start_ms
                        <= u64::MAX && 0 <= all[i].end_ms <= u64::MAX by {}
                }
            }
            // The tokens end within the span of the words, so their times fit.
            match lay_out(tokens, range.new_start, count, origin, gap, rate) {
                Some(piece) => piece,
                None => Vec::new(),
            }
        },
        None => {
            let mut piece: Vec<Word> = Vec::new();
            piece.push(merge_words(script, words, tokens, range));
            assert(piece.deep_view() =~= seq![
                merged(script@, words.deep_view(), tokens.deep_view(), range),
            ]);
            piece
        },
    }
}

/// What an `Insert` range gives after `before`, `wait` being the usual pause
/// of the transcript and `rate` its rate; `None` where a time passes what a
/// `u64` holds.
pub fn insert_words(
    words: &Vec<Word>,
    tokens: &Vec<Token>,
    range: DiffRange,
    before: &Vec<Word>,
    wait: u64,
    rate: u128,
) -> (piece: Option<Vec<Word>>)
    requires
        range.new_start <= range.new_end <= tokens.len(),
        wait == mean_pause(words.deep_view()),
        rate == mean_rate(words.deep_view(), 0, words.len() as int),
    ensures
        piece is Some <==> times_fit(
            inserted(words.deep_view(), tokens.deep_view(), range, before.deep_view()),
        ),
        piece is Some ==> piece->0.deep_view() == inserted(
            words.deep_view(),
            tokens.deep_view(),
            range,
            before.deep_view(),
        ),
{
    let count = range.new_end - range.new_start;
    assert(words.deep_view().len() == words.len());
    match last_anchor_of(before) {
        Some(anchor) => lay_out(tokens, range.new_start, count, anchor, wait, rate),
        None => {
            let piece = untimed_words(tokens, range.new_start, count);
            Some(piece)
        },
    }
}

/// Gives every token of the script its time, range by range: the alignment
/// that `ranges` give, or `None` where one of its times passes what a `u64`
/// holds.
pub fn synthesize(words: &Vec<Word>, script: &str, tokens: &Vec<Token>, ranges: &Vec<DiffRange>) -> (out:
    Option<Vec<Word>>)
    requires
        chronological(words.deep_view()),
        tokens_fit(script@, tokens.deep_view()),
        partitions(ranges@, words.len() as int, tokens.len() as int),
    ensures
        out is Some <==> times_fit(timing(script@, words.deep_view(), tokens.deep_view(), ranges@)),
        out is Some ==> out->0.deep_view() == timing(
            script@,
            words.deep_view(),
            tokens.deep_view(),
            ranges@,
        ),
{
    let ghost heard = words.deep_view();
    let ghost views = tokens.deep_view();
    assert(heard.len() == words.len());
    proof {
        assert forall|i: int| 0 <= i < words.len() implies (#[trigger] heard[i]).start_ms
            <= heard[i].end_ms by {}
    }
    let wait = average_wait(words);
    let rate = micros_per_byte(words, 0, words.len());
    let mut out: Vec<Word> = Vec::new();
    let mut i: usize = 0;
    assert(out.deep_view() =~= synthesized(script@, heard, views, ranges@, 0));
    while i < ranges.len()
        invariant
            i <= ranges.len(),
            heard == words.deep_view(),
            views == tokens.deep_view(),
            chronological(heard),
            tokens_fit(script@, views),
            partitions(ranges@, words.len() as int, tokens.len() as int),
            wait == mean_pause(heard),
            rate == mean_rate(heard, 0, words.len() as int),
            out.deep_view() == synthesized(script@, heard, views, ranges@, i as int),
        decreases ranges.len() - i,
    {
        let range = ranges[i];
        let ghost before = out.deep_view();
        proof {
            lemma_partition_bounds(ranges@, words.len() as int, tokens.len() as int, i as int);
            assert(in_place(ranges@, i as int));
        }
        let mut piece = match range.tag {
            DiffTag::Equal => pair_words(words, tokens, range),
            DiffTag::Delete => Vec::new(),
            DiffTag::Insert => match insert_words(words, tokens, range, &out, wait, rate) {
                Some(piece) => piece,
                None => {
                    proof {
                        let now = synthesized(script@, heard, views, ranges@, i + 1);
                        let bad = inserted(heard, views, range, before);
                        let k = choose|k: int|
                            0 <= k < bad.len() && !(0 <= (#[trigger] bad[k]).start_ms <= u64::MAX
                                && 0 <= bad[k].end_ms <= u64::MAX);
                        assert(now[before.len() + k] == bad[k]);
                        lemma_unfit_stays(script@, heard, views, ranges@, i + 1, ranges@.len() as int);
                    }
                    return None;
                },
            },
            DiffTag::Replace => replace_words(script, words, tokens, range),
        };
        let ghost given = piece.deep_view();
        assert(given =~= emitted(script@, heard, views, range, before));
        out.append(&mut piece);
        assert(out.deep_view() =~= before + given);
        i = i + 1;
    }
    Some(out)
}

} // verus!
