//! What a transcript says of the speaker: the usual pause between words, and
//! the time taken per byte of text.
//!
//! Rates are whole microseconds per byte, so that a rate of a fraction of a
//! millisecond per byte is not lost.

use vstd::prelude::*;
use vstd::arithmetic::div_mod::{lemma_fundamental_div_mod, lemma_fundamental_div_mod_converse, lemma_mod_bound, lemma_div_nonincreasing, lemma_div_pos_is_pos};
use crate::text::{byte_len, byte_length};
use crate::word::{Word, WordView, chronological, follows};

verus! {

/// A pause that is more than this many times the pause before it is taken
/// for a silence, not for a pause of speech.
pub const OUTLIER_FACTOR: u64 = 20;

/// Microseconds in a millisecond.
pub const MICROS: u64 = 1000;

/// The pause before word `i`: from the end of the word before it to its start.
pub open spec fn pause(words: Seq<WordView>, i: int) -> int {
    words[i].start_ms - words[i - 1].end_ms
}

/// Whether the pause before word `i` counts towards the usual pause: the first
/// pause does, and any that is at most `OUTLIER_FACTOR` times the pause
/// before it.
pub open spec fn pause_counts(words: Seq<WordView>, i: int) -> bool {
    i == 1 || pause(words, i) <= OUTLIER_FACTOR * pause(words, i - 1)
}

/// The sum of the pauses that count, among those before the words `1..n`.
pub open spec fn pause_sum(words: Seq<WordView>, n: int) -> int
    decreases n,
{
    if n <= 1 {
        0
    } else if pause_counts(words, n - 1) {
        pause_sum(words, n - 1) + pause(words, n - 1)
    } else {
        pause_sum(words, n - 1)
    }
}

/// The number of pauses that count, among those before the words `1..n`.
pub open spec fn pause_count(words: Seq<WordView>, n: int) -> int
    decreases n,
{
    if n <= 1 {
        0
    } else if pause_counts(words, n - 1) {
        pause_count(words, n - 1) + 1
    } else {
        pause_count(words, n - 1)
    }
}

/// The usual pause between two words of a transcript, in milliseconds: the
/// mean of the pauses that count, rounded down, and zero where none counts.
pub open spec fn mean_pause(words: Seq<WordView>) -> int {
    let count = pause_count(words, words.len() as int);
    if count == 0 {
        0
    } else {
        pause_sum(words, words.len() as int) / count
    }
}

/// How long a word lasts.
pub open spec fn duration(word: WordView) -> int {
    word.end_ms - word.start_ms
}

/// Whether a word has a rate: one without text has none.
pub open spec fn rated(word: WordView) -> bool {
    byte_len(word.text) > 0
}

/// The rate of one word: microseconds per byte of its text, rounded down.
pub open spec fn word_rate(word: WordView) -> int {
    duration(word) * MICROS / byte_len(word.text)
}

/// The sum of the rates of the rated words among `words[lo..hi]`.
pub open spec fn rate_sum(words: Seq<WordView>, lo: int, hi: int) -> int
    decreases hi - lo,
{
    if hi <= lo {
        0
    } else if rated(words[hi - 1]) {
        rate_sum(words, lo, hi - 1) + word_rate(words[hi - 1])
    } else {
        rate_sum(words, lo, hi - 1)
    }
}

/// The number of rated words among `words[lo..hi]`.
pub open spec fn rated_count(words: Seq<WordView>, lo: int, hi: int) -> int
    decreases hi - lo,
{
    if hi <= lo {
        0
    } else if rated(words[hi - 1]) {
        rated_count(words, lo, hi - 1) + 1
    } else {
        rated_count(words, lo, hi - 1)
    }
}

/// The rate of speech over `words[lo..hi]`, in microseconds per byte: the
/// mean of the rates of its rated words, rounded down, and zero where it has
/// none.
pub open spec fn mean_rate(words: Seq<WordView>, lo: int, hi: int) -> int {
    let count = rated_count(words, lo, hi);
    if count == 0 {
        0
    } else {
        rate_sum(words, lo, hi) / count
    }
}

/// The time that `len` bytes take at `rate` microseconds per byte, in
/// milliseconds, rounded down.
pub open spec fn scaled(len: int, rate: int) -> int {
    len * rate / (MICROS as int)
}

/// The usual pause between two words of a chronological transcript.
pub fn average_wait(words: &Vec<Word>) -> (wait: u64)
    requires
        chronological(words.deep_view()),
    ensures
        wait == mean_pause(words.deep_view()),
{
    let ghost views = words.deep_view();
    let mut sum: u128 = 0;
    let mut count: usize = 0;
    let mut i: usize = 1;
    while i < words.len()
        invariant
            1 <= i,
            i <= words.len() || (words.len() == 0 && i == 1),
            views == words.deep_view(),
            chronological(views),
            sum == pause_sum(views, i as int),
            count == pause_count(views, i as int),
            count < i,
            sum <= count * u64::MAX,
        decreases words.len() - i,
    {
        assert(follows(views, i as int));
        let wait = words[i].start_ms - words[i - 1].end_ms;
        let mut counts = true;
        if i > 1 {
            assert(follows(views, i - 1));
            let before = words[i - 1].start_ms - words[i - 2].end_ms;
            let factor = OUTLIER_FACTOR as u128;
            assert(before * factor <= u64::MAX * 20) by (nonlinear_arith)
                requires
                    factor == 20,
                    0 <= before <= u64::MAX,
            ;
            if wait as u128 > before as u128 * factor {
                counts = false;
            }
        }
        assert(counts == pause_counts(views, i as int));
        if counts {
            sum = sum + wait as u128;
            count = count + 1;
        }
        i = i + 1;
    }
    assert(views.len() == words.len());
    assert(i == views.len() || (i == 1 && views.len() == 0));
    assert(pause_sum(views, i as int) == pause_sum(views, views.len() as int));
    assert(pause_count(views, i as int) == pause_count(views, views.len() as int));
    if count == 0 {
        0
    } else {
        let mean = sum / count as u128;
        assert(mean <= u64::MAX) by (nonlinear_arith)
            requires
                mean == sum / (count as u128),
                count > 0,
                sum <= count * u64::MAX,
        ;
        mean as u64
    }
}

/// The largest rate that a word can have.
pub open spec fn max_rate() -> int {
    u64::MAX * MICROS
}

/// A rated word's rate lies between zero and `max_rate()`.
pub proof fn lemma_word_rate_bounds(word: WordView)
    requires
        rated(word),
        0 <= word.start_ms <= word.end_ms <= u64::MAX,
    ensures
        0 <= word_rate(word) <= max_rate(),
{
    let x = duration(word) * MICROS;
    lemma_div_nonincreasing(x, byte_len(word.text));
    lemma_div_pos_is_pos(x, byte_len(word.text));
}

/// The rate sums and counts of a range bound one another.
pub proof fn lemma_rate_sum_bounds(words: Seq<WordView>, lo: int, hi: int)
    requires
        0 <= lo <= hi <= words.len(),
        forall|i: int|
            lo <= i < hi ==> 0 <= (#[trigger] words[i]).start_ms <= words[i].end_ms <= u64::MAX,
    ensures
        0 <= rated_count(words, lo, hi) <= hi - lo,
        0 <= rate_sum(words, lo, hi) <= rated_count(words, lo, hi) * max_rate(),
        0 <= mean_rate(words, lo, hi) <= max_rate(),
    decreases hi - lo,
{
    if lo < hi {
        lemma_rate_sum_bounds(words, lo, hi - 1);
        if rated(words[hi - 1]) {
            lemma_word_rate_bounds(words[hi - 1]);
        }
        let c = rated_count(words, lo, hi - 1);
        assert((c + 1) * max_rate() == c * max_rate() + max_rate()) by (nonlinear_arith);
    }
    let count = rated_count(words, lo, hi);
    let sum = rate_sum(words, lo, hi);
    if count > 0 {
        assert(0 <= sum / count <= max_rate()) by (nonlinear_arith)
            requires
                count > 0,
                0 <= sum <= count * max_rate(),
        ;
    }
}

/// Counts the rated words among `words[lo..hi]`.
fn count_rated(words: &Vec<Word>, lo: usize, hi: usize) -> (count: usize)
    requires
        lo <= hi <= words.len(),
    ensures
        count == rated_count(words.deep_view(), lo as int, hi as int),
        count <= hi - lo,
{
    let ghost views = words.deep_view();
    let mut count: usize = 0;
    let mut i: usize = lo;
    while i < hi
        invariant
            lo <= i <= hi <= words.len(),
            views == words.deep_view(),
            count == rated_count(views, lo as int, i as int),
            count <= i - lo,
        decreases hi - i,
    {
        if byte_length(words[i].word.as_str()) > 0 {
            count = count + 1;
        }
        i = i + 1;
    }
    count
}

/// The rate of speech over `words[lo..hi]`, in microseconds per byte.
pub fn micros_per_byte(words: &Vec<Word>, lo: usize, hi: usize) -> (rate: u128)
    requires
        lo <= hi <= words.len(),
        forall|i: int|
            lo <= i < hi ==> (#[trigger] words.deep_view()[i]).start_ms <= words.deep_view()[i].end_ms,
    ensures
        rate == mean_rate(words.deep_view(), lo as int, hi as int),
        rate <= max_rate(),
{
    let ghost views = words.deep_view();
    let n = count_rated(words, lo, hi);
    proof {
        lemma_rate_sum_bounds(views, lo as int, hi as int);
    }
    if n == 0 {
        return 0;
    }
    let n = n as u128;
    // The sum of the rates may not fit in a `u128`, so it is held as a
    // quotient and a remainder by `n`.
    let mut quot: u128 = 0;
    let mut rem: u128 = 0;
    let mut i: usize = lo;
    while i < hi
        invariant
            lo <= i <= hi <= words.len(),
            views == words.deep_view(),
            forall|j: int| lo <= j < hi ==> (#[trigger] views[j]).start_ms <= views[j].end_ms,
            0 < n == rated_count(views, lo as int, hi as int),
            n <= usize::MAX,
            rem < n,
            quot * n + rem == rate_sum(views, lo as int, i as int),
            quot <= max_rate(),
        decreases hi - i,
    {
        let len = byte_length(words[i].word.as_str());
        proof {
            lemma_rate_sum_bounds(views, lo as int, i as int);
            lemma_rate_sum_bounds(views, lo as int, i + 1);
            lemma_rate_sum_bounds(views, i + 1, hi as int);
            lemma_count_split(views, lo as int, i + 1, hi as int);
            lemma_count_split(views, lo as int, i as int, hi as int);
        }
        if len > 0 {
            assert(views[i as int].start_ms <= views[i as int].end_ms);
            let span = words[i].end_ms - words[i].start_ms;
            let x = span as u128 * (MICROS as u128) / (len as u128);
            let ghost sum = rate_sum(views, lo as int, i as int);
            proof {
                assert(x == word_rate(views[i as int]));
                lemma_word_rate_bounds(views[i as int]);
                lemma_fundamental_div_mod(x as int, n as int);
                lemma_mod_bound(x as int, n as int);
                lemma_div_nonincreasing(x as int, n as int);
                lemma_div_pos_is_pos(x as int, n as int);
            }
            let xq = x / n;
            let xr = x % n;
            let ghost quot_before = quot;
            let ghost rem_before = rem;
            quot = quot + xq;
            rem = rem + xr;
            if rem >= n {
                rem = rem - n;
                quot = quot + 1;
            }
            proof {
                let count = rated_count(views, lo as int, i + 1);
                let limit = max_rate();
                assert(quot * n + rem == sum + x) by (nonlinear_arith)
                    requires
                        quot_before * n + rem_before == sum,
                        x == n * xq + xr,
                        (quot == quot_before + xq + 1 && rem == rem_before + xr - n) || (quot
                            == quot_before + xq && rem == rem_before + xr),
                ;
                assert(quot <= limit) by (nonlinear_arith)
                    requires
                        quot * n + rem <= count * limit,
                        0 <= rem,
                        0 <= count <= n,
                        0 < n,
                        0 <= limit,
                ;
            }
        }
        i = i + 1;
    }
    proof {
        lemma_fundamental_div_mod_converse(
            rate_sum(views, lo as int, hi as int),
            n as int,
            quot as int,
            rem as int,
        );
    }
    quot
}

/// Counting over a range is counting over its two parts.
pub proof fn lemma_count_split(words: Seq<WordView>, lo: int, mid: int, hi: int)
    requires
        lo <= mid <= hi,
    ensures
        rated_count(words, lo, hi) == rated_count(words, lo, mid) + rated_count(words, mid, hi),
    decreases hi - mid,
{
    if mid < hi {
        lemma_count_split(words, lo, mid, hi - 1);
    }
}

/// The time that `len` bytes take at `rate` microseconds per byte, in
/// milliseconds, where a `u64` holds it.
pub fn scaled_millis(len: usize, rate: u128) -> (time: Option<u64>)
    ensures
        time == if scaled(len as int, rate as int) <= u64::MAX {
            Some(scaled(len as int, rate as int) as u64)
        } else {
            None::<u64>
        },
{
    match (len as u128).checked_mul(rate) {
        None => {
            assert(scaled(len as int, rate as int) > u64::MAX) by {
                assert(len * rate > u128::MAX);
            }
            None
        },
        Some(product) => {
            let time = product / (MICROS as u128);
            if time > u64::MAX as u128 {
                None
            } else {
                Some(time as u64)
            }
        },
    }
}

} // verus!
