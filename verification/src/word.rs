//! Timed words: what a transcript holds, and what an alignment gives back.

use vstd::prelude::*;

verus! {

/// A stretch of text with the time at which it is spoken, in milliseconds.
/// A transcript is a sequence of these, and so is an alignment.  In an
/// alignment a word with both times zero has no known time.
#[derive(Clone, Debug, PartialEq, Eq)]
pub struct Word {
    pub start_ms: u64,
    pub end_ms: u64,
    pub word: String,
}

/// What a [`Word`] stands for in contracts.  The times are unbounded, so that
/// a contract can speak of a time that no `u64` holds.
pub struct WordView {
    pub start_ms: int,
    pub end_ms: int,
    pub text: Seq<char>,
}

impl View for Word {
    type V = WordView;

    open spec fn view(&self) -> WordView {
        WordView { start_ms: self.start_ms as int, end_ms: self.end_ms as int, text: self.word@ }
    }
}

impl DeepView for Word {
    type V = WordView;

    open spec fn deep_view(&self) -> WordView {
        self@
    }
}

/// Word `i` starts no earlier than the word before it ends.
pub open spec fn follows(words: Seq<WordView>, i: int) -> bool {
    words[i - 1].end_ms <= words[i].start_ms
}

/// No word ends before it starts, and none starts before the one before it
/// has ended.
pub open spec fn chronological(words: Seq<WordView>) -> bool {
    &&& forall|i: int| 0 <= i < words.len() ==> (#[trigger] words[i]).start_ms <= words[i].end_ms
    &&& forall|i: int| 0 < i < words.len() ==> #[trigger] follows(words, i)
}

/// In a chronological transcript an earlier word starts no later than a
/// later one ends.
pub proof fn lemma_chronological_span(words: Seq<WordView>, i: int, j: int)
    requires
        chronological(words),
        0 <= i <= j < words.len(),
    ensures
        words[i].start_ms <= words[j].start_ms,
        words[i].end_ms <= words[j].end_ms,
        words[i].start_ms <= words[j].end_ms,
    decreases j - i,
{
    if i < j {
        lemma_chronological_span(words, i, j - 1);
        assert(follows(words, j));
    }
}

/// Every time of the transcript fits in a `u64`.
pub open spec fn times_fit(words: Seq<WordView>) -> bool {
    forall|i: int|
        0 <= i < words.len() ==> 0 <= (#[trigger] words[i]).start_ms <= u64::MAX && 0
            <= words[i].end_ms <= u64::MAX
}

/// Tests whether a transcript is chronological.
pub fn is_chronological(words: &Vec<Word>) -> (ok: bool)
    ensures
        ok == chronological(words.deep_view()),
{
    let ghost views = words.deep_view();
    let mut i: usize = 0;
    while i < words.len()
        invariant
            i <= words.len(),
            views == words.deep_view(),
            forall|j: int| 0 <= j < i ==> (#[trigger] views[j]).start_ms <= views[j].end_ms,
            forall|j: int| 0 < j < i ==> #[trigger] follows(views, j),
        decreases words.len() - i,
    {
        if words[i].start_ms > words[i].end_ms {
            assert(views[i as int].start_ms > views[i as int].end_ms);
            return false;
        }
        if i > 0 && words[i - 1].end_ms > words[i].start_ms {
            assert(!follows(views, i as int));
            return false;
        }
        i = i + 1;
    }
    true
}

} // verus!
