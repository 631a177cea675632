//! The alignment of a transcript and a script, from end to end.

use vstd::prelude::*;
use vstd::utf8::*;
use crate::diff::{DiffRange, diff_keys, diff_of, is_partition, partitions};
use crate::normalizer::{keys_of_tokens, keys_of_words, token_keys, word_keys};
use crate::synth::{synthesize, timing};
use crate::tokenizer::{Token, TokenView, split, tokenize, tokens_fit, lemma_tokenize_fits};
use crate::word::{Word, WordView, chronological, is_chronological, times_fit};

verus! {

/// Why there is no alignment.
#[derive(Clone, Copy, Debug, PartialEq, Eq, Structural)]
pub enum AlignError {
    /// The script is not valid UTF-8.
    InvalidEncoding,
    /// The transcript and the script together hold more words and tokens
    /// than the diff takes.
    InputTooLarge,
    /// A word of the transcript ends before it starts, or starts before the
    /// word before it has ended.
    MalformedTranscript,
    /// The ranges do not partition the transcript and the script.
    RangeInvariantViolation,
    /// A time of the alignment passes what a `u64` holds.
    TimingOverflow,
}

/// The most words and tokens, taken together, that the diff takes.
pub const MAX_DIFF_ITEMS: usize = 0xffff_ffff;

/// The alignment that `ranges` give for a transcript and the tokens of a
/// script, or why there is none.
pub open spec fn aligned_by(
    words: Seq<WordView>,
    script: Seq<char>,
    tokens: Seq<TokenView>,
    ranges: Seq<DiffRange>,
) -> Result<Seq<WordView>, AlignError> {
    if !chronological(words) {
        Err(AlignError::MalformedTranscript)
    } else if !partitions(ranges, words.len() as int, tokens.len() as int) {
        Err(AlignError::RangeInvariantViolation)
    } else if !times_fit(timing(script, words, tokens, ranges)) {
        Err(AlignError::TimingOverflow)
    } else {
        Ok(timing(script, words, tokens, ranges))
    }
}

/// The alignment of a transcript and a script, or why there is none: the
/// script is split into tokens, the keys of the words are set against the
/// keys of the tokens, and the ranges of that diff give the times.
pub open spec fn alignment(words: Seq<WordView>, script: Seq<char>) -> Result<
    Seq<WordView>,
    AlignError,
> {
    let tokens = tokenize(script);
    if words.len() + tokens.len() > MAX_DIFF_ITEMS {
        Err(AlignError::InputTooLarge)
    } else {
        aligned_by(words, script, tokens, diff_of(word_keys(words), token_keys(tokens)))
    }
}

/// Whether `result` is what `expected` says: the same error, or words that
/// stand for the same alignment.
pub open spec fn gives(result: Result<Vec<Word>, AlignError>, expected: Result<
    Seq<WordView>,
    AlignError,
>) -> bool {
    match result {
        Ok(timed) => expected == Ok::<Seq<WordView>, AlignError>(timed.deep_view()),
        Err(error) => expected == Err::<Seq<WordView>, AlignError>(error),
    }
}

/// `std::str::from_utf8`: the bytes as a string slice where they are valid
/// UTF-8, and nothing where they are not.  The slice has the bytes that went
/// in.
#[verifier::external_body]
fn utf8_text(bytes: &[u8]) -> (text: Option<&str>)
    ensures
        text is Some <==> valid_utf8(bytes@),
        text is Some ==> encode_utf8(text->0@) == bytes@,
{
    std::str::from_utf8(bytes).ok()
}

/// Reads the bytes of a script as text, without mending anything.
pub fn script_text(document: &[u8]) -> (result: Result<&str, AlignError>)
    ensures
        match result {
            Ok(text) => valid_utf8(document@) && text@ == decode_utf8(document@),
            Err(error) => !valid_utf8(document@) && error == AlignError::InvalidEncoding,
        },
{
    broadcast use encode_utf8_decode_utf8;
    match utf8_text(document) {
        Some(text) => Ok(text),
        None => Err(AlignError::InvalidEncoding),
    }
}

/// Aligns a transcript with the tokens of a script along given ranges.
pub fn align_tokens(
    words: &Vec<Word>,
    script: &str,
    tokens: &Vec<Token>,
    ranges: &Vec<DiffRange>,
) -> (result: Result<Vec<Word>, AlignError>)
    requires
        tokens_fit(script@, tokens.deep_view()),
    ensures
        gives(result, aligned_by(words.deep_view(), script@, tokens.deep_view(), ranges@)),
{
    assert(words.deep_view().len() == words.len());
    assert(tokens.deep_view().len() == tokens.len());
    if !is_chronological(words) {
        return Err(AlignError::MalformedTranscript);
    }
    if !is_partition(ranges, words.len(), tokens.len()) {
        return Err(AlignError::RangeInvariantViolation);
    }
    match synthesize(words, script, tokens, ranges) {
        Some(timed) => Ok(timed),
        None => Err(AlignError::TimingOverflow),
    }
}

/// Aligns a transcript with a script along given ranges over the words of
/// the one and the tokens of the other.
pub fn align_with_ranges(words: &Vec<Word>, script: &str, ranges: &Vec<DiffRange>) -> (result: Result<
    Vec<Word>,
    AlignError,
>)
    ensures
        gives(result, aligned_by(words.deep_view(), script@, tokenize(script@), ranges@)),
{
    let tokens = split(script);
    proof {
        lemma_tokenize_fits(script@);
    }
    align_tokens(words, script, &tokens, ranges)
}

/// Gives the tokens of `script` the times of the words of the transcript
/// that they match, and times made up from those where they match none.
pub fn match_timestamps_to_script(words: Vec<Word>, script: &str) -> (result: Result<
    Vec<Word>,
    AlignError,
>)
    ensures
        gives(result, alignment(words.deep_view(), script@)),
{
    let tokens = split(script);
    assert(words.deep_view().len() == words.len());
    assert(tokens.deep_view().len() == tokens.len());
    if words.len() > MAX_DIFF_ITEMS || tokens.len() > MAX_DIFF_ITEMS - words.len() {
        return Err(AlignError::InputTooLarge);
    }
    let old_keys = keys_of_words(&words);
    let new_keys = keys_of_tokens(&tokens);
    assert(old_keys.len() == old_keys.deep_view().len());
    assert(new_keys.len() == new_keys.deep_view().len());
    let ranges = diff_keys(&old_keys, &new_keys);
    proof {
        lemma_tokenize_fits(script@);
    }
    align_tokens(&words, script, &tokens, &ranges)
}

} // verus!
