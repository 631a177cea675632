//! Comparison keys: what is left of a text once everything but letters and
//! digits is dropped and case is folded.  Keys serve matching only.

use vstd::prelude::*;
use vstd::string::*;
use vstd::std_specs::iter::IteratorSpec;
use crate::text::{alphanumeric, lowercase, lowercase_of};
use crate::tokenizer::{Token, TokenView};
use crate::word::{Word, WordView};

verus! {

/// What one character gives to a key: its lowercase mapping if it is a letter
/// or a digit, and nothing otherwise.
pub open spec fn key_piece(c: char) -> Seq<char> {
    if alphanumeric(c) {
        lowercase(c)
    } else {
        Seq::empty()
    }
}

/// The comparison key of `text`: the pieces of its characters, in order.
pub open spec fn normalized(text: Seq<char>) -> Seq<char>
    decreases text.len(),
{
    if text.len() == 0 {
        Seq::empty()
    } else {
        normalized(text.drop_last()) + key_piece(text.last())
    }
}

/// The keys of the words of a transcript.
pub open spec fn word_keys(words: Seq<WordView>) -> Seq<Seq<char>> {
    Seq::new(words.len(), |i: int| normalized(words[i].text))
}

/// The keys of the tokens of a script.
pub open spec fn token_keys(tokens: Seq<TokenView>) -> Seq<Seq<char>> {
    Seq::new(tokens.len(), |i: int| normalized(tokens[i].text))
}

/// The comparison key of `text`.
pub fn normalize(text: &str) -> (key: String)
    ensures
        key@ == normalized(text@),
{
    let mut key = String::new();
    let mut chars = text.chars();
    let ghost mut k: int = 0;
    assert(text@.take(0) =~= Seq::<char>::empty());
    loop
        invariant
            0 <= k <= text@.len(),
            chars.remaining() == text@.skip(k),
            key@ == normalized(text@.take(k)),
        ensures
            k == text@.len(),
            key@ == normalized(text@.take(k)),
        decreases text@.len() - k,
    {
        match chars.next() {
            None => {
                break ;
            },
            Some(c) => {
                proof {
                    assert(c == text@[k]);
                    assert(text@.skip(k).drop_first() =~= text@.skip(k + 1));
                    assert(text@.take(k + 1).drop_last() =~= text@.take(k));
                    assert(text@.take(k + 1).last() == c);
                }
                if c.is_alphanumeric() {
                    let piece = lowercase_of(c);
                    key.append(piece.as_str());
                } else {
                    assert(key@ + Seq::<char>::empty() =~= key@);
                }
                proof {
                    k = k + 1;
                }
            },
        }
    }
    assert(text@.take(k) =~= text@);
    key
}

/// The keys of the words of a transcript.
pub fn keys_of_words(words: &Vec<Word>) -> (keys: Vec<String>)
    ensures
        keys.deep_view() == word_keys(words.deep_view()),
{
    let mut keys: Vec<String> = Vec::new();
    let mut i: usize = 0;
    while i < words.len()
        invariant
            i <= words.len(),
            keys.len() == i,
            forall|j: int| 0 <= j < i ==> (#[trigger] keys[j])@ == normalized(words[j].word@),
        decreases words.len() - i,
    {
        keys.push(normalize(words[i].word.as_str()));
        i = i + 1;
    }
    assert(keys.deep_view() =~= word_keys(words.deep_view()));
    keys
}

/// The keys of the tokens of a script.
pub fn keys_of_tokens(tokens: &Vec<Token>) -> (keys: Vec<String>)
    ensures
        keys.deep_view() == token_keys(tokens.deep_view()),
{
    let mut keys: Vec<String> = Vec::new();
    let mut i: usize = 0;
    while i < tokens.len()
        invariant
            i <= tokens.len(),
            keys.len() == i,
            forall|j: int| 0 <= j < i ==> (#[trigger] keys[j])@ == normalized(tokens[j].text@),
        decreases tokens.len() - i,
    {
        keys.push(normalize(tokens[i].text));
        i = i + 1;
    }
    assert(keys.deep_view() =~= token_keys(tokens.deep_view()));
    keys
}

} // verus!
