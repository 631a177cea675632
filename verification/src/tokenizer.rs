//! Splitting a document into tokens that remember where they stood.

use vstd::prelude::*;
use vstd::utf8::*;
use vstd::string::*;
use vstd::std_specs::iter::IteratorSpec;
use crate::text::{byte_len, byte_length, slice, lemma_scalar_width, whitespace, lemma_byte_len_take, lemma_char_range_bytes};

verus! {

/// A piece of a document: its text as written, and the byte offset at which
/// it starts in the document.
#[derive(Clone, Copy, Debug, PartialEq, Eq)]
pub struct Token<'a> {
    pub text: &'a str,
    pub byte_offset: usize,
}

/// What a [`Token`] stands for in contracts.
pub struct TokenView {
    pub text: Seq<char>,
    pub byte_offset: int,
}

impl<'a> View for Token<'a> {
    type V = TokenView;

    open spec fn view(&self) -> TokenView {
        TokenView { text: self.text@, byte_offset: self.byte_offset as int }
    }
}

impl<'a> DeepView for Token<'a> {
    type V = TokenView;

    open spec fn deep_view(&self) -> TokenView {
        self@
    }
}

/// Line breaks and whitespace separate tokens.
pub open spec fn separator(c: char) -> bool {
    c == '\n' || whitespace(c)
}

/// The token made of the characters of `text` from index `a` up to `b`.
pub open spec fn token_at(text: Seq<char>, a: int, b: int) -> TokenView {
    TokenView { text: text.subrange(a, b), byte_offset: byte_len(text.take(a)) }
}

/// The tokens of `text` from character `i` on, where the characters from
/// `run` up to `i` are a run of non-separators that is still open.  A run
/// ends at a separator or at the end of the text; a line break is a token of
/// its own; other separators leave nothing.
pub open spec fn scan(text: Seq<char>, run: int, i: int) -> Seq<TokenView>
    decreases text.len() - i,
{
    let pending = if run < i {
        seq![token_at(text, run, i)]
    } else {
        Seq::empty()
    };
    if i < 0 || i >= text.len() {
        pending
    } else if separator(text[i]) {
        let line_break = if text[i] == '\n' {
            seq![token_at(text, i, i + 1)]
        } else {
            Seq::empty()
        };
        pending + line_break + scan(text, i + 1, i + 1)
    } else {
        scan(text, run, i + 1)
    }
}

/// The tokens of a document, in order.
pub open spec fn tokenize(text: Seq<char>) -> Seq<TokenView> {
    scan(text, 0, 0)
}

/// The token lies in `text` at its offset: both of its ends are character
/// boundaries of `text`, and the bytes between them are the token's own.
pub open spec fn token_fits(text: Seq<char>, token: TokenView) -> bool {
    let end = token.byte_offset + byte_len(token.text);
    &&& 0 <= token.byte_offset
    &&& end <= byte_len(text)
    &&& is_char_boundary(encode_utf8(text), token.byte_offset)
    &&& is_char_boundary(encode_utf8(text), end)
    &&& encode_utf8(text).subrange(token.byte_offset, end) == encode_utf8(token.text)
}

/// Every token lies in `text`, and each ends before the next one starts.
pub open spec fn tokens_fit(text: Seq<char>, tokens: Seq<TokenView>) -> bool {
    &&& forall|i: int| 0 <= i < tokens.len() ==> token_fits(text, #[trigger] tokens[i])
    &&& forall|i: int, j: int|
        0 <= i < j < tokens.len() ==> (#[trigger] tokens[i]).byte_offset + byte_len(tokens[i].text)
            <= (#[trigger] tokens[j]).byte_offset
}

/// A token cut out of a text at character indices lies in that text.
pub proof fn lemma_token_at_fits(text: Seq<char>, a: int, b: int)
    requires
        0 <= a <= b <= text.len(),
    ensures
        token_fits(text, token_at(text, a, b)),
        token_at(text, a, b).byte_offset + byte_len(token_at(text, a, b).text) == byte_len(
            text.take(b),
        ),
{
    lemma_char_range_bytes(text, a, b);
}

proof fn lemma_scan_fits(text: Seq<char>, run: int, i: int)
    requires
        0 <= run <= i <= text.len(),
    ensures
        tokens_fit(text, scan(text, run, i)),
        forall|j: int|
            0 <= j < scan(text, run, i).len() ==> byte_len(text.take(run)) <= (#[trigger] scan(
                text,
                run,
                i,
            )[j]).byte_offset,
        forall|j: int|
            0 <= j < scan(text, run, i).len() ==> (#[trigger] scan(text, run, i)[j]).text.len() > 0,
    decreases text.len() - i,
{
    lemma_token_at_fits(text, run, i);
    if i >= text.len() {
    } else if separator(text[i]) {
        lemma_token_at_fits(text, i, i + 1);
        lemma_scan_fits(text, i + 1, i + 1);
        lemma_char_range_bytes(text, run, i);
        lemma_char_range_bytes(text, i, i + 1);
        lemma_char_range_bytes(text, run, i + 1);
    } else {
        lemma_scan_fits(text, run, i + 1);
    }
}

/// The tokens of a document lie in it, in order, and none is empty.
pub proof fn lemma_tokenize_fits(text: Seq<char>)
    ensures
        tokens_fit(text, tokenize(text)),
        forall|j: int| 0 <= j < tokenize(text).len() ==> (#[trigger] tokenize(text)[j]).text.len() > 0,
{
    lemma_scan_fits(text, 0, 0);
}

/// The characters `a..b` of `text` are a run: none of them is a separator,
/// and the run can be made no longer at either end.
pub open spec fn is_run(text: Seq<char>, a: int, b: int) -> bool {
    &&& 0 <= a < b <= text.len()
    &&& forall|i: int| a <= i < b ==> !separator(#[trigger] text[i])
    &&& (a == 0 || separator(text[a - 1]))
    &&& (b == text.len() || separator(text[b]))
}

/// The characters `a..b` of `text` are one line break.
pub open spec fn is_line_break(text: Seq<char>, a: int, b: int) -> bool {
    0 <= a < text.len() && b == a + 1 && text[a] == '\n'
}

/// The characters from `run` up to `i` are the start of a run.
pub open spec fn run_open(text: Seq<char>, run: int, i: int) -> bool {
    &&& 0 <= run <= i <= text.len()
    &&& forall|j: int| run <= j < i ==> !separator(#[trigger] text[j])
    &&& (run == 0 || separator(text[run - 1]))
}

proof fn lemma_scan_sound(text: Seq<char>, run: int, i: int, k: int)
    requires
        run_open(text, run, i),
        0 <= k < scan(text, run, i).len(),
    ensures
        exists|a: int, b: int|
            (is_run(text, a, b) || is_line_break(text, a, b)) && scan(text, run, i)[k]
                == #[trigger] token_at(text, a, b),
    decreases text.len() - i,
{
    if i >= text.len() {
        assert(is_run(text, run, i));
        assert(scan(text, run, i)[k] == token_at(text, run, i));
    } else if separator(text[i]) {
        let pending = if run < i {
            seq![token_at(text, run, i)]
        } else {
            Seq::empty()
        };
        let line_break = if text[i] == '\n' {
            seq![token_at(text, i, i + 1)]
        } else {
            Seq::empty()
        };
        if k < pending.len() {
            assert(is_run(text, run, i));
            assert(scan(text, run, i)[k] == token_at(text, run, i));
        } else if k < pending.len() + line_break.len() {
            assert(is_line_break(text, i, i + 1));
            assert(scan(text, run, i)[k] == token_at(text, i, i + 1));
        } else {
            let rest = k - pending.len() - line_break.len();
            lemma_scan_sound(text, i + 1, i + 1, rest);
            assert(scan(text, run, i)[k] == scan(text, i + 1, i + 1)[rest]);
        }
    } else {
        lemma_scan_sound(text, run, i + 1, k);
    }
}

proof fn lemma_scan_complete(text: Seq<char>, run: int, i: int, a: int, b: int)
    requires
        run_open(text, run, i),
        is_run(text, a, b) && run <= a || is_line_break(text, a, b) && i <= a,
    ensures
        exists|k: int|
            0 <= k < scan(text, run, i).len() && #[trigger] scan(text, run, i)[k] == token_at(
                text,
                a,
                b,
            ),
    decreases text.len() - i,
{
    if is_run(text, a, b) && run < a {
        assert(separator(text[a - 1]));
        assert(i <= a - 1);
    }
    if is_run(text, a, b) && run == a {
        if b < i {
            assert(separator(text[b]));
        }
        assert(i <= b);
    }
    let found = scan(text, run, i);
    if i >= text.len() {
        assert(0 < found.len() && found[0] == token_at(text, a, b));
    } else if separator(text[i]) {
        let pending = if run < i {
            seq![token_at(text, run, i)]
        } else {
            Seq::empty()
        };
        let line_break = if text[i] == '\n' {
            seq![token_at(text, i, i + 1)]
        } else {
            Seq::empty()
        };
        let later = scan(text, i + 1, i + 1);
        assert(found == pending + line_break + later);
        if is_run(text, a, b) && run == a {
            assert(!separator(text[a]));
            if i < b {
                assert(!separator(text[i]));
            }
            assert(0 < found.len() && found[0] == token_at(text, a, b));
        } else if a == i {
            let k = pending.len() as int;
            assert(0 <= k < found.len() && found[k] == token_at(text, a, b));
        } else {
            lemma_scan_complete(text, i + 1, i + 1, a, b);
            let rest = choose|k: int|
                0 <= k < later.len() && #[trigger] scan(text, i + 1, i + 1)[k] == token_at(
                    text,
                    a,
                    b,
                );
            let k = pending.len() + line_break.len() + rest;
            assert(0 <= k < found.len() && found[k] == later[rest]);
        }
    } else {
        if is_line_break(text, a, b) {
            assert(separator(text[a]));
        }
        lemma_scan_complete(text, run, i + 1, a, b);
        let later = scan(text, run, i + 1);
        assert(found == later);
        let k = choose|k: int|
            0 <= k < later.len() && #[trigger] scan(text, run, i + 1)[k] == token_at(text, a, b);
        assert(0 <= k < found.len() && found[k] == token_at(text, a, b));
    }
}

/// Every token of a document is a run of the document or one of its line
/// breaks.
pub proof fn lemma_tokens_are_runs_and_line_breaks(text: Seq<char>, k: int)
    requires
        0 <= k < tokenize(text).len(),
    ensures
        exists|a: int, b: int|
            (is_run(text, a, b) || is_line_break(text, a, b)) && tokenize(text)[k]
                == #[trigger] token_at(text, a, b),
{
    lemma_scan_sound(text, 0, 0, k);
}

/// Every run of a document and every one of its line breaks is a token of
/// it.
pub proof fn lemma_runs_and_line_breaks_are_tokens(text: Seq<char>, a: int, b: int)
    requires
        is_run(text, a, b) || is_line_break(text, a, b),
    ensures
        exists|k: int|
            0 <= k < tokenize(text).len() && #[trigger] tokenize(text)[k] == token_at(text, a, b),
{
    lemma_scan_complete(text, 0, 0, a, b);
    let k = choose|k: int|
        0 <= k < scan(text, 0, 0).len() && #[trigger] scan(text, 0, 0)[k] == token_at(text, a, b);
    assert(0 <= k < tokenize(text).len() && tokenize(text)[k] == token_at(text, a, b));
}

/// Splits a document into its tokens: each run of characters that are
/// neither whitespace nor a line break, and each line break by itself.
pub fn split<'a>(text: &'a str) -> (tokens: Vec<Token<'a>>)
    ensures
        tokens.deep_view() == tokenize(text@),
{
    let mut tokens: Vec<Token<'a>> = Vec::new();
    let mut chars = text.chars();
    let total = byte_length(text);
    let mut pos: usize = 0;
    let mut start: usize = 0;
    let ghost mut k: int = 0;
    let ghost mut run: int = 0;
    assert(tokens.deep_view() =~= Seq::<TokenView>::empty());
    loop
        invariant
            0 <= run <= k <= text@.len(),
            chars.remaining() == text@.skip(k),
            total == byte_len(text@),
            pos == byte_len(text@.take(k)),
            start == byte_len(text@.take(run)),
            tokenize(text@) == tokens.deep_view() + scan(text@, run, k),
        ensures
            k == text@.len(),
        decreases text@.len() - k,
    {
        match chars.next() {
            None => {
                break ;
            },
            Some(c) => {
                proof {
                    assert(c == text@[k]);
                    assert(text@.skip(k).drop_first() =~= text@.skip(k + 1));
                    lemma_byte_len_take(text@, k);
                    lemma_char_range_bytes(text@, run, k);
                    lemma_char_range_bytes(text@, k, k + 1);
                    lemma_scalar_width(c);
                    assert(c == '\n' ==> encode_scalar(c as u32).len() == 1);
                }
                let width = c.len_utf8();
                let ghost before = tokens.deep_view();
                if c == '\n' || c.is_whitespace() {
                    if start < pos {
                        tokens.push(Token { text: slice(text, start, pos), byte_offset: start });
                    }
                    if c == '\n' {
                        tokens.push(Token { text: slice(text, pos, pos + 1), byte_offset: pos });
                    }
                    start = pos + width;
                    proof {
                        let pending = if run < k {
                            seq![token_at(text@, run, k)]
                        } else {
                            Seq::empty()
                        };
                        let line_break = if c == '\n' {
                            seq![token_at(text@, k, k + 1)]
                        } else {
                            Seq::empty()
                        };
                        assert(tokens.deep_view() =~= before + pending + line_break);
                        assert(before + scan(text@, run, k) =~= before + pending + line_break
                            + scan(text@, k + 1, k + 1));
                        run = k + 1;
                    }
                }
                pos = pos + width;
                proof {
                    k = k + 1;
                }
            },
        }
    }
    let ghost before = tokens.deep_view();
    proof {
        lemma_char_range_bytes(text@, run, k);
        assert(text@.take(k) =~= text@);
    }
    if start < pos {
        tokens.push(Token { text: slice(text, start, pos), byte_offset: start });
        assert(tokens.deep_view() =~= before + seq![token_at(text@, run, k)]);
    }
    tokens
}

/// Where `token` starts in `main`: its recorded offset, if the token does
/// lie in `main` there, and `None` if it does not.
pub fn substr_pos(main: &str, token: &Token) -> (pos: Option<usize>)
    ensures
        pos == if token_fits(main@, token@) {
            Some(token.byte_offset)
        } else {
            None
        },
{
    let offset = token.byte_offset;
    let len = byte_length(token.text);
    let total = byte_length(main);
    if offset > total || len > total - offset {
        return None;
    }
    if !main.is_char_boundary(offset) || !main.is_char_boundary(offset + len) {
        return None;
    }
    let part = slice(main, offset, offset + len);
    let here = part.as_bytes();
    let want = token.text.as_bytes();
    let mut i: usize = 0;
    while i < len
        invariant
            i <= len,
            here@.len() == len,
            want@.len() == len,
            here@ == encode_utf8(main@).subrange(offset as int, offset + len),
            want@ == encode_utf8(token.text@),
            token@.byte_offset == offset,
            forall|j: int| 0 <= j < i ==> here@[j] == want@[j],
        decreases len - i,
    {
        if here[i] != want[i] {
            assert(here@[i as int] != want@[i as int]);
            return None;
        }
        i = i + 1;
    }
    assert(here@ =~= want@);
    Some(offset)
}

} // verus!
