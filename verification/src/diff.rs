//! Ranges of correspondence between a transcript and a script, and the diff
//! that finds them.

use vstd::prelude::*;

verus! {

/// What a range says of its two sides.
#[derive(Clone, Copy, Debug, PartialEq, Eq, Structural)]
pub enum DiffTag {
    /// The keys of both sides are the same, position by position.
    Equal,
    /// Words of the transcript that the script lacks.
    Delete,
    /// Tokens of the script that the transcript lacks.
    Insert,
    /// Words and tokens that stand in the same place and differ.
    Replace,
}

/// A stretch of the transcript, `old_start..old_end`, set against a stretch
/// of the script, `new_start..new_end`.
#[derive(Clone, Copy, Debug, PartialEq, Eq, Structural)]
pub struct DiffRange {
    pub tag: DiffTag,
    pub old_start: usize,
    pub old_end: usize,
    pub new_start: usize,
    pub new_end: usize,
}

/// The two stretches of a range are what its tag says: of equal length for
/// `Equal`, the script's empty for `Delete`, the transcript's empty for
/// `Insert`, neither empty for `Replace`.
pub open spec fn shaped(range: DiffRange) -> bool {
    &&& range.old_start <= range.old_end
    &&& range.new_start <= range.new_end
    &&& match range.tag {
        DiffTag::Equal => range.old_end - range.old_start == range.new_end - range.new_start,
        DiffTag::Delete => range.new_start == range.new_end,
        DiffTag::Insert => range.old_start == range.old_end,
        DiffTag::Replace => range.old_start < range.old_end && range.new_start < range.new_end,
    }
}

/// How far into the transcript the first `n` ranges reach.
pub open spec fn old_reach(ranges: Seq<DiffRange>, n: int) -> int {
    if n <= 0 {
        0
    } else {
        ranges[n - 1].old_end as int
    }
}

/// How far into the script the first `n` ranges reach.
pub open spec fn new_reach(ranges: Seq<DiffRange>, n: int) -> int {
    if n <= 0 {
        0
    } else {
        ranges[n - 1].new_end as int
    }
}

/// Range `i` is shaped and starts on both sides where the range before it
/// ended, or at zero if it is the first.
pub open spec fn in_place(ranges: Seq<DiffRange>, i: int) -> bool {
    &&& shaped(ranges[i])
    &&& ranges[i].old_start == old_reach(ranges, i)
    &&& ranges[i].new_start == new_reach(ranges, i)
}

/// Every range is in place, and together the ranges cover `0..old_len` of
/// the transcript and `0..new_len` of the script.
pub open spec fn partitions(ranges: Seq<DiffRange>, old_len: int, new_len: int) -> bool {
    &&& forall|i: int| 0 <= i < ranges.len() ==> #[trigger] in_place(ranges, i)
    &&& old_reach(ranges, ranges.len() as int) == old_len
    &&& new_reach(ranges, ranges.len() as int) == new_len
}

/// Tests whether `ranges` partition a transcript of `old_len` words and a
/// script of `new_len` tokens.
pub fn is_partition(ranges: &Vec<DiffRange>, old_len: usize, new_len: usize) -> (ok: bool)
    ensures
        ok == partitions(ranges@, old_len as int, new_len as int),
{
    let mut old_done: usize = 0;
    let mut new_done: usize = 0;
    let mut i: usize = 0;
    while i < ranges.len()
        invariant
            i <= ranges.len(),
            old_done == old_reach(ranges@, i as int),
            new_done == new_reach(ranges@, i as int),
            forall|j: int| 0 <= j < i ==> #[trigger] in_place(ranges@, j),
        decreases ranges.len() - i,
    {
        let range = ranges[i];
        let in_shape = range.old_start <= range.old_end && range.new_start <= range.new_end
            && match range.tag {
            DiffTag::Equal => range.old_end - range.old_start == range.new_end - range.new_start,
            DiffTag::Delete => range.new_start == range.new_end,
            DiffTag::Insert => range.old_start == range.old_end,
            DiffTag::Replace => range.old_start < range.old_end && range.new_start < range.new_end,
        };
        if !in_shape || range.old_start != old_done || range.new_start != new_done {
            assert(!in_place(ranges@, i as int));
            return false;
        }
        old_done = range.old_end;
        new_done = range.new_end;
        i = i + 1;
    }
    old_done == old_len && new_done == new_len
}

/// The ranges that the diff gives for two sequences of keys.
pub uninterp spec fn diff_of(old: Seq<Seq<char>>, new: Seq<Seq<char>>) -> Seq<DiffRange>;

/// `similar::TextDiff::from_slices` and `TextDiff::ops`: Myers' diff of the
/// two key sequences, without a deadline, each operation handed on as a
/// range with its tag and its two index ranges.  The result depends on the
/// keys alone; the contract names it and claims nothing of its form.  Above
/// a hundred keys the crate numbers the distinct keys in a `u32`, which the
/// bound on the lengths keeps from overflowing.
#[verifier::external_body]
pub(crate) fn diff_keys(old: &Vec<String>, new: &Vec<String>) -> (ranges: Vec<DiffRange>)
    requires
        old.len() + new.len() <= u32::MAX,
    ensures
        ranges@ == diff_of(old.deep_view(), new.deep_view()),
{
    let old: Vec<&str> = old.iter().map(|key| key.as_str()).collect();
    let new: Vec<&str> = new.iter().map(|key| key.as_str()).collect();
    let diff = similar::TextDiff::from_slices(&old, &new);
    diff.ops().iter().map(|op| DiffRange {
        tag: match op.tag() {
            similar::DiffTag::Equal => DiffTag::Equal,
            similar::DiffTag::Delete => DiffTag::Delete,
            similar::DiffTag::Insert => DiffTag::Insert,
            similar::DiffTag::Replace => DiffTag::Replace,
        },
        old_start: op.old_range().start,
        old_end: op.old_range().end,
        new_start: op.new_range().start,
        new_end: op.new_range().end,
    }).collect()
}

} // verus!
