//! The order in which matches are reported when the newest come first.

use crate::glob::{mtime_of, GlobMatch};
use std::cmp::Ordering;
use vstd::prelude::*;

verus! {

/// The matches last modified at `time`, in their order.
pub open spec fn modified_at(matches: Seq<GlobMatch>, time: u64) -> Seq<GlobMatch> {
    matches.filter(|m: GlobMatch| mtime_of(m) == time)
}

/// `sorted` holds the matches of `found` with the newest first, and
/// matches of the same time in the order in which they were found.
pub open spec fn is_newest_first(sorted: Seq<GlobMatch>, found: Seq<GlobMatch>) -> bool {
    &&& sorted.to_multiset() == found.to_multiset()
    &&& forall|i: int, j: int|
        0 <= i < j < sorted.len() ==> mtime_of(sorted[i]) >= mtime_of(sorted[j])
    &&& forall|time: u64| #[trigger] modified_at(sorted, time) == modified_at(found, time)
}

/// How two matches stand to one another when the newest come first.
pub fn newer_first(a: &GlobMatch, b: &GlobMatch) -> (order: Ordering)
    ensures
        order == if mtime_of(*a) > mtime_of(*b) {
            Ordering::Less
        } else if mtime_of(*a) < mtime_of(*b) {
            Ordering::Greater
        } else {
            Ordering::Equal
        },
{
    let time_a: u64 = match a.mtime {
        Some(time) => time,
        None => 0,
    };
    let time_b: u64 = match b.mtime {
        Some(time) => time,
        None => 0,
    };
    if time_a > time_b {
        Ordering::Less
    } else if time_a < time_b {
        Ordering::Greater
    } else {
        Ordering::Equal
    }
}

/// `slice::sort_by` of std with `newer_first`: a stable sort, so the result
/// holds the same matches, in the order that `newer_first` asks for, and
/// those that it calls equal in the order that they had.
#[verifier::external_body]
pub(crate) fn sort_newest_first(matches: &mut Vec<GlobMatch>)
    ensures
        is_newest_first(final(matches)@, old(matches)@),
{
    matches.sort_by(|a, b| newer_first(a, b));
}

} // verus!
