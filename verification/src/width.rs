//! Visible width: the columns that a line takes on screen.

use crate::segment::{column_at, scan, scan_line, total_width, visible_width_of, Segment};
use vstd::prelude::*;
use vstd::string::*;

verus! {

/// `n`, or the largest `u64` if `n` is beyond it.
pub open spec fn saturated(n: nat) -> u64 {
    if n > u64::MAX {
        u64::MAX
    } else {
        n as u64
    }
}

/// `n`, or the largest `u32` if `n` is beyond it.
pub open spec fn clamped(n: nat) -> u32 {
    if n > u32::MAX {
        u32::MAX
    } else {
        n as u32
    }
}

/// Adds `width` columns to a count that stays at the largest `u64` once it
/// has reached it.
pub fn add_columns(count: u64, width: usize) -> (sum: u64)
    ensures
        sum == saturated((count + width) as nat),
{
    count.saturating_add(width as u64)
}

/// Brings a column count into the range of `u32`.
pub fn clamp_u32(value: u64) -> (clamped_value: u32)
    ensures
        clamped_value == clamped(value as nat),
{
    if value > u32::MAX as u64 {
        u32::MAX
    } else {
        value as u32
    }
}

/// The columns that `segments` take together, held at the largest `u64` if
/// they are more.
pub fn segments_width(segments: &Vec<Segment>) -> (width: u64)
    ensures
        width == saturated(total_width(segments@)),
{
    let mut width: u64 = 0;
    let mut k: usize = 0;
    while k < segments.len()
        invariant
            k <= segments.len(),
            width == saturated(column_at(segments@, k as int)),
        decreases segments.len() - k,
    {
        if !segments[k].escape {
            width = add_columns(width, segments[k].width);
        }
        k += 1;
    }
    width
}

/// The visible width of `text` in columns: the widths of its grapheme
/// clusters, escape sequences left out, held at the largest `u32` if it is
/// more.
pub fn visible_width(text: &str) -> (width: u32)
    ensures
        width == clamped(visible_width_of(text.spec_bytes())),
{
    let segments = scan_line(text);
    clamp_u32(segments_width(&segments))
}

} // verus!
