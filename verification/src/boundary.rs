//! Character-boundary arithmetic on UTF-8 byte sequences.
//!
//! Offsets into the buffer are byte offsets. An offset is usable for
//! slicing or splicing only when it falls on a character boundary, so every
//! operation that receives an arbitrary offset first snaps it to a boundary:
//! downward (toward 0) for range starts, upward (toward the end) for range
//! ends. This widen-outward policy means a misaligned range grows to cover
//! whole characters rather than leaving a truncated encoding behind.

use std::ops::Range;
use vstd::prelude::*;
use vstd::string::StringSliceAdditionalSpecFns;
use vstd::utf8::{is_char_boundary, valid_utf8};

verus! {

/// Clamp an offset to `[0, s.len()]` from above (spec-level `min` with the length).
pub open spec fn clamp_len(s: Seq<u8>, i: int) -> int {
    if i > s.len() {
        s.len() as int
    } else {
        i
    }
}

/// Greatest character boundary at or below `i` (0 when `i <= 0`).
pub open spec fn snap_down(s: Seq<u8>, i: int) -> int
    decreases i,
{
    if i <= 0 {
        0
    } else if is_char_boundary(s, i) {
        i
    } else {
        snap_down(s, i - 1)
    }
}

/// Least character boundary at or above `i` (`s.len()` when `i >= s.len()`).
pub open spec fn snap_up(s: Seq<u8>, i: int) -> int
    decreases s.len() - i,
{
    if i >= s.len() {
        s.len() as int
    } else if is_char_boundary(s, i) {
        i
    } else {
        snap_up(s, i + 1)
    }
}

/// Boundary reached by walking backward from just before `clamp_len(s, idx)`.
pub open spec fn spec_prev_boundary(s: Seq<u8>, idx: int) -> int {
    snap_down(s, clamp_len(s, idx) - 1)
}

/// Boundary reached by walking forward from just after `clamp_len(s, idx)`.
pub open spec fn spec_next_boundary(s: Seq<u8>, idx: int) -> int {
    let j = clamp_len(s, idx);
    if j == s.len() {
        j
    } else {
        snap_up(s, j + 1)
    }
}

/// Normalized start of a byte range: clamped, swapped if reversed, snapped down.
pub open spec fn spec_norm_start(s: Seq<u8>, a: int, b: int) -> int {
    let lo = clamp_len(s, a);
    let hi = clamp_len(s, b);
    if lo > hi {
        snap_down(s, hi)
    } else {
        snap_down(s, lo)
    }
}

/// Normalized end of a byte range: clamped, swapped if reversed, snapped up.
pub open spec fn spec_norm_end(s: Seq<u8>, a: int, b: int) -> int {
    let lo = clamp_len(s, a);
    let hi = clamp_len(s, b);
    if lo > hi {
        snap_up(s, lo)
    } else {
        snap_up(s, hi)
    }
}

pub proof fn lemma_snap_down_props(s: Seq<u8>, i: int)
    requires
        valid_utf8(s),
        i <= s.len(),
    ensures
        0 <= snap_down(s, i),
        snap_down(s, i) <= i || (i < 0 && snap_down(s, i) == 0),
        is_char_boundary(s, snap_down(s, i)),
    decreases i,
{
    vstd::utf8::is_char_boundary_start_end_of_seq(s);
    if i <= 0 {
    } else if is_char_boundary(s, i) {
    } else {
        lemma_snap_down_props(s, i - 1);
    }
}

/// `snap_down` never skips past a boundary: any boundary at or below `i`
/// is at or below the snapped offset.
pub proof fn lemma_snap_down_maximal(s: Seq<u8>, i: int, k: int)
    requires
        valid_utf8(s),
        0 <= k <= i,
        is_char_boundary(s, k),
    ensures
        k <= snap_down(s, i),
    decreases i,
{
    if i <= 0 || is_char_boundary(s, i) {
    } else {
        lemma_snap_down_maximal(s, i - 1, k);
    }
}

pub proof fn lemma_snap_up_props(s: Seq<u8>, i: int)
    requires
        valid_utf8(s),
        0 <= i,
    ensures
        i <= snap_up(s, i) || (i > s.len() && snap_up(s, i) == s.len()),
        snap_up(s, i) <= s.len(),
        is_char_boundary(s, snap_up(s, i)),
    decreases s.len() - i,
{
    vstd::utf8::is_char_boundary_start_end_of_seq(s);
    if i >= s.len() || is_char_boundary(s, i) {
    } else {
        lemma_snap_up_props(s, i + 1);
    }
}

/// Boundary of the byte sequence nearest below `idx`, walking backward over
/// continuation bytes exactly as `str::is_char_boundary` classifies them.
/// Clamps `idx` to the text length first; returns 0 at the start.
pub fn prev_char_boundary(s: &str, idx: usize) -> (r: usize)
    requires
        s.spec_bytes().len() <= usize::MAX,
    ensures
        r == spec_prev_boundary(s.spec_bytes(), idx as int),
        is_char_boundary(s.spec_bytes(), r as int),
        r <= s.spec_bytes().len(),
{
    proof {
        vstd::utf8::encode_utf8_valid_utf8(s@);
        lemma_snap_down_props(s.spec_bytes(), clamp_len(s.spec_bytes(), idx as int) - 1);
    }
    let len = s.len();
    let j = if idx > len {
        len
    } else {
        idx
    };
    if j == 0 {
        return 0;
    }
    let mut i: usize = j - 1;
    while i > 0 && !s.is_char_boundary(i)
        invariant
            valid_utf8(s.spec_bytes()),
            0 <= i < s.spec_bytes().len(),
            snap_down(s.spec_bytes(), i as int) == spec_prev_boundary(s.spec_bytes(), idx as int),
        decreases i,
    {
        i = i - 1;
    }
    proof {
        vstd::utf8::is_char_boundary_start_end_of_seq(s.spec_bytes());
    }
    i
}

/// Boundary of the byte sequence nearest above `idx`, walking forward over
/// continuation bytes. Clamps `idx` to the text length first; returns the
/// length at the end.
pub fn next_char_boundary(s: &str, idx: usize) -> (r: usize)
    requires
        s.spec_bytes().len() <= usize::MAX,
    ensures
        r == spec_next_boundary(s.spec_bytes(), idx as int),
        is_char_boundary(s.spec_bytes(), r as int),
        r <= s.spec_bytes().len(),
{
    proof {
        vstd::utf8::encode_utf8_valid_utf8(s@);
    }
    let len = s.len();
    let j = if idx > len {
        len
    } else {
        idx
    };
    if j == len {
        proof {
            vstd::utf8::is_char_boundary_start_end_of_seq(s.spec_bytes());
        }
        return j;
    }
    proof {
        lemma_snap_up_props(s.spec_bytes(), j as int + 1);
    }
    let mut i: usize = j + 1;
    while i < len && !s.is_char_boundary(i)
        invariant
            valid_utf8(s.spec_bytes()),
            len == s.spec_bytes().len(),
            0 < i <= len,
            snap_up(s.spec_bytes(), i as int) == spec_next_boundary(s.spec_bytes(), idx as int),
        decreases len - i,
    {
        i = i + 1;
    }
    proof {
        vstd::utf8::is_char_boundary_start_end_of_seq(s.spec_bytes());
    }
    i
}

/// Turn an arbitrary byte range into a well-formed character range of `s`:
/// both ends are clamped to the text length, swapped if reversed, and then
/// widened outward (start down, end up) to the nearest character boundaries.
pub fn normalize_range_to_char_boundaries(s: &str, range: Range<usize>) -> (r: Range<usize>)
    requires
        s.spec_bytes().len() <= usize::MAX,
    ensures
        r.start == spec_norm_start(s.spec_bytes(), range.start as int, range.end as int),
        r.end == spec_norm_end(s.spec_bytes(), range.start as int, range.end as int),
        r.start <= r.end <= s.spec_bytes().len(),
        is_char_boundary(s.spec_bytes(), r.start as int),
        is_char_boundary(s.spec_bytes(), r.end as int),
{
    proof {
        vstd::utf8::encode_utf8_valid_utf8(s@);
    }
    let ghost bytes = s.spec_bytes();
    let len = s.len();
    let mut start = if range.start > len {
        len
    } else {
        range.start
    };
    let mut end = if range.end > len {
        len
    } else {
        range.end
    };
    if start > end {
        let t = start;
        start = end;
        end = t;
    }
    proof {
        lemma_snap_down_props(bytes, start as int);
        lemma_snap_up_props(bytes, end as int);
        lemma_snap_down_maximal(bytes, end as int, snap_down(bytes, start as int));
    }
    while start > 0 && !s.is_char_boundary(start)
        invariant
            valid_utf8(bytes),
            bytes == s.spec_bytes(),
            0 <= start <= bytes.len(),
            snap_down(bytes, start as int) == spec_norm_start(
                bytes,
                range.start as int,
                range.end as int,
            ),
        decreases start,
    {
        start = start - 1;
    }
    while end < len && !s.is_char_boundary(end)
        invariant
            valid_utf8(bytes),
            bytes == s.spec_bytes(),
            len == bytes.len(),
            0 <= end <= len,
            snap_up(bytes, end as int) == spec_norm_end(
                bytes,
                range.start as int,
                range.end as int,
            ),
        decreases len - end,
    {
        end = end + 1;
    }
    proof {
        vstd::utf8::is_char_boundary_start_end_of_seq(bytes);
    }
    start..end
}

} // verus!
