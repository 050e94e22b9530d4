//! Offset codec between native byte offsets and 16-bit code unit offsets.
//!
//! Host input-method and accessibility protocols address text in fixed
//! 16-bit units while the buffer addresses it in UTF-8 bytes. In UTF-8, a
//! character costs one 16-bit unit when its encoding is 1-3 bytes long and
//! two units when it is 4 bytes long (a supplementary-plane character), so
//! the unit count of a prefix can be read off the leading bytes alone: a
//! leading byte at or above 0xF0 contributes two units, any other leading
//! byte one, and continuation bytes nothing.

use std::ops::Range;
use vstd::prelude::*;
use vstd::string::StringSliceAdditionalSpecFns;
use vstd::utf8::{is_char_boundary, is_continuation_byte, valid_utf8};

use crate::boundary::clamp_len;
use crate::state::lemma_boundary_from_byte;

verus! {

/// 16-bit units contributed by one byte of a UTF-8 encoding.
pub open spec fn utf16_units(b: u8) -> int {
    if is_continuation_byte(b) {
        0
    } else if b >= 0xf0 {
        2
    } else {
        1
    }
}

/// 16-bit length of the first `i` bytes of `s`.
pub open spec fn utf16_len_prefix(s: Seq<u8>, i: int) -> int
    decreases i,
{
    if i <= 0 {
        0
    } else {
        utf16_len_prefix(s, i - 1) + utf16_units(s[i - 1])
    }
}

/// The scan behind `offset_from_utf16`: starting at byte `i` having already
/// counted `acc` units, the byte offset of the first character boundary at
/// which at least `t` units have been counted, or the text length.
pub open spec fn spec_from_utf16_scan(s: Seq<u8>, i: int, acc: int, t: int) -> int
    decreases s.len() - i,
{
    if i >= s.len() {
        s.len() as int
    } else if is_continuation_byte(s[i]) {
        spec_from_utf16_scan(s, i + 1, acc, t)
    } else if acc >= t {
        i
    } else {
        spec_from_utf16_scan(s, i + 1, acc + utf16_units(s[i]), t)
    }
}

/// 16-bit offset of the (clamped) byte offset `o`: the 16-bit length of
/// everything strictly before it.
pub open spec fn spec_offset_to_utf16(s: Seq<u8>, o: int) -> int {
    utf16_len_prefix(s, clamp_len(s, o))
}

/// Byte offset of the first character boundary at or after `t` 16-bit
/// units, or the text length when `t` exceeds the total 16-bit length.
pub open spec fn spec_offset_from_utf16(s: Seq<u8>, t: int) -> int {
    spec_from_utf16_scan(s, 0, 0, t)
}

/// Per-byte unit counts are non-negative, so prefix lengths grow
/// monotonically; a leading byte strictly grows them.
proof fn lemma_prefix_mono(s: Seq<u8>, i: int, j: int)
    requires
        0 <= i <= j,
    ensures
        utf16_len_prefix(s, i) <= utf16_len_prefix(s, j),
        i < j && !is_continuation_byte(s[i]) ==> utf16_len_prefix(s, i) + utf16_units(s[i])
            <= utf16_len_prefix(s, j),
    decreases j,
{
    if i < j {
        lemma_prefix_mono(s, i, j - 1);
    }
}

/// Counts 16-bit code units for all characters strictly before `offset`
/// (clamped to the text length). Total and monotonic in `offset`.
pub fn offset_to_utf16(text: &str, offset: usize) -> (r: usize)
    requires
        text.spec_bytes().len() * 2 <= usize::MAX,
    ensures
        r == spec_offset_to_utf16(text.spec_bytes(), offset as int),
{
    let bytes = text.as_bytes();
    let len = bytes.len();
    let j = if offset > len {
        len
    } else {
        offset
    };
    let mut i: usize = 0;
    let mut count: usize = 0;
    while i < j
        invariant
            bytes@ == text.spec_bytes(),
            len == bytes@.len(),
            len * 2 <= usize::MAX,
            0 <= i <= j <= len,
            count == utf16_len_prefix(bytes@, i as int),
            count <= 2 * i,
        decreases j - i,
    {
        let b = bytes[i];
        if !(b >= 0x80 && b < 0xc0) {
            if b >= 0xf0 {
                count = count + 2;
            } else {
                count = count + 1;
            }
        }
        i = i + 1;
    }
    count
}

/// Scans characters from the start, accumulating 16-bit unit counts, and
/// returns the byte offset of the first character boundary at or after
/// `offset16` units — the text length when `offset16` exceeds the total.
pub fn offset_from_utf16(text: &str, offset16: usize) -> (r: usize)
    ensures
        r == spec_offset_from_utf16(text.spec_bytes(), offset16 as int),
        is_char_boundary(text.spec_bytes(), r as int),
        r <= text.spec_bytes().len(),
{
    proof {
        vstd::utf8::encode_utf8_valid_utf8(text@);
    }
    let bytes = text.as_bytes();
    let len = bytes.len();
    let target = offset16 as u128;
    let mut i: usize = 0;
    let mut count: u128 = 0;
    while i < len
        invariant
            valid_utf8(bytes@),
            bytes@ == text.spec_bytes(),
            len == bytes@.len(),
            0 <= i <= len,
            count == utf16_len_prefix(bytes@, i as int),
            count <= 2 * (i as u128),
            target == offset16 as int,
            spec_from_utf16_scan(bytes@, i as int, count as int, offset16 as int)
                == spec_offset_from_utf16(bytes@, offset16 as int),
        decreases len - i,
    {
        let b = bytes[i];
        if !(b >= 0x80 && b < 0xc0) {
            if count >= target {
                proof {
                    lemma_boundary_from_byte(bytes@, i as int);
                }
                return i;
            }
            if b >= 0xf0 {
                count = count + 2;
            } else {
                count = count + 1;
            }
        }
        i = i + 1;
    }
    proof {
        vstd::utf8::is_char_boundary_start_end_of_seq(bytes@);
    }
    len
}

/// Applies `offset_to_utf16` to both ends of a byte range.
pub fn range_to_utf16(text: &str, range: &Range<usize>) -> (r: Range<usize>)
    requires
        text.spec_bytes().len() * 2 <= usize::MAX,
    ensures
        r.start == spec_offset_to_utf16(text.spec_bytes(), range.start as int),
        r.end == spec_offset_to_utf16(text.spec_bytes(), range.end as int),
{
    offset_to_utf16(text, range.start)..offset_to_utf16(text, range.end)
}

/// Applies `offset_from_utf16` to both ends of a 16-bit unit range.
pub fn range_from_utf16(text: &str, range_utf16: &Range<usize>) -> (r: Range<usize>)
    ensures
        r.start == spec_offset_from_utf16(text.spec_bytes(), range_utf16.start as int),
        r.end == spec_offset_from_utf16(text.spec_bytes(), range_utf16.end as int),
{
    offset_from_utf16(text, range_utf16.start)..offset_from_utf16(text, range_utf16.end)
}

/// Law: converting byte offsets to 16-bit offsets preserves order.
pub proof fn lemma_to_utf16_monotonic(s: Seq<u8>, o1: int, o2: int)
    requires
        o1 <= o2,
    ensures
        spec_offset_to_utf16(s, o1) <= spec_offset_to_utf16(s, o2),
{
    let a = clamp_len(s, o1);
    let b = clamp_len(s, o2);
    if b <= 0 {
    } else if a <= 0 {
        lemma_prefix_mono(s, 0, b);
    } else {
        lemma_prefix_mono(s, a, b);
    }
}

/// The scan agrees with the prefix count: starting at `i` with the prefix
/// count of `i`, it runs to exactly the boundary `o` whose prefix count was
/// requested.
proof fn lemma_scan_reaches(s: Seq<u8>, i: int, o: int)
    requires
        valid_utf8(s),
        0 <= i <= o <= s.len(),
        is_char_boundary(s, o),
    ensures
        spec_from_utf16_scan(s, i, utf16_len_prefix(s, i), utf16_len_prefix(s, o)) == o,
    decreases o - i,
{
    let t = utf16_len_prefix(s, o);
    if i == o {
        if i < s.len() {
            lemma_boundary_from_byte(s, o);
        }
    } else {
        if is_continuation_byte(s[i]) {
        } else {
            // A leading byte strictly grows the count, so the scan cannot
            // stop before `o`.
            lemma_prefix_mono(s, i, o);
        }
        lemma_scan_reaches(s, i + 1, o);
    }
}

/// Past the last counted unit the scan can never stop early.
proof fn lemma_scan_runs_out(s: Seq<u8>, i: int, t: int)
    requires
        0 <= i <= s.len(),
        utf16_len_prefix(s, s.len() as int) < t,
    ensures
        spec_from_utf16_scan(s, i, utf16_len_prefix(s, i), t) == s.len(),
    decreases s.len() - i,
{
    if i < s.len() {
        lemma_prefix_mono(s, i, s.len() as int);
        lemma_scan_runs_out(s, i + 1, t);
    }
}

/// Law: a 16-bit offset beyond the text's total 16-bit length maps to the
/// text's end.
pub proof fn lemma_from_utf16_past_end(s: Seq<u8>, t: int)
    requires
        utf16_len_prefix(s, s.len() as int) < t,
    ensures
        spec_offset_from_utf16(s, t) == s.len(),
{
    lemma_scan_runs_out(s, 0, t);
}

/// Law: converting a character-boundary byte offset to 16-bit units and
/// back returns the same offset.
pub proof fn lemma_utf16_round_trip(s: Seq<u8>, o: int)
    requires
        valid_utf8(s),
        0 <= o <= s.len(),
        is_char_boundary(s, o),
    ensures
        spec_offset_from_utf16(s, spec_offset_to_utf16(s, o)) == o,
{
    lemma_scan_reaches(s, 0, o);
}

} // verus!
