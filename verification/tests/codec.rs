use zeno_editor::codec::{offset_from_utf16, offset_to_utf16, range_from_utf16, range_to_utf16};

// "a" is 1 byte / 1 unit, the euro sign 3 bytes / 1 unit, the emoji
// 4 bytes / 2 units, "b" 1 byte / 1 unit.
const SAMPLE: &str = "a\u{20ac}\u{1f600}b";

#[test]
fn counts_utf16_units_before_each_boundary() {
    assert_eq!(offset_to_utf16(SAMPLE, 0), 0);
    assert_eq!(offset_to_utf16(SAMPLE, 1), 1);
    assert_eq!(offset_to_utf16(SAMPLE, 4), 2);
    assert_eq!(offset_to_utf16(SAMPLE, 8), 4);
    assert_eq!(offset_to_utf16(SAMPLE, 9), 5);
}

#[test]
fn clamps_offsets_beyond_the_text() {
    assert_eq!(offset_to_utf16(SAMPLE, 100), 5);
    assert_eq!(offset_from_utf16(SAMPLE, 100), SAMPLE.len());
    assert_eq!(offset_to_utf16("", 3), 0);
    assert_eq!(offset_from_utf16("", 3), 0);
}

#[test]
fn finds_byte_offset_for_each_utf16_offset() {
    assert_eq!(offset_from_utf16(SAMPLE, 0), 0);
    assert_eq!(offset_from_utf16(SAMPLE, 1), 1);
    assert_eq!(offset_from_utf16(SAMPLE, 2), 4);
    assert_eq!(offset_from_utf16(SAMPLE, 4), 8);
    assert_eq!(offset_from_utf16(SAMPLE, 5), 9);
}

#[test]
fn mid_surrogate_offset_snaps_to_next_boundary() {
    // 3 units land inside the emoji's surrogate pair; the scan returns the
    // first boundary at which at least 3 units have been seen.
    assert_eq!(offset_from_utf16(SAMPLE, 3), 8);
}

#[test]
fn round_trips_every_character_boundary() {
    for o in 0..=SAMPLE.len() {
        if SAMPLE.is_char_boundary(o) {
            assert_eq!(offset_from_utf16(SAMPLE, offset_to_utf16(SAMPLE, o)), o);
        }
    }
}

#[test]
fn converts_ranges_endpoint_by_endpoint() {
    assert_eq!(range_to_utf16(SAMPLE, &(1..8)), 1..4);
    assert_eq!(range_from_utf16(SAMPLE, &(1..4)), 1..8);
    assert_eq!(range_to_utf16(SAMPLE, &(0..0)), 0..0);
}

#[test]
fn to_utf16_is_monotonic_over_all_offsets() {
    let mut last = 0;
    for o in 0..=SAMPLE.len() + 2 {
        let u = offset_to_utf16(SAMPLE, o);
        assert!(u >= last);
        last = u;
    }
}
