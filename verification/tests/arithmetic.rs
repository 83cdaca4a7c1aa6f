//! Tests for the capacity arithmetic: segment sizes, cumulative capacities,
//! and the integer base-2 logarithm used to locate a segment.

use segmented_array::{capacity_for_segment_count, log2i, slots_in_segment, MAX_SEGMENT_COUNT};

#[test]
fn test_slots_in_segment() {
    // values are simply capacity_for_segment_count() plus 64 but there
    // should be a test for this function regardless of its simplicity
    let expected_values: [u64; 27] = [
        64, 128, 256, 512, 1024, 2048, 4096, 8192, 16384, 32768, 65536, 131072, 262144, 524288,
        1048576, 2097152, 4194304, 8388608, 16777216, 33554432, 67108864, 134217728, 268435456,
        536870912, 1073741824, 2147483648, 4294967296,
    ];
    assert_eq!(expected_values.len(), MAX_SEGMENT_COUNT + 1);
    for segment in 0..=MAX_SEGMENT_COUNT {
        assert_eq!(expected_values[segment], slots_in_segment(segment));
    }
}

#[test]
fn test_capacity_for_segment_count() {
    //
    // 26 segments with 6 skipped segments can hold 4,294,967,232 items, aka
    // capacity_for_segment_count(26)
    //
    let expected_values: [u64; 27] = [
        0, 64, 192, 448, 960, 1984, 4032, 8128, 16320, 32704, 65472, 131008, 262080, 524224,
        1048512, 2097088, 4194240, 8388544, 16777152, 33554368, 67108800, 134217664, 268435392,
        536870848, 1073741760, 2147483584, 4294967232,
    ];
    assert_eq!(expected_values.len(), MAX_SEGMENT_COUNT + 1);
    for count in 0..=MAX_SEGMENT_COUNT {
        assert_eq!(expected_values[count], capacity_for_segment_count(count));
    }
}

#[test]
fn test_log2i() {
    assert_eq!(log2i(0), -1);
    assert_eq!(log2i(1), 0);
    assert_eq!(log2i(2), 1);
    assert_eq!(log2i(4), 2);
    assert_eq!(log2i(11), 3);
    assert_eq!(log2i(64), 6);
    assert_eq!(log2i(192), 7);
    assert_eq!(log2i(448), 8);
    assert_eq!(log2i(960), 9);
    assert_eq!(log2i(1984), 10);
    assert_eq!(log2i(4032), 11);
    assert_eq!(log2i(8128), 12);
    assert_eq!(log2i(16320), 13);
    assert_eq!(log2i(32704), 14);
    assert_eq!(log2i(65472), 15);
    assert_eq!(log2i(131008), 16);
    assert_eq!(log2i(262080), 17);
    assert_eq!(log2i(524224), 18);
    assert_eq!(log2i(1048512), 19);
    assert_eq!(log2i(2097088), 20);
    assert_eq!(log2i(4194240), 21);
    assert_eq!(log2i(8388544), 22);
    assert_eq!(log2i(16777152), 23);
    assert_eq!(log2i(33554368), 24);
    assert_eq!(log2i(67108800), 25);
    assert_eq!(log2i(134217664), 26);
    assert_eq!(log2i(268435392), 27);
    assert_eq!(log2i(536870848), 28);
    assert_eq!(log2i(1073741760), 29);
    assert_eq!(log2i(2147483584), 30);
    assert_eq!(log2i(4294967232), 31);
}

#[test]
fn prop_segment_arithmetic_anchors() {
    // capacities anchor at 0, 64 and the ceiling, and each segment's size is
    // the difference of consecutive cumulative capacities
    assert_eq!(capacity_for_segment_count(0), 0);
    assert_eq!(capacity_for_segment_count(1), 64);
    assert_eq!(capacity_for_segment_count(26), 4_294_967_232);
    for seg in 0..MAX_SEGMENT_COUNT {
        assert_eq!(
            slots_in_segment(seg),
            capacity_for_segment_count(seg + 1) - capacity_for_segment_count(seg)
        );
    }
}
