//! A growable array that stores its elements in a fixed table of progressively
//! larger fixed-size segments instead of one reallocating buffer, so elements
//! never move once appended.
//!
//! The layout: a table of at most 26 segments, where segment `s` holds
//! `64 * 2^s` element slots, for a total capacity of 4,294,967,232 elements.
//! Growth allocates exactly one new segment and never copies existing
//! elements, so a reference to an element stays valid until that element is
//! removed.

pub mod addressing;
pub mod array;

pub use addressing::capacity_for_segment_count;
pub use addressing::log2i;
pub use addressing::segment_for_index;
pub use addressing::slots_in_segment;
pub use addressing::MAX_CAPACITY;
pub use addressing::MAX_SEGMENT_COUNT;
pub use array::SegArrayIntoIter;
pub use array::SegArrayIter;
pub use array::SegmentedArray;
