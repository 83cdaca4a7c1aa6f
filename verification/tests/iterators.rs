//! Tests for the borrowing and consuming iterators, including early
//! abandonment of the consuming iterator with elements left across several
//! segments.

use segmented_array::SegmentedArray;

#[test]
fn test_array_iterator() {
    let inputs = [
        "one", "two", "three", "four", "five", "six", "seven", "eight", "nine",
    ];
    let mut sut: SegmentedArray<String> = SegmentedArray::new();
    for item in inputs {
        sut.push(item.to_owned());
    }
    let mut iter = sut.iter();
    let mut idx = 0;
    while let Some(elem) = iter.next() {
        assert_eq!(inputs[idx], elem);
        idx += 1;
    }
    assert_eq!(idx, inputs.len());
}

#[test]
fn test_array_intoiterator() {
    // an array that only requires a single segment
    let inputs = [
        "one", "two", "three", "four", "five", "six", "seven", "eight", "nine",
    ];
    let mut sut: SegmentedArray<String> = SegmentedArray::new();
    for item in inputs {
        sut.push(item.to_owned());
    }
    let mut iter = sut.into_iter();
    let mut idx = 0;
    while let Some(elem) = iter.next() {
        assert_eq!(inputs[idx], elem);
        idx += 1;
    }
    assert_eq!(idx, inputs.len());
    // sut.len(); // error: ownership of sut was moved
}

#[test]
fn test_array_intoiterator_drop_tiny() {
    // an array that only requires a single segment and only some need to be
    // dropped after partially iterating the values
    let inputs = [
        "one", "two", "three", "four", "five", "six", "seven", "eight", "nine",
    ];
    let mut sut: SegmentedArray<String> = SegmentedArray::new();
    for item in inputs {
        sut.push(item.to_owned());
    }
    let mut iter = sut.into_iter();
    let mut idx = 0;
    while let Some(_elem) = iter.next() {
        if idx > 2 {
            break;
        }
        idx += 1;
    }
    // implicitly drop()
}

#[test]
fn test_array_intoiterator_drop_large() {
    // by adding 512 values and iterating less than 64 times, there will be
    // values in the first segment and some in the last segment, and two
    // segments inbetween that all need to be dropped
    let mut sut: SegmentedArray<String> = SegmentedArray::new();
    for _ in 0..512 {
        let value = ulid::Ulid::generate().to_string();
        sut.push(value);
    }
    let mut iter = sut.into_iter();
    let mut idx = 0;
    while let Some(_elem) = iter.next() {
        if idx >= 30 {
            break;
        }
        idx += 1;
    }
    // implicitly drop()
}

#[test]
fn test_array_fromiterator() {
    let mut inputs: Vec<i32> = Vec::new();
    for value in 0..10_000 {
        inputs.push(value);
    }
    let sut: SegmentedArray<i32> = SegmentedArray::from_sequence(inputs);
    assert_eq!(sut.len(), 10_000);
    for idx in 0..10_000i32 {
        let maybe = sut.get(idx as u64);
        assert!(maybe.is_some(), "{idx} is none");
        let actual = maybe.unwrap();
        assert_eq!(idx, *actual);
    }
}
