use tuzi_proxy::stream::{CompareResult, ReaderBuffer};

#[test]
fn test_nom_streaming() {
    let rb = ReaderBuffer::from_bytes(b"hello world".to_vec());
    assert_eq!(rb.take(3).compare(b"hello"), CompareResult::Incomplete);
    assert_eq!(rb.take(5).compare(b"hello"), CompareResult::Matched);
    assert_eq!(rb.take(5).compare(b"help"), CompareResult::Error);
}

use tuzi_proxy::stream::TakeDirection;

#[test]
fn views_split_the_buffer() {
    let rb = ReaderBuffer::from_bytes(b"abcdef".to_vec());
    assert!(!rb.can_compare());
    let (right, left) = rb.take_split(2);
    assert_eq!(left.compare(b"ab"), CompareResult::Matched);
    assert_eq!(right.compare(b"cdef"), CompareResult::Matched);
    assert_eq!(right.compare(b"cdefg"), CompareResult::Incomplete);
    assert_eq!(right.compare_no_case(b"CD"), CompareResult::Error);
    assert_eq!(left.compare_str("a"), CompareResult::Matched);
    assert!(left.can_compare());
    assert!(!rb.take(7).can_compare());
    let fresh = ReaderBuffer::new();
    assert!(!fresh.can_compare());
    assert_eq!(fresh.take(0).compare(b""), CompareResult::Matched);
    assert_eq!(fresh.take(0).compare(b"x"), CompareResult::Incomplete);
    let _ = TakeDirection::NotTaken;
}
