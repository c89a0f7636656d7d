use byte_marks::ByteMarker;
use byte_marks::InvalidPatternError;
use byte_marks::Marked;

#[test]
fn unmark_empty_buffer_is_no_result() {
    let marker = ByteMarker::new(b"sUfFiX", b"tAiL").unwrap();
    assert!(marker.unmark(b"").is_none());
}

#[test]
fn round_trip_single_payload() {
    let marker = ByteMarker::new(b"sUfFiX", b"").unwrap();
    let mut bytes = b"hello".to_vec();
    marker.mark_bytes(&mut bytes);
    assert_eq!(bytes, b"hellosUfFiX".to_vec());

    let (segments, left_over) = marker.unmark(&bytes).unwrap();
    assert_eq!(segments, vec![b"hello".to_vec()]);
    assert!(left_over.is_none());
}

#[test]
fn multi_segment_round_trip() {
    let marker = ByteMarker::new(b"sUfFiX", b"tAiL").unwrap();
    let payloads: [&[u8]; 3] = [b"a", b"bb", b"ccc"];
    let mut stream: Vec<u8> = Vec::new();
    for payload in payloads.iter() {
        let mut bytes = payload.to_vec();
        marker.mark_bytes(&mut bytes);
        stream.extend(bytes);
    }

    let (segments, left_over) = marker.unmark(&stream).unwrap();
    assert_eq!(segments.len(), 3);
    for i in 0..3 {
        assert_eq!(segments[i], payloads[i].to_vec());
    }
    assert!(left_over.is_none());
}

#[test]
fn tail_halts_before_later_bytes() {
    let marker = ByteMarker::new(b"sUfFiX", b"tAiL").unwrap();
    let buffer = b"abcsUfFiXxyztAiLmoresUfFiXdata";

    let (segments, left_over) = marker.unmark(buffer).unwrap();
    assert_eq!(segments, vec![b"abc".to_vec(), b"xyz".to_vec()]);
    assert!(left_over.is_none());
}

#[test]
fn trailing_bytes_become_remainder() {
    let marker = ByteMarker::new(b"sUfFiX", b"").unwrap();
    let input = "This issUfFiX a msgsUfFiX with interspercedsUfFiX with suffixes and finally a";

    let (segments, left_over) = marker.unmark(input.as_bytes()).unwrap();
    assert_eq!(
        segments,
        vec![b"This is".to_vec(), b" a msg".to_vec(), b" with intersperced".to_vec()]
    );
    assert_eq!(left_over.unwrap(), b" with suffixes and finally a".to_vec());
}

#[test]
fn zero_segments_distinct_from_no_result() {
    let marker = ByteMarker::new(b"sUfFiX", b"").unwrap();
    let (segments, left_over) = marker.unmark(b"no pattern here").unwrap();
    assert!(segments.is_empty());
    assert_eq!(left_over.unwrap(), b"no pattern here".to_vec());
}

#[test]
fn empty_mark_is_rejected() {
    assert!(matches!(ByteMarker::new(b"", b"x"), Err(InvalidPatternError::EmptyMark)));
    assert!(matches!(Marked::new(b"", b""), Err(InvalidPatternError::EmptyMark)));
}

#[test]
fn mark_equal_to_tail_is_rejected() {
    assert!(matches!(ByteMarker::new(b"ab", b"ab"), Err(InvalidPatternError::MarkEqualsTail)));
}

#[test]
fn duplicate_mark_byte_is_reported_with_positions() {
    match ByteMarker::new(b"aba", b"") {
        Err(InvalidPatternError::DuplicateMarkByte(byte, first, second)) => {
            assert_eq!(byte, b'a');
            assert_eq!(first, 0);
            assert_eq!(second, 2);
        }
        _ => panic!("expected a duplicate mark byte error"),
    }
}

#[test]
fn duplicate_tail_byte_is_reported_with_positions() {
    match ByteMarker::new(b"ab", b"cddc") {
        Err(InvalidPatternError::DuplicateTailByte(byte, first, second)) => {
            assert_eq!(byte, b'c');
            assert_eq!(first, 0);
            assert_eq!(second, 3);
        }
        _ => panic!("expected a duplicate tail byte error"),
    }
}

#[test]
fn all_marking_unique_finds_first_duplicate() {
    assert_eq!(byte_marks::ByteMarks::all_marking_unique(b"abc"), None);
    assert_eq!(byte_marks::ByteMarks::all_marking_unique(b"abcb"), Some((1, 3, b'b')));
    assert_eq!(byte_marks::ByteMarks::all_marking_unique(b"aabb"), Some((0, 1, b'a')));
}

#[test]
fn erase_mark_undoes_mark_bytes() {
    let marker = ByteMarker::new(b"sUfFiX", b"tAiL").unwrap();
    let mut bytes = b"data".to_vec();
    marker.mark_bytes(&mut bytes);
    assert_eq!(bytes, b"datasUfFiX".to_vec());
    marker.erase_mark(&mut bytes);
    assert_eq!(bytes, b"data".to_vec());

    marker.mark_tail(&mut bytes);
    assert_eq!(bytes, b"datatAiL".to_vec());
    marker.erase_tail(&mut bytes);
    assert_eq!(bytes, b"data".to_vec());
}

#[test]
fn concat_byte_joins_slices() {
    assert_eq!(ByteMarker::concat_byte(b"ab", b"cd"), b"abcd".to_vec());
    assert_eq!(ByteMarker::concat_byte(b"", b"cd"), b"cd".to_vec());
    assert_eq!(ByteMarker::concat_byte(b"ab", b""), b"ab".to_vec());
}

#[test]
fn default_patterns_are_documented_values() {
    assert_eq!(byte_marks::default_mark(), b"sUfFiX".to_vec());
    assert_eq!(byte_marks::default_tail(), b"tAiL".to_vec());
}
