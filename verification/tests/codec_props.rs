use bytes::BytesMut;
use resp_codec::are_equal;
use resp_codec::frame::Frame;
use resp_codec::frame::FrameError;
use resp_codec::frame::FrameValue;
use resp_codec::numbers::int_len;

const MAX: usize = 8 * 1024 * 1024;

#[test]
fn round_trip_scalar_frames() {
    let frames = vec![
        FrameValue::SimpleString("OK".into()),
        FrameValue::Error("ERR wrong type".into()),
        FrameValue::Integer(0),
        FrameValue::Integer(-1),
        FrameValue::Integer(i64::MAX),
        FrameValue::Integer(i64::MIN),
        FrameValue::BulkString("Hello".into()),
        FrameValue::NullBulkString,
        FrameValue::NullBulkArray,
    ];
    for frame in frames {
        let expected_len = frame.len();
        let mut codec = Frame;
        let mut buffer = BytesMut::new();
        let copy = clone_frame(&frame);
        codec.encode(frame, &mut buffer).unwrap();
        assert_eq!(buffer.len(), expected_len);
        let decoded = codec.decode(&mut buffer).unwrap().unwrap();
        assert_eq!(decoded, copy);
        assert_eq!(buffer.len(), 0);
    }
}

fn clone_frame(f: &FrameValue) -> FrameValue {
    match f {
        FrameValue::SimpleString(b) => FrameValue::SimpleString(b.clone()),
        FrameValue::BulkString(b) => FrameValue::BulkString(b.clone()),
        FrameValue::Error(b) => FrameValue::Error(b.clone()),
        FrameValue::Integer(i) => FrameValue::Integer(*i),
        FrameValue::Array(els) => FrameValue::Array(els.iter().map(clone_frame).collect()),
        FrameValue::NullBulkString => FrameValue::NullBulkString,
        FrameValue::NullBulkArray => FrameValue::NullBulkArray,
    }
}

#[test]
fn round_trip_binary_bulk_payload() {
    // A bulk string is length delimited, so its payload may hold the
    // terminator bytes themselves.
    let payload: &[u8] = b"a\r\nb\0c\rd\ne";
    let frame = FrameValue::BulkString(payload.into());
    let mut codec = Frame;
    let mut buffer = BytesMut::new();
    codec.encode(frame, &mut buffer).unwrap();
    assert_eq!(buffer.as_ref(), b"$10\r\na\r\nb\0c\rd\ne\r\n");
    let decoded = codec.decode(&mut buffer).unwrap().unwrap();
    assert_eq!(decoded, FrameValue::BulkString(payload.into()));
    assert_eq!(buffer.len(), 0);
}

#[test]
fn incompleteness_and_split_independence() {
    let encoding = b"*2\r\n$3\r\nabc\r\n:-42\r\n";
    // Every strict prefix is incomplete and consumes nothing.
    for k in 0..encoding.len() {
        let mut codec = Frame;
        let mut buffer = BytesMut::from(&encoding[..k]);
        let result = codec.decode(&mut buffer).unwrap();
        assert!(result.is_none());
        assert_eq!(buffer.len(), k);
    }
    // Feeding the remaining suffix afterward yields the same frame as
    // decoding the whole buffer at once.
    let expected = FrameValue::Array(vec![
        FrameValue::BulkString("abc".into()),
        FrameValue::Integer(-42),
    ]);
    let split = 7;
    let mut codec = Frame;
    let mut buffer = BytesMut::from(&encoding[..split]);
    assert!(codec.decode(&mut buffer).unwrap().is_none());
    buffer.extend_from_slice(&encoding[split..]);
    let decoded = codec.decode(&mut buffer).unwrap().unwrap();
    assert_eq!(decoded, expected);
    assert_eq!(buffer.len(), 0);
}

#[test]
fn lone_cr_at_tail_is_incomplete() {
    let mut codec = Frame;
    let mut buffer = BytesMut::from("+status\r");
    assert!(codec.decode(&mut buffer).unwrap().is_none());
    buffer.extend_from_slice(b"\n");
    let decoded = codec.decode(&mut buffer).unwrap().unwrap();
    assert_eq!(decoded, FrameValue::SimpleString("status".into()));
}

#[test]
fn empty_buffer_is_incomplete() {
    let mut codec = Frame;
    let mut buffer = BytesMut::new();
    assert!(codec.decode(&mut buffer).unwrap().is_none());
}

#[test]
fn decode_consumes_only_one_frame() {
    let mut codec = Frame;
    let mut buffer = BytesMut::from("+a\r\n:5\r\n");
    let first = codec.decode(&mut buffer).unwrap().unwrap();
    assert_eq!(first, FrameValue::SimpleString("a".into()));
    assert_eq!(buffer.as_ref(), b":5\r\n");
    let second = codec.decode(&mut buffer).unwrap().unwrap();
    assert_eq!(second, FrameValue::Integer(5));
    assert_eq!(buffer.len(), 0);
}

#[test]
fn null_sentinels_round_trip_to_identical_bytes() {
    let mut codec = Frame;

    let mut buffer = BytesMut::from("$-1\r\n");
    let decoded = codec.decode(&mut buffer).unwrap().unwrap();
    assert_eq!(decoded, FrameValue::NullBulkString);
    assert_eq!(buffer.len(), 0);
    let mut out = BytesMut::new();
    codec.encode(FrameValue::NullBulkString, &mut out).unwrap();
    assert_eq!(out.as_ref(), b"$-1\r\n");

    let mut buffer = BytesMut::from("*-1\r\n");
    let decoded = codec.decode(&mut buffer).unwrap().unwrap();
    assert_eq!(decoded, FrameValue::NullBulkArray);
    assert_eq!(buffer.len(), 0);
    let mut out = BytesMut::new();
    codec.encode(FrameValue::NullBulkArray, &mut out).unwrap();
    assert_eq!(out.as_ref(), b"*-1\r\n");
}

#[test]
fn unknown_marker_is_rejected_immediately() {
    let mut codec = Frame;
    let mut buffer = BytesMut::from("!");
    let err = codec.decode(&mut buffer).unwrap_err();
    assert_eq!(err, FrameError::UnknownStartingByte);
}

#[test]
fn non_numeric_field_is_int_parse_failure() {
    let mut codec = Frame;
    let mut buffer = BytesMut::from(":12a\r\n");
    assert_eq!(codec.decode(&mut buffer).unwrap_err(), FrameError::IntParseFailure);

    let mut buffer = BytesMut::from("$x\r\n");
    assert_eq!(codec.decode(&mut buffer).unwrap_err(), FrameError::IntParseFailure);

    let mut buffer = BytesMut::from(":-\r\n");
    assert_eq!(codec.decode(&mut buffer).unwrap_err(), FrameError::IntParseFailure);

    let mut buffer = BytesMut::from(":9223372036854775808\r\n");
    assert_eq!(codec.decode(&mut buffer).unwrap_err(), FrameError::IntParseFailure);
}

#[test]
fn integer_bounds_and_leading_zeros() {
    let mut codec = Frame;
    let mut buffer = BytesMut::from(":9223372036854775807\r\n");
    assert_eq!(codec.decode(&mut buffer).unwrap().unwrap(), FrameValue::Integer(i64::MAX));

    let mut buffer = BytesMut::from(":-9223372036854775808\r\n");
    assert_eq!(codec.decode(&mut buffer).unwrap().unwrap(), FrameValue::Integer(i64::MIN));

    let mut buffer = BytesMut::from(":0043\r\n");
    assert_eq!(codec.decode(&mut buffer).unwrap().unwrap(), FrameValue::Integer(43));
}

#[test]
fn negative_length_is_rejected_regardless_of_completeness() {
    let mut codec = Frame;
    let mut buffer = BytesMut::from("$-2\r\n");
    assert_eq!(codec.decode(&mut buffer).unwrap_err(), FrameError::BadBulkStringSize(-2));

    let mut buffer = BytesMut::from("*-2\r\n");
    assert_eq!(codec.decode(&mut buffer).unwrap_err(), FrameError::BadBulkArraySize(-2));
}

#[test]
fn bulk_string_without_terminator_is_rejected() {
    let mut codec = Frame;
    let mut buffer = BytesMut::from("$3\r\nabcXY");
    assert_eq!(codec.decode(&mut buffer).unwrap_err(), FrameError::BadBulkStringSize(3));
}

#[test]
fn oversize_declared_lengths_are_rejected_on_decode() {
    let mut codec = Frame;
    let mut buffer = BytesMut::from("$9000000\r\n");
    assert_eq!(codec.decode(&mut buffer).unwrap_err(), FrameError::FrameTooLarge);

    let mut buffer = BytesMut::from("*3000000\r\n");
    assert_eq!(codec.decode(&mut buffer).unwrap_err(), FrameError::FrameTooLarge);
}

#[test]
fn oversize_frame_is_rejected_before_any_byte_is_written() {
    let mut codec = Frame;
    let payload = vec![0u8; MAX + 1];
    let frame = FrameValue::BulkString(payload.into());
    let mut out = BytesMut::new();
    let err = codec.encode(frame, &mut out).unwrap_err();
    assert_eq!(err, FrameError::FrameTooLarge);
    assert_eq!(out.len(), 0);
}

#[test]
fn int_len_matches_encoded_digits() {
    assert_eq!(int_len(i64::MAX), 19);
    assert_eq!(int_len(i64::MIN), 20);
    assert_eq!(int_len(9), 1);
    assert_eq!(int_len(10), 2);
    assert_eq!(int_len(-10), 3);
}

#[test]
fn are_equal_ignores_ascii_case() {
    assert!(are_equal(b"PING", b"ping"));
    assert!(are_equal(b"PiNg", b"pInG"));
    assert!(!are_equal(b"PING", b"PONG"));
    assert!(!are_equal(b"PING", b"PINGS"));
    assert!(are_equal(b"", b""));
}

#[test]
fn empty_array_and_empty_bulk_are_distinct_from_nulls() {
    let mut codec = Frame;
    let mut buffer = BytesMut::from("*0\r\n");
    assert_eq!(codec.decode(&mut buffer).unwrap().unwrap(), FrameValue::Array(vec![]));

    let mut buffer = BytesMut::from("$0\r\n\r\n");
    assert_eq!(codec.decode(&mut buffer).unwrap().unwrap(), FrameValue::BulkString("".into()));

    let mut out = BytesMut::new();
    codec.encode(FrameValue::Array(vec![]), &mut out).unwrap();
    assert_eq!(out.as_ref(), b"*0\r\n");
}

#[test]
fn peer_close_decision() {
    let codec = Frame;
    assert_eq!(codec.on_peer_closed(0), None);
    assert_eq!(codec.on_peer_closed(3), Some(FrameError::UnexpectedEnd));
}
