use bytes::BytesMut;
use resp_codec::frame::Frame;
use resp_codec::frame::FrameValue;
use resp_codec::numbers::int_len;

#[test]
fn frame_test_int_len() {
    let i: i64 = 43;
    assert_eq!(int_len(i), 2);

    let i: i64 = 100_243;
    assert_eq!(int_len(i), 6);

    let i: i64 = -34_492;
    assert_eq!(int_len(i), 6);

    let i: i64 = 0;
    assert_eq!(int_len(i), 1);

    let i: i64 = -1;
    assert_eq!(int_len(i), 2);
}

#[test]
fn frame_test_simple_string_type() {
    let mut decoder = Frame;

    let mut buffer = BytesMut::from("+Simple String\r\n");
    let expected_len = buffer.len();

    let result = decoder.decode(&mut buffer);
    let result = result.unwrap().unwrap();

    assert_eq!(result.len(), expected_len);
    assert_eq!(result, FrameValue::SimpleString("Simple String".into()));
}

#[test]
fn frame_test_error_type() {
    let mut decoder = Frame;

    let mut buffer = BytesMut::from("-Error\r\n");
    let expected_len = buffer.len();

    let result = decoder.decode(&mut buffer);
    let result = result.unwrap().unwrap();

    assert_eq!(result.len(), expected_len);
    assert_eq!(result, FrameValue::Error("Error".into()));
}

#[test]
fn frame_test_integer_type() {
    let mut decoder = Frame;

    let mut buffer = BytesMut::from(":1334\r\n");
    let expected_len = buffer.len();

    let result = decoder.decode(&mut buffer);
    let result = result.unwrap().unwrap();

    assert_eq!(result.len(), expected_len);
    assert_eq!(result, FrameValue::Integer(1334));
}

#[test]
fn frame_test_bulk_string_type() {
    let mut decoder = Frame;

    let mut buffer = BytesMut::from("$5\r\nHello\r\n");
    let expected_len = buffer.len();

    let result = decoder.decode(&mut buffer);
    let result = result.unwrap().unwrap();

    assert_eq!(result.len(), expected_len);
    assert_eq!(result, FrameValue::BulkString("Hello".into()));
}

#[test]
fn frame_test_array_type() {
    let mut decoder = Frame;

    let mut buffer = BytesMut::from("*2\r\n*3\r\n:1\r\n:2\r\n:3\r\n*2\r\n+Hello\r\n-World\r\n");
    let expected_len = buffer.len();

    let result = decoder.decode(&mut buffer);
    let result = result.unwrap().unwrap();

    let expected_result = FrameValue::Array(vec![
        FrameValue::Array(vec![
            FrameValue::Integer(1),
            FrameValue::Integer(2),
            FrameValue::Integer(3),
        ]),
        FrameValue::Array(vec![
            FrameValue::SimpleString("Hello".into()),
            FrameValue::Error("World".into()),
        ]),
    ]);

    assert_eq!(expected_result.len(), expected_len);
    assert_eq!(result, expected_result);
}

#[test]
fn test_encoder() {
    let mut encoder = Frame;

    let frame = FrameValue::Array(vec![
        FrameValue::Array(vec![
            FrameValue::Integer(1),
            FrameValue::Integer(2),
            FrameValue::Integer(3),
        ]),
        FrameValue::Array(vec![
            FrameValue::SimpleString("Hello".into()),
            FrameValue::Error("World".into()),
        ]),
    ]);

    let mut buffer = BytesMut::new();
    encoder.encode(frame, &mut buffer).unwrap();

    let val = b"*2\r\n*3\r\n:1\r\n:2\r\n:3\r\n*2\r\n+Hello\r\n-World\r\n";
    assert_eq!(buffer.as_ref(), val);
}
