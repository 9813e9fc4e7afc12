use bytes::BytesMut;
use simple_redis::{
    extract_fixed_data, extract_simple_frame_data, find_crlf, BulkString, RespArray, RespDouble,
    RespEncode, RespError, RespFrame, RespMap, RespNull, RespSet, SimpleError, SimpleString,
};

fn bulk(b: &[u8]) -> RespFrame {
    RespFrame::BulkString(BulkString::new(b))
}

fn decode_array(buf: &mut BytesMut) -> Result<RespArray, RespError> {
    RespArray::decode(buf)
}

fn decode_map(buf: &mut BytesMut) -> Result<RespMap, RespError> {
    RespMap::decode(buf)
}

fn decode_set(buf: &mut BytesMut) -> Result<RespSet, RespError> {
    RespSet::decode(buf)
}

fn decode_double(buf: &mut BytesMut) -> Result<f64, RespError> {
    RespDouble::decode(buf).map(|d| d.0.parse::<f64>().unwrap())
}

#[test]
fn decode_test_find_crlf() {
    let buf = b"hello\r\nworld\r\n";
    let pos = find_crlf(buf, 1).unwrap();
    assert_eq!(pos, 5);
    let pos = find_crlf(buf, 2).unwrap();
    assert_eq!(pos, 12);
}

#[test]
fn mod_test_find_crlf() {
    let buf = b"hello\r\nworld\r\n";
    let pos = find_crlf(buf, 1).unwrap();
    assert_eq!(pos, 5);
    let pos = find_crlf(buf, 2).unwrap();
    assert_eq!(pos, 12);
}

#[test]
fn decode_test_extract_simple_frame_data() {
    let buf = b"+hello\r\nworld\r\n";
    let pos = extract_simple_frame_data(buf, "+").unwrap();
    assert_eq!(pos, 6);
    let buf = b"+hello\r\nworld\r\n";
    let pos = extract_simple_frame_data(buf, "-");
    assert!(pos.is_err());
}

#[test]
fn mod_test_extract_simple_frame_data() {
    let buf = b"+hello\r\nworld\r\n";
    let pos = extract_simple_frame_data(buf, "+").unwrap();
    assert_eq!(pos, 6);
    let buf = b"+hello\r\nworld\r\n";
    let pos = extract_simple_frame_data(buf, "-");
    assert!(pos.is_err());
}

#[test]
fn decode_test_extract_fixed_data() {
    let mut buf = BytesMut::from("+hello\r\nworld\r\n");
    let pos = extract_fixed_data(&mut buf, "+hello\r\n", "SimpleString");
    assert!(pos.is_ok());
    assert_eq!(&buf[..], b"world\r\n");
    let mut buf = BytesMut::from("+hello\r\nworld\r\n");
    let pos = extract_fixed_data(&mut buf, "-hello\r\n", "SimpleError");
    assert!(pos.is_err());
}

#[test]
fn mod_test_extract_fixed_data() {
    let mut buf = BytesMut::from("+hello\r\nworld\r\n");
    let pos = extract_fixed_data(&mut buf, "+hello\r\n", "SimpleString");
    assert!(pos.is_ok());
    let mut buf = BytesMut::from("+hello\r\nworld\r\n");
    let pos = extract_fixed_data(&mut buf, "-hello\r\n", "SimpleError");
    assert!(pos.is_err());
}

#[test]
fn decode_test_decode_simple_string() {
    let mut buf = BytesMut::from("+OK\r\n");
    let frame = SimpleString::decode(&mut buf).unwrap();
    assert_eq!(frame, SimpleString::new("OK"));
    buf.extend_from_slice(b"+world\r");
    let frame = SimpleString::decode(&mut buf);
    assert_eq!(frame.unwrap_err(), RespError::NotComplete);
    buf.extend_from_slice(b"\n");
    let frame = SimpleString::decode(&mut buf).unwrap();
    assert_eq!(frame, SimpleString::new("world"));
}

#[test]
fn simpe_string_test_decode_simple_string() {
    let mut buf = BytesMut::from("+OK\r\n");
    let frame = SimpleString::decode(&mut buf).unwrap();
    assert_eq!(frame, SimpleString::new("OK"));
    buf.extend_from_slice(b"+world\r");
    let frame = SimpleString::decode(&mut buf);
    assert_eq!(frame.unwrap_err(), RespError::NotComplete);
    buf.extend_from_slice(b"\n");
    let frame = SimpleString::decode(&mut buf).unwrap();
    assert_eq!(frame, SimpleString::new("world"));
}

#[test]
fn decode_test_decode_simple_error() {
    let mut buf = BytesMut::from("-Error message\r\n");
    let frame = SimpleError::decode(&mut buf).unwrap();
    assert_eq!(frame, SimpleError::new("Error message"));
}

#[test]
fn simple_error_test_decode_simple_error() {
    let mut buf = BytesMut::from("-Error message\r\n");
    let frame = SimpleError::decode(&mut buf).unwrap();
    assert_eq!(frame, SimpleError::new("Error message"));
}

#[test]
fn decode_test_decode_null() {
    let mut buf = BytesMut::from("_\r\n");
    let frame = RespNull::decode(&mut buf).unwrap();
    assert_eq!(frame, RespNull);
}

#[test]
fn null_test_decode_null() {
    let mut buf = BytesMut::from("_\r\n");
    let frame = RespNull::decode(&mut buf).unwrap();
    assert_eq!(frame, RespNull);
}

#[test]
fn decode_test_decode_null_bulk_string() {
    let mut buf = BytesMut::from("$-1\r\n");
    let frame = RespFrame::decode(&mut buf).unwrap();
    assert_eq!(frame, bulk(b""));
}

#[test]
fn decode_test_decode_integer() {
    let mut buf = BytesMut::from(":100\r\n");
    assert_eq!(RespFrame::decode(&mut buf).unwrap(), RespFrame::Integer(100));
    let mut buf = BytesMut::from(":-100\r\n");
    assert_eq!(RespFrame::decode(&mut buf).unwrap(), RespFrame::Integer(-100));
    let mut buf = BytesMut::from(":100a\r\n");
    assert!(RespFrame::decode(&mut buf).is_err());
}

#[test]
fn intenger_test_decode_integer() {
    let mut buf = BytesMut::from(":100\r\n");
    assert_eq!(RespFrame::decode(&mut buf).unwrap(), RespFrame::Integer(100));
    let mut buf = BytesMut::from(":-100\r\n");
    assert_eq!(RespFrame::decode(&mut buf).unwrap(), RespFrame::Integer(-100));
    let mut buf = BytesMut::from(":100a\r\n");
    assert!(RespFrame::decode(&mut buf).is_err());
}

#[test]
fn test_double_decode() {
    let mut buf = BytesMut::from(",12.34\r\n");
    assert_eq!(decode_double(&mut buf).unwrap(), 12.34);
    buf.extend_from_slice(b",-12.34\r\n");
    assert_eq!(decode_double(&mut buf).unwrap(), -12.34);
    buf.extend_from_slice(b",2.5e-5\r\n");
    assert_eq!(decode_double(&mut buf).unwrap(), 2.5e-5);
    buf.extend_from_slice(b",-2.5e+8\r\n");
    assert_eq!(decode_double(&mut buf).unwrap(), -2.5e+8);
}

#[test]
fn test_decode_double() {
    let mut buf = BytesMut::from(",12.34\r\n");
    assert_eq!(decode_double(&mut buf).unwrap(), 12.34);
    buf.extend_from_slice(b",-12.34\r\n");
    assert_eq!(decode_double(&mut buf).unwrap(), -12.34);
    buf.extend_from_slice(b",2.5e-5\r\n");
    assert_eq!(decode_double(&mut buf).unwrap(), 2.5e-5);
    buf.extend_from_slice(b",-2.5e+8\r\n");
    assert_eq!(decode_double(&mut buf).unwrap(), -2.5e+8);
}

#[test]
fn decode_test_decode_bool() {
    let mut buf = BytesMut::from("#t\r\n");
    assert_eq!(RespFrame::decode(&mut buf).unwrap(), RespFrame::Boolean(true));
    buf.extend_from_slice(b"#f\r\n");
    assert_eq!(RespFrame::decode(&mut buf).unwrap(), RespFrame::Boolean(false));
}

#[test]
fn boolean_test_decode_bool() {
    let mut buf = BytesMut::from("#t\r\n");
    assert_eq!(RespFrame::decode(&mut buf).unwrap(), RespFrame::Boolean(true));
    buf.extend_from_slice(b"#f\r\n");
    assert_eq!(RespFrame::decode(&mut buf).unwrap(), RespFrame::Boolean(false));
}

#[test]
fn decode_test_decode_bulk_string() {
    let mut buf = BytesMut::from("$5\r\nhello\r\n");
    assert_eq!(BulkString::decode(&mut buf).unwrap(), BulkString::new(b"hello"));
    let mut buf = BytesMut::from("$5\r\nhell\r\n");
    assert_eq!(BulkString::decode(&mut buf).unwrap_err(), RespError::NotComplete);
    let mut buf = BytesMut::from("$5\r\nhell\r");
    assert_eq!(BulkString::decode(&mut buf).unwrap_err(), RespError::NotComplete);
}

#[test]
fn bulk_string_test_decode_bulk_string() {
    let mut buf = BytesMut::from("$5\r\nhello\r\n");
    assert_eq!(BulkString::decode(&mut buf).unwrap(), BulkString::new(b"hello"));
    let mut buf = BytesMut::from("$5\r\nhell\r\n");
    assert_eq!(BulkString::decode(&mut buf).unwrap_err(), RespError::NotComplete);
    let mut buf = BytesMut::from("$5\r\nhell\r");
    assert_eq!(BulkString::decode(&mut buf).unwrap_err(), RespError::NotComplete);
}

#[test]
fn bulk_string_test_decode_null_bulk_string() {
    let mut buf = BytesMut::from("$-1\r\n");
    assert_eq!(BulkString::decode(&mut buf).unwrap(), BulkString::new(&[]));
    buf.extend_from_slice("$1\r\na\r\n".as_bytes());
    assert_eq!(BulkString::decode(&mut buf).unwrap(), BulkString::new(b"a"));
    let mut buf = BytesMut::from("$-1\r");
    assert_eq!(BulkString::decode(&mut buf).unwrap_err(), RespError::NotComplete);
    let mut buf = BytesMut::from("$-1");
    assert_eq!(BulkString::decode(&mut buf).unwrap_err(), RespError::NotComplete);
}

#[test]
fn decode_test_decode_array() {
    let mut buf = BytesMut::from("*2\r\n$3\r\nget\r\n$5\r\nhello\r\n");
    let frame = decode_array(&mut buf).unwrap();
    assert_eq!(frame, RespArray::new(vec![bulk(b"get"), bulk(b"hello")]));
    let mut buf = BytesMut::from("*2\r\n$3\r\nget\r\n$5\r\nhello\r");
    assert_eq!(decode_array(&mut buf).unwrap_err(), RespError::NotComplete);
    let mut buf = BytesMut::from("*5\r\n$3\r\nget\r\n$5\r\nhello\r\n");
    assert_eq!(decode_array(&mut buf).unwrap_err(), RespError::NotComplete);
}

#[test]
fn array_test_decode_array() {
    let mut buf = BytesMut::from("*2\r\n$3\r\nget\r\n$5\r\nhello\r\n");
    let frame = decode_array(&mut buf).unwrap();
    assert_eq!(frame, RespArray::new(vec![bulk(b"get"), bulk(b"hello")]));
    let mut buf = BytesMut::from("*2\r\n$3\r\nget\r\n$5\r\nhello\r");
    assert_eq!(decode_array(&mut buf).unwrap_err(), RespError::NotComplete);
    let mut buf = BytesMut::from("*5\r\n$3\r\nget\r\n$5\r\nhello\r\n");
    assert_eq!(decode_array(&mut buf).unwrap_err(), RespError::NotComplete);
}

#[test]
fn test_decode_null_array() {
    let mut buf = BytesMut::from("*-1\r\n");
    let frame = decode_array(&mut buf).unwrap();
    assert_eq!(frame, RespArray::new(vec![]));
    buf.extend_from_slice("*2\r\n$3\r\nget\r\n$5\r\nhello\r\n".as_bytes());
    let frame = decode_array(&mut buf).unwrap();
    assert_eq!(frame, RespArray::new(vec![bulk(b"get"), bulk(b"hello")]));
    let mut buf = BytesMut::from("*-1\r");
    assert_eq!(decode_array(&mut buf).unwrap_err(), RespError::NotComplete);
    let mut buf = BytesMut::from("*-2\r\n");
    assert_eq!(
        decode_array(&mut buf).unwrap_err(),
        RespError::InvalidFrame("Invalid Length:-2".to_string())
    );
}

#[test]
fn test_expect_length() {
    let buf = b"*2\r\n$3\r\nget\r\n$5\r\nhello\r\n";
    let len = RespFrame::expect_length(buf).unwrap();
    assert_eq!(len, buf.len());
    let buf = b"*-1\r\n";
    let len = RespFrame::expect_length(buf).unwrap();
    assert_eq!(len, buf.len());
}

#[test]
fn decode_test_decode_map() {
    let mut buf = BytesMut::from("%2\r\n+key1\r\n$3\r\nval\r\n+key2\r\n$5\r\nhello\r\n");
    let frame = decode_map(&mut buf).unwrap();
    let mut map = RespMap::new();
    map.insert("key1".to_string(), bulk(b"val"));
    map.insert("key2".to_string(), bulk(b"hello"));
    assert_eq!(frame, map);
    let mut buf = BytesMut::from("%2\r\n+key1\r\n$3\r\nval\r\n+key2\r\n$5\r\nhello\r");
    assert_eq!(decode_map(&mut buf).unwrap_err(), RespError::NotComplete);
    let mut buf = BytesMut::from("%3\r\n+key1\r\n$3\r\nval\r\n+key2\r\n$5\r\nhello\r\n");
    assert_eq!(decode_map(&mut buf).unwrap_err(), RespError::NotComplete);
}

#[test]
fn map_test_decode_map() {
    let mut buf = BytesMut::from("%2\r\n+key1\r\n$3\r\nval\r\n+key2\r\n$5\r\nhello\r\n");
    let frame = decode_map(&mut buf).unwrap();
    let mut map = RespMap::new();
    map.insert("key1".to_string(), bulk(b"val"));
    map.insert("key2".to_string(), bulk(b"hello"));
    assert_eq!(frame, map);
    let mut buf = BytesMut::from("%2\r\n+key1\r\n$3\r\nval\r\n+key2\r\n$5\r\nhello\r");
    assert_eq!(decode_map(&mut buf).unwrap_err(), RespError::NotComplete);
    let mut buf = BytesMut::from("%3\r\n+key1\r\n$3\r\nval\r\n+key2\r\n$5\r\nhello\r\n");
    assert_eq!(decode_map(&mut buf).unwrap_err(), RespError::NotComplete);
}

#[test]
fn decode_test_decode_set() {
    let mut buf = BytesMut::from("~2\r\n$3\r\nval\r\n$5\r\nhello\r\n");
    let frame = decode_set(&mut buf).unwrap();
    assert_eq!(frame, RespSet::new(vec![bulk(b"val"), bulk(b"hello")]));
    let mut buf = BytesMut::from("~2\r\n$3\r\nval\r\n$5\r\nhello\r");
    assert_eq!(decode_set(&mut buf).unwrap_err(), RespError::NotComplete);
}

#[test]
fn set_test_decode_set() {
    let mut buf = BytesMut::from("~2\r\n$3\r\nval\r\n$5\r\nhello\r\n");
    let frame = decode_set(&mut buf).unwrap();
    assert_eq!(frame, RespSet::new(vec![bulk(b"val"), bulk(b"hello")]));
    let mut buf = BytesMut::from("~2\r\n$3\r\nval\r\n$5\r\nhello\r");
    assert_eq!(decode_set(&mut buf).unwrap_err(), RespError::NotComplete);
}

#[test]
fn encode_test_encode_simple_string() {
    let frame = RespFrame::SimpleString(SimpleString::new("OK"));
    assert_eq!(frame.encode(), b"+OK\r\n");
}

#[test]
fn simpe_string_test_encode_simple_string() {
    assert_eq!(SimpleString::new("OK").encode(), b"+OK\r\n");
}

#[test]
fn encode_test_encode_simple_error() {
    let frame = RespFrame::Error(SimpleError::new("Error message"));
    assert_eq!(frame.encode(), b"-Error message\r\n");
}

#[test]
fn simple_error_test_encode_simple_error() {
    assert_eq!(SimpleError::new("Error message").encode(), b"-Error message\r\n");
}

#[test]
fn encode_test_encode_integer() {
    assert_eq!(RespFrame::Integer(100).encode(), b":+100\r\n");
    assert_eq!(RespFrame::Integer(-100).encode(), b":-100\r\n");
}

#[test]
fn intenger_test_encode_integer() {
    assert_eq!(100i64.encode(), b":+100\r\n");
    assert_eq!((-100i64).encode(), b":-100\r\n");
}

#[test]
fn encode_test_encode_bulk_string() {
    assert_eq!(bulk(b"hello").encode(), b"$5\r\nhello\r\n");
}

#[test]
fn bulk_string_test_encode_bulk_string() {
    assert_eq!(BulkString::new(b"hello").encode(), b"$5\r\nhello\r\n");
}

#[test]
fn encode_test_encode_array() {
    let frame = RespFrame::Array(RespArray::new(vec![bulk(b"get"), bulk(b"hello")]));
    assert_eq!(&frame.encode(), b"*2\r\n$3\r\nget\r\n$5\r\nhello\r\n\r\n");
}

#[test]
fn array_test_encode_array() {
    let frame = RespArray::new(vec![bulk(b"get"), bulk(b"hello")]);
    assert_eq!(&frame.encode(), b"*2\r\n$3\r\nget\r\n$5\r\nhello\r\n\r\n");
}

#[test]
fn encode_test_encode_null_bulk_string() {
    assert_eq!(bulk(b"").encode(), b"$-1\r\n");
}

#[test]
fn bulk_string_test_encode_null_bulk_string() {
    assert_eq!(BulkString::new(&[]).encode(), b"$-1\r\n");
}

#[test]
fn encode_test_encode_null() {
    assert_eq!(RespFrame::Null(RespNull).encode(), b"_\r\n");
}

#[test]
fn null_test_encode_null() {
    assert_eq!(RespNull.encode(), b"_\r\n");
}

#[test]
fn encode_test_encode_null_array() {
    assert_eq!(RespFrame::Array(RespArray::new(vec![])).encode(), b"*-1\r\n");
}

#[test]
fn array_test_encode_null_array() {
    assert_eq!(RespArray::new(vec![]).encode(), b"*-1\r\n");
}

#[test]
fn encode_test_encode_boolean() {
    assert_eq!(RespFrame::Boolean(true).encode(), b"#t\r\n");
    assert_eq!(RespFrame::Boolean(false).encode(), b"#f\r\n");
}

#[test]
fn boolean_test_encode_boolean() {
    assert_eq!(true.encode(), b"#t\r\n");
    assert_eq!(false.encode(), b"#f\r\n");
}

#[test]
fn encode_test_encode_map() {
    let mut map = RespMap::new();
    map.insert("key".to_string(), bulk(b"value"));
    map.insert("b".to_string(), RespFrame::Boolean(true));
    let frame = RespFrame::MapFrame(map);
    assert_eq!(frame.encode(), b"%2\r\n+b\r\n#t\r\n+key\r\n$5\r\nvalue\r\n");
}

#[test]
fn map_test_encode_map() {
    let mut map = RespMap::new();
    map.insert("key".to_string(), bulk(b"value"));
    map.insert("b".to_string(), RespFrame::Boolean(true));
    assert_eq!(map.encode(), b"%2\r\n+b\r\n#t\r\n+key\r\n$5\r\nvalue\r\n");
}

#[test]
fn encode_test_encode_set() {
    let mut set = RespSet::new(vec![]);
    set.push(bulk(b"hello"));
    set.push(RespFrame::Integer(100));
    set.push(bulk(b"hello"));
    let frame = RespFrame::SetFrame(set);
    assert_eq!(frame.encode(), b"~2\r\n$5\r\nhello\r\n:+100\r\n");
}

#[test]
fn set_test_encode_set() {
    let mut set = RespSet::new(vec![]);
    set.push(bulk(b"hello"));
    set.push(RespFrame::Integer(100));
    set.push(bulk(b"hello"));
    assert_eq!(set.encode(), b"~2\r\n$5\r\nhello\r\n:+100\r\n");
}

#[test]
fn double_literal_encodes_as_written() {
    let d = RespDouble::from_literal("+1.25").unwrap();
    assert_eq!(d.encode(), b",+1.25\r\n");
    assert!(RespDouble::from_literal("1.2.3").is_none());
    assert!(RespDouble::from_literal("-inf").is_some());
    assert!(RespDouble::from_literal(".5e10").is_some());
    assert!(RespDouble::from_literal(".").is_none());
}

fn round_trip(frame: RespFrame) -> (RespFrame, usize, usize) {
    let bytes = frame.encode();
    let mut buf = BytesMut::from(&bytes[..]);
    buf.extend_from_slice(b"+next\r\n");
    let back = RespFrame::decode(&mut buf).unwrap();
    (back, bytes.len(), buf.len())
}

#[test]
fn nested_frames_round_trip() {
    let mut map = RespMap::new();
    map.insert("z".to_string(), RespFrame::Integer(-7));
    map.insert("a".to_string(), RespFrame::Array(RespArray::new(vec![bulk(b"x\r\ny")])));
    let frame = RespFrame::Array(RespArray::new(vec![
        RespFrame::Array(RespArray::new(vec![RespFrame::Integer(0), RespFrame::Boolean(false)])),
        RespFrame::MapFrame(map),
        RespFrame::SetFrame(RespSet::new(vec![bulk(b"a"), RespFrame::Null(RespNull)])),
        RespFrame::Error(SimpleError::new("bad")),
        RespFrame::Double(RespDouble::from_literal("-2.5e+8").unwrap()),
    ]));
    let expected = frame.duplicate().encode();
    let (back, _, left) = round_trip(frame);
    assert_eq!(back.encode(), expected);
    assert_eq!(left, b"\r\n+next\r\n".len());
}

#[test]
fn every_prefix_is_incomplete_or_decodes() {
    let frame = RespFrame::Array(RespArray::new(vec![
        RespFrame::Array(RespArray::new(vec![bulk(b"get")])),
        bulk(b"hello"),
    ]));
    let bytes = frame.encode();
    for k in 0..=bytes.len() {
        let mut buf = BytesMut::from(&bytes[..k]);
        match RespFrame::decode(&mut buf) {
            Ok(_) => assert!(k + 2 >= bytes.len()),
            Err(e) => {
                assert_eq!(e, RespError::NotComplete, "prefix of length {}", k);
                assert_eq!(&buf[..], &bytes[..k]);
            }
        }
    }
}

#[test]
fn expect_length_of_encodings() {
    let frames = vec![
        RespFrame::Integer(i64::MIN),
        bulk(b"hello"),
        RespFrame::Array(RespArray::new(vec![bulk(b"a"), RespFrame::Integer(1)])),
        RespFrame::SetFrame(RespSet::new(vec![bulk(b"a")])),
    ];
    for f in frames {
        let is_array = matches!(f, RespFrame::Array(_));
        let bytes = f.encode();
        let expected = if is_array { bytes.len() - 2 } else { bytes.len() };
        assert_eq!(RespFrame::expect_length(&bytes).unwrap(), expected);
    }
}

#[test]
fn map_encoding_ignores_insertion_order() {
    let mut a = RespMap::new();
    a.insert("k1".to_string(), RespFrame::Integer(1));
    a.insert("k2".to_string(), RespFrame::Integer(2));
    let mut b = RespMap::new();
    b.insert("k2".to_string(), RespFrame::Integer(2));
    b.insert("k1".to_string(), RespFrame::Integer(1));
    assert_eq!(a.encode(), b.encode());
}

#[test]
fn later_map_insert_replaces_value() {
    let mut a = RespMap::new();
    a.insert("k".to_string(), RespFrame::Integer(1));
    a.insert("k".to_string(), RespFrame::Integer(2));
    assert_eq!(a.len(), 1);
    assert_eq!(a.encode(), b"%1\r\n+k\r\n:+2\r\n");
}

#[test]
fn empty_bulk_and_array_encode_as_null() {
    assert_eq!(bulk(b"").encode(), b"$-1\r\n");
    assert_eq!(RespArray::new(vec![]).encode(), b"*-1\r\n");
}

#[test]
fn integer_zero_encodes_with_plus() {
    assert_eq!(RespFrame::Integer(0).encode(), b":+0\r\n");
    assert_eq!(RespFrame::Integer(i64::MIN).encode(), b":-9223372036854775808\r\n");
}

#[test]
fn negative_lengths_are_invalid() {
    for input in ["*-2\r\n", "$-5\r\n", "%-3\r\n", "~-1\r\n", "~-12\r\n"] {
        let mut buf = BytesMut::from(input);
        match RespFrame::decode(&mut buf) {
            Err(RespError::InvalidFrame(_)) => {}
            other => panic!("{:?} gave {:?}", input, other),
        }
    }
    let mut buf = BytesMut::from("$-2\r\n");
    assert_eq!(
        RespFrame::decode(&mut buf).unwrap_err(),
        RespError::InvalidFrame("Invalid Length:-2".to_string())
    );
}

#[test]
fn boolean_other_letters_and_truncation() {
    let mut buf = BytesMut::from("#x\r\n");
    assert!(matches!(RespFrame::decode(&mut buf), Err(RespError::InvalidFrameType(_))));
    let mut buf = BytesMut::from("#t\r");
    assert_eq!(RespFrame::decode(&mut buf).unwrap_err(), RespError::NotComplete);
    let mut buf = BytesMut::from("#");
    assert_eq!(RespFrame::decode(&mut buf).unwrap_err(), RespError::NotComplete);
}

#[test]
fn malformed_inputs() {
    let mut buf = BytesMut::from("?x\r\n");
    assert!(matches!(RespFrame::decode(&mut buf), Err(RespError::InvalidFrameType(_))));
    assert_eq!(&buf[..], b"?x\r\n");
    let mut buf = BytesMut::from(":99999999999999999999\r\n");
    assert!(matches!(RespFrame::decode(&mut buf), Err(RespError::InvalidFrame(_))));
    let mut buf = BytesMut::from(",1.2.3\r\n");
    assert!(matches!(RespFrame::decode(&mut buf), Err(RespError::InvalidFrame(_))));
    let mut buf = BytesMut::from("$1\r\nab\r\n");
    assert!(matches!(RespFrame::decode(&mut buf), Err(RespError::InvalidFrame(_))));
    let mut buf = BytesMut::from("");
    assert_eq!(RespFrame::decode(&mut buf).unwrap_err(), RespError::NotComplete);
}

#[test]
fn array_trailing_crlf_is_left_for_the_next_read() {
    let mut buf = BytesMut::from("*1\r\n:+1\r\n\r\n_\r\n");
    let first = RespFrame::decode(&mut buf).unwrap();
    assert_eq!(first, RespFrame::Array(RespArray::new(vec![RespFrame::Integer(1)])));
    assert_eq!(&buf[..], b"\r\n_\r\n");
    let bytes = RespArray::new(vec![bulk(b"get"), bulk(b"hello")]).encode();
    let mut buf = BytesMut::from(&bytes[..]);
    let frame = RespArray::decode(&mut buf).unwrap();
    assert_eq!(frame, RespArray::new(vec![bulk(b"get"), bulk(b"hello")]));
    assert_eq!(&buf[..], b"\r\n");
}

#[test]
fn nested_array_takes_its_trailing_crlf() {
    let inner = RespFrame::Array(RespArray::new(vec![RespFrame::Integer(1)]));
    let outer = RespArray::new(vec![inner, RespFrame::Integer(2)]);
    let bytes = outer.encode();
    let mut buf = BytesMut::from(&bytes[..]);
    let frame = RespArray::decode(&mut buf).unwrap();
    assert_eq!(frame.0.len(), 2);
    assert_eq!(frame.0[1], RespFrame::Integer(2));
    assert_eq!(&buf[..], b"\r\n");
}

#[test]
fn invalid_utf8_line_is_decoded_lossily() {
    let mut buf = BytesMut::from(&b"+a\xffb\r\n"[..]);
    let frame = RespFrame::decode(&mut buf).unwrap();
    assert_eq!(frame, RespFrame::SimpleString(SimpleString::new("a\u{fffd}b")));
}

#[test]
fn typed_decode_rejects_other_types_without_consuming() {
    let mut buf = BytesMut::from(":1\r\n");
    assert!(matches!(SimpleString::decode(&mut buf), Err(RespError::InvalidFrameType(_))));
    assert_eq!(&buf[..], b":1\r\n");
}

#[test]
fn negative_length_detail_names_the_body() {
    let mut buf = BytesMut::from("$-12\r\n");
    assert_eq!(
        BulkString::decode(&mut buf).unwrap_err(),
        RespError::InvalidFrame("Invalid Length:-12".to_string())
    );
    let mut buf = BytesMut::from("%-3\r\n");
    assert_eq!(
        RespFrame::decode(&mut buf).unwrap_err(),
        RespError::InvalidFrame("Invalid Length:-3".to_string())
    );
}
