use bytes::BytesMut;
use simple_redis::{
    BulkString, Command, CommandError, Echo, Get, HGet, HGetAll, HMGet, HSet, Ping, RespArray,
    RespEncode, RespFrame, SAdd, SISMember, SetValue, SimpleString, Unrecognized,
};
use std::collections::HashMap;

fn bulk(b: &[u8]) -> RespFrame {
    RespFrame::BulkString(BulkString::new(b))
}

fn decode_array(bytes: &[u8]) -> RespArray {
    let mut buf = BytesMut::from(bytes);
    match RespFrame::decode(&mut buf).unwrap() {
        RespFrame::Array(a) => a,
        other => panic!("not an array: {:?}", other),
    }
}

#[test]
fn test_echo() {
    let arr = decode_array(b"*2\r\n$4\r\necho\r\n$5\r\nhello\r\n");
    let echo = Echo::try_from(arr).unwrap();
    assert_eq!(echo.message, bulk(b"hello"));
}

#[test]
fn test_hget_from_resp_array() {
    let arr = decode_array(b"*3\r\n$4\r\nhget\r\n$3\r\nmap\r\n$5\r\nhello\r\n");
    let result = HGet::try_from(arr).unwrap();
    assert_eq!(result.key, "map");
    assert_eq!(result.field, "hello");
}

#[test]
fn test_hgetall_from_resp_array() {
    let arr = decode_array(b"*2\r\n$7\r\nhgetall\r\n$3\r\nmap\r\n");
    let result = HGetAll::try_from(arr).unwrap();
    assert_eq!(result.key, "map");
}

#[test]
fn test_hset_from_resp_array() {
    let arr = decode_array(b"*4\r\n$4\r\nhset\r\n$3\r\nmap\r\n$5\r\nhello\r\n$5\r\nworld\r\n");
    let result = HSet::try_from(arr).unwrap();
    assert_eq!(result.key, "map");
    assert_eq!(result.field, "hello");
    assert_eq!(result.value, bulk(b"world"));
}

#[test]
fn test_get_from_resp_array() {
    let arr = decode_array(b"*2\r\n$3\r\nget\r\n$5\r\nhello\r\n");
    let result = Get::try_from(arr).unwrap();
    assert_eq!(result.key, "hello");
}

#[test]
fn test_set_from_resp_array() {
    let arr = decode_array(b"*3\r\n$3\r\nset\r\n$5\r\nhello\r\n$5\r\nworld\r\n");
    let result = SetValue::try_from(arr).unwrap();
    assert_eq!(result.key, "hello");
    assert_eq!(result.value, bulk(b"world"));
}

#[test]
fn test_ping_try_from() {
    let arr = decode_array(b"*1\r\n$4\r\nping\r\n");
    let ping = Ping::try_from(arr).unwrap();
    assert_eq!(ping, Ping);
}

#[test]
fn test_ping() {
    assert_eq!(Ping::reply(), RespFrame::SimpleString(SimpleString::new("PONG")));
}

#[test]
fn sadd_parses_key_and_members() {
    let input = RespArray::new(vec![bulk(b"sadd"), bulk(b"key"), bulk(b"member")]);
    let cmd = SAdd::try_from(input).unwrap();
    assert_eq!(cmd.key, "key");
    assert_eq!(cmd.members.len(), 1);
    assert_eq!(cmd.members, vec![bulk(b"member")]);
    assert_eq!(SAdd::reply(1), RespFrame::Integer(1));
}

#[test]
fn sismember_parses_key_and_member() {
    let input = RespArray::new(vec![bulk(b"sismember"), bulk(b"key"), bulk(b"member")]);
    let cmd = SISMember::try_from(input).unwrap();
    assert_eq!(cmd.key, "key");
    assert_eq!(cmd.member, bulk(b"member"));
    assert_eq!(SISMember::reply(false), RespFrame::Integer(0));
    assert_eq!(SISMember::reply(true), RespFrame::Integer(1));
}

#[test]
fn command_names_ignore_case() {
    let input = RespArray::new(vec![bulk(b"GeT"), bulk(b"k")]);
    match Command::try_from(RespFrame::Array(input)).unwrap() {
        Command::Get(g) => assert_eq!(g.key, "k"),
        other => panic!("unexpected {:?}", other),
    }
}

#[test]
fn unknown_command_is_unrecognized() {
    let input = RespArray::new(vec![bulk(b"flushall")]);
    let cmd = Command::try_from(RespFrame::Array(input)).unwrap();
    assert_eq!(cmd, Command::Unrecognized(Unrecognized));
    assert_eq!(Unrecognized::reply(), RespFrame::SimpleString(SimpleString::new("OK")));
}

#[test]
fn command_errors() {
    let r = Command::try_from(RespFrame::Integer(1));
    assert!(matches!(r, Err(CommandError::InvalidCommand(_))));
    let r = Command::try_from(RespFrame::Array(RespArray::new(vec![RespFrame::Integer(1)])));
    assert!(matches!(r, Err(CommandError::InvalidCommand(_))));
    let r = Command::try_from(RespFrame::Array(RespArray::new(vec![bulk(b"get")])));
    assert!(matches!(r, Err(CommandError::InvalidArgument(_))));
    let r = Get::try_from(RespArray::new(vec![bulk(b"set"), bulk(b"k")]));
    assert!(matches!(r, Err(CommandError::InvalidCommand(_))));
    let r = Get::try_from(RespArray::new(vec![bulk(b"get"), bulk(&[0xff, 0xfe])]));
    assert!(matches!(r, Err(CommandError::Utf8Error(_))));
    let r = Get::try_from(RespArray::new(vec![bulk(b"get"), RespFrame::Integer(3)]));
    assert!(matches!(r, Err(CommandError::InvalidArgument(_))));
}

#[test]
fn hmget_parses_fields_and_fills_nulls() {
    let input = RespArray::new(vec![bulk(b"hmget"), bulk(b"h"), bulk(b"a"), bulk(b"b")]);
    let cmd = HMGet::try_from(input).unwrap();
    assert_eq!(cmd.key, "h");
    assert_eq!(cmd.fields, vec!["a".to_string(), "b".to_string()]);
    let reply = HMGet::reply(vec![Some(bulk(b"x")), None]);
    assert_eq!(reply.encode(), b"*2\r\n$1\r\nx\r\n_\r\n\r\n");
}

#[test]
fn hgetall_reply_is_sorted_by_field() {
    let reply = HGetAll::reply(vec![
        ("hello1".to_string(), bulk(b"world1")),
        ("hello".to_string(), bulk(b"world")),
    ]);
    let expected = RespFrame::Array(RespArray::new(vec![
        bulk(b"hello"),
        bulk(b"world"),
        bulk(b"hello1"),
        bulk(b"world1"),
    ]));
    assert_eq!(reply, expected);
}

/// A stand-in for the server's store, enough to run the request scenarios.
#[derive(Default)]
struct Store {
    map: HashMap<String, RespFrame>,
    hmap: HashMap<String, Vec<(String, RespFrame)>>,
    sets: HashMap<String, Vec<Vec<u8>>>,
}

impl Store {
    fn run(&mut self, request: &[u8]) -> Vec<u8> {
        let mut buf = BytesMut::from(request);
        let frame = RespFrame::decode(&mut buf).unwrap();
        let reply = match Command::try_from(frame).unwrap() {
            Command::Get(c) => Get::reply(self.map.get(&c.key).map(|v| clone_frame(v))),
            Command::SetValue(c) => {
                self.map.insert(c.key, c.value);
                SetValue::reply()
            }
            Command::HSet(c) => {
                let h = self.hmap.entry(c.key).or_default();
                h.retain(|(f, _)| f != &c.field);
                h.push((c.field, c.value));
                HSet::reply()
            }
            Command::HGetAll(c) => HGetAll::reply(
                self.hmap
                    .get(&c.key)
                    .map(|h| h.iter().map(|(f, v)| (f.clone(), clone_frame(v))).collect())
                    .unwrap_or_default(),
            ),
            Command::SAdd(c) => {
                let s = self.sets.entry(c.key).or_default();
                let mut added = 0;
                for m in c.members {
                    let e = m.encode();
                    if !s.contains(&e) {
                        s.push(e);
                        added += 1;
                    }
                }
                SAdd::reply(added)
            }
            Command::Ping(_) => Ping::reply(),
            Command::Echo(c) => c.reply(),
            other => panic!("not used here: {:?}", other),
        };
        reply.encode()
    }
}

fn clone_frame(f: &RespFrame) -> RespFrame {
    let mut buf = BytesMut::from(&f_encode(f)[..]);
    RespFrame::decode(&mut buf).unwrap()
}

fn f_encode(f: &RespFrame) -> Vec<u8> {
    match f {
        RespFrame::BulkString(b) => BulkString::new(&b.0).encode(),
        other => panic!("not used here: {:?}", other),
    }
}

#[test]
fn scenario_get_missing_key() {
    let mut store = Store::default();
    assert_eq!(store.run(b"*2\r\n$3\r\nget\r\n$5\r\nhello\r\n"), b"_\r\n");
}

#[test]
fn scenario_set_then_get() {
    let mut store = Store::default();
    assert_eq!(store.run(b"*3\r\n$3\r\nset\r\n$5\r\nhello\r\n$5\r\nworld\r\n"), b"+OK\r\n");
    assert_eq!(store.run(b"*2\r\n$3\r\nget\r\n$5\r\nhello\r\n"), b"$5\r\nworld\r\n");
}

#[test]
fn scenario_hset_then_hgetall() {
    let mut store = Store::default();
    assert_eq!(
        store.run(b"*4\r\n$4\r\nhset\r\n$3\r\nmap\r\n$5\r\nhello\r\n$5\r\nworld\r\n"),
        b"+OK\r\n"
    );
    assert_eq!(
        store.run(b"*2\r\n$7\r\nhgetall\r\n$3\r\nmap\r\n"),
        b"*2\r\n$5\r\nhello\r\n$5\r\nworld\r\n\r\n"
    );
}

#[test]
fn scenario_sadd_twice() {
    let mut store = Store::default();
    let req = b"*3\r\n$4\r\nsadd\r\n$3\r\nset\r\n$1\r\na\r\n";
    assert_eq!(store.run(req), b":+1\r\n");
    assert_eq!(store.run(req), b":+0\r\n");
}

#[test]
fn scenario_ping() {
    let mut store = Store::default();
    assert_eq!(store.run(b"*1\r\n$4\r\nping\r\n"), b"+PONG\r\n");
}

#[test]
fn scenario_echo() {
    let mut store = Store::default();
    assert_eq!(store.run(b"*2\r\n$4\r\necho\r\n$5\r\nhello\r\n"), b"$5\r\nhello\r\n");
}

#[test]
fn command_error_kinds_follow_the_parser() {
    let r = Command::try_from(RespFrame::Array(RespArray::new(vec![bulk(b"hget"), bulk(b"k")])));
    assert!(matches!(r, Err(CommandError::InvalidArgument(_))));
    let r = Command::try_from(RespFrame::Array(RespArray::new(vec![
        bulk(b"hset"),
        bulk(b"k"),
        RespFrame::Integer(1),
        bulk(b"v"),
    ])));
    assert!(matches!(r, Err(CommandError::InvalidArgument(_))));
    let r = Command::try_from(RespFrame::Array(RespArray::new(vec![
        bulk(b"hmget"),
        bulk(b"k"),
        bulk(b"a"),
        bulk(&[0xc3]),
    ])));
    assert!(matches!(r, Err(CommandError::Utf8Error(_))));
}
