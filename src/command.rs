//! Commands: parsing them out of request arrays, and shaping their responses.
use crate::frame::{
    entry_models, model, models, BulkString, RespArray, RespFrame, RespMap, RespNull, SimpleString,
    Value,
};
use crate::grammar::{build_map, lower};
use vstd::prelude::*;
use vstd::string::StringSliceAdditionalSpecFns;
use vstd::utf8::{decode_utf8, encode_utf8, valid_utf8};

verus! {

/// Why a request array is not a command.
#[derive(Debug, PartialEq, Eq)]
pub enum CommandError {
    InvalidCommand(String),
    InvalidArgument(String),
    Utf8Error(String),
}

#[derive(Debug, PartialEq, Eq)]
pub struct Get {
    pub key: String,
}

#[derive(Debug, PartialEq, Eq)]
pub struct SetValue {
    pub key: String,
    pub value: RespFrame,
}

#[derive(Debug, PartialEq, Eq)]
pub struct HGet {
    pub key: String,
    pub field: String,
}

#[derive(Debug, PartialEq, Eq)]
pub struct HSet {
    pub key: String,
    pub field: String,
    pub value: RespFrame,
}

#[derive(Debug, PartialEq, Eq)]
pub struct HMGet {
    pub key: String,
    pub fields: Vec<String>,
}

#[derive(Debug, PartialEq, Eq)]
pub struct HGetAll {
    pub key: String,
}

#[derive(Debug, PartialEq, Eq)]
pub struct SAdd {
    pub key: String,
    pub members: Vec<RespFrame>,
}

#[derive(Debug, PartialEq, Eq)]
pub struct SISMember {
    pub key: String,
    pub member: RespFrame,
}

#[derive(Debug, PartialEq, Eq)]
pub struct Ping;

#[derive(Debug, PartialEq, Eq)]
pub struct Echo {
    pub message: RespFrame,
}

#[derive(Debug, PartialEq, Eq)]
pub struct Unrecognized;

/// A request, once parsed.
#[derive(Debug, PartialEq, Eq)]
pub enum Command {
    Get(Get),
    SetValue(SetValue),
    HGet(HGet),
    HSet(HSet),
    HMGet(HMGet),
    HGetAll(HGetAll),
    SAdd(SAdd),
    SISMember(SISMember),
    Ping(Ping),
    Echo(Echo),
    Unrecognized(Unrecognized),
}

/// ASCII lower case of each byte.
pub open spec fn lower_bytes(b: Seq<u8>) -> Seq<u8> {
    Seq::new(b.len(), |i: int| lower(b[i]))
}

/// Whether `f` is a bulk string whose lower-cased bytes are `w`.
pub open spec fn is_named(f: RespFrame, w: Seq<u8>) -> bool {
    f matches RespFrame::BulkString(b) && lower_bytes(b.0@) == w
}

/// The text of a bulk-string argument, where its bytes are UTF-8.
pub open spec fn text_arg(f: RespFrame) -> Option<Seq<char>> {
    match f {
        RespFrame::BulkString(b) => if valid_utf8(b.0@) {
            Some(decode_utf8(b.0@))
        } else {
            None
        },
        _ => None,
    }
}

/// Whether the array has at least `names.len() + min_args` elements and begins with the
/// bulk-string tokens `names`, compared in ASCII lower case.
pub open spec fn well_formed(items: Seq<RespFrame>, toks: Seq<Seq<u8>>, min_args: nat) -> bool {
    items.len() >= toks.len() + min_args && forall|i: int|
        0 <= i < toks.len() ==> is_named(#[trigger] items[i], toks[i])
}

pub open spec fn token_bytes(names: Seq<&str>) -> Seq<Seq<u8>> {
    Seq::new(names.len(), |i: int| names[i].spec_bytes())
}

/// Lower-cases ASCII letters.
pub fn ascii_lower(b: &[u8]) -> (r: Vec<u8>)
    ensures
        r@ == lower_bytes(b@),
{
    let mut out: Vec<u8> = Vec::new();
    let mut i: usize = 0;
    while i < b.len()
        invariant
            i <= b@.len(),
            out@ == lower_bytes(b@).subrange(0, i as int),
        decreases b@.len() - i,
    {
        let c = b[i];
        out.push(if c >= 65u8 && c <= 90u8 {
            c + 32
        } else {
            c
        });
        i += 1;
        assert(out@ =~= lower_bytes(b@).subrange(0, i as int));
    }
    assert(lower_bytes(b@).subrange(0, b@.len() as int) =~= lower_bytes(b@));
    out
}

/// Whether `f` is a bulk string naming `word` in any ASCII case.
fn is_token(f: &RespFrame, word: &[u8]) -> (r: bool)
    ensures
        r == is_named(*f, word@),
{
    match f {
        RespFrame::BulkString(b) => {
            let l = ascii_lower(b.0.as_slice());
            crate::encode::bytes_eq(l.as_slice(), word)
        },
        _ => false,
    }
}

/// Checks a request array: at least `names.len() + min_args` elements, beginning with
/// the tokens `names` as bulk strings in any ASCII case.
pub fn validate_command(value: &RespArray, names: &[&str], min_args: usize) -> (r: Result<(), CommandError>)
    ensures
        r is Ok <==> well_formed(value.0@, token_bytes(names@), min_args as nat),
        value.0@.len() < names@.len() + min_args ==> r matches Err(CommandError::InvalidArgument(_)),
        value.0@.len() >= names@.len() + min_args && r is Err ==> r matches Err(
            CommandError::InvalidCommand(_),
        ),
{
    let ghost toks = token_bytes(names@);
    if value.0.len() < min_args || value.0.len() - min_args < names.len() {
        return Err(CommandError::InvalidArgument("too few arguments".to_owned()));
    }
    let mut i: usize = 0;
    while i < names.len()
        invariant
            i <= names@.len(),
            toks == token_bytes(names@),
            value.0@.len() >= names@.len() + min_args,
            forall|j: int| 0 <= j < i ==> is_named(#[trigger] value.0@[j], toks[j]),
        decreases names@.len() - i,
    {
        if !is_token(&value.0[i], names[i].as_bytes()) {
            return Err(CommandError::InvalidCommand("unexpected command name".to_owned()));
        }
        i += 1;
    }
    Ok(())
}

/// The text of a bulk-string argument; `InvalidArgument` where it is not a bulk
/// string, `Utf8Error` where its bytes are not UTF-8.
fn text_of(f: RespFrame) -> (r: Result<String, CommandError>)
    ensures
        match text_arg(f) {
            Some(t) => r matches Ok(s) && s@ == t,
            None => r is Err,
        },
        !(f is BulkString) ==> r matches Err(CommandError::InvalidArgument(_)),
        f is BulkString && r is Err ==> r matches Err(CommandError::Utf8Error(_)),
{
    match f {
        RespFrame::BulkString(b) => match crate::outside::utf8_text(b.0.as_slice()) {
            Some(s) => Ok(s),
            None => Err(CommandError::Utf8Error("invalid utf-8 sequence".to_owned())),
        },
        _ => Err(CommandError::InvalidArgument("expected a bulk string".to_owned())),
    }
}

/// The elements after the command name.
fn args_of(value: RespArray) -> (r: Vec<RespFrame>)
    requires
        value.0@.len() >= 1,
    ensures
        r@ == value.0@.subrange(1, value.0@.len() as int),
{
    let mut items = value.0;
    items.split_off(1)
}

/// The argument texts of a request `name a b ...` whose first `n` arguments are
/// UTF-8 bulk strings.
pub open spec fn texts_ok(items: Seq<RespFrame>, n: int) -> bool {
    forall|i: int| 1 <= i <= n ==> (#[trigger] text_arg(items[i])) is Some
}

/// The UTF-8 bytes of a command name.
pub open spec fn word(name: &str) -> Seq<u8> {
    name.spec_bytes()
}

/// Whether arguments `lo` up to `hi` (exclusive) are bulk strings holding UTF-8.
pub open spec fn texts_at(items: Seq<RespFrame>, lo: int, hi: int) -> bool {
    forall|i: int| lo <= i < hi ==> (#[trigger] text_arg(items[i])) is Some
}

/// The errors of a parser for the command `name` with at least `min` arguments, of which
/// those before index `hi` must be texts: too few elements give `InvalidArgument`, another
/// command name `InvalidCommand`, and the first argument that is not a text
/// `InvalidArgument` where it is not a bulk string, `Utf8Error` where it is not UTF-8.
pub open spec fn errors_as_stated<T>(
    r: Result<T, CommandError>,
    items: Seq<RespFrame>,
    name: Seq<u8>,
    min: nat,
    hi: int,
) -> bool {
    &&& items.len() < 1 + min ==> (r matches Err(CommandError::InvalidArgument(_)))
    &&& items.len() >= 1 + min && !is_named(items[0], name) ==> (r matches Err(
        CommandError::InvalidCommand(_),
    ))
    &&& forall|i: int|
        #![trigger text_arg(items[i])]
        well_formed(items, seq![name], min) && 1 <= i < hi && texts_at(items, 1, i) && text_arg(
            items[i],
        ) is None ==> if items[i] is BulkString {
            (r matches Err(CommandError::Utf8Error(_)))
        } else {
            (r matches Err(CommandError::InvalidArgument(_)))
        }
}

/// Checks that the request names the command `name` and has at least `min_args`
/// arguments.
fn check_command(value: &RespArray, name: &str, min_args: usize) -> (r: Result<(), CommandError>)
    ensures
        r is Ok <==> well_formed(value.0@, seq![word(name)], min_args as nat),
        value.0@.len() < 1 + min_args ==> r matches Err(CommandError::InvalidArgument(_)),
        value.0@.len() >= 1 + min_args && r is Err ==> r matches Err(CommandError::InvalidCommand(_)),
{
    let names: [&str; 1] = [name];
    proof {
        assert(names@ =~= seq![name]);
        assert(token_bytes(names@) =~= seq![word(name)]);
    }
    validate_command(value, names.as_slice(), min_args)
}

/// Takes the first element out of a nonempty vector.
fn take_first<T>(v: &mut Vec<T>) -> (r: T)
    requires
        old(v)@.len() > 0,
    ensures
        r == old(v)@[0],
        final(v)@ == old(v)@.subrange(1, old(v)@.len() as int),
{
    let r = v.remove(0);
    assert(final(v)@ =~= old(v)@.subrange(1, old(v)@.len() as int));
    r
}

pub open spec fn ok_reply() -> Value {
    Value::Simple(seq!['O', 'K'])
}

fn ok_frame() -> (r: RespFrame)
    ensures
        model(r) == ok_reply(),
{
    let r = RespFrame::SimpleString(SimpleString::new("OK"));
    proof {
        reveal_strlit("OK");
        assert("OK"@ =~= seq!['O', 'K']);
    }
    r
}

impl Get {
    /// `get key`.
    pub fn try_from(value: RespArray) -> (r: Result<Get, CommandError>)
        ensures
            errors_as_stated(r, value.0@, word("get"), 1, 2),
            r is Ok <==> well_formed(value.0@, seq![word("get")], 1) && texts_at(value.0@, 1, 2),
            r matches Ok(c) ==> c.key@ == text_arg(value.0@[1])->Some_0,
    {
        let ghost items = value.0@;
        match check_command(&value, "get", 1) {
            Ok(_) => {},
            Err(e) => return Err(e),
        }
        let mut args = args_of(value);
        let key = match text_of(take_first(&mut args)) {
            Ok(t) => t,
            Err(e) => return Err(e),
        };
        Ok(Get { key })
    }

    /// The response: the value found, or null.
    pub fn reply(found: Option<RespFrame>) -> (r: RespFrame)
        ensures
            r == match found {
                Some(v) => v,
                None => RespFrame::Null(RespNull),
            },
    {
        match found {
            Some(v) => v,
            None => RespFrame::Null(RespNull),
        }
    }
}

impl SetValue {
    /// `set key value`.
    pub fn try_from(value: RespArray) -> (r: Result<SetValue, CommandError>)
        ensures
            errors_as_stated(r, value.0@, word("set"), 2, 2),
            r is Ok <==> well_formed(value.0@, seq![word("set")], 2) && texts_at(value.0@, 1, 2),
            r matches Ok(c) ==> c.key@ == text_arg(value.0@[1])->Some_0 && c.value == value.0@[2],
    {
        match check_command(&value, "set", 2) {
            Ok(_) => {},
            Err(e) => return Err(e),
        }
        let mut args = args_of(value);
        let key = match text_of(take_first(&mut args)) {
            Ok(t) => t,
            Err(e) => return Err(e),
        };
        let v = take_first(&mut args);
        Ok(SetValue { key, value: v })
    }

    /// The response: `OK`.
    pub fn reply() -> (r: RespFrame)
        ensures
            model(r) == ok_reply(),
    {
        ok_frame()
    }
}

impl HGet {
    /// `hget key field`.
    pub fn try_from(value: RespArray) -> (r: Result<HGet, CommandError>)
        ensures
            errors_as_stated(r, value.0@, word("hget"), 2, 3),
            r is Ok <==> well_formed(value.0@, seq![word("hget")], 2) && texts_at(value.0@, 1, 3),
            r matches Ok(c) ==> c.key@ == text_arg(value.0@[1])->Some_0 && c.field@ == text_arg(
                value.0@[2],
            )->Some_0,
    {
        match check_command(&value, "hget", 2) {
            Ok(_) => {},
            Err(e) => return Err(e),
        }
        let mut args = args_of(value);
        let key = match text_of(take_first(&mut args)) {
            Ok(t) => t,
            Err(e) => return Err(e),
        };
        let field = match text_of(take_first(&mut args)) {
            Ok(t) => t,
            Err(e) => return Err(e),
        };
        Ok(HGet { key, field })
    }

    /// The response: the value found, or null.
    pub fn reply(found: Option<RespFrame>) -> (r: RespFrame)
        ensures
            r == match found {
                Some(v) => v,
                None => RespFrame::Null(RespNull),
            },
    {
        Get::reply(found)
    }
}

impl HSet {
    /// `hset key field value`.
    pub fn try_from(value: RespArray) -> (r: Result<HSet, CommandError>)
        ensures
            errors_as_stated(r, value.0@, word("hset"), 3, 3),
            r is Ok <==> well_formed(value.0@, seq![word("hset")], 3) && texts_at(value.0@, 1, 3),
            r matches Ok(c) ==> c.key@ == text_arg(value.0@[1])->Some_0 && c.field@ == text_arg(
                value.0@[2],
            )->Some_0 && c.value == value.0@[3],
    {
        match check_command(&value, "hset", 3) {
            Ok(_) => {},
            Err(e) => return Err(e),
        }
        let mut args = args_of(value);
        let key = match text_of(take_first(&mut args)) {
            Ok(t) => t,
            Err(e) => return Err(e),
        };
        let field = match text_of(take_first(&mut args)) {
            Ok(t) => t,
            Err(e) => return Err(e),
        };
        let v = take_first(&mut args);
        Ok(HSet { key, field, value: v })
    }

    /// The response: `OK`.
    pub fn reply() -> (r: RespFrame)
        ensures
            model(r) == ok_reply(),
    {
        ok_frame()
    }
}

/// Each value found, null where none was.
pub open spec fn found_models(found: Seq<Option<RespFrame>>) -> Seq<Value> {
    Seq::new(
        found.len(),
        |i: int|
            match found[i] {
                Some(v) => model(v),
                None => Value::Null,
            },
    )
}

impl HMGet {
    /// `hmget key field [field ...]`.
    pub fn try_from(value: RespArray) -> (r: Result<HMGet, CommandError>)
        ensures
            errors_as_stated(r, value.0@, word("hmget"), 2, value.0@.len() as int),
            r is Ok <==> well_formed(value.0@, seq![word("hmget")], 2) && texts_at(
                value.0@,
                1,
                value.0@.len() as int,
            ),
            r matches Ok(c) ==> c.key@ == text_arg(value.0@[1])->Some_0 && c.fields@.len() + 2
                == value.0@.len() && forall|i: int|
                0 <= i < c.fields@.len() ==> (#[trigger] c.fields@[i])@ == text_arg(
                    value.0@[i + 2],
                )->Some_0,
    {
        let ghost items = value.0@;
        match check_command(&value, "hmget", 2) {
            Ok(_) => {},
            Err(e) => return Err(e),
        }
        let mut args = args_of(value);
        let key = match text_of(take_first(&mut args)) {
            Ok(t) => t,
            Err(e) => return Err(e),
        };
        let mut fields: Vec<String> = Vec::new();
        while args.len() > 0
            invariant
                items == value.0@,
                well_formed(items, seq![word("hmget")], 2),
                text_arg(items[1]) is Some,
                key@ == text_arg(items[1])->Some_0,
                args@ == items.subrange(fields@.len() + 2int, items.len() as int),
                fields@.len() + 2 <= items.len(),
                forall|i: int| 2 <= i < fields@.len() + 2 ==> (#[trigger] text_arg(items[i])) is Some,
                forall|i: int|
                    0 <= i < fields@.len() ==> (#[trigger] fields@[i])@ == text_arg(items[i + 2])->Some_0,
            decreases args@.len(),
        {
            let ghost k = fields@.len() + 2;
            let f = match text_of(take_first(&mut args)) {
                Ok(f) => f,
                Err(e) => {
                    assert(!(text_arg(items[k as int]) is Some));
                    assert(!texts_at(items, 1, items.len() as int));
                    return Err(e);
                },
            };
            fields.push(f);
            assert(text_arg(items[k as int]) is Some);
        }
        assert(texts_at(items, 1, items.len() as int)) by {
            assert forall|i: int| 1 <= i < items.len() implies (#[trigger] text_arg(items[i])) is Some by {
                if i >= 2 {
                    assert(text_arg(items[i]) is Some);
                }
            }
        }
        Ok(HMGet { key, fields })
    }

    /// The response: the value of each field, null where it has none.
    pub fn reply(found: Vec<Option<RespFrame>>) -> (r: RespFrame)
        ensures
            model(r) == Value::Array(found_models(found@)),
    {
        let ghost all = found@;
        let mut rest = found;
        let mut out: Vec<RespFrame> = Vec::new();
        while rest.len() > 0
            invariant
                rest@ == all.subrange(out@.len() as int, all.len() as int),
                out@.len() <= all.len(),
                models(out@) == found_models(all).subrange(0, out@.len() as int),
            decreases rest@.len(),
        {
            let v = match take_first(&mut rest) {
                Some(v) => v,
                None => RespFrame::Null(RespNull),
            };
            out.push(v);
            assert(models(out@) =~= found_models(all).subrange(0, out@.len() as int));
        }
        assert(found_models(all).subrange(0, all.len() as int) =~= found_models(all));
        let r = RespFrame::Array(RespArray(out));
        assert(model(r)->Array_0 =~= models(r->Array_0.0@));
        r
    }
}

/// Each entry as its key, as a bulk string, followed by its value.
pub open spec fn flatten(es: Seq<(Seq<char>, Value)>) -> Seq<Value>
    decreases es.len(),
{
    if es.len() == 0 {
        Seq::empty()
    } else {
        flatten(es.drop_last()) + seq![Value::Bulk(encode_utf8(es.last().0)), es.last().1]
    }
}

impl HGetAll {
    /// `hgetall key`.
    pub fn try_from(value: RespArray) -> (r: Result<HGetAll, CommandError>)
        ensures
            errors_as_stated(r, value.0@, word("hgetall"), 1, 2),
            r is Ok <==> well_formed(value.0@, seq![word("hgetall")], 1) && texts_at(value.0@, 1, 2),
            r matches Ok(c) ==> c.key@ == text_arg(value.0@[1])->Some_0,
    {
        match check_command(&value, "hgetall", 1) {
            Ok(_) => {},
            Err(e) => return Err(e),
        }
        let mut args = args_of(value);
        let key = match text_of(take_first(&mut args)) {
            Ok(t) => t,
            Err(e) => return Err(e),
        };
        Ok(HGetAll { key })
    }

    /// The response: an array of each field, as a bulk string, followed by its value,
    /// in the byte order of the fields; a later entry for a field replaces an earlier one.
    pub fn reply(entries: Vec<(String, RespFrame)>) -> (r: RespFrame)
        ensures
            model(r) == Value::Array(
                flatten(build_map(entry_models(entries@), entries@.len() as int)),
            ),
    {
        let ghost es = entry_models(entries@);
        let ghost n = entries@.len();
        let mut rest = entries;
        let mut map = RespMap::new();
        let ghost mut i: int = 0;
        assert(entry_models(map.0@) =~= build_map(es, 0));
        while rest.len() > 0
            invariant
                0 <= i <= n,
                es.len() == n,
                rest@.len() == n - i,
                entry_models(rest@) == es.subrange(i, n as int),
                entry_models(map.0@) == build_map(es, i),
            decreases rest@.len(),
        {
            let ghost before = rest@;
            let (k, v) = take_first(&mut rest);
            assert(before[0] == (k, v));
            assert(entry_models(before)[0] == (k@, model(v)));
            assert(entry_models(before)[0] == es.subrange(i, n as int)[0]);
            assert(es[i] == (k@, model(v)));
            map.insert(k, v);
            assert(entry_models(rest@) =~= entry_models(before).subrange(1, before.len() as int));
            assert(entry_models(before).subrange(1, before.len() as int) =~= es.subrange(i + 1, n as int));
            proof {
                i = i + 1;
            }
        }
        let ghost sorted = entry_models(map.0@);
        let mut items: Vec<RespFrame> = Vec::new();
        let mut left = map.0;
        let ghost mut j: int = 0;
        assert(flatten(sorted.subrange(0, 0)) =~= models(items@));
        while left.len() > 0
            invariant
                0 <= j <= sorted.len(),
                left@.len() == sorted.len() - j,
                entry_models(left@) == sorted.subrange(j, sorted.len() as int),
                models(items@) == flatten(sorted.subrange(0, j)),
            decreases left@.len(),
        {
            let ghost before = left@;
            let (k, v) = take_first(&mut left);
            assert(entry_models(before)[0] == sorted.subrange(j, sorted.len() as int)[0]);
            assert(sorted[j] == (k@, model(v)));
            assert(entry_models(left@) =~= entry_models(before).subrange(1, before.len() as int));
            assert(entry_models(before).subrange(1, before.len() as int) =~= sorted.subrange(
                j + 1,
                sorted.len() as int,
            ));
            let kb = BulkString::new(k.as_str().as_bytes());
            items.push(RespFrame::BulkString(kb));
            items.push(v);
            proof {
                assert(sorted.subrange(0, j + 1).drop_last() =~= sorted.subrange(0, j));
                j = j + 1;
            }
            assert(models(items@) =~= flatten(sorted.subrange(0, j)));
        }
        assert(sorted.subrange(0, sorted.len() as int) =~= sorted);
        let r = RespFrame::Array(RespArray(items));
        assert(model(r)->Array_0 =~= models(r->Array_0.0@));
        r
    }
}

impl SAdd {
    /// `sadd key member [member ...]`.
    pub fn try_from(value: RespArray) -> (r: Result<SAdd, CommandError>)
        ensures
            errors_as_stated(r, value.0@, word("sadd"), 2, 2),
            r is Ok <==> well_formed(value.0@, seq![word("sadd")], 2) && texts_at(value.0@, 1, 2),
            r matches Ok(c) ==> c.key@ == text_arg(value.0@[1])->Some_0 && c.members@
                == value.0@.subrange(2, value.0@.len() as int),
    {
        match check_command(&value, "sadd", 2) {
            Ok(_) => {},
            Err(e) => return Err(e),
        }
        let mut args = args_of(value);
        let key = match text_of(take_first(&mut args)) {
            Ok(t) => t,
            Err(e) => return Err(e),
        };
        Ok(SAdd { key, members: args })
    }

    /// The response: how many members were not there before.
    pub fn reply(added: i64) -> (r: RespFrame)
        ensures
            r == RespFrame::Integer(added),
    {
        RespFrame::Integer(added)
    }
}

impl SISMember {
    /// `sismember key member`.
    pub fn try_from(value: RespArray) -> (r: Result<SISMember, CommandError>)
        ensures
            errors_as_stated(r, value.0@, word("sismember"), 2, 2),
            r is Ok <==> well_formed(value.0@, seq![word("sismember")], 2) && texts_at(value.0@, 1, 2),
            r matches Ok(c) ==> c.key@ == text_arg(value.0@[1])->Some_0 && c.member == value.0@[2],
    {
        match check_command(&value, "sismember", 2) {
            Ok(_) => {},
            Err(e) => return Err(e),
        }
        let mut args = args_of(value);
        let key = match text_of(take_first(&mut args)) {
            Ok(t) => t,
            Err(e) => return Err(e),
        };
        let member = take_first(&mut args);
        Ok(SISMember { key, member })
    }

    /// The response: 1 where the member is in the set, else 0.
    pub fn reply(present: bool) -> (r: RespFrame)
        ensures
            r == RespFrame::Integer(if present { 1 } else { 0 }),
    {
        RespFrame::Integer(if present { 1 } else { 0 })
    }
}

impl Ping {
    /// `ping`.
    pub fn try_from(value: RespArray) -> (r: Result<Ping, CommandError>)
        ensures
            errors_as_stated(r, value.0@, word("ping"), 0, 1),
            r is Ok <==> well_formed(value.0@, seq![word("ping")], 0),
    {
        match check_command(&value, "ping", 0) {
            Ok(_) => {},
            Err(e) => return Err(e),
        }
        Ok(Ping)
    }

    /// The response: `PONG`.
    pub fn reply() -> (r: RespFrame)
        ensures
            model(r) == Value::Simple(seq!['P', 'O', 'N', 'G']),
    {
        let r = RespFrame::SimpleString(SimpleString::new("PONG"));
        proof {
            reveal_strlit("PONG");
            assert("PONG"@ =~= seq!['P', 'O', 'N', 'G']);
        }
        r
    }
}

impl Echo {
    /// `echo message`.
    pub fn try_from(value: RespArray) -> (r: Result<Echo, CommandError>)
        ensures
            errors_as_stated(r, value.0@, word("echo"), 1, 1),
            r is Ok <==> well_formed(value.0@, seq![word("echo")], 1),
            r matches Ok(c) ==> c.message == value.0@[1],
    {
        match check_command(&value, "echo", 1) {
            Ok(_) => {},
            Err(e) => return Err(e),
        }
        let mut args = args_of(value);
        let message = take_first(&mut args);
        Ok(Echo { message })
    }

    /// The response: the message itself.
    pub fn reply(self) -> (r: RespFrame)
        ensures
            r == self.message,
    {
        self.message
    }
}

impl Unrecognized {
    /// The response to a command this server does not know: `OK`.
    pub fn reply() -> (r: RespFrame)
        ensures
            model(r) == ok_reply(),
    {
        ok_frame()
    }
}

/// The lower-cased name of the command a request array carries, if its first element
/// is a bulk string.
pub open spec fn command_word(f: RespFrame) -> Option<Seq<u8>> {
    match f {
        RespFrame::Array(a) => if a.0@.len() > 0 && a.0@[0] is BulkString {
            Some(lower_bytes(a.0@[0]->BulkString_0.0@))
        } else {
            None
        },
        _ => None,
    }
}

pub open spec fn known_word(w: Seq<u8>) -> bool {
    w == word("get") || w == word("set") || w == word("hget") || w == word("hset") || w == word(
        "hmget",
    ) || w == word("hgetall") || w == word("sadd") || w == word("sismember") || w == word("ping")
        || w == word("echo")
}

/// Whether a request array naming command `w` has the arguments that command needs.
pub open spec fn accepted(items: Seq<RespFrame>, w: Seq<u8>) -> bool {
    if w == word("get") {
        well_formed(items, seq![w], 1) && texts_at(items, 1, 2)
    } else if w == word("set") {
        well_formed(items, seq![w], 2) && texts_at(items, 1, 2)
    } else if w == word("hget") {
        well_formed(items, seq![w], 2) && texts_at(items, 1, 3)
    } else if w == word("hset") {
        well_formed(items, seq![w], 3) && texts_at(items, 1, 3)
    } else if w == word("hmget") {
        well_formed(items, seq![w], 2) && texts_at(items, 1, items.len() as int)
    } else if w == word("hgetall") {
        well_formed(items, seq![w], 1) && texts_at(items, 1, 2)
    } else if w == word("sadd") {
        well_formed(items, seq![w], 2) && texts_at(items, 1, 2)
    } else if w == word("sismember") {
        well_formed(items, seq![w], 2) && texts_at(items, 1, 2)
    } else if w == word("ping") {
        well_formed(items, seq![w], 0)
    } else if w == word("echo") {
        well_formed(items, seq![w], 1)
    } else {
        true
    }
}

/// The least number of arguments the command `w` takes.
pub open spec fn min_args_of(w: Seq<u8>) -> nat {
    if w == word("get") || w == word("hgetall") || w == word("echo") {
        1
    } else if w == word("hset") {
        3
    } else if w == word("ping") {
        0
    } else {
        2
    }
}

/// The index before which the arguments of command `w` must be texts.
pub open spec fn texts_end(items: Seq<RespFrame>, w: Seq<u8>) -> int {
    if w == word("hget") || w == word("hset") {
        3
    } else if w == word("hmget") {
        items.len() as int
    } else if w == word("ping") || w == word("echo") {
        1
    } else {
        2
    }
}

/// Which command a request naming `w` becomes.
pub open spec fn dispatches(c: Command, w: Seq<u8>) -> bool {
    match c {
        Command::Get(_) => w == word("get"),
        Command::SetValue(_) => w == word("set"),
        Command::HGet(_) => w == word("hget"),
        Command::HSet(_) => w == word("hset"),
        Command::HMGet(_) => w == word("hmget"),
        Command::HGetAll(_) => w == word("hgetall"),
        Command::SAdd(_) => w == word("sadd"),
        Command::SISMember(_) => w == word("sismember"),
        Command::Ping(_) => w == word("ping"),
        Command::Echo(_) => w == word("echo"),
        Command::Unrecognized(_) => !known_word(w),
    }
}

/// The fields of a parsed command, as the request's arguments give them.
pub open spec fn carries(c: Command, items: Seq<RespFrame>) -> bool {
    match c {
        Command::Get(g) => g.key@ == text_arg(items[1])->Some_0,
        Command::SetValue(g) => g.key@ == text_arg(items[1])->Some_0 && g.value == items[2],
        Command::HGet(g) => g.key@ == text_arg(items[1])->Some_0 && g.field@ == text_arg(
            items[2],
        )->Some_0,
        Command::HSet(g) => g.key@ == text_arg(items[1])->Some_0 && g.field@ == text_arg(
            items[2],
        )->Some_0 && g.value == items[3],
        Command::HMGet(g) => g.key@ == text_arg(items[1])->Some_0 && g.fields@.len() + 2
            == items.len() && forall|i: int|
            0 <= i < g.fields@.len() ==> (#[trigger] g.fields@[i])@ == text_arg(items[i + 2])->Some_0,
        Command::HGetAll(g) => g.key@ == text_arg(items[1])->Some_0,
        Command::SAdd(g) => g.key@ == text_arg(items[1])->Some_0 && g.members@ == items.subrange(
            2,
            items.len() as int,
        ),
        Command::SISMember(g) => g.key@ == text_arg(items[1])->Some_0 && g.member == items[2],
        Command::Ping(_) => true,
        Command::Echo(g) => g.message == items[1],
        Command::Unrecognized(_) => true,
    }
}

/// The bytes of the command names.
proof fn lemma_words()
    ensures
        word("get") == seq![103u8, 101u8, 116u8],
        word("set") == seq![115u8, 101u8, 116u8],
        word("hget") == seq![104u8, 103u8, 101u8, 116u8],
        word("hset") == seq![104u8, 115u8, 101u8, 116u8],
        word("hmget") == seq![104u8, 109u8, 103u8, 101u8, 116u8],
        word("hgetall") == seq![104u8, 103u8, 101u8, 116u8, 97u8, 108u8, 108u8],
        word("sadd") == seq![115u8, 97u8, 100u8, 100u8],
        word("sismember") == seq![115u8, 105u8, 115u8, 109u8, 101u8, 109u8, 98u8, 101u8, 114u8],
        word("ping") == seq![112u8, 105u8, 110u8, 103u8],
        word("echo") == seq![101u8, 99u8, 104u8, 111u8],
{
    reveal_strlit("get");
    vstd::string::is_ascii_spec_bytes("get");
    assert(word("get") =~= seq![103u8, 101u8, 116u8]);
    reveal_strlit("set");
    vstd::string::is_ascii_spec_bytes("set");
    assert(word("set") =~= seq![115u8, 101u8, 116u8]);
    reveal_strlit("hget");
    vstd::string::is_ascii_spec_bytes("hget");
    assert(word("hget") =~= seq![104u8, 103u8, 101u8, 116u8]);
    reveal_strlit("hset");
    vstd::string::is_ascii_spec_bytes("hset");
    assert(word("hset") =~= seq![104u8, 115u8, 101u8, 116u8]);
    reveal_strlit("hmget");
    vstd::string::is_ascii_spec_bytes("hmget");
    assert(word("hmget") =~= seq![104u8, 109u8, 103u8, 101u8, 116u8]);
    reveal_strlit("hgetall");
    vstd::string::is_ascii_spec_bytes("hgetall");
    assert(word("hgetall") =~= seq![104u8, 103u8, 101u8, 116u8, 97u8, 108u8, 108u8]);
    reveal_strlit("sadd");
    vstd::string::is_ascii_spec_bytes("sadd");
    assert(word("sadd") =~= seq![115u8, 97u8, 100u8, 100u8]);
    reveal_strlit("sismember");
    vstd::string::is_ascii_spec_bytes("sismember");
    assert(word("sismember") =~= seq![115u8, 105u8, 115u8, 109u8, 101u8, 109u8, 98u8, 101u8, 114u8]);
    reveal_strlit("ping");
    vstd::string::is_ascii_spec_bytes("ping");
    assert(word("ping") =~= seq![112u8, 105u8, 110u8, 103u8]);
    reveal_strlit("echo");
    vstd::string::is_ascii_spec_bytes("echo");
    assert(word("echo") =~= seq![101u8, 99u8, 104u8, 111u8]);
}

impl Command {
    /// Reads a command from a request: an array whose first element is a bulk string
    /// naming the command, in any ASCII case. Unknown names give `Unrecognized`.
    pub fn try_from(frame: RespFrame) -> (r: Result<Command, CommandError>)
        ensures
            command_word(frame) is None ==> r matches Err(CommandError::InvalidCommand(_)),
            command_word(frame) matches Some(w) ==> (r is Ok <==> accepted(frame->Array_0.0@, w)),
            r matches Ok(c) ==> command_word(frame) matches Some(w) && dispatches(c, w) && carries(
                c,
                frame->Array_0.0@,
            ),
            command_word(frame) matches Some(w) ==> (known_word(w) ==> errors_as_stated(
                r,
                frame->Array_0.0@,
                w,
                min_args_of(w),
                texts_end(frame->Array_0.0@, w),
            )),
    {
        proof {
            lemma_words();
        }
        let arr = match frame {
            RespFrame::Array(arr) => arr,
            _ => return Err(CommandError::InvalidCommand("a command must be an array".to_owned())),
        };
        let ghost items = arr.0@;
        if arr.0.len() == 0 {
            return Err(CommandError::InvalidCommand("empty command".to_owned()));
        }
        let name = match &arr.0[0] {
            RespFrame::BulkString(b) => ascii_lower(b.0.as_slice()),
            _ => return Err(
                CommandError::InvalidCommand("a command name must be a bulk string".to_owned()),
            ),
        };
        let ghost w = name@;
        let n = name.as_slice();
        if crate::encode::bytes_eq(n, "get".as_bytes()) {
            assert(seq![w] == seq![word("get")]);
            match Get::try_from(arr) {
                Ok(c) => Ok(Command::Get(c)),
                Err(e) => Err(e),
            }
        } else if crate::encode::bytes_eq(n, "set".as_bytes()) {
            assert(seq![w] == seq![word("set")]);
            match SetValue::try_from(arr) {
                Ok(c) => Ok(Command::SetValue(c)),
                Err(e) => Err(e),
            }
        } else if crate::encode::bytes_eq(n, "hget".as_bytes()) {
            assert(seq![w] == seq![word("hget")]);
            match HGet::try_from(arr) {
                Ok(c) => Ok(Command::HGet(c)),
                Err(e) => Err(e),
            }
        } else if crate::encode::bytes_eq(n, "hset".as_bytes()) {
            assert(seq![w] == seq![word("hset")]);
            match HSet::try_from(arr) {
                Ok(c) => Ok(Command::HSet(c)),
                Err(e) => Err(e),
            }
        } else if crate::encode::bytes_eq(n, "hmget".as_bytes()) {
            assert(seq![w] == seq![word("hmget")]);
            match HMGet::try_from(arr) {
                Ok(c) => Ok(Command::HMGet(c)),
                Err(e) => Err(e),
            }
        } else if crate::encode::bytes_eq(n, "hgetall".as_bytes()) {
            assert(seq![w] == seq![word("hgetall")]);
            match HGetAll::try_from(arr) {
                Ok(c) => Ok(Command::HGetAll(c)),
                Err(e) => Err(e),
            }
        } else if crate::encode::bytes_eq(n, "sadd".as_bytes()) {
            assert(seq![w] == seq![word("sadd")]);
            match SAdd::try_from(arr) {
                Ok(c) => Ok(Command::SAdd(c)),
                Err(e) => Err(e),
            }
        } else if crate::encode::bytes_eq(n, "sismember".as_bytes()) {
            assert(seq![w] == seq![word("sismember")]);
            match SISMember::try_from(arr) {
                Ok(c) => Ok(Command::SISMember(c)),
                Err(e) => Err(e),
            }
        } else if crate::encode::bytes_eq(n, "ping".as_bytes()) {
            assert(seq![w] == seq![word("ping")]);
            match Ping::try_from(arr) {
                Ok(c) => Ok(Command::Ping(c)),
                Err(e) => Err(e),
            }
        } else if crate::encode::bytes_eq(n, "echo".as_bytes()) {
            assert(seq![w] == seq![word("echo")]);
            match Echo::try_from(arr) {
                Ok(c) => Ok(Command::Echo(c)),
                Err(e) => Err(e),
            }
        } else {
            Ok(Command::Unrecognized(Unrecognized))
        }
    }
}

} // verus!
