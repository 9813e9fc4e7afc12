//! The frame types of the protocol and their mathematical model.
use vstd::prelude::*;
use vstd::string::StringSliceAdditionalSpecFns;

verus! {

/// The mathematical model of a frame: what a `RespFrame` denotes.
pub enum Value {
    Simple(Seq<char>),
    Error(Seq<char>),
    Integer(int),
    Bulk(Seq<u8>),
    Array(Seq<Value>),
    Null,
    Boolean(bool),
    Double(Seq<char>),
    MapOf(Seq<(Seq<char>, Value)>),
    SetOf(Seq<Value>),
}

/// A line of text sent as `+text\r\n`.
#[derive(Debug, PartialEq, Eq)]
pub struct SimpleString(pub String);

/// An error line sent as `-text\r\n`.
#[derive(Debug, PartialEq, Eq)]
pub struct SimpleError(pub String);

/// A binary-safe string sent as `$len\r\nbytes\r\n`; the empty one is the null bulk string.
#[derive(Debug, PartialEq, Eq)]
pub struct BulkString(pub Vec<u8>);

/// An ordered list of frames; the empty one is the null array.
#[derive(Debug, PartialEq, Eq)]
pub struct RespArray(pub Vec<RespFrame>);

/// The null `_\r\n`.
#[derive(Debug, PartialEq, Eq)]
pub struct RespNull;

/// A floating-point value, held as the text of its literal (`1.25`, `-2.5e+8`).
#[derive(Debug, PartialEq, Eq)]
pub struct RespDouble(pub String);

/// A map from text keys to frames. `new` and `insert` keep the entries in increasing
/// byte order of their keys, each key once; `encode` writes them in the order held.
#[derive(Debug, PartialEq, Eq)]
pub struct RespMap(pub Vec<(String, RespFrame)>);

/// A collection of frames; repeated elements are dropped when it is encoded.
#[derive(Debug, PartialEq, Eq)]
pub struct RespSet(pub Vec<RespFrame>);

/// One value of the protocol.
#[derive(Debug, PartialEq, Eq)]
pub enum RespFrame {
    SimpleString(SimpleString),
    Error(SimpleError),
    Integer(i64),
    BulkString(BulkString),
    Array(RespArray),
    Null(RespNull),
    Boolean(bool),
    Double(RespDouble),
    MapFrame(RespMap),
    SetFrame(RespSet),
}

/// Why a frame could not be decoded.
#[derive(Debug, PartialEq, Eq)]
pub enum RespError {
    InvalidFrame(String),
    InvalidFrameType(String),
    NotComplete,
}

/// The kind of a decoding failure, without its detail text.
#[derive(Debug, PartialEq, Eq)]
pub enum ErrorKind {
    InvalidFrame,
    InvalidFrameType,
    NotComplete,
}

impl RespError {
    pub open spec fn kind(self) -> ErrorKind {
        match self {
            RespError::InvalidFrame(_) => ErrorKind::InvalidFrame,
            RespError::InvalidFrameType(_) => ErrorKind::InvalidFrameType,
            RespError::NotComplete => ErrorKind::NotComplete,
        }
    }
}

/// The model of a frame.
pub open spec fn model(f: RespFrame) -> Value
    decreases f,
    via model_decreases
{
    match f {
        RespFrame::SimpleString(s) => Value::Simple(s.0@),
        RespFrame::Error(s) => Value::Error(s.0@),
        RespFrame::Integer(n) => Value::Integer(n as int),
        RespFrame::BulkString(b) => Value::Bulk(b.0@),
        RespFrame::Array(a) => Value::Array(
            Seq::new(a.0@.len(), |i: int| if 0 <= i < a.0@.len() { model(a.0@[i]) } else { Value::Null }),
        ),
        RespFrame::Null(_) => Value::Null,
        RespFrame::Boolean(b) => Value::Boolean(b),
        RespFrame::Double(d) => Value::Double(d.0@),
        RespFrame::MapFrame(m) => Value::MapOf(
            Seq::new(
                m.0@.len(),
                |i: int|
                    if 0 <= i < m.0@.len() {
                        (m.0@[i].0@, model(m.0@[i].1))
                    } else {
                        (Seq::empty(), Value::Null)
                    },
            ),
        ),
        RespFrame::SetFrame(s) => Value::SetOf(
            Seq::new(s.0@.len(), |i: int| if 0 <= i < s.0@.len() { model(s.0@[i]) } else { Value::Null }),
        ),
    }
}

#[via_fn]
proof fn model_decreases(f: RespFrame) {
    broadcast use vstd::std_specs::vec::axiom_vec_decreases_to_view;

    match f {
        RespFrame::Array(a) => {
            assert forall|i: int| 0 <= i < a.0@.len() implies (decreases_to!(f => a.0@[i])) by {
                assert(decreases_to!(a.0 => a.0@));
            }
        },
        RespFrame::MapFrame(m) => {
            assert forall|i: int| 0 <= i < m.0@.len() implies (decreases_to!(f => m.0@[i].1)) by {
                assert(decreases_to!(m.0 => m.0@));
            }
        },
        RespFrame::SetFrame(s) => {
            assert forall|i: int| 0 <= i < s.0@.len() implies (decreases_to!(f => s.0@[i])) by {
                assert(decreases_to!(s.0 => s.0@));
            }
        },
        _ => {},
    }
}

/// The models of a sequence of map entries.
pub open spec fn entry_models(s: Seq<(String, RespFrame)>) -> Seq<(Seq<char>, Value)> {
    Seq::new(s.len(), |i: int| (s[i].0@, model(s[i].1)))
}

/// The models of a sequence of frames.
pub open spec fn models(s: Seq<RespFrame>) -> Seq<Value> {
    Seq::new(s.len(), |i: int| model(s[i]))
}

impl SimpleString {
    pub fn new(s: &str) -> (r: SimpleString)
        ensures
            r.0@ == s@,
    {
        SimpleString(s.to_owned())
    }
}

impl SimpleError {
    pub fn new(s: &str) -> (r: SimpleError)
        ensures
            r.0@ == s@,
    {
        SimpleError(s.to_owned())
    }
}

impl BulkString {
    pub fn new(s: &[u8]) -> (r: BulkString)
        ensures
            r.0@ == s@,
    {
        BulkString(vstd::slice::slice_to_vec(s))
    }
}

impl RespArray {
    pub fn new(items: Vec<RespFrame>) -> (r: RespArray)
        ensures
            r.0 == items,
    {
        RespArray(items)
    }
}

impl RespSet {
    pub fn new(items: Vec<RespFrame>) -> (r: RespSet)
        ensures
            r.0 == items,
    {
        RespSet(items)
    }

    pub fn push(&mut self, item: RespFrame)
        ensures
            final(self).0@ == old(self).0@.push(item),
    {
        self.0.push(item);
    }
}

impl RespMap {
    /// An empty map.
    pub fn new() -> (r: RespMap)
        ensures
            r.0@.len() == 0,
            crate::grammar::sorted_keys(entry_models(r.0@)),
    {
        RespMap(Vec::new())
    }

    pub fn len(&self) -> (r: usize)
        ensures
            r == self.0@.len(),
    {
        self.0.len()
    }
}

impl RespDouble {
    /// The double whose literal is `text`, if `text` is a floating-point literal.
    pub fn from_literal(text: &str) -> (r: Option<RespDouble>)
        ensures
            r is Some <==> crate::grammar::float_lit(text.spec_bytes()),
            r matches Some(d) ==> d.0@ == text@,
    {
        if crate::scan::is_float_literal(text.as_bytes()) {
            Some(RespDouble(text.to_owned()))
        } else {
            None
        }
    }
}

impl RespFrame {
    /// A copy of the frame, with the same model.
    pub fn duplicate(&self) -> (r: RespFrame)
        ensures
            model(r) == model(*self),
        decreases self,
    {
        match self {
            RespFrame::SimpleString(t) => RespFrame::SimpleString(SimpleString(t.0.clone())),
            RespFrame::Error(t) => RespFrame::Error(SimpleError(t.0.clone())),
            RespFrame::Integer(n) => RespFrame::Integer(*n),
            RespFrame::BulkString(b) => RespFrame::BulkString(
                BulkString(vstd::slice::slice_to_vec(b.0.as_slice())),
            ),
            RespFrame::Array(a) => {
                let items = duplicate_all(&a.0);
                let r = RespFrame::Array(RespArray(items));
                assert(model(r)->Array_0 =~= models(r->Array_0.0@));
                assert(model(*self)->Array_0 =~= models(a.0@));
                r
            },
            RespFrame::Null(_) => RespFrame::Null(RespNull),
            RespFrame::Boolean(b) => RespFrame::Boolean(*b),
            RespFrame::Double(d) => RespFrame::Double(RespDouble(d.0.clone())),
            RespFrame::MapFrame(m) => {
                let entries = duplicate_entries(&m.0);
                let r = RespFrame::MapFrame(RespMap(entries));
                assert(model(r)->MapOf_0 =~= entry_models(r->MapFrame_0.0@));
                assert(model(*self)->MapOf_0 =~= entry_models(m.0@));
                r
            },
            RespFrame::SetFrame(st) => {
                let items = duplicate_all(&st.0);
                let r = RespFrame::SetFrame(RespSet(items));
                assert(model(r)->SetOf_0 =~= models(r->SetFrame_0.0@));
                assert(model(*self)->SetOf_0 =~= models(st.0@));
                r
            },
        }
    }
}

/// Copies of each entry, with the same models.
fn duplicate_entries(v: &Vec<(String, RespFrame)>) -> (r: Vec<(String, RespFrame)>)
    ensures
        entry_models(r@) == entry_models(v@),
    decreases v,
{
    broadcast use vstd::std_specs::vec::axiom_vec_decreases_to_view;

    let mut out: Vec<(String, RespFrame)> = Vec::new();
    let mut i: usize = 0;
    while i < v.len()
        invariant
            i <= v@.len(),
            entry_models(out@) == entry_models(v@).subrange(0, i as int),
        decreases v@.len() - i,
    {
        proof {
            assert(decreases_to!(v => v@));
            assert(decreases_to!(v@[i as int] => v@[i as int].1));
        }
        let x = v[i].1.duplicate();
        let k = v[i].0.clone();
        let ghost before = out@;
        out.push((k, x));
        assert(entry_models(out@) =~= entry_models(before).push((k@, model(x))));
        assert(entry_models(v@).subrange(0, i + 1) =~= entry_models(v@).subrange(0, i as int).push(
            (v@[i as int].0@, model(v@[i as int].1)),
        ));
        i += 1;
    }
    assert(entry_models(v@).subrange(0, v@.len() as int) =~= entry_models(v@));
    out
}

/// Copies of each frame, with the same models.
fn duplicate_all(v: &Vec<RespFrame>) -> (r: Vec<RespFrame>)
    ensures
        models(r@) == models(v@),
    decreases v,
{
    broadcast use vstd::std_specs::vec::axiom_vec_decreases_to_view;

    let mut out: Vec<RespFrame> = Vec::new();
    let mut i: usize = 0;
    while i < v.len()
        invariant
            i <= v@.len(),
            models(out@) == models(v@).subrange(0, i as int),
        decreases v@.len() - i,
    {
        proof {
            assert(decreases_to!(v => v@));
        }
        let x = v[i].duplicate();
        assert(model(x) == model(v@[i as int]));
        let ghost before = out@;
        out.push(x);
        assert(out@ == before.push(x));
        assert(models(out@) =~= models(before).push(model(x)));
        assert(models(v@).subrange(0, i + 1) =~= models(v@).subrange(0, i as int).push(model(v@[i as int])));
        i += 1;
    }
    assert(models(v@).subrange(0, v@.len() as int) =~= models(v@));
    out
}

} // verus!
