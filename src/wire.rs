//! The byte layout of each frame, as spec functions over the model.
use crate::frame::Value;
use vstd::prelude::*;
use vstd::utf8::encode_utf8;

verus! {

pub open spec fn crlf() -> Seq<u8> {
    seq![13u8, 10u8]
}

/// The minimal decimal digits of `n`.
pub open spec fn digits(n: nat) -> Seq<u8>
    decreases n,
{
    if n < 10 {
        seq![(48 + n) as u8]
    } else {
        digits(n / 10) + seq![(48 + n % 10) as u8]
    }
}

/// `tag`, the digits of `n`, CRLF: the header of a length-prefixed frame.
pub open spec fn header(tag: u8, n: nat) -> Seq<u8> {
    seq![tag] + digits(n) + crlf()
}

pub open spec fn null_bulk() -> Seq<u8> {
    seq![36u8, 45u8, 49u8, 13u8, 10u8]
}

pub open spec fn null_array() -> Seq<u8> {
    seq![42u8, 45u8, 49u8, 13u8, 10u8]
}

pub open spec fn null_line() -> Seq<u8> {
    seq![95u8, 13u8, 10u8]
}

pub open spec fn bool_line(b: bool) -> Seq<u8> {
    seq![35u8, if b { 116u8 } else { 102u8 }, 13u8, 10u8]
}

/// A single-line frame: `tag`, the UTF-8 bytes of `text`, CRLF.
pub open spec fn line(tag: u8, text: Seq<char>) -> Seq<u8> {
    seq![tag] + encode_utf8(text) + crlf()
}

pub open spec fn abs(n: int) -> nat {
    if n >= 0 {
        n as nat
    } else {
        (-n) as nat
    }
}

pub open spec fn int_line(n: int) -> Seq<u8> {
    seq![58u8, if n >= 0 { 43u8 } else { 45u8 }] + digits(abs(n)) + crlf()
}

/// The bytes `encode` produces for a frame.
#[verifier::opaque]
pub open spec fn enc(v: Value) -> Seq<u8>
    decreases v,
{
    match v {
        Value::Simple(s) => line(43u8, s),
        Value::Error(s) => line(45u8, s),
        Value::Integer(n) => int_line(n),
        Value::Bulk(b) => if b.len() == 0 {
            null_bulk()
        } else {
            header(36u8, b.len()) + b + crlf()
        },
        Value::Array(s) => if s.len() == 0 {
            null_array()
        } else {
            header(42u8, s.len()) + enc_list(s, s.len() as int) + crlf()
        },
        Value::Null => null_line(),
        Value::Boolean(b) => bool_line(b),
        Value::Double(t) => line(44u8, t),
        Value::MapOf(es) => header(37u8, es.len()) + enc_entries(es, es.len() as int),
        Value::SetOf(s) => header(126u8, kept_count(s, s.len() as int)) + enc_kept(s, s.len() as int),
    }
}

/// The encodings of the first `n` frames of `s`, one after another.
pub open spec fn enc_list(s: Seq<Value>, n: int) -> Seq<u8>
    decreases s, n,
{
    if n <= 0 || n > s.len() {
        Seq::empty()
    } else {
        enc_list(s, n - 1) + enc(s[n - 1])
    }
}

/// The first `n` entries of a map: each key as a simple string, then its value.
pub open spec fn enc_entries(es: Seq<(Seq<char>, Value)>, n: int) -> Seq<u8>
    decreases es, n,
{
    if n <= 0 || n > es.len() {
        Seq::empty()
    } else {
        enc_entries(es, n - 1) + line(43u8, es[n - 1].0) + enc(es[n - 1].1)
    }
}

/// Whether one of the first `j` elements of `s` encodes as `s[i]` does.
pub open spec fn seen(s: Seq<Value>, i: int, j: int) -> bool
    decreases s, j,
{
    if j <= 0 || j > s.len() || i < 0 || i >= s.len() {
        false
    } else {
        seen(s, i, j - 1) || enc(s[j - 1]) == enc(s[i])
    }
}

/// The first `n` elements of a set, each skipped where an earlier one has the same bytes.
pub open spec fn enc_kept(s: Seq<Value>, n: int) -> Seq<u8>
    decreases s, n,
{
    if n <= 0 || n > s.len() {
        Seq::empty()
    } else if seen(s, n - 1, n - 1) {
        enc_kept(s, n - 1)
    } else {
        enc_kept(s, n - 1) + enc(s[n - 1])
    }
}

/// How many of the first `n` elements of a set are kept.
pub open spec fn kept_count(s: Seq<Value>, n: int) -> nat
    decreases s, n,
{
    if n <= 0 || n > s.len() {
        0
    } else if seen(s, n - 1, n - 1) {
        kept_count(s, n - 1)
    } else {
        kept_count(s, n - 1) + 1
    }
}

} // verus!
