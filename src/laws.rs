//! What holds of the codec as a whole: decoding an encoding gives the frame back.
use crate::encode::RespEncode;
use crate::frame::{entry_models, model, RespFrame, RespMap, Value};
use crate::grammar::{
    all_digits, body_text, build_map, bytes_lt, crlf_at, digit_val, first_crlf, fixed, float_lit, insert_entry,
    key_lt, length_header, nth_crlf_from, parse, parse_int, parse_items, parse_len_body, parse_top,
    parse_pairs, prepend, signed_value, simple_end, sorted_keys, trailing_crlf,
};
use crate::wire::{
    abs, bool_line, crlf, digits, enc, enc_entries, enc_kept, enc_list, header, int_line, kept_count,
    line, null_array, null_bulk, null_line, seen,
};
use vstd::prelude::*;
use vstd::utf8::{encode_utf8};

verus! {

broadcast use {vstd::utf8::encode_utf8_valid_utf8, vstd::utf8::encode_utf8_decode_utf8};

/// No CR and no LF byte.
pub open spec fn no_line_break(b: Seq<u8>) -> bool {
    forall|i: int| 0 <= i < b.len() ==> #[trigger] b[i] != 13u8 && b[i] != 10u8
}

/// Text that a single-line frame can carry.
pub open spec fn line_text(t: Seq<char>) -> bool {
    no_line_break(encode_utf8(t))
}

pub open spec fn distinct_encodings(s: Seq<Value>) -> bool {
    forall|i: int, j: int| 0 <= i < j < s.len() ==> enc(#[trigger] s[i]) != enc(#[trigger] s[j])
}

/// Frames the codec carries unchanged: line texts without CR or LF, doubles whose text
/// is a float literal, integers of 64 bits, lengths that fit a `usize`, map keys in
/// increasing byte order, set elements with distinct encodings.
pub open spec fn round_trips(v: Value) -> bool
    decreases v,
{
    match v {
        Value::Simple(t) => line_text(t),
        Value::Error(t) => line_text(t),
        Value::Integer(n) => i64::MIN <= n <= i64::MAX,
        Value::Bulk(b) => b.len() <= usize::MAX,
        Value::Array(s) => s.len() <= usize::MAX && all_round_trip(s, s.len() as int),
        Value::Null => true,
        Value::Boolean(_) => true,
        Value::Double(t) => line_text(t) && float_lit(encode_utf8(t)),
        Value::MapOf(es) => es.len() <= usize::MAX && sorted_keys(es) && entries_round_trip(
            es,
            es.len() as int,
        ),
        Value::SetOf(s) => s.len() <= usize::MAX && distinct_encodings(s) && all_round_trip(
            s,
            s.len() as int,
        ),
    }
}

pub open spec fn all_round_trip(s: Seq<Value>, n: int) -> bool
    decreases s, n,
{
    if n <= 0 || n > s.len() {
        true
    } else {
        all_round_trip(s, n - 1) && round_trips(s[n - 1])
    }
}

pub open spec fn entries_round_trip(es: Seq<(Seq<char>, Value)>, n: int) -> bool
    decreases es, n,
{
    if n <= 0 || n > es.len() {
        true
    } else {
        entries_round_trip(es, n - 1) && line_text(es[n - 1].0) && round_trips(es[n - 1].1)
    }
}

proof fn lemma_all_round_trip(s: Seq<Value>, n: int, i: int)
    requires
        0 <= i < n <= s.len(),
        all_round_trip(s, n),
    ensures
        round_trips(s[i]),
    decreases n,
{
    if i < n - 1 {
        lemma_all_round_trip(s, n - 1, i);
    }
}

proof fn lemma_entries_round_trip(es: Seq<(Seq<char>, Value)>, n: int, i: int)
    requires
        0 <= i < n <= es.len(),
        entries_round_trip(es, n),
    ensures
        line_text(es[i].0) && round_trips(es[i].1),
    decreases n,
{
    if i < n - 1 {
        lemma_entries_round_trip(es, n - 1, i);
    }
}

/// The digits of `n` are decimal digits, at least one, and read back as `n`.
pub proof fn lemma_digits(n: nat)
    ensures
        digits(n).len() >= 1,
        all_digits(digits(n)),
        digit_val(digits(n)) == n,
    decreases n,
{
    let d = digits(n);
    assert(((48 + n % 10) as u8) as int == 48 + n % 10);
    assert(digit_val(d) == digit_val(d.drop_last()) * 10 + (d.last() - 48) as nat);
    if n < 10 {
        assert(d.drop_last() =~= Seq::<u8>::empty());
        assert(d.last() == (48 + n) as u8);
        assert(digit_val(d.drop_last()) == 0);
    } else {
        lemma_digits(n / 10);
        assert(d.drop_last() =~= digits(n / 10));
        assert(d.last() == (48 + n % 10) as u8);
        assert(n == (n / 10) * 10 + n % 10) by (nonlinear_arith);
        assert forall|i: int| 0 <= i < d.len() implies crate::grammar::is_digit(#[trigger] d[i]) by {
            if i < d.len() - 1 {
                assert(d[i] == digits(n / 10)[i]);
            }
        }
    }
}

/// In `tag body CRLF rest` with no CR in `body`, the first CRLF after the tag ends `body`.
proof fn lemma_first_crlf(tag: u8, body: Seq<u8>, rest: Seq<u8>)
    requires
        no_line_break(body),
    ensures
        first_crlf(seq![tag] + body + crlf() + rest) == Some(1 + body.len() as int),
        simple_end(seq![tag] + body + crlf() + rest, tag) == Ok::<int, crate::frame::ErrorKind>(
            1 + body.len() as int,
        ),
        (seq![tag] + body + crlf() + rest).subrange(1, 1 + body.len() as int) == body,
{
    let s = seq![tag] + body + crlf() + rest;
    let e = 1 + body.len() as int;
    assert(crlf_at(s, e));
    assert forall|j: int| 1 <= j < e implies !crlf_at(s, j) by {
        assert(s[j] == body[j - 1]);
    }
    lemma_crlf_scan(s, 1, e);
    assert(s.subrange(1, e) =~= body);
}

/// Where no CRLF starts in `[i, e)` and one starts at `e`, the first from `i` is at `e`.
proof fn lemma_crlf_scan(s: Seq<u8>, i: int, e: int)
    requires
        0 <= i <= e,
        crlf_at(s, e),
        forall|j: int| i <= j < e ==> !crlf_at(s, j),
    ensures
        nth_crlf_from(s, i, 1) == Some(e),
    decreases e - i,
{
    if i < e {
        lemma_crlf_scan(s, i + 1, e);
    }
}

proof fn lemma_digits_no_break(n: nat)
    ensures
        no_line_break(digits(n)),
        digits(n)[0] != 45u8 && digits(n)[0] != 43u8,
{
    lemma_digits(n);
    assert forall|i: int| 0 <= i < digits(n).len() implies #[trigger] digits(n)[i] != 13u8
        && digits(n)[i] != 10u8 by {
        assert(crate::grammar::is_digit(digits(n)[i]));
    }
    assert(crate::grammar::is_digit(digits(n)[0]));
}

/// A length header of `n` reads back as `n`.
proof fn lemma_header(tag: u8, n: nat, rest: Seq<u8>)
    requires
        n <= usize::MAX,
    ensures
        length_header(header(tag, n) + rest, tag) == Ok::<(int, Option<nat>), crate::frame::ErrorKind>(
            (digits(n).len() as int + 1, Some(n)),
        ),
{
    lemma_digits(n);
    lemma_digits_no_break(n);
    assert(header(tag, n) + rest == seq![tag] + digits(n) + crlf() + rest);
    lemma_first_crlf(tag, digits(n), rest);
    assert(signed_value(digits(n)) == Some(n as int));
}

/// A length-prefixed frame never matches a null literal.
proof fn lemma_not_null_literal(tag: u8, n: nat, rest: Seq<u8>, lit: Seq<u8>)
    requires
        lit.len() == 5,
        lit[1] == 45u8,
        header(tag, n).len() + rest.len() >= 5,
    ensures
        fixed(header(tag, n) + rest, lit) == Err::<(), crate::frame::ErrorKind>(
            crate::frame::ErrorKind::InvalidFrameType,
        ),
{
    lemma_digits(n);
    lemma_digits_no_break(n);
    let s = header(tag, n) + rest;
    assert(s[1] == digits(n)[0]);
    assert(s.subrange(0, 5)[1] != lit[1]);
}

/// The encodings of `s[i..j]`, one after another.
pub open spec fn enc_range(s: Seq<Value>, i: int, j: int) -> Seq<u8>
    decreases j - i,
{
    if i >= j {
        Seq::empty()
    } else {
        enc(s[i]) + enc_range(s, i + 1, j)
    }
}

proof fn lemma_enc_range_snoc(s: Seq<Value>, i: int, j: int)
    requires
        i <= j,
    ensures
        enc_range(s, i, j + 1) == enc_range(s, i, j) + enc(s[j]),
    decreases j - i,
{
    if i < j {
        lemma_enc_range_snoc(s, i + 1, j);
        assert(enc(s[i]) + (enc_range(s, i + 1, j) + enc(s[j])) =~= (enc(s[i]) + enc_range(
            s,
            i + 1,
            j,
        )) + enc(s[j]));
    } else {
        assert(enc_range(s, j + 1, j + 1) == Seq::<u8>::empty());
        assert(enc(s[j]) + Seq::<u8>::empty() =~= Seq::<u8>::empty() + enc(s[j]));
    }
}

proof fn lemma_enc_list_range(s: Seq<Value>, n: int)
    requires
        0 <= n <= s.len(),
    ensures
        enc_list(s, n) == enc_range(s, 0, n),
    decreases n,
{
    reveal(enc);
    if n > 0 {
        lemma_enc_list_range(s, n - 1);
        lemma_enc_range_snoc(s, 0, n - 1);
    }
}

/// The entries `es[i..j]`, encoded one after another.
pub open spec fn entries_range(es: Seq<(Seq<char>, Value)>, i: int, j: int) -> Seq<u8>
    decreases j - i,
{
    if i >= j {
        Seq::empty()
    } else {
        line(43u8, es[i].0) + enc(es[i].1) + entries_range(es, i + 1, j)
    }
}

proof fn lemma_entries_range_snoc(es: Seq<(Seq<char>, Value)>, i: int, j: int)
    requires
        i <= j,
    ensures
        entries_range(es, i, j + 1) == entries_range(es, i, j) + line(43u8, es[j].0) + enc(es[j].1),
    decreases j - i,
{
    if i < j {
        lemma_entries_range_snoc(es, i + 1, j);
        let a = line(43u8, es[i].0) + enc(es[i].1);
        let b = line(43u8, es[j].0) + enc(es[j].1);
        assert(a + (entries_range(es, i + 1, j) + line(43u8, es[j].0) + enc(es[j].1)) =~= (a
            + entries_range(es, i + 1, j)) + line(43u8, es[j].0) + enc(es[j].1));
    } else {
        assert(entries_range(es, j + 1, j + 1) == Seq::<u8>::empty());
        assert(line(43u8, es[j].0) + enc(es[j].1) + Seq::<u8>::empty() =~= Seq::<u8>::empty()
            + line(43u8, es[j].0) + enc(es[j].1));
    }
}

proof fn lemma_enc_entries_range(es: Seq<(Seq<char>, Value)>, n: int)
    requires
        0 <= n <= es.len(),
    ensures
        enc_entries(es, n) == entries_range(es, 0, n),
    decreases n,
{
    reveal(enc);
    if n > 0 {
        lemma_enc_entries_range(es, n - 1);
        lemma_entries_range_snoc(es, 0, n - 1);
    }
}

/// A line frame of `t` decodes to its text.
proof fn lemma_line_parse(tag: u8, t: Seq<char>, rest: Seq<u8>)
    requires
        line_text(t),
    ensures
        simple_end(line(tag, t) + rest, tag) == Ok::<int, crate::frame::ErrorKind>(
            1 + encode_utf8(t).len() as int,
        ),
        body_text((line(tag, t) + rest).subrange(1, 1 + encode_utf8(t).len() as int)) == t,
        (line(tag, t) + rest).subrange(1, 1 + encode_utf8(t).len() as int) == encode_utf8(t),
        line(tag, t).len() == encode_utf8(t).len() + 3,
{
    assert(line(tag, t) + rest == seq![tag] + encode_utf8(t) + crlf() + rest);
    lemma_first_crlf(tag, encode_utf8(t), rest);
}

/// Decoding the encoding of a frame, followed by anything, gives the frame back and
/// takes exactly the encoding.
pub proof fn lemma_parse_enc(v: Value, rest: Seq<u8>)
    requires
        round_trips(v),
    ensures
        parse(enc(v) + rest) == Ok::<(Value, nat), crate::frame::ErrorKind>((v, enc(v).len())),
    decreases v, 0int,
{
    match v {
        Value::Simple(t) => lemma_rt_line(v, 43u8, t, rest),
        Value::Error(t) => lemma_rt_line(v, 45u8, t, rest),
        Value::Double(t) => lemma_rt_line(v, 44u8, t, rest),
        Value::Integer(n) => lemma_rt_int(n, rest),
        Value::Bulk(b) => lemma_rt_bulk(b, rest),
        Value::Array(items) => lemma_rt_array(items, rest),
        Value::Null => {
            let s = enc(v) + rest;
            assert(enc(v) == null_line()) by {
                reveal(enc);
            }
            assert(s.subrange(0, 3) =~= null_line());
        },
        Value::Boolean(b) => {
            let s = enc(v) + rest;
            assert(enc(v) == bool_line(b)) by {
                reveal(enc);
            }
            if b {
                assert(s.subrange(0, 4) =~= bool_line(true));
            } else {
                assert(s.subrange(0, 4)[1] != bool_line(true)[1]);
                assert(s.subrange(0, 4) =~= bool_line(false));
            }
        },
        Value::MapOf(es) => lemma_rt_map(es, rest),
        Value::SetOf(items) => lemma_rt_set(items, rest),
    }
}

proof fn lemma_rt_line(v: Value, tag: u8, t: Seq<char>, rest: Seq<u8>)
    requires
        line_text(t),
        tag == 43u8 && v == Value::Simple(t) || tag == 45u8 && v == Value::Error(t) || tag == 44u8
            && v == Value::Double(t) && float_lit(encode_utf8(t)),
    ensures
        parse(enc(v) + rest) == Ok::<(Value, nat), crate::frame::ErrorKind>((v, enc(v).len())),
{
    assert(enc(v) == line(tag, t)) by {
        reveal(enc);
    }
    lemma_line_parse(tag, t, rest);
}

proof fn lemma_rt_int(n: int, rest: Seq<u8>)
    requires
        i64::MIN <= n <= i64::MAX,
    ensures
        parse(enc(Value::Integer(n)) + rest) == Ok::<(Value, nat), crate::frame::ErrorKind>(
            (Value::Integer(n), enc(Value::Integer(n)).len()),
        ),
{
    assert(enc(Value::Integer(n)) == int_line(n)) by {
        reveal(enc);
    }
    let sign: u8 = if n >= 0 {
        43u8
    } else {
        45u8
    };
    let body = seq![sign] + digits(abs(n));
    lemma_digits(abs(n));
    lemma_digits_no_break(abs(n));
    assert(int_line(n) == seq![58u8] + body + crlf());
    assert(no_line_break(body)) by {
        assert forall|i: int| 0 <= i < body.len() implies #[trigger] body[i] != 13u8 && body[i]
            != 10u8 by {
            if i > 0 {
                assert(body[i] == digits(abs(n))[i - 1]);
            }
        }
    }
    lemma_first_crlf(58u8, body, rest);
    assert(body.drop_first() =~= digits(abs(n)));
    assert(parse_int(body) == Some(n));
}

proof fn lemma_rt_bulk(b: Seq<u8>, rest: Seq<u8>)
    requires
        b.len() <= usize::MAX,
    ensures
        parse(enc(Value::Bulk(b)) + rest) == Ok::<(Value, nat), crate::frame::ErrorKind>(
            (Value::Bulk(b), enc(Value::Bulk(b)).len()),
        ),
{
    let v = Value::Bulk(b);
    let s = enc(v) + rest;
    if b.len() == 0 {
        assert(enc(v) == null_bulk()) by {
            reveal(enc);
        }
        assert(s.subrange(0, 5) =~= null_bulk());
        assert(b =~= Seq::<u8>::empty());
    } else {
        let h = header(36u8, b.len());
        assert(enc(v) == h + b + crlf()) by {
            reveal(enc);
        }
        lemma_header(36u8, b.len(), b + crlf() + rest);
        lemma_not_null_literal(36u8, b.len(), b + crlf() + rest, null_bulk());
        assert(s =~= h + (b + crlf() + rest));
        let e = digits(b.len()).len() as int + 1;
        assert(h.len() == e + 2);
        assert(s.subrange(e + 2, e + 2 + b.len()) =~= b);
        assert(s.subrange(e + b.len() + 2, e + b.len() + 4) =~= crlf());
    }
}

proof fn lemma_rt_array(items: Seq<Value>, rest: Seq<u8>)
    requires
        round_trips(Value::Array(items)),
    ensures
        parse(enc(Value::Array(items)) + rest) == Ok::<(Value, nat), crate::frame::ErrorKind>(
            (Value::Array(items), enc(Value::Array(items)).len()),
        ),
    decreases items, items.len() + 1,
{
    let v = Value::Array(items);
    let s = enc(v) + rest;
    if items.len() == 0 {
        assert(enc(v) == null_array()) by {
            reveal(enc);
        }
        assert(s.subrange(0, 5) =~= null_array());
        assert(items =~= Seq::<Value>::empty());
    } else {
        let n = items.len();
        let h = header(42u8, n);
        let body = enc_list(items, n as int);
        assert(enc(v) == h + body + crlf()) by {
            reveal(enc);
        }
        lemma_enc_list_range(items, n as int);
        lemma_header(42u8, n, body + crlf() + rest);
        lemma_not_null_literal(42u8, n, body + crlf() + rest, null_array());
        assert(s =~= h + (body + crlf() + rest));
        let e = digits(n).len() as int + 1;
        assert(s.subrange(e + 2, s.len() as int) =~= body + (crlf() + rest));
        lemma_parse_list(items, 0, crlf() + rest);
        assert(items.subrange(0, n as int) =~= items);
        let end = e + 2 + body.len();
        assert(s[end] == 13u8 && s[end + 1] == 10u8);
        assert(trailing_crlf(s, end) == 2);
    }
}

proof fn lemma_rt_map(es: Seq<(Seq<char>, Value)>, rest: Seq<u8>)
    requires
        round_trips(Value::MapOf(es)),
    ensures
        parse(enc(Value::MapOf(es)) + rest) == Ok::<(Value, nat), crate::frame::ErrorKind>(
            (Value::MapOf(es), enc(Value::MapOf(es)).len()),
        ),
    decreases es, es.len() + 1,
{
    let v = Value::MapOf(es);
    let s = enc(v) + rest;
    let n = es.len();
    let h = header(37u8, n);
    let body = enc_entries(es, n as int);
    assert(enc(v) == h + body) by {
        reveal(enc);
    }
    lemma_enc_entries_range(es, n as int);
    lemma_header(37u8, n, body + rest);
    assert(s =~= h + (body + rest));
    let e = digits(n).len() as int + 1;
    assert(s.subrange(e + 2, s.len() as int) =~= body + rest);
    lemma_parse_entries(es, 0, rest);
    assert(es.subrange(0, n as int) =~= es);
    lemma_build_sorted(es, n as int);
}

proof fn lemma_rt_set(items: Seq<Value>, rest: Seq<u8>)
    requires
        round_trips(Value::SetOf(items)),
    ensures
        parse(enc(Value::SetOf(items)) + rest) == Ok::<(Value, nat), crate::frame::ErrorKind>(
            (Value::SetOf(items), enc(Value::SetOf(items)).len()),
        ),
    decreases items, items.len() + 1,
{
    let v = Value::SetOf(items);
    let s = enc(v) + rest;
    let n = items.len();
    lemma_kept_all(items, n as int);
    let h = header(126u8, n);
    let body = enc_list(items, n as int);
    assert(enc(v) == h + body) by {
        reveal(enc);
    }
    lemma_enc_list_range(items, n as int);
    lemma_header(126u8, n, body + rest);
    assert(s =~= h + (body + rest));
    let e = digits(n).len() as int + 1;
    assert(s.subrange(e + 2, s.len() as int) =~= body + rest);
    lemma_parse_list(items, 0, rest);
    assert(items.subrange(0, n as int) =~= items);
}

/// Decoding the encodings of `items[i..]`, followed by anything, gives those items back.
proof fn lemma_parse_list(items: Seq<Value>, i: int, rest: Seq<u8>)
    requires
        0 <= i <= items.len(),
        all_round_trip(items, items.len() as int),
    ensures
        parse_items(enc_range(items, i, items.len() as int) + rest, (items.len() - i) as nat)
            == Ok::<(Seq<Value>, nat), crate::frame::ErrorKind>(
            (items.subrange(i, items.len() as int), enc_range(items, i, items.len() as int).len()),
        ),
    decreases items, items.len() - i,
{
    let n = items.len() as int;
    if i < n {
        lemma_all_round_trip(items, n, i);
        let tail = enc_range(items, i + 1, n) + rest;
        let s = enc_range(items, i, n) + rest;
        assert(s =~= enc(items[i]) + tail);
        lemma_parse_enc(items[i], tail);
        let a = enc(items[i]).len();
        assert(s.subrange(a as int, s.len() as int) =~= tail);
        lemma_parse_list(items, i + 1, rest);
        assert(seq![items[i]] + items.subrange(i + 1, n) =~= items.subrange(i, n));
    } else {
        assert(items.subrange(i, n) =~= Seq::<Value>::empty());
    }
}

/// Decoding the encodings of the entries `es[i..]`, followed by anything, gives those
/// entries back.
#[verifier::rlimit(80)]
proof fn lemma_parse_entries(es: Seq<(Seq<char>, Value)>, i: int, rest: Seq<u8>)
    requires
        0 <= i <= es.len(),
        entries_round_trip(es, es.len() as int),
    ensures
        parse_pairs(entries_range(es, i, es.len() as int) + rest, (es.len() - i) as nat)
            == Ok::<(Seq<(Seq<char>, Value)>, nat), crate::frame::ErrorKind>(
            (es.subrange(i, es.len() as int), entries_range(es, i, es.len() as int).len()),
        ),
    decreases es, es.len() - i,
{
    let n = es.len() as int;
    if i < n {
        lemma_entries_round_trip(es, n, i);
        let tail = entries_range(es, i + 1, n) + rest;
        let s = entries_range(es, i, n) + rest;
        let k = es[i].0;
        let kb = encode_utf8(k);
        assert(s =~= line(43u8, k) + (enc(es[i].1) + tail));
        lemma_line_parse(43u8, k, enc(es[i].1) + tail);
        let e = 1 + kb.len() as int;
        let after = s.subrange(e + 2, s.len() as int);
        assert(after =~= enc(es[i].1) + tail);
        assert(decreases_to!(es => es[i]));
        lemma_parse_enc(es[i].1, tail);
        let a = enc(es[i].1).len();
        assert(after.subrange(a as int, after.len() as int) =~= tail);
        lemma_parse_entries(es, i + 1, rest);
        assert(seq![(k, es[i].1)] + es.subrange(i + 1, n) =~= es.subrange(i, n));
    } else {
        assert(es.subrange(i, n) =~= Seq::<(Seq<char>, Value)>::empty());
    }
}

/// Inserting a key greater than every key present appends it.
proof fn lemma_insert_last(p: Seq<(Seq<char>, Value)>, k: Seq<char>, v: Value)
    requires
        forall|i: int| 0 <= i < p.len() ==> key_lt(#[trigger] p[i].0, k),
    ensures
        insert_entry(p, k, v) == p.push((k, v)),
    decreases p.len(),
{
    if p.len() > 0 {
        assert(key_lt(p[0].0, k));
        let q = p.drop_first();
        assert forall|i: int| 0 <= i < q.len() implies key_lt(#[trigger] q[i].0, k) by {
            assert(q[i] == p[i + 1]);
        }
        lemma_insert_last(q, k, v);
        assert(seq![p[0]] + q.push((k, v)) =~= p.push((k, v)));
    }
}

/// Inserting entries with increasing keys in order rebuilds them.
proof fn lemma_build_sorted(es: Seq<(Seq<char>, Value)>, n: int)
    requires
        0 <= n <= es.len(),
        sorted_keys(es),
    ensures
        build_map(es, n) == es.subrange(0, n),
    decreases n,
{
    if n > 0 {
        lemma_build_sorted(es, n - 1);
        let p = es.subrange(0, n - 1);
        assert forall|i: int| 0 <= i < p.len() implies key_lt(#[trigger] p[i].0, es[n - 1].0) by {
            assert(p[i] == es[i]);
        }
        lemma_insert_last(p, es[n - 1].0, es[n - 1].1);
        assert(p.push((es[n - 1].0, es[n - 1].1)) =~= es.subrange(0, n));
    } else {
        assert(es.subrange(0, 0) =~= Seq::<(Seq<char>, Value)>::empty());
    }
}

/// A set whose elements encode differently keeps them all.
proof fn lemma_kept_all(s: Seq<Value>, n: int)
    requires
        0 <= n <= s.len(),
        distinct_encodings(s),
    ensures
        enc_kept(s, n) == enc_list(s, n),
        kept_count(s, n) == n,
    decreases n,
{
    reveal(enc);
    if n > 0 {
        lemma_kept_all(s, n - 1);
        crate::encode::lemma_seen_iff(s, n - 1, n - 1);
        if seen(s, n - 1, n - 1) {
            let k = choose|k: int| 0 <= k < n - 1 && enc(#[trigger] s[k]) == enc(s[n - 1]);
            assert(enc(s[k]) != enc(s[n - 1]));
        }
    }
}

/// The bytes of an encoding that decoding it as a message of its own leaves for the next
/// read: the trailing CRLF of a non-empty array.
pub open spec fn left_over(v: Value) -> nat {
    match v {
        Value::Array(items) => if items.len() > 0 {
            2
        } else {
            0
        },
        _ => 0,
    }
}

/// The encoding of a frame other than an array does not start with the array tag.
proof fn lemma_first_byte(v: Value)
    requires
        !(v is Array),
    ensures
        enc(v).len() > 0 && enc(v)[0] != 42u8,
{
    reveal(enc);
    match v {
        Value::Simple(t) => assert(line(43u8, t)[0] == 43u8),
        Value::Error(t) => assert(line(45u8, t)[0] == 45u8),
        Value::Double(t) => assert(line(44u8, t)[0] == 44u8),
        Value::Integer(n) => assert(int_line(n)[0] == 58u8),
        Value::Bulk(b) => {
            if b.len() > 0 {
                assert((header(36u8, b.len()) + b + crlf())[0] == 36u8);
            }
        },
        Value::MapOf(es) => assert((header(37u8, es.len()) + enc_entries(es, es.len() as int))[0]
            == 37u8),
        Value::SetOf(xs) => assert((header(126u8, kept_count(xs, xs.len() as int)) + enc_kept(
            xs,
            xs.len() as int,
        ))[0] == 126u8),
        _ => {},
    }
}

/// Decoding a non-empty array's encoding as a message takes all of it but the trailing CRLF.
proof fn lemma_rt_array_top(items: Seq<Value>, rest: Seq<u8>)
    requires
        items.len() > 0,
        round_trips(Value::Array(items)),
    ensures
        parse_top(enc(Value::Array(items)) + rest) == Ok::<(Value, nat), crate::frame::ErrorKind>(
            (Value::Array(items), (enc(Value::Array(items)).len() - 2) as nat),
        ),
{
    let v = Value::Array(items);
    let s = enc(v) + rest;
    let n = items.len();
    let h = header(42u8, n);
    let body = enc_list(items, n as int);
    assert(enc(v) == h + body + crlf()) by {
        reveal(enc);
    }
    lemma_enc_list_range(items, n as int);
    lemma_header(42u8, n, body + crlf() + rest);
    lemma_not_null_literal(42u8, n, body + crlf() + rest, null_array());
    assert(s =~= h + (body + crlf() + rest));
    let e = digits(n).len() as int + 1;
    assert(s.subrange(e + 2, s.len() as int) =~= body + (crlf() + rest));
    lemma_parse_list(items, 0, crlf() + rest);
    assert(items.subrange(0, n as int) =~= items);
}

/// Decoding a frame's encoding as a message of its own gives the frame back.
proof fn lemma_top_enc(v: Value, rest: Seq<u8>)
    requires
        round_trips(v),
    ensures
        parse_top(enc(v) + rest) == Ok::<(Value, nat), crate::frame::ErrorKind>(
            (v, (enc(v).len() - left_over(v)) as nat),
        ),
{
    match v {
        Value::Array(items) => {
            if items.len() > 0 {
                lemma_rt_array_top(items, rest);
            } else {
                let s = enc(v) + rest;
                assert(enc(v) == null_array()) by {
                    reveal(enc);
                }
                assert(s.subrange(0, 5) =~= null_array());
                assert(items =~= Seq::<Value>::empty());
            }
        },
        _ => {
            lemma_parse_enc(v, rest);
            lemma_first_byte(v);
        },
    }
}

/// Round trip: decoding the bytes `encode` produces for a frame, followed by anything,
/// gives a frame with the same model and consumes exactly those bytes, but for the
/// trailing CRLF of a non-empty array, which is left for the next read.
pub proof fn law_round_trip(f: RespFrame, rest: Seq<u8>)
    requires
        round_trips(model(f)),
    ensures
        parse_top(f.wire() + rest) == Ok::<(Value, nat), crate::frame::ErrorKind>(
            (model(f), (f.wire().len() - left_over(model(f))) as nat),
        ),
{
    lemma_top_enc(model(f), rest);
}

/// Inside another frame an encoding is taken whole, an array's trailing CRLF included, so
/// that the frames after it decode.
pub proof fn law_round_trip_nested(f: RespFrame, rest: Seq<u8>)
    requires
        round_trips(model(f)),
    ensures
        parse(f.wire() + rest) == Ok::<(Value, nat), crate::frame::ErrorKind>((model(f), f.wire().len())),
{
    lemma_parse_enc(model(f), rest);
}

/// `expect_length` of an encoding is the length of that encoding, less the trailing CRLF
/// of a non-empty array.
pub proof fn law_expect_length(f: RespFrame)
    requires
        round_trips(model(f)),
    ensures
        parse_top(f.wire()) matches Ok((_, n)) && n == f.wire().len() - left_over(model(f)),
{
    lemma_top_enc(model(f), Seq::empty());
    assert(f.wire() + Seq::<u8>::empty() =~= f.wire());
}

proof fn lemma_bytes_lt_irreflexive(a: Seq<u8>)
    ensures
        !bytes_lt(a, a),
    decreases a.len(),
{
    if a.len() > 0 {
        lemma_bytes_lt_irreflexive(a.drop_first());
    }
}

proof fn lemma_bytes_lt_asymmetric(a: Seq<u8>, b: Seq<u8>)
    ensures
        !(bytes_lt(a, b) && bytes_lt(b, a)),
    decreases a.len(),
{
    if a.len() > 0 && b.len() > 0 && a[0] == b[0] {
        lemma_bytes_lt_asymmetric(a.drop_first(), b.drop_first());
    }
}

/// Two sequences of entries in strictly increasing key order that hold the same
/// entries are the same sequence.
proof fn lemma_sorted_unique(x: Seq<(Seq<char>, Value)>, y: Seq<(Seq<char>, Value)>)
    requires
        sorted_keys(x),
        sorted_keys(y),
        forall|e: (Seq<char>, Value)| x.contains(e) <==> y.contains(e),
    ensures
        x == y,
    decreases x.len(),
{
    if x.len() == 0 {
        if y.len() > 0 {
            assert(y.contains(y[0]));
        }
        assert(x =~= y);
    } else {
        assert(x.contains(x[0]));
        let j = choose|j: int| 0 <= j < y.len() && y[j] == x[0];
        assert(y.contains(y[0]));
        let i = choose|i: int| 0 <= i < x.len() && x[i] == y[0];
        if j > 0 {
            assert(key_lt(y[0].0, y[j].0));
            if i > 0 {
                assert(key_lt(x[0].0, x[i].0));
                lemma_bytes_lt_asymmetric(encode_utf8(x[0].0), encode_utf8(x[i].0));
            } else {
                lemma_bytes_lt_irreflexive(encode_utf8(y[0].0));
            }
        }
        assert(x[0] == y[0]);
        let xt = x.drop_first();
        let yt = y.drop_first();
        assert forall|e: (Seq<char>, Value)| xt.contains(e) <==> yt.contains(e) by {
            if xt.contains(e) {
                let k = choose|k: int| 0 <= k < xt.len() && xt[k] == e;
                assert(x[k + 1] == e);
                assert(x.contains(e));
                let m = choose|m: int| 0 <= m < y.len() && y[m] == e;
                if m == 0 {
                    assert(key_lt(x[0].0, x[k + 1].0));
                    lemma_bytes_lt_irreflexive(encode_utf8(x[0].0));
                }
                assert(yt[m - 1] == e);
            }
            if yt.contains(e) {
                let k = choose|k: int| 0 <= k < yt.len() && yt[k] == e;
                assert(y[k + 1] == e);
                assert(y.contains(e));
                let m = choose|m: int| 0 <= m < x.len() && x[m] == e;
                if m == 0 {
                    assert(key_lt(y[0].0, y[k + 1].0));
                    lemma_bytes_lt_irreflexive(encode_utf8(y[0].0));
                }
                assert(xt[m - 1] == e);
            }
        }
        assert forall|a: int, b: int| 0 <= a < b < xt.len() implies key_lt(
            #[trigger] xt[a].0,
            #[trigger] xt[b].0,
        ) by {
            assert(xt[a] == x[a + 1] && xt[b] == x[b + 1]);
        }
        assert forall|a: int, b: int| 0 <= a < b < yt.len() implies key_lt(
            #[trigger] yt[a].0,
            #[trigger] yt[b].0,
        ) by {
            assert(yt[a] == y[a + 1] && yt[b] == y[b + 1]);
        }
        lemma_sorted_unique(xt, yt);
        assert(x =~= seq![x[0]] + xt);
        assert(y =~= seq![y[0]] + yt);
    }
}

/// A map's encoding depends only on the entries it holds, not on the order in which they
/// were inserted: two maps in key order holding the same entries encode alike. Maps built
/// with `RespMap::new` and `RespMap::insert` are in key order, as their contracts state.
pub proof fn law_map_encoding_determined(a: RespMap, b: RespMap)
    requires
        sorted_keys(entry_models(a.0@)),
        sorted_keys(entry_models(b.0@)),
        forall|e: (Seq<char>, Value)| entry_models(a.0@).contains(e) <==> entry_models(b.0@).contains(e),
    ensures
        a.wire() == b.wire(),
{
    lemma_sorted_unique(entry_models(a.0@), entry_models(b.0@));
}

/// A negative length other than `-1` in the header of a bulk string, an array, a map or
/// a set is an invalid frame.
pub proof fn law_negative_length(tag: u8, d: Seq<u8>, rest: Seq<u8>)
    requires
        tag == 36u8 || tag == 42u8 || tag == 37u8 || tag == 126u8,
        d.len() > 0,
        all_digits(d),
        d != seq![49u8],
    ensures
        parse(seq![tag, 45u8] + d + crlf() + rest) == Err::<(Value, nat), crate::frame::ErrorKind>(
            crate::frame::ErrorKind::InvalidFrame,
        ),
{
    let body = seq![45u8] + d;
    let s = seq![tag, 45u8] + d + crlf() + rest;
    assert(s == seq![tag] + body + crlf() + rest);
    assert(no_line_break(body)) by {
        assert forall|i: int| 0 <= i < body.len() implies #[trigger] body[i] != 13u8 && body[i]
            != 10u8 by {
            if i > 0 {
                assert(body[i] == d[i - 1]);
                assert(crate::grammar::is_digit(d[i - 1]));
            }
        }
    }
    lemma_first_crlf(tag, body, rest);
    if body == seq![45u8, 49u8] {
        assert(d =~= body.drop_first());
        assert(d =~= seq![49u8]);
    }
    assert(parse_len_body(body) == Err::<Option<nat>, crate::frame::ErrorKind>(
        crate::frame::ErrorKind::InvalidFrame,
    ));
    if tag == 36u8 || tag == 42u8 {
        let lit = if tag == 36u8 {
            null_bulk()
        } else {
            null_array()
        };
        assert(s.len() >= 5);
        if d.len() == 1 {
            assert(d[0] != 49u8) by {
                if d[0] == 49u8 {
                    assert(d =~= seq![49u8]);
                }
            }
            assert(s.subrange(0, 5)[2] != lit[2]);
        } else {
            assert(crate::grammar::is_digit(d[1]));
            assert(s.subrange(0, 5)[3] != lit[3]);
        }
    }
}

/// `#` followed by a byte other than `t` or `f` and a CRLF is an invalid frame type.
pub proof fn law_boolean_other(x: u8, rest: Seq<u8>)
    requires
        x != 116u8 && x != 102u8,
    ensures
        parse(seq![35u8, x, 13u8, 10u8] + rest) == Err::<(Value, nat), crate::frame::ErrorKind>(
            crate::frame::ErrorKind::InvalidFrameType,
        ),
{
    let s = seq![35u8, x, 13u8, 10u8] + rest;
    assert(s.subrange(0, 4)[1] != bool_line(true)[1]);
    assert(s.subrange(0, 4)[1] != bool_line(false)[1]);
}

/// A boolean cut short, before its CRLF is complete, is incomplete.
pub proof fn law_boolean_truncated(s: Seq<u8>)
    requires
        0 < s.len() < 4,
        s[0] == 35u8,
    ensures
        parse(s) == Err::<(Value, nat), crate::frame::ErrorKind>(crate::frame::ErrorKind::NotComplete),
{
}

/// A decoding result on a `k`-byte input that is not a failure of form: more input is
/// needed, or a frame took all `k` bytes.
pub open spec fn settles<T>(r: Result<(T, nat), crate::frame::ErrorKind>, k: int) -> bool {
    r == Err::<(T, nat), crate::frame::ErrorKind>(crate::frame::ErrorKind::NotComplete) || (
    r matches Ok((_, m)) && m == k)
}

proof fn lemma_no_crlf(s: Seq<u8>, i: int)
    requires
        0 <= i,
        forall|j: int| i <= j ==> !crlf_at(s, j),
    ensures
        nth_crlf_from(s, i, 1) is None,
    decreases s.len() - i,
{
    if i + 1 < s.len() {
        lemma_no_crlf(s, i + 1);
    }
}

/// A line frame cut short has no CRLF after its tag yet.
proof fn lemma_line_cut(tag: u8, body: Seq<u8>, k: int)
    requires
        no_line_break(body),
        0 <= k < body.len() + 3,
    ensures
        simple_end((seq![tag] + body + crlf()).subrange(0, k), tag) == Err::<
            int,
            crate::frame::ErrorKind,
        >(crate::frame::ErrorKind::NotComplete) || k == 0,
{
    let full = seq![tag] + body + crlf();
    let p = full.subrange(0, k);
    if k >= 3 {
        assert forall|j: int| 1 <= j implies !crlf_at(p, j) by {
            if 1 <= j <= body.len() && j + 1 < p.len() {
                assert(p[j] == body[j - 1]);
            }
        }
        lemma_no_crlf(p, 1);
    }
}

/// A length header cut short reads as incomplete.
proof fn lemma_header_cut(tag: u8, n: nat, rest: Seq<u8>, k: int)
    requires
        1 <= k < header(tag, n).len(),
    ensures
        length_header((header(tag, n) + rest).subrange(0, k), tag) == Err::<
            (int, Option<nat>),
            crate::frame::ErrorKind,
        >(crate::frame::ErrorKind::NotComplete),
{
    lemma_digits_no_break(n);
    let p = (header(tag, n) + rest).subrange(0, k);
    assert(header(tag, n) == seq![tag] + digits(n) + crlf());
    assert(p == (seq![tag] + digits(n) + crlf()).subrange(0, k));
    lemma_line_cut(tag, digits(n), k);
}

/// Every prefix of a frame's encoding decodes as incomplete, or as a frame that takes
/// all of it; never as a failure of form.
pub proof fn lemma_prefix(v: Value, k: int)
    requires
        round_trips(v),
        0 <= k <= enc(v).len(),
    ensures
        settles(parse(enc(v).subrange(0, k)), k),
    decreases v, 0int,
{
    let e = enc(v);
    if k == e.len() {
        lemma_parse_enc(v, Seq::empty());
        assert(e + Seq::<u8>::empty() =~= e);
        assert(e.subrange(0, k) =~= e);
        return;
    }
    if k == 0 {
        assert(e.subrange(0, 0) =~= Seq::<u8>::empty());
        return;
    }
    let p = e.subrange(0, k);
    match v {
        Value::Simple(t) => {
            assert(e == line(43u8, t)) by {
                reveal(enc);
            }
            lemma_line_cut(43u8, encode_utf8(t), k);
        },
        Value::Error(t) => {
            assert(e == line(45u8, t)) by {
                reveal(enc);
            }
            lemma_line_cut(45u8, encode_utf8(t), k);
        },
        Value::Double(t) => {
            assert(e == line(44u8, t)) by {
                reveal(enc);
            }
            lemma_line_cut(44u8, encode_utf8(t), k);
        },
        Value::Integer(n) => {
            assert(e == int_line(n)) by {
                reveal(enc);
            }
            let sign: u8 = if n >= 0 {
                43u8
            } else {
                45u8
            };
            let body = seq![sign] + digits(abs(n));
            lemma_digits_no_break(abs(n));
            assert(int_line(n) == seq![58u8] + body + crlf());
            assert(no_line_break(body)) by {
                assert forall|i: int| 0 <= i < body.len() implies #[trigger] body[i] != 13u8
                    && body[i] != 10u8 by {
                    if i > 0 {
                        assert(body[i] == digits(abs(n))[i - 1]);
                    }
                }
            }
            lemma_line_cut(58u8, body, k);
        },
        Value::Null => {
            assert(e == null_line()) by {
                reveal(enc);
            }
        },
        Value::Boolean(b) => {
            assert(e == bool_line(b)) by {
                reveal(enc);
            }
        },
        Value::Bulk(b) => {
            if b.len() == 0 {
                assert(e == null_bulk()) by {
                    reveal(enc);
                }
            } else {
                lemma_prefix_bulk(b, k);
            }
        },
        Value::Array(items) => {
            if items.len() == 0 {
                assert(e == null_array()) by {
                    reveal(enc);
                }
            } else {
                lemma_prefix_array(items, k);
            }
        },
        Value::MapOf(es) => lemma_prefix_map(es, k),
        Value::SetOf(items) => lemma_prefix_set(items, k),
    }
}

proof fn lemma_prefix_bulk(b: Seq<u8>, k: int)
    requires
        0 < b.len() <= usize::MAX,
        0 < k < enc(Value::Bulk(b)).len(),
    ensures
        settles(parse(enc(Value::Bulk(b)).subrange(0, k)), k),
{
    let h = header(36u8, b.len());
    let e = enc(Value::Bulk(b));
    assert(e == h + (b + crlf())) by {
        reveal(enc);
        assert(h + b + crlf() =~= h + (b + crlf()));
    }
    let p = e.subrange(0, k);
    if k >= 5 {
        lemma_not_null_literal(36u8, b.len(), b + crlf(), null_bulk());
        assert(p.subrange(0, 5) == e.subrange(0, 5));
        assert(p.subrange(0, 5) != null_bulk());
        if k < h.len() {
            lemma_header_cut(36u8, b.len(), b + crlf(), k);
        } else {
            lemma_header(36u8, b.len(), b + crlf());
            let rest = e.subrange(k, e.len() as int);
            assert(e == p + rest);
            assert(p == h + e.subrange(h.len() as int, k));
            lemma_header(36u8, b.len(), e.subrange(h.len() as int, k));
        }
    }
}

proof fn lemma_prefix_array(items: Seq<Value>, k: int)
    requires
        items.len() > 0,
        round_trips(Value::Array(items)),
        0 < k < enc(Value::Array(items)).len(),
    ensures
        settles(parse(enc(Value::Array(items)).subrange(0, k)), k),
    decreases items, items.len() + 1,
{
    let n = items.len();
    let h = header(42u8, n);
    let body = enc_list(items, n as int);
    let e = enc(Value::Array(items));
    assert(e == h + (body + crlf())) by {
        reveal(enc);
        assert(h + body + crlf() =~= h + (body + crlf()));
    }
    lemma_enc_list_range(items, n as int);
    let p = e.subrange(0, k);
    if k >= 5 {
        lemma_not_null_literal(42u8, n, body + crlf(), null_array());
        assert(p.subrange(0, 5) == e.subrange(0, 5));
        assert(p.subrange(0, 5) != null_array());
        if k < h.len() {
            lemma_header_cut(42u8, n, body + crlf(), k);
        } else {
            let tail = e.subrange(h.len() as int, k);
            assert(p =~= h + tail);
            lemma_header(42u8, n, tail);
            let hl = h.len() as int;
            assert(p.subrange(hl, p.len() as int) =~= tail);
            if k - hl <= body.len() {
                assert(tail =~= body.subrange(0, k - hl));
                lemma_prefix_list(items, 0, k - hl);
            } else {
                let part = crlf().subrange(0, k - hl - body.len());
                assert(tail =~= body + part);
                lemma_parse_list(items, 0, part);
                assert(items.subrange(0, n as int) =~= items);
                assert(p[hl + body.len()] == 13u8);
            }
        }
    }
}

proof fn lemma_prefix_set(items: Seq<Value>, k: int)
    requires
        round_trips(Value::SetOf(items)),
        0 < k < enc(Value::SetOf(items)).len(),
    ensures
        settles(parse(enc(Value::SetOf(items)).subrange(0, k)), k),
    decreases items, items.len() + 1,
{
    let n = items.len();
    lemma_kept_all(items, n as int);
    let h = header(126u8, n);
    let body = enc_list(items, n as int);
    let e = enc(Value::SetOf(items));
    assert(e == h + body) by {
        reveal(enc);
    }
    lemma_enc_list_range(items, n as int);
    let p = e.subrange(0, k);
    if k < h.len() {
        lemma_header_cut(126u8, n, body, k);
    } else {
        let tail = e.subrange(h.len() as int, k);
        assert(p =~= h + tail);
        lemma_header(126u8, n, tail);
        let hl = h.len() as int;
        assert(p.subrange(hl, p.len() as int) =~= tail);
        assert(tail =~= body.subrange(0, k - hl));
        lemma_prefix_list(items, 0, k - hl);
    }
}

#[verifier::rlimit(80)]
proof fn lemma_prefix_map(es: Seq<(Seq<char>, Value)>, k: int)
    requires
        round_trips(Value::MapOf(es)),
        0 < k < enc(Value::MapOf(es)).len(),
    ensures
        settles(parse(enc(Value::MapOf(es)).subrange(0, k)), k),
    decreases es, es.len() + 1,
{
    let n = es.len();
    let h = header(37u8, n);
    let body = enc_entries(es, n as int);
    let e = enc(Value::MapOf(es));
    assert(e == h + body) by {
        reveal(enc);
    }
    lemma_enc_entries_range(es, n as int);
    let p = e.subrange(0, k);
    if k < h.len() {
        lemma_header_cut(37u8, n, body, k);
    } else {
        let tail = e.subrange(h.len() as int, k);
        assert(p =~= h + tail);
        lemma_header(37u8, n, tail);
        let hl = h.len() as int;
        assert(p.subrange(hl, p.len() as int) =~= tail);
        assert(tail =~= body.subrange(0, k - hl));
        lemma_prefix_entries(es, 0, k - hl);
    }
}

/// A prefix of the encodings of `items[i..]` decodes, as that many frames, to
/// incomplete or to frames that take all of it.
#[verifier::rlimit(80)]
proof fn lemma_prefix_list(items: Seq<Value>, i: int, k: int)
    requires
        0 <= i <= items.len(),
        all_round_trip(items, items.len() as int),
        0 <= k <= enc_range(items, i, items.len() as int).len(),
    ensures
        settles(
            parse_items(enc_range(items, i, items.len() as int).subrange(0, k), (items.len() - i) as nat),
            k,
        ),
    decreases items, items.len() - i,
{
    let n = items.len() as int;
    let full = enc_range(items, i, n);
    let p = full.subrange(0, k);
    if i == n {
        return;
    }
    lemma_all_round_trip(items, n, i);
    let a = enc(items[i]).len() as int;
    let next = enc_range(items, i + 1, n);
    assert(full == enc(items[i]) + next);
    let m = (n - i) as nat;
    if k >= a {
        let rest = next.subrange(0, k - a);
        assert(p =~= enc(items[i]) + rest);
        lemma_parse_enc(items[i], rest);
        assert(p.subrange(a, p.len() as int) =~= rest);
        lemma_prefix_list(items, i + 1, k - a);
        let inner = parse_items(rest, (m - 1) as nat);
        assert(parse_items(p, m) == prepend(seq![items[i]], a as nat, inner));
    } else {
        assert(p =~= enc(items[i]).subrange(0, k));
        assert(decreases_to!(items => items[i]));
        lemma_prefix(items[i], k);
        let empty = p.subrange(k, p.len() as int);
        assert(empty =~= Seq::<u8>::empty());
        if m > 1 {
            assert(parse(empty) == Err::<(Value, nat), crate::frame::ErrorKind>(
                crate::frame::ErrorKind::NotComplete,
            ));
            assert(parse_items(empty, (m - 1) as nat) == Err::<(Seq<Value>, nat), crate::frame::ErrorKind>(
                crate::frame::ErrorKind::NotComplete,
            ));
        } else {
            assert(parse_items(empty, 0) == Ok::<(Seq<Value>, nat), crate::frame::ErrorKind>(
                (Seq::empty(), 0),
            ));
        }
    }
}

/// A prefix of the entries `es[i..]` decodes, as that many pairs, to incomplete or to
/// pairs that take all of it.
#[verifier::rlimit(80)]
proof fn lemma_prefix_entries(es: Seq<(Seq<char>, Value)>, i: int, k: int)
    requires
        0 <= i <= es.len(),
        entries_round_trip(es, es.len() as int),
        0 <= k <= entries_range(es, i, es.len() as int).len(),
    ensures
        settles(
            parse_pairs(entries_range(es, i, es.len() as int).subrange(0, k), (es.len() - i) as nat),
            k,
        ),
    decreases es, es.len() - i,
{
    let n = es.len() as int;
    let full = entries_range(es, i, n);
    let p = full.subrange(0, k);
    if i == n {
        return;
    }
    lemma_entries_round_trip(es, n, i);
    let kl = line(43u8, es[i].0);
    let vb = enc(es[i].1);
    let next = entries_range(es, i + 1, n);
    assert(full == kl + vb + next);
    let kb = encode_utf8(es[i].0);
    let m = (n - i) as nat;
    if k < kl.len() {
        assert(kl == seq![43u8] + kb + crlf());
        assert(p =~= kl.subrange(0, k));
        lemma_line_cut(43u8, kb, k);
        assert(simple_end(p, 43u8) == Err::<int, crate::frame::ErrorKind>(
            crate::frame::ErrorKind::NotComplete,
        ));
    } else {
        let after = p.subrange(kl.len() as int, k);
        assert(p =~= kl + after);
        lemma_line_parse(43u8, es[i].0, after);
        assert(p.subrange(kb.len() + 3int, p.len() as int) =~= after);
        assert(decreases_to!(es => es[i]));
        if k >= kl.len() + vb.len() {
            let rest = next.subrange(0, k - kl.len() - vb.len());
            assert(after =~= vb + rest);
            lemma_parse_enc(es[i].1, rest);
            assert(after.subrange(vb.len() as int, after.len() as int) =~= rest);
            lemma_prefix_entries(es, i + 1, k - kl.len() - vb.len());
            let e1 = 1 + kb.len() as int;
            assert(p.subrange(e1 + 2, p.len() as int) =~= after);
            assert(p.subrange(1, e1) == kb);
            assert(parse_pairs(p, m) == prepend(
                seq![(es[i].0, es[i].1)],
                (e1 + 2 + vb.len()) as nat,
                parse_pairs(rest, (m - 1) as nat),
            ));
        } else {
            assert(after =~= vb.subrange(0, k - kl.len()));
            lemma_prefix(es[i].1, k - kl.len());
            let empty = after.subrange(k - kl.len(), after.len() as int);
            assert(empty =~= Seq::<u8>::empty());
            let e1 = 1 + kb.len() as int;
            assert(p.subrange(e1 + 2, p.len() as int) =~= after);
            if m > 1 {
                assert(simple_end(empty, 43u8) == Err::<int, crate::frame::ErrorKind>(
                    crate::frame::ErrorKind::NotComplete,
                ));
                assert(parse_pairs(empty, (m - 1) as nat) == Err::<
                    (Seq<(Seq<char>, Value)>, nat),
                    crate::frame::ErrorKind,
                >(crate::frame::ErrorKind::NotComplete));
            } else {
                assert(parse_pairs(empty, 0) == Ok::<(Seq<(Seq<char>, Value)>, nat), crate::frame::ErrorKind>(
                    (Seq::empty(), 0),
                ));
            }
            match parse(after) {
                Ok((w, a2)) => {
                    assert(parse_pairs(p, m) == prepend(
                        seq![(body_text(kb), w)],
                        (e1 + 2 + a2) as nat,
                        parse_pairs(empty, (m - 1) as nat),
                    ));
                },
                Err(_) => {},
            }
        }
    }
}

/// A prefix of a non-empty array's encoding, decoded as a message, is incomplete or
/// gives a frame.
proof fn lemma_prefix_array_top(items: Seq<Value>, k: int)
    requires
        items.len() > 0,
        round_trips(Value::Array(items)),
        0 <= k <= enc(Value::Array(items)).len(),
    ensures
        parse_top(enc(Value::Array(items)).subrange(0, k)) is Ok || parse_top(
            enc(Value::Array(items)).subrange(0, k),
        ) == Err::<(Value, nat), crate::frame::ErrorKind>(crate::frame::ErrorKind::NotComplete),
{
    let n = items.len();
    let h = header(42u8, n);
    let body = enc_list(items, n as int);
    let e = enc(Value::Array(items));
    assert(e == h + (body + crlf())) by {
        reveal(enc);
        assert(h + body + crlf() =~= h + (body + crlf()));
    }
    lemma_enc_list_range(items, n as int);
    let p = e.subrange(0, k);
    if k == 0 {
        assert(p =~= Seq::<u8>::empty());
    } else if k >= 5 {
        lemma_not_null_literal(42u8, n, body + crlf(), null_array());
        assert(p.subrange(0, 5) == e.subrange(0, 5));
        assert(p.subrange(0, 5) != null_array());
        assert(p[0] == 42u8);
        if k < h.len() {
            lemma_header_cut(42u8, n, body + crlf(), k);
        } else {
            let tail = e.subrange(h.len() as int, k);
            assert(p =~= h + tail);
            lemma_header(42u8, n, tail);
            let hl = h.len() as int;
            assert(p.subrange(hl, p.len() as int) =~= tail);
            if k - hl <= body.len() {
                assert(tail =~= body.subrange(0, k - hl));
                lemma_prefix_list(items, 0, k - hl);
            } else {
                let part = crlf().subrange(0, k - hl - body.len());
                assert(tail =~= body + part);
                lemma_parse_list(items, 0, part);
            }
        }
    } else {
        assert(p[0] == 42u8);
    }
}

/// Incompleteness is monotone along a frame's encoding: where a prefix decodes as
/// incomplete, the prefix one byte longer decodes as incomplete or as a frame; it never
/// fails in form.
pub proof fn law_incomplete_monotone(f: RespFrame, k: int)
    requires
        round_trips(model(f)),
        0 <= k < f.wire().len(),
        parse_top(f.wire().subrange(0, k)) == Err::<(Value, nat), crate::frame::ErrorKind>(
            crate::frame::ErrorKind::NotComplete,
        ),
    ensures
        parse_top(f.wire().subrange(0, k + 1)) is Ok || parse_top(f.wire().subrange(0, k + 1))
            == Err::<(Value, nat), crate::frame::ErrorKind>(crate::frame::ErrorKind::NotComplete),
{
    let v = model(f);
    let p = f.wire().subrange(0, k + 1);
    match v {
        Value::Array(items) => {
            if items.len() > 0 {
                lemma_prefix_array_top(items, k + 1);
            } else {
                assert(enc(v) == null_array()) by {
                    reveal(enc);
                }
                if k + 1 == 5 {
                    assert(p =~= null_array());
                }
            }
        },
        _ => {
            lemma_first_byte(v);
            lemma_prefix(v, k + 1);
            assert(p[0] == enc(v)[0]);
        },
    }
}

/// The kept part of a set's encoding reads only the elements up to `n`.
proof fn lemma_kept_prefix(s: Seq<Value>, t: Seq<Value>, n: int)
    requires
        0 <= n <= s.len(),
        n <= t.len(),
        forall|k: int| 0 <= k < n ==> s[k] == t[k],
    ensures
        enc_kept(s, n) == enc_kept(t, n),
        kept_count(s, n) == kept_count(t, n),
    decreases n,
{
    if n > 0 {
        lemma_kept_prefix(s, t, n - 1);
        crate::encode::lemma_seen_iff(s, n - 1, n - 1);
        crate::encode::lemma_seen_iff(t, n - 1, n - 1);
        if seen(s, n - 1, n - 1) {
            let k = choose|k: int| 0 <= k < n - 1 && enc(#[trigger] s[k]) == enc(s[n - 1]);
            assert(0 <= k < n - 1 && enc(t[k]) == enc(t[n - 1]));
        }
        if seen(t, n - 1, n - 1) {
            let k = choose|k: int| 0 <= k < n - 1 && enc(#[trigger] t[k]) == enc(t[n - 1]);
            assert(0 <= k < n - 1 && enc(s[k]) == enc(s[n - 1]));
        }
        assert(enc_kept(s, n) == if seen(s, n - 1, n - 1) {
            enc_kept(s, n - 1)
        } else {
            enc_kept(s, n - 1) + enc(s[n - 1])
        }) by {
            reveal(enc);
        }
        assert(enc_kept(t, n) == if seen(t, n - 1, n - 1) {
            enc_kept(t, n - 1)
        } else {
            enc_kept(t, n - 1) + enc(t[n - 1])
        }) by {
            reveal(enc);
        }
        assert(kept_count(s, n) == if seen(s, n - 1, n - 1) {
            kept_count(s, n - 1)
        } else {
            kept_count(s, n - 1) + 1
        }) by {
            reveal(enc);
        }
        assert(kept_count(t, n) == if seen(t, n - 1, n - 1) {
            kept_count(t, n - 1)
        } else {
            kept_count(t, n - 1) + 1
        }) by {
            reveal(enc);
        }
    }
}

/// A set's encoding elides later duplicates: adding an element whose bytes an earlier
/// element already has leaves the encoding as it was.
pub proof fn law_set_repeat_elided(s: Seq<Value>, x: Value, i: int)
    requires
        0 <= i < s.len(),
        enc(s[i]) == enc(x),
    ensures
        enc(Value::SetOf(s.push(x))) == enc(Value::SetOf(s)),
{
    let t = s.push(x);
    let n = s.len() as int;
    lemma_kept_prefix(t, s, n);
    crate::encode::lemma_seen_iff(t, n, n);
    assert(0 <= i < n && enc(t[i]) == enc(t[n]));
    assert(enc_kept(t, n + 1) == enc_kept(t, n) && kept_count(t, n + 1) == kept_count(t, n)) by {
        reveal(enc);
    }
    assert(enc(Value::SetOf(t)) == header(126u8, kept_count(t, n + 1)) + enc_kept(t, n + 1)) by {
        reveal(enc);
    }
    assert(enc(Value::SetOf(s)) == header(126u8, kept_count(s, n)) + enc_kept(s, n)) by {
        reveal(enc);
    }
}

} // verus!
