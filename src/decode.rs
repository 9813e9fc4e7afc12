//! Decoding frames from bytes.
use crate::frame::{
    entry_models, model, models, BulkString, ErrorKind, RespArray, RespDouble, RespError,
    RespFrame, RespMap, RespNull, RespSet, SimpleError, SimpleString, Value,
};
use crate::grammar::{
    build_map, bytes_lt, insert_entry, key_lt, lemma_insert_keeps_order, lemma_key_lt_total, sorted_keys, parse, parse_items, parse_top, parse_pairs, prepend,
    trailing_crlf, body_text, length_error_stated,
};
use crate::outside::{buffer_advance, buffer_bytes, buffer_slice, lossy_text};
use crate::scan::{
    err_is, invalid_frame, is_float_literal, line_end, match_fixed, not_complete, parse_i64,
    parse_length,
};
use crate::wire::{bool_line, null_array, null_bulk, null_line};
use bytes::BytesMut;
use vstd::prelude::*;
use vstd::slice::slice_subrange;
use vstd::string::StringSliceAdditionalSpecFns;

verus! {

/// `r` reports what `p` says of the same input: the same model and length, or the
/// same kind of failure.
pub open spec fn agrees(r: Result<(RespFrame, usize), RespError>, p: Result<(Value, nat), ErrorKind>) -> bool {
    match p {
        Ok((v, n)) => r matches Ok((f, m)) && model(f) == v && m == n,
        Err(k) => r matches Err(e) && e.kind() == k,
    }
}

pub open spec fn items_agree(r: Result<(Vec<RespFrame>, usize), RespError>, p: Result<(Seq<Value>, nat), ErrorKind>) -> bool {
    match p {
        Ok((vs, n)) => r matches Ok((fs, m)) && models(fs@) == vs && m == n,
        Err(k) => r matches Err(e) && e.kind() == k,
    }
}

fn literal(a: u8, b: u8, c: u8, d: u8, e: u8, len: usize) -> (r: Vec<u8>)
    requires
        3 <= len <= 5,
    ensures
        r@ == seq![a, b, c, d, e].subrange(0, len as int),
{
    let mut v: Vec<u8> = Vec::new();
    v.push(a);
    v.push(b);
    v.push(c);
    if len > 3 {
        v.push(d);
    }
    if len > 4 {
        v.push(e);
    }
    assert(v@ =~= seq![a, b, c, d, e].subrange(0, len as int));
    v
}

fn fixed_null_line(s: &[u8]) -> (r: Result<(), RespError>)
    ensures
        match crate::grammar::fixed(s@, null_line()) {
            Ok(_) => r is Ok,
            Err(k) => err_is(r, k),
        },
{
    let lit = literal(95u8, 13u8, 10u8, 0u8, 0u8, 3);
    assert(lit@ =~= null_line());
    match_fixed(s, lit.as_slice())
}

fn fixed_bool(s: &[u8], b: bool) -> (r: Result<(), RespError>)
    ensures
        match crate::grammar::fixed(s@, bool_line(b)) {
            Ok(_) => r is Ok,
            Err(k) => err_is(r, k),
        },
{
    let lit = literal(35u8, if b { 116u8 } else { 102u8 }, 13u8, 10u8, 0u8, 4);
    assert(lit@ =~= bool_line(b));
    match_fixed(s, lit.as_slice())
}

/// The null literal of bulk strings (`tag` is `$`) or of arrays (`tag` is `*`).
fn fixed_null(s: &[u8], tag: u8) -> (r: Result<(), RespError>)
    requires
        tag == 36u8 || tag == 42u8,
    ensures
        match crate::grammar::fixed(s@, if tag == 36u8 { null_bulk() } else { null_array() }) {
            Ok(_) => r is Ok,
            Err(k) => err_is(r, k),
        },
{
    let lit = literal(tag, 45u8, 49u8, 13u8, 10u8, 5);
    assert(lit@ =~= if tag == 36u8 { null_bulk() } else { null_array() });
    match_fixed(s, lit.as_slice())
}

/// Decodes the frame at the start of `s`; returns it with the number of bytes it takes.
pub fn parse_frame(s: &[u8]) -> (r: Result<(RespFrame, usize), RespError>)
    ensures
        agrees(r, parse(s@)),
        r matches Ok((_, n)) ==> n <= s@.len(),
        length_error_stated(r, s@),
    decreases s@.len(), 1int,
{
    if s.len() == 0 {
        return not_complete();
    }
    let t = s[0];
    if t == 43u8 || t == 45u8 || t == 58u8 || t == 44u8 {
        let e = match line_end(s, t) {
            Ok(e) => e,
            Err(err) => return Err(err),
        };
        let body = slice_subrange(s, 1, e);
        assert(body@ == s@.subrange(1, e as int));
        if t == 43u8 {
            Ok((RespFrame::SimpleString(SimpleString(lossy_text(body))), e + 2))
        } else if t == 45u8 {
            Ok((RespFrame::Error(SimpleError(lossy_text(body))), e + 2))
        } else if t == 58u8 {
            match parse_i64(body) {
                Some(v) => Ok((RespFrame::Integer(v), e + 2)),
                None => invalid_frame("parse error in integer"),
            }
        } else if is_float_literal(body) {
            Ok((RespFrame::Double(RespDouble(lossy_text(body))), e + 2))
        } else {
            invalid_frame("parse error in double")
        }
    } else if t == 95u8 {
        match fixed_null_line(s) {
            Ok(_) => Ok((RespFrame::Null(RespNull), 3)),
            Err(err) => Err(err),
        }
    } else if t == 35u8 {
        match fixed_bool(s, true) {
            Ok(_) => Ok((RespFrame::Boolean(true), 4)),
            Err(RespError::NotComplete) => not_complete(),
            Err(_) => match fixed_bool(s, false) {
                Ok(_) => Ok((RespFrame::Boolean(false), 4)),
                Err(err) => Err(err),
            },
        }
    } else if t == 36u8 {
        match fixed_null(s, 36u8) {
            Ok(_) => {
                let f = RespFrame::BulkString(BulkString(Vec::new()));
                assert(model(f)->Bulk_0 =~= Seq::<u8>::empty());
                return Ok((f, 5));
            },
            Err(RespError::NotComplete) => return not_complete(),
            Err(_) => {},
        }
        parse_bulk(s)
    } else if t == 42u8 {
        match fixed_null(s, 42u8) {
            Ok(_) => {
                let f = RespFrame::Array(RespArray(Vec::new()));
                assert(model(f)->Array_0 =~= Seq::<Value>::empty());
                return Ok((f, 5));
            },
            Err(RespError::NotComplete) => return not_complete(),
            Err(_) => {},
        }
        parse_array(s, true)
    } else if t == 37u8 {
        parse_map(s)
    } else if t == 126u8 {
        let hdr = parse_length(s, 126u8);
        let (e, len) = match hdr {
            Ok(h) => h,
            Err(err) => return Err(err),
        };
        assert(1 <= e && e + 2 <= s@.len());
        let n = match len {
            Some(n) => n,
            None => return invalid_frame("a set has no null length"),
        };
        let rest = slice_subrange(s, e + 2, s.len());
        match parse_list(rest, n) {
            Ok((items, m)) => {
                let f = RespFrame::SetFrame(RespSet(items));
                assert(model(f)->SetOf_0 =~= models(f->SetFrame_0.0@));
                Ok((f, e + 2 + m))
            },
            Err(err) => Err(err),
        }
    } else {
        crate::scan::invalid_type()
    }
}

/// Decodes the frame at the start of `s` as a message of its own; returns it with the
/// number of bytes it takes. An array's trailing CRLF is left in place.
pub fn parse_message(s: &[u8]) -> (r: Result<(RespFrame, usize), RespError>)
    ensures
        agrees(r, parse_top(s@)),
        r matches Ok((_, n)) ==> n <= s@.len(),
        length_error_stated(r, s@),
{
    if s.len() > 0 && s[0] == 42u8 {
        match fixed_null(s, 42u8) {
            Ok(_) => {
                let f = RespFrame::Array(RespArray(Vec::new()));
                assert(model(f)->Array_0 =~= Seq::<Value>::empty());
                return Ok((f, 5));
            },
            Err(RespError::NotComplete) => return not_complete(),
            Err(_) => {},
        }
        parse_array(s, false)
    } else {
        parse_frame(s)
    }
}

/// The length-prefixed form of a bulk string, after the null literal did not match.
fn parse_bulk(s: &[u8]) -> (r: Result<(RespFrame, usize), RespError>)
    requires
        s@.len() > 0,
        s@[0] == 36u8,
        crate::grammar::fixed(s@, null_bulk()) matches Err(k) && k != ErrorKind::NotComplete,
    ensures
        agrees(r, parse(s@)),
        r matches Ok((_, n)) ==> n <= s@.len(),
        length_error_stated(r, s@),
{
    let hdr = parse_length(s, 36u8);
    let (e, len) = match hdr {
        Ok(h) => h,
        Err(err) => return Err(err),
    };
    assert(1 <= e && e + 2 <= s@.len());
    let n = match len {
        Some(n) => n,
        None => {
            let f = RespFrame::BulkString(BulkString(Vec::new()));
            assert(model(f)->Bulk_0 =~= Seq::<u8>::empty());
            return Ok((f, e + 2));
        },
    };
    let avail = s.len() - (e + 2);
    if avail < 2 || avail - 2 < n {
        return not_complete();
    }
    let end = e + 2 + n;
    if s[end] != 13u8 || s[end + 1] != 10u8 {
        assert(s@.subrange(end as int, end + 2)[0] == s@[end as int]);
        assert(s@.subrange(end as int, end + 2)[1] == s@[end + 1]);
        return invalid_frame("bulk string not terminated by CRLF");
    }
    assert(s@.subrange(end as int, end + 2) =~= crate::wire::crlf());
    let data = vstd::slice::slice_to_vec(slice_subrange(s, e + 2, end));
    Ok((RespFrame::BulkString(BulkString(data)), end + 2))
}

/// The length-prefixed form of an array, after the null literal did not match. Inside
/// another frame (`nested`) the array's trailing CRLF is taken with it; a message of its
/// own leaves it.
fn parse_array(s: &[u8], nested: bool) -> (r: Result<(RespFrame, usize), RespError>)
    requires
        s@.len() > 0,
        s@[0] == 42u8,
        crate::grammar::fixed(s@, null_array()) matches Err(k) && k != ErrorKind::NotComplete,
    ensures
        agrees(
            r,
            if nested {
                parse(s@)
            } else {
                parse_top(s@)
            },
        ),
        r matches Ok((_, n)) ==> n <= s@.len(),
        length_error_stated(r, s@),
    decreases s@.len(), 0int,
{
    let total = s.len();
    let hdr = parse_length(s, 42u8);
    let (e, len) = match hdr {
        Ok(h) => h,
        Err(err) => return Err(err),
    };
    assert(1 <= e && e + 2 <= s@.len());
    let n = match len {
        Some(n) => n,
        None => {
            let f = RespFrame::Array(RespArray(Vec::new()));
            assert(model(f)->Array_0 =~= Seq::<Value>::empty());
            return Ok((f, e + 2));
        },
    };
    let rest = slice_subrange(s, e + 2, s.len());
    match parse_list(rest, n) {
        Ok((items, m)) => {
            let end = e + 2 + m;
            if !nested {
                let f = RespFrame::Array(RespArray(items));
                assert(model(f)->Array_0 =~= models(f->Array_0.0@));
                return Ok((f, end));
            }
            if total - end == 1 && s[end] == 13u8 {
                return not_complete();
            }
            let tail: usize = if total - end >= 2 && s[end] == 13u8 && s[end + 1] == 10u8 {
                2
            } else {
                0
            };
            assert(tail == trailing_crlf(s@, end as int));
            let f = RespFrame::Array(RespArray(items));
            assert(model(f)->Array_0 =~= models(f->Array_0.0@));
            Ok((f, end + tail))
        },
        Err(err) => Err(err),
    }
}

/// Decodes `n` frames one after another from the start of `s`.
pub fn parse_list(s: &[u8], n: usize) -> (r: Result<(Vec<RespFrame>, usize), RespError>)
    ensures
        items_agree(r, parse_items(s@, n as nat)),
        r matches Ok((_, m)) ==> m <= s@.len(),
    decreases s@.len(), n + 1,
{
    let mut items: Vec<RespFrame> = Vec::new();
    let mut pos: usize = 0;
    let mut i: usize = 0;
    proof {
        assert(s@.subrange(0, s@.len() as int) =~= s@);
        assert(models(items@) =~= Seq::<Value>::empty());
        match parse_items(s@, n as nat) {
            Ok((ws, b)) => {
                assert(Seq::<Value>::empty() + ws =~= ws);
            },
            Err(_) => {},
        }
    }
    while i < n
        invariant
            i <= n,
            pos <= s@.len(),
            parse_items(s@, n as nat) == prepend(
                models(items@),
                pos as nat,
                parse_items(s@.subrange(pos as int, s@.len() as int), (n - i) as nat),
            ),
        decreases n - i,
    {
        let rest = slice_subrange(s, pos, s.len());
        let ghost sub = rest@;
        match parse_frame(rest) {
            Ok((f, a)) => {
                proof {
                    assert(sub.subrange(a as int, sub.len() as int) =~= s@.subrange(
                        pos + a,
                        s@.len() as int,
                    ));
                    assert(models(items@.push(f)) =~= models(items@) + seq![model(f)]);
                    lemma_prepend_assoc(
                        models(items@),
                        pos as nat,
                        seq![model(f)],
                        a as nat,
                        parse_items(s@.subrange(pos + a, s@.len() as int), (n - i - 1) as nat),
                    );
                }
                items.push(f);
                pos = pos + a;
            },
            Err(err) => {
                return Err(err);
            },
        }
        i += 1;
    }
    proof {
        assert(models(items@) + Seq::<Value>::empty() =~= models(items@));
    }
    Ok((items, pos))
}

proof fn lemma_prepend_assoc<T>(
    vs: Seq<T>,
    p: nat,
    ws: Seq<T>,
    q: nat,
    r: Result<(Seq<T>, nat), ErrorKind>,
)
    ensures
        prepend(vs, p, prepend(ws, q, r)) == prepend(vs + ws, p + q, r),
{
    match r {
        Ok((us, b)) => {
            assert(vs + (ws + us) =~= (vs + ws) + us);
        },
        Err(_) => {},
    }
}

/// Decodes a map: a length header, then that many key and value pairs.
fn parse_map(s: &[u8]) -> (r: Result<(RespFrame, usize), RespError>)
    requires
        s@.len() > 0,
        s@[0] == 37u8,
    ensures
        agrees(r, parse(s@)),
        r matches Ok((_, n)) ==> n <= s@.len(),
        length_error_stated(r, s@),
    decreases s@.len(), 0int,
{
    let total = s.len();
    let hdr = parse_length(s, 37u8);
    let (e, len) = match hdr {
        Ok(h) => h,
        Err(err) => return Err(err),
    };
    let n = match len {
        Some(n) => n,
        None => return invalid_frame("a map has no null length"),
    };
    let body = slice_subrange(s, e + 2, total);
    match parse_entries(body, n) {
        Ok((map, m)) => {
            let f = RespFrame::MapFrame(map);
            assert(model(f)->MapOf_0 =~= entry_models(f->MapFrame_0.0@));
            Ok((f, e + 2 + m))
        },
        Err(err) => Err(err),
    }
}

/// Decodes `n` map entries from the start of `s` and inserts them, in order, into an
/// empty map.
fn parse_entries(s: &[u8], n: usize) -> (r: Result<(RespMap, usize), RespError>)
    ensures
        match parse_pairs(s@, n as nat) {
            Ok((ps, m)) => r matches Ok((map, m2)) && entry_models(map.0@) == build_map(ps, ps.len() as int)
                && m2 == m,
            Err(k) => r matches Err(e) && e.kind() == k,
        },
        r matches Ok((_, m)) ==> m <= s@.len(),
    decreases s@.len(), n + 1,
{
    let mut map = RespMap(Vec::new());
    let ghost mut ps: Seq<(Seq<char>, Value)> = Seq::empty();
    let mut pos: usize = 0;
    let mut i: usize = 0;
    proof {
        assert(s@.subrange(0, s@.len() as int) =~= s@);
        assert(entry_models(map.0@) =~= Seq::<(Seq<char>, Value)>::empty());
        match parse_pairs(s@, n as nat) {
            Ok((ws, b)) => {
                assert(ps + ws =~= ws);
            },
            Err(_) => {},
        }
    }
    while i < n
        invariant
            i <= n,
            pos <= s@.len(),
            ps.len() == i,
            entry_models(map.0@) == build_map(ps, i as int),
            parse_pairs(s@, n as nat) == prepend(
                ps,
                pos as nat,
                parse_pairs(s@.subrange(pos as int, s@.len() as int), (n - i) as nat),
            ),
        decreases n - i,
    {
        let rest = slice_subrange(s, pos, s.len());
        let ghost sub = rest@;
        let ke = match line_end(rest, 43u8) {
            Ok(ke) => ke,
            Err(err) => return Err(err),
        };
        let key = lossy_text(slice_subrange(rest, 1, ke));
        let vrest = slice_subrange(rest, ke + 2, rest.len());
        match parse_frame(vrest) {
            Ok((f, a)) => {
                let ghost pair = (key@, model(f));
                proof {
                    assert(key@ == body_text(sub.subrange(1, ke as int)));
                    assert(vrest@.subrange(a as int, vrest@.len() as int) =~= s@.subrange(
                        pos + ke + 2 + a,
                        s@.len() as int,
                    ));
                    lemma_prepend_assoc(
                        ps,
                        pos as nat,
                        seq![pair],
                        (ke + 2 + a) as nat,
                        parse_pairs(s@.subrange(pos + ke + 2 + a, s@.len() as int), (n - i - 1) as nat),
                    );
                    lemma_build_map_prefix(ps.push(pair), i as int);
                    assert(ps.push(pair).subrange(0, i as int) =~= ps);
                    assert(ps + seq![pair] =~= ps.push(pair));
                }
                map.insert(key, f);
                proof {
                    ps = ps.push(pair);
                }
                pos = pos + ke + 2 + a;
            },
            Err(err) => return Err(err),
        }
        i += 1;
    }
    assert(ps + Seq::<(Seq<char>, Value)>::empty() =~= ps);
    Ok((map, pos))
}

/// `build_map` reads only the first `n` pairs.
proof fn lemma_build_map_prefix(ps: Seq<(Seq<char>, Value)>, n: int)
    requires
        0 <= n <= ps.len(),
    ensures
        build_map(ps, n) == build_map(ps.subrange(0, n), n),
    decreases n,
{
    if n > 0 {
        lemma_build_map_prefix(ps, n - 1);
        lemma_build_map_prefix(ps.subrange(0, n), n - 1);
        assert(ps.subrange(0, n).subrange(0, n - 1) =~= ps.subrange(0, n - 1));
    }
}

/// Whether `a` comes before `b` in the byte order of their UTF-8 forms.
pub fn key_less(a: &String, b: &String) -> (r: bool)
    ensures
        r == key_lt(a@, b@),
{
    let x = a.as_str().as_bytes();
    let y = b.as_str().as_bytes();
    assert(x@.subrange(0, x@.len() as int) =~= x@);
    assert(y@.subrange(0, y@.len() as int) =~= y@);
    let mut i: usize = 0;
    while i < x.len() && i < y.len()
        invariant
            i <= x@.len(),
            i <= y@.len(),
            key_lt(a@, b@) == bytes_lt(
                x@.subrange(i as int, x@.len() as int),
                y@.subrange(i as int, y@.len() as int),
            ),
        decreases x@.len() - i,
    {
        let ghost xs = x@.subrange(i as int, x@.len() as int);
        let ghost ys = y@.subrange(i as int, y@.len() as int);
        if x[i] != y[i] {
            assert(xs[0] == x@[i as int] && ys[0] == y@[i as int]);
            return x[i] < y[i];
        }
        assert(xs.drop_first() =~= x@.subrange(i + 1, x@.len() as int));
        assert(ys.drop_first() =~= y@.subrange(i + 1, y@.len() as int));
        i += 1;
    }
    x.len() - i == 0 && y.len() - i > 0
}

impl RespMap {
    /// Sets the value of `key`: replaces the entry with that key, else adds one before
    /// the first greater key.
    pub fn insert(&mut self, key: String, value: RespFrame)
        ensures
            entry_models(final(self).0@) == insert_entry(entry_models(old(self).0@), key@, model(value)),
            sorted_keys(entry_models(old(self).0@)) ==> sorted_keys(entry_models(final(self).0@)),
    {
        let ghost es = entry_models(self.0@);
        let ghost k = key@;
        let ghost v = model(value);
        assert(es.subrange(0, 0) + es.subrange(0, es.len() as int) =~= es);
        let mut i: usize = 0;
        while i < self.0.len() && key_less(&self.0[i].0, &key)
            invariant
                i <= self.0@.len(),
                es == entry_models(self.0@),
                k == key@,
                forall|j: int| 0 <= j < i ==> key_lt(#[trigger] es[j].0, k),
                insert_entry(es, k, v) == es.subrange(0, i as int) + insert_entry(
                    es.subrange(i as int, es.len() as int),
                    k,
                    v,
                ),
            decreases self.0@.len() - i,
        {
            proof {
                let t = es.subrange(i as int, es.len() as int);
                assert(t.drop_first() =~= es.subrange(i + 1, es.len() as int));
                assert(es.subrange(0, i + 1) =~= es.subrange(0, i as int) + seq![t[0]]);
            }
            i += 1;
        }
        let ghost t = es.subrange(i as int, es.len() as int);
        if i < self.0.len() && self.0[i].0 == key {
            self.0.set(i, (key, value));
            proof {
                assert(t.drop_first() =~= es.subrange(i + 1, es.len() as int));
                assert(entry_models(self.0@) =~= es.subrange(0, i as int) + seq![(k, v)] + t.drop_first());
                assert(entry_models(self.0@) =~= es.update(i as int, (k, v)));
                assert forall|a: int| 0 <= a < es.len() implies (#[trigger] es.update(i as int, (k, v))[a]).0
                    == es[a].0 by {}
            }
        } else {
            self.0.insert(i, (key, value));
            proof {
                assert(entry_models(self.0@) =~= es.subrange(0, i as int) + seq![(k, v)] + t);
                assert(entry_models(self.0@) =~= es.insert(i as int, (k, v)));
                if sorted_keys(es) {
                    if i < es.len() {
                        assert(!key_lt(es[i as int].0, k));
                        assert(es[i as int].0 != k);
                        lemma_key_lt_total(es[i as int].0, k);
                    }
                    lemma_insert_keeps_order(es, i as int, k, v);
                }
            }
        }
    }
}

impl RespFrame {
    /// Decodes the frame at the front of `buf`. On success the frame's bytes are taken
    /// from the buffer; on any failure the buffer is left as it was.
    pub fn decode(buf: &mut BytesMut) -> (r: Result<RespFrame, RespError>)
        ensures
            length_error_stated(r, buffer_bytes(*old(buf))),
            match parse_top(buffer_bytes(*old(buf))) {
                Ok((v, n)) => r matches Ok(f) && model(f) == v && buffer_bytes(*final(buf))
                    == buffer_bytes(*old(buf)).subrange(n as int, buffer_bytes(*old(buf)).len() as int),
                Err(k) => r matches Err(e) && e.kind() == k && buffer_bytes(*final(buf))
                    == buffer_bytes(*old(buf)),
            },
    {
        let parsed = parse_message(buffer_slice(buf));
        match parsed {
            Ok((f, n)) => {
                buffer_advance(buf, n);
                Ok(f)
            },
            Err(e) => Err(e),
        }
    }

    /// How many bytes the frame at the front of `buf` takes, without consuming them.
    pub fn expect_length(buf: &[u8]) -> (r: Result<usize, RespError>)
        ensures
            length_error_stated(r, buf@),
            match parse_top(buf@) {
                Ok((_, n)) => r == Ok::<usize, RespError>(n as usize) && n <= buf@.len(),
                Err(k) => r matches Err(e) && e.kind() == k,
            },
    {
        match parse_message(buf) {
            Ok((_, n)) => Ok(n),
            Err(e) => Err(e),
        }
    }
}

/// How many bytes an aggregate takes when its header's CRLF starts at `end`: the header,
/// then `len` frames (`*`, `~`) or `len` key and value pairs (`%`).
pub fn calc_total_length(buf: &[u8], end: usize, len: usize, prefix: u8) -> (r: Result<usize, RespError>)
    requires
        end + 2 <= buf@.len(),
    ensures
        prefix == 42u8 || prefix == 126u8 ==> match parse_items(
            buf@.subrange(end + 2, buf@.len() as int),
            len as nat,
        ) {
            Ok((_, m)) => r matches Ok(t) && t == end + 2 + m,
            Err(k) => err_is(r, k),
        },
        prefix == 37u8 ==> match parse_pairs(buf@.subrange(end + 2, buf@.len() as int), len as nat) {
            Ok((_, m)) => r matches Ok(t) && t == end + 2 + m,
            Err(k) => err_is(r, k),
        },
        prefix != 42u8 && prefix != 126u8 && prefix != 37u8 ==> err_is(r, ErrorKind::InvalidFrameType),
{
    let total = buf.len();
    let rest = slice_subrange(buf, end + 2, total);
    if prefix == 42u8 || prefix == 126u8 {
        match parse_list(rest, len) {
            Ok((_, m)) => Ok(end + 2 + m),
            Err(e) => Err(e),
        }
    } else if prefix == 37u8 {
        match parse_entries(rest, len) {
            Ok((_, m)) => Ok(end + 2 + m),
            Err(e) => Err(e),
        }
    } else {
        crate::scan::invalid_type()
    }
}

/// Takes the literal `expect` from the front of `buf`; `expect_type` names the frame
/// type in the error.
pub fn extract_fixed_data(buf: &mut BytesMut, expect: &str, expect_type: &str) -> (r: Result<(), RespError>)
    ensures
        match crate::grammar::fixed(buffer_bytes(*old(buf)), expect.spec_bytes()) {
            Ok(_) => r is Ok && buffer_bytes(*final(buf)) == buffer_bytes(*old(buf)).subrange(
                expect.spec_bytes().len() as int,
                buffer_bytes(*old(buf)).len() as int,
            ),
            Err(k) => err_is(r, k) && buffer_bytes(*final(buf)) == buffer_bytes(*old(buf)),
        },
{
    let lit = expect.as_bytes();
    let checked = match_fixed(buffer_slice(buf), lit);
    match checked {
        Ok(_) => {
            buffer_advance(buf, lit.len());
            Ok(())
        },
        Err(RespError::NotComplete) => Err(RespError::NotComplete),
        Err(_) => Err(RespError::InvalidFrameType(crate::outside::join_text("expected ", expect_type))),
    }
}

impl SimpleString {
    /// Decodes a frame from the front of `buf` that must be of this type; the buffer
    /// changes only on success.
    pub fn decode(buf: &mut BytesMut) -> (r: Result<SimpleString, RespError>)
        ensures
            length_error_stated(r, buffer_bytes(*old(buf))),
            match parse_top(buffer_bytes(*old(buf))) {
                Ok((Value::Simple(t), n)) => r matches Ok(x) && x.0@ == t && buffer_bytes(*final(buf))
                    == buffer_bytes(*old(buf)).subrange(n as int, buffer_bytes(*old(buf)).len() as int),
                Ok(_) => r matches Err(RespError::InvalidFrameType(_)) && buffer_bytes(*final(buf))
                    == buffer_bytes(*old(buf)),
                Err(k) => r matches Err(e) && e.kind() == k && buffer_bytes(*final(buf))
                    == buffer_bytes(*old(buf)),
            },
    {
        let parsed = parse_message(buffer_slice(buf));
        match parsed {
            Ok((RespFrame::SimpleString(x), n)) => {
                buffer_advance(buf, n);
                Ok(x)
            },
            Ok(_) => Err(RespError::InvalidFrameType("a frame of another type".to_owned())),
            Err(e) => Err(e),
        }
    }
}

impl SimpleError {
    /// Decodes a frame from the front of `buf` that must be of this type; the buffer
    /// changes only on success.
    pub fn decode(buf: &mut BytesMut) -> (r: Result<SimpleError, RespError>)
        ensures
            length_error_stated(r, buffer_bytes(*old(buf))),
            match parse_top(buffer_bytes(*old(buf))) {
                Ok((Value::Error(t), n)) => r matches Ok(x) && x.0@ == t && buffer_bytes(*final(buf))
                    == buffer_bytes(*old(buf)).subrange(n as int, buffer_bytes(*old(buf)).len() as int),
                Ok(_) => r matches Err(RespError::InvalidFrameType(_)) && buffer_bytes(*final(buf))
                    == buffer_bytes(*old(buf)),
                Err(k) => r matches Err(e) && e.kind() == k && buffer_bytes(*final(buf))
                    == buffer_bytes(*old(buf)),
            },
    {
        let parsed = parse_message(buffer_slice(buf));
        match parsed {
            Ok((RespFrame::Error(x), n)) => {
                buffer_advance(buf, n);
                Ok(x)
            },
            Ok(_) => Err(RespError::InvalidFrameType("a frame of another type".to_owned())),
            Err(e) => Err(e),
        }
    }
}

impl BulkString {
    /// Decodes a frame from the front of `buf` that must be of this type; the buffer
    /// changes only on success.
    pub fn decode(buf: &mut BytesMut) -> (r: Result<BulkString, RespError>)
        ensures
            length_error_stated(r, buffer_bytes(*old(buf))),
            match parse_top(buffer_bytes(*old(buf))) {
                Ok((Value::Bulk(b), n)) => r matches Ok(x) && x.0@ == b && buffer_bytes(*final(buf))
                    == buffer_bytes(*old(buf)).subrange(n as int, buffer_bytes(*old(buf)).len() as int),
                Ok(_) => r matches Err(RespError::InvalidFrameType(_)) && buffer_bytes(*final(buf))
                    == buffer_bytes(*old(buf)),
                Err(k) => r matches Err(e) && e.kind() == k && buffer_bytes(*final(buf))
                    == buffer_bytes(*old(buf)),
            },
    {
        let parsed = parse_message(buffer_slice(buf));
        match parsed {
            Ok((RespFrame::BulkString(x), n)) => {
                buffer_advance(buf, n);
                Ok(x)
            },
            Ok(_) => Err(RespError::InvalidFrameType("a frame of another type".to_owned())),
            Err(e) => Err(e),
        }
    }
}

impl RespNull {
    /// Decodes a frame from the front of `buf` that must be of this type; the buffer
    /// changes only on success.
    pub fn decode(buf: &mut BytesMut) -> (r: Result<RespNull, RespError>)
        ensures
            length_error_stated(r, buffer_bytes(*old(buf))),
            match parse_top(buffer_bytes(*old(buf))) {
                Ok((Value::Null, n)) => r matches Ok(x) && true && buffer_bytes(*final(buf))
                    == buffer_bytes(*old(buf)).subrange(n as int, buffer_bytes(*old(buf)).len() as int),
                Ok(_) => r matches Err(RespError::InvalidFrameType(_)) && buffer_bytes(*final(buf))
                    == buffer_bytes(*old(buf)),
                Err(k) => r matches Err(e) && e.kind() == k && buffer_bytes(*final(buf))
                    == buffer_bytes(*old(buf)),
            },
    {
        let parsed = parse_message(buffer_slice(buf));
        match parsed {
            Ok((RespFrame::Null(x), n)) => {
                buffer_advance(buf, n);
                Ok(x)
            },
            Ok(_) => Err(RespError::InvalidFrameType("a frame of another type".to_owned())),
            Err(e) => Err(e),
        }
    }
}

impl RespDouble {
    /// Decodes a frame from the front of `buf` that must be of this type; the buffer
    /// changes only on success.
    pub fn decode(buf: &mut BytesMut) -> (r: Result<RespDouble, RespError>)
        ensures
            length_error_stated(r, buffer_bytes(*old(buf))),
            match parse_top(buffer_bytes(*old(buf))) {
                Ok((Value::Double(t), n)) => r matches Ok(x) && x.0@ == t && buffer_bytes(*final(buf))
                    == buffer_bytes(*old(buf)).subrange(n as int, buffer_bytes(*old(buf)).len() as int),
                Ok(_) => r matches Err(RespError::InvalidFrameType(_)) && buffer_bytes(*final(buf))
                    == buffer_bytes(*old(buf)),
                Err(k) => r matches Err(e) && e.kind() == k && buffer_bytes(*final(buf))
                    == buffer_bytes(*old(buf)),
            },
    {
        let parsed = parse_message(buffer_slice(buf));
        match parsed {
            Ok((RespFrame::Double(x), n)) => {
                buffer_advance(buf, n);
                Ok(x)
            },
            Ok(_) => Err(RespError::InvalidFrameType("a frame of another type".to_owned())),
            Err(e) => Err(e),
        }
    }
}

impl RespArray {
    /// Decodes a frame from the front of `buf` that must be of this type; the buffer
    /// changes only on success.
    pub fn decode(buf: &mut BytesMut) -> (r: Result<RespArray, RespError>)
        ensures
            length_error_stated(r, buffer_bytes(*old(buf))),
            match parse_top(buffer_bytes(*old(buf))) {
                Ok((Value::Array(vs), n)) => r matches Ok(x) && models(x.0@) == vs && buffer_bytes(*final(buf))
                    == buffer_bytes(*old(buf)).subrange(n as int, buffer_bytes(*old(buf)).len() as int),
                Ok(_) => r matches Err(RespError::InvalidFrameType(_)) && buffer_bytes(*final(buf))
                    == buffer_bytes(*old(buf)),
                Err(k) => r matches Err(e) && e.kind() == k && buffer_bytes(*final(buf))
                    == buffer_bytes(*old(buf)),
            },
    {
        let parsed = parse_message(buffer_slice(buf));
        match parsed {
            Ok((RespFrame::Array(x), n)) => {
                buffer_advance(buf, n);
                Ok(x)
            },
            Ok(_) => Err(RespError::InvalidFrameType("a frame of another type".to_owned())),
            Err(e) => Err(e),
        }
    }
}

impl RespMap {
    /// Decodes a frame from the front of `buf` that must be of this type; the buffer
    /// changes only on success.
    pub fn decode(buf: &mut BytesMut) -> (r: Result<RespMap, RespError>)
        ensures
            length_error_stated(r, buffer_bytes(*old(buf))),
            match parse_top(buffer_bytes(*old(buf))) {
                Ok((Value::MapOf(es), n)) => r matches Ok(x) && entry_models(x.0@) == es && buffer_bytes(*final(buf))
                    == buffer_bytes(*old(buf)).subrange(n as int, buffer_bytes(*old(buf)).len() as int),
                Ok(_) => r matches Err(RespError::InvalidFrameType(_)) && buffer_bytes(*final(buf))
                    == buffer_bytes(*old(buf)),
                Err(k) => r matches Err(e) && e.kind() == k && buffer_bytes(*final(buf))
                    == buffer_bytes(*old(buf)),
            },
    {
        let parsed = parse_message(buffer_slice(buf));
        match parsed {
            Ok((RespFrame::MapFrame(x), n)) => {
                buffer_advance(buf, n);
                Ok(x)
            },
            Ok(_) => Err(RespError::InvalidFrameType("a frame of another type".to_owned())),
            Err(e) => Err(e),
        }
    }
}

impl RespSet {
    /// Decodes a frame from the front of `buf` that must be of this type; the buffer
    /// changes only on success.
    pub fn decode(buf: &mut BytesMut) -> (r: Result<RespSet, RespError>)
        ensures
            length_error_stated(r, buffer_bytes(*old(buf))),
            match parse_top(buffer_bytes(*old(buf))) {
                Ok((Value::SetOf(vs), n)) => r matches Ok(x) && models(x.0@) == vs && buffer_bytes(*final(buf))
                    == buffer_bytes(*old(buf)).subrange(n as int, buffer_bytes(*old(buf)).len() as int),
                Ok(_) => r matches Err(RespError::InvalidFrameType(_)) && buffer_bytes(*final(buf))
                    == buffer_bytes(*old(buf)),
                Err(k) => r matches Err(e) && e.kind() == k && buffer_bytes(*final(buf))
                    == buffer_bytes(*old(buf)),
            },
    {
        let parsed = parse_message(buffer_slice(buf));
        match parsed {
            Ok((RespFrame::SetFrame(x), n)) => {
                buffer_advance(buf, n);
                Ok(x)
            },
            Ok(_) => Err(RespError::InvalidFrameType("a frame of another type".to_owned())),
            Err(e) => Err(e),
        }
    }
}

} // verus!
