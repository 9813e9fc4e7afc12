//! What the decoder accepts, as spec functions over the input bytes.
use crate::frame::{ErrorKind, Value};
use crate::wire::{bool_line, crlf, null_array, null_bulk, null_line};
use vstd::prelude::*;
use vstd::utf8::{decode_utf8, encode_utf8, valid_utf8};

verus! {

/// What `String::from_utf8_lossy` makes of a byte string.
pub uninterp spec fn utf8_lossy(b: Seq<u8>) -> Seq<char>;

/// The text of a line body: its characters where it is UTF-8, else the lossy decoding.
pub open spec fn body_text(b: Seq<u8>) -> Seq<char> {
    if valid_utf8(b) {
        decode_utf8(b)
    } else {
        utf8_lossy(b)
    }
}

pub open spec fn crlf_at(s: Seq<u8>, i: int) -> bool {
    0 <= i && i + 1 < s.len() && s[i] == 13u8 && s[i + 1] == 10u8
}

/// Where the `n`-th CRLF at or after index `i` starts.
pub open spec fn nth_crlf_from(s: Seq<u8>, i: int, n: nat) -> Option<int>
    decreases s.len() - i,
{
    if n == 0 || i < 0 || i + 1 >= s.len() {
        None
    } else if crlf_at(s, i) {
        if n == 1 {
            Some(i)
        } else {
            nth_crlf_from(s, i + 1, (n - 1) as nat)
        }
    } else {
        nth_crlf_from(s, i + 1, n)
    }
}

/// The first CRLF after the type byte.
pub open spec fn first_crlf(s: Seq<u8>) -> Option<int> {
    nth_crlf_from(s, 1, 1)
}

/// Where the body of a single-line frame of type `tag` ends.
pub open spec fn simple_end(s: Seq<u8>, tag: u8) -> Result<int, ErrorKind> {
    if s.len() < 3 {
        Err(ErrorKind::NotComplete)
    } else if s[0] != tag {
        Err(ErrorKind::InvalidFrameType)
    } else {
        match first_crlf(s) {
            Some(e) => if 1 <= e && crlf_at(s, e) {
                Ok(e)
            } else {
                Err(ErrorKind::NotComplete)
            },
            None => Err(ErrorKind::NotComplete),
        }
    }
}

pub open spec fn is_digit(b: u8) -> bool {
    48u8 <= b <= 57u8
}

pub open spec fn all_digits(b: Seq<u8>) -> bool {
    forall|i: int| 0 <= i < b.len() ==> is_digit(#[trigger] b[i])
}

/// The value of a string of decimal digits.
pub open spec fn digit_val(b: Seq<u8>) -> nat
    decreases b.len(),
{
    if b.len() == 0 {
        0
    } else {
        digit_val(b.drop_last()) * 10 + (b.last() - 48) as nat
    }
}

/// A decimal numeral: an optional `+` or `-`, then one or more digits.
pub open spec fn signed_value(b: Seq<u8>) -> Option<int> {
    if b.len() > 0 && (b[0] == 43u8 || b[0] == 45u8) {
        let d = b.drop_first();
        if d.len() > 0 && all_digits(d) {
            Some(
                if b[0] == 45u8 {
                    -digit_val(d)
                } else {
                    digit_val(d) as int
                },
            )
        } else {
            None
        }
    } else if b.len() > 0 && all_digits(b) {
        Some(digit_val(b) as int)
    } else {
        None
    }
}

/// The 64-bit integer that a body denotes, if any.
pub open spec fn parse_int(b: Seq<u8>) -> Option<int> {
    match signed_value(b) {
        Some(v) => if i64::MIN <= v <= i64::MAX {
            Some(v)
        } else {
            None
        },
        None => None,
    }
}

/// The length that a header body denotes: `None` for the null length `-1`.
pub open spec fn parse_len_body(b: Seq<u8>) -> Result<Option<nat>, ErrorKind> {
    if b.len() > 0 && b[0] == 45u8 {
        if b == seq![45u8, 49u8] {
            Ok(None)
        } else {
            Err(ErrorKind::InvalidFrame)
        }
    } else {
        match signed_value(b) {
            Some(v) => if 0 <= v <= usize::MAX {
                Ok(Some(v as nat))
            } else {
                Err(ErrorKind::InvalidFrame)
            },
            None => Err(ErrorKind::InvalidFrame),
        }
    }
}

/// A length header of type `tag`: where its CRLF starts, and the length.
pub open spec fn length_header(s: Seq<u8>, tag: u8) -> Result<(int, Option<nat>), ErrorKind> {
    match simple_end(s, tag) {
        Err(k) => Err(k),
        Ok(e) => match parse_len_body(s.subrange(1, e)) {
            Err(k) => Err(k),
            Ok(l) => Ok((e, l)),
        },
    }
}

/// The body of the length header of type `tag` at the start of `s`, where that length
/// is negative but not `-1`.
pub open spec fn negative_length(s: Seq<u8>, tag: u8) -> Option<Seq<u8>> {
    match simple_end(s, tag) {
        Ok(e) => {
            let b = s.subrange(1, e);
            if b.len() > 0 && b[0] == 45u8 && b != seq![45u8, 49u8] {
                Some(b)
            } else {
                None
            }
        },
        Err(_) => None,
    }
}

/// The detail of the error for a negative length: `Invalid Length:`, then the body.
pub open spec fn length_detail(b: Seq<u8>) -> Seq<char> {
    "Invalid Length:"@ + body_text(b)
}

/// Where `s` starts with a length-prefixed frame whose length is negative but not `-1`,
/// an `InvalidFrame` error `r` carries the detail `length_detail`.
pub open spec fn length_error_stated<T>(r: Result<T, crate::frame::RespError>, s: Seq<u8>) -> bool {
    s.len() > 0 && (s[0] == 36u8 || s[0] == 42u8 || s[0] == 37u8 || s[0] == 126u8) ==> match negative_length(s, s[0]) {
        Some(b) => (r matches Err(crate::frame::RespError::InvalidFrame(d)) ==> d@ == length_detail(b)),
        None => true,
    }
}

/// Whether `s` starts with the literal `lit`.
pub open spec fn fixed(s: Seq<u8>, lit: Seq<u8>) -> Result<(), ErrorKind> {
    if s.len() < lit.len() {
        Err(ErrorKind::NotComplete)
    } else if s.subrange(0, lit.len() as int) == lit {
        Ok(())
    } else {
        Err(ErrorKind::InvalidFrameType)
    }
}

/// The index of the first non-digit at or after `i`.
pub open spec fn digits_end(b: Seq<u8>, i: int) -> int
    decreases b.len() - i,
{
    if 0 <= i < b.len() && is_digit(b[i]) {
        digits_end(b, i + 1)
    } else {
        i
    }
}

pub open spec fn lower(c: u8) -> u8 {
    if 65u8 <= c <= 90u8 {
        (c + 32) as u8
    } else {
        c
    }
}

/// Whether `b` spells the lower-case word `w`, ignoring ASCII case.
pub open spec fn word_ci(b: Seq<u8>, w: Seq<u8>) -> bool {
    b.len() == w.len() && forall|i: int| 0 <= i < b.len() ==> lower(#[trigger] b[i]) == w[i]
}

/// An exponent from index `j`: an optional sign, then digits to the end.
pub open spec fn exp_ok(b: Seq<u8>, j: int) -> bool {
    let j2 = if j < b.len() && (b[j] == 43u8 || b[j] == 45u8) {
        j + 1
    } else {
        j
    };
    digits_end(b, j2) > j2 && digits_end(b, j2) == b.len()
}

/// Digits, a point and digits (one side may be empty, not both), then an optional exponent.
pub open spec fn number_lit(b: Seq<u8>) -> bool {
    let i1 = digits_end(b, 0);
    let i2 = if i1 < b.len() && b[i1] == 46u8 {
        digits_end(b, i1 + 1)
    } else {
        i1
    };
    let n_digits = if i1 < b.len() && b[i1] == 46u8 {
        i1 + (i2 - i1 - 1)
    } else {
        i1
    };
    n_digits > 0 && (i2 == b.len() || (i2 < b.len() && lower(b[i2]) == 101u8 && exp_ok(b, i2 + 1)))
}

pub open spec fn word_inf() -> Seq<u8> {
    seq![105u8, 110u8, 102u8]
}

pub open spec fn word_infinity() -> Seq<u8> {
    seq![105u8, 110u8, 102u8, 105u8, 110u8, 105u8, 116u8, 121u8]
}

pub open spec fn word_nan() -> Seq<u8> {
    seq![110u8, 97u8, 110u8]
}

/// A floating-point literal as Rust's `f64` parser reads one.
pub open spec fn float_lit(b: Seq<u8>) -> bool {
    let t = if b.len() > 0 && (b[0] == 43u8 || b[0] == 45u8) {
        b.drop_first()
    } else {
        b
    };
    word_ci(t, word_inf()) || word_ci(t, word_infinity()) || word_ci(t, word_nan()) || number_lit(t)
}

/// The order of map keys: lexicographic on their UTF-8 bytes.
pub open spec fn bytes_lt(a: Seq<u8>, b: Seq<u8>) -> bool
    decreases a.len(),
{
    if a.len() == 0 {
        b.len() > 0
    } else if b.len() == 0 {
        false
    } else if a[0] != b[0] {
        a[0] < b[0]
    } else {
        bytes_lt(a.drop_first(), b.drop_first())
    }
}

pub open spec fn key_lt(a: Seq<char>, b: Seq<char>) -> bool {
    bytes_lt(encode_utf8(a), encode_utf8(b))
}

/// Map insertion: an entry for key `k` replaces the one with an equal key, else
/// goes before the first greater key.
pub open spec fn insert_entry(es: Seq<(Seq<char>, Value)>, k: Seq<char>, v: Value) -> Seq<
    (Seq<char>, Value),
>
    decreases es.len(),
{
    if es.len() == 0 {
        seq![(k, v)]
    } else if key_lt(es[0].0, k) {
        seq![es[0]] + insert_entry(es.drop_first(), k, v)
    } else if es[0].0 == k {
        seq![(k, v)] + es.drop_first()
    } else {
        seq![(k, v)] + es
    }
}

/// The map made by inserting the first `n` pairs in order into an empty map.
pub open spec fn build_map(ps: Seq<(Seq<char>, Value)>, n: int) -> Seq<(Seq<char>, Value)>
    decreases n,
{
    if n <= 0 || n > ps.len() {
        Seq::empty()
    } else {
        insert_entry(build_map(ps, n - 1), ps[n - 1].0, ps[n - 1].1)
    }
}

/// Strictly increasing keys.
pub open spec fn sorted_keys(es: Seq<(Seq<char>, Value)>) -> bool {
    forall|i: int, j: int| 0 <= i < j < es.len() ==> key_lt(#[trigger] es[i].0, #[trigger] es[j].0)
}

/// Prefixes the values and length parsed so far to the result of parsing the rest.
pub open spec fn prepend<T>(vs: Seq<T>, p: nat, r: Result<(Seq<T>, nat), ErrorKind>) -> Result<
    (Seq<T>, nat),
    ErrorKind,
> {
    match r {
        Ok((ws, b)) => Ok((vs + ws, p + b)),
        Err(k) => Err(k),
    }
}

/// Decodes the frame at the start of `s`: its model and how many bytes it takes.
pub open spec fn parse(s: Seq<u8>) -> Result<(Value, nat), ErrorKind>
    decreases s.len(), 0int,
{
    if s.len() == 0 {
        Err(ErrorKind::NotComplete)
    } else {
        let t = s[0];
        if t == 43u8 || t == 45u8 || t == 58u8 || t == 44u8 {
            match simple_end(s, t) {
                Err(k) => Err(k),
                Ok(e) => {
                    let body = s.subrange(1, e);
                    let n = (e + 2) as nat;
                    if t == 43u8 {
                        Ok((Value::Simple(body_text(body)), n))
                    } else if t == 45u8 {
                        Ok((Value::Error(body_text(body)), n))
                    } else if t == 58u8 {
                        match parse_int(body) {
                            Some(v) => Ok((Value::Integer(v), n)),
                            None => Err(ErrorKind::InvalidFrame),
                        }
                    } else if float_lit(body) {
                        Ok((Value::Double(body_text(body)), n))
                    } else {
                        Err(ErrorKind::InvalidFrame)
                    }
                },
            }
        } else if t == 95u8 {
            match fixed(s, null_line()) {
                Ok(_) => Ok((Value::Null, 3)),
                Err(k) => Err(k),
            }
        } else if t == 35u8 {
            match fixed(s, bool_line(true)) {
                Ok(_) => Ok((Value::Boolean(true), 4)),
                Err(ErrorKind::NotComplete) => Err(ErrorKind::NotComplete),
                Err(_) => match fixed(s, bool_line(false)) {
                    Ok(_) => Ok((Value::Boolean(false), 4)),
                    Err(k) => Err(k),
                },
            }
        } else if t == 36u8 {
            match fixed(s, null_bulk()) {
                Ok(_) => Ok((Value::Bulk(Seq::empty()), 5)),
                Err(ErrorKind::NotComplete) => Err(ErrorKind::NotComplete),
                Err(_) => match length_header(s, 36u8) {
                    Err(k) => Err(k),
                    Ok((e, None)) => Ok((Value::Bulk(Seq::empty()), (e + 2) as nat)),
                    Ok((e, Some(n))) => if s.len() < e + n + 4 {
                        Err(ErrorKind::NotComplete)
                    } else if s.subrange(e + n + 2, e + n + 4) != crlf() {
                        Err(ErrorKind::InvalidFrame)
                    } else {
                        Ok((Value::Bulk(s.subrange(e + 2, e + n + 2)), (e + n + 4) as nat))
                    },
                },
            }
        } else if t == 42u8 {
            match fixed(s, null_array()) {
                Ok(_) => Ok((Value::Array(Seq::empty()), 5)),
                Err(ErrorKind::NotComplete) => Err(ErrorKind::NotComplete),
                Err(_) => match length_header(s, 42u8) {
                    Err(k) => Err(k),
                    Ok((e, None)) => Ok((Value::Array(Seq::empty()), (e + 2) as nat)),
                    Ok((e, Some(n))) => match parse_items(s.subrange(e + 2, s.len() as int), n) {
                        Err(k) => Err(k),
                        Ok((vs, m)) => {
                            let end = e + 2 + m;
                            if end + 1 == s.len() && s[end] == 13u8 {
                                Err(ErrorKind::NotComplete)
                            } else {
                                Ok((Value::Array(vs), (end + trailing_crlf(s, end)) as nat))
                            }
                        },
                    },
                },
            }
        } else if t == 37u8 {
            match length_header(s, 37u8) {
                Err(k) => Err(k),
                Ok((e, None)) => Err(ErrorKind::InvalidFrame),
                Ok((e, Some(n))) => match parse_pairs(s.subrange(e + 2, s.len() as int), n) {
                    Err(k) => Err(k),
                    Ok((ps, m)) => Ok((Value::MapOf(build_map(ps, ps.len() as int)), (e + 2 + m) as nat)),
                },
            }
        } else if t == 126u8 {
            match length_header(s, 126u8) {
                Err(k) => Err(k),
                Ok((e, None)) => Err(ErrorKind::InvalidFrame),
                Ok((e, Some(n))) => match parse_items(s.subrange(e + 2, s.len() as int), n) {
                    Err(k) => Err(k),
                    Ok((vs, m)) => Ok((Value::SetOf(vs), (e + 2 + m) as nat)),
                },
            }
        } else {
            Err(ErrorKind::InvalidFrameType)
        }
    }
}

/// Decodes the frame at the start of `s` as a message of its own: as `parse` does,
/// except that an array's trailing CRLF is not taken; it is left for the next read.
pub open spec fn parse_top(s: Seq<u8>) -> Result<(Value, nat), ErrorKind> {
    if s.len() > 0 && s[0] == 42u8 {
        match fixed(s, null_array()) {
            Ok(_) => Ok((Value::Array(Seq::empty()), 5)),
            Err(ErrorKind::NotComplete) => Err(ErrorKind::NotComplete),
            Err(_) => match length_header(s, 42u8) {
                Err(k) => Err(k),
                Ok((e, None)) => Ok((Value::Array(Seq::empty()), (e + 2) as nat)),
                Ok((e, Some(n))) => match parse_items(s.subrange(e + 2, s.len() as int), n) {
                    Err(k) => Err(k),
                    Ok((vs, m)) => Ok((Value::Array(vs), (e + 2 + m) as nat)),
                },
            },
        }
    } else {
        parse(s)
    }
}

/// 2 where a CRLF follows index `end` (the terminator of an array inside another
/// frame), else 0. A lone CR at the very end of the input is the first half of one,
/// still to come.
pub open spec fn trailing_crlf(s: Seq<u8>, end: int) -> int {
    if end + 2 <= s.len() && s[end] == 13u8 && s[end + 1] == 10u8 {
        2
    } else {
        0
    }
}

/// Decodes `n` frames one after another from the start of `s`.
pub open spec fn parse_items(s: Seq<u8>, n: nat) -> Result<(Seq<Value>, nat), ErrorKind>
    decreases s.len(), n + 1,
{
    if n == 0 {
        Ok((Seq::empty(), 0))
    } else {
        match parse(s) {
            Err(k) => Err(k),
            Ok((v, a)) => if a > s.len() {
                Err(ErrorKind::InvalidFrame)
            } else {
                prepend(seq![v], a, parse_items(s.subrange(a as int, s.len() as int), (n - 1) as nat))
            },
        }
    }
}

/// Decodes `n` map entries, each a simple-string key and a frame, from the start of `s`.
pub open spec fn parse_pairs(s: Seq<u8>, n: nat) -> Result<(Seq<(Seq<char>, Value)>, nat), ErrorKind>
    decreases s.len(), n + 1,
{
    if n == 0 {
        Ok((Seq::empty(), 0))
    } else {
        match simple_end(s, 43u8) {
            Err(k) => Err(k),
            Ok(e) => {
                let rest = s.subrange(e + 2, s.len() as int);
                match parse(rest) {
                    Err(k) => Err(k),
                    Ok((v, a)) => if a > rest.len() {
                        Err(ErrorKind::InvalidFrame)
                    } else {
                        prepend(
                            seq![(body_text(s.subrange(1, e)), v)],
                            (e + 2 + a) as nat,
                            parse_pairs(rest.subrange(a as int, rest.len() as int), (n - 1) as nat),
                        )
                    },
                }
            },
        }
    }
}

/// Distinct byte strings are ordered one way or the other.
pub proof fn lemma_bytes_lt_total(a: Seq<u8>, b: Seq<u8>)
    requires
        a != b,
    ensures
        bytes_lt(a, b) || bytes_lt(b, a),
    decreases a.len(),
{
    if a.len() > 0 && b.len() > 0 && a[0] == b[0] {
        if a.drop_first() == b.drop_first() {
            assert(a =~= seq![a[0]] + a.drop_first());
            assert(b =~= seq![b[0]] + b.drop_first());
        }
        lemma_bytes_lt_total(a.drop_first(), b.drop_first());
    } else if a.len() == 0 && b.len() == 0 {
        assert(a =~= b);
    }
}

pub proof fn lemma_bytes_lt_transitive(a: Seq<u8>, b: Seq<u8>, c: Seq<u8>)
    requires
        bytes_lt(a, b),
        bytes_lt(b, c),
    ensures
        bytes_lt(a, c),
    decreases a.len(),
{
    if a.len() > 0 && b.len() > 0 && c.len() > 0 && a[0] == b[0] && b[0] == c[0] {
        lemma_bytes_lt_transitive(a.drop_first(), b.drop_first(), c.drop_first());
    }
}

/// Distinct keys are ordered one way or the other.
pub proof fn lemma_key_lt_total(a: Seq<char>, b: Seq<char>)
    requires
        a != b,
    ensures
        key_lt(a, b) || key_lt(b, a),
{
    broadcast use vstd::utf8::encode_utf8_decode_utf8;

    if encode_utf8(a) == encode_utf8(b) {
        assert(decode_utf8(encode_utf8(a)) == decode_utf8(encode_utf8(b)));
    }
    lemma_bytes_lt_total(encode_utf8(a), encode_utf8(b));
}

/// Inserting an entry between the keys below it and those above keeps a map in key order.
pub proof fn lemma_insert_keeps_order(es: Seq<(Seq<char>, Value)>, i: int, k: Seq<char>, v: Value)
    requires
        sorted_keys(es),
        0 <= i <= es.len(),
        forall|j: int| 0 <= j < i ==> key_lt(#[trigger] es[j].0, k),
        i < es.len() ==> key_lt(k, es[i].0),
    ensures
        sorted_keys(es.insert(i, (k, v))),
{
    let t = es.insert(i, (k, v));
    assert forall|a: int, b: int| 0 <= a < b < t.len() implies key_lt(#[trigger] t[a].0, #[trigger] t[b].0) by {
        if b < i {
            assert(t[a] == es[a] && t[b] == es[b]);
        } else if b == i {
            assert(t[a] == es[a]);
        } else if a == i {
            assert(t[b] == es[b - 1]);
            if b - 1 > i {
                assert(key_lt(es[i].0, es[b - 1].0));
                lemma_bytes_lt_transitive(encode_utf8(k), encode_utf8(es[i].0), encode_utf8(es[b - 1].0));
            }
        } else if a < i {
            assert(t[a] == es[a] && t[b] == es[b - 1]);
        } else {
            assert(t[a] == es[a - 1] && t[b] == es[b - 1]);
        }
    }
}

} // verus!
