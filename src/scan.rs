//! Scanning the pieces of a frame: line ends, numerals, literals.
use crate::frame::{ErrorKind, RespError};
use crate::grammar::{
    all_digits, crlf_at, digit_val, digits_end, first_crlf, fixed, float_lit, is_digit,
    length_header, length_detail, lower, negative_length, nth_crlf_from, number_lit, parse_int, parse_len_body, simple_end, word_ci, word_inf, word_infinity, word_nan,
};
use vstd::prelude::*;
use vstd::string::StringSliceAdditionalSpecFns;

verus! {

/// Finds the `nth` CRLF (counting from 1) that starts at index 1 or later.
pub fn find_crlf(buf: &[u8], nth: usize) -> (r: Option<usize>)
    ensures
        match r {
            Some(i) => nth_crlf_from(buf@, 1, nth as nat) == Some(i as int),
            None => nth_crlf_from(buf@, 1, nth as nat) is None,
        },
{
    if nth == 0 || buf.len() < 2 {
        return None;
    }
    let mut count: usize = 0;
    let mut i: usize = 1;
    while i < buf.len() - 1
        invariant
            1 <= i,
            buf@.len() >= 2,
            count < nth,
            nth_crlf_from(buf@, 1, nth as nat) == nth_crlf_from(buf@, i as int, (nth - count) as nat),
        decreases buf@.len() - i,
    {
        if buf[i] == 13u8 && buf[i + 1] == 10u8 {
            count += 1;
            if count == nth {
                return Some(i);
            }
        }
        i += 1;
    }
    None
}

/// A position that `nth_crlf_from` reports holds a CRLF, at or after `i`.
pub proof fn lemma_nth_crlf_at(s: Seq<u8>, i: int, n: nat)
    ensures
        nth_crlf_from(s, i, n) matches Some(e) ==> e >= i && crlf_at(s, e),
    decreases s.len() - i,
{
    if n == 0 || i < 0 || i + 1 >= s.len() {
    } else if crlf_at(s, i) {
        if n != 1 {
            lemma_nth_crlf_at(s, i + 1, (n - 1) as nat);
        }
    } else {
        lemma_nth_crlf_at(s, i + 1, n);
    }
}

pub open spec fn err_is<T>(r: Result<T, RespError>, k: ErrorKind) -> bool {
    r is Err && r->Err_0.kind() == k
}

pub(crate) fn not_complete<T>() -> (r: Result<T, RespError>)
    ensures
        err_is(r, ErrorKind::NotComplete),
{
    Err(RespError::NotComplete)
}

pub(crate) fn invalid_type<T>() -> (r: Result<T, RespError>)
    ensures
        err_is(r, ErrorKind::InvalidFrameType),
{
    Err(RespError::InvalidFrameType("unexpected frame type".to_owned()))
}

pub(crate) fn invalid_frame<T>(detail: &str) -> (r: Result<T, RespError>)
    ensures
        err_is(r, ErrorKind::InvalidFrame),
{
    Err(RespError::InvalidFrame(detail.to_owned()))
}

/// Where the body of a single-line frame of type `tag` ends: the index of its CRLF.
pub fn line_end(buf: &[u8], tag: u8) -> (r: Result<usize, RespError>)
    ensures
        match r {
            Ok(e) => simple_end(buf@, tag) == Ok::<int, ErrorKind>(e as int),
            Err(err) => simple_end(buf@, tag) == Err::<int, ErrorKind>(err.kind()),
        },
        r matches Ok(e) ==> 1 <= e && e + 2 <= buf@.len(),
{
    if buf.len() < 3 {
        return not_complete();
    }
    if buf[0] != tag {
        return invalid_type();
    }
    proof {
        lemma_nth_crlf_at(buf@, 1, 1);
    }
    match find_crlf(buf, 1) {
        Some(e) => Ok(e),
        None => not_complete(),
    }
}

/// Checks that `buf` starts with `prefix` and finds the CRLF that ends the line.
pub fn extract_simple_frame_data(buf: &[u8], prefix: &str) -> (r: Result<usize, RespError>)
    ensures
        buf@.len() < 3 ==> err_is(r, ErrorKind::NotComplete),
        buf@.len() >= 3 && !prefix.spec_bytes().is_prefix_of(buf@) ==> err_is(
            r,
            ErrorKind::InvalidFrameType,
        ),
        buf@.len() >= 3 && prefix.spec_bytes().is_prefix_of(buf@) ==> match r {
            Ok(e) => first_crlf(buf@) == Some(e as int),
            Err(err) => first_crlf(buf@) is None && err.kind() == ErrorKind::NotComplete,
        },
{
    if buf.len() < 3 {
        return not_complete();
    }
    let p = prefix.as_bytes();
    if p.len() > buf.len() {
        return invalid_type();
    }
    let mut i: usize = 0;
    while i < p.len()
        invariant
            i <= p@.len(),
            buf@.len() >= 3,
            p@.len() <= buf@.len(),
            p@ == prefix.spec_bytes(),
            forall|j: int| 0 <= j < i ==> p@[j] == buf@[j],
        decreases p@.len() - i,
    {
        if p[i] != buf[i] {
            assert(buf@.subrange(0, p@.len() as int)[i as int] != p@[i as int]);
            return invalid_type();
        }
        i += 1;
    }
    assert(p@.is_prefix_of(buf@)) by {
        assert(buf@.subrange(0, p@.len() as int) =~= p@);
    }
    match find_crlf(buf, 1) {
        Some(e) => Ok(e),
        None => not_complete(),
    }
}

/// Whether `buf` starts with `lit`.
pub fn match_fixed(buf: &[u8], lit: &[u8]) -> (r: Result<(), RespError>)
    ensures
        match fixed(buf@, lit@) {
            Ok(_) => r is Ok,
            Err(k) => err_is(r, k),
        },
{
    if buf.len() < lit.len() {
        return not_complete();
    }
    let mut i: usize = 0;
    while i < lit.len()
        invariant
            i <= lit@.len(),
            lit@.len() <= buf@.len(),
            forall|j: int| 0 <= j < i ==> lit@[j] == buf@[j],
        decreases lit@.len() - i,
    {
        if lit[i] != buf[i] {
            assert(buf@.subrange(0, lit@.len() as int)[i as int] != lit@[i as int]);
            return invalid_type();
        }
        i += 1;
    }
    assert(buf@.subrange(0, lit@.len() as int) =~= lit@);
    Ok(())
}

/// Every prefix of a digit string is worth no more than the whole.
pub proof fn lemma_digit_val_prefix(b: Seq<u8>, i: int)
    requires
        0 <= i <= b.len(),
    ensures
        digit_val(b.subrange(0, i)) <= digit_val(b),
    decreases b.len(),
{
    if i < b.len() {
        lemma_digit_val_prefix(b.drop_last(), i);
        assert(b.drop_last().subrange(0, i) == b.subrange(0, i));
    } else {
        assert(b.subrange(0, i) == b);
    }
}

/// The value of a nonempty string of digits, where it fits in a `u64`.
pub fn parse_unsigned(b: &[u8]) -> (r: Option<u64>)
    ensures
        r is Some <==> (b@.len() > 0 && all_digits(b@) && digit_val(b@) <= u64::MAX),
        r matches Some(v) ==> v as nat == digit_val(b@),
{
    if b.len() == 0 {
        return None;
    }
    let mut acc: u64 = 0;
    let mut i: usize = 0;
    while i < b.len()
        invariant
            i <= b@.len(),
            all_digits(b@.subrange(0, i as int)),
            acc as nat == digit_val(b@.subrange(0, i as int)),
        decreases b@.len() - i,
    {
        let c = b[i];
        if c < 48u8 || c > 57u8 {
            assert(!is_digit(b@[i as int]));
            return None;
        }
        let d = (c - 48u8) as u64;
        proof {
            let p = b@.subrange(0, i + 1);
            assert(p.drop_last() == b@.subrange(0, i as int));
            assert(digit_val(p) == acc * 10 + d);
            assert(all_digits(p)) by {
                assert forall|j: int| 0 <= j < p.len() implies is_digit(#[trigger] p[j]) by {
                    if j < i {
                        assert(p[j] == b@.subrange(0, i as int)[j]);
                    }
                }
            }
        }
        if acc > 1844674407370955161u64 || (acc == 1844674407370955161u64 && d > 5) {
            proof {
                if all_digits(b@) {
                    lemma_digit_val_prefix(b@, i + 1);
                }
            }
            return None;
        }
        acc = acc * 10 + d;
        i += 1;
    }
    assert(b@.subrange(0, b@.len() as int) == b@);
    Some(acc)
}

/// The 64-bit integer a body denotes: an optional sign, then digits.
pub fn parse_i64(b: &[u8]) -> (r: Option<i64>)
    ensures
        r is Some <==> parse_int(b@) is Some,
        r matches Some(v) ==> v as int == parse_int(b@)->Some_0,
{
    if b.len() > 0 && (b[0] == 43u8 || b[0] == 45u8) {
        let d = vstd::slice::slice_subrange(b, 1, b.len());
        assert(d@ == b@.drop_first());
        match parse_unsigned(d) {
            None => None,
            Some(m) => {
                if b[0] == 45u8 {
                    if m <= 9223372036854775808u64 {
                        Some((-(m as i128)) as i64)
                    } else {
                        None
                    }
                } else if m <= 9223372036854775807u64 {
                    Some(m as i64)
                } else {
                    None
                }
            },
        }
    } else {
        match parse_unsigned(b) {
            None => None,
            Some(m) => if m <= 9223372036854775807u64 {
                Some(m as i64)
            } else {
                None
            },
        }
    }
}

pub open spec fn header_ok(e: usize, l: Option<usize>) -> Result<(int, Option<nat>), ErrorKind> {
    Ok(
        (
            e as int,
            match l {
                Some(n) => Some(n as nat),
                None => None,
            },
        ),
    )
}

pub open spec fn header_err(err: RespError) -> Result<(int, Option<nat>), ErrorKind> {
    Err(err.kind())
}

/// Reads the length header of a frame of type `tag`: the index of the header's CRLF,
/// and the length (`None` for the null length `-1`).
pub fn parse_length(buf: &[u8], tag: u8) -> (r: Result<(usize, Option<usize>), RespError>)
    ensures
        match r {
            Ok((e, l)) => length_header(buf@, tag) == header_ok(e, l),
            Err(err) => length_header(buf@, tag) == header_err(err),
        },
        r matches Ok((e, _)) ==> 1 <= e && e + 2 <= buf@.len(),
        negative_length(buf@, tag) matches Some(b) ==> (r matches Err(RespError::InvalidFrame(d))
            && d@ == length_detail(b)),
{
    let e = match line_end(buf, tag) {
        Ok(e) => e,
        Err(err) => return Err(err),
    };
    let body = vstd::slice::slice_subrange(buf, 1, e);
    assert(negative_length(buf@, tag) == if body@.len() > 0 && body@[0] == 45u8 && body@ != seq![
        45u8,
        49u8,
    ] {
        Some(body@)
    } else {
        None::<Seq<u8>>
    });
    assert(simple_end(buf@, tag) == Ok::<int, ErrorKind>(e as int));
    assert(body@ == buf@.subrange(1, e as int));
    if body.len() > 0 && body[0] == 45u8 {
        if body.len() == 2 && body[1] == 49u8 {
            assert(body@ =~= seq![45u8, 49u8]);
            assert(parse_len_body(body@) == Ok::<Option<nat>, ErrorKind>(None));
            return Ok((e, None));
        }
        assert(body@ != seq![45u8, 49u8]);
        let text = crate::outside::lossy_text(body);
        assert(text@ == crate::grammar::body_text(body@));
        return Err(RespError::InvalidFrame(crate::outside::join_text("Invalid Length:", text.as_str())));
    }
    let digits = if body.len() > 0 && body[0] == 43u8 {
        vstd::slice::slice_subrange(body, 1, body.len())
    } else {
        body
    };
    match parse_unsigned(digits) {
        Some(n) => {
            if n as u128 <= usize::MAX as u128 {
                Ok((e, Some(n as usize)))
            } else {
                invalid_frame("length out of range")
            }
        },
        None => invalid_frame("parse error in length"),
    }
}

/// The index of the first non-digit at or after `i`.
pub fn skip_digits(b: &[u8], i: usize) -> (r: usize)
    requires
        i <= b@.len(),
    ensures
        r as int == digits_end(b@, i as int),
        i <= r <= b@.len(),
{
    let mut j = i;
    while j < b.len() && b[j] >= 48u8 && b[j] <= 57u8
        invariant
            i <= j <= b@.len(),
            digits_end(b@, i as int) == digits_end(b@, j as int),
        decreases b@.len() - j,
    {
        j += 1;
    }
    j
}

/// Whether `b[start..]` spells the lower-case word `w`, ignoring ASCII case.
fn word_matches(b: &[u8], start: usize, w: &[u8]) -> (r: bool)
    requires
        start <= b@.len(),
    ensures
        r == word_ci(b@.subrange(start as int, b@.len() as int), w@),
{
    let t = vstd::slice::slice_subrange(b, start, b.len());
    if t.len() != w.len() {
        return false;
    }
    let mut i: usize = 0;
    while i < w.len()
        invariant
            i <= w@.len(),
            t@.len() == w@.len(),
            t@ == b@.subrange(start as int, b@.len() as int),
            forall|j: int| 0 <= j < i ==> lower(#[trigger] t@[j]) == w@[j],
        decreases w@.len() - i,
    {
        let c = t[i];
        let l = if c >= 65u8 && c <= 90u8 {
            c + 32
        } else {
            c
        };
        if l != w[i] {
            return false;
        }
        i += 1;
    }
    true
}

/// Whether `b` is a floating-point literal as Rust's `f64` parser reads one.
pub fn is_float_literal(b: &[u8]) -> (r: bool)
    ensures
        r == float_lit(b@),
{
    let start: usize = if b.len() > 0 && (b[0] == 43u8 || b[0] == 45u8) {
        1
    } else {
        0
    };
    let t = vstd::slice::slice_subrange(b, start, b.len());
    proof {
        if start == 1 {
            assert(t@ == b@.drop_first());
        } else {
            assert(t@ == b@);
        }
        assert(t@.subrange(0, t@.len() as int) == t@);
    }
    let inf: [u8; 3] = [105u8, 110u8, 102u8];
    let infinity: [u8; 8] = [105u8, 110u8, 102u8, 105u8, 110u8, 105u8, 116u8, 121u8];
    let nan: [u8; 3] = [110u8, 97u8, 110u8];
    assert(inf@ == word_inf());
    assert(infinity@ == word_infinity());
    assert(nan@ == word_nan());
    if word_matches(t, 0, inf.as_slice()) || word_matches(t, 0, infinity.as_slice())
        || word_matches(t, 0, nan.as_slice()) {
        return true;
    }
    is_number(t)
}

/// Digits, a point and digits (not both sides empty), then an optional exponent.
fn is_number(b: &[u8]) -> (r: bool)
    ensures
        r == number_lit(b@),
{
    let i1 = skip_digits(b, 0);
    let (i2, n_digits) = if i1 < b.len() && b[i1] == 46u8 {
        let i2 = skip_digits(b, i1 + 1);
        (i2, i1 + (i2 - i1 - 1))
    } else {
        (i1, i1)
    };
    if n_digits == 0 {
        return false;
    }
    if i2 == b.len() {
        return true;
    }
    if b[i2] != 101u8 && b[i2] != 69u8 {
        return false;
    }
    let j = i2 + 1;
    let j2 = if j < b.len() && (b[j] == 43u8 || b[j] == 45u8) {
        j + 1
    } else {
        j
    };
    let k = skip_digits(b, j2);
    k > j2 && k == b.len()
}

} // verus!
