//! Serialising frames to bytes.
use crate::frame::{
    model, BulkString, RespArray, RespDouble, RespFrame, RespMap, RespNull, RespSet, SimpleError,
    SimpleString, Value,
};
use crate::wire::{
    bool_line, crlf, digits, enc, enc_entries, enc_kept, enc_list, header, int_line, kept_count,
    line, null_bulk, null_line, seen,
};
use vstd::prelude::*;

verus! {

/// Appends the bytes of `b` to `out`.
pub fn push_bytes(out: &mut Vec<u8>, b: &[u8])
    ensures
        final(out)@ == old(out)@ + b@,
{
    let mut i: usize = 0;
    while i < b.len()
        invariant
            i <= b@.len(),
            out@ == old(out)@ + b@.subrange(0, i as int),
        decreases b@.len() - i,
    {
        out.push(b[i]);
        i += 1;
        proof {
            assert(b@.subrange(0, i as int) == b@.subrange(0, i - 1) + seq![b@[i - 1]]);
        }
    }
    assert(b@.subrange(0, b@.len() as int) == b@);
}

/// Appends the minimal decimal digits of `n` to `out`.
pub fn push_digits(out: &mut Vec<u8>, n: u64)
    ensures
        final(out)@ == old(out)@ + digits(n as nat),
    decreases n,
{
    if n >= 10 {
        push_digits(out, n / 10);
    }
    out.push(48u8 + (n % 10) as u8);
    proof {
        if n >= 10 {
            assert(digits(n as nat) == digits((n / 10) as nat) + seq![(48 + n % 10) as u8]);
        }
    }
}

fn push_crlf(out: &mut Vec<u8>)
    ensures
        final(out)@ == old(out)@ + crlf(),
{
    out.push(13u8);
    out.push(10u8);
}

/// Appends a length header: `tag`, the digits of `n`, CRLF.
fn push_header(out: &mut Vec<u8>, tag: u8, n: usize)
    ensures
        final(out)@ == old(out)@ + header(tag, n as nat),
{
    out.push(tag);
    push_digits(out, n as u64);
    push_crlf(out);
}

/// Appends a single-line frame: `tag`, the UTF-8 bytes of `text`, CRLF.
fn push_line(out: &mut Vec<u8>, tag: u8, text: &String)
    ensures
        final(out)@ == old(out)@ + line(tag, text@),
{
    out.push(tag);
    push_bytes(out, text.as_str().as_bytes());
    push_crlf(out);
}

fn push_int(out: &mut Vec<u8>, n: i64)
    ensures
        final(out)@ == old(out)@ + int_line(n as int),
{
    out.push(58u8);
    if n >= 0 {
        out.push(43u8);
        push_digits(out, n as u64);
    } else {
        out.push(45u8);
        let m: u64 = (-(n as i128)) as u64;
        push_digits(out, m);
    }
    push_crlf(out);
}

/// Appends the encoding of `f` to `out`.
pub fn write_frame(f: &RespFrame, out: &mut Vec<u8>)
    ensures
        final(out)@ == old(out)@ + enc(model(*f)),
    decreases f,
{
    broadcast use vstd::std_specs::vec::axiom_vec_decreases_to_view;

    reveal(enc);

    match f {
        RespFrame::SimpleString(s) => {
            assert(enc(model(*f)) == line(43u8, s.0@));
            push_line(out, 43u8, &s.0);
        },
        RespFrame::Error(s) => {
            assert(enc(model(*f)) == line(45u8, s.0@));
            push_line(out, 45u8, &s.0);
        },
        RespFrame::Integer(n) => {
            assert(enc(model(*f)) == int_line(*n as int));
            push_int(out, *n);
        },
        RespFrame::BulkString(b) => {
            if b.0.len() == 0 {
                out.push(36u8);
                out.push(45u8);
                out.push(49u8);
                push_crlf(out);
                assert(out@ =~= old(out)@ + null_bulk());
            } else {
                push_header(out, 36u8, b.0.len());
                push_bytes(out, b.0.as_slice());
                push_crlf(out);
            }
        },
        RespFrame::Array(a) => {
            assert(model(*f)->Array_0 =~= crate::frame::models(a.0@));
            write_array(&a.0, out);
        },
        RespFrame::Null(_) => {
            out.push(95u8);
            push_crlf(out);
            assert(out@ =~= old(out)@ + null_line());
        },
        RespFrame::Boolean(b) => {
            out.push(35u8);
            out.push(if *b { 116u8 } else { 102u8 });
            push_crlf(out);
            assert(out@ =~= old(out)@ + bool_line(*b));
        },
        RespFrame::Double(d) => push_line(out, 44u8, &d.0),
        RespFrame::MapFrame(m) => {
            assert(model(*f)->MapOf_0 =~= crate::frame::entry_models(m.0@));
            write_map(&m.0, out);
        },
        RespFrame::SetFrame(s) => {
            assert(model(*f)->SetOf_0 =~= crate::frame::models(s.0@));
            let (body, count) = encode_kept(&s.0);
            push_header(out, 126u8, count);
            push_bytes(out, body.as_slice());
        },
    }
}

/// Appends the encoding of an array with elements `items`.
fn write_array(items: &Vec<RespFrame>, out: &mut Vec<u8>)
    ensures
        final(out)@ == old(out)@ + enc(Value::Array(crate::frame::models(items@))),
    decreases items,
{
    broadcast use vstd::std_specs::vec::axiom_vec_decreases_to_view;

    let ghost s = crate::frame::models(items@);
    if items.len() == 0 {
        out.push(42u8);
        out.push(45u8);
        out.push(49u8);
        push_crlf(out);
        assert(out@ =~= old(out)@ + enc(Value::Array(s))) by {
            reveal(enc);
        }
        return;
    }
    let ghost start = out@;
    push_header(out, 42u8, items.len());
    proof {
        reveal(enc);
    }
    let mut i: usize = 0;
    while i < items.len()
        invariant
            i <= items@.len(),
            s == crate::frame::models(items@),
            out@ == start + header(42u8, s.len()) + enc_list(s, i as int),
        decreases items@.len() - i,
    {
        proof {
            assert(decreases_to!(items => items@));
        }
        write_frame(&items[i], out);
        proof {
            assert(enc_list(s, i + 1) == enc_list(s, i as int) + enc(s[i as int])) by {
                    reveal(enc);
                }
            assert(out@ =~= start + header(42u8, s.len()) + enc_list(s, i + 1));
        }
        i += 1;
    }
    push_crlf(out);
    proof {
        reveal(enc);
    }
}

/// Appends the encoding of a map with entries `entries`, in their order.
fn write_map(entries: &Vec<(String, RespFrame)>, out: &mut Vec<u8>)
    ensures
        final(out)@ == old(out)@ + enc(Value::MapOf(crate::frame::entry_models(entries@))),
    decreases entries,
{
    broadcast use vstd::std_specs::vec::axiom_vec_decreases_to_view;

    let ghost es = crate::frame::entry_models(entries@);
    let ghost start = out@;
    proof {
        reveal(enc);
    }
    push_header(out, 37u8, entries.len());
    let mut i: usize = 0;
    while i < entries.len()
        invariant
            i <= entries@.len(),
            es == crate::frame::entry_models(entries@),
            out@ == start + header(37u8, es.len()) + enc_entries(es, i as int),
        decreases entries@.len() - i,
    {
        proof {
            assert(decreases_to!(entries => entries@));
            assert(decreases_to!(entries@[i as int] => entries@[i as int].1));
        }
        push_line(out, 43u8, &entries[i].0);
        write_frame(&entries[i].1, out);
        proof {
            assert(enc_entries(es, i + 1) == enc_entries(es, i as int) + line(43u8, es[i as int].0) + enc(es[i as int].1)) by {
                    reveal(enc);
                }
            assert(out@ =~= start + header(37u8, es.len()) + enc_entries(es, i + 1));
        }
        i += 1;
    }
}

/// Encodes the elements of a set one after another, skipping each element whose
/// bytes an earlier element already produced; returns the bytes and how many were kept.
fn encode_kept(items: &Vec<RespFrame>) -> (r: (Vec<u8>, usize))
    ensures
        r.0@ == enc_kept(crate::frame::models(items@), items@.len() as int),
        r.1 == kept_count(crate::frame::models(items@), items@.len() as int),
    decreases items,
{
    broadcast use vstd::std_specs::vec::axiom_vec_decreases_to_view;

    let ghost s = crate::frame::models(items@);
    let mut body: Vec<u8> = Vec::new();
    let mut kept: Vec<Vec<u8>> = Vec::new();
    let ghost mut kv: Seq<Seq<u8>> = Seq::empty();
    let mut i: usize = 0;
    proof {
        reveal(covers);
    }
    while i < items.len()
        invariant
            i <= items@.len(),
            s == crate::frame::models(items@),
            body@ == enc_kept(s, i as int),
            kv.len() == kept@.len(),
            forall|k: int| 0 <= k < kv.len() ==> (#[trigger] kept@[k])@ == kv[k],
            kv.len() == kept_count(s, i as int),
            covers(kv, s, i as int),
        decreases items@.len() - i,
    {
        let mut e: Vec<u8> = Vec::new();
        proof {
            assert(decreases_to!(items => items@));
        }
        write_frame(&items[i], &mut e);
        let found = contains_bytes(&kept, &e);
        proof {
            if found {
                let k = choose|k: int| 0 <= k < kept@.len() && #[trigger] kept@[k]@ == e@;
                assert(kv[k] == e@);
            }
            if exists|k: int| 0 <= k < kv.len() && #[trigger] kv[k] == e@ {
                let k = choose|k: int| 0 <= k < kv.len() && #[trigger] kv[k] == e@;
                assert(kept@[k]@ == e@);
            }
            lemma_kept_step(s, kv, i as int, e@);
        }
        if !found {
            push_bytes(&mut body, e.as_slice());
            kept.push(e);
            proof {
                kv = kv.push(e@);
                assert(enc_kept(s, i + 1) == enc_kept(s, i as int) + enc(s[i as int])) by {
                    reveal(enc);
                }
            }
        } else {
            proof {
                assert(enc_kept(s, i + 1) == enc_kept(s, i as int)) by {
                    reveal(enc);
                }
            }
        }
        i += 1;
    }
    (body, kept.len())
}

/// Every one of the first `i` elements of `s` encodes as some string in `kv`, and
/// every string in `kv` is the encoding of one of them.
#[verifier::opaque]
pub open spec fn covers(kv: Seq<Seq<u8>>, s: Seq<Value>, i: int) -> bool {
    &&& forall|j: int|
        #![trigger s[j]]
        0 <= j < i ==> exists|k: int| #![trigger kv[k]] 0 <= k < kv.len() && kv[k] == enc(s[j])
    &&& forall|k: int|
        #![trigger kv[k]]
        0 <= k < kv.len() ==> exists|j: int| #![trigger s[j]] 0 <= j < i && kv[k] == enc(s[j])
}

/// One step of the set encoding: element `i` is new exactly when no kept string equals
/// its bytes, and keeping it (when new) extends the cover.
proof fn lemma_kept_step(s: Seq<Value>, kv: Seq<Seq<u8>>, i: int, e: Seq<u8>)
    requires
        0 <= i < s.len(),
        covers(kv, s, i),
        e == enc(s[i]),
    ensures
        seen(s, i, i) == exists|k: int| 0 <= k < kv.len() && #[trigger] kv[k] == e,
        seen(s, i, i) ==> covers(kv, s, i + 1),
        !seen(s, i, i) ==> covers(kv.push(e), s, i + 1),
{
    reveal(covers);
    lemma_seen_iff(s, i, i);
    if exists|k: int| 0 <= k < kv.len() && #[trigger] kv[k] == e {
        let k = choose|k: int| 0 <= k < kv.len() && #[trigger] kv[k] == e;
        let j = choose|j: int| #![trigger s[j]] 0 <= j < i && kv[k] == enc(s[j]);
        assert(0 <= j < i && enc(s[j]) == enc(s[i]));
    }
    if seen(s, i, i) {
        let j = choose|j: int| 0 <= j < i && enc(#[trigger] s[j]) == enc(s[i]);
        let k = choose|k: int| #![trigger kv[k]] 0 <= k < kv.len() && kv[k] == enc(s[j]);
        assert(kv[k] == e);
    } else {
        let kv2 = kv.push(e);
        assert forall|j: int| #![trigger s[j]] 0 <= j < i + 1 implies exists|k: int|
            #![trigger kv2[k]]
            0 <= k < kv2.len() && kv2[k] == enc(s[j]) by {
            if j < i {
                let k = choose|k: int| #![trigger kv[k]] 0 <= k < kv.len() && kv[k] == enc(s[j]);
                assert(kv2[k] == kv[k]);
            } else {
                assert(kv2[kv.len() as int] == enc(s[j]));
            }
        }
        assert forall|k: int| #![trigger kv2[k]] 0 <= k < kv2.len() implies exists|j: int|
            #![trigger s[j]]
            0 <= j < i + 1 && kv2[k] == enc(s[j]) by {
            if k < kv.len() {
                assert(kv2[k] == kv[k]);
                let j = choose|j: int| #![trigger s[j]] 0 <= j < i && kv[k] == enc(s[j]);
            } else {
                assert(kv2[k] == enc(s[i]));
            }
        }
    }
}

/// Whether one of the byte strings in `list` equals `b`.
fn contains_bytes(list: &Vec<Vec<u8>>, b: &Vec<u8>) -> (r: bool)
    ensures
        r == exists|k: int| 0 <= k < list@.len() && #[trigger] list@[k]@ == b@,
{
    let mut k: usize = 0;
    while k < list.len()
        invariant
            k <= list@.len(),
            forall|m: int| 0 <= m < k ==> (#[trigger] list@[m])@ != b@,
        decreases list@.len() - k,
    {
        if bytes_eq(list[k].as_slice(), b.as_slice()) {
            return true;
        }
        k += 1;
    }
    false
}

/// Whether two byte slices are equal.
pub fn bytes_eq(a: &[u8], b: &[u8]) -> (r: bool)
    ensures
        r == (a@ == b@),
{
    if a.len() != b.len() {
        return false;
    }
    let mut i: usize = 0;
    while i < a.len()
        invariant
            i <= a@.len(),
            a@.len() == b@.len(),
            forall|j: int| 0 <= j < i ==> a@[j] == b@[j],
        decreases a@.len() - i,
    {
        if a[i] != b[i] {
            return false;
        }
        i += 1;
    }
    assert(a@ == b@);
    true
}

/// `seen(s, i, j)` holds when some element before index `j` encodes as `s[i]` does.
pub proof fn lemma_seen_iff(s: Seq<Value>, i: int, j: int)
    requires
        0 <= i < s.len(),
        0 <= j <= s.len(),
    ensures
        seen(s, i, j) == exists|k: int| 0 <= k < j && enc(#[trigger] s[k]) == enc(s[i]),
    decreases j,
{
    if j > 0 {
        assert(seen(s, i, j) == (seen(s, i, j - 1) || enc(s[j - 1]) == enc(s[i]))) by {
            reveal(enc);
        }
        lemma_seen_iff(s, i, j - 1);
        if enc(s[j - 1]) == enc(s[i]) {
            assert(0 <= j - 1 < j && enc(s[j - 1]) == enc(s[i]));
        }
        if exists|k: int| 0 <= k < j && enc(#[trigger] s[k]) == enc(s[i]) {
            let k = choose|k: int| 0 <= k < j && enc(#[trigger] s[k]) == enc(s[i]);
            if k < j - 1 {
                assert(0 <= k < j - 1 && enc(s[k]) == enc(s[i]));
            }
        }
    }
}

/// Serialisation to the bytes of the protocol.
pub trait RespEncode: Sized {
    /// The bytes `encode` produces.
    spec fn wire(&self) -> Seq<u8>;

    fn encode(self) -> (r: Vec<u8>)
        ensures
            r@ == self.wire(),
    ;
}

impl RespEncode for RespFrame {
    open spec fn wire(&self) -> Seq<u8> {
        enc(model(*self))
    }

    fn encode(self) -> (r: Vec<u8>) {
        let mut out: Vec<u8> = Vec::new();
        write_frame(&self, &mut out);
        assert(out@ =~= enc(model(self)));
        out
    }
}

impl RespEncode for SimpleString {
    open spec fn wire(&self) -> Seq<u8> {
        enc(Value::Simple(self.0@))
    }

    fn encode(self) -> (r: Vec<u8>) {
        RespFrame::SimpleString(self).encode()
    }
}

impl RespEncode for SimpleError {
    open spec fn wire(&self) -> Seq<u8> {
        enc(Value::Error(self.0@))
    }

    fn encode(self) -> (r: Vec<u8>) {
        RespFrame::Error(self).encode()
    }
}

impl RespEncode for i64 {
    open spec fn wire(&self) -> Seq<u8> {
        enc(Value::Integer(*self as int))
    }

    fn encode(self) -> (r: Vec<u8>) {
        RespFrame::Integer(self).encode()
    }
}

impl RespEncode for bool {
    open spec fn wire(&self) -> Seq<u8> {
        enc(Value::Boolean(*self))
    }

    fn encode(self) -> (r: Vec<u8>) {
        RespFrame::Boolean(self).encode()
    }
}

impl RespEncode for BulkString {
    open spec fn wire(&self) -> Seq<u8> {
        enc(Value::Bulk(self.0@))
    }

    fn encode(self) -> (r: Vec<u8>) {
        RespFrame::BulkString(self).encode()
    }
}

impl RespEncode for RespNull {
    open spec fn wire(&self) -> Seq<u8> {
        enc(Value::Null)
    }

    fn encode(self) -> (r: Vec<u8>) {
        RespFrame::Null(self).encode()
    }
}

impl RespEncode for RespDouble {
    open spec fn wire(&self) -> Seq<u8> {
        enc(Value::Double(self.0@))
    }

    fn encode(self) -> (r: Vec<u8>) {
        RespFrame::Double(self).encode()
    }
}

impl RespEncode for RespArray {
    open spec fn wire(&self) -> Seq<u8> {
        enc(Value::Array(crate::frame::models(self.0@)))
    }

    fn encode(self) -> (r: Vec<u8>) {
        let f = RespFrame::Array(self);
        assert(model(f) == Value::Array(crate::frame::models(f->Array_0.0@))) by {
            assert(model(f)->Array_0 =~= crate::frame::models(f->Array_0.0@));
        }
        f.encode()
    }
}

impl RespEncode for RespMap {
    open spec fn wire(&self) -> Seq<u8> {
        enc(Value::MapOf(crate::frame::entry_models(self.0@)))
    }

    fn encode(self) -> (r: Vec<u8>) {
        let f = RespFrame::MapFrame(self);
        assert(model(f) == Value::MapOf(crate::frame::entry_models(f->MapFrame_0.0@))) by {
            assert(model(f)->MapOf_0 =~= crate::frame::entry_models(f->MapFrame_0.0@));
        }
        f.encode()
    }
}

impl RespEncode for RespSet {
    open spec fn wire(&self) -> Seq<u8> {
        enc(Value::SetOf(crate::frame::models(self.0@)))
    }

    fn encode(self) -> (r: Vec<u8>) {
        let f = RespFrame::SetFrame(self);
        assert(model(f) == Value::SetOf(crate::frame::models(f->SetFrame_0.0@))) by {
            assert(model(f)->SetOf_0 =~= crate::frame::models(f->SetFrame_0.0@));
        }
        f.encode()
    }
}

} // verus!
