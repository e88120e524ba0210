//! The frame decoder: reads call frames from the head of a byte buffer.

use crate::wire::{
    array_header, array_len_at, be_at, be_bytes, be_value, body_at, byte_space, encodable,
    frame_at, frame_bytes, int_at, lemma_be_value_bound, lemma_byte_space_mono,
    lemma_frame_at_extend, lemma_strs_bytes_append, params_at, str_at, str_bytes, str_len_at,
    strs_at, strs_bytes, Step, NOTIFICATION_TAG,
};
use crate::buffer::{buffer_advance, buffer_bytes, held};
use crate::Rpc;
use bytes::BytesMut;
use vstd::prelude::*;
use vstd::utf8::{decode_utf8, encode_utf8, valid_utf8};

verus! {

/// The outcome of reading one element with executable code: the value and
/// the position just past it, or the same outcomes as [`Step`].
pub(crate) enum Scan<T> {
    Got(T, usize),
    Short,
    Bad,
}

/// `r` is the executable counterpart of `s`, its value seen through `f`.
pub(crate) open spec fn agrees<T, V>(r: Scan<T>, s: Step<V>, f: spec_fn(T) -> V) -> bool {
    match s {
        Step::Read(v, q) => r matches Scan::Got(t, e) && f(t) == v && e as int == q,
        Step::Short => r is Short,
        Step::Bad => r is Bad,
    }
}

/// Relies on `String::from_utf8`: it succeeds exactly on valid UTF-8, and
/// the text it returns is what those bytes encode.
#[verifier::external_body]
fn text_from_utf8(bytes: Vec<u8>) -> (r: Option<String>)
    ensures
        r is Some <==> valid_utf8(bytes@),
        r matches Some(s) ==> s@ == decode_utf8(bytes@),
{
    String::from_utf8(bytes).ok()
}

/// The bytes `b[from..to]`, copied.
fn copy_range(b: &[u8], from: usize, to: usize) -> (r: Vec<u8>)
    requires
        from <= to <= b@.len(),
    ensures
        r@ == b@.subrange(from as int, to as int),
{
    let mut r: Vec<u8> = Vec::new();
    let mut i: usize = from;
    while i < to
        invariant
            from <= i <= to <= b@.len(),
            r@ == b@.subrange(from as int, i as int),
        decreases to - i,
    {
        r.push(b[i]);
        proof {
            assert(r@ =~= b@.subrange(from as int, i + 1));
        }
        i = i + 1;
    }
    r
}

/// Reads the big-endian number held in `b[p..p + n]`.
fn read_be(b: &[u8], p: usize, n: usize) -> (r: u64)
    requires
        n <= 8,
        p + n <= b@.len(),
    ensures
        r == be_value(b@.subrange(p as int, p + n)),
{
    let len = b.len();
    let mut v: u64 = 0;
    let mut i: usize = 0;
    while i < n
        invariant
            len == b@.len(),
            n <= 8,
            p + n <= b@.len(),
            i <= n,
            v == be_value(b@.subrange(p as int, p + i)),
        decreases n - i,
    {
        proof {
            lemma_be_value_bound(b@.subrange(p as int, p + i));
            assert(byte_space(i as nat) <= byte_space(7)) by {
                lemma_byte_space_mono(i as nat, 7);
            }
            assert(byte_space(7) == 0x100000000000000) by {
                reveal_with_fuel(byte_space, 8);
            }
            assert(b@.subrange(p as int, p + i + 1).drop_last() =~= b@.subrange(p as int, p + i));
        }
        v = v * 256 + b[p + i] as u64;
        i = i + 1;
    }
    v
}

fn scan_be(b: &[u8], p: usize, n: usize) -> (r: Scan<u64>)
    requires
        n <= 8,
        p <= b@.len(),
    ensures
        agrees(r, be_at(b@, p as int, n as int), |v: u64| v as int),
{
    if n > b.len() - p {
        Scan::Short
    } else {
        Scan::Got(read_be(b, p, n), p + n)
    }
}

/// Reads a header that announces a length below `2^32`: `small` is the
/// first marker of the family that holds the length in its low bits and
/// `cap` how many lengths that family holds; `one`, `two` and `four` are the
/// markers followed by a length of that many bytes, `0` where there is none.
fn scan_header(b: &[u8], p: usize, small: u8, cap: u8, one: u8, two: u8, four: u8) -> (r: Scan<
    usize,
>)
    requires
        p <= b@.len(),
        small as int + cap as int <= 256,
    ensures
        r matches Scan::Got(v, e) ==> v < 0x1_0000_0000,
        p < b@.len() ==> agrees(
            r,
            if small <= b@[p as int] < small + cap {
                Step::Read(b@[p as int] - small, p + 1)
            } else if one != 0 && b@[p as int] == one {
                be_at(b@, p + 1, 1)
            } else if two != 0 && b@[p as int] == two {
                be_at(b@, p + 1, 2)
            } else if four != 0 && b@[p as int] == four {
                be_at(b@, p + 1, 4)
            } else {
                Step::Bad
            },
            |v: usize| v as int,
        ),
        p >= b@.len() ==> r is Short,
{
    if p >= b.len() {
        return Scan::Short;
    }
    let m = b[p];
    if small <= m && m - small < cap {
        return Scan::Got((m - small) as usize, p + 1);
    }
    let n: usize = if one != 0 && m == one {
        1
    } else if two != 0 && m == two {
        2
    } else if four != 0 && m == four {
        4
    } else {
        return Scan::Bad;
    };
    match scan_be(b, p + 1, n) {
        Scan::Got(v, e) => {
            proof {
                lemma_be_value_bound(b@.subrange(p + 1, p + 1 + n));
                reveal_with_fuel(byte_space, 5);
            }
            Scan::Got(v as usize, e)
        },
        Scan::Short => Scan::Short,
        Scan::Bad => Scan::Bad,
    }
}

fn scan_array_len(b: &[u8], p: usize) -> (r: Scan<usize>)
    requires
        p <= b@.len(),
    ensures
        agrees(r, array_len_at(b@, p as int), |v: usize| v as int),
{
    scan_header(b, p, 0x90, 16, 0, 0xdc, 0xdd)
}

fn scan_str_len(b: &[u8], p: usize) -> (r: Scan<usize>)
    requires
        p <= b@.len(),
    ensures
        agrees(r, str_len_at(b@, p as int), |v: usize| v as int),
{
    scan_header(b, p, 0xa0, 32, 0xd9, 0xda, 0xdb)
}

/// Reads the integer at `p` and tells whether it is the notification tag.
fn scan_tag(b: &[u8], p: usize) -> (r: Scan<bool>)
    requires
        p <= b@.len(),
    ensures
        match int_at(b@, p as int) {
            Step::Read(v, q) => r matches Scan::Got(t, e) && t == (v == NOTIFICATION_TAG) && e
                as int == q,
            Step::Short => r is Short,
            Step::Bad => r is Bad,
        },
{
    if p >= b.len() {
        return Scan::Short;
    }
    let m = b[p];
    if m <= 0x7f {
        return Scan::Got(m as u64 == NOTIFICATION_TAG, p + 1);
    }
    if m >= 0xe0 {
        return Scan::Got(false, p + 1);
    }
    if m < 0xcc || m > 0xd3 {
        return Scan::Bad;
    }
    let signed = m >= 0xd0;
    let rank = if signed {
        m - 0xd0
    } else {
        m - 0xcc
    };
    let n: usize = if rank == 0 {
        1
    } else if rank == 1 {
        2
    } else if rank == 2 {
        4
    } else {
        8
    };
    match scan_be(b, p + 1, n) {
        Scan::Got(v, e) => {
            let negative = signed && b[p + 1] >= 0x80;
            proof {
                lemma_be_value_bound(b@.subrange(p + 1, p + 1 + n));
            }
            Scan::Got(!negative && v == NOTIFICATION_TAG, e)
        },
        Scan::Short => Scan::Short,
        Scan::Bad => Scan::Bad,
    }
}

fn scan_str(b: &[u8], p: usize) -> (r: Scan<String>)
    requires
        p <= b@.len(),
    ensures
        agrees(r, str_at(b@, p as int), |s: String| s@),
{
    match scan_str_len(b, p) {
        Scan::Got(n, q) => {
            if n > b.len() - q {
                Scan::Short
            } else {
                match text_from_utf8(copy_range(b, q, q + n)) {
                    Some(s) => Scan::Got(s, q + n),
                    None => Scan::Bad,
                }
            }
        },
        Scan::Short => Scan::Short,
        Scan::Bad => Scan::Bad,
    }
}

/// `acc`, put in front of what `s` reads.
pub(crate) open spec fn prepend(acc: Seq<Seq<char>>, s: Step<Seq<Seq<char>>>) -> Step<
    Seq<Seq<char>>,
> {
    match s {
        Step::Read(ss, q) => Step::Read(acc + ss, q),
        Step::Short => Step::Short,
        Step::Bad => Step::Bad,
    }
}

fn scan_strs(b: &[u8], p: usize, k: usize) -> (r: Scan<Vec<String>>)
    requires
        p <= b@.len(),
    ensures
        agrees(r, strs_at(b@, p as int, k as nat), |v: Vec<String>| v.deep_view()),
{
    let mut out: Vec<String> = Vec::new();
    let mut q: usize = p;
    let mut i: usize = 0;
    proof {
        assert(prepend(out.deep_view(), strs_at(b@, p as int, k as nat)) == strs_at(
            b@,
            p as int,
            k as nat,
        )) by {
            assert(out.deep_view() =~= Seq::<Seq<char>>::empty());
            if let Step::Read(ss, _) = strs_at(b@, p as int, k as nat) {
                assert(Seq::<Seq<char>>::empty() + ss =~= ss);
            }
        }
    }
    while i < k
        invariant
            p <= q <= b@.len(),
            i <= k,
            strs_at(b@, p as int, k as nat) == prepend(
                out.deep_view(),
                strs_at(b@, q as int, (k - i) as nat),
            ),
        decreases k - i,
    {
        match scan_str(b, q) {
            Scan::Got(s, e) => {
                let ghost before = out.deep_view();
                let ghost sv = s@;
                out.push(s);
                proof {
                    assert(out.deep_view() =~= before.push(sv));
                    if let Step::Read(ss, _) = strs_at(b@, e as int, (k - i - 1) as nat) {
                        assert(before + (seq![sv] + ss) =~= before.push(sv) + ss);
                    }
                }
                q = e;
                i = i + 1;
            },
            Scan::Short => {
                return Scan::Short;
            },
            Scan::Bad => {
                return Scan::Bad;
            },
        }
    }
    proof {
        assert(out.deep_view() + Seq::<Seq<char>>::empty() =~= out.deep_view());
    }
    Scan::Got(out, q)
}

/// What one attempt to read a frame from the head of a buffer found.
pub enum Decoded {
    /// A whole frame: the call it holds and the number of bytes it spans.
    Produced(Rpc, usize),
    /// The bytes so far begin a frame that has not arrived in full.
    Incomplete,
    /// The bytes cannot begin a frame, whatever follows them.
    Malformed,
}

/// `r` reports what `s` says of a frame.
pub open spec fn reports(r: Decoded, s: Step<crate::RpcView>) -> bool {
    match s {
        Step::Read(v, n) => r matches Decoded::Produced(c, m) && c@ == v && m as int == n,
        Step::Short => r is Incomplete,
        Step::Bad => r is Malformed,
    }
}

fn scan_body(b: &[u8], p: usize) -> (r: Scan<Rpc>)
    requires
        p <= b@.len(),
    ensures
        agrees(r, body_at(b@, p as int), |c: Rpc| c@),
{
    match scan_str(b, p) {
        Scan::Got(method, q) => {
            if method.as_str().is_empty() {
                return Scan::Bad;
            }
            let params = match scan_array_len(b, q) {
                Scan::Got(k, e) => scan_strs(b, e, k),
                Scan::Short => Scan::Short,
                Scan::Bad => Scan::Bad,
            };
            proof {
                assert(agrees(params, params_at(b@, q as int), |v: Vec<String>| v.deep_view()));
            }
            match params {
                Scan::Got(params, e) => Scan::Got(Rpc { method, params }, e),
                Scan::Short => Scan::Short,
                Scan::Bad => Scan::Bad,
            }
        },
        Scan::Short => Scan::Short,
        Scan::Bad => Scan::Bad,
    }
}

/// Reads the frame at the head of `buf`, without regard to what follows it.
pub fn decode_frame(buf: &[u8]) -> (r: Decoded)
    ensures
        reports(r, frame_at(buf@)),
{
    proof {
        reveal(frame_at);
    }
    match scan_array_len(buf, 0) {
        Scan::Got(n, p) => {
            if n != 3 {
                return Decoded::Malformed;
            }
            match scan_tag(buf, p) {
                Scan::Got(is_notification, q) => {
                    if !is_notification {
                        return Decoded::Malformed;
                    }
                    match scan_body(buf, q) {
                        Scan::Got(call, e) => Decoded::Produced(call, e),
                        Scan::Short => Decoded::Incomplete,
                        Scan::Bad => Decoded::Malformed,
                    }
                },
                Scan::Short => Decoded::Incomplete,
                Scan::Bad => Decoded::Malformed,
            }
        },
        Scan::Short => Decoded::Incomplete,
        Scan::Bad => Decoded::Malformed,
    }
}

/// The error of a buffer whose head cannot begin a frame.
#[derive(Debug, Clone, Copy, PartialEq, Eq)]
pub struct MalformedFrame;

/// Reads call frames, one at a time, from the head of a buffer.
#[derive(Debug, Default, Clone, Copy)]
pub struct MessagePackDecoder;

impl MessagePackDecoder {
    /// Takes the frame at the head of `src` out of it. `Ok(None)` means that
    /// more bytes are needed; only a frame that is read in full is removed.
    pub fn decode(&mut self, src: &mut BytesMut) -> (r: Result<Option<Rpc>, MalformedFrame>)
        ensures
            match frame_at(held(*old(src))) {
                Step::Read(v, n) => r matches Ok(Some(c)) && c@ == v && held(*final(src)) == held(
                    *old(src),
                ).skip(n),
                Step::Short => r == Ok::<Option<Rpc>, MalformedFrame>(None) && held(*final(src))
                    == held(*old(src)),
                Step::Bad => r is Err && held(*final(src)) == held(*old(src)),
            },
    {
        let found = decode_frame(buffer_bytes(src));
        match found {
            Decoded::Produced(call, n) => {
                proof {
                    lemma_frame_at_extend(held(*src), Seq::empty());
                }
                buffer_advance(src, n);
                Ok(Some(call))
            },
            Decoded::Incomplete => Ok(None),
            Decoded::Malformed => Err(MalformedFrame),
        }
    }
}

fn push_be(out: &mut Vec<u8>, v: u64, k: usize)
    requires
        k <= 8,
    ensures
        final(out)@ == old(out)@ + be_bytes(v as nat, k as nat),
    decreases k,
{
    if k > 0 {
        push_be(out, v / 256, k - 1);
        out.push((v % 256) as u8);
        proof {
            assert(out@ =~= old(out)@ + be_bytes(v as nat, k as nat));
        }
    } else {
        proof {
            assert(out@ =~= old(out)@ + Seq::<u8>::empty());
        }
    }
}

fn push_bytes(out: &mut Vec<u8>, bytes: &[u8])
    ensures
        final(out)@ == old(out)@ + bytes@,
{
    let mut i: usize = 0;
    while i < bytes.len()
        invariant
            i <= bytes@.len(),
            out@ == old(out)@ + bytes@.subrange(0, i as int),
        decreases bytes@.len() - i,
    {
        out.push(bytes[i]);
        i = i + 1;
        proof {
            assert(out@ =~= old(out)@ + bytes@.subrange(0, i as int));
        }
    }
    proof {
        assert(bytes@.subrange(0, i as int) =~= bytes@);
    }
}

/// Appends the shortest header for `n` elements (`small` the marker of
/// the family that holds it in its low bits, `cap` how many it holds).
fn push_header(out: &mut Vec<u8>, n: u64, small: u8, cap: u8, one: u8, two: u8, four: u8)
    requires
        n < 0x1_0000_0000,
        small as int + cap as int <= 256,
    ensures
        final(out)@ == old(out)@ + if n < cap {
            seq![(small + n) as u8]
        } else if one != 0 && n < 0x100 {
            seq![one, n as u8]
        } else if n < 0x1_0000 {
            seq![two] + be_bytes(n as nat, 2)
        } else {
            seq![four] + be_bytes(n as nat, 4)
        },
{
    if n < cap as u64 {
        out.push(small + n as u8);
    } else if one != 0 && n < 0x100 {
        out.push(one);
        out.push(n as u8);
    } else {
        let (marker, k): (u8, usize) = if n < 0x1_0000 {
            (two, 2)
        } else {
            (four, 4)
        };
        out.push(marker);
        push_be(out, n, k);
        proof {
            assert(out@ =~= old(out)@ + (seq![marker] + be_bytes(n as nat, k as nat)));
        }
        return;
    }
    proof {
        assert(out@ =~= old(out)@ + if n < cap {
            seq![(small + n) as u8]
        } else {
            seq![one, n as u8]
        });
    }
}

fn push_str(out: &mut Vec<u8>, s: &String)
    requires
        encode_utf8(s@).len() < 0x1_0000_0000,
    ensures
        final(out)@ == old(out)@ + str_bytes(s@),
{
    let bytes = s.as_str().as_bytes();
    push_header(out, bytes.len() as u64, 0xa0, 32, 0xd9, 0xda, 0xdb);
    push_bytes(out, bytes);
    proof {
        assert(out@ =~= old(out)@ + str_bytes(s@));
    }
}

/// The bytes of the frame that carries `call`, or `None` where no frame can
/// carry it: its method is empty, or a length does not fit in 32 bits.
pub fn encode_rpc(call: &Rpc) -> (r: Option<Vec<u8>>)
    ensures
        r is Some <==> encodable(call@),
        r matches Some(bytes) ==> bytes@ == frame_bytes(call@),
{
    let limit: u64 = 0x1_0000_0000;
    let params = &call.params;
    if call.method.as_str().is_empty() || call.method.as_str().as_bytes().len() as u64 >= limit
        || params.len() as u64 >= limit {
        return None;
    }
    let mut i: usize = 0;
    while i < params.len()
        invariant
            i <= params@.len(),
            params == &call.params,
            limit == 0x1_0000_0000,
            forall|j: int| 0 <= j < i ==> encode_utf8(#[trigger] call.params@[j]@).len() < limit,
        decreases params@.len() - i,
    {
        if params[i].as_str().as_bytes().len() as u64 >= limit {
            proof {
                assert(call@.params[i as int] == params@[i as int]@);
                assert(encode_utf8(call@.params[i as int]).len() >= limit);
            }
            return None;
        }
        i = i + 1;
    }
    proof {
        assert forall|j: int| 0 <= j < call@.params.len() implies encode_utf8(
            #[trigger] call@.params[j],
        ).len() < 0x1_0000_0000 by {
            assert(call@.params[j] == params@[j]@);
        }
    }
    let mut out: Vec<u8> = Vec::new();
    out.push(0x93);
    out.push(NOTIFICATION_TAG as u8);
    push_str(&mut out, &call.method);
    push_header(&mut out, params.len() as u64, 0x90, 16, 0, 0xdc, 0xdd);
    let ghost lead = out@;
    proof {
        assert(lead == seq![0x93u8, NOTIFICATION_TAG as u8] + str_bytes(call@.method)
            + array_header(call@.params.len()));
    }
    let mut i: usize = 0;
    while i < params.len()
        invariant
            i <= params@.len(),
            params == &call.params,
            encodable(call@),
            out@ == lead + strs_bytes(call@.params.take(i as int)),
        decreases params@.len() - i,
    {
        proof {
            assert(call@.params[i as int] == params@[i as int]@);
        }
        push_str(&mut out, &params[i]);
        proof {
            let ss = call@.params;
            assert(ss.take(i + 1) =~= ss.take(i as int) + seq![ss[i as int]]);
            lemma_strs_bytes_append(ss.take(i as int), seq![ss[i as int]]);
            assert(seq![ss[i as int]].skip(1) =~= Seq::<Seq<char>>::empty());
            assert(strs_bytes(Seq::<Seq<char>>::empty()) == Seq::<u8>::empty());
            assert(strs_bytes(seq![ss[i as int]]) =~= str_bytes(ss[i as int]));
        }
        i = i + 1;
    }
    proof {
        assert(call@.params.take(i as int) =~= call@.params);
    }
    Some(out)
}

} // verus!
