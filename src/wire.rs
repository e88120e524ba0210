//! The wire format of a call frame, stated over byte sequences.
//!
//! A frame is a MessagePack array of three elements: the notification tag
//! (the integer 2), the method name (a non-empty string) and the parameters
//! (an array of strings). Strings are MessagePack `str` values holding UTF-8.

use crate::RpcView;
use vstd::prelude::*;
use vstd::utf8::{
    decode_utf8, encode_utf8, encode_utf8_decode_utf8, encode_utf8_valid_utf8, valid_utf8,
};

verus! {

/// The tag that marks a frame as a one-way notification.
pub const NOTIFICATION_TAG: u64 = 2;

/// The outcome of reading one element of a frame that starts at some
/// position of a byte sequence.
pub enum Step<T> {
    /// The element was read; it ends just before the given position.
    Read(T, int),
    /// The bytes end before the element does.
    Short,
    /// No continuation of the bytes holds a well-formed element here.
    Bad,
}

/// The number that the bytes `s` spell in big-endian order.
pub open spec fn be_value(s: Seq<u8>) -> nat
    decreases s.len(),
{
    if s.len() == 0 {
        0
    } else {
        (be_value(s.drop_last()) * 256 + s.last()) as nat
    }
}

/// `256` to the power `k`: the number of values that `k` bytes can spell.
pub open spec fn byte_space(k: nat) -> nat
    decreases k,
{
    if k == 0 {
        1
    } else {
        256 * byte_space((k - 1) as nat)
    }
}

pub(crate) proof fn lemma_be_value_bound(s: Seq<u8>)
    ensures
        be_value(s) < byte_space(s.len()),
    decreases s.len(),
{
    if s.len() > 0 {
        lemma_be_value_bound(s.drop_last());
        let a = be_value(s.drop_last());
        let c = byte_space(s.drop_last().len());
        let x = s.last() as int;
        assert(a * 256 + x < c * 256) by (nonlinear_arith)
            requires
                a < c,
                0 <= x < 256,
        ;
    }
}

/// The `n` bytes at `p`, read as a big-endian number.
pub open spec fn be_at(b: Seq<u8>, p: int, n: int) -> Step<int> {
    if p + n > b.len() {
        Step::Short
    } else {
        Step::Read(be_value(b.subrange(p, p + n)) as int, p + n)
    }
}

/// The number of payload bytes that follow the markers of a sized family
/// (`0xcc..=0xcf`, `0xd0..=0xd3`), by the marker's rank in its family.
pub open spec fn payload_width(rank: int) -> int {
    if rank == 0 {
        1
    } else if rank == 1 {
        2
    } else if rank == 2 {
        4
    } else {
        8
    }
}

/// The length announced by an array header at `p`.
pub open spec fn array_len_at(b: Seq<u8>, p: int) -> Step<int> {
    if p >= b.len() {
        Step::Short
    } else if 0x90 <= b[p] <= 0x9f {
        Step::Read(b[p] - 0x90, p + 1)
    } else if b[p] == 0xdc {
        be_at(b, p + 1, 2)
    } else if b[p] == 0xdd {
        be_at(b, p + 1, 4)
    } else {
        Step::Bad
    }
}

/// The integer at `p`, in any of the integer encodings.
pub open spec fn int_at(b: Seq<u8>, p: int) -> Step<int> {
    if p >= b.len() {
        Step::Short
    } else if b[p] <= 0x7f {
        Step::Read(b[p] as int, p + 1)
    } else if b[p] >= 0xe0 {
        Step::Read(b[p] - 256, p + 1)
    } else if 0xcc <= b[p] <= 0xcf {
        be_at(b, p + 1, payload_width(b[p] - 0xcc))
    } else if 0xd0 <= b[p] <= 0xd3 {
        let n = payload_width(b[p] - 0xd0);
        match be_at(b, p + 1, n) {
            Step::Read(v, q) => Step::Read(
                if b[p + 1] >= 0x80 {
                    v - byte_space(n as nat)
                } else {
                    v
                },
                q,
            ),
            Step::Short => Step::Short,
            Step::Bad => Step::Bad,
        }
    } else {
        Step::Bad
    }
}

/// The byte length announced by a string header at `p`.
pub open spec fn str_len_at(b: Seq<u8>, p: int) -> Step<int> {
    if p >= b.len() {
        Step::Short
    } else if 0xa0 <= b[p] <= 0xbf {
        Step::Read(b[p] - 0xa0, p + 1)
    } else if b[p] == 0xd9 {
        be_at(b, p + 1, 1)
    } else if b[p] == 0xda {
        be_at(b, p + 1, 2)
    } else if b[p] == 0xdb {
        be_at(b, p + 1, 4)
    } else {
        Step::Bad
    }
}

/// The string at `p`: a header, then that many bytes of UTF-8.
pub open spec fn str_at(b: Seq<u8>, p: int) -> Step<Seq<char>> {
    match str_len_at(b, p) {
        Step::Read(n, q) => if q + n > b.len() {
            Step::Short
        } else if valid_utf8(b.subrange(q, q + n)) {
            Step::Read(decode_utf8(b.subrange(q, q + n)), q + n)
        } else {
            Step::Bad
        },
        Step::Short => Step::Short,
        Step::Bad => Step::Bad,
    }
}

/// `k` strings in a row, starting at `p`.
pub open spec fn strs_at(b: Seq<u8>, p: int, k: nat) -> Step<Seq<Seq<char>>>
    decreases k,
{
    if k == 0 {
        Step::Read(Seq::empty(), p)
    } else {
        match str_at(b, p) {
            Step::Read(s, q) => match strs_at(b, q, (k - 1) as nat) {
                Step::Read(ss, r) => Step::Read(seq![s] + ss, r),
                Step::Short => Step::Short,
                Step::Bad => Step::Bad,
            },
            Step::Short => Step::Short,
            Step::Bad => Step::Bad,
        }
    }
}

/// The parameter list at `p`: an array header, then that many strings.
pub open spec fn params_at(b: Seq<u8>, p: int) -> Step<Seq<Seq<char>>> {
    match array_len_at(b, p) {
        Step::Read(k, q) => strs_at(b, q, k as nat),
        Step::Short => Step::Short,
        Step::Bad => Step::Bad,
    }
}

/// The method name and parameters that follow the tag at `p`.
pub open spec fn body_at(b: Seq<u8>, p: int) -> Step<RpcView> {
    match str_at(b, p) {
        Step::Read(m, q) => if m.len() == 0 {
            Step::Bad
        } else {
            match params_at(b, q) {
                Step::Read(ps, r) => Step::Read(RpcView { method: m, params: ps }, r),
                Step::Short => Step::Short,
                Step::Bad => Step::Bad,
            }
        },
        Step::Short => Step::Short,
        Step::Bad => Step::Bad,
    }
}

/// The frame at the start of `b`: a three-element array holding the
/// notification tag, a non-empty method name and the parameters.
#[verifier::opaque]
pub open spec fn frame_at(b: Seq<u8>) -> Step<RpcView> {
    match array_len_at(b, 0) {
        Step::Read(n, p) => if n != 3 {
            Step::Bad
        } else {
            match int_at(b, p) {
                Step::Read(t, q) => if t != NOTIFICATION_TAG {
                    Step::Bad
                } else {
                    body_at(b, q)
                },
                Step::Short => Step::Short,
                Step::Bad => Step::Bad,
            }
        },
        Step::Short => Step::Short,
        Step::Bad => Step::Bad,
    }
}

pub(crate) proof fn lemma_byte_space_mono(i: nat, j: nat)
    requires
        i <= j,
    ensures
        byte_space(i) <= byte_space(j),
    decreases j,
{
    if i < j {
        lemma_byte_space_mono(i, (j - 1) as nat);
    }
}

/// Whether a read has been decided: anything but running out of bytes.
pub open spec fn settled<T>(s: Step<T>) -> bool {
    !(s is Short)
}

/// Where a read ends, if it succeeded; `dflt` otherwise.
pub open spec fn end_of<T>(s: Step<T>, dflt: int) -> int {
    match s {
        Step::Read(_, q) => q,
        _ => dflt,
    }
}

proof fn lemma_add_prefix(b: Seq<u8>, x: Seq<u8>, i: int, j: int)
    requires
        0 <= i <= j <= b.len(),
    ensures
        (b + x).subrange(i, j) == b.subrange(i, j),
{
    assert((b + x).subrange(i, j) =~= b.subrange(i, j));
}

proof fn lemma_be_at_extend(b: Seq<u8>, x: Seq<u8>, p: int, n: int)
    requires
        0 <= p,
        0 <= n,
    ensures
        settled(be_at(b, p, n)) ==> be_at(b + x, p, n) == be_at(b, p, n),
        be_at(b, p, n) is Read ==> p + n == end_of(be_at(b, p, n), 0) <= b.len(),
        be_at(b, p, n) matches Step::Read(v, _) ==> 0 <= v < byte_space(n as nat),
{
    if p + n <= b.len() {
        lemma_add_prefix(b, x, p, p + n);
        lemma_be_value_bound(b.subrange(p, p + n));
    }
}

proof fn lemma_array_len_at_extend(b: Seq<u8>, x: Seq<u8>, p: int)
    requires
        0 <= p,
    ensures
        settled(array_len_at(b, p)) ==> array_len_at(b + x, p) == array_len_at(b, p),
        array_len_at(b, p) is Read ==> p < end_of(array_len_at(b, p), 0) <= b.len(),
        array_len_at(b, p) matches Step::Read(v, _) ==> 0 <= v < 0x1_0000_0000,
{
    lemma_be_at_extend(b, x, p + 1, 2);
    lemma_be_at_extend(b, x, p + 1, 4);
    reveal_with_fuel(byte_space, 5);
    if p < b.len() {
        assert((b + x)[p] == b[p]);
    }
}

proof fn lemma_str_len_at_extend(b: Seq<u8>, x: Seq<u8>, p: int)
    requires
        0 <= p,
    ensures
        settled(str_len_at(b, p)) ==> str_len_at(b + x, p) == str_len_at(b, p),
        str_len_at(b, p) is Read ==> p < end_of(str_len_at(b, p), 0) <= b.len(),
        str_len_at(b, p) matches Step::Read(v, _) ==> 0 <= v < 0x1_0000_0000,
{
    lemma_be_at_extend(b, x, p + 1, 1);
    lemma_be_at_extend(b, x, p + 1, 2);
    lemma_be_at_extend(b, x, p + 1, 4);
    reveal_with_fuel(byte_space, 5);
    if p < b.len() {
        assert((b + x)[p] == b[p]);
    }
}

proof fn lemma_int_at_extend(b: Seq<u8>, x: Seq<u8>, p: int)
    requires
        0 <= p,
    ensures
        settled(int_at(b, p)) ==> int_at(b + x, p) == int_at(b, p),
        int_at(b, p) is Read ==> p < end_of(int_at(b, p), 0) <= b.len(),
{
    if p < b.len() {
        assert((b + x)[p] == b[p]);
        if 0xcc <= b[p] <= 0xcf {
            lemma_be_at_extend(b, x, p + 1, payload_width(b[p] - 0xcc));
        } else if 0xd0 <= b[p] <= 0xd3 {
            lemma_be_at_extend(b, x, p + 1, payload_width(b[p] - 0xd0));
            if p + 1 < b.len() {
                assert((b + x)[p + 1] == b[p + 1]);
            }
        }
    }
}

proof fn lemma_str_at_extend(b: Seq<u8>, x: Seq<u8>, p: int)
    requires
        0 <= p,
    ensures
        settled(str_at(b, p)) ==> str_at(b + x, p) == str_at(b, p),
        str_at(b, p) is Read ==> p < end_of(str_at(b, p), 0) <= b.len(),
{
    lemma_str_len_at_extend(b, x, p);
    if let Step::Read(n, q) = str_len_at(b, p) {
        if q + n <= b.len() {
            lemma_add_prefix(b, x, q, q + n);
        }
    }
}

proof fn lemma_strs_at_extend(b: Seq<u8>, x: Seq<u8>, p: int, k: nat)
    requires
        0 <= p <= b.len(),
    ensures
        settled(strs_at(b, p, k)) ==> strs_at(b + x, p, k) == strs_at(b, p, k),
        strs_at(b, p, k) is Read ==> p <= end_of(strs_at(b, p, k), 0) <= b.len(),
    decreases k,
{
    if k > 0 {
        lemma_str_at_extend(b, x, p);
        if let Step::Read(_, q) = str_at(b, p) {
            lemma_strs_at_extend(b, x, q, (k - 1) as nat);
        }
    }
}

proof fn lemma_params_at_extend(b: Seq<u8>, x: Seq<u8>, p: int)
    requires
        0 <= p,
    ensures
        settled(params_at(b, p)) ==> params_at(b + x, p) == params_at(b, p),
        params_at(b, p) is Read ==> p < end_of(params_at(b, p), 0) <= b.len(),
{
    lemma_array_len_at_extend(b, x, p);
    if let Step::Read(k, q) = array_len_at(b, p) {
        lemma_strs_at_extend(b, x, q, k as nat);
    }
}

proof fn lemma_body_at_extend(b: Seq<u8>, x: Seq<u8>, p: int)
    requires
        0 <= p,
    ensures
        settled(body_at(b, p)) ==> body_at(b + x, p) == body_at(b, p),
        body_at(b, p) is Read ==> p < end_of(body_at(b, p), 0) <= b.len(),
{
    lemma_str_at_extend(b, x, p);
    if let Step::Read(_, q) = str_at(b, p) {
        lemma_params_at_extend(b, x, q);
    }
}

/// A frame that can be told from the first bytes of a buffer, whether read
/// or refused, is told the same way from any longer buffer that starts with
/// those bytes; and a frame that is read spans at least one of them.
pub proof fn lemma_frame_at_extend(b: Seq<u8>, x: Seq<u8>)
    ensures
        settled(frame_at(b)) ==> frame_at(b + x) == frame_at(b),
        frame_at(b) is Read ==> 0 < end_of(frame_at(b), 0) <= b.len(),
{
    reveal(frame_at);
    lemma_array_len_at_extend(b, x, 0);
    if let Step::Read(_, p) = array_len_at(b, 0) {
        lemma_int_at_extend(b, x, p);
        if let Step::Read(_, q) = int_at(b, p) {
            lemma_body_at_extend(b, x, q);
        }
    }
}

/// The low `8 * k` bits of `v`, as `k` bytes in big-endian order.
pub open spec fn be_bytes(v: nat, k: nat) -> Seq<u8>
    decreases k,
{
    if k == 0 {
        Seq::empty()
    } else {
        be_bytes(v / 256, (k - 1) as nat).push((v % 256) as u8)
    }
}

/// The header of a string of `n` bytes, in its shortest form.
pub open spec fn str_header(n: nat) -> Seq<u8> {
    if n < 32 {
        seq![(0xa0 + n) as u8]
    } else if n < 0x100 {
        seq![0xd9u8, n as u8]
    } else if n < 0x1_0000 {
        seq![0xdau8] + be_bytes(n, 2)
    } else {
        seq![0xdbu8] + be_bytes(n, 4)
    }
}

/// The header of an array of `n` elements, in its shortest form.
pub open spec fn array_header(n: nat) -> Seq<u8> {
    if n < 16 {
        seq![(0x90 + n) as u8]
    } else if n < 0x1_0000 {
        seq![0xdcu8] + be_bytes(n, 2)
    } else {
        seq![0xddu8] + be_bytes(n, 4)
    }
}

/// A string as the frame holds it: its header, then its UTF-8 bytes.
pub open spec fn str_bytes(s: Seq<char>) -> Seq<u8> {
    str_header(encode_utf8(s).len()) + encode_utf8(s)
}

/// Strings one after the other.
pub open spec fn strs_bytes(ss: Seq<Seq<char>>) -> Seq<u8>
    decreases ss.len(),
{
    if ss.len() == 0 {
        Seq::empty()
    } else {
        str_bytes(ss[0]) + strs_bytes(ss.skip(1))
    }
}

/// The bytes of the frame that carries the call `c`.
pub open spec fn frame_bytes(c: RpcView) -> Seq<u8> {
    seq![0x93u8, NOTIFICATION_TAG as u8] + str_bytes(c.method) + array_header(c.params.len())
        + strs_bytes(c.params)
}

/// Whether a frame can carry `c`: its method is not empty, and each of its
/// lengths fits in the 32 bits that a header has for it.
pub open spec fn encodable(c: RpcView) -> bool {
    &&& c.method.len() > 0
    &&& encode_utf8(c.method).len() < 0x1_0000_0000
    &&& c.params.len() < 0x1_0000_0000
    &&& forall|i: int| 0 <= i < c.params.len() ==> encode_utf8(#[trigger] c.params[i]).len() < 0x1_0000_0000
}

proof fn lemma_be_bytes(v: nat, k: nat)
    requires
        v < byte_space(k),
    ensures
        be_bytes(v, k).len() == k,
        be_value(be_bytes(v, k)) == v,
    decreases k,
{
    if k > 0 {
        let c = byte_space((k - 1) as nat);
        assert(v / 256 < c) by (nonlinear_arith)
            requires
                v < 256 * c,
        ;
        lemma_be_bytes(v / 256, (k - 1) as nat);
        assert(be_bytes(v, k).drop_last() =~= be_bytes(v / 256, (k - 1) as nat));
    }
}

/// The bytes of `b` from `p` on begin with `e`.
pub open spec fn holds_at(b: Seq<u8>, p: int, e: Seq<u8>) -> bool {
    0 <= p && p + e.len() <= b.len() && b.subrange(p, p + e.len()) == e
}

proof fn lemma_holds_at_split(b: Seq<u8>, p: int, e1: Seq<u8>, e2: Seq<u8>)
    requires
        holds_at(b, p, e1 + e2),
    ensures
        holds_at(b, p, e1),
        holds_at(b, p + e1.len(), e2),
{
    let whole = b.subrange(p, p + (e1 + e2).len());
    assert(b.subrange(p, p + e1.len()) =~= whole.subrange(0, e1.len() as int));
    assert(whole.subrange(0, e1.len() as int) =~= e1);
    assert(b.subrange(p + e1.len(), p + e1.len() + e2.len()) =~= whole.subrange(
        e1.len() as int,
        whole.len() as int,
    ));
    assert(whole.subrange(e1.len() as int, whole.len() as int) =~= e2);
}

proof fn lemma_holds_at_byte(b: Seq<u8>, p: int, e: Seq<u8>, i: int)
    requires
        holds_at(b, p, e),
        0 <= i < e.len(),
    ensures
        b[p + i] == e[i],
{
    assert(b.subrange(p, p + e.len())[i] == b[p + i]);
}

proof fn lemma_str_at_encoded(b: Seq<u8>, p: int, s: Seq<char>)
    requires
        holds_at(b, p, str_bytes(s)),
        encode_utf8(s).len() < 0x1_0000_0000,
    ensures
        str_at(b, p) == Step::Read(s, p + str_bytes(s).len()),
{
    let e = encode_utf8(s);
    let n = e.len();
    let h = str_header(n);
    lemma_holds_at_split(b, p, h, e);
    lemma_holds_at_byte(b, p, h, 0);
    if n >= 0x100 {
        reveal_with_fuel(byte_space, 5);
        if n < 0x1_0000 {
            lemma_be_bytes(n, 2);
            lemma_holds_at_split(b, p, seq![0xdau8], be_bytes(n, 2));
            assert(b[p] == 0xda);
            assert(be_at(b, p + 1, 2) == Step::Read(n as int, p + 3));
        } else {
            lemma_be_bytes(n, 4);
            lemma_holds_at_split(b, p, seq![0xdbu8], be_bytes(n, 4));
            assert(b[p] == 0xdb);
            assert(be_at(b, p + 1, 4) == Step::Read(n as int, p + 5));
        }
    } else if n >= 32 {
        lemma_holds_at_byte(b, p, h, 1);
        assert(b.subrange(p + 1, p + 2) =~= seq![n as u8]);
        assert(seq![n as u8].drop_last() =~= Seq::<u8>::empty());
        assert(b[p] == 0xd9);
        assert(be_value(Seq::<u8>::empty()) == 0);
        assert(be_value(seq![n as u8]) == n);
    } else {
        assert(b[p] == 0xa0 + n);
    }
    assert(str_len_at(b, p) == Step::Read(n as int, p + h.len()));
    encode_utf8_valid_utf8(s);
    encode_utf8_decode_utf8(s);
}

proof fn lemma_array_len_at_encoded(b: Seq<u8>, p: int, n: nat)
    requires
        holds_at(b, p, array_header(n)),
        n < 0x1_0000_0000,
    ensures
        array_len_at(b, p) == Step::Read(n as int, p + array_header(n).len()),
{
    let h = array_header(n);
    lemma_holds_at_byte(b, p, h, 0);
    if n >= 16 {
        reveal_with_fuel(byte_space, 5);
        if n < 0x1_0000 {
            lemma_be_bytes(n, 2);
            lemma_holds_at_split(b, p, seq![0xdcu8], be_bytes(n, 2));
            assert(b[p] == 0xdc);
        } else {
            lemma_be_bytes(n, 4);
            lemma_holds_at_split(b, p, seq![0xddu8], be_bytes(n, 4));
            assert(b[p] == 0xdd);
        }
    } else {
        assert(b[p] == 0x90 + n);
    }
}

proof fn lemma_strs_at_encoded(b: Seq<u8>, p: int, ss: Seq<Seq<char>>)
    requires
        holds_at(b, p, strs_bytes(ss)),
        forall|i: int| 0 <= i < ss.len() ==> encode_utf8(#[trigger] ss[i]).len() < 0x1_0000_0000,
    ensures
        strs_at(b, p, ss.len()) == Step::Read(ss, p + strs_bytes(ss).len()),
    decreases ss.len(),
{
    if ss.len() > 0 {
        let head = str_bytes(ss[0]);
        lemma_holds_at_split(b, p, head, strs_bytes(ss.skip(1)));
        lemma_str_at_encoded(b, p, ss[0]);
        assert forall|i: int| 0 <= i < ss.skip(1).len() implies encode_utf8(
            #[trigger] ss.skip(1)[i],
        ).len() < 0x1_0000_0000 by {
            assert(ss.skip(1)[i] == ss[i + 1]);
        }
        lemma_strs_at_encoded(b, p + head.len(), ss.skip(1));
        assert(seq![ss[0]] + ss.skip(1) =~= ss);
        assert((ss.len() - 1) as nat == ss.skip(1).len());
    } else {
        assert(ss =~= Seq::<Seq<char>>::empty());
    }
}

/// Decoding the bytes of the frame that carries `c`, whatever follows them,
/// gives back `c` and the length of that frame.
pub proof fn lemma_frame_round_trip(c: RpcView, rest: Seq<u8>)
    requires
        encodable(c),
    ensures
        frame_at(frame_bytes(c) + rest) == Step::Read(c, frame_bytes(c).len() as int),
{
    reveal(frame_at);
    let b = frame_bytes(c) + rest;
    let lead = seq![0x93u8, NOTIFICATION_TAG as u8];
    let m = str_bytes(c.method);
    let h = array_header(c.params.len());
    let ps = strs_bytes(c.params);
    assert(b.subrange(0, frame_bytes(c).len() as int) =~= frame_bytes(c));
    lemma_holds_at_split(b, 0, lead + m + h, ps);
    lemma_holds_at_split(b, 0, lead + m, h);
    lemma_holds_at_split(b, 0, lead, m);
    lemma_holds_at_byte(b, 0, lead, 0);
    lemma_holds_at_byte(b, 0, lead, 1);
    assert(array_len_at(b, 0) == Step::Read(3int, 1int));
    assert(int_at(b, 1) == Step::Read(2int, 2int));
    lemma_str_at_encoded(b, 2, c.method);
    lemma_array_len_at_encoded(b, 2 + m.len() as int, c.params.len());
    lemma_strs_at_encoded(b, 2 + m.len() + h.len() as int, c.params);
}

/// Two whole frames back to back, and whatever follows: decoding reads the
/// first frame, and decoding again after it reads the second.
pub proof fn lemma_batched_frames(b1: Seq<u8>, b2: Seq<u8>, rest: Seq<u8>)
    requires
        frame_at(b1) matches Step::Read(_, n) && n == b1.len(),
        frame_at(b2) is Read,
    ensures
        frame_at(b1 + b2 + rest) == frame_at(b1),
        frame_at((b1 + b2 + rest).skip(b1.len() as int)) == frame_at(b2),
{
    lemma_frame_at_extend(b1, b2 + rest);
    lemma_frame_at_extend(b2, rest);
    assert(b1 + b2 + rest =~= b1 + (b2 + rest));
    assert((b1 + b2 + rest).skip(b1.len() as int) =~= b2 + rest);
}

/// What decoding `b` over and over yields: the calls read in order, the
/// bytes left over, and whether it stopped at bytes that cannot begin a
/// frame.
pub open spec fn split_frames(b: Seq<u8>) -> (Seq<RpcView>, Seq<u8>, bool)
    decreases b.len(),
{
    match frame_at(b) {
        Step::Read(v, n) => if 0 < n <= b.len() {
            let r = split_frames(b.skip(n));
            (seq![v] + r.0, r.1, r.2)
        } else {
            (Seq::empty(), b, true)
        },
        Step::Short => (Seq::empty(), b, false),
        Step::Bad => (Seq::empty(), b, true),
    }
}

/// The state `s` of repeated decoding after the bytes `x` arrive: they join
/// the leftover bytes and decoding goes on, unless it has already stopped at
/// a malformed frame.
pub open spec fn resume(s: (Seq<RpcView>, Seq<u8>, bool), x: Seq<u8>) -> (
    Seq<RpcView>,
    Seq<u8>,
    bool,
) {
    if s.2 {
        (s.0, s.1 + x, true)
    } else {
        let r = split_frames(s.1 + x);
        (s.0 + r.0, r.1, r.2)
    }
}

/// The state of repeated decoding when `chunks` arrive one read at a time,
/// each decoded as far as it goes before the next arrives.
pub open spec fn deliver(chunks: Seq<Seq<u8>>) -> (Seq<RpcView>, Seq<u8>, bool)
    decreases chunks.len(),
{
    if chunks.len() == 0 {
        (Seq::empty(), Seq::empty(), false)
    } else {
        resume(deliver(chunks.drop_last()), chunks.last())
    }
}

/// The chunks joined into one byte sequence.
pub open spec fn joined(chunks: Seq<Seq<u8>>) -> Seq<u8>
    decreases chunks.len(),
{
    if chunks.len() == 0 {
        Seq::empty()
    } else {
        joined(chunks.drop_last()) + chunks.last()
    }
}

/// Bytes that arrive later never change what earlier bytes decoded to.
pub proof fn lemma_split_frames_append(b: Seq<u8>, x: Seq<u8>)
    ensures
        split_frames(b + x) == resume(split_frames(b), x),
    decreases b.len(),
{
    lemma_frame_at_extend(b, x);
    match frame_at(b) {
        Step::Read(v, n) => {
            assert((b + x).skip(n) =~= b.skip(n) + x);
            lemma_split_frames_append(b.skip(n), x);
            let r = split_frames(b.skip(n));
            if !r.2 {
                let t = split_frames(r.1 + x);
                assert(seq![v] + (r.0 + t.0) =~= (seq![v] + r.0) + t.0);
            }
        },
        Step::Short => {
            let t = split_frames(b + x);
            assert(Seq::<RpcView>::empty() + t.0 =~= t.0);
        },
        Step::Bad => {},
    }
}

/// However a byte stream is cut into reads, decoding each read as far as it
/// goes before the next arrives yields the same calls, the same leftover
/// bytes and the same outcome as decoding the whole stream at once.
pub proof fn lemma_chunk_invariance(chunks: Seq<Seq<u8>>)
    ensures
        deliver(chunks) == split_frames(joined(chunks)),
    decreases chunks.len(),
{
    if chunks.len() > 0 {
        lemma_chunk_invariance(chunks.drop_last());
        lemma_split_frames_append(joined(chunks.drop_last()), chunks.last());
    } else {
        reveal(frame_at);
        assert(frame_at(Seq::empty()) is Short);
    }
}

pub(crate) proof fn lemma_strs_bytes_append(a: Seq<Seq<char>>, b: Seq<Seq<char>>)
    ensures
        strs_bytes(a + b) == strs_bytes(a) + strs_bytes(b),
    decreases a.len(),
{
    if a.len() == 0 {
        assert(a + b =~= b);
        assert(Seq::<u8>::empty() + strs_bytes(b) =~= strs_bytes(b));
    } else {
        assert((a + b).skip(1) =~= a.skip(1) + b);
        lemma_strs_bytes_append(a.skip(1), b);
        assert(str_bytes(a[0]) + (strs_bytes(a.skip(1)) + strs_bytes(b)) =~= (str_bytes(a[0])
            + strs_bytes(a.skip(1))) + strs_bytes(b));
    }
}

} // verus!
