//! Big-endian byte codecs for the fixed-size values carried by components.
use vstd::arithmetic::power::pow;
use vstd::prelude::*;
use vstd::slice::slice_subrange;
use vstd::utf8::{decode_utf8, encode_utf8, valid_utf8};

use crate::datatypes::{fixed32_text, S32};

verus! {

/// The number a big-endian byte sequence denotes.
pub open spec fn be_value(s: Seq<u8>) -> nat
    decreases s.len(),
{
    if s.len() == 0 {
        0
    } else {
        be_value(s.drop_last()) * 256 + (s.last() as nat)
    }
}

/// The `n` lowest base-256 digits of `v`, most significant first.
pub open spec fn be_bytes(v: nat, n: nat) -> Seq<u8>
    decreases n,
{
    if n == 0 {
        Seq::empty()
    } else {
        be_bytes(v / 256, (n - 1) as nat).push((v % 256) as u8)
    }
}

/// `be_bytes(v, n)` has `n` bytes.
pub proof fn lemma_be_bytes_len(v: nat, n: nat)
    ensures
        be_bytes(v, n).len() == n,
    decreases n,
{
    if n > 0 {
        lemma_be_bytes_len(v / 256, (n - 1) as nat);
    }
}

/// Reading back `n` encoded digits gives `v` modulo `256^n`.
pub proof fn lemma_be_roundtrip(v: nat, n: nat)
    ensures
        be_value(be_bytes(v, n)) == v % (pow(256, n) as nat),
        pow(256, n) > 0,
    decreases n,
{
    if n == 0 {
        assert(pow(256, 0) == 1) by {
            reveal_with_fuel(pow, 1);
        }
    } else {
        let p = pow(256, (n - 1) as nat);
        lemma_be_roundtrip(v / 256, (n - 1) as nat);
        lemma_be_bytes_len(v / 256, (n - 1) as nat);
        assert(be_bytes(v, n).drop_last() == be_bytes(v / 256, (n - 1) as nat));
        assert(pow(256, n) == 256 * p) by { reveal(pow); }
        vstd::arithmetic::div_mod::lemma_mod_breakdown(v as int, 256, p);
        assert(be_value(be_bytes(v, n)) == ((v / 256) % (p as nat)) * 256 + v % 256);
    }
}

/// A sequence of `n` bytes denotes a number below `256^n`.
pub proof fn lemma_be_value_bound(s: Seq<u8>)
    ensures
        be_value(s) < pow(256, s.len()),
    decreases s.len(),
{
    if s.len() == 0 {
        assert(pow(256, 0) == 1) by {
            reveal_with_fuel(pow, 1);
        }
    } else {
        let p = pow(256, (s.len() - 1) as nat);
        lemma_be_value_bound(s.drop_last());
        assert(pow(256, s.len()) == 256 * p) by { reveal(pow); }
        let a = be_value(s.drop_last());
        let b = s.last();
        assert(a * 256 + b < 256 * p) by (nonlinear_arith)
            requires
                a < p,
                b < 256,
        ;
    }
}

/// The powers of 256 that fixed-width integers use.
pub proof fn lemma_radix_powers()
    ensures
        pow(256, 0) == 1,
        pow(256, 1) == 0x100,
        pow(256, 2) == 0x1_0000,
        pow(256, 3) == 0x100_0000,
        pow(256, 4) == 0x1_0000_0000,
        pow(256, 5) == 0x100_0000_0000,
        pow(256, 6) == 0x1_0000_0000_0000,
        pow(256, 7) == 0x100_0000_0000_0000,
        pow(256, 8) == 0x1_0000_0000_0000_0000,
{
    reveal_with_fuel(pow, 9);
}

/// The `n` low big-endian bytes of `x`.
pub fn encode_be(x: u64, n: usize) -> (r: Vec<u8>)
    ensures
        r@ == be_bytes(x as nat, n as nat),
{
    let mut out: Vec<u8> = Vec::new();
    let mut k: usize = 0;
    while k < n
        invariant
            k <= n,
            out@.len() == k,
        decreases n - k,
    {
        out.push(0);
        k = k + 1;
    }
    let mut v: u64 = x;
    let mut i: usize = n;
    while i > 0
        invariant
            i <= n,
            out@.len() == n,
            be_bytes(x as nat, n as nat) == be_bytes(v as nat, i as nat) + out@.subrange(i as int, n as int),
        decreases i,
    {
        let ghost before = out@;
        out.set(i - 1, (v % 256) as u8);
        assert(be_bytes(v as nat, i as nat) == be_bytes((v / 256) as nat, (i - 1) as nat).push((v % 256) as u8));
        assert(out@.subrange(i - 1, n as int) =~= seq![(v % 256) as u8] + before.subrange(i as int, n as int));
        assert(be_bytes(x as nat, n as nat) =~= be_bytes((v / 256) as nat, (i - 1) as nat) + out@.subrange(i - 1, n as int));
        v = v / 256;
        i = i - 1;
    }
    assert(out@.subrange(0, n as int) =~= out@);
    out
}

/// The number denoted by at most eight big-endian bytes.
pub fn decode_be(data: &[u8]) -> (r: u64)
    requires
        data@.len() <= 8,
    ensures
        r == be_value(data@),
{
    let mut v: u64 = 0;
    let mut i: usize = 0;
    proof {
        lemma_radix_powers();
    }
    while i < data.len()
        invariant
            i <= data@.len(),
            data@.len() <= 8,
            v == be_value(data@.take(i as int)),
            pow(256, 7) == 0x100_0000_0000_0000,
        decreases data@.len() - i,
    {
        proof {
            lemma_be_value_bound(data@.take(i as int));
            if i < 7 {
                vstd::arithmetic::power::lemma_pow_increases(256, i as nat, 7);
            }
            assert(data@.take(i + 1).drop_last() =~= data@.take(i as int));
        }
        v = v * 256 + data[i] as u64;
        i = i + 1;
    }
    assert(data@.take(data@.len() as int) =~= data@);
    v
}

/// The bytes of `slice` as an array of exactly that length.
pub fn slice_into_array<const N: usize>(slice: &[u8]) -> (a: [u8; N])
    requires
        slice@.len() == N,
    ensures
        a@ == slice@,
{
    let mut a: [u8; N] = [0u8; N];
    let mut i: usize = 0;
    while i < N
        invariant
            i <= N,
            slice@.len() == N,
            a@.len() == N,
            forall|j: int| 0 <= j < i ==> a@[j] == slice@[j],
        decreases N - i,
    {
        a.set(i, slice[i]);
        i = i + 1;
    }
    assert(a@ =~= slice@);
    a
}

/// A value that can be read back from its byte representation.
pub trait FromByteArray: Sized {
    /// The byte sequences the decoder accepts.
    spec fn accepts(data: Seq<u8>) -> bool;

    /// Whether `value` is what the decoder reads from `data`.
    spec fn decodes_to(data: Seq<u8>, value: Self) -> bool;

    fn from_byte_array(data: &[u8]) -> (r: Self)
        requires
            Self::accepts(data@),
        ensures
            Self::decodes_to(data@, r),
    ;
}

/// A value with a byte representation.
pub trait ToByteArray {
    /// The bytes that represent the value.
    spec fn encoded(&self) -> Seq<u8>;

    fn to_byte_array(&self) -> (r: Vec<u8>)
        ensures
            r@ == self.encoded(),
    ;
}

impl FromByteArray for u8 {
    open spec fn accepts(data: Seq<u8>) -> bool { data.len() == 1 }
    open spec fn decodes_to(data: Seq<u8>, value: u8) -> bool { value == be_value(data) as u8 }
    fn from_byte_array(data: &[u8]) -> (r: u8) { decode_be(data) as u8 }
}

impl ToByteArray for u8 {
    open spec fn encoded(&self) -> Seq<u8> { be_bytes(*self as nat, 1) }
    fn to_byte_array(&self) -> (r: Vec<u8>) { encode_be(*self as u64, 1) }
}

impl FromByteArray for u16 {
    open spec fn accepts(data: Seq<u8>) -> bool { data.len() == 2 }
    open spec fn decodes_to(data: Seq<u8>, value: u16) -> bool { value == be_value(data) as u16 }
    fn from_byte_array(data: &[u8]) -> (r: u16) { decode_be(data) as u16 }
}

impl ToByteArray for u16 {
    open spec fn encoded(&self) -> Seq<u8> { be_bytes(*self as nat, 2) }
    fn to_byte_array(&self) -> (r: Vec<u8>) { encode_be(*self as u64, 2) }
}

impl FromByteArray for u32 {
    open spec fn accepts(data: Seq<u8>) -> bool { data.len() == 4 }
    open spec fn decodes_to(data: Seq<u8>, value: u32) -> bool { value == be_value(data) as u32 }
    fn from_byte_array(data: &[u8]) -> (r: u32) { decode_be(data) as u32 }
}

impl ToByteArray for u32 {
    open spec fn encoded(&self) -> Seq<u8> { be_bytes(*self as nat, 4) }
    fn to_byte_array(&self) -> (r: Vec<u8>) { encode_be(*self as u64, 4) }
}

impl FromByteArray for u64 {
    open spec fn accepts(data: Seq<u8>) -> bool { data.len() == 8 }
    open spec fn decodes_to(data: Seq<u8>, value: u64) -> bool { value == be_value(data) as u64 }
    fn from_byte_array(data: &[u8]) -> (r: u64) { decode_be(data) }
}

impl ToByteArray for u64 {
    open spec fn encoded(&self) -> Seq<u8> { be_bytes(*self as nat, 8) }
    fn to_byte_array(&self) -> (r: Vec<u8>) { encode_be(*self, 8) }
}

/// `usize` values travel as eight bytes, as on 64-bit targets.
impl FromByteArray for usize {
    open spec fn accepts(data: Seq<u8>) -> bool { data.len() == 8 }
    open spec fn decodes_to(data: Seq<u8>, value: usize) -> bool { value == be_value(data) as usize }
    fn from_byte_array(data: &[u8]) -> (r: usize) { decode_be(data) as usize }
}

impl ToByteArray for usize {
    open spec fn encoded(&self) -> Seq<u8> { be_bytes(*self as nat, 8) }
    fn to_byte_array(&self) -> (r: Vec<u8>) { encode_be(*self as u64, 8) }
}

impl FromByteArray for i8 {
    open spec fn accepts(data: Seq<u8>) -> bool { data.len() == 1 }
    open spec fn decodes_to(data: Seq<u8>, value: i8) -> bool { value == (be_value(data) as u8) as i8 }
    fn from_byte_array(data: &[u8]) -> (r: i8) { (decode_be(data) as u8) as i8 }
}

impl ToByteArray for i8 {
    open spec fn encoded(&self) -> Seq<u8> { be_bytes((*self as u8) as nat, 1) }
    fn to_byte_array(&self) -> (r: Vec<u8>) { encode_be((*self as u8) as u64, 1) }
}

impl FromByteArray for i16 {
    open spec fn accepts(data: Seq<u8>) -> bool { data.len() == 2 }
    open spec fn decodes_to(data: Seq<u8>, value: i16) -> bool { value == (be_value(data) as u16) as i16 }
    fn from_byte_array(data: &[u8]) -> (r: i16) { (decode_be(data) as u16) as i16 }
}

impl ToByteArray for i16 {
    open spec fn encoded(&self) -> Seq<u8> { be_bytes((*self as u16) as nat, 2) }
    fn to_byte_array(&self) -> (r: Vec<u8>) { encode_be((*self as u16) as u64, 2) }
}

impl FromByteArray for i32 {
    open spec fn accepts(data: Seq<u8>) -> bool { data.len() == 4 }
    open spec fn decodes_to(data: Seq<u8>, value: i32) -> bool { value == (be_value(data) as u32) as i32 }
    fn from_byte_array(data: &[u8]) -> (r: i32) { (decode_be(data) as u32) as i32 }
}

impl ToByteArray for i32 {
    open spec fn encoded(&self) -> Seq<u8> { be_bytes((*self as u32) as nat, 4) }
    fn to_byte_array(&self) -> (r: Vec<u8>) { encode_be((*self as u32) as u64, 4) }
}

impl FromByteArray for i64 {
    open spec fn accepts(data: Seq<u8>) -> bool { data.len() == 8 }
    open spec fn decodes_to(data: Seq<u8>, value: i64) -> bool { value == (be_value(data) as u64) as i64 }
    fn from_byte_array(data: &[u8]) -> (r: i64) { (decode_be(data) as u64) as i64 }
}

impl ToByteArray for i64 {
    open spec fn encoded(&self) -> Seq<u8> { be_bytes((*self as u64) as nat, 8) }
    fn to_byte_array(&self) -> (r: Vec<u8>) { encode_be(*self as u64, 8) }
}

impl FromByteArray for bool {
    open spec fn accepts(data: Seq<u8>) -> bool { data.len() >= 1 }
    open spec fn decodes_to(data: Seq<u8>, value: bool) -> bool { value == (data[0] == 1) }
    fn from_byte_array(data: &[u8]) -> (r: bool) { data[0] == 1 }
}

impl ToByteArray for bool {
    open spec fn encoded(&self) -> Seq<u8> { if *self { seq![1u8] } else { seq![0u8] } }
    fn to_byte_array(&self) -> (r: Vec<u8>) {
        let b: u8 = if *self { 1 } else { 0 };
        let mut v: Vec<u8> = Vec::new();
        v.push(b);
        assert(v@ =~= self.encoded());
        v
    }
}

/// `std::str::from_utf8` on bytes known to be UTF-8, owned: the text whose
/// UTF-8 encoding is `bytes` (the function fails only on bytes that are not UTF-8).
#[verifier::external_body]
pub(crate) fn utf8_text(bytes: &[u8]) -> (s: String)
    requires
        valid_utf8(bytes@),
    ensures
        encode_utf8(s@) == bytes@,
{
    std::str::from_utf8(bytes).unwrap().to_owned()
}

/// Appends `bytes` to `out`.
pub(crate) fn put_bytes(out: &mut Vec<u8>, bytes: &[u8])
    ensures
        final(out)@ == old(out)@ + bytes@,
{
    out.extend_from_slice(bytes);
    assert(out@ =~= old(out)@ + bytes@);
}

/// Names travel as the UTF-8 bytes of their fixed 32-byte text.
impl FromByteArray for S32 {
    open spec fn accepts(data: Seq<u8>) -> bool { valid_utf8(data) }
    open spec fn decodes_to(data: Seq<u8>, value: S32) -> bool { value.0@ == fixed32_text(decode_utf8(data)) }
    fn from_byte_array(data: &[u8]) -> (r: S32) {
        let text = utf8_text(data);
        proof {
            vstd::utf8::encode_utf8_decode_utf8(text@);
        }
        S32::from_text(text.as_str())
    }
}

impl ToByteArray for S32 {
    open spec fn encoded(&self) -> Seq<u8> { encode_utf8(self.0@) }
    fn to_byte_array(&self) -> (r: Vec<u8>) {
        let mut v: Vec<u8> = Vec::new();
        put_bytes(&mut v, self.0.as_str().as_bytes());
        v
    }
}

/// The UTF-8 byte length of a string's text, as eight bytes, then the bytes.
impl ToByteArray for String {
    open spec fn encoded(&self) -> Seq<u8> { be_bytes(encode_utf8(self@).len(), 8) + encode_utf8(self@) }
    fn to_byte_array(&self) -> (r: Vec<u8>) {
        let bytes = self.as_str().as_bytes();
        let mut v = encode_be(bytes.len() as u64, 8);
        put_bytes(&mut v, bytes);
        v
    }
}

/// A string is read from its length (eight bytes) and that many UTF-8 bytes.
impl FromByteArray for String {
    open spec fn accepts(data: Seq<u8>) -> bool {
        &&& data.len() >= 8
        &&& 8 + be_value(data.take(8)) <= data.len()
        &&& valid_utf8(data.subrange(8, 8 + be_value(data.take(8)) as int))
    }
    open spec fn decodes_to(data: Seq<u8>, value: String) -> bool {
        value@ == decode_utf8(data.subrange(8, 8 + be_value(data.take(8)) as int))
    }
    fn from_byte_array(data: &[u8]) -> (r: String) {
        let total = data.len();
        assert(total >= 8);
        let len = decode_be(slice_subrange(data, 0, 8));
        assert(data@.subrange(0, 8) =~= data@.take(8));
        assert(8 + len <= total);
        let end = 8 + len as usize;
        let text = utf8_text(slice_subrange(data, 8, end));
        proof {
            vstd::utf8::encode_utf8_decode_utf8(text@);
        }
        text
    }
}

/// Law: every fixed-width value reads back as itself from its bytes, and its
/// bytes have the width of its type.
pub proof fn lemma_codec_roundtrip()
    ensures
        forall|x: u8| #[trigger] <u8 as FromByteArray>::decodes_to(x.encoded(), x) && x.encoded().len() == 1,
        forall|x: u16| #[trigger] <u16 as FromByteArray>::decodes_to(x.encoded(), x) && x.encoded().len() == 2,
        forall|x: u32| #[trigger] <u32 as FromByteArray>::decodes_to(x.encoded(), x) && x.encoded().len() == 4,
        forall|x: u64| #[trigger] <u64 as FromByteArray>::decodes_to(x.encoded(), x) && x.encoded().len() == 8,
        forall|x: usize| #[trigger] <usize as FromByteArray>::decodes_to(x.encoded(), x) && x.encoded().len() == 8,
        forall|x: i8| #[trigger] <i8 as FromByteArray>::decodes_to(x.encoded(), x) && x.encoded().len() == 1,
        forall|x: i16| #[trigger] <i16 as FromByteArray>::decodes_to(x.encoded(), x) && x.encoded().len() == 2,
        forall|x: i32| #[trigger] <i32 as FromByteArray>::decodes_to(x.encoded(), x) && x.encoded().len() == 4,
        forall|x: i64| #[trigger] <i64 as FromByteArray>::decodes_to(x.encoded(), x) && x.encoded().len() == 8,
        forall|x: bool| #[trigger] <bool as FromByteArray>::decodes_to(x.encoded(), x) && x.encoded().len() == 1,
{
    lemma_radix_powers();
    assert forall|x: u8| #[trigger] <u8 as FromByteArray>::decodes_to(x.encoded(), x) && x.encoded().len() == 1 by {
        lemma_be_roundtrip(x as nat, 1);
        lemma_be_bytes_len(x as nat, 1);
        vstd::arithmetic::div_mod::lemma_small_mod(x as nat, pow(256, 1) as nat);
    }
    assert forall|x: u16| #[trigger] <u16 as FromByteArray>::decodes_to(x.encoded(), x) && x.encoded().len() == 2 by {
        lemma_be_roundtrip(x as nat, 2);
        lemma_be_bytes_len(x as nat, 2);
        vstd::arithmetic::div_mod::lemma_small_mod(x as nat, pow(256, 2) as nat);
    }
    assert forall|x: u32| #[trigger] <u32 as FromByteArray>::decodes_to(x.encoded(), x) && x.encoded().len() == 4 by {
        lemma_be_roundtrip(x as nat, 4);
        lemma_be_bytes_len(x as nat, 4);
        vstd::arithmetic::div_mod::lemma_small_mod(x as nat, pow(256, 4) as nat);
    }
    assert forall|x: u64| #[trigger] <u64 as FromByteArray>::decodes_to(x.encoded(), x) && x.encoded().len() == 8 by {
        lemma_be_roundtrip(x as nat, 8);
        lemma_be_bytes_len(x as nat, 8);
        vstd::arithmetic::div_mod::lemma_small_mod(x as nat, pow(256, 8) as nat);
    }
    assert forall|x: usize| #[trigger] <usize as FromByteArray>::decodes_to(x.encoded(), x) && x.encoded().len() == 8 by {
        lemma_be_roundtrip(x as nat, 8);
        lemma_be_bytes_len(x as nat, 8);
        vstd::arithmetic::div_mod::lemma_small_mod(x as nat, pow(256, 8) as nat);
    }
    assert forall|x: i8| #[trigger] <i8 as FromByteArray>::decodes_to(x.encoded(), x) && x.encoded().len() == 1 by {
        let y = #[verifier::truncate] (x as u8);
        lemma_be_roundtrip(y as nat, 1);
        lemma_be_bytes_len(y as nat, 1);
        vstd::arithmetic::div_mod::lemma_small_mod(y as nat, pow(256, 1) as nat);
        assert((x as u8) as i8 == x) by (bit_vector);
    }
    assert forall|x: i16| #[trigger] <i16 as FromByteArray>::decodes_to(x.encoded(), x) && x.encoded().len() == 2 by {
        let y = #[verifier::truncate] (x as u16);
        lemma_be_roundtrip(y as nat, 2);
        lemma_be_bytes_len(y as nat, 2);
        vstd::arithmetic::div_mod::lemma_small_mod(y as nat, pow(256, 2) as nat);
        assert((x as u16) as i16 == x) by (bit_vector);
    }
    assert forall|x: i32| #[trigger] <i32 as FromByteArray>::decodes_to(x.encoded(), x) && x.encoded().len() == 4 by {
        let y = #[verifier::truncate] (x as u32);
        lemma_be_roundtrip(y as nat, 4);
        lemma_be_bytes_len(y as nat, 4);
        vstd::arithmetic::div_mod::lemma_small_mod(y as nat, pow(256, 4) as nat);
        assert((x as u32) as i32 == x) by (bit_vector);
    }
    assert forall|x: i64| #[trigger] <i64 as FromByteArray>::decodes_to(x.encoded(), x) && x.encoded().len() == 8 by {
        let y = #[verifier::truncate] (x as u64);
        lemma_be_roundtrip(y as nat, 8);
        lemma_be_bytes_len(y as nat, 8);
        vstd::arithmetic::div_mod::lemma_small_mod(y as nat, pow(256, 8) as nat);
        assert((x as u64) as i64 == x) by (bit_vector);
    }
}

/// Law: a string reads back as itself from its bytes, and so does a name
/// whose text takes its full 32 bytes (as every name made from text does).
pub proof fn lemma_text_codec_roundtrip(x: String, y: S32)
    ensures
        encode_utf8(x@).len() < 0x1_0000_0000_0000_0000 ==> <String as FromByteArray>::accepts(x.encoded())
            && <String as FromByteArray>::decodes_to(x.encoded(), x),
        encode_utf8(y.0@).len() == 32 ==> <S32 as FromByteArray>::accepts(y.encoded())
            && <S32 as FromByteArray>::decodes_to(y.encoded(), y),
{
    broadcast use vstd::utf8::group_utf8_lib;

    let e = encode_utf8(x@);
    if e.len() < 0x1_0000_0000_0000_0000 {
        let d = x.encoded();
        lemma_radix_powers();
        lemma_be_bytes_len(e.len(), 8);
        lemma_be_roundtrip(e.len(), 8);
        vstd::arithmetic::div_mod::lemma_small_mod(e.len(), pow(256, 8) as nat);
        assert(d.take(8) =~= be_bytes(e.len(), 8));
        assert(d.subrange(8, 8 + e.len() as int) =~= e);
    }
    if encode_utf8(y.0@).len() == 32 {
        assert(crate::datatypes::prefix_within(y.0@, 32) == y.0@);
        assert(fixed32_text(y.0@) =~= y.0@);
    }
}

} // verus!
