use crate::escape::{frame, lemma_unframe_frame, lemma_unframe_prefix, unframe};
use crate::helper::{VariableSizeEmbeddingDecoder, VariableSizeEmbeddingEncoder};
use crate::interface::{
    DecodeError, FixedSize, FixedSizeEmbedding, VariableSize, VariableSizeEmbedding,
};
use crate::order::{
    be_bytes, be_value, lemma_be_bytes_len, lemma_be_value_bound, lemma_pow256_monotonic,
    lemma_pow256_values, pow256,
};
use vstd::prelude::*;
use vstd::string::StrSliceExecFns;
use vstd::utf8::{
    decode_utf8, decode_utf8_encode_utf8, encode_utf8, encode_utf8_decode_utf8, encode_utf8_valid_utf8,
    is_scalar, valid_utf8,
};

verus! {

broadcast use FixedSizeEmbedding::lemma_len;

/// The embedding of a boolean: one byte, `00` for false and `01` for true.
pub open spec fn bool_embedding(b: bool) -> Seq<u8> {
    seq![if b { 1u8 } else { 0u8 }]
}

/// The `n`-byte embedding of a signed integer of `8 * n` bits: the
/// two's-complement bytes with the top bit flipped, which is the number
/// shifted up by `2^(8n - 1)` in big-endian form.
pub open spec fn signed_embedding(x: int, n: nat) -> Seq<u8> {
    be_bytes((x + pow256(n) / 2) as nat, n)
}

/// The signed integer that an embedding of `s.len()` bytes stands for.
pub open spec fn signed_value(s: Seq<u8>) -> int {
    be_value(s) - pow256(s.len()) / 2
}

/// The embedding of a character: its code point as four big-endian bytes.
pub open spec fn char_embedding(c: char) -> Seq<u8> {
    be_bytes(c as u32 as nat, 4)
}

/// The `N` low-order bytes of `v`, most significant first.
fn be_encode<const N: usize>(v: u128) -> (r: [u8; N])
    ensures
        r@ == be_bytes(v as nat, N as nat),
{
    let mut a: [u8; N] = [0u8; N];
    let mut i: usize = N;
    let mut rest: u128 = v;
    while i > 0
        invariant
            i <= N,
            a@.len() == N,
            be_bytes(v as nat, N as nat) == be_bytes(rest as nat, i as nat) + a@.subrange(
                i as int,
                N as int,
            ),
        decreases i,
    {
        let b = (rest % 256) as u8;
        let ghost tail = a@.subrange(i as int, N as int);
        a[i - 1] = b;
        proof {
            assert(a@.subrange(i - 1, N as int) =~= seq![b] + tail);
            let front = be_bytes((rest / 256) as nat, (i - 1) as nat);
            assert(be_bytes(rest as nat, i as nat) == front.push(b));
            assert(front.push(b) + tail =~= front + (seq![b] + tail));
        }
        rest = rest / 256;
        i -= 1;
    }
    proof {
        assert(be_bytes(rest as nat, 0) + a@.subrange(0, N as int) =~= a@);
    }
    a
}

/// The number that `N <= 16` big-endian bytes stand for.
fn be_decode<const N: usize>(a: &[u8; N]) -> (r: u128)
    requires
        N <= 16,
    ensures
        r == be_value(a@),
{
    let mut acc: u128 = 0;
    let mut i: usize = 0;
    while i < N
        invariant
            i <= N <= 16,
            acc == be_value(a@.take(i as int)),
        decreases N - i,
    {
        proof {
            let t = a@.take(i + 1);
            assert(t.drop_last() =~= a@.take(i as int));
            lemma_be_value_bound(t);
            lemma_pow256_monotonic((i + 1) as nat, 16);
            lemma_pow256_values();
        }
        acc = acc * 256 + a[i] as u128;
        i += 1;
    }
    proof {
        assert(a@.take(N as int) =~= a@);
    }
    acc
}

impl FixedSize for bool {
    type T = FixedSizeEmbedding<bool, 1>;
}

pub fn encode_bool(b: bool) -> (r: FixedSizeEmbedding<bool, 1>)
    ensures
        r@ == bool_embedding(b),
{
    let data: [u8; 1] = if b { [1] } else { [0] };
    proof {
        assert(data@ =~= bool_embedding(b));
    }
    FixedSizeEmbedding::new(data)
}

/// Any byte other than zero reads as true.
pub fn decode_bool(e: FixedSizeEmbedding<bool, 1>) -> (r: bool)
    ensures
        r == (e@[0] != 0),
{
    e.data()[0] != 0
}

impl FixedSize for u8 {
    type T = FixedSizeEmbedding<u8, 1>;
}

pub fn encode_u8(x: u8) -> (r: FixedSizeEmbedding<u8, 1>)
    ensures
        r@ == be_bytes(x as nat, 1),
{
    FixedSizeEmbedding::new(be_encode::<1>(x as u128))
}

pub fn decode_u8(e: FixedSizeEmbedding<u8, 1>) -> (r: u8)
    ensures
        r == be_value(e@),
{
    let v = be_decode::<1>(e.data());
    proof {
        lemma_be_value_bound(e@);
        lemma_pow256_values();
    }
    v as u8
}

impl FixedSize for u16 {
    type T = FixedSizeEmbedding<u16, 2>;
}

pub fn encode_u16(x: u16) -> (r: FixedSizeEmbedding<u16, 2>)
    ensures
        r@ == be_bytes(x as nat, 2),
{
    FixedSizeEmbedding::new(be_encode::<2>(x as u128))
}

pub fn decode_u16(e: FixedSizeEmbedding<u16, 2>) -> (r: u16)
    ensures
        r == be_value(e@),
{
    let v = be_decode::<2>(e.data());
    proof {
        lemma_be_value_bound(e@);
        lemma_pow256_values();
    }
    v as u16
}

impl FixedSize for u32 {
    type T = FixedSizeEmbedding<u32, 4>;
}

pub fn encode_u32(x: u32) -> (r: FixedSizeEmbedding<u32, 4>)
    ensures
        r@ == be_bytes(x as nat, 4),
{
    FixedSizeEmbedding::new(be_encode::<4>(x as u128))
}

pub fn decode_u32(e: FixedSizeEmbedding<u32, 4>) -> (r: u32)
    ensures
        r == be_value(e@),
{
    let v = be_decode::<4>(e.data());
    proof {
        lemma_be_value_bound(e@);
        lemma_pow256_values();
    }
    v as u32
}

impl FixedSize for u64 {
    type T = FixedSizeEmbedding<u64, 8>;
}

pub fn encode_u64(x: u64) -> (r: FixedSizeEmbedding<u64, 8>)
    ensures
        r@ == be_bytes(x as nat, 8),
{
    FixedSizeEmbedding::new(be_encode::<8>(x as u128))
}

pub fn decode_u64(e: FixedSizeEmbedding<u64, 8>) -> (r: u64)
    ensures
        r == be_value(e@),
{
    let v = be_decode::<8>(e.data());
    proof {
        lemma_be_value_bound(e@);
        lemma_pow256_values();
    }
    v as u64
}

impl FixedSize for u128 {
    type T = FixedSizeEmbedding<u128, 16>;
}

pub fn encode_u128(x: u128) -> (r: FixedSizeEmbedding<u128, 16>)
    ensures
        r@ == be_bytes(x as nat, 16),
{
    FixedSizeEmbedding::new(be_encode::<16>(x as u128))
}

pub fn decode_u128(e: FixedSizeEmbedding<u128, 16>) -> (r: u128)
    ensures
        r == be_value(e@),
{
    let v = be_decode::<16>(e.data());
    proof {
        lemma_be_value_bound(e@);
        lemma_pow256_values();
    }
    v
}

impl FixedSize for i8 {
    type T = FixedSizeEmbedding<i8, 1>;
}

pub fn encode_i8(x: i8) -> (r: FixedSizeEmbedding<i8, 1>)
    ensures
        r@ == signed_embedding(x as int, 1),
{
    proof {
        lemma_pow256_values();
    }
    FixedSizeEmbedding::new(be_encode::<1>((x as i128 + 0x80) as u128))
}

pub fn decode_i8(e: FixedSizeEmbedding<i8, 1>) -> (r: i8)
    ensures
        r == signed_value(e@),
{
    let v = be_decode::<1>(e.data());
    proof {
        lemma_be_value_bound(e@);
        lemma_pow256_values();
    }
    (v as i128 - 0x80) as i8
}

impl FixedSize for i16 {
    type T = FixedSizeEmbedding<i16, 2>;
}

pub fn encode_i16(x: i16) -> (r: FixedSizeEmbedding<i16, 2>)
    ensures
        r@ == signed_embedding(x as int, 2),
{
    proof {
        lemma_pow256_values();
    }
    FixedSizeEmbedding::new(be_encode::<2>((x as i128 + 0x8000) as u128))
}

pub fn decode_i16(e: FixedSizeEmbedding<i16, 2>) -> (r: i16)
    ensures
        r == signed_value(e@),
{
    let v = be_decode::<2>(e.data());
    proof {
        lemma_be_value_bound(e@);
        lemma_pow256_values();
    }
    (v as i128 - 0x8000) as i16
}

impl FixedSize for i32 {
    type T = FixedSizeEmbedding<i32, 4>;
}

pub fn encode_i32(x: i32) -> (r: FixedSizeEmbedding<i32, 4>)
    ensures
        r@ == signed_embedding(x as int, 4),
{
    proof {
        lemma_pow256_values();
    }
    FixedSizeEmbedding::new(be_encode::<4>((x as i128 + 0x8000_0000) as u128))
}

pub fn decode_i32(e: FixedSizeEmbedding<i32, 4>) -> (r: i32)
    ensures
        r == signed_value(e@),
{
    let v = be_decode::<4>(e.data());
    proof {
        lemma_be_value_bound(e@);
        lemma_pow256_values();
    }
    (v as i128 - 0x8000_0000) as i32
}

impl FixedSize for i64 {
    type T = FixedSizeEmbedding<i64, 8>;
}

pub fn encode_i64(x: i64) -> (r: FixedSizeEmbedding<i64, 8>)
    ensures
        r@ == signed_embedding(x as int, 8),
{
    proof {
        lemma_pow256_values();
    }
    FixedSizeEmbedding::new(be_encode::<8>((x as i128 + 0x8000_0000_0000_0000) as u128))
}

pub fn decode_i64(e: FixedSizeEmbedding<i64, 8>) -> (r: i64)
    ensures
        r == signed_value(e@),
{
    let v = be_decode::<8>(e.data());
    proof {
        lemma_be_value_bound(e@);
        lemma_pow256_values();
    }
    (v as i128 - 0x8000_0000_0000_0000) as i64
}

impl FixedSize for i128 {
    type T = FixedSizeEmbedding<i128, 16>;
}

pub fn encode_i128(x: i128) -> (r: FixedSizeEmbedding<i128, 16>)
    ensures
        r@ == signed_embedding(x as int, 16),
{
    proof {
        lemma_pow256_values();
    }
    let shifted: u128 = if x < 0 {
        (x + i128::MAX + 1) as u128
    } else {
        x as u128 + 0x8000_0000_0000_0000_0000_0000_0000_0000
    };
    FixedSizeEmbedding::new(be_encode::<16>(shifted))
}

pub fn decode_i128(e: FixedSizeEmbedding<i128, 16>) -> (r: i128)
    ensures
        r == signed_value(e@),
{
    let v = be_decode::<16>(e.data());
    proof {
        lemma_be_value_bound(e@);
        lemma_pow256_values();
    }
    if v >= 0x8000_0000_0000_0000_0000_0000_0000_0000 {
        (v - 0x8000_0000_0000_0000_0000_0000_0000_0000) as i128
    } else {
        v as i128 - i128::MAX - 1
    }
}

/// The unsigned key of an `n`-byte IEEE-754 bit pattern: a negative pattern
/// (sign bit set) is complemented, a non-negative one gets its sign bit set.
pub open spec fn float_key(bits: nat, n: nat) -> nat {
    if bits >= pow256(n) / 2 {
        (pow256(n) - 1 - bits) as nat
    } else {
        bits + pow256(n) / 2
    }
}

/// The bit pattern that an `n`-byte key stands for.
pub open spec fn float_bits(key: nat, n: nat) -> nat {
    if key >= pow256(n) / 2 {
        (key - pow256(n) / 2) as nat
    } else {
        (pow256(n) - 1 - key) as nat
    }
}

/// The embedding of a floating-point value of `n` bytes, given its bit pattern.
pub open spec fn float_embedding(bits: nat, n: nat) -> Seq<u8> {
    be_bytes(float_key(bits, n), n)
}

/// An IEEE-754 32-bit floating-point value, held as its bit pattern.
#[derive(Debug, Clone, Copy, PartialEq, Eq, Structural)]
pub struct TotalF32 {
    pub bits: u32,
}

impl FixedSize for TotalF32 {
    type T = FixedSizeEmbedding<TotalF32, 4>;
}

/// Complements all bits but the sign bit of a negative pattern (sign bit set)
/// and leaves the others alone: the arithmetic shift of the sign bit, shifted
/// right once more, is the mask. Applying it twice gives the pattern back.
fn flip_f32_bits(i: u32) -> (r: u32)
    ensures
        r == if i >= 0x8000_0000u32 {
            i ^ 0x7FFF_FFFFu32
        } else {
            i
        },
{
    assert(i >> 31 <= 1) by (bit_vector);
    let r = i ^ (((i >> 31) * 0xFFFF_FFFFu32) >> 1);
    assert(i ^ ((((i >> 31) * 0xFFFF_FFFFu32) as u32) >> 1) == if i >= 0x8000_0000u32 {
        i ^ 0x7FFF_FFFFu32
    } else {
        i
    }) by (bit_vector);
    r
}

pub fn encode_f32_bits(x: TotalF32) -> (r: FixedSizeEmbedding<TotalF32, 4>)
    ensures
        r@ == float_embedding(x.bits as nat, 4),
{
    let i = x.bits;
    let key = flip_f32_bits(i) ^ 0x8000_0000u32;
    proof {
        lemma_pow256_values();
        if i >= 0x8000_0000u32 {
            assert((i ^ 0x7FFF_FFFFu32) ^ 0x8000_0000u32 == 0xFFFF_FFFFu32 - i) by (bit_vector)
                requires
                    i >= 0x8000_0000u32,
            ;
        } else {
            assert(i ^ 0x8000_0000u32 == i + 0x8000_0000u32) by (bit_vector)
                requires
                    i < 0x8000_0000u32,
            ;
        }
    }
    FixedSizeEmbedding::new(be_encode::<4>(key as u128))
}

pub fn decode_f32_bits(e: FixedSizeEmbedding<TotalF32, 4>) -> (r: TotalF32)
    ensures
        r.bits == float_bits(be_value(e@), 4),
{
    let v = be_decode::<4>(e.data());
    proof {
        lemma_be_value_bound(e@);
        lemma_pow256_values();
    }
    let key = v as u32;
    let bits = flip_f32_bits(key ^ 0x8000_0000u32);
    proof {
        if key >= 0x8000_0000u32 {
            assert(key ^ 0x8000_0000u32 == key - 0x8000_0000u32) by (bit_vector)
                requires
                    key >= 0x8000_0000u32,
            ;
        } else {
            assert(key ^ 0x8000_0000u32 >= 0x8000_0000u32 && (key ^ 0x8000_0000u32) ^ 0x7FFF_FFFFu32 == 0xFFFF_FFFFu32 - key) by (bit_vector)
                requires
                    key < 0x8000_0000u32,
            ;
        }
    }
    TotalF32 { bits }
}

/// An IEEE-754 64-bit floating-point value, held as its bit pattern.
#[derive(Debug, Clone, Copy, PartialEq, Eq, Structural)]
pub struct TotalF64 {
    pub bits: u64,
}

impl FixedSize for TotalF64 {
    type T = FixedSizeEmbedding<TotalF64, 8>;
}

/// Complements all bits but the sign bit of a negative pattern (sign bit set)
/// and leaves the others alone: the arithmetic shift of the sign bit, shifted
/// right once more, is the mask. Applying it twice gives the pattern back.
fn flip_f64_bits(i: u64) -> (r: u64)
    ensures
        r == if i >= 0x8000_0000_0000_0000u64 {
            i ^ 0x7FFF_FFFF_FFFF_FFFFu64
        } else {
            i
        },
{
    assert(i >> 63 <= 1) by (bit_vector);
    let r = i ^ (((i >> 63) * 0xFFFF_FFFF_FFFF_FFFFu64) >> 1);
    assert(i ^ ((((i >> 63) * 0xFFFF_FFFF_FFFF_FFFFu64) as u64) >> 1) == if i >= 0x8000_0000_0000_0000u64 {
        i ^ 0x7FFF_FFFF_FFFF_FFFFu64
    } else {
        i
    }) by (bit_vector);
    r
}

pub fn encode_f64_bits(x: TotalF64) -> (r: FixedSizeEmbedding<TotalF64, 8>)
    ensures
        r@ == float_embedding(x.bits as nat, 8),
{
    let i = x.bits;
    let key = flip_f64_bits(i) ^ 0x8000_0000_0000_0000u64;
    proof {
        lemma_pow256_values();
        if i >= 0x8000_0000_0000_0000u64 {
            assert((i ^ 0x7FFF_FFFF_FFFF_FFFFu64) ^ 0x8000_0000_0000_0000u64 == 0xFFFF_FFFF_FFFF_FFFFu64 - i) by (bit_vector)
                requires
                    i >= 0x8000_0000_0000_0000u64,
            ;
        } else {
            assert(i ^ 0x8000_0000_0000_0000u64 == i + 0x8000_0000_0000_0000u64) by (bit_vector)
                requires
                    i < 0x8000_0000_0000_0000u64,
            ;
        }
    }
    FixedSizeEmbedding::new(be_encode::<8>(key as u128))
}

pub fn decode_f64_bits(e: FixedSizeEmbedding<TotalF64, 8>) -> (r: TotalF64)
    ensures
        r.bits == float_bits(be_value(e@), 8),
{
    let v = be_decode::<8>(e.data());
    proof {
        lemma_be_value_bound(e@);
        lemma_pow256_values();
    }
    let key = v as u64;
    let bits = flip_f64_bits(key ^ 0x8000_0000_0000_0000u64);
    proof {
        if key >= 0x8000_0000_0000_0000u64 {
            assert(key ^ 0x8000_0000_0000_0000u64 == key - 0x8000_0000_0000_0000u64) by (bit_vector)
                requires
                    key >= 0x8000_0000_0000_0000u64,
            ;
        } else {
            assert(key ^ 0x8000_0000_0000_0000u64 >= 0x8000_0000_0000_0000u64 && (key ^ 0x8000_0000_0000_0000u64) ^ 0x7FFF_FFFF_FFFF_FFFFu64 == 0xFFFF_FFFF_FFFF_FFFFu64 - key) by (bit_vector)
                requires
                    key < 0x8000_0000_0000_0000u64,
            ;
        }
    }
    TotalF64 { bits }
}

/// Relies on `char::from_u32`: it returns a character exactly when `u` is a
/// Unicode scalar value, and that character's code point is `u`.
#[verifier::external_body]
fn char_from_u32(u: u32) -> (r: Option<char>)
    ensures
        r is Some <==> is_scalar(u),
        r is Some ==> r->Some_0 as u32 == u,
{
    char::from_u32(u)
}

impl FixedSize for char {
    type T = FixedSizeEmbedding<char, 4>;
}

pub fn encode_char(c: char) -> (r: FixedSizeEmbedding<char, 4>)
    ensures
        r@ == char_embedding(c),
{
    FixedSizeEmbedding::new(be_encode::<4>(c as u32 as u128))
}

/// Fails with `InvalidScalarValue` where the four bytes are no Unicode scalar value.
pub fn decode_char(e: FixedSizeEmbedding<char, 4>) -> (r: Result<char, DecodeError>)
    ensures
        be_value(e@) < pow256(4),
        is_scalar(be_value(e@) as u32) ==> r is Ok && r->Ok_0 as u32 == be_value(e@),
        !is_scalar(be_value(e@) as u32) ==> r == Err::<char, DecodeError>(
            DecodeError::InvalidScalarValue,
        ),
{
    let v = be_decode::<4>(e.data());
    proof {
        lemma_be_value_bound(e@);
        lemma_pow256_values();
    }
    match char_from_u32(v as u32) {
        Some(c) => Ok(c),
        None => Err(DecodeError::InvalidScalarValue),
    }
}

/// Relies on `String::from_utf8`: it succeeds exactly on valid UTF-8, and the
/// string then holds the characters that the bytes encode.
#[verifier::external_body]
fn string_from_utf8(v: Vec<u8>) -> (r: Option<String>)
    ensures
        r is Some <==> valid_utf8(v@),
        r is Some ==> r->Some_0@ == decode_utf8(v@),
{
    String::from_utf8(v).ok()
}

impl VariableSize for String {
    /// A string's payload is its UTF-8 bytes.
    open spec fn field_payload(v: &String) -> Seq<u8> {
        encode_utf8(v@)
    }

    open spec fn payload_error(p: Seq<u8>) -> Option<DecodeError> {
        if valid_utf8(p) {
            None
        } else {
            Some(DecodeError::InvalidScalarValue)
        }
    }

    fn to_field_payload(&self) -> (r: Vec<u8>) {
        self.as_str().as_bytes_vec()
    }

    fn from_field_payload(p: Vec<u8>) -> (r: Result<String, DecodeError>) {
        proof {
            if valid_utf8(p@) {
                decode_utf8_encode_utf8(p@);
            }
        }
        match string_from_utf8(p) {
            Some(s) => Ok(s),
            None => Err(DecodeError::InvalidScalarValue),
        }
    }

    proof fn lemma_payload_reads_back(v: &String) {
        encode_utf8_valid_utf8(v@);
    }
}

/// Why `p` is no payload of a pair: the first field, read as an `A`, then the
/// second, read as a `B`, and nothing may follow it.
pub open spec fn pair_payload_error<A: VariableSize, B: VariableSize>(p: Seq<u8>) -> Option<
    DecodeError,
> {
    match unframe(p) {
        Err(e) => Some(e),
        Ok((q, n)) => match A::payload_error(q) {
            Some(e) => Some(e),
            None => {
                let rest = p.subrange(n as int, p.len() as int);
                match unframe(rest) {
                    Err(e) => Some(e),
                    Ok((q2, m)) => match B::payload_error(q2) {
                        Some(e) => Some(e),
                        None => if m < rest.len() {
                            Some(DecodeError::TrailingData)
                        } else {
                            None
                        },
                    },
                }
            },
        },
    }
}

impl<A: VariableSize, B: VariableSize> VariableSize for (A, B) {
    /// A pair's payload is the payload of each member as a field of its own.
    open spec fn field_payload(v: &(A, B)) -> Seq<u8> {
        frame(A::field_payload(&v.0)) + frame(B::field_payload(&v.1))
    }

    open spec fn payload_error(p: Seq<u8>) -> Option<DecodeError> {
        pair_payload_error::<A, B>(p)
    }

    fn to_field_payload(&self) -> (r: Vec<u8>) {
        let mut encoder: VariableSizeEmbeddingEncoder<(A, B)> =
            VariableSizeEmbeddingEncoder::default();
        encoder.push_variable(VariableSizeEmbedding::<A>::new(self.0.to_field_payload()));
        encoder.push_variable(VariableSizeEmbedding::<B>::new(self.1.to_field_payload()));
        let r = encoder.finalize().into_data();
        assert(r@ =~= Self::field_payload(self));
        r
    }

    fn from_field_payload(p: Vec<u8>) -> (r: Result<(A, B), DecodeError>) {
        let ghost s = p@;
        let mut decoder = VariableSizeEmbeddingDecoder::<(A, B)>::new(VariableSizeEmbedding::new(p));
        let first = match decoder.read_variable::<A>() {
            Ok(field) => match A::from_field_payload(field.into_data()) {
                Ok(v) => v,
                Err(err) => {
                    return Err(err);
                },
            },
            Err(err) => {
                return Err(err);
            },
        };
        let ghost rest = decoder@;
        let second = match decoder.read_variable::<B>() {
            Ok(field) => match B::from_field_payload(field.into_data()) {
                Ok(v) => v,
                Err(err) => {
                    return Err(err);
                },
            },
            Err(err) => {
                return Err(err);
            },
        };
        proof {
            lemma_unframe_prefix(s);
            lemma_unframe_prefix(rest);
            let n = unframe(s)->Ok_0.1;
            let m = unframe(rest)->Ok_0.1;
            if m == rest.len() {
                assert(s =~= s.take(n as int) + rest.take(m as int));
            }
        }
        match decoder.finalize() {
            Ok(()) => Ok((first, second)),
            Err(err) => Err(err),
        }
    }

    proof fn lemma_payload_reads_back(v: &(A, B)) {
        let p = A::field_payload(&v.0);
        let q = B::field_payload(&v.1);
        A::lemma_payload_reads_back(&v.0);
        B::lemma_payload_reads_back(&v.1);
        let s = frame(p) + frame(q);
        lemma_unframe_frame(p, frame(q));
        assert(s.subrange(frame(p).len() as int, s.len() as int) =~= frame(q));
        lemma_unframe_frame(q, seq![]);
        assert(frame(q) + seq![] =~= frame(q));
    }
}

/// The embedding of a string: its UTF-8 bytes as one field.
pub open spec fn string_embedding(s: Seq<char>) -> Seq<u8> {
    frame(encode_utf8(s))
}

/// A field payload read as a string.
pub open spec fn utf8_payload(p: Seq<u8>) -> Result<Seq<char>, DecodeError> {
    if valid_utf8(p) {
        Ok(decode_utf8(p))
    } else {
        Err(DecodeError::InvalidScalarValue)
    }
}

/// What decoding `s` as a string gives: one field, valid UTF-8, nothing after it.
pub open spec fn string_decoding(s: Seq<u8>) -> Result<Seq<char>, DecodeError> {
    match unframe(s) {
        Err(e) => Err(e),
        Ok((p, n)) => if n < s.len() {
            Err(DecodeError::TrailingData)
        } else {
            utf8_payload(p)
        },
    }
}

pub fn encode_string(s: String) -> (r: VariableSizeEmbedding<String>)
    ensures
        r@ == string_embedding(s@),
{
    let mut encoder: VariableSizeEmbeddingEncoder<String> = VariableSizeEmbeddingEncoder::default();
    encoder.push_variable(VariableSizeEmbedding::<String>::new(s.to_field_payload()));
    let r = encoder.finalize();
    assert(r@ =~= string_embedding(s@));
    r
}

pub fn decode_string(e: VariableSizeEmbedding<String>) -> (r: Result<String, DecodeError>)
    ensures
        match string_decoding(e@) {
            Ok(cs) => r is Ok && r->Ok_0@ == cs,
            Err(err) => r == Err::<String, DecodeError>(err),
        },
{
    let mut decoder = VariableSizeEmbeddingDecoder::new(e);
    let field = match decoder.read_variable::<String>() {
        Ok(field) => field,
        Err(err) => {
            return Err(err);
        },
    };
    match decoder.finalize() {
        Ok(()) => {
            let r = String::from_field_payload(field.into_data());
            proof {
                if r is Ok {
                    encode_utf8_decode_utf8(r->Ok_0@);
                }
            }
            r
        },
        Err(err) => Err(err),
    }
}

/// The embedding of a pair: the payload of each member as a field of its own.
pub fn encode_pair<A: VariableSize, B: VariableSize>(value: (A, B)) -> (r: VariableSizeEmbedding<
    (A, B),
>)
    ensures
        r@ == <(A, B)>::field_payload(&value),
{
    VariableSizeEmbedding::new(value.to_field_payload())
}

/// Reads a pair back: each field as a member, in order, with nothing after the second.
pub fn decode_pair<A: VariableSize, B: VariableSize>(e: VariableSizeEmbedding<(A, B)>) -> (r: Result<
    (A, B),
    DecodeError,
>)
    ensures
        match <(A, B)>::payload_error(e@) {
            Some(err) => r == Err::<(A, B), DecodeError>(err),
            None => r is Ok && <(A, B)>::field_payload(&r->Ok_0) == e@,
        },
{
    <(A, B)>::from_field_payload(e.into_data())
}

} // verus!
