//! What holds of every value: decoding undoes encoding, embeddings sort as
//! their values do, fixed-width embeddings have their width, and escaped
//! fields are well formed.
use crate::escape::{
    frame, lemma_frame_order, lemma_frame_well_escaped, lemma_unframe_frame,
    lemma_well_escaped_append, well_escaped,
};
use crate::implementations::{
    bool_embedding, char_embedding, float_bits, float_embedding, float_key, signed_embedding, signed_value, string_decoding,
    string_embedding,
};
use crate::interface::{DecodeError, VariableSize};
use crate::order::{
    be_bytes, be_value, lemma_be_bytes_len, lemma_be_bytes_of_value, lemma_be_bytes_order,
    lemma_be_value_bound, lemma_be_value_front, lemma_be_value_of_bytes,
    lemma_lex_asymmetric, lemma_lex_common_prefix, lemma_lex_irreflexive, lemma_lex_total, lex_lt,
    pow256,
};
use vstd::prelude::*;
use vstd::utf8::{
    char_is_scalar, char_u32_cast, encode_utf8, encode_utf8_decode_utf8,
    encode_utf8_valid_utf8, is_scalar,
};

verus! {

/// The order of strings: Rust compares strings by their UTF-8 bytes.
pub open spec fn string_lt(a: Seq<char>, b: Seq<char>) -> bool {
    lex_lt(encode_utf8(a), encode_utf8(b))
}

/// A boolean reads back as itself.
pub proof fn law_bool_round_trip(b: bool)
    ensures
        (bool_embedding(b)[0] != 0) == b,
{
}

/// `false` sorts before `true`, and only equal booleans have equal embeddings.
pub proof fn law_bool_order(a: bool, b: bool)
    ensures
        lex_lt(bool_embedding(a), bool_embedding(b)) == (!a && b),
        (bool_embedding(a) == bool_embedding(b)) == (a == b),
{
    let (x, y) = (bool_embedding(a), bool_embedding(b));
    assert(x.drop_first() =~= seq![]);
    assert(y.drop_first() =~= seq![]);
    lemma_lex_irreflexive(seq![]);
    if x == y {
        assert(x[0] == y[0]);
    }
}

/// An unsigned integer of `8 * n` bits reads back from its `n` bytes.
pub proof fn law_unsigned_round_trip(v: nat, n: nat)
    requires
        v < pow256(n),
    ensures
        be_value(be_bytes(v, n)) == v,
{
    lemma_be_value_of_bytes(v, n);
}

/// Unsigned integers of one width sort as their embeddings do.
pub proof fn law_unsigned_order(v1: nat, v2: nat, n: nat)
    requires
        v1 < pow256(n),
        v2 < pow256(n),
    ensures
        (v1 < v2) == lex_lt(be_bytes(v1, n), be_bytes(v2, n)),
        (v1 == v2) == (be_bytes(v1, n) == be_bytes(v2, n)),
{
    lemma_be_bytes_order(v1, v2, n);
}

/// The range of a signed integer of `8 * n` bits.
pub open spec fn signed_in_range(x: int, n: nat) -> bool {
    -(pow256(n) / 2) <= x < pow256(n) / 2
}

/// A signed integer reads back from its `n` bytes.
pub proof fn law_signed_round_trip(x: int, n: nat)
    requires
        n > 0,
        signed_in_range(x, n),
    ensures
        signed_value(signed_embedding(x, n)) == x,
{
    let v = (x + pow256(n) / 2) as nat;
    assert(pow256(n) == 256 * pow256((n - 1) as nat));
    lemma_be_value_of_bytes(v, n);
    lemma_be_bytes_len(v, n);
}

/// The `n`-byte two's-complement form of `x`, most significant byte first.
pub open spec fn twos_complement_bytes(x: int, n: nat) -> Seq<u8> {
    be_bytes((if x >= 0 { x } else { x + pow256(n) }) as nat, n)
}

/// A signed embedding is the two's-complement form with the top bit of its
/// first byte flipped.
pub proof fn law_signed_flips_top_bit(x: int, n: nat)
    requires
        n > 0,
        signed_in_range(x, n),
    ensures
        signed_embedding(x, n) == twos_complement_bytes(x, n).update(
            0,
            twos_complement_bytes(x, n)[0] ^ 0x80u8,
        ),
{
    let p = pow256((n - 1) as nat);
    assert(pow256(n) == 256 * p);
    let tv = (if x >= 0 { x } else { x + pow256(n) }) as nat;
    let t = twos_complement_bytes(x, n);
    lemma_be_bytes_len(tv, n);
    lemma_be_value_of_bytes(tv, n);
    let u = t.update(0, t[0] ^ 0x80u8);
    lemma_be_value_front(t);
    lemma_be_value_front(u);
    assert(u.drop_first() =~= t.drop_first());
    lemma_be_value_bound(t.drop_first());
    let rest = be_value(t.drop_first());
    let b = t[0];
    assert(tv == b * p + rest);
    if x >= 0 {
        assert(b < 128) by (nonlinear_arith)
            requires
                tv == b * p + rest,
                tv < 128 * p,
                rest >= 0,
        ;
        assert(b ^ 0x80u8 == b + 128) by (bit_vector)
            requires
                b < 128,
        ;
        assert(be_value(u) == tv + 128 * p) by (nonlinear_arith)
            requires
                be_value(u) == (b + 128) * p + rest,
                tv == b * p + rest,
        ;
    } else {
        assert(b >= 128) by (nonlinear_arith)
            requires
                tv == b * p + rest,
                tv >= 128 * p,
                rest < p,
        ;
        assert(b ^ 0x80u8 == b - 128) by (bit_vector)
            requires
                b >= 128,
        ;
        assert(be_value(u) == tv - 128 * p) by (nonlinear_arith)
            requires
                be_value(u) == (b - 128) * p + rest,
                tv == b * p + rest,
        ;
    }
    lemma_be_bytes_of_value(u);
}

/// Signed integers of one width sort as their embeddings do.
pub proof fn law_signed_order(x: int, y: int, n: nat)
    requires
        n > 0,
        signed_in_range(x, n),
        signed_in_range(y, n),
    ensures
        (x < y) == lex_lt(signed_embedding(x, n), signed_embedding(y, n)),
        (x == y) == (signed_embedding(x, n) == signed_embedding(y, n)),
{
    assert(pow256(n) == 256 * pow256((n - 1) as nat));
    lemma_be_bytes_order((x + pow256(n) / 2) as nat, (y + pow256(n) / 2) as nat, n);
}

/// A character reads back as itself: its four bytes stand for a scalar value,
/// and it is the one character with that code point.
pub proof fn law_char_round_trip(c: char, d: char)
    ensures
        be_value(char_embedding(c)) == c as u32,
        is_scalar(be_value(char_embedding(c)) as u32),
        d as u32 == be_value(char_embedding(c)) ==> d == c,
{
    assert(pow256(4) == 0x1_0000_0000) by {
        reveal_with_fuel(pow256, 5);
    }
    lemma_be_value_of_bytes(c as u32 as nat, 4);
    char_is_scalar(c);
    char_u32_cast(c, c as u32);
    char_u32_cast(d, d as u32);
}

/// Characters sort by code point, as their embeddings do.
pub proof fn law_char_order(c: char, d: char)
    ensures
        ((c as u32) < (d as u32)) == lex_lt(char_embedding(c), char_embedding(d)),
        (c == d) == (char_embedding(c) == char_embedding(d)),
{
    assert(pow256(4) == 0x1_0000_0000) by {
        reveal_with_fuel(pow256, 5);
    }
    lemma_be_bytes_order(c as u32 as nat, d as u32 as nat, 4);
    char_u32_cast(c, c as u32);
    char_u32_cast(d, d as u32);
}

/// IEEE-754 total order on `n`-byte bit patterns: a pattern with the sign bit
/// set is negative, a larger magnitude sorts lower among negatives and higher
/// among the others, and negative zero sorts just before positive zero.
pub open spec fn float_total_lt(a: nat, b: nat, n: nat) -> bool {
    let half = pow256(n) / 2;
    if a >= half && b >= half {
        b < a
    } else if a >= half {
        true
    } else if b >= half {
        false
    } else {
        a < b
    }
}

/// A floating-point bit pattern reads back from its `n` bytes.
pub proof fn law_float_round_trip(bits: nat, n: nat)
    requires
        n > 0,
        bits < pow256(n),
    ensures
        float_bits(be_value(float_embedding(bits, n)), n) == bits,
{
    assert(pow256(n) == 256 * pow256((n - 1) as nat));
    lemma_be_value_of_bytes(float_key(bits, n), n);
}

/// Floating-point bit patterns of one width sort in IEEE-754 total order, as
/// their embeddings do.
pub proof fn law_float_order(a: nat, b: nat, n: nat)
    requires
        n > 0,
        a < pow256(n),
        b < pow256(n),
    ensures
        float_total_lt(a, b, n) == lex_lt(float_embedding(a, n), float_embedding(b, n)),
        (a == b) == (float_embedding(a, n) == float_embedding(b, n)),
{
    assert(pow256(n) == 256 * pow256((n - 1) as nat));
    lemma_be_bytes_order(float_key(a, n), float_key(b, n), n);
}

/// Every fixed-width embedding has its type's width.
pub proof fn law_fixed_width(b: bool, v: nat, x: int, c: char, n: nat)
    ensures
        float_embedding(v, n).len() == n,
        bool_embedding(b).len() == 1,
        be_bytes(v, n).len() == n,
        signed_embedding(x, n).len() == n,
        char_embedding(c).len() == 4,
{
    lemma_be_bytes_len(v, n);
    lemma_be_bytes_len(float_key(v, n), n);
    lemma_be_bytes_len((x + pow256(n) / 2) as nat, n);
    lemma_be_bytes_len(c as u32 as nat, 4);
}

/// Two fields compare as their payloads do.
pub proof fn law_frame_order(p: Seq<u8>, q: Seq<u8>)
    ensures
        lex_lt(frame(p), frame(q)) == lex_lt(p, q),
        (frame(p) == frame(q)) == (p == q),
{
    assert(frame(p) + seq![] =~= frame(p));
    assert(frame(q) + seq![] =~= frame(q));
    if p != q {
        lemma_frame_order(p, seq![], q, seq![]);
        lemma_frame_order(q, seq![], p, seq![]);
        lemma_lex_total(p, q);
        lemma_lex_asymmetric(p, q);
        if frame(p) == frame(q) {
            lemma_lex_irreflexive(frame(p));
        }
    } else {
        lemma_lex_irreflexive(p);
        lemma_lex_irreflexive(frame(p));
    }
}

/// A payload that is a strict prefix of another sorts before it as a field.
pub proof fn law_prefix_order(p: Seq<u8>, q: Seq<u8>)
    requires
        p.len() < q.len(),
        p == q.take(p.len() as int),
    ensures
        lex_lt(frame(p), frame(q)),
{
    lemma_prefix_lt(p, q);
    law_frame_order(p, q);
}

proof fn lemma_prefix_lt(p: Seq<u8>, q: Seq<u8>)
    requires
        p.len() < q.len(),
        p == q.take(p.len() as int),
    ensures
        lex_lt(p, q),
    decreases p.len(),
{
    if p.len() > 0 {
        assert(p[0] == q[0]);
        assert(p.drop_first() =~= q.drop_first().take(p.len() - 1));
        lemma_prefix_lt(p.drop_first(), q.drop_first());
    }
}

/// A string reads back as itself.
pub proof fn law_string_round_trip(s: Seq<char>)
    ensures
        string_decoding(string_embedding(s)) == Ok::<Seq<char>, DecodeError>(s),
{
    let p = encode_utf8(s);
    lemma_unframe_frame(p, seq![]);
    assert(frame(p) + seq![] =~= frame(p));
    encode_utf8_valid_utf8(s);
    encode_utf8_decode_utf8(s);
}

/// Strings sort as their embeddings do.
pub proof fn law_string_order(s: Seq<char>, t: Seq<char>)
    ensures
        string_lt(s, t) == lex_lt(string_embedding(s), string_embedding(t)),
        (s == t) == (string_embedding(s) == string_embedding(t)),
{
    law_frame_order(encode_utf8(s), encode_utf8(t));
    encode_utf8_decode_utf8(s);
    encode_utf8_decode_utf8(t);
}

/// A pair's payload is the field of its first member, then that of its second.
pub open spec fn pair_payload<A: VariableSize, B: VariableSize>(v: (A, B)) -> Seq<u8> {
    <(A, B)>::field_payload(&v)
}

/// A pair reads back: its payload decodes, and a pair with the same payload
/// has members with the same payloads.
pub proof fn law_pair_round_trip<A: VariableSize, B: VariableSize>(v: (A, B), w: (A, B))
    ensures
        <(A, B)>::payload_error(pair_payload(v)) is None,
        pair_payload(w) == pair_payload(v) ==> A::field_payload(&w.0) == A::field_payload(&v.0)
            && B::field_payload(&w.1) == B::field_payload(&v.1),
{
    <(A, B)>::lemma_payload_reads_back(&v);
    let (p1, q1) = (A::field_payload(&v.0), B::field_payload(&v.1));
    let (p2, q2) = (A::field_payload(&w.0), B::field_payload(&w.1));
    if pair_payload(w) == pair_payload(v) {
        lemma_unframe_frame(p1, frame(q1));
        lemma_unframe_frame(p2, frame(q2));
        let s = pair_payload(v);
        assert(s.subrange(frame(p1).len() as int, s.len() as int) =~= frame(q1));
        assert(s.subrange(frame(p2).len() as int, s.len() as int) =~= frame(q2));
        law_frame_order(q1, q2);
    }
}

/// Pairs sort lexicographically: by the first member's payload, then by the second's.
pub proof fn law_pair_order<A: VariableSize, B: VariableSize>(x: (A, B), y: (A, B))
    ensures
        lex_lt(pair_payload(x), pair_payload(y)) == (lex_lt(
            A::field_payload(&x.0),
            A::field_payload(&y.0),
        ) || (A::field_payload(&x.0) == A::field_payload(&y.0) && lex_lt(
            B::field_payload(&x.1),
            B::field_payload(&y.1),
        ))),
{
    let (p1, q1) = (A::field_payload(&x.0), B::field_payload(&x.1));
    let (p2, q2) = (A::field_payload(&y.0), B::field_payload(&y.1));
    if p1 != p2 {
        lemma_frame_order(p1, frame(q1), p2, frame(q2));
    } else {
        lemma_lex_irreflexive(p1);
        lemma_lex_common_prefix(frame(p1), frame(q1), frame(q2));
        law_frame_order(q1, q2);
    }
}

/// A pair of strings reads back as itself.
pub proof fn law_string_pair_round_trip(v: (String, String), w: (String, String))
    ensures
        <(String, String)>::payload_error(pair_payload(v)) is None,
        pair_payload(w) == pair_payload(v) ==> w.0@ == v.0@ && w.1@ == v.1@,
{
    law_pair_round_trip(v, w);
    encode_utf8_decode_utf8(v.0@);
    encode_utf8_decode_utf8(v.1@);
    encode_utf8_decode_utf8(w.0@);
    encode_utf8_decode_utf8(w.1@);
}

/// Pairs of strings sort lexicographically: by the first string, then by the second.
pub proof fn law_string_pair_order(x: (String, String), y: (String, String))
    ensures
        lex_lt(pair_payload(x), pair_payload(y)) == (string_lt(x.0@, y.0@) || (x.0@ == y.0@
            && string_lt(x.1@, y.1@))),
{
    law_pair_order(x, y);
    encode_utf8_decode_utf8(x.0@);
    encode_utf8_decode_utf8(y.0@);
}

/// In the embedding of a string or of a pair, every zero byte is followed by
/// `00` or `01`, read from the front.
pub proof fn law_well_escaped<A: VariableSize, B: VariableSize>(s: Seq<char>, v: (A, B))
    ensures
        well_escaped(string_embedding(s)),
        well_escaped(pair_payload(v)),
{
    lemma_frame_well_escaped(encode_utf8(s));
    lemma_frame_well_escaped(A::field_payload(&v.0));
    lemma_frame_well_escaped(B::field_payload(&v.1));
    lemma_well_escaped_append(frame(A::field_payload(&v.0)), frame(B::field_payload(&v.1)));
}

} // verus!
