//! Bit-packing of quantization codes.
//!
//! A code is a bin index of `b` bits, held in a byte of its own. Packing writes the
//! codes one after the other into a stream of bits, least significant bit first, and
//! fills the stream's bytes from their least significant bit up:
//!
//! ```text
//! b=4: byte[0] = code[0] | (code[1] << 4)
//! b=2: byte[0] = code[0] | (code[1] << 2) | (code[2] << 4) | (code[3] << 6)
//! b=1: byte[0] = code[0] | (code[1] << 1) | ... | (code[7] << 7)
//! b=8: byte[0] = code[0]
//! b=3: codes span byte boundaries
//! ```
//!
//! So bit `p` of the stream is bit `p % b` of code `p / b`, whatever the width is.
use vstd::arithmetic::div_mod::{
    lemma_div_is_ordered, lemma_fundamental_div_mod, lemma_fundamental_div_mod_converse,
    lemma_mod_bound, lemma_multiply_divide_lt,
};
use vstd::arithmetic::mul::{
    lemma_mul_basics, lemma_mul_inequality, lemma_mul_is_commutative,
    lemma_mul_is_distributive_add_other_way, lemma_mul_is_distributive_sub_other_way,
};
use vstd::arithmetic::power2::{lemma2_to64, lemma_pow2_strictly_increases, pow2};
use vstd::bits::lemma_u8_shl_is_mul;
use vstd::prelude::*;
use vstd::slice::{slice_subrange, slice_to_vec};

use crate::error::TurboError;

verus! {

/// Bit `t` of a byte, counted from the least significant one.
pub open spec fn byte_bit(byte: u8, t: int) -> bool {
    (byte >> (t as u8)) & 1u8 == 1u8
}

/// Bit `p` of a stream of bytes; past the last byte every bit is clear.
pub open spec fn stream_bit(bytes: Seq<u8>, p: int) -> bool {
    0 <= p < 8 * bytes.len() && byte_bit(bytes[p / 8], p % 8)
}

/// Bit `p` of the stream that the low `b` bits of each code make up.
pub open spec fn code_stream_bit(codes: Seq<u8>, b: int, p: int) -> bool {
    0 <= p < codes.len() * b && byte_bit(codes[p / b], p % b)
}

/// The byte with the given bits, the least significant one first.
pub open spec fn byte_of(
    b0: bool,
    b1: bool,
    b2: bool,
    b3: bool,
    b4: bool,
    b5: bool,
    b6: bool,
    b7: bool,
) -> u8 {
    (if b0 { 1u8 } else { 0u8 }) | (if b1 { 2u8 } else { 0u8 }) | (if b2 { 4u8 } else { 0u8 }) | (
    if b3 { 8u8 } else { 0u8 }) | (if b4 { 16u8 } else { 0u8 }) | (if b5 { 32u8 } else { 0u8 }) | (
    if b6 { 64u8 } else { 0u8 }) | (if b7 { 128u8 } else { 0u8 })
}

/// The number of bytes that hold `n` codes of `b` bits: `n * b / 8`, rounded up.
pub open spec fn packed_size(n: int, b: int) -> int {
    (n * b + 7) / 8
}

/// Byte `m` of the packed codes.
pub open spec fn packed_byte(codes: Seq<u8>, b: int, m: int) -> u8 {
    byte_of(
        code_stream_bit(codes, b, 8 * m),
        code_stream_bit(codes, b, 8 * m + 1),
        code_stream_bit(codes, b, 8 * m + 2),
        code_stream_bit(codes, b, 8 * m + 3),
        code_stream_bit(codes, b, 8 * m + 4),
        code_stream_bit(codes, b, 8 * m + 5),
        code_stream_bit(codes, b, 8 * m + 6),
        code_stream_bit(codes, b, 8 * m + 7),
    )
}

/// The packed codes: the bytes of the code stream, the last one filled up with clear bits.
pub open spec fn packed_codes(codes: Seq<u8>, b: int) -> Seq<u8> {
    Seq::new(packed_size(codes.len() as int, b) as nat, |m: int| packed_byte(codes, b, m))
}

/// Code `i` of a packed stream: the `b` bits from bit `i * b` on.
pub open spec fn unpacked_code(packed: Seq<u8>, b: int, i: int) -> u8 {
    byte_of(
        0 < b && stream_bit(packed, i * b),
        1 < b && stream_bit(packed, i * b + 1),
        2 < b && stream_bit(packed, i * b + 2),
        3 < b && stream_bit(packed, i * b + 3),
        4 < b && stream_bit(packed, i * b + 4),
        5 < b && stream_bit(packed, i * b + 5),
        6 < b && stream_bit(packed, i * b + 6),
        7 < b && stream_bit(packed, i * b + 7),
    )
}

/// The first `dim` codes of a packed stream.
pub open spec fn unpacked_codes(packed: Seq<u8>, dim: nat, b: int) -> Seq<u8> {
    Seq::new(dim, |i: int| unpacked_code(packed, b, i))
}

/// Whether the byte in which the last of `dim` codes starts is there.
pub open spec fn holds_codes(packed: Seq<u8>, dim: int, b: int) -> bool {
    dim == 0 || (dim - 1) * b / 8 < packed.len()
}

// --- Facts about bits ---

proof fn lemma_bit_of_or_left(old_byte: u8, code: u8, s: u8, t: u8)
    by (bit_vector)
    requires
        s < 8,
        t < 8,
    ensures
        ((old_byte | (code << s)) >> t) & 1u8 == 1u8 <==> ((old_byte >> t) & 1u8 == 1u8 || (s <= t
            && (code >> ((t - s) as u8)) & 1u8 == 1u8)),
{
}

proof fn lemma_bit_of_or_right(old_byte: u8, code: u8, s: u8, t: u8)
    by (bit_vector)
    requires
        s < 8,
        t < 8,
    ensures
        ((old_byte | (code >> s)) >> t) & 1u8 == 1u8 <==> ((old_byte >> t) & 1u8 == 1u8 || (t + s
            < 8 && (code >> ((t + s) as u8)) & 1u8 == 1u8)),
{
}

proof fn lemma_bit_of_mask(code: u8, b: u8, t: u8)
    by (bit_vector)
    requires
        b < 8,
        t < 8,
    ensures
        ((code & (((1u8 << b) - 1) as u8)) >> t) & 1u8 == 1u8 <==> (t < b && (code >> t) & 1u8
            == 1u8),
        (1u8 << b) >= 1,
{
}

proof fn lemma_bytes_equal_by_bits(x: u8, y: u8)
    requires
        forall|t: int| 0 <= t < 8 ==> byte_bit(x, t) == byte_bit(y, t),
    ensures
        x == y,
{
    assert(byte_bit(x, 0) == byte_bit(y, 0));
    assert(byte_bit(x, 1) == byte_bit(y, 1));
    assert(byte_bit(x, 2) == byte_bit(y, 2));
    assert(byte_bit(x, 3) == byte_bit(y, 3));
    assert(byte_bit(x, 4) == byte_bit(y, 4));
    assert(byte_bit(x, 5) == byte_bit(y, 5));
    assert(byte_bit(x, 6) == byte_bit(y, 6));
    assert(byte_bit(x, 7) == byte_bit(y, 7));
    assert(x == y) by (bit_vector)
        requires
            ((x >> 0u8) & 1u8 == 1u8) == ((y >> 0u8) & 1u8 == 1u8),
            ((x >> 1u8) & 1u8 == 1u8) == ((y >> 1u8) & 1u8 == 1u8),
            ((x >> 2u8) & 1u8 == 1u8) == ((y >> 2u8) & 1u8 == 1u8),
            ((x >> 3u8) & 1u8 == 1u8) == ((y >> 3u8) & 1u8 == 1u8),
            ((x >> 4u8) & 1u8 == 1u8) == ((y >> 4u8) & 1u8 == 1u8),
            ((x >> 5u8) & 1u8 == 1u8) == ((y >> 5u8) & 1u8 == 1u8),
            ((x >> 6u8) & 1u8 == 1u8) == ((y >> 6u8) & 1u8 == 1u8),
            ((x >> 7u8) & 1u8 == 1u8) == ((y >> 7u8) & 1u8 == 1u8),
    ;
}

proof fn lemma_bits_of_byte_of(
    b0: bool,
    b1: bool,
    b2: bool,
    b3: bool,
    b4: bool,
    b5: bool,
    b6: bool,
    b7: bool,
)
    ensures
        byte_bit(byte_of(b0, b1, b2, b3, b4, b5, b6, b7), 0) == b0,
        byte_bit(byte_of(b0, b1, b2, b3, b4, b5, b6, b7), 1) == b1,
        byte_bit(byte_of(b0, b1, b2, b3, b4, b5, b6, b7), 2) == b2,
        byte_bit(byte_of(b0, b1, b2, b3, b4, b5, b6, b7), 3) == b3,
        byte_bit(byte_of(b0, b1, b2, b3, b4, b5, b6, b7), 4) == b4,
        byte_bit(byte_of(b0, b1, b2, b3, b4, b5, b6, b7), 5) == b5,
        byte_bit(byte_of(b0, b1, b2, b3, b4, b5, b6, b7), 6) == b6,
        byte_bit(byte_of(b0, b1, b2, b3, b4, b5, b6, b7), 7) == b7,
{
    let v = byte_of(b0, b1, b2, b3, b4, b5, b6, b7);
    assert(((v >> 0u8) & 1u8 == 1u8) == b0 && ((v >> 1u8) & 1u8 == 1u8) == b1 && ((v >> 2u8) & 1u8
        == 1u8) == b2 && ((v >> 3u8) & 1u8 == 1u8) == b3 && ((v >> 4u8) & 1u8 == 1u8) == b4 && ((v
        >> 5u8) & 1u8 == 1u8) == b5 && ((v >> 6u8) & 1u8 == 1u8) == b6 && ((v >> 7u8) & 1u8 == 1u8)
        == b7) by (bit_vector)
        requires
            v == (if b0 { 1u8 } else { 0u8 }) | (if b1 { 2u8 } else { 0u8 }) | (if b2 { 4u8 } else {
                0u8
            }) | (if b3 { 8u8 } else { 0u8 }) | (if b4 { 16u8 } else { 0u8 }) | (if b5 { 32u8 } else
            {
                0u8
            }) | (if b6 { 64u8 } else { 0u8 }) | (if b7 { 128u8 } else { 0u8 }),
    ;
}

/// A byte whose bits from `b` on are clear is below `2^b`.
proof fn lemma_low_bits_bound(x: u8, b: u8)
    requires
        b < 8,
        forall|t: int| b <= t < 8 ==> !byte_bit(x, t),
    ensures
        x < 1u8 << b,
{
    assert forall|t: int| 0 <= t < 8 implies byte_bit(x & (((1u8 << b) - 1) as u8), t) == byte_bit(
        x,
        t,
    ) by {
        lemma_bit_of_mask(x, b, t as u8);
        if b <= t {
            assert(!byte_bit(x, t));
        }
    }
    lemma_bytes_equal_by_bits(x & (((1u8 << b) - 1) as u8), x);
    assert(x < 1u8 << b) by (bit_vector)
        requires
            b < 8,
            x & (((1u8 << b) - 1) as u8) == x,
    ;
}

/// Below `2^b` the bits from `b` on are clear.
proof fn lemma_bound_low_bits(x: u8, b: u8, t: u8)
    by (bit_vector)
    requires
        b <= t,
        t < 8,
        x < 1u8 << b,
    ensures
        (x >> t) & 1u8 == 0u8,
{
}

// --- From bits to bytes ---

/// Bit `p` of the packed codes is bit `p` of the code stream.
proof fn lemma_packed_codes_bit(codes: Seq<u8>, b: int, p: int)
    requires
        0 <= p < 8 * packed_codes(codes, b).len(),
    ensures
        stream_bit(packed_codes(codes, b), p) == code_stream_bit(codes, b, p),
{
    let m = p / 8;
    assert(packed_codes(codes, b)[m] == packed_byte(codes, b, m));
    lemma_bits_of_byte_of(
        code_stream_bit(codes, b, 8 * m),
        code_stream_bit(codes, b, 8 * m + 1),
        code_stream_bit(codes, b, 8 * m + 2),
        code_stream_bit(codes, b, 8 * m + 3),
        code_stream_bit(codes, b, 8 * m + 4),
        code_stream_bit(codes, b, 8 * m + 5),
        code_stream_bit(codes, b, 8 * m + 6),
        code_stream_bit(codes, b, 8 * m + 7),
    );
    let t = p % 8;
    assert(p == 8 * m + t);
    assert(t == 0 || t == 1 || t == 2 || t == 3 || t == 4 || t == 5 || t == 6 || t == 7);
}

/// A stream of the right length with the code stream's bits is the packed codes.
proof fn lemma_packed_codes_unique(codes: Seq<u8>, b: int, packed: Seq<u8>)
    requires
        packed.len() == packed_codes(codes, b).len(),
        forall|p: int|
            0 <= p < 8 * packed.len() ==> #[trigger] stream_bit(packed, p) == code_stream_bit(
                codes,
                b,
                p,
            ),
    ensures
        packed == packed_codes(codes, b),
{
    let other = packed_codes(codes, b);
    assert forall|m: int| 0 <= m < packed.len() implies packed[m] == other[m] by {
        assert forall|t: int| 0 <= t < 8 implies byte_bit(packed[m], t) == byte_bit(
            other[m],
            t,
        ) by {
            let p = 8 * m + t;
            assert(p / 8 == m && p % 8 == t);
            assert(stream_bit(packed, p) == code_stream_bit(codes, b, p));
            lemma_packed_codes_bit(codes, b, p);
        }
        lemma_bytes_equal_by_bits(packed[m], other[m]);
    }
    assert(packed =~= other);
}

/// Bit `t` of code `i` of a stream is bit `i * b + t` of the stream, and clear from `b` on.
proof fn lemma_unpacked_code_bit(packed: Seq<u8>, b: int, i: int, t: int)
    requires
        0 <= t < 8,
    ensures
        byte_bit(unpacked_code(packed, b, i), t) == (t < b && stream_bit(packed, i * b + t)),
{
    lemma_bits_of_byte_of(
        0 < b && stream_bit(packed, i * b),
        1 < b && stream_bit(packed, i * b + 1),
        2 < b && stream_bit(packed, i * b + 2),
        3 < b && stream_bit(packed, i * b + 3),
        4 < b && stream_bit(packed, i * b + 4),
        5 < b && stream_bit(packed, i * b + 5),
        6 < b && stream_bit(packed, i * b + 6),
        7 < b && stream_bit(packed, i * b + 7),
    );
    assert(t == 0 || t == 1 || t == 2 || t == 3 || t == 4 || t == 5 || t == 6 || t == 7);
}

// --- One step of packing ---

/// The first `n` codes are written and every bit behind them is clear.
spec fn packed_so_far(codes: Seq<u8>, b: int, n: int, packed: Seq<u8>) -> bool {
    forall|p: int|
        0 <= p < 8 * packed.len() ==> #[trigger] stream_bit(packed, p) == (p < n * b && byte_bit(
            codes[p / b],
            p % b,
        ))
}

/// A stream of zero bytes holds no code yet.
proof fn lemma_nothing_packed(codes: Seq<u8>, b: int, packed: Seq<u8>)
    requires
        forall|m: int| 0 <= m < packed.len() ==> packed[m] == 0,
    ensures
        packed_so_far(codes, b, 0, packed),
{
    assert forall|p: int| 0 <= p < 8 * packed.len() implies !#[trigger] stream_bit(packed, p) by {
        let t = (p % 8) as u8;
        assert((0u8 >> t) & 1u8 == 0u8) by (bit_vector);
        assert(packed[p / 8] == 0);
    }
}

/// When all codes are written the stream is the packed codes.
proof fn lemma_all_packed(codes: Seq<u8>, b: int, packed: Seq<u8>)
    requires
        packed.len() == packed_size(codes.len() as int, b),
        packed_so_far(codes, b, codes.len() as int, packed),
    ensures
        packed == packed_codes(codes, b),
{
    lemma_packed_codes_unique(codes, b, packed);
}

/// Where a position lies in the `n`-th code, it is bit `p - n * b` of it.
proof fn lemma_position_in_code(p: int, n: int, b: int)
    requires
        0 < b,
        n * b <= p < n * b + b,
    ensures
        p / b == n,
        p % b == p - n * b,
{
    lemma_fundamental_div_mod_converse(p, b, n, p - n * b);
}

/// The byte in which code `n` starts, and the one in which it ends, are in the stream.
proof fn lemma_code_in_stream(count: int, b: int, n: int)
    requires
        0 < b <= 8,
        0 <= n < count,
    ensures
        0 <= n * b,
        n * b + b <= count * b,
        n * b / 8 < packed_size(count, b),
        (n * b) % 8 + b > 8 ==> n * b / 8 + 1 < packed_size(count, b),
{
    lemma_mul_inequality(n + 1, count, b);
    lemma_mul_inequality(0, n, b);
    lemma_mul_is_distributive_add_other_way(b, n, 1);
}

/// Writing code `n` into the byte where it starts, and the bits that do not fit there
/// into the next one, extends the packed codes by one.
proof fn lemma_write_code(
    codes: Seq<u8>,
    b: int,
    n: int,
    code: u8,
    before: Seq<u8>,
    after: Seq<u8>,
)
    requires
        0 < b < 8,
        0 <= n < codes.len(),
        forall|t: int|
            0 <= t < 8 ==> #[trigger] byte_bit(code, t) == (t < b && byte_bit(codes[n], t)),
        packed_so_far(codes, b, n, before),
        0 <= n * b / 8 < before.len(),
        (n * b) % 8 + b > 8 ==> n * b / 8 + 1 < before.len(),
        after.len() == before.len(),
        after[n * b / 8] == before[n * b / 8] | (code << (((n * b) % 8) as u8)),
        (n * b) % 8 + b > 8 ==> after[n * b / 8 + 1] == before[n * b / 8 + 1] | (code >> ((8 - (n
            * b) % 8) as u8)),
        forall|m: int|
            0 <= m < before.len() && m != n * b / 8 && !((n * b) % 8 + b > 8 && m == n * b / 8 + 1)
                ==> after[m] == before[m],
    ensures
        packed_so_far(codes, b, n + 1, after),
{
    let start = n * b;
    let idx = start / 8;
    let s = start % 8;
    lemma_mul_is_distributive_add_other_way(b, n, 1);
    lemma_mul_inequality(0, n, b);
    assert((n + 1) * b == start + b);
    assert forall|p: int| 0 <= p < 8 * after.len() implies #[trigger] stream_bit(after, p) == (p < (
    n + 1) * b && byte_bit(codes[p / b], p % b)) by {
        let m = p / 8;
        let t = p % 8;
        assert(stream_bit(before, p) == (p < n * b && byte_bit(codes[p / b], p % b)));
        if m == idx {
            lemma_bit_of_or_left(before[m], code, s as u8, t as u8);
            assert(p - start == t - s);
            if s <= t {
                assert(byte_bit(code, t - s) == (t - s < b && byte_bit(codes[n], t - s)));
                assert((t as u8 - s as u8) as u8 == (t - s) as u8);
            }
        } else if s + b > 8 && m == idx + 1 {
            lemma_bit_of_or_right(before[m], code, (8 - s) as u8, t as u8);
            assert(p - start == t + 8 - s);
            if t + 8 - s < 8 {
                assert(byte_bit(code, t + 8 - s) == (t + 8 - s < b && byte_bit(
                    codes[n],
                    t + 8 - s,
                )));
                assert((t as u8 + (8 - s) as u8) as u8 == (t + 8 - s) as u8);
            }
        } else {
            assert(after[m] == before[m]);
        }
        if start <= p < start + b {
            lemma_position_in_code(p, n, b);
        }
    }
}

/// The low `b` bits of a code.
proof fn lemma_masked_code(code: u8, b: u8)
    requires
        b < 8,
    ensures
        forall|t: int|
            0 <= t < 8 ==> #[trigger] byte_bit(code & (((1u8 << b) - 1) as u8), t) == (t < b
                && byte_bit(code, t)),
{
    assert forall|t: int| 0 <= t < 8 implies #[trigger] byte_bit(
        code & (((1u8 << b) - 1) as u8),
        t,
    ) == (t < b && byte_bit(code, t)) by {
        lemma_bit_of_mask(code, b, t as u8);
    }
}

// --- One step of unpacking ---

/// Reading from the byte where code `n` starts, and from the next one where the code
/// spans two, gives the code.
proof fn lemma_read_code(packed: Seq<u8>, b: int, n: int, val: u8, code: u8)
    requires
        0 <= b < 8,
        0 <= n,
        n * b / 8 < packed.len(),
        code == val & (((1u8 << (b as u8)) - 1) as u8),
        val == packed[n * b / 8] >> (((n * b) % 8) as u8) || ((n * b) % 8 + b > 8 && n * b / 8 + 1
            < packed.len() && val == (packed[n * b / 8] >> (((n * b) % 8) as u8)) | (packed[n * b
            / 8 + 1] << ((8 - (n * b) % 8) as u8))),
        (n * b) % 8 + b > 8 && n * b / 8 + 1 < packed.len() ==> val == (packed[n * b / 8] >> (((n
            * b) % 8) as u8)) | (packed[n * b / 8 + 1] << ((8 - (n * b) % 8) as u8)),
    ensures
        code == unpacked_code(packed, b, n),
{
    let start = n * b;
    let idx = start / 8;
    let s = start % 8;
    lemma_mul_inequality(0, n, b);
    lemma_masked_code(val, b as u8);
    assert forall|t: int| 0 <= t < 8 implies byte_bit(code, t) == byte_bit(
        unpacked_code(packed, b, n),
        t,
    ) by {
        lemma_unpacked_code_bit(packed, b, n, t);
        assert(byte_bit(code, t) == (t < b && byte_bit(val, t)));
        let first = packed[idx];
        let low = first >> (s as u8);
        let position = t as u8;
        assert(0u8 | low == low && (0u8 >> position) & 1u8 == 0u8) by (bit_vector);
        lemma_bit_of_or_right(0, first, s as u8, t as u8);
        assert((t as u8 + s as u8) as u8 == (t + s) as u8);
        let p = start + t;
        if t < b {
            if t + s < 8 {
                assert(p / 8 == idx && p % 8 == t + s);
            } else {
                assert(p / 8 == idx + 1 && p % 8 == t + s - 8);
            }
            if s + b > 8 && idx + 1 < packed.len() {
                lemma_bit_of_or_left(
                    low,
                    packed[idx + 1],
                    (8 - s) as u8,
                    t as u8,
                );
                if 8 - s <= t {
                    assert((t as u8 - (8 - s) as u8) as u8 == (t + s - 8) as u8);
                }
            }
        }
    }
    lemma_bytes_equal_by_bits(code, unpacked_code(packed, b, n));
}

// --- Packing and unpacking ---

/// Returns the packed byte length for `dim` codes at `num_bits` bits each.
pub fn packed_len(dim: usize, num_bits: u32) -> (r: usize)
    requires
        dim * num_bits + 7 <= usize::MAX,
    ensures
        r == packed_size(dim as int, num_bits as int),
{
    (dim * num_bits as usize + 7) / 8
}

/// The number of groups of `size` that hold `n` items.
fn groups(n: usize, size: usize) -> (r: usize)
    requires
        0 < size <= 8,
    ensures
        r == (n + size - 1) / (size as int),
{
    proof {
        lemma_fundamental_div_mod(n as int, size as int);
        lemma_mod_bound(n as int, size as int);
        let q = n as int / size as int;
        let d = n as int % size as int;
        lemma_mul_is_commutative(size as int, q);
        if d == 0 {
            lemma_fundamental_div_mod_converse(n + size - 1, size as int, q, size - 1);
        } else {
            lemma_mul_is_distributive_add_other_way(size as int, q, 1);
            lemma_fundamental_div_mod_converse(n + size - 1, size as int, q + 1, d - 1);
        }
    }
    let full: usize = n / size;
    if n % size == 0 {
        full
    } else {
        proof {
            lemma_mul_inequality(1, size as int, (n as int / size as int));
        }
        full + 1
    }
}

/// Packs 1-bit codes, eight to the byte.
pub fn pack_1bit(codes: &[u8]) -> (packed: Vec<u8>)
    ensures
        packed@ == packed_codes(codes@, 1),
{
    let n_bytes: usize = groups(codes.len(), 8);
    let mut packed: Vec<u8> = vec![0u8; n_bytes];
    proof {
        lemma_nothing_packed(codes@, 1, packed@);
    }
    for bit_idx in 0..codes.len()
        invariant
            packed@.len() == packed_size(codes@.len() as int, 1),
            packed_so_far(codes@, 1, bit_idx as int, packed@),
    {
        let code: u8 = codes[bit_idx];
        let byte_idx: usize = bit_idx / 8;
        let shift: u8 = (bit_idx % 8) as u8;
        let ghost before = packed@;
        proof {
            lemma_code_in_stream(codes@.len() as int, 1, bit_idx as int);
            lemma_masked_code(code, 1);
            assert(code & (((1u8 << 1u8) - 1) as u8) == code & 1) by (bit_vector);
            assert(code & 1 == 0 || code & 1 == 1) by (bit_vector);
            let byte = before[byte_idx as int];
            assert(byte | (0u8 << shift) == byte) by (bit_vector)
                requires
                    shift < 8,
            ;
        }
        if code & 1 != 0 {
            packed.set(byte_idx, packed[byte_idx] | (1u8 << shift));
        }
        proof {
            lemma_write_code(codes@, 1, bit_idx as int, code & 1, before, packed@);
        }
    }
    proof {
        lemma_all_packed(codes@, 1, packed@);
    }
    packed
}

/// Unpacks 1-bit codes, eight to the byte.
pub fn unpack_1bit(packed: &[u8], dim: usize) -> (codes: Vec<u8>)
    requires
        holds_codes(packed@, dim as int, 1),
    ensures
        codes@ == unpacked_codes(packed@, dim as nat, 1),
{
    let mut codes: Vec<u8> = vec![0u8; dim];
    for bit_idx in 0..dim
        invariant
            holds_codes(packed@, dim as int, 1),
            codes@.len() == dim,
            forall|i: int| 0 <= i < bit_idx ==> codes@[i] == unpacked_code(packed@, 1, i),
    {
        let byte: u8 = packed[bit_idx / 8];
        let shift: u8 = (bit_idx % 8) as u8;
        let code: u8 = (byte >> shift) & 1;
        proof {
            assert(code == (byte >> shift) & (((1u8 << 1u8) - 1) as u8)) by (bit_vector)
                requires
                    code == (byte >> shift) & 1,
            ;
            lemma_read_code(packed@, 1, bit_idx as int, byte >> shift, code);
        }
        codes.set(bit_idx, code);
    }
    proof {
        assert(codes@ =~= unpacked_codes(packed@, dim as nat, 1));
    }
    codes
}

/// Packs 2-bit codes, four to the byte.
pub fn pack_2bit(codes: &[u8]) -> (packed: Vec<u8>)
    ensures
        packed@ == packed_codes(codes@, 2),
{
    let n_bytes: usize = groups(codes.len(), 4);
    let mut packed: Vec<u8> = vec![0u8; n_bytes];
    proof {
        lemma_nothing_packed(codes@, 2, packed@);
    }
    for i in 0..codes.len()
        invariant
            packed@.len() == packed_size(codes@.len() as int, 2),
            packed_so_far(codes@, 2, i as int, packed@),
    {
        let code: u8 = codes[i];
        let byte_idx: usize = i / 4;
        let shift: u8 = ((i % 4) * 2) as u8;
        let ghost before = packed@;
        proof {
            lemma_code_in_stream(codes@.len() as int, 2, i as int);
            lemma_masked_code(code, 2);
            assert(code & (((1u8 << 2u8) - 1) as u8) == code & 0x03) by (bit_vector);
        }
        packed.set(byte_idx, packed[byte_idx] | ((code & 0x03) << shift));
        proof {
            lemma_write_code(codes@, 2, i as int, code & 0x03, before, packed@);
        }
    }
    proof {
        lemma_all_packed(codes@, 2, packed@);
    }
    packed
}

/// Unpacks 2-bit codes, four to the byte.
pub fn unpack_2bit(packed: &[u8], dim: usize) -> (codes: Vec<u8>)
    requires
        holds_codes(packed@, dim as int, 2),
    ensures
        codes@ == unpacked_codes(packed@, dim as nat, 2),
{
    let mut codes: Vec<u8> = vec![0u8; dim];
    for i in 0..dim
        invariant
            holds_codes(packed@, dim as int, 2),
            codes@.len() == dim,
            forall|j: int| 0 <= j < i ==> codes@[j] == unpacked_code(packed@, 2, j),
    {
        let byte: u8 = packed[i / 4];
        let shift: u8 = ((i % 4) * 2) as u8;
        let code: u8 = (byte >> shift) & 0x03;
        proof {
            assert(code == (byte >> shift) & (((1u8 << 2u8) - 1) as u8)) by (bit_vector)
                requires
                    code == (byte >> shift) & 0x03,
            ;
            lemma_read_code(packed@, 2, i as int, byte >> shift, code);
        }
        codes.set(i, code);
    }
    proof {
        assert(codes@ =~= unpacked_codes(packed@, dim as nat, 2));
    }
    codes
}

/// Packs 4-bit codes, two to the byte, the first one in the low half.
pub fn pack_4bit(codes: &[u8]) -> (packed: Vec<u8>)
    ensures
        packed@ == packed_codes(codes@, 4),
{
    let n_bytes: usize = groups(codes.len(), 2);
    let mut packed: Vec<u8> = vec![0u8; n_bytes];
    proof {
        lemma_nothing_packed(codes@, 4, packed@);
    }
    for i in 0..codes.len()
        invariant
            packed@.len() == packed_size(codes@.len() as int, 4),
            packed_so_far(codes@, 4, i as int, packed@),
    {
        let code: u8 = codes[i];
        let byte_idx: usize = i / 2;
        let ghost before = packed@;
        proof {
            lemma_code_in_stream(codes@.len() as int, 4, i as int);
            lemma_masked_code(code, 4);
            assert(code & (((1u8 << 4u8) - 1) as u8) == code & 0x0F && (code & 0x0F) << 0u8 == code
                & 0x0F) by (bit_vector);
        }
        if i % 2 == 0 {
            packed.set(byte_idx, packed[byte_idx] | (code & 0x0F));
        } else {
            packed.set(byte_idx, packed[byte_idx] | ((code & 0x0F) << 4));
        }
        proof {
            lemma_write_code(codes@, 4, i as int, code & 0x0F, before, packed@);
        }
    }
    proof {
        lemma_all_packed(codes@, 4, packed@);
    }
    packed
}

/// Unpacks 4-bit codes, two to the byte, the first one from the low half.
pub fn unpack_4bit(packed: &[u8], dim: usize) -> (codes: Vec<u8>)
    requires
        holds_codes(packed@, dim as int, 4),
    ensures
        codes@ == unpacked_codes(packed@, dim as nat, 4),
{
    let mut codes: Vec<u8> = vec![0u8; dim];
    for i in 0..dim
        invariant
            holds_codes(packed@, dim as int, 4),
            codes@.len() == dim,
            forall|j: int| 0 <= j < i ==> codes@[j] == unpacked_code(packed@, 4, j),
    {
        let byte: u8 = packed[i / 2];
        let code: u8 = if i % 2 == 0 {
            byte & 0x0F
        } else {
            (byte >> 4) & 0x0F
        };
        proof {
            let shifted = if i % 2 == 0 {
                byte >> 0u8
            } else {
                byte >> 4u8
            };
            assert(shifted & (((1u8 << 4u8) - 1) as u8) == shifted & 0x0F && (byte >> 0u8) & 0x0F
                == byte & 0x0F) by (bit_vector);
            lemma_read_code(packed@, 4, i as int, shifted, code);
        }
        codes.set(i, code);
    }
    proof {
        assert(codes@ =~= unpacked_codes(packed@, dim as nat, 4));
    }
    codes
}

/// Packs codes of fewer than eight bits, which may span two bytes.
pub fn pack_generic(codes: &[u8], num_bits: u32) -> (packed: Vec<u8>)
    requires
        1 <= num_bits < 8,
        codes@.len() * num_bits + 7 <= usize::MAX,
    ensures
        packed@ == packed_codes(codes@, num_bits as int),
{
    let width: usize = num_bits as usize;
    let total_bits: usize = codes.len() * width;
    let n_bytes: usize = (total_bits + 7) / 8;
    let mut packed: Vec<u8> = vec![0u8; n_bytes];
    proof {
        lemma_bit_of_mask(0, num_bits as u8, 0);
        lemma_nothing_packed(codes@, width as int, packed@);
    }
    let mask: u8 = (1u8 << (num_bits as u8)) - 1;
    let mut bit_offset: usize = 0;
    for i in 0..codes.len()
        invariant
            width == num_bits,
            0 < width < 8,
            codes@.len() * width + 7 <= usize::MAX,
            mask == ((1u8 << (num_bits as u8)) - 1) as u8,
            packed@.len() == packed_size(codes@.len() as int, width as int),
            bit_offset == i * width,
            packed_so_far(codes@, width as int, i as int, packed@),
    {
        let code: u8 = codes[i] & mask;
        let byte_idx: usize = bit_offset / 8;
        let bit_idx: usize = bit_offset % 8;
        let ghost before = packed@;
        proof {
            lemma_code_in_stream(codes@.len() as int, width as int, i as int);
            lemma_masked_code(codes[i as int], num_bits as u8);
        }
        packed.set(byte_idx, packed[byte_idx] | (code << (bit_idx as u8)));
        if bit_idx + width > 8 {
            packed.set(byte_idx + 1, packed[byte_idx + 1] | (code >> ((8 - bit_idx) as u8)));
        }
        proof {
            lemma_write_code(codes@, width as int, i as int, code, before, packed@);
            lemma_mul_is_distributive_add_other_way(width as int, i as int, 1);
        }
        bit_offset += width;
    }
    proof {
        lemma_all_packed(codes@, width as int, packed@);
    }
    packed
}

/// Unpacks codes of fewer than eight bits, which may span two bytes.
pub fn unpack_generic(packed: &[u8], dim: usize, num_bits: u32) -> (codes: Vec<u8>)
    requires
        1 <= num_bits < 8,
        dim * num_bits <= usize::MAX,
        holds_codes(packed@, dim as int, num_bits as int),
    ensures
        codes@ == unpacked_codes(packed@, dim as nat, num_bits as int),
{
    let width: usize = num_bits as usize;
    proof {
        lemma_bit_of_mask(0, num_bits as u8, 0);
        lemma_mul_basics(width as int);
    }
    let mask: u8 = (1u8 << (num_bits as u8)) - 1;
    let mut codes: Vec<u8> = vec![0u8; dim];
    let mut bit_offset: usize = 0;
    for i in 0..dim
        invariant
            width == num_bits,
            width < 8,
            dim * width <= usize::MAX,
            mask == ((1u8 << (num_bits as u8)) - 1) as u8,
            holds_codes(packed@, dim as int, width as int),
            codes@.len() == dim,
            bit_offset == i * width,
            forall|j: int| 0 <= j < i ==> codes@[j] == unpacked_code(packed@, width as int, j),
    {
        let byte_idx: usize = bit_offset / 8;
        let bit_idx: usize = bit_offset % 8;
        proof {
            lemma_mul_inequality(i as int, dim - 1, width as int);
            lemma_mul_inequality(i + 1, dim as int, width as int);
            lemma_mul_is_distributive_add_other_way(width as int, i as int, 1);
            lemma_div_is_ordered(i * width, (dim - 1) * width, 8);
        }
        let low: u8 = packed[byte_idx] >> (bit_idx as u8);
        let mut val: u8 = low;
        if bit_idx + width > 8 && byte_idx + 1 < packed.len() {
            val = low | (packed[byte_idx + 1] << ((8 - bit_idx) as u8));
        }
        proof {
            lemma_read_code(packed@, width as int, i as int, val, val & mask);
        }
        codes.set(i, val & mask);
        bit_offset += width;
    }
    proof {
        assert(codes@ =~= unpacked_codes(packed@, dim as nat, width as int));
    }
    codes
}

/// Eight-bit codes are the bytes of the stream.
proof fn lemma_unpacked_8bit(packed: Seq<u8>, dim: nat)
    requires
        dim <= packed.len(),
    ensures
        unpacked_codes(packed, dim, 8) == packed.subrange(0, dim as int),
{
    assert forall|i: int| 0 <= i < dim implies unpacked_code(packed, 8, i) == packed[i] by {
        assert forall|t: int| 0 <= t < 8 implies byte_bit(unpacked_code(packed, 8, i), t)
            == byte_bit(packed[i], t) by {
            lemma_unpacked_code_bit(packed, 8, i, t);
            let p = i * 8 + t;
            assert(p / 8 == i && p % 8 == t);
        }
        lemma_bytes_equal_by_bits(unpacked_code(packed, 8, i), packed[i]);
    }
    assert(unpacked_codes(packed, dim, 8) =~= packed.subrange(0, dim as int));
}

/// Pack an array of `num_bits`-bit codes, each stored in a byte, into a compact byte array.
///
/// Of each code the low `num_bits` bits are kept. The width has to be one to eight bits.
pub fn pack_codes(codes: &[u8], num_bits: u32) -> (r: Result<Vec<u8>, TurboError>)
    requires
        num_bits == 3 || 5 <= num_bits <= 7 ==> codes@.len() * num_bits + 7 <= usize::MAX,
    ensures
        1 <= num_bits <= 8 ==> r is Ok && r->Ok_0@ == packed_codes(codes@, num_bits as int),
        num_bits == 0 || num_bits > 8 ==> r == Err::<Vec<u8>, TurboError>(
            TurboError::PackedBits { num_bits },
        ),
{
    match num_bits {
        1 => Ok(pack_1bit(codes)),
        2 => Ok(pack_2bit(codes)),
        3 => Ok(pack_generic(codes, 3)),
        4 => Ok(pack_4bit(codes)),
        8 => {
            proof {
                law_layout_8bit(codes@);
            }
            Ok(slice_to_vec(codes))
        },
        b if 1 <= b && b <= 8 => Ok(pack_generic(codes, b)),
        _ => Err(TurboError::PackedBits { num_bits }),
    }
}

/// Unpack a compact byte array back into `dim` codes of `num_bits` bits each.
///
/// The width has to be one to eight bits. The byte in which the last code starts has to be there;
/// bits behind the last byte count as clear.
pub fn unpack_codes(packed: &[u8], dim: usize, num_bits: u32) -> (r: Result<Vec<u8>, TurboError>)
    requires
        1 <= num_bits <= 8 ==> holds_codes(packed@, dim as int, num_bits as int),
        num_bits == 3 || 5 <= num_bits <= 7 ==> dim * num_bits <= usize::MAX,
    ensures
        1 <= num_bits <= 8 ==> r is Ok && r->Ok_0@ == unpacked_codes(
            packed@,
            dim as nat,
            num_bits as int,
        ),
        num_bits == 0 || num_bits > 8 ==> r == Err::<Vec<u8>, TurboError>(
            TurboError::PackedBits { num_bits },
        ),
{
    match num_bits {
        1 => Ok(unpack_1bit(packed, dim)),
        2 => Ok(unpack_2bit(packed, dim)),
        3 => Ok(unpack_generic(packed, dim, 3)),
        4 => Ok(unpack_4bit(packed, dim)),
        8 => {
            proof {
                lemma_unpacked_8bit(packed@, dim as nat);
            }
            Ok(slice_to_vec(slice_subrange(packed, 0, dim)))
        },
        b if 1 <= b && b <= 8 => Ok(unpack_generic(packed, dim, b)),
        _ => Err(TurboError::PackedBits { num_bits }),
    }
}

// --- Laws ---

/// Unpacking what was packed gives back the low `b` bits of each code.
pub proof fn law_unpack_undoes_pack(codes: Seq<u8>, b: int, i: int, t: int)
    requires
        1 <= b <= 8,
        0 <= i < codes.len(),
        0 <= t < 8,
    ensures
        unpacked_codes(packed_codes(codes, b), codes.len(), b).len() == codes.len(),
        byte_bit(unpacked_codes(packed_codes(codes, b), codes.len(), b)[i], t) == (t < b
            && byte_bit(codes[i], t)),
{
    let packed = packed_codes(codes, b);
    lemma_unpacked_code_bit(packed, b, i, t);
    if t < b {
        lemma_code_in_stream(codes.len() as int, b, i);
        lemma_position_in_code(i * b + t, i, b);
        lemma_packed_codes_bit(codes, b, i * b + t);
    }
}

/// Unpacking what was packed gives back the codes, wherever each fits in `b` bits.
pub proof fn law_pack_round_trip(codes: Seq<u8>, b: int)
    requires
        1 <= b <= 8,
        forall|i: int| 0 <= i < codes.len() ==> #[trigger] codes[i] < pow2(b as nat),
    ensures
        unpacked_codes(packed_codes(codes, b), codes.len(), b) == codes,
{
    let again = unpacked_codes(packed_codes(codes, b), codes.len(), b);
    lemma2_to64();
    assert forall|i: int| 0 <= i < codes.len() implies again[i] == codes[i] by {
        assert forall|t: int| 0 <= t < 8 implies byte_bit(again[i], t) == byte_bit(
            codes[i],
            t,
        ) by {
            law_unpack_undoes_pack(codes, b, i, t);
            if b <= t {
                assert(codes[i] < pow2(b as nat));
                lemma_pow2_strictly_increases(b as nat, 8);
                lemma_u8_shl_is_mul(1, b as u8);
                lemma_bound_low_bits(codes[i], b as u8, t as u8);
            }
        }
        lemma_bytes_equal_by_bits(again[i], codes[i]);
    }
    assert(again =~= codes);
}

/// Packing is one to one: codes that fit in `b` bits and pack alike are alike.
pub proof fn law_pack_is_injective(x: Seq<u8>, y: Seq<u8>, b: int)
    requires
        1 <= b <= 8,
        x.len() == y.len(),
        forall|i: int| 0 <= i < x.len() ==> #[trigger] x[i] < pow2(b as nat),
        forall|i: int| 0 <= i < y.len() ==> #[trigger] y[i] < pow2(b as nat),
        packed_codes(x, b) == packed_codes(y, b),
    ensures
        x == y,
{
    law_pack_round_trip(x, b);
    law_pack_round_trip(y, b);
}

/// Packing what was unpacked gives back the bytes, wherever their number is the packed
/// length and the bits behind the last code are clear.
pub proof fn law_pack_undoes_unpack(packed: Seq<u8>, dim: nat, b: int)
    requires
        1 <= b <= 8,
        packed.len() == packed_size(dim as int, b),
        forall|p: int| dim * b <= p < 8 * packed.len() ==> !#[trigger] stream_bit(packed, p),
    ensures
        packed_codes(unpacked_codes(packed, dim, b), b) == packed,
{
    let codes = unpacked_codes(packed, dim, b);
    assert forall|p: int| 0 <= p < 8 * packed.len() implies #[trigger] stream_bit(packed, p)
        == code_stream_bit(codes, b, p) by {
        if p < dim * b {
            lemma_fundamental_div_mod(p, b);
            lemma_mod_bound(p, b);
            lemma_multiply_divide_lt(p, b, dim as int);
            vstd::arithmetic::div_mod::lemma_div_pos_is_pos(p, b);
            let i = p / b;
            let t = p % b;
            lemma_mul_is_commutative(b, i);
            lemma_unpacked_code_bit(packed, b, i, t);
        }
    }
    lemma_packed_codes_unique(codes, b, packed);
}

/// Every unpacked code fits in `b` bits, whatever the bytes are.
pub proof fn law_unpacked_codes_fit(packed: Seq<u8>, dim: nat, b: int, i: int)
    requires
        0 <= b <= 8,
        0 <= i < dim,
    ensures
        unpacked_codes(packed, dim, b)[i] < pow2(b as nat),
{
    lemma2_to64();
    if b < 8 {
        let code = unpacked_code(packed, b, i);
        assert forall|t: int| b <= t < 8 implies !byte_bit(code, t) by {
            lemma_unpacked_code_bit(packed, b, i, t);
        }
        lemma_low_bits_bound(code, b as u8);
        lemma_pow2_strictly_increases(b as nat, 8);
        lemma_u8_shl_is_mul(1, b as u8);
    }
}

/// Bytes of the packed length hold the codes.
pub proof fn law_packed_length_holds_codes(packed: Seq<u8>, dim: int, b: int)
    requires
        0 <= dim,
        1 <= b <= 8,
        packed.len() >= packed_size(dim, b),
    ensures
        holds_codes(packed, dim, b),
{
    if dim > 0 {
        lemma_mul_is_distributive_sub_other_way(b, dim, 1);
        lemma_mul_basics(b);
    }
}

/// The packed length is the number of bits, in bytes, rounded up.
pub proof fn law_packed_length(codes: Seq<u8>, b: int)
    requires
        0 <= b <= 8,
    ensures
        codes.len() * b <= 8 * packed_codes(codes, b).len() < codes.len() * b + 8,
        packed_codes(codes, b).len() <= codes.len(),
{
    lemma_mul_inequality(b, 8, codes.len() as int);
    lemma_mul_inequality(0, b, codes.len() as int);
    lemma_mul_is_commutative(b, codes.len() as int);
    lemma_mul_is_commutative(8, codes.len() as int);
    lemma_mul_is_commutative(0, codes.len() as int);
}

/// Layout of 4-bit codes: the even code in the low half of a byte, the odd one in the high half.
pub proof fn law_layout_4bit(codes: Seq<u8>, m: int)
    requires
        0 <= m,
        2 * m + 1 < codes.len(),
        codes[2 * m] < 16,
        codes[2 * m + 1] < 16,
    ensures
        packed_codes(codes, 4)[m] == codes[2 * m] | (codes[2 * m + 1] << 4u8),
{
    let c0 = codes[2 * m];
    let c1 = codes[2 * m + 1];
    assert forall|t: int| 0 <= t < 8 implies byte_bit(packed_codes(codes, 4)[m], t) == byte_bit(
        c0 | (c1 << 4u8),
        t,
    ) by {
        lemma_packed_codes_bit(codes, 4, 8 * m + t);
        assert((8 * m + t) / 8 == m && (8 * m + t) % 8 == t);
        lemma_bit_of_or_left(c0, c1, 4, t as u8);
        assert(1u8 << 4u8 == 16u8) by (bit_vector);
        if t < 4 {
            assert((8 * m + t) / 4 == 2 * m && (8 * m + t) % 4 == t);
        } else {
            assert((8 * m + t) / 4 == 2 * m + 1 && (8 * m + t) % 4 == t - 4);
            assert((t as u8 - 4) as u8 == (t - 4) as u8);
            lemma_bound_low_bits(c0, 4, t as u8);
        }
    }
    lemma_bytes_equal_by_bits(packed_codes(codes, 4)[m], c0 | (c1 << 4u8));
}

/// Layout of 2-bit codes: four to the byte, the first one lowest.
pub proof fn law_layout_2bit(codes: Seq<u8>, m: int)
    requires
        0 <= m,
        4 * m + 3 < codes.len(),
        codes[4 * m] < 4,
        codes[4 * m + 1] < 4,
        codes[4 * m + 2] < 4,
        codes[4 * m + 3] < 4,
    ensures
        packed_codes(codes, 2)[m] == codes[4 * m] | (codes[4 * m + 1] << 2u8) | (codes[4 * m + 2]
            << 4u8) | (codes[4 * m + 3] << 6u8),
{
    let c0 = codes[4 * m];
    let c1 = codes[4 * m + 1];
    let c2 = codes[4 * m + 2];
    let c3 = codes[4 * m + 3];
    let byte = c0 | (c1 << 2u8) | (c2 << 4u8) | (c3 << 6u8);
    assert forall|t: int| 0 <= t < 8 implies byte_bit(packed_codes(codes, 2)[m], t) == byte_bit(
        byte,
        t,
    ) by {
        lemma_packed_codes_bit(codes, 2, 8 * m + t);
        assert((8 * m + t) / 8 == m && (8 * m + t) % 8 == t);
        let u = t as u8;
        assert(((byte >> u) & 1u8 == 1u8) == (if u < 2 {
            (c0 >> u) & 1u8 == 1u8
        } else if u < 4 {
            (c1 >> ((u - 2) as u8)) & 1u8 == 1u8
        } else if u < 6 {
            (c2 >> ((u - 4) as u8)) & 1u8 == 1u8
        } else {
            (c3 >> ((u - 6) as u8)) & 1u8 == 1u8
        })) by (bit_vector)
            requires
                byte == c0 | (c1 << 2u8) | (c2 << 4u8) | (c3 << 6u8),
                u < 8,
                c0 < 4,
                c1 < 4,
                c2 < 4,
                c3 < 4,
        ;
        let k = t / 2;
        assert((8 * m + t) / 2 == 4 * m + k && (8 * m + t) % 2 == t - 2 * k);
        assert((t - 2 * k) as u8 == (u - (2 * k) as u8) as u8);
        assert(k == 0 || k == 1 || k == 2 || k == 3);
    }
    lemma_bytes_equal_by_bits(packed_codes(codes, 2)[m], byte);
}

/// Layout of 1-bit codes: eight to the byte, the first one lowest.
pub proof fn law_layout_1bit(codes: Seq<u8>, m: int)
    requires
        0 <= m,
        8 * m + 7 < codes.len(),
        forall|i: int| 8 * m <= i < 8 * m + 8 ==> #[trigger] codes[i] < 2,
    ensures
        packed_codes(codes, 1)[m] == codes[8 * m] | (codes[8 * m + 1] << 1u8) | (codes[8 * m + 2]
            << 2u8) | (codes[8 * m + 3] << 3u8) | (codes[8 * m + 4] << 4u8) | (codes[8 * m + 5]
            << 5u8) | (codes[8 * m + 6] << 6u8) | (codes[8 * m + 7] << 7u8),
{
    let c0 = codes[8 * m];
    let c1 = codes[8 * m + 1];
    let c2 = codes[8 * m + 2];
    let c3 = codes[8 * m + 3];
    let c4 = codes[8 * m + 4];
    let c5 = codes[8 * m + 5];
    let c6 = codes[8 * m + 6];
    let c7 = codes[8 * m + 7];
    let byte = c0 | (c1 << 1u8) | (c2 << 2u8) | (c3 << 3u8) | (c4 << 4u8) | (c5 << 5u8) | (c6
        << 6u8) | (c7 << 7u8);
    assert forall|t: int| 0 <= t < 8 implies byte_bit(packed_codes(codes, 1)[m], t) == byte_bit(
        byte,
        t,
    ) by {
        lemma_packed_codes_bit(codes, 1, 8 * m + t);
        assert((8 * m + t) / 8 == m && (8 * m + t) % 8 == t);
        let u = t as u8;
        let c = codes[8 * m + t];
        assert((byte >> u) & 1u8 == (c >> 0u8) & 1u8) by (bit_vector)
            requires
                byte == c0 | (c1 << 1u8) | (c2 << 2u8) | (c3 << 3u8) | (c4 << 4u8) | (c5 << 5u8) | (
                c6 << 6u8) | (c7 << 7u8),
                c0 < 2 && c1 < 2 && c2 < 2 && c3 < 2 && c4 < 2 && c5 < 2 && c6 < 2 && c7 < 2,
                u < 8,
                u == 0 ==> c == c0,
                u == 1 ==> c == c1,
                u == 2 ==> c == c2,
                u == 3 ==> c == c3,
                u == 4 ==> c == c4,
                u == 5 ==> c == c5,
                u == 6 ==> c == c6,
                u == 7 ==> c == c7,
        ;
        assert((8 * m + t) / 1 == 8 * m + t && (8 * m + t) % 1 == 0);
    }
    lemma_bytes_equal_by_bits(packed_codes(codes, 1)[m], byte);
}

/// Layout of 8-bit codes: each is a byte.
pub proof fn law_layout_8bit(codes: Seq<u8>)
    ensures
        packed_codes(codes, 8) == codes,
{
    assert forall|p: int| 0 <= p < 8 * codes.len() implies #[trigger] stream_bit(codes, p)
        == code_stream_bit(codes, 8, p) by {}
    lemma_packed_codes_unique(codes, 8, codes);
}

/// Whatever the width, bit `t` of code `i` is bit `i * b + t` of the packed bytes, counted through
/// them from the least significant bit of the first one up; the bytes end where the codes do, and
/// what is left of the last one is clear.
pub proof fn law_bits_of_packed_codes(codes: Seq<u8>, b: int, i: int, t: int, p: int)
    requires
        1 <= b <= 8,
    ensures
        packed_codes(codes, b).len() == (codes.len() * b + 7) / 8,
        0 <= i < codes.len() && 0 <= t < b ==> ({
            let byte = packed_codes(codes, b)[(i * b + t) / 8];
            (byte >> (((i * b + t) % 8) as u8)) & 1u8 == 1u8 <==> (codes[i] >> (t as u8)) & 1u8
                == 1u8
        }),
        codes.len() * b <= p < 8 * packed_codes(codes, b).len() ==> (packed_codes(codes, b)[p / 8]
            >> ((p % 8) as u8)) & 1u8 != 1u8,
{
    let packed = packed_codes(codes, b);
    lemma_mul_inequality(0, codes.len() as int, b);
    lemma_mul_basics(b);
    if 0 <= i < codes.len() && 0 <= t < b {
        let q = i * b + t;
        lemma_code_in_stream(codes.len() as int, b, i);
        lemma_position_in_code(q, i, b);
        lemma_packed_codes_bit(codes, b, q);
        assert(stream_bit(packed, q) == byte_bit(packed[q / 8], q % 8));
        assert(code_stream_bit(codes, b, q) == byte_bit(codes[i], t));
    }
    if codes.len() * b <= p < 8 * packed.len() {
        lemma_packed_codes_bit(codes, b, p);
        assert(stream_bit(packed, p) == byte_bit(packed[p / 8], p % 8));
    }
}

/// Whatever the width, bit `t` of unpacked code `i` is bit `i * b + t` of the bytes, counted through
/// them from the least significant bit of the first one up, where the bytes go that far; every other
/// bit of it is clear.
pub proof fn law_bits_of_unpacked_codes(packed: Seq<u8>, dim: nat, b: int, i: int, t: int)
    requires
        1 <= b <= 8,
        0 <= i < dim,
        0 <= t < 8,
    ensures
        unpacked_codes(packed, dim, b).len() == dim,
        (unpacked_codes(packed, dim, b)[i] >> (t as u8)) & 1u8 == 1u8 <==> t < b && i * b + t < 8
            * packed.len() && (packed[(i * b + t) / 8] >> (((i * b + t) % 8) as u8)) & 1u8 == 1u8,
{
    lemma_unpacked_code_bit(packed, b, i, t);
    lemma_mul_inequality(0, i, b);
    lemma_mul_basics(b);
    let q = i * b + t;
    assert(stream_bit(packed, q) == (0 <= q < 8 * packed.len() && byte_bit(packed[q / 8], q % 8)));
    assert(byte_bit(unpacked_codes(packed, dim, b)[i], t) == (t < b && stream_bit(packed, q)));
}

/// The codes that stand first in the bytes do not depend on how many are asked for.
pub proof fn law_unpacking_fewer_codes(packed: Seq<u8>, few: nat, many: nat, b: int)
    requires
        few <= many,
    ensures
        unpacked_codes(packed, few, b) == unpacked_codes(packed, many, b).take(few as int),
{
}

} // verus!
