//! The codec itself: `VarInt`, `VarLong`, their encode/decode operations,
//! and proofs of round-trip, minimality, and error behaviour.

use vstd::prelude::*;

verus! {

/// Longest possible `VarInt` encoding: five 7-bit groups cover 32 bits.
pub const VARINT_MAX_BYTES: usize = 5;

/// Longest possible `VarLong` encoding: ten 7-bit groups cover 64 bits.
pub const VARLONG_MAX_BYTES: usize = 10;

/// 128 raised to `n`: the weight of the `n`-th 7-bit group.
pub open spec fn pow128(n: nat) -> nat
    decreases n,
{
    if n == 0 {
        1
    } else {
        128 * pow128((n - 1) as nat)
    }
}

/// The seven payload bits of an encoded byte.
pub open spec fn group_of(b: u8) -> nat {
    (b % 128) as nat
}

/// Whether an encoded byte announces that more bytes follow.
pub open spec fn has_continuation_bit(b: u8) -> bool {
    b >= 128
}

/// The wire encoding of an unsigned value: its 7-bit groups from least to
/// most significant, the continuation bit set on all but the last byte.
pub open spec fn encode_groups(v: nat) -> Seq<u8>
    decreases v,
{
    if v < 128 {
        seq![v as u8]
    } else {
        seq![(v % 128 + 128) as u8] + encode_groups(v / 128)
    }
}

/// Why a byte sequence failed to decode.
#[derive(Debug, Copy, Clone, PartialEq, Eq, Structural)]
pub enum DecodeError {
    /// More groups arrived than the target width can represent.
    TooLarge,
    /// The bytes ended before a byte without the continuation bit.
    Incomplete,
}

/// The value carried by the groups of a wire encoding, read left to right
/// until the first byte without the continuation bit. At most `max_groups`
/// bytes are admitted; running past that bound is `TooLarge`, running out
/// of bytes first is `Incomplete`. Bytes after the terminating byte are
/// ignored. The result is the raw group sum, not yet reduced to the
/// target width.
pub open spec fn decode_groups(bytes: Seq<u8>, max_groups: nat) -> Result<nat, DecodeError>
    decreases max_groups,
{
    if max_groups == 0 {
        Err(DecodeError::TooLarge)
    } else if bytes.len() == 0 {
        Err(DecodeError::Incomplete)
    } else if !has_continuation_bit(bytes[0]) {
        Ok(bytes[0] as nat)
    } else {
        match decode_groups(bytes.skip(1), (max_groups - 1) as nat) {
            Ok(rest) => Ok(group_of(bytes[0]) + 128 * rest),
            Err(e) => Err(e),
        }
    }
}

/// The two's-complement bit pattern of an `i32`, as an unsigned value.
pub open spec fn u32_pattern(v: i32) -> nat {
    if v >= 0 {
        v as nat
    } else {
        (v + 0x1_0000_0000) as nat
    }
}

/// The `i32` whose two's-complement bit pattern is `n`.
pub open spec fn i32_from_pattern(n: nat) -> i32
    recommends
        n < 0x1_0000_0000,
{
    if n < 0x8000_0000 {
        n as i32
    } else {
        (n - 0x1_0000_0000) as i32
    }
}

/// The two's-complement bit pattern of an `i64`, as an unsigned value.
pub open spec fn u64_pattern(v: i64) -> nat {
    if v >= 0 {
        v as nat
    } else {
        (v + 0x1_0000_0000_0000_0000) as nat
    }
}

/// The `i64` whose two's-complement bit pattern is `n`.
pub open spec fn i64_from_pattern(n: nat) -> i64
    recommends
        n < 0x1_0000_0000_0000_0000,
{
    if n < 0x8000_0000_0000_0000 {
        n as i64
    } else {
        (n - 0x1_0000_0000_0000_0000) as i64
    }
}

/// The exact byte sequence a `VarInt` of value `v` encodes to.
pub open spec fn varint_encoding(v: i32) -> Seq<u8> {
    encode_groups(u32_pattern(v))
}

/// What decoding a byte sequence as a `VarInt` yields: the group sum of up
/// to five groups, reduced to 32 bits and reinterpreted as signed, or the
/// decode error.
pub open spec fn varint_decoding(bytes: Seq<u8>) -> Result<i32, DecodeError> {
    match decode_groups(bytes, VARINT_MAX_BYTES as nat) {
        Ok(n) => Ok(i32_from_pattern(n % 0x1_0000_0000)),
        Err(e) => Err(e),
    }
}

/// The exact byte sequence a `VarLong` of value `v` encodes to.
pub open spec fn varlong_encoding(v: i64) -> Seq<u8> {
    encode_groups(u64_pattern(v))
}

/// What decoding a byte sequence as a `VarLong` yields: the group sum of
/// up to ten groups, reduced to 64 bits and reinterpreted as signed, or
/// the decode error.
pub open spec fn varlong_decoding(bytes: Seq<u8>) -> Result<i64, DecodeError> {
    match decode_groups(bytes, VARLONG_MAX_BYTES as nat) {
        Ok(n) => Ok(i64_from_pattern(n % 0x1_0000_0000_0000_0000)),
        Err(e) => Err(e),
    }
}

/// A signed 32-bit value with a variable-length wire encoding of one to
/// five bytes.
#[derive(Debug, Copy, Clone, PartialEq, Eq, PartialOrd, Ord, Hash, Structural)]
pub struct VarInt {
    value: i32,
}

impl View for VarInt {
    type V = i32;

    closed spec fn view(&self) -> i32 {
        self.value
    }
}

/// The two's-complement bit pattern of an `i32`, computed without a
/// truncating cast: a negative value is widened and shifted up by 2^32.
fn u32_pattern_of(v: i32) -> (r: u32)
    ensures
        r as nat == u32_pattern(v),
{
    if v >= 0 {
        v as u32
    } else {
        ((v as i64) + 0x1_0000_0000) as u32
    }
}

/// The `i32` whose two's-complement bit pattern is `n`.
fn i32_of_pattern(n: u32) -> (r: i32)
    ensures
        r == i32_from_pattern(n as nat),
{
    if n < 0x8000_0000 {
        n as i32
    } else {
        ((n as i64) - 0x1_0000_0000) as i32
    }
}

/// The two's-complement bit pattern of an `i64`. There is no wider signed
/// type to widen into, so a negative value is reached from `u64::MAX`:
/// `u64::MAX - (-(v + 1))` equals `v + 2^64`.
fn u64_pattern_of(v: i64) -> (r: u64)
    ensures
        r as nat == u64_pattern(v),
{
    if v >= 0 {
        v as u64
    } else {
        u64::MAX - ((-(v + 1)) as u64)
    }
}

/// The `i64` whose two's-complement bit pattern is `n`; the inverse of
/// `u64_pattern_of`, again routed around the missing wider type.
fn i64_of_pattern(n: u64) -> (r: i64)
    ensures
        r == i64_from_pattern(n as nat),
{
    if n < 0x8000_0000_0000_0000 {
        n as i64
    } else {
        -((u64::MAX - n) as i64) - 1
    }
}

impl VarInt {
    /// Wraps a raw value.
    pub fn new(value: i32) -> (r: Self)
        ensures
            r@ == value,
    {
        VarInt { value }
    }

    /// Returns the wrapped value.
    pub fn into_inner(self) -> (r: i32)
        ensures
            r == self@,
    {
        self.value
    }

    /// Encodes the value to its wire form: the 7-bit groups of its bit
    /// pattern, least-significant group first, the continuation bit set on
    /// every byte but the last. Always one to five bytes.
    pub fn encode(&self) -> (r: Vec<u8>)
        ensures
            r@ == varint_encoding(self@),
    {
        let mut out: Vec<u8> = Vec::new();
        let mut rest: u32 = u32_pattern_of(self.value);
        loop
            invariant
                varint_encoding(self@) =~= out@ + encode_groups(rest as nat),
            decreases rest,
        {
            if rest < 128 {
                out.push(rest as u8);
                assert(out@ =~= varint_encoding(self@));
                return out;
            }
            out.push((rest % 128 + 128) as u8);
            rest = rest / 128;
        }
    }

    /// Decodes a `VarInt` from the front of a byte slice. Bytes are read
    /// left to right up to and including the first byte without the
    /// continuation bit; trailing bytes are ignored. Fails with
    /// `Incomplete` when the slice ends first, and with `TooLarge` when a
    /// fifth byte still carries the continuation bit.
    pub fn decode(bytes: &[u8]) -> (r: Result<VarInt, DecodeError>)
        ensures
            match (r, varint_decoding(bytes@)) {
                (Ok(got), Ok(want)) => got@ == want,
                (Err(got), Err(want)) => got == want,
                _ => false,
            },
    {
        let mut idx: usize = 0;
        let mut acc: u64 = 0;
        let mut scale: u64 = 1;
        proof {
            assert(bytes@.skip(0) =~= bytes@);
        }
        loop
            invariant
                idx <= VARINT_MAX_BYTES,
                idx <= bytes@.len(),
                scale == pow128(idx as nat),
                acc < scale,
                match decode_groups(bytes@.skip(idx as int), (VARINT_MAX_BYTES - idx) as nat) {
                    Ok(rest) => decode_groups(bytes@, VARINT_MAX_BYTES as nat)
                        == Ok::<nat, DecodeError>((acc + scale * rest) as nat),
                    Err(e) => decode_groups(bytes@, VARINT_MAX_BYTES as nat)
                        == Err::<nat, DecodeError>(e),
                },
            decreases VARINT_MAX_BYTES - idx,
        {
            if idx == VARINT_MAX_BYTES {
                return Err(DecodeError::TooLarge);
            }
            if idx == bytes.len() {
                return Err(DecodeError::Incomplete);
            }
            let b: u8 = bytes[idx];
            proof {
                lemma_pow128_increases(idx as nat, 4);
                assert(pow128(4) == 0x1000_0000) by {
                    reveal_with_fuel(pow128, 6);
                }
            }
            if b < 128 {
                proof {
                    vstd::arithmetic::mul::lemma_mul_inequality(b as int, 127, scale as int);
                    vstd::arithmetic::mul::lemma_mul_is_commutative(scale as int, b as int);
                    let s = bytes@.skip(idx as int);
                    assert(s[0] == b);
                    assert(decode_groups(s, (VARINT_MAX_BYTES - idx) as nat)
                        == Ok::<nat, DecodeError>(b as nat));
                }
                let total: u64 = acc + (b as u64) * scale;
                let low: u32 = (total % 0x1_0000_0000) as u32;
                return Ok(VarInt { value: i32_of_pattern(low) });
            }
            proof {
                vstd::arithmetic::mul::lemma_mul_inequality((b - 128) as int, 127, scale as int);
                let s = bytes@.skip(idx as int);
                let m = (VARINT_MAX_BYTES - idx) as nat;
                let tail = bytes@.skip(idx as int + 1);
                assert(s.skip(1) =~= tail);
                assert(s[0] == b);
                assert(decode_groups(s, m) == match decode_groups(tail, (m - 1) as nat) {
                    Ok(rest) => Ok::<nat, DecodeError>(group_of(b) + 128 * rest),
                    Err(e) => Err::<nat, DecodeError>(e),
                });
                if let Ok(rest2) = decode_groups(tail, (m - 1) as nat) {
                    vstd::arithmetic::mul::lemma_mul_is_distributive_add(
                        scale as int,
                        (b - 128) as int,
                        128 * rest2 as int,
                    );
                    vstd::arithmetic::mul::lemma_mul_is_associative(scale as int, 128, rest2 as int);
                    assert(scale * (group_of(b) + 128 * rest2)
                        == scale * (b - 128) + (scale * 128) * rest2);
                    assert(decode_groups(bytes@, VARINT_MAX_BYTES as nat) == Ok::<
                        nat,
                        DecodeError,
                    >((acc + scale * (b - 128) + (scale * 128) * rest2) as nat));
                }
            }
            acc = acc + ((b - 128) as u64) * scale;
            idx = idx + 1;
            scale = scale * 128;
        }
    }
}

/// A signed 64-bit value with a variable-length wire encoding of one to
/// ten bytes.
#[derive(Debug, Copy, Clone, PartialEq, Eq, PartialOrd, Ord, Hash, Structural)]
pub struct VarLong {
    value: i64,
}

impl View for VarLong {
    type V = i64;

    closed spec fn view(&self) -> i64 {
        self.value
    }
}

impl VarLong {
    /// Wraps a raw value.
    pub fn new(value: i64) -> (r: Self)
        ensures
            r@ == value,
    {
        VarLong { value }
    }

    /// Returns the wrapped value.
    pub fn into_inner(self) -> (r: i64)
        ensures
            r == self@,
    {
        self.value
    }

    /// Encodes the value to its wire form: the 7-bit groups of its bit
    /// pattern, least-significant group first, the continuation bit set on
    /// every byte but the last. Always one to ten bytes.
    pub fn encode(&self) -> (r: Vec<u8>)
        ensures
            r@ == varlong_encoding(self@),
    {
        let mut out: Vec<u8> = Vec::new();
        let mut rest: u64 = u64_pattern_of(self.value);
        loop
            invariant
                varlong_encoding(self@) =~= out@ + encode_groups(rest as nat),
            decreases rest,
        {
            if rest < 128 {
                out.push(rest as u8);
                assert(out@ =~= varlong_encoding(self@));
                return out;
            }
            out.push((rest % 128 + 128) as u8);
            rest = rest / 128;
        }
    }

    /// Decodes a `VarLong` from the front of a byte slice. Bytes are read
    /// left to right up to and including the first byte without the
    /// continuation bit; trailing bytes are ignored. Fails with
    /// `Incomplete` when the slice ends first, and with `TooLarge` when a
    /// tenth byte still carries the continuation bit.
    pub fn decode(bytes: &[u8]) -> (r: Result<VarLong, DecodeError>)
        ensures
            match (r, varlong_decoding(bytes@)) {
                (Ok(got), Ok(want)) => got@ == want,
                (Err(got), Err(want)) => got == want,
                _ => false,
            },
    {
        let mut idx: usize = 0;
        let mut acc: u128 = 0;
        let mut scale: u128 = 1;
        proof {
            assert(bytes@.skip(0) =~= bytes@);
        }
        loop
            invariant
                idx <= VARLONG_MAX_BYTES,
                idx <= bytes@.len(),
                scale == pow128(idx as nat),
                acc < scale,
                match decode_groups(bytes@.skip(idx as int), (VARLONG_MAX_BYTES - idx) as nat) {
                    Ok(rest) => decode_groups(bytes@, VARLONG_MAX_BYTES as nat)
                        == Ok::<nat, DecodeError>((acc + scale * rest) as nat),
                    Err(e) => decode_groups(bytes@, VARLONG_MAX_BYTES as nat)
                        == Err::<nat, DecodeError>(e),
                },
            decreases VARLONG_MAX_BYTES - idx,
        {
            if idx == VARLONG_MAX_BYTES {
                return Err(DecodeError::TooLarge);
            }
            if idx == bytes.len() {
                return Err(DecodeError::Incomplete);
            }
            let b: u8 = bytes[idx];
            proof {
                lemma_pow128_increases(idx as nat, 9);
                assert(pow128(9) == 0x8000_0000_0000_0000) by {
                    reveal_with_fuel(pow128, 11);
                }
            }
            if b < 128 {
                proof {
                    vstd::arithmetic::mul::lemma_mul_inequality(b as int, 127, scale as int);
                    vstd::arithmetic::mul::lemma_mul_is_commutative(scale as int, b as int);
                    let s = bytes@.skip(idx as int);
                    assert(s[0] == b);
                    assert(decode_groups(s, (VARLONG_MAX_BYTES - idx) as nat)
                        == Ok::<nat, DecodeError>(b as nat));
                }
                let total: u128 = acc + (b as u128) * scale;
                let low: u64 = (total % 0x1_0000_0000_0000_0000) as u64;
                return Ok(VarLong { value: i64_of_pattern(low) });
            }
            proof {
                vstd::arithmetic::mul::lemma_mul_inequality((b - 128) as int, 127, scale as int);
                let s = bytes@.skip(idx as int);
                let m = (VARLONG_MAX_BYTES - idx) as nat;
                let tail = bytes@.skip(idx as int + 1);
                assert(s.skip(1) =~= tail);
                assert(s[0] == b);
                assert(decode_groups(s, m) == match decode_groups(tail, (m - 1) as nat) {
                    Ok(rest) => Ok::<nat, DecodeError>(group_of(b) + 128 * rest),
                    Err(e) => Err::<nat, DecodeError>(e),
                });
                if let Ok(rest2) = decode_groups(tail, (m - 1) as nat) {
                    vstd::arithmetic::mul::lemma_mul_is_distributive_add(
                        scale as int,
                        (b - 128) as int,
                        128 * rest2 as int,
                    );
                    vstd::arithmetic::mul::lemma_mul_is_associative(scale as int, 128, rest2 as int);
                    assert(scale * (group_of(b) + 128 * rest2)
                        == scale * (b - 128) + (scale * 128) * rest2);
                    assert(decode_groups(bytes@, VARLONG_MAX_BYTES as nat) == Ok::<
                        nat,
                        DecodeError,
                    >((acc + scale * (b - 128) + (scale * 128) * rest2) as nat));
                }
            }
            acc = acc + ((b - 128) as u128) * scale;
            idx = idx + 1;
            scale = scale * 128;
        }
    }
}

/// `pow128` does not decrease as the exponent grows.
proof fn lemma_pow128_increases(a: nat, b: nat)
    requires
        a <= b,
    ensures
        pow128(a) <= pow128(b),
    decreases b,
{
    if a < b {
        lemma_pow128_increases(a, (b - 1) as nat);
    }
}

/// The encoding of `v` has at least one byte, and its length is the least
/// number of 7-bit groups that can hold `v`: `v` fits in that many groups,
/// and, past one byte, not in one group fewer.
proof fn lemma_encode_groups_len(v: nat)
    ensures
        1 <= encode_groups(v).len(),
        v < pow128(encode_groups(v).len()),
        encode_groups(v).len() >= 2 ==> pow128((encode_groups(v).len() - 1) as nat) <= v,
    decreases v,
{
    if v < 128 {
        assert(pow128(1) == 128) by {
            reveal_with_fuel(pow128, 2);
        }
    } else {
        lemma_encode_groups_len(v / 128);
        let len_rest = encode_groups(v / 128).len();
        vstd::arithmetic::div_mod::lemma_fundamental_div_mod(v as int, 128);
        assert(v < 128 * pow128(len_rest));
        if len_rest >= 2 {
            assert(pow128(len_rest) == 128 * pow128((len_rest - 1) as nat));
        } else {
            assert(pow128(1) == 128) by {
                reveal_with_fuel(pow128, 2);
            }
        }
    }
}

/// Every byte of an encoding carries the continuation bit except the
/// last, which never does.
proof fn lemma_encode_groups_shape(v: nat)
    ensures
        forall|i: int|
            0 <= i < encode_groups(v).len() - 1 ==> has_continuation_bit(#[trigger] encode_groups(v)[i]),
        !has_continuation_bit(encode_groups(v).last()),
    decreases v,
{
    if v >= 128 {
        lemma_encode_groups_shape(v / 128);
        let e = encode_groups(v);
        let rest = encode_groups(v / 128);
        assert forall|i: int| 0 <= i < e.len() - 1 implies has_continuation_bit(#[trigger] e[i]) by {
            if i >= 1 {
                assert(e[i] == rest[i - 1]);
            }
        }
        assert(e.last() == rest.last());
    }
}

/// Decoding what `encode_groups` produced recovers the value, for any
/// group budget the value fits in; bytes past the terminating byte play
/// no part.
proof fn lemma_encode_then_decode_groups(v: nat, max: nat, extra: Seq<u8>)
    requires
        1 <= max,
        v < pow128(max),
    ensures
        decode_groups(encode_groups(v) + extra, max) == Ok::<nat, DecodeError>(v),
    decreases v,
{
    let s = encode_groups(v) + extra;
    if v < 128 {
        assert(s[0] == v as u8);
        assert(!has_continuation_bit(s[0]));
    } else {
        assert(pow128(1) == 128) by {
            reveal_with_fuel(pow128, 2);
        }
        if max == 1 {
            assert(false);
        }
        assert(pow128(max) == 128 * pow128((max - 1) as nat));
        vstd::arithmetic::div_mod::lemma_multiply_divide_lt(v as int, 128, pow128((max - 1) as nat) as int);
        lemma_encode_then_decode_groups(v / 128, (max - 1) as nat, extra);
        assert(s.skip(1) =~= encode_groups(v / 128) + extra);
        assert(has_continuation_bit(s[0]));
        assert(group_of(s[0]) == v % 128);
        vstd::arithmetic::div_mod::lemma_fundamental_div_mod(v as int, 128);
    }
}

/// A byte sequence of nothing but continuation bytes, shorter than the
/// group budget, decodes to `Incomplete`.
proof fn lemma_all_continuation_incomplete(s: Seq<u8>, max: nat)
    requires
        s.len() < max,
        forall|i: int| 0 <= i < s.len() ==> has_continuation_bit(#[trigger] s[i]),
    ensures
        decode_groups(s, max) == Err::<nat, DecodeError>(DecodeError::Incomplete),
    decreases s.len(),
{
    if s.len() > 0 {
        let tail = s.skip(1);
        assert forall|i: int| 0 <= i < tail.len() implies has_continuation_bit(#[trigger] tail[i]) by {
            assert(tail[i] == s[i + 1]);
        }
        lemma_all_continuation_incomplete(tail, (max - 1) as nat);
    }
}

/// A byte sequence whose whole group budget is taken up by continuation
/// bytes decodes to `TooLarge`.
proof fn lemma_all_continuation_too_large(s: Seq<u8>, max: nat)
    requires
        s.len() >= max,
        forall|i: int| 0 <= i < max ==> has_continuation_bit(#[trigger] s[i]),
    ensures
        decode_groups(s, max) == Err::<nat, DecodeError>(DecodeError::TooLarge),
    decreases max,
{
    if max > 0 {
        let tail = s.skip(1);
        assert forall|i: int| 0 <= i < max - 1 implies has_continuation_bit(#[trigger] tail[i]) by {
            assert(tail[i] == s[i + 1]);
        }
        lemma_all_continuation_too_large(tail, (max - 1) as nat);
    }
}

/// Round trip: decoding an encoded `VarInt` yields the original value.
pub proof fn lemma_varint_round_trip(v: i32)
    ensures
        varint_decoding(varint_encoding(v)) == Ok::<i32, DecodeError>(v),
{
    lemma_varint_trailing_bytes_ignored(v, Seq::empty());
    assert(varint_encoding(v) + Seq::<u8>::empty() =~= varint_encoding(v));
}

/// Trailing bytes: whatever follows the terminating byte of a `VarInt`
/// encoding is left alone and does not change what is decoded.
pub proof fn lemma_varint_trailing_bytes_ignored(v: i32, extra: Seq<u8>)
    ensures
        varint_decoding(varint_encoding(v) + extra) == Ok::<i32, DecodeError>(v),
{
    let n = u32_pattern(v);
    assert(pow128(5) == 0x8_0000_0000) by {
        reveal_with_fuel(pow128, 6);
    }
    lemma_encode_then_decode_groups(n, 5, extra);
    vstd::arithmetic::div_mod::lemma_small_mod(n, 0x1_0000_0000);
}

/// Round trip: decoding an encoded `VarLong` yields the original value.
pub proof fn lemma_varlong_round_trip(v: i64)
    ensures
        varlong_decoding(varlong_encoding(v)) == Ok::<i64, DecodeError>(v),
{
    lemma_varlong_trailing_bytes_ignored(v, Seq::empty());
    assert(varlong_encoding(v) + Seq::<u8>::empty() =~= varlong_encoding(v));
}

/// Trailing bytes: whatever follows the terminating byte of a `VarLong`
/// encoding is left alone and does not change what is decoded.
pub proof fn lemma_varlong_trailing_bytes_ignored(v: i64, extra: Seq<u8>)
    ensures
        varlong_decoding(varlong_encoding(v) + extra) == Ok::<i64, DecodeError>(v),
{
    let n = u64_pattern(v);
    assert(pow128(10) == 0x40_0000_0000_0000_0000) by {
        reveal_with_fuel(pow128, 11);
    }
    lemma_encode_then_decode_groups(n, 10, extra);
    vstd::arithmetic::div_mod::lemma_small_mod(n, 0x1_0000_0000_0000_0000);
}

/// Minimality: a `VarInt` encoding is one to five bytes, and its length
/// is the least number of 7-bit groups that can hold the bit pattern —
/// the pattern fits in that many groups but, past one byte, not in one
/// group fewer.
pub proof fn lemma_varint_minimal(v: i32)
    ensures
        1 <= varint_encoding(v).len() <= 5,
        u32_pattern(v) < pow128(varint_encoding(v).len()),
        varint_encoding(v).len() >= 2 ==> pow128((varint_encoding(v).len() - 1) as nat) <= u32_pattern(v),
{
    lemma_encode_groups_len(u32_pattern(v));
    if varint_encoding(v).len() > 5 {
        lemma_pow128_increases(5, (varint_encoding(v).len() - 1) as nat);
        assert(pow128(5) == 0x8_0000_0000) by {
            reveal_with_fuel(pow128, 6);
        }
        assert(false);
    }
}

/// Minimality: a `VarLong` encoding is one to ten bytes, and its length
/// is the least number of 7-bit groups that can hold the bit pattern —
/// the pattern fits in that many groups but, past one byte, not in one
/// group fewer.
pub proof fn lemma_varlong_minimal(v: i64)
    ensures
        1 <= varlong_encoding(v).len() <= 10,
        u64_pattern(v) < pow128(varlong_encoding(v).len()),
        varlong_encoding(v).len() >= 2 ==> pow128((varlong_encoding(v).len() - 1) as nat) <= u64_pattern(v),
{
    lemma_encode_groups_len(u64_pattern(v));
    if varlong_encoding(v).len() > 10 {
        lemma_pow128_increases(10, (varlong_encoding(v).len() - 1) as nat);
        assert(pow128(10) == 0x40_0000_0000_0000_0000) by {
            reveal_with_fuel(pow128, 11);
        }
        assert(false);
    }
}

/// Incomplete detection: every proper nonempty prefix of a `VarInt`
/// encoding fails to decode, with `Incomplete`.
pub proof fn lemma_varint_prefix_incomplete(v: i32, k: int)
    requires
        0 < k < varint_encoding(v).len(),
    ensures
        varint_decoding(varint_encoding(v).take(k)) == Err::<i32, DecodeError>(DecodeError::Incomplete),
{
    lemma_varint_minimal(v);
    lemma_encode_groups_shape(u32_pattern(v));
    let p = varint_encoding(v).take(k);
    assert forall|i: int| 0 <= i < p.len() implies has_continuation_bit(#[trigger] p[i]) by {
        assert(p[i] == varint_encoding(v)[i]);
    }
    lemma_all_continuation_incomplete(p, VARINT_MAX_BYTES as nat);
}

/// Incomplete detection: every proper nonempty prefix of a `VarLong`
/// encoding fails to decode, with `Incomplete`.
pub proof fn lemma_varlong_prefix_incomplete(v: i64, k: int)
    requires
        0 < k < varlong_encoding(v).len(),
    ensures
        varlong_decoding(varlong_encoding(v).take(k)) == Err::<i64, DecodeError>(DecodeError::Incomplete),
{
    lemma_varlong_minimal(v);
    lemma_encode_groups_shape(u64_pattern(v));
    let p = varlong_encoding(v).take(k);
    assert forall|i: int| 0 <= i < p.len() implies has_continuation_bit(#[trigger] p[i]) by {
        assert(p[i] == varlong_encoding(v)[i]);
    }
    lemma_all_continuation_incomplete(p, VARLONG_MAX_BYTES as nat);
}

/// Bound rejection: a byte sequence whose first five bytes all carry the
/// continuation bit fails to decode as a `VarInt`, with `TooLarge`.
pub proof fn lemma_varint_too_large(bytes: Seq<u8>)
    requires
        bytes.len() >= VARINT_MAX_BYTES,
        forall|i: int| 0 <= i < VARINT_MAX_BYTES ==> has_continuation_bit(#[trigger] bytes[i]),
    ensures
        varint_decoding(bytes) == Err::<i32, DecodeError>(DecodeError::TooLarge),
{
    lemma_all_continuation_too_large(bytes, VARINT_MAX_BYTES as nat);
}

/// Bound rejection: a byte sequence whose first ten bytes all carry the
/// continuation bit fails to decode as a `VarLong`, with `TooLarge`.
pub proof fn lemma_varlong_too_large(bytes: Seq<u8>)
    requires
        bytes.len() >= VARLONG_MAX_BYTES,
        forall|i: int| 0 <= i < VARLONG_MAX_BYTES ==> has_continuation_bit(#[trigger] bytes[i]),
    ensures
        varlong_decoding(bytes) == Err::<i64, DecodeError>(DecodeError::TooLarge),
{
    lemma_all_continuation_too_large(bytes, VARLONG_MAX_BYTES as nat);
}

} // verus!
