//! The fixed-width binary form of a decimal.
//!
//! Twenty bytes: the significand as a 128-bit two's complement integer, then
//! the scale as a 32-bit unsigned integer, both with the least significant
//! byte first. The form keeps the representation: trailing zeros of the
//! significand and the scale come back as they went in.

use crate::decimal::Decimal;
use crate::model::Fixed;
use vstd::arithmetic::div_mod::lemma_fundamental_div_mod_converse;
use vstd::prelude::*;

verus! {

/// How many bytes a decimal takes.
pub const ENCODED_LEN: usize = 20;

/// Two to the power 128: one more than what sixteen bytes can hold.
pub open spec fn modulus() -> int {
    0x1_0000_0000_0000_0000_0000_0000_0000_0000int
}

/// The number of values that `width` bytes can tell apart.
pub open spec fn radix(width: nat) -> nat
    decreases width,
{
    if width == 0 {
        1
    } else {
        256 * radix((width - 1) as nat)
    }
}

/// The `width` lowest base-256 digits of `v`, the least significant first.
pub open spec fn le_bytes(v: nat, width: nat) -> Seq<u8>
    decreases width,
{
    if width == 0 {
        Seq::empty()
    } else {
        seq![(v % 256) as u8] + le_bytes(v / 256, (width - 1) as nat)
    }
}

/// The number whose base-256 digits are `bytes`, the least significant first.
pub open spec fn le_value(bytes: Seq<u8>) -> nat
    decreases bytes.len(),
{
    if bytes.len() == 0 {
        0
    } else {
        bytes[0] as nat + 256 * le_value(bytes.drop_first())
    }
}

/// The unsigned number with the same 128 bits as the two's complement of `x`.
pub open spec fn unsigned_of(x: int) -> nat {
    if x >= 0 {
        x as nat
    } else {
        (x + modulus()) as nat
    }
}

/// The two's complement number with the same 128 bits as `u`.
pub open spec fn signed_of(u: nat) -> int {
    if u < modulus() / 2 {
        u as int
    } else {
        u - modulus()
    }
}

/// The binary form of a decimal.
pub open spec fn encoded(d: Fixed) -> Seq<u8> {
    le_bytes(unsigned_of(d.significand), 16) + le_bytes(d.scale, 4)
}

/// The decimal that twenty bytes stand for.
pub open spec fn decoded(bytes: Seq<u8>) -> Fixed {
    Fixed {
        significand: signed_of(le_value(bytes.subrange(0, 16))),
        scale: le_value(bytes.subrange(16, 20)),
    }
}

/// Four bytes tell apart the values of a `u32`, sixteen those of a `u128`.
pub proof fn lemma_radix_values()
    ensures
        radix(4) == 0x1_0000_0000,
        radix(16) == modulus(),
{
    reveal_with_fuel(radix, 17);
}

/// Writing `width` digits gives `width` bytes.
pub proof fn lemma_le_bytes_len(v: nat, width: nat)
    ensures
        le_bytes(v, width).len() == width,
    decreases width,
{
    if width > 0 {
        lemma_le_bytes_len(v / 256, (width - 1) as nat);
    }
}

/// Bytes are worth less than what their count can tell apart.
pub proof fn lemma_le_value_bound(bytes: Seq<u8>)
    ensures
        le_value(bytes) < radix(bytes.len()),
    decreases bytes.len(),
{
    if bytes.len() > 0 {
        lemma_le_value_bound(bytes.drop_first());
    }
}

/// A number that `width` bytes can hold is read back from its digits.
pub proof fn lemma_le_value_of_bytes(v: nat, width: nat)
    requires
        v < radix(width),
    ensures
        le_value(le_bytes(v, width)) == v,
    decreases width,
{
    if width > 0 {
        let rest = le_bytes(v / 256, (width - 1) as nat);
        let all = le_bytes(v, width);
        assert(all.drop_first() =~= rest);
        lemma_le_value_of_bytes(v / 256, (width - 1) as nat);
    }
}

/// Bytes are the digits of what they are worth.
pub proof fn lemma_le_bytes_of_value(bytes: Seq<u8>)
    ensures
        le_bytes(le_value(bytes), bytes.len()) == bytes,
    decreases bytes.len(),
{
    if bytes.len() == 0 {
        assert(le_bytes(le_value(bytes), bytes.len()) =~= bytes);
    } else {
        let rest = bytes.drop_first();
        lemma_le_bytes_of_value(rest);
        let v = le_value(bytes);
        assert(v / 256 == le_value(rest) && v % 256 == bytes[0]) by {
            lemma_fundamental_div_mod_converse(
                v as int,
                256,
                le_value(rest) as int,
                bytes[0] as int,
            );
        }
        assert(le_bytes(v, bytes.len()) =~= bytes);
    }
}

/// Decoding the binary form of a decimal gives the decimal itself: the same
/// significand, trailing zeros included, and the same scale.
pub proof fn lemma_decode_encode(d: Fixed)
    requires
        d.representable(),
    ensures
        encoded(d).len() == 20,
        decoded(encoded(d)) == d,
{
    let u = unsigned_of(d.significand);
    let low = le_bytes(u, 16);
    let high = le_bytes(d.scale, 4);
    lemma_radix_values();
    lemma_le_bytes_len(u, 16);
    lemma_le_bytes_len(d.scale, 4);
    lemma_le_value_of_bytes(u, 16);
    lemma_le_value_of_bytes(d.scale, 4);
    assert(encoded(d).subrange(0, 16) =~= low);
    assert(encoded(d).subrange(16, 20) =~= high);
}

/// Encoding what twenty bytes stand for gives the same twenty bytes, and
/// what they stand for is within a decimal's range.
pub proof fn lemma_encode_decode(bytes: Seq<u8>)
    requires
        bytes.len() == 20,
    ensures
        decoded(bytes).representable(),
        encoded(decoded(bytes)) == bytes,
{
    let low = bytes.subrange(0, 16);
    let high = bytes.subrange(16, 20);
    lemma_radix_values();
    lemma_le_value_bound(low);
    lemma_le_value_bound(high);
    lemma_le_bytes_of_value(low);
    lemma_le_bytes_of_value(high);
    assert(unsigned_of(signed_of(le_value(low))) == le_value(low));
    assert(bytes =~= low + high);
}

impl Decimal {
    /// The binary form of the decimal.
    pub fn to_bytes(&self) -> (r: [u8; ENCODED_LEN])
        ensures
            r@ == encoded(self@),
    {
        let significand: i128 = self.significand();
        let bits: u128 = if significand >= 0 {
            significand as u128
        } else {
            ((significand + i128::MAX) + 1) as u128 + 0x8000_0000_0000_0000_0000_0000_0000_0000u128
        };
        let scale: u32 = self.scale();
        let mut out: [u8; ENCODED_LEN] = [0u8; ENCODED_LEN];
        let mut rest: u128 = bits;
        let mut i: usize = 0;
        assert(out@.subrange(0, 0) + le_bytes(rest as nat, 16) =~= le_bytes(bits as nat, 16));
        while i < 16
            invariant
                i <= 16,
                out@.subrange(0, i as int) + le_bytes(rest as nat, (16 - i) as nat) == le_bytes(
                    bits as nat,
                    16,
                ),
            decreases 16 - i,
        {
            let ghost before = out@.subrange(0, i as int);
            out[i] = (rest % 256) as u8;
            proof {
                assert(out@.subrange(0, i + 1) =~= before + seq![(rest % 256) as u8]);
                assert(before + seq![(rest % 256) as u8] + le_bytes(
                    (rest / 256) as nat,
                    (16 - i - 1) as nat,
                ) =~= before + le_bytes(rest as nat, (16 - i) as nat));
            }
            rest = rest / 256;
            i = i + 1;
        }
        let mut rest: u32 = scale;
        assert(out@.subrange(0, 16) + le_bytes(rest as nat, 0) =~= out@.subrange(0, 16));
        assert(out@.subrange(16, 16) + le_bytes(rest as nat, 4) =~= le_bytes(scale as nat, 4));
        while i < 20
            invariant
                16 <= i <= 20,
                out@.subrange(0, 16) == le_bytes(bits as nat, 16),
                out@.subrange(16, i as int) + le_bytes(rest as nat, (20 - i) as nat) == le_bytes(
                    scale as nat,
                    4,
                ),
            decreases 20 - i,
        {
            let ghost low = out@.subrange(0, 16);
            let ghost before = out@.subrange(16, i as int);
            out[i] = (rest % 256) as u8;
            proof {
                assert(out@.subrange(0, 16) =~= low);
                assert(out@.subrange(16, i + 1) =~= before + seq![(rest % 256) as u8]);
                assert(before + seq![(rest % 256) as u8] + le_bytes(
                    (rest / 256) as nat,
                    (20 - i - 1) as nat,
                ) =~= before + le_bytes(rest as nat, (20 - i) as nat));
            }
            rest = rest / 256;
            i = i + 1;
        }
        assert(out@.subrange(16, 20) + le_bytes(rest as nat, 0) =~= out@.subrange(16, 20));
        assert(out@ =~= out@.subrange(0, 16) + out@.subrange(16, 20));
        out
    }

    /// The decimal that the twenty bytes stand for. Every twenty bytes
    /// stand for one.
    pub fn from_bytes(bytes: &[u8; ENCODED_LEN]) -> (r: Decimal)
        ensures
            r@ == decoded(bytes@),
    {
        let ghost low = bytes@.subrange(0, 16);
        let ghost high = bytes@.subrange(16, 20);
        let mut scale: u32 = 0;
        let mut i: usize = 20;
        assert(high.subrange(4, 4) =~= Seq::<u8>::empty());
        while i > 16
            invariant
                16 <= i <= 20,
                high == bytes@.subrange(16, 20),
                scale == le_value(high.subrange(i - 16, 4)),
            decreases i,
        {
            i = i - 1;
            proof {
                let tail = high.subrange(i - 16, 4);
                assert(tail.drop_first() =~= high.subrange(i - 16 + 1, 4));
                assert(tail[0] == bytes[i as int]);
                lemma_le_value_bound(tail);
                reveal_with_fuel(radix, 5);
            }
            scale = scale * 256 + bytes[i] as u32;
        }
        assert(high.subrange(0, 4) =~= high);
        let mut bits: u128 = 0;
        assert(low.subrange(16, 16) =~= Seq::<u8>::empty());
        while i > 0
            invariant
                i <= 16,
                low == bytes@.subrange(0, 16),
                bits == le_value(low.subrange(i as int, 16)),
            decreases i,
        {
            i = i - 1;
            proof {
                let tail = low.subrange(i as int, 16);
                assert(tail.drop_first() =~= low.subrange(i + 1, 16));
                assert(tail[0] == bytes[i as int]);
                lemma_le_value_bound(tail);
                reveal_with_fuel(radix, 17);
            }
            bits = bits * 256 + bytes[i] as u128;
        }
        assert(low.subrange(0, 16) =~= low);
        let half: u128 = 0x8000_0000_0000_0000_0000_0000_0000_0000u128;
        let significand: i128 = if bits < half {
            bits as i128
        } else {
            (bits - half) as i128 + i128::MIN
        };
        Decimal::new(significand, scale)
    }
}

} // verus!
