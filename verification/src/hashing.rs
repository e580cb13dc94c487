//! Normal forms and hash codes: equal numbers have equal ones.

use crate::binary::{encoded, ENCODED_LEN};
use crate::decimal::Decimal;
use crate::laws::lemma_same_value_iff_same_normal;
use crate::model::Fixed;
use vstd::prelude::*;

verus! {

/// The hash codes are the numbers below this prime, two to the power 61 less one.
pub const HASH_MODULUS: u64 = 0x1FFF_FFFF_FFFF_FFFF;

/// What a run of bytes hashes to: each byte, and one more, is added to 257
/// times what stood before, modulo [`HASH_MODULUS`].
pub open spec fn digest(bytes: Seq<u8>) -> nat
    decreases bytes.len(),
{
    if bytes.len() == 0 {
        0
    } else {
        ((digest(bytes.drop_last()) * 257 + bytes.last() as nat + 1) % (HASH_MODULUS as nat)) as nat
    }
}

impl Fixed {
    /// The hash code of the number: the digest of the binary form of its normal form.
    pub open spec fn hash_value(self) -> nat {
        digest(encoded(self.normal()))
    }
}

/// Zero has the normal form `0` at scale zero, whatever scale it is written at.
pub proof fn lemma_normal_zero(scale: nat)
    ensures
        (Fixed { significand: 0, scale }).normal() == (Fixed { significand: 0, scale: 0 }),
    decreases scale,
{
    if scale > 0 {
        lemma_normal_zero((scale - 1) as nat);
    }
}

/// Decimals that stand for the same number have the same hash code.
pub proof fn lemma_equal_values_hash_alike(a: Fixed, b: Fixed)
    requires
        a.same_value(b),
    ensures
        a.hash_value() == b.hash_value(),
{
    lemma_same_value_iff_same_normal(a, b);
}

impl Decimal {
    /// The same number at the smallest scale that can hold it: trailing
    /// zeros of the significand are taken off while the scale allows it.
    pub fn normalize(&self) -> (r: Decimal)
        ensures
            r@ == self@.normal(),
    {
        let mut significand: i128 = self.significand();
        let mut scale: u32 = self.scale();
        if significand == 0 {
            proof {
                lemma_normal_zero(scale as nat);
            }
            return Decimal::new(0, 0);
        }
        while scale > 0 && significand % 10 == 0
            invariant
                (Fixed { significand: significand as int, scale: scale as nat }).normal()
                    == self@.normal(),
            decreases scale,
        {
            significand = significand / 10;
            scale = scale - 1;
        }
        Decimal::new(significand, scale)
    }

    /// A hash code that goes by the number, not by the representation:
    /// decimals that compare as equal have the same code.
    pub fn hash_code(&self) -> (r: u64)
        ensures
            r == self@.hash_value(),
    {
        let bytes: [u8; ENCODED_LEN] = self.normalize().to_bytes();
        let mut code: u64 = 0;
        let mut i: usize = 0;
        assert(bytes@.subrange(0, 0) =~= Seq::<u8>::empty());
        while i < ENCODED_LEN
            invariant
                i <= ENCODED_LEN,
                bytes@.len() == ENCODED_LEN,
                code < HASH_MODULUS,
                code == digest(bytes@.subrange(0, i as int)),
            decreases ENCODED_LEN - i,
        {
            proof {
                let next = bytes@.subrange(0, i + 1);
                assert(next.drop_last() =~= bytes@.subrange(0, i as int));
                assert(next.last() == bytes[i as int]);
            }
            let wide: u128 = (code as u128 * 257 + bytes[i] as u128 + 1) % (HASH_MODULUS as u128);
            code = wide as u64;
            i = i + 1;
        }
        assert(bytes@.subrange(0, ENCODED_LEN as int) =~= bytes@);
        code
    }
}

} // verus!
