//! Reading a decimal from text.

use crate::decimal::Decimal;
use crate::digits::{
    all_digits, digit_value, digits_value, extend, is_digit, lemma_digits_value_bound,
    lemma_extend_concat,
};
use crate::error::Error;
use crate::text::{
    fraction_part, is_negative, lemma_first_point, parsed, sign_len, unsigned_part, well_formed,
    whole_part,
};
use vstd::prelude::*;
use vstd::string::*;
use vstd::utf8::*;

verus! {

/// The byte of the digit `0`.
pub const DIGIT_ZERO: u8 = 48;

/// The byte of the digit `9`.
pub const DIGIT_NINE: u8 = 57;

/// The byte of the decimal point.
pub const POINT: u8 = 46;

/// The byte of the plus sign.
pub const PLUS: u8 = 43;

/// The byte of the minus sign.
pub const MINUS: u8 = 45;

/// The characters that the bytes stand for, one character for each byte.
pub open spec fn chars_of(bytes: Seq<u8>) -> Seq<char> {
    Seq::new(bytes.len(), |i: int| bytes[i] as char)
}

/// A literal holds nothing but digits, points and signs, all of them ASCII.
pub proof fn lemma_well_formed_is_ascii(s: Seq<char>)
    requires
        well_formed(s),
    ensures
        is_ascii_chars(s),
{
    let body = unsigned_part(s);
    body.index_of_first_ensures('.');
    assert forall|i: int| 0 <= i < s.len() implies '\0' <= #[trigger] s[i] <= '\u{7f}' by {
        if i >= sign_len(s) {
            let j = i - sign_len(s);
            assert(s[i] == body[j]);
            match body.index_of_first('.') {
                Some(k) => {
                    if j < k {
                        assert(is_digit(whole_part(body)[j]));
                    } else if j > k {
                        assert(is_digit(fraction_part(body)[j - k - 1]));
                    }
                },
                None => {
                    assert(is_digit(whole_part(body)[j]));
                },
            }
        }
    }
}

/// Whether the bytes from `from` up to `to` are all digits.
fn only_digits(bytes: &[u8], from: usize, to: usize) -> (r: bool)
    requires
        from <= to <= bytes.len(),
    ensures
        r == all_digits(chars_of(bytes@).subrange(from as int, to as int)),
{
    let ghost run = chars_of(bytes@).subrange(from as int, to as int);
    let mut i: usize = from;
    while i < to
        invariant
            from <= i <= to <= bytes.len(),
            run == chars_of(bytes@).subrange(from as int, to as int),
            forall|j: int| 0 <= j < i - from ==> is_digit(#[trigger] run[j]),
        decreases to - i,
    {
        let b: u8 = bytes[i];
        if b < DIGIT_ZERO || b > DIGIT_NINE {
            assert(!is_digit(run[i - from]));
            return false;
        }
        i = i + 1;
    }
    true
}

/// The first place at or behind `from` where a point stands, or the length
/// of `bytes` where none does.
fn find_point(bytes: &[u8], from: usize) -> (k: usize)
    requires
        from <= bytes.len(),
    ensures
        from <= k <= bytes.len(),
        k < bytes.len() ==> bytes[k as int] == POINT,
        forall|j: int| from <= j < k ==> bytes[j] != POINT,
{
    let mut k: usize = from;
    while k < bytes.len()
        invariant
            from <= k <= bytes.len(),
            forall|j: int| from <= j < k ==> bytes[j] != POINT,
        decreases bytes.len() - k,
    {
        if bytes[k] == POINT {
            return k;
        }
        k = k + 1;
    }
    k
}

/// Reads the digits from `from` up to `to` behind a numeral worth `v`.
///
/// A magnitude is held exactly while it is in range and as `None` once it
/// has left it; `start` holds `v` in that way, and the result holds the
/// number read.
fn read_digits(bytes: &[u8], from: usize, to: usize, start: Option<u128>, Ghost(v): Ghost<int>) -> (r:
    Option<u128>)
    requires
        from <= to <= bytes.len(),
        all_digits(chars_of(bytes@).subrange(from as int, to as int)),
        v >= 0,
        start matches Some(m) ==> m == v,
        start is None ==> v > u128::MAX,
    ensures
        r matches Some(m) ==> m == extend(v, chars_of(bytes@).subrange(from as int, to as int)),
        r is None ==> extend(v, chars_of(bytes@).subrange(from as int, to as int)) > u128::MAX,
{
    let ghost run = chars_of(bytes@).subrange(from as int, to as int);
    let mut acc: Option<u128> = start;
    let mut i: usize = from;
    assert(run.subrange(0, 0) =~= Seq::<char>::empty());
    while i < to
        invariant
            from <= i <= to <= bytes.len(),
            run == chars_of(bytes@).subrange(from as int, to as int),
            all_digits(run),
            extend(v, run.subrange(0, i - from)) >= 0,
            acc matches Some(m) ==> m == extend(v, run.subrange(0, i - from)),
            acc is None ==> extend(v, run.subrange(0, i - from)) > u128::MAX,
        decreases to - i,
    {
        let b: u8 = bytes[i];
        proof {
            let next = run.subrange(0, i - from + 1);
            assert(next.drop_last() =~= run.subrange(0, i - from));
            assert(next.last() == run[i - from]);
            assert(is_digit(run[i - from]));
            assert(digit_value(run[i - from]) == b - DIGIT_ZERO);
        }
        acc = match acc {
            Some(m) => match m.checked_mul(10) {
                Some(tens) => tens.checked_add((b - DIGIT_ZERO) as u128),
                None => None,
            },
            None => None,
        };
        i = i + 1;
    }
    assert(run.subrange(0, to - from) =~= run);
    acc
}

/// Reads a decimal from ASCII bytes: an optional sign, then digits with at
/// most one point among them.
///
/// Fails with [`Error::Parse`] exactly when the bytes are no decimal literal;
/// otherwise with [`Error::Overflow`] exactly when the significand or the
/// scale that the literal denotes is out of range.
pub fn parse_ascii(bytes: &[u8]) -> (r: Result<Decimal, Error>)
    ensures
        match r {
            Ok(d) => well_formed(chars_of(bytes@)) && d@ == parsed(chars_of(bytes@)),
            Err(e) => if well_formed(chars_of(bytes@)) {
                e == Error::Overflow && !parsed(chars_of(bytes@)).representable()
            } else {
                e == Error::Parse
            },
        },
{
    let ghost s = chars_of(bytes@);
    let ghost body = unsigned_part(s);
    let n: usize = bytes.len();
    if n == 0 {
        proof {
            body.index_of_first_ensures('.');
        }
        return Err(Error::Parse);
    }
    let negative: bool = bytes[0] == MINUS;
    let start: usize = if bytes[0] == PLUS || bytes[0] == MINUS {
        1
    } else {
        0
    };
    assert(start == sign_len(s) && negative == is_negative(s)) by {
        assert(s[0] == bytes[0] as char);
    }
    let k: usize = find_point(bytes, start);
    let after: usize = if k < n {
        k + 1
    } else {
        n
    };
    proof {
        assert forall|j: int| 0 <= j < k - start implies body[j] != '.' by {
            assert(body[j] == bytes[start + j] as char);
        }
        if k < n {
            assert(body[k - start] == bytes[k as int] as char);
            lemma_first_point(body, k - start);
            assert(whole_part(body) =~= s.subrange(start as int, k as int));
            assert(fraction_part(body) =~= s.subrange(after as int, n as int));
        } else {
            body.index_of_first_ensures('.');
            assert(body.index_of_first('.') is None);
            assert(whole_part(body) =~= s.subrange(start as int, k as int));
            assert(fraction_part(body) =~= s.subrange(after as int, n as int));
        }
    }
    if !only_digits(bytes, start, k) {
        return Err(Error::Parse);
    }
    if !only_digits(bytes, after, n) {
        return Err(Error::Parse);
    }
    if k - start == 0 && n - after == 0 {
        return Err(Error::Parse);
    }
    let whole: Option<u128> = read_digits(bytes, start, k, Some(0), Ghost(0));
    proof {
        lemma_digits_value_bound(whole_part(body));
        lemma_extend_concat(0, whole_part(body), fraction_part(body));
    }
    let all: Option<u128> = read_digits(
        bytes,
        after,
        n,
        whole,
        Ghost(digits_value(whole_part(body))),
    );
    let places: usize = n - after;
    if places > u32::MAX as usize {
        return Err(Error::Overflow);
    }
    let limit: u128 = 0x8000_0000_0000_0000_0000_0000_0000_0000u128;
    match all {
        Some(m) => {
            if m < limit {
                let unsigned: i128 = m as i128;
                Ok(
                    Decimal::new(
                        if negative {
                            -unsigned
                        } else {
                            unsigned
                        },
                        places as u32,
                    ),
                )
            } else if negative && m == limit {
                Ok(Decimal::new(i128::MIN, places as u32))
            } else {
                Err(Error::Overflow)
            }
        },
        None => Err(Error::Overflow),
    }
}

impl Decimal {
    /// Reads a decimal from text: an optional sign, then digits with at most
    /// one point among them. The digits behind the point set the scale, and
    /// all the digits together are the significand. Leading zeros are read
    /// and count for nothing; blanks are not skipped.
    ///
    /// Fails with [`Error::Parse`] exactly when the text is no decimal
    /// literal; otherwise with [`Error::Overflow`] exactly when the
    /// significand or the scale that the literal denotes is out of range.
    pub fn from_str(text: &str) -> (r: Result<Decimal, Error>)
        ensures
            match r {
                Ok(d) => well_formed(text@) && d@ == parsed(text@),
                Err(e) => if well_formed(text@) {
                    e == Error::Overflow && !parsed(text@).representable()
                } else {
                    e == Error::Parse
                },
            },
    {
        if !text.is_ascii() {
            proof {
                if well_formed(text@) {
                    lemma_well_formed_is_ascii(text@);
                }
            }
            return Err(Error::Parse);
        }
        let bytes = text.as_bytes();
        proof {
            is_ascii_chars_encode_utf8(text@);
            assert(chars_of(bytes@) =~= text@);
        }
        parse_ascii(bytes)
    }
}

} // verus!
