//! The estimate of the number of entries of a table.
//!
//! A small table is counted. A large one is not scanned: the estimate reads
//! the first key, the last key and the key of one sampled entry as big-endian
//! numbers, and extrapolates from the distance that the sample covers to the
//! distance between the first key and the last.

use vstd::prelude::*;
use crate::codec::be_value;
use crate::store::Entries;
use num_bigint::{BigInt, Sign};
use num_traits::{ToPrimitive, Zero};

verus! {

/// The number of entries up to which a table is counted, and the position of
/// the sampled entry in a larger one.
pub const SAMPLE: usize = 1000;

/// Integer division that rounds toward zero.
pub open spec fn trunc_div(a: int, b: int) -> int {
    if a >= 0 {
        if b > 0 {
            a / b
        } else {
            -(a / (-b))
        }
    } else {
        if b > 0 {
            -((-a) / b)
        } else {
            (-a) / (-b)
        }
    }
}

/// The estimate from three keys: the distance from the first key to the last
/// one, in units of the distance that the sample covers, times the size of
/// the sample; the highest number where the sample covers no distance, or the
/// result is negative or does not fit.
pub open spec fn extrapolate(first: Seq<u8>, sample: Seq<u8>, last: Seq<u8>) -> int {
    let span = be_value(last) - be_value(first);
    let step = be_value(sample) - be_value(first);
    if step == 0 {
        usize::MAX as int
    } else {
        let q = trunc_div(span, step);
        if 0 <= q && q * SAMPLE <= u64::MAX && q * SAMPLE <= usize::MAX {
            q * SAMPLE
        } else {
            usize::MAX as int
        }
    }
}

/// The estimate of the number of entries: the exact number below the size of
/// the sample, the extrapolation from the first key, the last key and the
/// sampled key otherwise.
pub open spec fn entries_estimate(s: Entries) -> int {
    if s.len() < SAMPLE {
        s.len() as int
    } else {
        extrapolate(s[0].0, s[SAMPLE - 1].0, s[s.len() - 1].0)
    }
}

/// An integer of any size.
#[verifier::external_type_specification]
#[verifier::external_body]
pub struct ExBigInt(BigInt);

/// The integer that a `BigInt` holds.
pub uninterp spec fn big_value(x: BigInt) -> int;

/// `BigInt::from_bytes_be` with a positive sign: the non-negative integer
/// whose big-endian digits in base 256 are `bytes`.
#[verifier::external_body]
fn big_from_bytes_be(bytes: &[u8]) -> (r: BigInt)
    ensures
        big_value(r) == be_value(bytes@),
{
    BigInt::from_bytes_be(Sign::Plus, bytes)
}

/// Subtraction of `BigInt`: the exact difference.
#[verifier::external_body]
fn big_sub(a: &BigInt, b: &BigInt) -> (r: BigInt)
    ensures
        big_value(r) == big_value(*a) - big_value(*b),
{
    a - b
}

/// Division of `BigInt`: the quotient rounded toward zero. The divisor must
/// not be zero, for which the division panics.
#[verifier::external_body]
fn big_div(a: &BigInt, b: &BigInt) -> (r: BigInt)
    requires
        big_value(*b) != 0,
    ensures
        big_value(r) == trunc_div(big_value(*a), big_value(*b)),
{
    a / b
}

/// `Zero::is_zero` of `BigInt`: whether the integer is zero.
#[verifier::external_body]
fn big_is_zero(a: &BigInt) -> (r: bool)
    ensures
        r == (big_value(*a) == 0),
{
    a.is_zero()
}

/// `ToPrimitive::to_u64` of `BigInt`: the integer as a `u64` if it is not
/// negative and fits, nothing otherwise.
#[verifier::external_body]
fn big_to_u64(a: &BigInt) -> (r: Option<u64>)
    ensures
        r == if 0 <= big_value(*a) <= u64::MAX {
            Some(big_value(*a) as u64)
        } else {
            None::<u64>
        },
{
    a.to_u64()
}

/// Extrapolates the number of entries from the first key, the key of the
/// sampled entry and the last key.
pub fn estimate_entries(first: &[u8], sample: &[u8], last: &[u8]) -> (r: usize)
    ensures
        r == extrapolate(first@, sample@, last@),
{
    let f = big_from_bytes_be(first);
    let s = big_from_bytes_be(sample);
    let l = big_from_bytes_be(last);
    let span = big_sub(&l, &f);
    let step = big_sub(&s, &f);
    if big_is_zero(&step) {
        return usize::MAX;
    }
    let q = big_div(&span, &step);
    match big_to_u64(&q) {
        None => {
            proof {
                let v = big_value(q);
                if v > u64::MAX {
                    assert(v * SAMPLE > u64::MAX) by (nonlinear_arith)
                        requires
                            v > u64::MAX,
                    ;
                }
            }
            usize::MAX
        },
        Some(d) => {
            if d > u64::MAX / 1000 {
                assert(d * SAMPLE > u64::MAX) by (nonlinear_arith)
                    requires
                        d > u64::MAX / 1000,
                ;
                usize::MAX
            } else {
                assert(d * SAMPLE <= u64::MAX) by (nonlinear_arith)
                    requires
                        d <= u64::MAX / 1000,
                ;
                let n: u64 = d * 1000;
                if n > usize::MAX as u64 {
                    usize::MAX
                } else {
                    n as usize
                }
            }
        },
    }
}

} // verus!
