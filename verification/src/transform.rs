//! The exact check of a federation member transform: a finite, affine and
//! invertible 4x4 matrix whose inverse is representable, decided on the
//! IEEE-754 bit patterns of its sixteen `f64` entries with arbitrary-precision
//! integers.

use vstd::arithmetic::power2::{lemma2_to64, lemma2_to64_rest, pow2};
use vstd::prelude::*;

use num_bigint::{BigInt, Sign};

use crate::error::{not_conformant, IcddError};
use crate::text::owned;

verus! {

/// An integer as a sign and its magnitude in base-2^32 digits, least
/// significant first.
pub struct BigInteger {
    pub negative: bool,
    pub digits: Vec<u32>,
}

/// The number the base-2^32 digits spell, least significant first.
pub open spec fn digits_value(d: Seq<u32>) -> nat
    decreases d.len(),
{
    if d.len() == 0 {
        0
    } else {
        (d[0] + 4294967296 * digits_value(d.drop_first())) as nat
    }
}

impl BigInteger {
    /// The integer this stands for.
    pub open spec fn value(&self) -> int {
        if self.negative {
            -(digits_value(self.digits@) as int)
        } else {
            digits_value(self.digits@) as int
        }
    }
}

/// The product of two integers (`BigInt`'s `*`).
#[verifier::external_body]
fn big_mul(a: &BigInteger, b: &BigInteger) -> (r: BigInteger)
    ensures
        r.value() == a.value() * b.value(),
{
    let x = BigInt::from_slice(if a.negative { Sign::Minus } else { Sign::Plus }, &a.digits);
    let y = BigInt::from_slice(if b.negative { Sign::Minus } else { Sign::Plus }, &b.digits);
    let (sign, digits) = (x * y).to_u32_digits();
    BigInteger { negative: sign == Sign::Minus, digits }
}

/// The difference of two integers (`BigInt`'s `-`).
#[verifier::external_body]
fn big_sub(a: &BigInteger, b: &BigInteger) -> (r: BigInteger)
    ensures
        r.value() == a.value() - b.value(),
{
    let x = BigInt::from_slice(if a.negative { Sign::Minus } else { Sign::Plus }, &a.digits);
    let y = BigInt::from_slice(if b.negative { Sign::Minus } else { Sign::Plus }, &b.digits);
    let (sign, digits) = (x - y).to_u32_digits();
    BigInteger { negative: sign == Sign::Minus, digits }
}

/// The sum of two integers (`BigInt`'s `+`).
#[verifier::external_body]
fn big_add(a: &BigInteger, b: &BigInteger) -> (r: BigInteger)
    ensures
        r.value() == a.value() + b.value(),
{
    let x = BigInt::from_slice(if a.negative { Sign::Minus } else { Sign::Plus }, &a.digits);
    let y = BigInt::from_slice(if b.negative { Sign::Minus } else { Sign::Plus }, &b.digits);
    let (sign, digits) = (x + y).to_u32_digits();
    BigInteger { negative: sign == Sign::Minus, digits }
}

/// The integer times `2^n` (`BigInt`'s `<<`).
#[verifier::external_body]
fn big_shl(a: &BigInteger, n: usize) -> (r: BigInteger)
    ensures
        r.value() == a.value() * pow2(n as nat),
{
    let x = BigInt::from_slice(if a.negative { Sign::Minus } else { Sign::Plus }, &a.digits);
    let (sign, digits) = (x << n).to_u32_digits();
    BigInteger { negative: sign == Sign::Minus, digits }
}

/// Whether the first integer is at most the second (`BigInt`'s `<=`).
#[verifier::external_body]
fn big_le(a: &BigInteger, b: &BigInteger) -> (r: bool)
    ensures
        r == (a.value() <= b.value()),
{
    let x = BigInt::from_slice(if a.negative { Sign::Minus } else { Sign::Plus }, &a.digits);
    let y = BigInt::from_slice(if b.negative { Sign::Minus } else { Sign::Plus }, &b.digits);
    x <= y
}

/// The integer `m`.
fn big_from_u64(m: u64) -> (r: BigInteger)
    ensures
        r.value() == m,
{
    let lo = (m & 0xffff_ffff) as u32;
    let hi = (m >> 32) as u32;
    assert((m & 0xffff_ffff) + (m >> 32) * 0x1_0000_0000 == m) by (bit_vector);
    assert(m & 0xffff_ffff < 0x1_0000_0000) by (bit_vector);
    assert(m >> 32 < 0x1_0000_0000) by (bit_vector);
    let digits = vec![lo, hi];
    let ghost rest = digits@.drop_first();
    assert(rest.drop_first() =~= Seq::<u32>::empty());
    assert(digits_value(rest.drop_first()) == 0);
    assert(rest[0] == hi);
    assert(digits_value(rest) == hi);
    BigInteger { negative: false, digits }
}

/// The integer with the other sign.
fn big_neg(a: BigInteger) -> (r: BigInteger)
    ensures
        r.value() == -a.value(),
{
    BigInteger { negative: !a.negative, digits: a.digits }
}

/// The magnitude of an integer.
fn big_abs(a: &BigInteger) -> (r: BigInteger)
    ensures
        r.value() == abs(a.value()),
{
    BigInteger { negative: false, digits: a.digits.clone() }
}

/// The absolute value of an integer.
pub open spec fn abs(x: int) -> int {
    if x < 0 {
        -x
    } else {
        x
    }
}

// ---------------------------------------------------------------------------
// The value of an `f64` bit pattern
/// The biased exponent field of an `f64` bit pattern.
pub open spec fn exponent_field(b: u64) -> u64 {
    (b >> 52) & 0x7ff
}

/// The fraction field of an `f64` bit pattern.
pub open spec fn fraction_field(b: u64) -> u64 {
    b & 0xf_ffff_ffff_ffff
}

/// The bit pattern is that of a finite number (not an infinity or a NaN).
pub open spec fn is_finite_bits(b: u64) -> bool {
    exponent_field(b) != 0x7ff
}

/// The bit pattern is that of `0.0` or `-0.0`.
pub open spec fn is_zero_bits(b: u64) -> bool {
    b & 0x7fff_ffff_ffff_ffff == 0
}

/// The bit pattern of `1.0`.
pub const ONE_BITS: u64 = 0x3ff0_0000_0000_0000;

/// The value of finite `f64` bits times `2^1074`, which makes every finite
/// `f64` an integer: the significand (with its hidden bit for a normal
/// number) shifted by the biased exponent less one, with the sign applied.
pub open spec fn scaled_value(b: u64) -> int {
    let e = exponent_field(b);
    let magnitude = if e == 0 {
        fraction_field(b) as int
    } else {
        (fraction_field(b) + 0x10_0000_0000_0000) * pow2((e - 1) as nat)
    };
    if b >> 63 != 0 {
        -magnitude
    } else {
        magnitude
    }
}

/// The determinant of the 3x3 matrix `[a b c; d e f; g h i]`.
pub open spec fn det3(m: Seq<int>) -> int {
    m[0] * (m[4] * m[8] - m[5] * m[7]) - m[1] * (m[3] * m[8] - m[5] * m[6]) + m[2] * (m[3] * m[7] - m[4]
        * m[6])
}

/// The entries of the adjugate of the 3x3 matrix `[a b c; d e f; g h i]`,
/// row by row.
pub open spec fn adjugate3(m: Seq<int>) -> Seq<int> {
    seq![
        m[4] * m[8] - m[5] * m[7],
        m[2] * m[7] - m[1] * m[8],
        m[1] * m[5] - m[2] * m[4],
        m[5] * m[6] - m[3] * m[8],
        m[0] * m[8] - m[2] * m[6],
        m[2] * m[3] - m[0] * m[5],
        m[3] * m[7] - m[4] * m[6],
        m[1] * m[6] - m[0] * m[7],
        m[0] * m[4] - m[1] * m[3],
    ]
}

/// The entry `cofactor / determinant` of the inverse, for a matrix scaled
/// by `2^1074`, is at most the largest finite `f64`, `(2^53 - 1) * 2^971`.
pub open spec fn inverse_entry_fits(cofactor: int, determinant: int) -> bool {
    abs(cofactor) * pow2(103) <= abs(determinant) * (pow2(53) - 1)
}

/// The linear part of the transform, scaled by `2^1074`: entries 0, 1, 2,
/// 4, 5, 6, 8, 9, 10, row by row.
pub open spec fn linear_part(bits: Seq<u64>) -> Seq<int> {
    seq![
        scaled_value(bits[0]),
        scaled_value(bits[1]),
        scaled_value(bits[2]),
        scaled_value(bits[4]),
        scaled_value(bits[5]),
        scaled_value(bits[6]),
        scaled_value(bits[8]),
        scaled_value(bits[9]),
        scaled_value(bits[10]),
    ]
}

/// Why the transform with these sixteen `f64` bit patterns (row by row) is
/// refused, if it is: a non-finite entry; a last row other than
/// `0 0 0 1`; a singular linear part; or an inverse with an entry beyond the
/// largest finite `f64`.
pub open spec fn spec_transform_problem(bits: Seq<u64>) -> Option<Seq<char>> {
    let m = linear_part(bits);
    if exists|i: int| 0 <= i < 16 && !is_finite_bits(#[trigger] bits[i]) {
        Some("federation member transform must contain finite numbers"@)
    } else if !(is_zero_bits(bits[12]) && is_zero_bits(bits[13]) && is_zero_bits(bits[14]) && bits[15]
        == ONE_BITS) {
        Some("federation member transform must be an affine 4x4 matrix"@)
    } else if det3(m) == 0 || exists|k: int|
        0 <= k < 9 && !inverse_entry_fits(#[trigger] adjugate3(m)[k], det3(m)) {
        Some("federation member transform must be invertible"@)
    } else {
        None
    }
}

/// The value of finite `f64` bits times `2^1074`.
fn scaled(b: u64) -> (r: BigInteger)
    ensures
        r.value() == scaled_value(b),
{
    let e = (b >> 52) & 0x7ff;
    let f = b & 0xf_ffff_ffff_ffff;
    assert(b & 0xf_ffff_ffff_ffff < 0x10_0000_0000_0000) by (bit_vector);
    assert((b >> 52) & 0x7ff <= 0x7ff) by (bit_vector);
    let magnitude = if e == 0 {
        big_from_u64(f)
    } else {
        let m = big_from_u64(f + 0x10_0000_0000_0000);
        big_shl(&m, (e - 1) as usize)
    };
    if b >> 63 != 0 {
        big_neg(magnitude)
    } else {
        magnitude
    }
}

/// `p * q - s * t`.
fn minor(p: &BigInteger, q: &BigInteger, s: &BigInteger, t: &BigInteger) -> (r: BigInteger)
    ensures
        r.value() == p.value() * q.value() - s.value() * t.value(),
{
    let pq = big_mul(p, q);
    let st = big_mul(s, t);
    big_sub(&pq, &st)
}

/// Whether the inverse entry `cofactor / determinant` fits (see
/// [`inverse_entry_fits`]).
fn fits(cofactor: &BigInteger, determinant: &BigInteger) -> (r: bool)
    ensures
        r == inverse_entry_fits(cofactor.value(), determinant.value()),
{
    proof {
        lemma2_to64();
        lemma2_to64_rest();
    }
    let left = big_shl(&big_abs(cofactor), 103);
    let largest = big_from_u64(0x1f_ffff_ffff_ffff);
    assert(pow2(53) == 0x20_0000_0000_0000);
    assert(largest.value() == pow2(53) - 1);
    let right = big_mul(&big_abs(determinant), &largest);
    big_le(&left, &right)
}

/// Check a federation member transform, given as the IEEE-754 bit patterns
/// of its sixteen `f64` entries, row by row: it must hold finite numbers,
/// be affine (last row `0 0 0 1`), and be invertible with an inverse whose
/// entries are finite `f64` values. The decision is exact.
pub fn validate_transform(bits: &[u64; 16]) -> (r: Result<(), IcddError>)
    ensures
        match spec_transform_problem(bits@) {
            None => r is Ok,
            Some(d) => r matches Err(e) && e.is_not_conformant(d),
        },
{
    let mut i: usize = 0;
    while i < 16
        invariant
            i <= 16,
            bits@.len() == 16,
            forall|k: int| 0 <= k < i ==> is_finite_bits(#[trigger] bits@[k]),
        decreases 16 - i,
    {
        if (bits[i] >> 52) & 0x7ff == 0x7ff {
            assert(!is_finite_bits(bits@[i as int]));
            return Err(not_conformant(owned("federation member transform must contain finite numbers")));
        }
        i = i + 1;
    }
    let zero_mask: u64 = 0x7fff_ffff_ffff_ffff;
    if bits[12] & zero_mask != 0 || bits[13] & zero_mask != 0 || bits[14] & zero_mask != 0 || bits[15]
        != ONE_BITS {
        return Err(not_conformant(owned("federation member transform must be an affine 4x4 matrix")));
    }
    let a = scaled(bits[0]);
    let b = scaled(bits[1]);
    let c = scaled(bits[2]);
    let d = scaled(bits[4]);
    let e = scaled(bits[5]);
    let f = scaled(bits[6]);
    let g = scaled(bits[8]);
    let h = scaled(bits[9]);
    let k = scaled(bits[10]);
    let ghost m = linear_part(bits@);
    let ei_fh = minor(&e, &k, &f, &h);
    let di_fg = minor(&d, &k, &f, &g);
    let dh_eg = minor(&d, &h, &e, &g);
    let t1 = big_mul(&a, &ei_fh);
    let t2 = big_mul(&b, &di_fg);
    let t3 = big_mul(&c, &dh_eg);
    let t12 = big_sub(&t1, &t2);
    let determinant = big_add(&t12, &t3);
    assert(determinant.value() == det3(m));
    let zero = big_from_u64(0);
    if big_le(&determinant, &zero) && big_le(&zero, &determinant) {
        return Err(not_conformant(owned("federation member transform must be invertible")));
    }
    let cofactors = vec![
        minor(&e, &k, &f, &h),
        minor(&c, &h, &b, &k),
        minor(&b, &f, &c, &e),
        minor(&f, &g, &d, &k),
        minor(&a, &k, &c, &g),
        minor(&c, &d, &a, &f),
        minor(&d, &h, &e, &g),
        minor(&b, &g, &a, &h),
        minor(&a, &e, &b, &d),
    ];
    let ghost adj = adjugate3(m);
    assert(forall|j: int| 0 <= j < 9 ==> (#[trigger] cofactors@[j]).value() == adj[j]);
    let mut j: usize = 0;
    while j < 9
        invariant
            j <= 9,
            cofactors@.len() == 9,
            forall|x: int| 0 <= x < 9 ==> (#[trigger] cofactors@[x]).value() == adj[x],
            determinant.value() == det3(m),
            adj == adjugate3(m),
            m == linear_part(bits@),
            bits@.len() == 16,
            forall|x: int| 0 <= x < 16 ==> is_finite_bits(#[trigger] bits@[x]),
            is_zero_bits(bits@[12]) && is_zero_bits(bits@[13]) && is_zero_bits(bits@[14]) && bits@[15]
                == ONE_BITS,
            det3(m) != 0,
            forall|x: int| 0 <= x < j ==> inverse_entry_fits(#[trigger] adj[x], det3(m)),
        decreases 9 - j,
    {
        if !fits(&cofactors[j], &determinant) {
            assert(!inverse_entry_fits(adjugate3(m)[j as int], det3(m)));
            return Err(not_conformant(owned("federation member transform must be invertible")));
        }
        j = j + 1;
    }
    Ok(())
}

} // verus!
