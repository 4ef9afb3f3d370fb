use vstd::prelude::*;
use fixed::types::I20F12;

verus! {

// Numbers with 20 integer and 12 fractional bits are held as their raw
// bits: the number `v` is held as `v * 4096`.

/// One, as raw bits.
pub const FIXED_ONE: i32 = 4096;

/// The integer part of a number, rounded down.
pub open spec fn floor_fixed(bits: i32) -> int {
    bits as int / 4096
}

/// The product of two numbers, rounded down to the nearest number that
/// the format holds.
pub open spec fn fixed_product(a: i32, b: i32) -> int {
    (a as int * b as int) / 4096
}

/// `a / d` rounded towards zero, for `d != 0`.
pub open spec fn div_toward_zero(a: int, d: int) -> int {
    if a >= 0 {
        a / d
    } else {
        -((-a) / d)
    }
}

/// `I20F12::to_num::<i32>`: the integer part of the number, rounded
/// towards minus infinity (the crate's documentation says the fractional
/// bits are discarded). Every such number fits in an `i32`.
#[verifier::external_body]
pub(crate) fn fixed_to_int(bits: i32) -> (r: i32)
    ensures
        r as int == floor_fixed(bits),
{
    I20F12::from_bits(bits).to_num::<i32>()
}

/// `I20F12 * I20F12`: the crate multiplies the bits in double width and
/// shifts the fractional bits out, which rounds down; with debug
/// assertions it panics when the product does not fit, so the product is
/// required to fit.
#[verifier::external_body]
pub(crate) fn fixed_mul(a: i32, b: i32) -> (r: i32)
    requires
        i32::MIN <= fixed_product(a, b) <= i32::MAX,
    ensures
        r as int == fixed_product(a, b),
{
    (I20F12::from_bits(a) * I20F12::from_bits(b)).to_bits()
}

/// `I20F12 / i32`: the crate divides the bits by the integer as Rust
/// divides integers, rounding towards zero.
#[verifier::external_body]
pub(crate) fn fixed_div_int(a: i32, d: i32) -> (r: i32)
    requires
        d > 0,
    ensures
        r as int == div_toward_zero(a as int, d as int),
{
    (I20F12::from_bits(a) / d).to_bits()
}

/// `I20F12::wrapping_div`: the crate shifts the dividend's bits up by the
/// fractional bits in double width, divides as Rust divides integers
/// (rounding towards zero) and keeps the low 32 bits; this is what `/` does
/// without debug assertions. Division by zero panics, so the divisor is
/// required not to be zero.
#[verifier::external_body]
pub(crate) fn fixed_wrapping_div(a: i32, b: i32) -> (r: i32)
    requires
        b != 0,
    ensures
        r == div_toward_zero(a as int * 4096, b as int) as i32,
{
    I20F12::from_bits(a).wrapping_div(I20F12::from_bits(b)).to_bits()
}

/// `I8F8::wrapping_from_num` of a number with 12 fractional bits: the four
/// extra fractional bits are discarded, which rounds down, and the bits
/// that do not fit in 16 are dropped.
#[verifier::external_body]
pub(crate) fn to_i8f8_wrapping(a: i32) -> (r: i16)
    ensures
        r == (a as int / 16) as i16,
{
    fixed::types::I8F8::wrapping_from_num(I20F12::from_bits(a)).to_bits()
}

/// `I20F12::from_num` of an integer: the integer in the fixed-point
/// format; with debug assertions it panics when the integer does not fit,
/// so it is required to fit.
#[verifier::external_body]
pub(crate) fn fixed_from_int(x: i32) -> (r: i32)
    requires
        -524288 <= x < 524288,
    ensures
        r as int == x as int * 4096,
{
    I20F12::from_num(x).to_bits()
}

/// What `cordic::sin_cos` gives for an angle in radians: the sine and the
/// cosine as the crate's CORDIC iteration computes them, raw bits in and
/// out.
pub uninterp spec fn cordic_sin_cos(angle: i32) -> (i32, i32);

/// `cordic::sin_cos` on the fixed-point angle. The values are named, not
/// stated.
#[verifier::external_body]
pub(crate) fn sin_cos(angle: i32) -> (r: (i32, i32))
    ensures
        r == cordic_sin_cos(angle),
{
    let (s, c) = cordic::sin_cos(I20F12::from_bits(angle));
    (s.to_bits(), c.to_bits())
}

/// `s` holds `p` as a run of consecutive characters.
pub open spec fn contains_text(s: Seq<char>, p: Seq<char>) -> bool {
    exists|i: int| 0 <= i <= s.len() - p.len() && #[trigger] s.subrange(i, i + p.len()) == p
}

/// Whether the pattern `p` occurs in the text `s`, as `str::contains`
/// with a string pattern answers.
pub(crate) fn text_contains(s: &str, p: &str) -> (r: bool)
    ensures
        r == contains_text(s@, p@),
{
    let n = s.unicode_len();
    let m = p.unicode_len();
    if m > n {
        return false;
    }
    let mut i: usize = 0;
    while i <= n - m
        invariant
            n == s@.len(),
            m == p@.len(),
            m <= n,
            i <= n - m + 1,
            forall|k: int| 0 <= k < i ==> #[trigger] s@.subrange(k, k + m) != p@,
        decreases n - m + 1 - i,
    {
        let mut j: usize = 0;
        while j < m && s.get_char(i + j) == p.get_char(j)
            invariant
                n == s@.len(),
                m == p@.len(),
                i + m <= n,
                j <= m,
                forall|t: int| 0 <= t < j ==> s@[i + t] == p@[t],
            decreases m - j,
        {
            j = j + 1;
        }
        if j == m {
            assert(s@.subrange(i as int, i + m) =~= p@);
            return true;
        }
        assert(s@.subrange(i as int, i + m)[j as int] != p@[j as int]);
        i = i + 1;
    }
    false
}

} // verus!
