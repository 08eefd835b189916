//! Arithmetic in the field GF(2^8) with modulus x^8 + x^4 + x^3 + x + 1.

use crate::error::ShareError;
use vstd::prelude::*;

verus! {

/// `a * x^i` as a polynomial over GF(2) where bit `i` of `b` is set, zero elsewhere. Bit `k`
/// of a number stands for the coefficient of `x^k`.
pub open spec fn term(a: u8, b: u8, i: u16) -> u16 {
    if ((b as u16) >> i) & 1 != 0 {
        (a as u16) << i
    } else {
        0
    }
}

/// The product of the polynomials `a` and `b` over GF(2), not reduced: a polynomial of degree
/// 14 at most.
pub open spec fn clmul(a: u8, b: u8) -> u16 {
    term(a, b, 0) ^ term(a, b, 1) ^ term(a, b, 2) ^ term(a, b, 3) ^ term(a, b, 4) ^ term(a, b, 5)
        ^ term(a, b, 6) ^ term(a, b, 7)
}

/// One step of the division of a polynomial by the modulus: where the coefficient of `x^k` is
/// set, the multiple `m` of the modulus with the leading term `x^k` is taken away.
pub open spec fn cancel(c: u16, k: u16, m: u16) -> u16 {
    if (c >> k) & 1 != 0 {
        c ^ m
    } else {
        c
    }
}

/// The remainder of the polynomial `c`, of degree 14 at most, on division by the modulus
/// `x^8 + x^4 + x^3 + x + 1`, which is `0x11b`.
pub open spec fn poly_rem(c: u16) -> u8 {
    let c14 = cancel(c, 14, 0x11bu16 << 6);
    let c13 = cancel(c14, 13, 0x11bu16 << 5);
    let c12 = cancel(c13, 12, 0x11bu16 << 4);
    let c11 = cancel(c12, 11, 0x11bu16 << 3);
    let c10 = cancel(c11, 10, 0x11bu16 << 2);
    let c9 = cancel(c10, 9, 0x11bu16 << 1);
    let c8 = cancel(c9, 8, 0x11b);
    (c8 & 0xff) as u8
}

/// The product of `a` and `b` in GF(2^8): the remainder of their product as polynomials on
/// division by the modulus.
pub open spec fn gf_mul(a: u8, b: u8) -> u8 {
    poly_rem(clmul(a, b))
}

/// The sum of two field elements.
pub open spec fn gf_add(a: u8, b: u8) -> u8 {
    a ^ b
}

/// The inverse of `a`: the element whose product with `a` is one, and zero where `a` is zero.
pub open spec fn gf_inv(a: u8) -> u8 {
    if a == 0 {
        0
    } else {
        choose|b: u8| gf_mul(a, b) == 1
    }
}

/// The quotient of `a` by `b`, for `b` other than zero.
pub open spec fn gf_div(a: u8, b: u8) -> u8 {
    gf_mul(a, gf_inv(b))
}

/// `k` where bit `i` of `c` is set, zero elsewhere.
pub open spec fn high(c: u16, i: u16, k: u8) -> u8 {
    if (c >> i) & 1 != 0 {
        k
    } else {
        0
    }
}

/// The remainder of the polynomial `c` by the modulus as a sum: the terms below `x^8`, and for
/// every term `x^k` from `x^8` to `x^14` the remainder of `x^k`.
pub open spec fn fold(c: u16) -> u8 {
    ((c & 0xff) as u8) ^ high(c, 8, 0x1b) ^ high(c, 9, 0x36) ^ high(c, 10, 0x6c) ^ high(c, 11, 0xd8)
        ^ high(c, 12, 0xab) ^ high(c, 13, 0x4d) ^ high(c, 14, 0x9a)
}

/// Multiplication by the polynomial `x`, reduced by the modulus.
spec fn xtime(a: u8) -> u8 {
    if a & 0x80 != 0 {
        ((a << 1) ^ 0x1b) as u8
    } else {
        (a << 1) as u8
    }
}

/// `m` where bit `i` of `b` is set, zero elsewhere.
spec fn pick(m: u8, b: u8, i: u8) -> u8 {
    if (b >> i) & 1 != 0 {
        m
    } else {
        0
    }
}

/// The sum of the terms that the bits `i..8` of `b` select from `m`, `m*x`, `m*x^2`, ...: what
/// is left to add when the product is formed by shifting and adding.
spec fn mul_from(m: u8, b: u8, i: u8) -> u8
    decreases 8 - i,
{
    if i >= 8 {
        0
    } else {
        pick(m, b, i) ^ mul_from(xtime(m), b, (i + 1) as u8)
    }
}

/// The power `a^254`, by squaring and multiplying.
spec fn pow_254(a: u8) -> u8 {
    let x2 = gf_mul(a, a);
    let x3 = gf_mul(x2, a);
    let x6 = gf_mul(x3, x3);
    let x12 = gf_mul(x6, x6);
    let x15 = gf_mul(x12, x3);
    let x30 = gf_mul(x15, x15);
    let x60 = gf_mul(x30, x30);
    let x120 = gf_mul(x60, x60);
    let x240 = gf_mul(x120, x120);
    let x252 = gf_mul(x240, x12);
    gf_mul(x252, x2)
}

proof fn bv_rem(c: u16, c14: u16, c13: u16, c12: u16, c11: u16, c10: u16, c9: u16, c8: u16)
    by (bit_vector)
    requires
        c14 == cancel(c, 14, 0x11bu16 << 6),
        c13 == cancel(c14, 13, 0x11bu16 << 5),
        c12 == cancel(c13, 12, 0x11bu16 << 4),
        c11 == cancel(c12, 11, 0x11bu16 << 3),
        c10 == cancel(c11, 10, 0x11bu16 << 2),
        c9 == cancel(c10, 9, 0x11bu16 << 1),
        c8 == cancel(c9, 8, 0x11b),
    ensures
        (c8 & 0xff) as u8 == fold(c),
{
}

/// Division step by step leaves the sum of the remainders of the terms.
pub proof fn lemma_rem_fold(c: u16)
    ensures
        poly_rem(c) == fold(c),
{
    let c14 = cancel(c, 14, 0x11bu16 << 6);
    let c13 = cancel(c14, 13, 0x11bu16 << 5);
    let c12 = cancel(c13, 12, 0x11bu16 << 4);
    let c11 = cancel(c12, 11, 0x11bu16 << 3);
    let c10 = cancel(c11, 10, 0x11bu16 << 2);
    let c9 = cancel(c10, 9, 0x11bu16 << 1);
    let c8 = cancel(c9, 8, 0x11b);
    bv_rem(c, c14, c13, c12, c11, c10, c9, c8);
}

/// The product is the sum of the remainders of the terms of the product of polynomials.
pub proof fn lemma_flat(a: u8, b: u8)
    ensures
        gf_mul(a, b) == fold(clmul(a, b)),
{
    lemma_rem_fold(clmul(a, b));
}

proof fn bv_flat(a: u8, b: u8, m1: u8, m2: u8, m3: u8, m4: u8, m5: u8, m6: u8, m7: u8)
    by (bit_vector)
    requires
        m1 == xtime(a),
        m2 == xtime(m1),
        m3 == xtime(m2),
        m4 == xtime(m3),
        m5 == xtime(m4),
        m6 == xtime(m5),
        m7 == xtime(m6),
    ensures
        pick(a, b, 0) ^ (pick(m1, b, 1) ^ (pick(m2, b, 2) ^ (pick(m3, b, 3) ^ (pick(m4, b, 4) ^ (
            pick(m5, b, 5) ^ (pick(m6, b, 6) ^ (pick(m7, b, 7) ^ 0))))))) == fold(clmul(a, b)),
{
}

/// Shifting and adding forms the product.
proof fn lemma_shift_add(a: u8, b: u8)
    ensures
        mul_from(a, b, 0) == gf_mul(a, b),
{
    let m1 = xtime(a);
    let m2 = xtime(m1);
    let m3 = xtime(m2);
    let m4 = xtime(m3);
    let m5 = xtime(m4);
    let m6 = xtime(m5);
    let m7 = xtime(m6);
    assert(mul_from(xtime(m7), b, 8) == 0);
    assert(mul_from(m7, b, 7) == pick(m7, b, 7) ^ 0);
    assert(mul_from(m6, b, 6) == pick(m6, b, 6) ^ mul_from(m7, b, 7));
    assert(mul_from(m5, b, 5) == pick(m5, b, 5) ^ mul_from(m6, b, 6));
    assert(mul_from(m4, b, 4) == pick(m4, b, 4) ^ mul_from(m5, b, 5));
    assert(mul_from(m3, b, 3) == pick(m3, b, 3) ^ mul_from(m4, b, 4));
    assert(mul_from(m2, b, 2) == pick(m2, b, 2) ^ mul_from(m3, b, 3));
    assert(mul_from(m1, b, 1) == pick(m1, b, 1) ^ mul_from(m2, b, 2));
    assert(mul_from(a, b, 0) == pick(a, b, 0) ^ mul_from(m1, b, 1));
    bv_flat(a, b, m1, m2, m3, m4, m5, m6, m7);
    lemma_flat(a, b);
}

proof fn bv_basics(a: u8, b: u8)
    by (bit_vector)
    ensures
        fold(clmul(a, b)) == fold(clmul(b, a)),
        fold(clmul(a, 0)) == 0,
        fold(clmul(a, 1)) == a,
{
}

proof fn bv_linear(a: u8, b: u8, c: u8, u: u16, v: u16)
    by (bit_vector)
    ensures
        clmul(a, b ^ c) == clmul(a, b) ^ clmul(a, c),
        fold(u ^ v) == fold(u) ^ fold(v),
{
}

proof fn bv_xtime(a: u8, b: u8)
    by (bit_vector)
    ensures
        xtime(a ^ b) == xtime(a) ^ xtime(b),
        xtime(0) == 0,
{
}

#[verifier::rlimit(100)]
proof fn bv_inverse(
    a: u8,
    x2: u8,
    x3: u8,
    x6: u8,
    x12: u8,
    x15: u8,
    x30: u8,
    x60: u8,
    x120: u8,
    x240: u8,
    x252: u8,
    x254: u8,
)
    by (bit_vector)
    requires
        x2 == fold(clmul(a, a)),
        x3 == fold(clmul(x2, a)),
        x6 == fold(clmul(x3, x3)),
        x12 == fold(clmul(x6, x6)),
        x15 == fold(clmul(x12, x3)),
        x30 == fold(clmul(x15, x15)),
        x60 == fold(clmul(x30, x30)),
        x120 == fold(clmul(x60, x60)),
        x240 == fold(clmul(x120, x120)),
        x252 == fold(clmul(x240, x12)),
        x254 == fold(clmul(x252, x2)),
    ensures
        a != 0 ==> fold(clmul(a, x254)) == 1,
        a == 0 ==> x254 == 0,
{
}

/// Addition is exclusive or: it commutes, associates, has zero as its identity, and every
/// element is its own negative.
pub proof fn lemma_add(a: u8, b: u8, c: u8)
    by (bit_vector)
    ensures
        a ^ b == b ^ a,
        (a ^ b) ^ c == a ^ (b ^ c),
        a ^ 0 == a,
        0 ^ a == a,
        a ^ a == 0,
        (a ^ b == 0) == (a == b),
{
}

/// Zero times anything is zero.
pub proof fn lemma_mul_zero(a: u8)
    ensures
        gf_mul(a, 0) == 0,
        gf_mul(0, a) == 0,
{
    lemma_flat(a, 0);
    lemma_flat(0, a);
    bv_basics(a, 0);
}

/// One is the identity of multiplication.
pub proof fn lemma_mul_one(a: u8)
    ensures
        gf_mul(a, 1) == a,
        gf_mul(1, a) == a,
{
    lemma_flat(a, 1);
    lemma_flat(1, a);
    bv_basics(a, 1);
}

/// Multiplication commutes.
pub proof fn lemma_mul_commutes(a: u8, b: u8)
    ensures
        gf_mul(a, b) == gf_mul(b, a),
{
    lemma_flat(a, b);
    lemma_flat(b, a);
    bv_basics(a, b);
}

/// Multiplication distributes over addition, on both sides.
pub proof fn lemma_mul_distributes(a: u8, b: u8, c: u8)
    ensures
        gf_mul(a, b ^ c) == gf_mul(a, b) ^ gf_mul(a, c),
        gf_mul(b ^ c, a) == gf_mul(b, a) ^ gf_mul(c, a),
{
    lemma_flat(a, b ^ c);
    lemma_flat(a, b);
    lemma_flat(a, c);
    bv_linear(a, b, c, clmul(a, b), clmul(a, c));
    lemma_mul_commutes(a, b ^ c);
    lemma_mul_commutes(a, b);
    lemma_mul_commutes(a, c);
}

/// Multiplying the running multiple by `x` multiplies every remaining term by `x`.
proof fn lemma_mul_from_xtime(m: u8, b: u8, i: u8)
    requires
        i <= 8,
    ensures
        xtime(mul_from(m, b, i)) == mul_from(xtime(m), b, i),
    decreases 8 - i,
{
    bv_xtime(0, 0);
    if i < 8 {
        lemma_mul_from_xtime(xtime(m), b, (i + 1) as u8);
        bv_xtime(pick(m, b, i), mul_from(xtime(m), b, (i + 1) as u8));
    }
}

/// Multiplying the running multiple by `c` multiplies every remaining term by `c`.
proof fn lemma_mul_from_scales(m: u8, b: u8, c: u8, i: u8)
    requires
        i <= 8,
    ensures
        gf_mul(mul_from(m, b, i), c) == mul_from(gf_mul(m, c), b, i),
    decreases 8 - i,
{
    if i >= 8 {
        lemma_mul_zero(c);
    } else {
        let rest = mul_from(xtime(m), b, (i + 1) as u8);
        lemma_mul_from_scales(xtime(m), b, c, (i + 1) as u8);
        lemma_mul_distributes(c, pick(m, b, i), rest);
        lemma_mul_zero(c);
        lemma_mul_from_xtime(m, c, 0);
        lemma_shift_add(m, c);
        lemma_shift_add(xtime(m), c);
    }
}

/// Multiplication associates.
pub proof fn lemma_mul_associates(a: u8, b: u8, c: u8)
    ensures
        gf_mul(gf_mul(a, b), c) == gf_mul(a, gf_mul(b, c)),
{
    // (b * c) * a == (b * a) * c, by the lemma above with the roles of the last two swapped
    lemma_mul_from_scales(b, c, a, 0);
    lemma_shift_add(b, c);
    lemma_shift_add(gf_mul(b, a), c);
    lemma_mul_commutes(gf_mul(b, c), a);
    lemma_mul_commutes(b, a);
}

/// The power `a^254` is an inverse of `a` where `a` is not zero, and zero where it is.
proof fn lemma_pow_254(a: u8)
    ensures
        a != 0 ==> gf_mul(a, pow_254(a)) == 1,
        a == 0 ==> pow_254(a) == 0,
{
    let x2 = gf_mul(a, a);
    let x3 = gf_mul(x2, a);
    let x6 = gf_mul(x3, x3);
    let x12 = gf_mul(x6, x6);
    let x15 = gf_mul(x12, x3);
    let x30 = gf_mul(x15, x15);
    let x60 = gf_mul(x30, x30);
    let x120 = gf_mul(x60, x60);
    let x240 = gf_mul(x120, x120);
    let x252 = gf_mul(x240, x12);
    let x254 = gf_mul(x252, x2);
    lemma_flat(a, a);
    lemma_flat(x2, a);
    lemma_flat(x3, x3);
    lemma_flat(x6, x6);
    lemma_flat(x12, x3);
    lemma_flat(x15, x15);
    lemma_flat(x30, x30);
    lemma_flat(x60, x60);
    lemma_flat(x120, x120);
    lemma_flat(x240, x12);
    lemma_flat(x252, x2);
    lemma_flat(a, x254);
    bv_inverse(a, x2, x3, x6, x12, x15, x30, x60, x120, x240, x252, x254);
}

/// An element has one inverse at most.
pub proof fn lemma_inverse_unique(a: u8, b: u8, c: u8)
    requires
        gf_mul(a, b) == 1,
        gf_mul(a, c) == 1,
    ensures
        b == c,
{
    // b == b * (a * c) == (b * a) * c == c
    lemma_mul_one(b);
    lemma_mul_one(c);
    lemma_mul_associates(b, a, c);
    lemma_mul_commutes(b, a);
}

/// Every element but zero has an inverse, which is `gf_inv` of it and not zero; `gf_inv(0)` is
/// zero.
pub proof fn lemma_mul_inverse(a: u8)
    ensures
        a != 0 ==> gf_mul(a, gf_inv(a)) == 1 && gf_mul(gf_inv(a), a) == 1 && gf_inv(a) != 0,
        a == 0 ==> gf_inv(a) == 0,
{
    if a != 0 {
        lemma_pow_254(a);
        assert(gf_mul(a, pow_254(a)) == 1);
        lemma_mul_commutes(a, gf_inv(a));
        lemma_mul_zero(a);
    }
}

/// A product is zero only where a factor is zero.
pub proof fn lemma_mul_nonzero(a: u8, b: u8)
    ensures
        gf_mul(a, b) == 0 <==> a == 0 || b == 0,
{
    lemma_mul_zero(a);
    lemma_mul_zero(b);
    if a != 0 && gf_mul(a, b) == 0 {
        // b == (inv(a) * a) * b == inv(a) * (a * b) == 0
        lemma_mul_inverse(a);
        lemma_mul_associates(gf_inv(a), a, b);
        lemma_mul_one(b);
        lemma_mul_zero(gf_inv(a));
    }
}

/// Division undoes multiplication: `a * (b / a) == b` and `(b / a) * a == b` for every `a` but
/// zero.
pub proof fn lemma_div_cancels(a: u8, b: u8)
    requires
        a != 0,
    ensures
        gf_mul(a, gf_div(b, a)) == b,
        gf_mul(gf_div(b, a), a) == b,
{
    lemma_mul_inverse(a);
    lemma_mul_commutes(a, gf_div(b, a));
    lemma_mul_associates(b, gf_inv(a), a);
    lemma_mul_one(b);
}

/// The field is consistent with itself: division undoes multiplication, every element is its
/// own negative, and one is the identity of multiplication.
pub proof fn lemma_field_consistent(a: u8, b: u8)
    ensures
        a != 0 ==> gf_mul(a, gf_div(b, a)) == b,
        gf_add(a, a) == 0,
        gf_mul(a, 1) == a,
{
    if a != 0 {
        lemma_div_cancels(a, b);
    }
    lemma_add(a, a, a);
    lemma_mul_one(a);
}

/// The field GF(2^8), built for a width of 8 bits.
#[derive(Debug)]
pub struct Field {
    width: u16,
}

impl Field {
    /// The width in bits of the elements of this field.
    pub closed spec fn spec_width(&self) -> u16 {
        self.width
    }

    /// The field of the given width; only that of 8 bits can be built.
    pub fn new(width: u16) -> (r: Result<Field, ShareError>)
        ensures
            width == 8 ==> r is Ok && r->Ok_0.spec_width() == 8,
            width != 8 ==> r == Err::<Field, ShareError>(ShareError::UnsupportedFieldWidth),
    {
        if width == 8 {
            Ok(Field { width })
        } else {
            Err(ShareError::UnsupportedFieldWidth)
        }
    }

    /// The width in bits of the elements.
    pub fn width(&self) -> (r: u16)
        ensures
            r == self.spec_width(),
    {
        self.width
    }

    /// The number of elements, `2^8`.
    pub fn order(&self) -> (r: u32)
        ensures
            r == 256,
    {
        256
    }

    /// The identity of addition.
    pub fn zero(&self) -> (r: u8)
        ensures
            r == 0,
    {
        0
    }

    /// The identity of multiplication.
    pub fn one(&self) -> (r: u8)
        ensures
            r == 1,
    {
        1
    }

    /// The sum of `a` and `b`.
    pub fn add(&self, a: u8, b: u8) -> (r: u8)
        ensures
            r == gf_add(a, b),
    {
        a ^ b
    }

    /// The product of `a` and `b`.
    pub fn mul(&self, a: u8, b: u8) -> (r: u8)
        ensures
            r == gf_mul(a, b),
    {
        let mut acc: u8 = 0;
        let mut m: u8 = a;
        let mut i: u8 = 0;
        proof {
            lemma_shift_add(a, b);
            lemma_add(mul_from(a, b, 0), 0, 0);
        }
        while i < 8
            invariant
                i <= 8,
                acc ^ mul_from(m, b, i) == gf_mul(a, b),
            decreases 8 - i,
        {
            proof {
                lemma_add(acc, pick(m, b, i), mul_from(xtime(m), b, (i + 1) as u8));
                lemma_add(acc, 0, 0);
            }
            if (b >> i) & 1 != 0 {
                acc = acc ^ m;
            }
            m = if m & 0x80 != 0 {
                (m << 1) ^ 0x1b
            } else {
                m << 1
            };
            i = i + 1;
        }
        proof {
            lemma_add(acc, 0, 0);
        }
        acc
    }

    /// The inverse of `a`, or zero where `a` is zero.
    pub fn inv(&self, a: u8) -> (r: u8)
        ensures
            r == gf_inv(a),
            a != 0 ==> gf_mul(a, r) == 1,
    {
        proof {
            lemma_pow_254(a);
            lemma_mul_inverse(a);
            if a != 0 {
                lemma_inverse_unique(a, pow_254(a), gf_inv(a));
            }
        }
        let x2 = self.mul(a, a);
        let x3 = self.mul(x2, a);
        let x6 = self.mul(x3, x3);
        let x12 = self.mul(x6, x6);
        let x15 = self.mul(x12, x3);
        let x30 = self.mul(x15, x15);
        let x60 = self.mul(x30, x30);
        let x120 = self.mul(x60, x60);
        let x240 = self.mul(x120, x120);
        let x252 = self.mul(x240, x12);
        self.mul(x252, x2)
    }

    /// The quotient of `a` by `b`: the one element whose product with `b` is `a`.
    pub fn div(&self, a: u8, b: u8) -> (r: Result<u8, ShareError>)
        ensures
            b == 0 ==> r == Err::<u8, ShareError>(ShareError::DivisionByZero),
            b != 0 ==> r == Ok::<u8, ShareError>(gf_div(a, b)) && gf_mul(gf_div(a, b), b) == a,
    {
        if b == 0 {
            Err(ShareError::DivisionByZero)
        } else {
            proof {
                lemma_div_cancels(b, a);
            }
            Ok(self.mul(a, self.inv(b)))
        }
    }
}

} // verus!
