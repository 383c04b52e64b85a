//! Elements of GF(256), the field in which symbols are added and scaled.
//!
//! An octet is a polynomial of degree below eight over GF(2): bit `i` is the
//! coefficient of `x^i`. Addition is exclusive or. Multiplication is the product
//! of polynomials modulo `x^8 + x^4 + x^3 + x^2 + 1`.

use vstd::prelude::*;

verus! {

/// The modulus `x^8 + x^4 + x^3 + x^2 + 1`, one bit per coefficient.
pub const MODULUS: u16 = 0x11d;

/// An element of GF(256).
#[derive(Clone, Copy, Debug, PartialEq, PartialOrd, Eq, Ord, Hash)]
pub struct Octet {
    value: u8,
}

/// The part of the product of `a` and `b` that comes from `x^i` in `b`: `a * x^i`
/// when `b` has that term, nothing otherwise.
pub open spec fn product_term(a: u8, b: u8, i: u16) -> u16 {
    if (b as u16 >> i) & 1 == 1 {
        (a as u16) << i
    } else {
        0
    }
}

/// The product of `a` and `b` as polynomials over GF(2), before reduction.
pub open spec fn polynomial_product(a: u8, b: u8) -> u16 {
    product_term(a, b, 0) ^ product_term(a, b, 1) ^ product_term(a, b, 2) ^ product_term(a, b, 3)
        ^ product_term(a, b, 4) ^ product_term(a, b, 5) ^ product_term(a, b, 6) ^ product_term(
        a,
        b,
        7,
    )
}

/// Cancels the term `x^(8 + i)` of `p`, if it has one, against `x^i` times the modulus.
pub open spec fn cancel_term(p: u16, i: u16) -> u16 {
    if (p >> i) & 0x100 != 0 {
        p ^ (MODULUS << i)
    } else {
        p
    }
}

/// The remainder of `p`, of degree at most 14, modulo the field's modulus.
pub open spec fn remainder(p: u16) -> u8 {
    cancel_term(
        cancel_term(
            cancel_term(cancel_term(cancel_term(cancel_term(cancel_term(p, 6), 5), 4), 3), 2),
            1,
        ),
        0,
    ) as u8
}

/// The product of `a` and `b` in GF(256).
pub open spec fn gf_mul(a: u8, b: u8) -> u8 {
    remainder(polynomial_product(a, b))
}

fn product_term_exec(a: u8, b: u8, i: u16) -> (res: u16)
    requires
        i < 8,
    ensures
        res == product_term(a, b, i),
{
    if (b as u16 >> i) & 1 == 1 {
        (a as u16) << i
    } else {
        0
    }
}

fn cancel_term_exec(p: u16, i: u16) -> (res: u16)
    requires
        i < 7,
    ensures
        res == cancel_term(p, i),
{
    if (p >> i) & 0x100 != 0 {
        p ^ (MODULUS << i)
    } else {
        p
    }
}

/// Multiplies two octets given as bytes.
pub fn mul_bytes(a: u8, b: u8) -> (res: u8)
    ensures
        res == gf_mul(a, b),
{
    let product: u16 = product_term_exec(a, b, 0) ^ product_term_exec(a, b, 1) ^ product_term_exec(
        a,
        b,
        2,
    ) ^ product_term_exec(a, b, 3) ^ product_term_exec(a, b, 4) ^ product_term_exec(a, b, 5)
        ^ product_term_exec(a, b, 6) ^ product_term_exec(a, b, 7);
    let p6: u16 = cancel_term_exec(product, 6);
    let p5: u16 = cancel_term_exec(p6, 5);
    let p4: u16 = cancel_term_exec(p5, 4);
    let p3: u16 = cancel_term_exec(p4, 3);
    let p2: u16 = cancel_term_exec(p3, 2);
    let p1: u16 = cancel_term_exec(p2, 1);
    let p0: u16 = cancel_term_exec(p1, 0);
    #[verifier::truncate]
    (p0 as u8)
}

impl View for Octet {
    type V = u8;

    closed spec fn view(&self) -> u8 {
        self.value
    }
}

impl Octet {
    /// The octet with the given byte.
    pub fn new(value: u8) -> (res: Octet)
        ensures
            res@ == value,
    {
        Octet { value }
    }

    /// The byte of this octet.
    pub fn byte(&self) -> (res: u8)
        ensures
            res == self@,
    {
        self.value
    }

    /// The octet whose byte is `value`.
    pub closed spec fn of_byte(value: u8) -> Octet {
        Octet { value }
    }
}

impl core::ops::Mul for Octet {
    type Output = Octet;

    fn mul(self, rhs: Octet) -> (res: Octet)
        ensures
            res@ == gf_mul(self@, rhs@),
    {
        Octet { value: mul_bytes(self.value, rhs.value) }
    }
}

impl vstd::std_specs::ops::MulSpecImpl for Octet {
    open spec fn obeys_mul_spec() -> bool {
        true
    }

    open spec fn mul_req(self, rhs: Octet) -> bool {
        true
    }

    open spec fn mul_spec(self, rhs: Octet) -> Octet {
        Octet::of_byte(gf_mul(self@, rhs@))
    }
}

/// The remainder of `p` written as a sum: what `x^8` to `x^14` leave, each taken when
/// `p` has that term.
spec fn remainder_sum(p: u16) -> u16 {
    (p & 0xff) ^ (if p & 0x100 != 0 {
        0x1d
    } else {
        0u16
    }) ^ (if p & 0x200 != 0 {
        0x3a
    } else {
        0u16
    }) ^ (if p & 0x400 != 0 {
        0x74
    } else {
        0u16
    }) ^ (if p & 0x800 != 0 {
        0xe8
    } else {
        0u16
    }) ^ (if p & 0x1000 != 0 {
        0xcd
    } else {
        0u16
    }) ^ (if p & 0x2000 != 0 {
        0x87
    } else {
        0u16
    }) ^ (if p & 0x4000 != 0 {
        0x13
    } else {
        0u16
    })
}

proof fn lemma_remainder_sum(p: u16)
    requires
        p < 0x8000,
    ensures
        remainder(p) == remainder_sum(p),
{
    let p6 = cancel_term(p, 6);
    let p5 = cancel_term(p6, 5);
    let p4 = cancel_term(p5, 4);
    let p3 = cancel_term(p4, 3);
    let p2 = cancel_term(p3, 2);
    let p1 = cancel_term(p2, 1);
    let p0 = cancel_term(p1, 0);
    assert(p0 as u8 == remainder_sum(p)) by (bit_vector)
        requires
            p < 0x8000,
            p6 == cancel_term(p, 6),
            p5 == cancel_term(p6, 5),
            p4 == cancel_term(p5, 4),
            p3 == cancel_term(p4, 3),
            p2 == cancel_term(p3, 2),
            p1 == cancel_term(p2, 1),
            p0 == cancel_term(p1, 0),
    ;
}

/// Multiplication is commutative.
pub proof fn law_mul_commutative(a: u8, b: u8)
    ensures
        gf_mul(a, b) == gf_mul(b, a),
{
    assert(polynomial_product(a, b) == polynomial_product(b, a)) by (bit_vector);
}

/// Multiplication distributes over addition.
pub proof fn law_mul_distributive(a: u8, b: u8, c: u8)
    ensures
        gf_mul(a ^ b, c) == gf_mul(a, c) ^ gf_mul(b, c),
{
    let p = polynomial_product(a, c);
    let q = polynomial_product(b, c);
    assert(polynomial_product(a ^ b, c) == polynomial_product(a, c) ^ polynomial_product(b, c))
        by (bit_vector);
    assert(polynomial_product(a, c) < 0x8000) by (bit_vector);
    assert(polynomial_product(b, c) < 0x8000) by (bit_vector);
    assert(p ^ q < 0x8000) by (bit_vector)
        requires
            p < 0x8000,
            q < 0x8000,
    ;
    assert(remainder_sum(p ^ q) == remainder_sum(p) ^ remainder_sum(q)) by (bit_vector);
    lemma_remainder_sum(p);
    lemma_remainder_sum(q);
    lemma_remainder_sum(p ^ q);
}

/// One is the neutral octet of multiplication, and zero absorbs.
pub proof fn law_mul_one_zero(a: u8)
    ensures
        gf_mul(a, 1) == a,
        gf_mul(a, 0) == 0,
{
    assert(polynomial_product(a, 1) == a as u16) by (bit_vector);
    assert(polynomial_product(a, 0) == 0) by (bit_vector);
    assert(remainder_sum(a as u16) == a as u16) by (bit_vector);
    assert(remainder_sum(0) == 0) by (bit_vector);
    lemma_remainder_sum(a as u16);
    lemma_remainder_sum(0);
}

/// A product is zero only when a factor is.
pub proof fn law_mul_no_zero_divisors(a: u8, b: u8)
    ensures
        gf_mul(a, b) == 0 <==> a == 0 || b == 0,
{
    let p = polynomial_product(a, b);
    assert(polynomial_product(a, b) < 0x8000) by (bit_vector);
    assert(remainder_sum(p) == 0 <==> a == 0 || b == 0) by (bit_vector)
        requires
            p == polynomial_product(a, b),
    ;
    lemma_remainder_sum(p);
}

/// An octet times `x`.
spec fn times_x(a: u8) -> u8 {
    (a << 1) ^ (if a & 0x80 != 0 {
        0x1d
    } else {
        0u8
    })
}

/// `rest * x + a`, without `a` when `b` has no term `x^i`.
spec fn horner_step(a: u8, b: u8, i: u8, rest: u8) -> u8 {
    times_x(rest) ^ (if (b >> i) & 1 == 1 {
        a
    } else {
        0u8
    })
}

/// The product of `a` with the terms of `b` from `x^i` on, divided by `x^i`.
spec fn horner(a: u8, b: u8, i: nat) -> u8
    decreases 8 - i,
{
    if i >= 8 {
        0
    } else {
        horner_step(a, b, i as u8, horner(a, b, i + 1))
    }
}

/// A product by Horner's rule in the second factor.
proof fn lemma_mul_is_horner(a: u8, b: u8)
    ensures
        gf_mul(a, b) == horner(a, b, 0),
{
    reveal_with_fuel(horner, 9);
    let p = polynomial_product(a, b);
    assert(polynomial_product(a, b) < 0x8000) by (bit_vector);
    lemma_remainder_sum(p);
    let h7 = horner(a, b, 7);
    let h6 = horner(a, b, 6);
    let h5 = horner(a, b, 5);
    let h4 = horner(a, b, 4);
    let h3 = horner(a, b, 3);
    let h2 = horner(a, b, 2);
    let h1 = horner(a, b, 1);
    let h0 = horner(a, b, 0);
    assert(remainder_sum(p) == h0) by (bit_vector)
        requires
            p == polynomial_product(a, b),
            h7 == horner_step(a, b, 7, 0),
            h6 == horner_step(a, b, 6, h7),
            h5 == horner_step(a, b, 5, h6),
            h4 == horner_step(a, b, 4, h5),
            h3 == horner_step(a, b, 3, h4),
            h2 == horner_step(a, b, 2, h3),
            h1 == horner_step(a, b, 1, h2),
            h0 == horner_step(a, b, 0, h1),
    ;
}

/// A factor `x` can be taken out of a product.
proof fn lemma_mul_times_x(a: u8, b: u8)
    ensures
        gf_mul(a, times_x(b)) == times_x(gf_mul(a, b)),
{
    let c = times_x(b);
    let p = polynomial_product(a, b);
    let q = polynomial_product(a, c);
    assert(polynomial_product(a, b) < 0x8000) by (bit_vector);
    assert(polynomial_product(a, c) < 0x8000) by (bit_vector);
    lemma_remainder_sum(p);
    lemma_remainder_sum(q);
    let r = remainder(p);
    assert(remainder_sum(q) == times_x(r)) by (bit_vector)
        requires
            p == polynomial_product(a, b),
            q == polynomial_product(a, c),
            c == times_x(b),
            r == remainder_sum(p),
    ;
}

/// A factor can be taken into Horner's rule.
proof fn lemma_horner_product(a: u8, b: u8, c: u8, i: nat)
    ensures
        gf_mul(a, horner(b, c, i)) == horner(gf_mul(a, b), c, i),
    decreases 8 - i,
{
    law_mul_one_zero(a);
    if i < 8 {
        let rest = horner(b, c, i + 1);
        let term = if (c >> (i as u8)) & 1 == 1 {
            b
        } else {
            0u8
        };
        lemma_horner_product(a, b, c, i + 1);
        lemma_mul_times_x(a, rest);
        law_mul_distributive(times_x(rest), term, a);
        law_mul_commutative(a, times_x(rest) ^ term);
        law_mul_commutative(a, times_x(rest));
        law_mul_commutative(a, term);
    }
}

/// Multiplication is associative.
pub proof fn law_mul_associative(a: u8, b: u8, c: u8)
    ensures
        gf_mul(gf_mul(a, b), c) == gf_mul(a, gf_mul(b, c)),
{
    lemma_mul_is_horner(b, c);
    lemma_mul_is_horner(gf_mul(a, b), c);
    lemma_horner_product(a, b, c, 0);
}

/// A product is the remainder of the product of polynomials, written as a sum.
proof fn lemma_product_remainder(a: u8, b: u8)
    ensures
        gf_mul(a, b) == remainder_sum(polynomial_product(a, b)),
{
    assert(polynomial_product(a, b) < 0x8000) by (bit_vector);
    lemma_remainder_sum(polynomial_product(a, b));
}

/// How a product grows with its second factor, from zero on: with a factor times `x` it is
/// the product times `x`, and with a factor plus one it is the product plus the first
/// factor. Times `x` moves the bits of an octet up by one place, and adds what the modulus
/// has below `x^8` when a bit moves out.
pub proof fn law_mul_by_doubling(a: u8, b: u8)
    ensures
        gf_mul(a, 0) == 0,
        b < 0x80 ==> gf_mul(a, b << 1) == (if gf_mul(a, b) < 0x80 {
            gf_mul(a, b) << 1
        } else {
            (gf_mul(a, b) << 1) ^ 0x1d
        }),
        gf_mul(a, b ^ 1) == gf_mul(a, b) ^ a,
{
    let p = gf_mul(a, b);
    law_mul_one_zero(a);
    if b < 0x80 {
        lemma_mul_times_x(a, b);
        assert(times_x(b) == b << 1) by (bit_vector)
            requires
                b < 0x80,
        ;
        assert(times_x(p) == (if p < 0x80 {
            p << 1
        } else {
            (p << 1) ^ 0x1d
        })) by (bit_vector);
    }
    law_mul_distributive(b, 1, a);
    law_mul_commutative(a, b ^ 1);
    law_mul_commutative(a, b);
    law_mul_commutative(a, 1);
}

/// Every octet but zero has an inverse. It is the power 254 of the octet.
pub proof fn law_mul_inverse(s: u8)
    requires
        s != 0,
    ensures
        exists|t: u8| gf_mul(s, t) == 1,
{
    let p_s2 = polynomial_product(s, s);
    let s2 = gf_mul(s, s);
    let p_s4 = polynomial_product(s2, s2);
    let s4 = gf_mul(s2, s2);
    let p_s8 = polynomial_product(s4, s4);
    let s8 = gf_mul(s4, s4);
    let p_s16 = polynomial_product(s8, s8);
    let s16 = gf_mul(s8, s8);
    let p_s32 = polynomial_product(s16, s16);
    let s32 = gf_mul(s16, s16);
    let p_s64 = polynomial_product(s32, s32);
    let s64 = gf_mul(s32, s32);
    let p_s128 = polynomial_product(s64, s64);
    let s128 = gf_mul(s64, s64);
    let p_t0 = polynomial_product(s2, s4);
    let t0 = gf_mul(s2, s4);
    let p_t1 = polynomial_product(t0, s8);
    let t1 = gf_mul(t0, s8);
    let p_t2 = polynomial_product(t1, s16);
    let t2 = gf_mul(t1, s16);
    let p_t3 = polynomial_product(t2, s32);
    let t3 = gf_mul(t2, s32);
    let p_t4 = polynomial_product(t3, s64);
    let t4 = gf_mul(t3, s64);
    let p_t5 = polynomial_product(t4, s128);
    let t5 = gf_mul(t4, s128);
    let p_one = polynomial_product(s, t5);
    let one = gf_mul(s, t5);
    lemma_product_remainder(s, s);
    lemma_product_remainder(s2, s2);
    lemma_product_remainder(s4, s4);
    lemma_product_remainder(s8, s8);
    lemma_product_remainder(s16, s16);
    lemma_product_remainder(s32, s32);
    lemma_product_remainder(s64, s64);
    lemma_product_remainder(s2, s4);
    lemma_product_remainder(t0, s8);
    lemma_product_remainder(t1, s16);
    lemma_product_remainder(t2, s32);
    lemma_product_remainder(t3, s64);
    lemma_product_remainder(t4, s128);
    lemma_product_remainder(s, t5);
    assert(one == 1) by (bit_vector)
        requires
            s != 0,
            p_s2 == polynomial_product(s, s),
            s2 == remainder_sum(p_s2),
            p_s4 == polynomial_product(s2, s2),
            s4 == remainder_sum(p_s4),
            p_s8 == polynomial_product(s4, s4),
            s8 == remainder_sum(p_s8),
            p_s16 == polynomial_product(s8, s8),
            s16 == remainder_sum(p_s16),
            p_s32 == polynomial_product(s16, s16),
            s32 == remainder_sum(p_s32),
            p_s64 == polynomial_product(s32, s32),
            s64 == remainder_sum(p_s64),
            p_s128 == polynomial_product(s64, s64),
            s128 == remainder_sum(p_s128),
            p_t0 == polynomial_product(s2, s4),
            t0 == remainder_sum(p_t0),
            p_t1 == polynomial_product(t0, s8),
            t1 == remainder_sum(p_t1),
            p_t2 == polynomial_product(t1, s16),
            t2 == remainder_sum(p_t2),
            p_t3 == polynomial_product(t2, s32),
            t3 == remainder_sum(p_t3),
            p_t4 == polynomial_product(t3, s64),
            t4 == remainder_sum(p_t4),
            p_t5 == polynomial_product(t4, s128),
            t5 == remainder_sum(p_t5),
            p_one == polynomial_product(s, t5),
            one == remainder_sum(p_one),
    ;
}

} // verus!
