//! The two finite fields the codes are built on: GF(256) for byte symbols and
//! GF(16) for nibble symbols. Addition is exclusive or; multiplication is
//! polynomial multiplication over GF(2) reduced by the field's primitive
//! polynomial, in which `2` (the polynomial `x`) generates every nonzero
//! element.
use vstd::prelude::*;

verus! {

/// A binary extension field, named by the width of its symbols.
#[derive(Clone, Copy, Debug, PartialEq, Eq, Structural)]
pub enum Gf {
    /// GF(16), reduced by `x^4 + x + 1`.
    Nibble,
    /// GF(256), reduced by `x^8 + x^4 + x^3 + x^2 + 1`.
    Byte,
}

/// Multiplication by `x` in GF(256): shift left, and reduce when the top bit
/// falls out.
pub open spec fn twice_byte(a: u8) -> u8 {
    if a & 0x80 != 0 {
        (a << 1) ^ 0x1d
    } else {
        a << 1
    }
}

/// Multiplication by `x` in GF(16).
pub open spec fn twice_nibble(a: u8) -> u8 {
    if a & 0x08 != 0 {
        ((a << 1) & 0x0f) ^ 0x03
    } else {
        (a << 1) & 0x0f
    }
}

impl Gf {
    /// The bits that hold an element.
    pub open spec fn mask(self) -> u8 {
        match self {
            Gf::Nibble => 0x0f,
            Gf::Byte => 0xff,
        }
    }

    /// Whether `a` is an element of the field.
    pub open spec fn has(self, a: u8) -> bool {
        a <= self.mask()
    }

    /// Whether every entry of `s` is an element of the field.
    pub open spec fn has_all(self, s: Seq<u8>) -> bool {
        forall|i: int| 0 <= i < s.len() ==> self.has(#[trigger] s[i])
    }

    /// The number of nonzero elements, which is the order of the generator.
    pub open spec fn order(self) -> nat {
        match self {
            Gf::Nibble => 15,
            Gf::Byte => 255,
        }
    }

    /// The product of an element with the generator `x`.
    pub open spec fn twice(self, a: u8) -> u8 {
        match self {
            Gf::Nibble => twice_nibble(a),
            Gf::Byte => twice_byte(a),
        }
    }

    /// Multiplication by the polynomial with coefficient bits `b`, by Horner's
    /// rule over those bits.
    pub open spec fn times_bits(self, a: u8, b: u8) -> u8
        decreases b,
    {
        if b == 0 {
            0
        } else {
            self.twice(self.times_bits(a, b / 2)) ^ (if b % 2 == 1 {
                a
            } else {
                0
            })
        }
    }

    /// The product in the field. Bits above the symbol width are ignored.
    pub open spec fn mul(self, a: u8, b: u8) -> u8 {
        self.times_bits(a & self.mask(), b & self.mask())
    }

    /// The `n`-th power in the field.
    pub open spec fn pow(self, a: u8, n: nat) -> u8
        decreases n,
    {
        if n == 0 {
            1
        } else {
            self.mul(a, self.pow(a, (n - 1) as nat))
        }
    }

    /// The multiplicative inverse of a nonzero element: its power one below
    /// the group order.
    pub open spec fn inv(self, a: u8) -> u8 {
        self.pow(a, (self.order() - 1) as nat)
    }
}

/// Exclusive or is commutative.
pub proof fn xor_comm(a: u8, b: u8)
    ensures
        a ^ b == b ^ a,
{
    assert(a ^ b == b ^ a) by (bit_vector);
}

/// Exclusive or is associative.
pub proof fn xor_assoc(a: u8, b: u8, c: u8)
    ensures
        (a ^ b) ^ c == a ^ (b ^ c),
{
    assert((a ^ b) ^ c == a ^ (b ^ c)) by (bit_vector);
}

/// The middle terms of a sum of sums can be exchanged.
pub proof fn xor_swap(a: u8, b: u8, c: u8, d: u8)
    ensures
        (a ^ b) ^ (c ^ d) == (a ^ c) ^ (b ^ d),
{
    assert((a ^ b) ^ (c ^ d) == (a ^ c) ^ (b ^ d)) by (bit_vector);
}

/// Zero is neutral, everything is its own opposite, and a sum vanishes only
/// when its terms are equal.
pub proof fn xor_cancel(a: u8, b: u8)
    ensures
        a ^ 0 == a,
        0 ^ a == a,
        a ^ a == 0,
        (a ^ b == 0) <==> a == b,
        (a ^ b) ^ b == a,
        a ^ (a ^ b) == b,
{
    assert({
        &&& a ^ 0 == a
        &&& 0 ^ a == a
        &&& a ^ a == 0
        &&& (a ^ b == 0) <==> a == b
        &&& (a ^ b) ^ b == a
        &&& a ^ (a ^ b) == b
    }) by (bit_vector);
}

impl Gf {
    /// Sums of elements are elements.
    pub proof fn lemma_has_xor(self, a: u8, b: u8)
        requires
            self.has(a),
            self.has(b),
        ensures
            self.has(a ^ b),
    {
        assert(a <= 0x0f && b <= 0x0f ==> a ^ b <= 0x0f) by (bit_vector);
    }

    /// `twice` is linear, stays in the field and fixes zero.
    proof fn lemma_twice(self, a: u8, b: u8)
        ensures
            self.twice(a ^ b) == self.twice(a) ^ self.twice(b),
            self.has(self.twice(a)),
            self.twice(0) == 0,
    {
        assert({
            &&& twice_byte(a ^ b) == twice_byte(a) ^ twice_byte(b)
            &&& twice_nibble(a ^ b) == twice_nibble(a) ^ twice_nibble(b)
            &&& twice_nibble(a) <= 0x0f
            &&& twice_byte(0) == 0
            &&& twice_nibble(0) == 0
        }) by (bit_vector);
    }

    /// Linearity in the bits of the second factor.
    proof fn lemma_bits_right(self, a: u8, b: u8, c: u8)
        ensures
            self.times_bits(a, b ^ c) == self.times_bits(a, b) ^ self.times_bits(a, c),
        decreases b + c,
    {
        if b == 0 {
            xor_cancel(c, 0);
            xor_cancel(self.times_bits(a, c), 0);
        } else if c == 0 {
            xor_cancel(b, 0);
            xor_cancel(self.times_bits(a, b), 0);
        } else {
            let d = b ^ c;
            assert(d / 2 == (b / 2) ^ (c / 2) && d % 2 == (b % 2) ^ (c % 2)) by (bit_vector)
                requires
                    d == b ^ c,
            ;
            self.lemma_bits_right(a, b / 2, c / 2);
            let (tb, tc) = (self.times_bits(a, b / 2), self.times_bits(a, c / 2));
            self.lemma_twice(tb, tc);
            let (wb, wc) = (
                if b % 2 == 1 { a } else { 0 },
                if c % 2 == 1 { a } else { 0 },
            );
            xor_swap(self.twice(tb), wb, self.twice(tc), wc);
            xor_cancel(a, a);
            assert((0u8 ^ 0 == 0) && (1u8 ^ 1 == 0) && (0u8 ^ 1 == 1) && (1u8 ^ 0 == 1))
                by (bit_vector);
            xor_cancel(0, 0);
            assert(self.times_bits(a, b) == self.twice(tb) ^ wb);
            assert(self.times_bits(a, c) == self.twice(tc) ^ wc);
            if d == 0 {
                assert(b == c) by {
                    xor_cancel(b, c);
                }
                xor_cancel(self.times_bits(a, b), self.times_bits(a, b));
            }
        }
    }

    /// Linearity in the first factor.
    proof fn lemma_bits_left(self, a: u8, b: u8, c: u8)
        ensures
            self.times_bits(a ^ b, c) == self.times_bits(a, c) ^ self.times_bits(b, c),
        decreases c,
    {
        if c == 0 {
            xor_cancel(0, 0);
        } else {
            self.lemma_bits_left(a, b, c / 2);
            let (ta, tb) = (self.times_bits(a, c / 2), self.times_bits(b, c / 2));
            self.lemma_twice(ta, tb);
            let (wa, wb) = if c % 2 == 1 {
                (a, b)
            } else {
                (0, 0)
            };
            xor_swap(self.twice(ta), wa, self.twice(tb), wb);
            xor_cancel(0, 0);
        }
    }

    /// A factor `x` can be taken out of the first factor.
    proof fn lemma_bits_twice_left(self, a: u8, b: u8)
        ensures
            self.times_bits(self.twice(a), b) == self.twice(self.times_bits(a, b)),
        decreases b,
    {
        self.lemma_twice(0, 0);
        if b != 0 {
            self.lemma_bits_twice_left(a, b / 2);
            let t = self.twice(self.times_bits(a, b / 2));
            self.lemma_twice(t, a);
            xor_cancel(t, 0);
            xor_cancel(self.twice(t), 0);
        }
    }

    /// One is neutral.
    proof fn lemma_bits_one(self, a: u8)
        requires
            self.has(a),
        ensures
            self.times_bits(1, a) == a,
        decreases a,
    {
        if a != 0 {
            self.lemma_bits_one(a / 2);
            assert({
                &&& twice_byte(a / 2) ^ (a % 2) == a
                &&& a <= 0x0f ==> twice_nibble(a / 2) ^ (a % 2) == a
            }) by (bit_vector);
        }
    }

    /// Products are elements.
    proof fn lemma_bits_has(self, a: u8, b: u8)
        requires
            self.has(a),
        ensures
            self.has(self.times_bits(a, b)),
    {
        if b != 0 {
            let t = self.times_bits(a, b / 2);
            self.lemma_twice(t, t);
            self.lemma_has_xor(self.twice(t), a);
            xor_cancel(self.twice(t), 0);
        }
    }

    /// One step of Horner's rule.
    proof fn lemma_bits_step(self, a: u8, b: u8)
        requires
            b < 128,
        ensures
            self.times_bits(a, (2 * b) as u8) == self.twice(self.times_bits(a, b)),
            self.times_bits(a, (2 * b + 1) as u8) == self.twice(self.times_bits(a, b)) ^ a,
    {
        xor_cancel(self.twice(self.times_bits(a, b)), 0);
        self.lemma_twice(0, 0);
        assert((2 * b) as u8 / 2 == b);
        assert((2 * b + 1) as u8 / 2 == b);
    }

    /// A factor `x` can be taken out of the second factor.
    proof fn lemma_bits_twice_right(self, a: u8, b: u8)
        requires
            self.has(a),
            self.has(b),
        ensures
            self.times_bits(a, self.twice(b)) == self.twice(self.times_bits(a, b)),
    {
        let (top, low): (u8, u8) = match self {
            Gf::Nibble => (0x08, 0x03),
            Gf::Byte => (0x80, 0x1d),
        };
        self.lemma_twice(0, 0);
        let h = b & !top;
        assert({
            &&& b & 0x80 == 0 ==> twice_byte(b) == 2 * b
            &&& b <= 0x0f && b & 0x08 == 0 ==> twice_nibble(b) == 2 * b
            &&& b & 0x80 != 0 ==> {
                &&& b == (b & !0x80) ^ 0x80
                &&& 2 * (b & !0x80) <= 0xff
                &&& twice_byte(b) == ((b & !0x80) * 2) as u8 ^ 0x1d
            }
            &&& b <= 0x0f && b & 0x08 != 0 ==> {
                &&& b == (b & !0x08) ^ 0x08
                &&& 2 * (b & !0x08) <= 0xff
                &&& twice_nibble(b) == ((b & !0x08) * 2) as u8 ^ 0x03
            }
        }) by (bit_vector);
        if b & top == 0 {
            assert(b < 128);
            self.lemma_bits_step(a, b);
        } else {
            let g = (2 * h) as u8;
            self.lemma_bits_step(a, h);
            self.lemma_bits_right(a, g, low);
            self.lemma_bits_right(a, h, top);
            self.lemma_twice(self.times_bits(a, h), self.times_bits(a, top));
            assert(self.times_bits(a, low) == self.twice(self.times_bits(a, top))) by {
                self.lemma_reduction(a);
                self.lemma_bits_step(a, 0);
                self.lemma_bits_step(a, 1);
                self.lemma_bits_step(a, 2);
                self.lemma_bits_step(a, 3);
                self.lemma_bits_step(a, 4);
                self.lemma_bits_step(a, 7);
                self.lemma_bits_step(a, 8);
                self.lemma_bits_step(a, 14);
                self.lemma_bits_step(a, 16);
                self.lemma_bits_step(a, 32);
                self.lemma_bits_step(a, 64);
                xor_cancel(a, 0);
            }
        }
    }

    /// The reduction polynomial annihilates multiplication by `x`.
    proof fn lemma_reduction(self, a: u8)
        ensures
            self == Gf::Byte ==> {
                let t = twice_byte(a);
                let u = twice_byte(twice_byte(twice_byte(t ^ a) ^ a)) ^ a;
                u == twice_byte(twice_byte(twice_byte(twice_byte(twice_byte(twice_byte(twice_byte(t)))))))
            },
            self == Gf::Nibble && a <= 0x0f ==> twice_nibble(a) ^ a == twice_nibble(
                twice_nibble(twice_nibble(twice_nibble(a))),
            ),
    {
        assert(twice_byte(twice_byte(twice_byte(twice_byte(a) ^ a) ^ a)) ^ a == twice_byte(
            twice_byte(
                twice_byte(twice_byte(twice_byte(twice_byte(twice_byte(twice_byte(a)))))),
            ),
        )) by (bit_vector);
        assert(a <= 0x0f ==> twice_nibble(a) ^ a == twice_nibble(
            twice_nibble(twice_nibble(twice_nibble(a))),
        )) by (bit_vector);
    }

    /// Elements are untouched by the mask, and masking commutes with sums.
    proof fn lemma_mask(self, a: u8, b: u8)
        ensures
            self.has(a) ==> a & self.mask() == a,
            self.has(a & self.mask()),
            (a ^ b) & self.mask() == (a & self.mask()) ^ (b & self.mask()),
    {
        let m = self.mask();
        assert({
            &&& (m == 0x0f || m == 0xff) && a <= m ==> a & m == a
            &&& a & m <= m
            &&& (a ^ b) & m == (a & m) ^ (b & m)
        }) by (bit_vector);
    }

    /// Products are elements.
    pub proof fn lemma_mul_has(self, a: u8, b: u8)
        ensures
            self.has(self.mul(a, b)),
    {
        self.lemma_mask(a, a);
        self.lemma_bits_has(a & self.mask(), b & self.mask());
    }

    /// Multiplication distributes over addition.
    pub proof fn lemma_mul_add(self, a: u8, b: u8, c: u8)
        ensures
            self.mul(a, b ^ c) == self.mul(a, b) ^ self.mul(a, c),
            self.mul(b ^ c, a) == self.mul(b, a) ^ self.mul(c, a),
    {
        let m = self.mask();
        self.lemma_mask(b, c);
        self.lemma_bits_right(a & m, b & m, c & m);
        self.lemma_bits_left(b & m, c & m, a & m);
    }

    proof fn lemma_bits_comm(self, a: u8, b: u8)
        requires
            self.has(a),
            self.has(b),
        ensures
            self.times_bits(a, b) == self.times_bits(b, a),
        decreases b,
    {
        let h = b / 2;
        let l = b % 2;
        assert({
            &&& twice_byte(b / 2) ^ (b % 2) == b
            &&& b <= 0x0f ==> twice_nibble(b / 2) ^ (b % 2) == b
        }) by (bit_vector);
        if b == 0 {
            self.lemma_bits_right(0, a, a);
            xor_cancel(a, a);
            assert(self.times_bits(0, a) == 0) by {
                self.lemma_bits_left(0, 0, a);
                xor_cancel(0, 0);
                xor_cancel(self.times_bits(0, a), self.times_bits(0, a));
            }
        } else {
            self.lemma_bits_comm(a, h);
            self.lemma_bits_left(self.twice(h), l, a);
            self.lemma_bits_twice_left(h, a);
            self.lemma_bits_one(a);
            self.lemma_bits_left(0, 0, a);
            xor_cancel(0, 0);
            xor_cancel(self.times_bits(0, a), self.times_bits(0, a));
        }
    }

    /// Multiplication is commutative.
    pub proof fn lemma_mul_comm(self, a: u8, b: u8)
        ensures
            self.mul(a, b) == self.mul(b, a),
    {
        self.lemma_mask(a, b);
        self.lemma_mask(b, a);
        self.lemma_bits_comm(a & self.mask(), b & self.mask());
    }

    proof fn lemma_bits_assoc(self, a: u8, b: u8, c: u8)
        requires
            self.has(a),
            self.has(b),
        ensures
            self.times_bits(a, self.times_bits(b, c)) == self.times_bits(
                self.times_bits(a, b),
                c,
            ),
        decreases c,
    {
        if c != 0 {
            self.lemma_bits_assoc(a, b, c / 2);
            let t = self.times_bits(b, c / 2);
            self.lemma_bits_has(b, c / 2);
            self.lemma_bits_twice_right(a, t);
            self.lemma_bits_right(a, self.twice(t), b);
            xor_cancel(self.twice(t), 0);
            xor_cancel(self.twice(self.times_bits(a, t)), 0);
        }
    }

    /// Multiplication is associative.
    pub proof fn lemma_mul_assoc(self, a: u8, b: u8, c: u8)
        ensures
            self.mul(a, self.mul(b, c)) == self.mul(self.mul(a, b), c),
    {
        let m = self.mask();
        self.lemma_mask(a, b);
        self.lemma_mask(b, c);
        self.lemma_bits_assoc(a & m, b & m, c & m);
        self.lemma_bits_has(a & m, b & m);
        self.lemma_bits_has(b & m, c & m);
        self.lemma_mask(self.mul(a, b), 0);
        self.lemma_mask(self.mul(b, c), 0);
    }

    /// Zero annihilates.
    pub proof fn lemma_mul_zero(self, a: u8)
        ensures
            self.mul(a, 0) == 0,
            self.mul(0, a) == 0,
    {
        self.lemma_mask(0, 0);
        self.lemma_mul_comm(a, 0);
    }

    /// One is neutral.
    pub proof fn lemma_mul_one(self, a: u8)
        requires
            self.has(a),
        ensures
            self.mul(a, 1) == a,
            self.mul(1, a) == a,
    {
        self.lemma_mask(1, 0);
        self.lemma_mask(a, 0);
        self.lemma_bits_one(a);
        self.lemma_mul_comm(a, 1);
    }

    /// Powers are elements.
    pub proof fn lemma_pow_has(self, a: u8, n: nat)
        ensures
            self.has(self.pow(a, n)),
    {
        if n > 0 {
            self.lemma_mul_has(a, self.pow(a, (n - 1) as nat));
        }
    }

    /// Exponents add.
    pub proof fn lemma_pow_add(self, a: u8, m: nat, n: nat)
        ensures
            self.pow(a, m + n) == self.mul(self.pow(a, m), self.pow(a, n)),
        decreases m,
    {
        self.lemma_pow_has(a, n);
        if m == 0 {
            self.lemma_mul_one(self.pow(a, n));
        } else {
            self.lemma_pow_add(a, (m - 1) as nat, n);
            self.lemma_mul_assoc(a, self.pow(a, (m - 1) as nat), self.pow(a, n));
        }
    }

    /// The first power is the element itself.
    pub proof fn lemma_pow_one(self, a: u8)
        requires
            self.has(a),
        ensures
            self.pow(a, 1) == a,
    {
        self.lemma_mul_one(a);
        assert(self.pow(a, 0) == 1);
    }
}

/// The product of two polynomials over GF(2), not reduced.
spec fn carryless(a: u8, b: u8) -> u16 {
    (if b & 1 != 0 { a as u16 } else { 0u16 })
    ^ (if b & 2 != 0 { (a as u16) << 1 } else { 0u16 })
    ^ (if b & 4 != 0 { (a as u16) << 2 } else { 0u16 })
    ^ (if b & 8 != 0 { (a as u16) << 3 } else { 0u16 })
    ^ (if b & 16 != 0 { (a as u16) << 4 } else { 0u16 })
    ^ (if b & 32 != 0 { (a as u16) << 5 } else { 0u16 })
    ^ (if b & 64 != 0 { (a as u16) << 6 } else { 0u16 })
    ^ (if b & 128 != 0 { (a as u16) << 7 } else { 0u16 })
}

/// Reduction by the polynomial of GF(256), one high bit at a time.
spec fn reduced_byte(p: u16) -> u8 {
    ((p & 0xff) ^ (if p & 0x100 != 0 { 0x1du16 } else { 0u16 })
    ^ (if p & 0x200 != 0 { 0x3au16 } else { 0u16 })
    ^ (if p & 0x400 != 0 { 0x74u16 } else { 0u16 })
    ^ (if p & 0x800 != 0 { 0xe8u16 } else { 0u16 })
    ^ (if p & 0x1000 != 0 { 0xcdu16 } else { 0u16 })
    ^ (if p & 0x2000 != 0 { 0x87u16 } else { 0u16 })
    ^ (if p & 0x4000 != 0 { 0x13u16 } else { 0u16 })) as u8
}

/// Reduction by the polynomial of GF(16), one high bit at a time.
spec fn reduced_nibble(p: u16) -> u8 {
    ((p & 0x0f) ^ (if p & 0x10 != 0 { 0x3u16 } else { 0u16 })
    ^ (if p & 0x20 != 0 { 0x6u16 } else { 0u16 })
    ^ (if p & 0x40 != 0 { 0xcu16 } else { 0u16 })) as u8
}

spec fn product_byte(a: u8, b: u8) -> u8 {
    reduced_byte(carryless(a, b))
}

spec fn product_nibble(a: u8, b: u8) -> u8 {
    reduced_nibble(carryless(a, b))
}

impl Gf {
    spec fn reduced(self, a: u8, b: u8) -> u8 {
        match self {
            Gf::Nibble => product_nibble(a, b),
            Gf::Byte => product_byte(a, b),
        }
    }

    /// Horner's rule computes the reduced carryless product.
    proof fn lemma_bits_product(self, a: u8, b: u8)
        requires
            self.has(a),
            self.has(b),
        ensures
            self.times_bits(a, b) == self.reduced(a, b),
        decreases b,
    {
        assert({
            &&& product_byte(a, b) == twice_byte(product_byte(a, b / 2)) ^ (if b % 2 == 1 { a } else { 0u8 })
            &&& a <= 0x0f && b <= 0x0f ==> product_nibble(a, b) == twice_nibble(product_nibble(a, b / 2))
                ^ (if b % 2 == 1 { a } else { 0u8 })
            &&& product_byte(a, 0) == 0
            &&& product_nibble(a, 0) == 0
        }) by (bit_vector);
        if b != 0 {
            self.lemma_bits_product(a, b / 2);
        }
    }

    proof fn lemma_mul_product(self, a: u8, b: u8)
        requires
            self.has(a),
            self.has(b),
        ensures
            self.mul(a, b) == self.reduced(a, b),
    {
        self.lemma_mask(a, b);
        self.lemma_mask(b, a);
        self.lemma_bits_product(a, b);
    }

    /// Powers add up, as reduced products.
    proof fn lemma_pow_product(self, a: u8, m: nat, n: nat)
        ensures
            self.pow(a, m + n) == self.reduced(self.pow(a, m), self.pow(a, n)),
    {
        self.lemma_pow_add(a, m, n);
        self.lemma_pow_has(a, m);
        self.lemma_pow_has(a, n);
        self.lemma_mul_product(self.pow(a, m), self.pow(a, n));
    }

    /// Every nonzero element is a root of unity of the group order, and no
    /// proper divisor of that order does for the generator.
    #[verifier::rlimit(60)]
    #[verifier::spinoff_prover]
    pub proof fn lemma_pow_order(self, a: u8)
        requires
            self.has(a),
            a != 0,
        ensures
            self.pow(a, self.order()) == 1,
            a == 2 && self == Gf::Byte ==> self.pow(a, 15) != 1 && self.pow(a, 51) != 1
                && self.pow(a, 85) != 1,
            a == 2 && self == Gf::Nibble ==> self.pow(a, 3) != 1 && self.pow(a, 5) != 1,
    {
        self.lemma_pow_one(a);
        self.lemma_pow_product(a, 1, 1);
        self.lemma_pow_product(a, 2, 1);
        self.lemma_pow_product(a, 3, 3);
        self.lemma_pow_product(a, 6, 6);
        self.lemma_pow_product(a, 12, 3);
        self.lemma_pow_product(a, 3, 2);
        let (a2, a3, a5, a6, a12, a15) = (
            self.pow(a, 2),
            self.pow(a, 3),
            self.pow(a, 5),
            self.pow(a, 6),
            self.pow(a, 12),
            self.pow(a, 15),
        );
        if self == Gf::Nibble {
            assert(a15 == 1 && (a == 2 ==> a3 != 1 && a5 != 1)) by (bit_vector)
                requires
                    a <= 0x0f,
                    a != 0,
                    a2 == product_nibble(a, a),
                    a3 == product_nibble(a2, a),
                    a5 == product_nibble(a3, a2),
                    a6 == product_nibble(a3, a3),
                    a12 == product_nibble(a6, a6),
                    a15 == product_nibble(a12, a3),
            ;
        } else {
            self.lemma_pow_product(a, 15, 15);
            self.lemma_pow_product(a, 30, 30);
            self.lemma_pow_product(a, 60, 60);
            self.lemma_pow_product(a, 120, 120);
            self.lemma_pow_product(a, 240, 15);
            self.lemma_pow_product(a, 12, 12);
            self.lemma_pow_product(a, 24, 24);
            self.lemma_pow_product(a, 48, 3);
            self.lemma_pow_product(a, 24, 6);
            self.lemma_pow_product(a, 60, 24);
            self.lemma_pow_product(a, 84, 1);
            let (a24, a30, a48, a51, a60, a84, a85) = (
                self.pow(a, 24),
                self.pow(a, 30),
                self.pow(a, 48),
                self.pow(a, 51),
                self.pow(a, 60),
                self.pow(a, 84),
                self.pow(a, 85),
            );
            let (a120, a240, a255) = (self.pow(a, 120), self.pow(a, 240), self.pow(a, 255));
            assert(a255 == 1) by (bit_vector)
                requires
                    a != 0,
                    a2 == product_byte(a, a),
                    a3 == product_byte(a2, a),
                    a6 == product_byte(a3, a3),
                    a12 == product_byte(a6, a6),
                    a15 == product_byte(a12, a3),
                    a30 == product_byte(a15, a15),
                    a60 == product_byte(a30, a30),
                    a120 == product_byte(a60, a60),
                    a240 == product_byte(a120, a120),
                    a255 == product_byte(a240, a15),
            ;
            assert(a == 2 ==> a15 != 1 && a51 != 1 && a85 != 1) by (bit_vector)
                requires
                    a2 == product_byte(a, a),
                    a3 == product_byte(a2, a),
                    a6 == product_byte(a3, a3),
                    a12 == product_byte(a6, a6),
                    a15 == product_byte(a12, a3),
                    a24 == product_byte(a12, a12),
                    a30 == product_byte(a15, a15),
                    a48 == product_byte(a24, a24),
                    a51 == product_byte(a48, a3),
                    a60 == product_byte(a30, a30),
                    a84 == product_byte(a60, a24),
                    a85 == product_byte(a84, a),
            ;
        }
    }
}

impl Gf {
    /// The generator of the multiplicative group.
    pub open spec fn alpha(self, n: nat) -> u8 {
        self.pow(2, n)
    }

    /// Inverses are elements, and invert.
    pub proof fn lemma_inv(self, a: u8)
        requires
            self.has(a),
            a != 0,
        ensures
            self.mul(a, self.inv(a)) == 1,
            self.mul(self.inv(a), a) == 1,
            self.has(self.inv(a)),
            self.inv(a) != 0,
    {
        self.lemma_pow_order(a);
        self.lemma_pow_has(a, (self.order() - 1) as nat);
        self.lemma_mul_comm(a, self.inv(a));
        self.lemma_mul_zero(a);
    }

    /// A product vanishes only with one of its factors.
    pub proof fn lemma_no_zero_divisors(self, a: u8, b: u8)
        requires
            self.has(a),
            self.has(b),
            self.mul(a, b) == 0,
        ensures
            a == 0 || b == 0,
    {
        if a != 0 {
            self.lemma_inv(a);
            self.lemma_mul_assoc(self.inv(a), a, b);
            self.lemma_mul_one(b);
            self.lemma_mul_zero(self.inv(a));
        }
    }

    /// A nonzero factor can be cancelled.
    pub proof fn lemma_mul_cancel(self, a: u8, b: u8, c: u8)
        requires
            self.has(a),
            self.has(b),
            self.has(c),
            a != 0,
            self.mul(a, b) == self.mul(a, c),
        ensures
            b == c,
    {
        self.lemma_mul_add(a, b, c);
        xor_cancel(self.mul(a, b), self.mul(a, c));
        self.lemma_has_xor(b, c);
        self.lemma_no_zero_divisors(a, b ^ c);
        xor_cancel(b, c);
    }

    /// Powers of a nonzero element are nonzero.
    pub proof fn lemma_pow_nonzero(self, a: u8, n: nat)
        requires
            self.has(a),
            a != 0,
        ensures
            self.pow(a, n) != 0,
        decreases n,
    {
        if n > 0 {
            self.lemma_pow_nonzero(a, (n - 1) as nat);
            self.lemma_pow_has(a, (n - 1) as nat);
            if self.pow(a, n) == 0 {
                self.lemma_no_zero_divisors(a, self.pow(a, (n - 1) as nat));
            }
        }
    }

    /// The powers of one are one.
    pub proof fn lemma_one_pow(self, n: nat)
        ensures
            self.pow(1, n) == 1,
        decreases n,
    {
        if n > 0 {
            self.lemma_one_pow((n - 1) as nat);
            self.lemma_mul_one(1);
        }
    }

    /// Exponents of iterated powers multiply.
    pub proof fn lemma_pow_mul(self, a: u8, m: nat, n: nat)
        ensures
            self.pow(self.pow(a, m), n) == self.pow(a, m * n),
        decreases n,
    {
        if n == 0 {
            assert(m * n == 0) by (nonlinear_arith)
                requires
                    n == 0,
            ;
        } else {
            let k = (n - 1) as nat;
            self.lemma_pow_mul(a, m, k);
            assert(m + m * k == m * n) by (nonlinear_arith)
                requires
                    k == n - 1,
            ;
            self.lemma_pow_add(a, m, m * k);
        }
    }

    /// Exponents of a nonzero element count modulo the group order.
    pub proof fn lemma_pow_mod(self, a: u8, n: nat)
        requires
            self.has(a),
            a != 0,
        ensures
            self.pow(a, n) == self.pow(a, n % self.order()),
    {
        let m = self.order();
        let q = n / m;
        let r = n % m;
        assert(n == m * q + r) by {
            vstd::arithmetic::div_mod::lemma_fundamental_div_mod(n as int, m as int);
        }
        self.lemma_pow_order(a);
        self.lemma_pow_mul(a, m, q);
        self.lemma_one_pow(q);
        self.lemma_pow_add(a, m * q, r);
        self.lemma_pow_has(a, r);
        self.lemma_mul_one(self.pow(a, r));
    }

    /// The product with the generator.
    pub proof fn lemma_times_two(self, a: u8)
        requires
            self.has(a),
        ensures
            self.mul(2, a) == self.twice(a),
    {
        self.lemma_mul_comm(2, a);
        self.lemma_mask(a, 2);
        self.lemma_mask(2, a);
        self.lemma_twice(0, 0);
        self.lemma_bits_step(a, 0);
        self.lemma_bits_step(a, 1);
        xor_cancel(a, 0);
    }

    /// A remainder of exponents of roots of unity is again such an exponent.
    proof fn lemma_unit_remainder(self, m: nat, d: nat)
        requires
            d > 0,
            self.alpha(m) == 1,
            self.alpha(d) == 1,
        ensures
            self.alpha(m % d) == 1,
    {
        let q = m / d;
        let r = m % d;
        assert(m == d * q + r) by {
            vstd::arithmetic::div_mod::lemma_fundamental_div_mod(m as int, d as int);
        }
        self.lemma_pow_mul(2, d, q);
        self.lemma_one_pow(q);
        self.lemma_pow_add(2, d * q, r);
        self.lemma_pow_has(2, r);
        self.lemma_mul_one(self.alpha(r));
    }

    proof fn lemma_alpha_not_one(self, d: nat)
        requires
            0 < d < self.order(),
        ensures
            self.alpha(d) != 1,
        decreases d,
    {
        if self.alpha(d) == 1 {
            self.lemma_pow_order(2);
            self.lemma_unit_remainder(self.order(), d);
            let r = self.order() % d;
            if r != 0 {
                self.lemma_alpha_not_one(r);
            } else {
                let c = d as u8;
                assert({
                    &&& c != 0 && c < 255 && 255u8 % c == 0 ==> 15u8 % c == 0 || 51u8 % c == 0 || 85u8 % c
                        == 0
                    &&& c != 0 && c < 15 && 15u8 % c == 0 ==> 3u8 % c == 0 || 5u8 % c == 0
                }) by (bit_vector);
                let t: nat = match self {
                    Gf::Nibble => if 3u8 % c == 0 {
                        3
                    } else {
                        5
                    },
                    Gf::Byte => if 15u8 % c == 0 {
                        15
                    } else if 51u8 % c == 0 {
                        51
                    } else {
                        85
                    },
                };
                let k = t / d;
                assert(t % d == 0);
                assert(t == d * k) by {
                    vstd::arithmetic::div_mod::lemma_fundamental_div_mod(t as int, d as int);
                }
                self.lemma_pow_mul(2, d, k);
                self.lemma_one_pow(k);
            }
        }
    }

    /// The powers of the generator below the group order are distinct.
    pub proof fn lemma_alpha_distinct(self, i: nat, j: nat)
        requires
            i < j,
            j - i < self.order(),
        ensures
            self.alpha(i) != self.alpha(j),
    {
        let d = (j - i) as nat;
        self.lemma_alpha_not_one(d);
        if self.alpha(i) == self.alpha(j) {
            self.lemma_pow_add(2, i, d);
            self.lemma_pow_nonzero(2, i);
            self.lemma_pow_has(2, i);
            self.lemma_pow_has(2, d);
            self.lemma_mul_one(self.alpha(i));
            self.lemma_mul_cancel(self.alpha(i), self.alpha(d), 1);
        }
    }

    /// `a` times the generator.
    fn double(self, a: u8) -> (r: u8)
        ensures
            r == self.twice(a),
    {
        match self {
            Gf::Nibble => if a & 0x08 != 0 {
                ((a << 1) & 0x0f) ^ 0x03
            } else {
                (a << 1) & 0x0f
            },
            Gf::Byte => if a & 0x80 != 0 {
                (a << 1) ^ 0x1d
            } else {
                a << 1
            },
        }
    }

    /// The product in the field.
    pub fn product(self, a: u8, b: u8) -> (r: u8)
        ensures
            r == self.mul(a, b),
    {
        let m: u8 = match self {
            Gf::Nibble => 0x0f,
            Gf::Byte => 0xff,
        };
        let x = a & m;
        let y = b & m;
        let mut acc: u8 = 0;
        let mut i: u8 = 8;
        proof {
            assert(y >> 8u8 == 0) by (bit_vector);
        }
        while i > 0
            invariant
                i <= 8,
                acc == self.times_bits(x, y >> i),
            decreases i,
        {
            let ghost t = y >> i;
            i = i - 1;
            let bit = (y >> i) & 1;
            proof {
                let u = y >> i;
                assert(u / 2 == y >> ((i + 1) as u8) && u % 2 == u & 1) by (bit_vector)
                    requires
                        u == y >> i,
                        i < 8,
                ;
                self.lemma_twice(0, 0);
                xor_cancel(self.twice(acc), 0);
                xor_cancel(0, 0);
            }
            acc = self.double(acc) ^ (if bit == 1 {
                x
            } else {
                0
            });
        }
        proof {
            assert(y >> 0u8 == y) by (bit_vector);
        }
        acc
    }

    /// The power of an element, by squaring.
    pub fn power(self, a: u8, n: u32) -> (r: u8)
        requires
            self.has(a),
        ensures
            r == self.pow(a, n as nat),
    {
        let mut acc: u8 = 1;
        let mut base: u8 = a;
        let mut k: u32 = n;
        proof {
            self.lemma_pow_has(base, k as nat);
            self.lemma_mul_one(self.pow(base, k as nat));
        }
        while k > 0
            invariant
                self.has(acc),
                self.has(base),
                self.mul(acc, self.pow(base, k as nat)) == self.pow(a, n as nat),
            decreases k,
        {
            let ghost old_acc = acc;
            let ghost h = (k / 2) as nat;
            let ghost sq = self.mul(base, base);
            proof {
                self.lemma_pow_one(base);
                self.lemma_pow_add(base, 1, 1);
                self.lemma_pow_mul(base, 2, h);
                self.lemma_pow_has(sq, h);
                self.lemma_mul_assoc(acc, base, self.pow(sq, h));
                self.lemma_mul_has(acc, base);
                self.lemma_mul_has(base, base);
                if k % 2 == 1 {
                    assert(k == 1 + 2 * h);
                    self.lemma_pow_add(base, 1, 2 * h);
                }
            }
            if k % 2 == 1 {
                acc = self.product(acc, base);
            }
            base = self.product(base, base);
            k = k / 2;
        }
        proof {
            assert(self.pow(base, 0) == 1);
            self.lemma_mul_one(acc);
        }
        acc
    }

    /// The inverse of a nonzero element.
    pub fn inverse(self, a: u8) -> (r: u8)
        requires
            self.has(a),
        ensures
            r == self.inv(a),
    {
        match self {
            Gf::Nibble => self.power(a, 14),
            Gf::Byte => self.power(a, 254),
        }
    }
}

} // verus!
