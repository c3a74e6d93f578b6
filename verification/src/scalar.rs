//! The coefficient ring that differentials are built over.
//!
//! Every arithmetic operation of the engine bottoms out in the operations of
//! this trait.  Each exec operation is total and returns exactly what its
//! spec counterpart describes, so the engine's contracts can name the result
//! of every coefficient combination.  The ring laws give the engine's
//! algebraic lemmas their footing; `i64` satisfies them with wrapping
//! arithmetic, which agrees with ordinary arithmetic wherever no overflow
//! occurs.

use vstd::prelude::*;

verus! {

/// A coefficient type: a commutative ring with total exec operations that
/// match their specs, plus the sign operations the value layer exposes.
pub trait Scalar: Sized + Copy {
    /// What `add` returns.
    spec fn add_spec(self, rhs: Self) -> Self;

    /// What `sub` returns.
    spec fn sub_spec(self, rhs: Self) -> Self;

    /// What `mul` returns.
    spec fn mul_spec(self, rhs: Self) -> Self;

    /// What `div` returns; total, with a fixed value on a zero divisor.
    spec fn div_spec(self, rhs: Self) -> Self;

    /// What `rem` returns; total, with a fixed value on a zero divisor.
    spec fn rem_spec(self, rhs: Self) -> Self;

    /// What `neg` returns.
    spec fn neg_spec(self) -> Self;

    /// The additive identity.
    spec fn zero_spec() -> Self;

    /// The ring element standing for a count of items.
    spec fn from_count_spec(c: usize) -> Self;

    /// The strict order that the sign operations go by.
    spec fn lt_spec(self, rhs: Self) -> bool;

    /// What `signum` returns.
    spec fn signum_spec(self) -> Self;

    /// Whether the value counts as positive.
    spec fn pos_spec(self) -> bool;

    /// Whether the value counts as negative.
    spec fn neg_sign_spec(self) -> bool;

    fn add(self, rhs: Self) -> (r: Self)
        ensures
            r == self.add_spec(rhs),
    ;

    fn sub(self, rhs: Self) -> (r: Self)
        ensures
            r == self.sub_spec(rhs),
    ;

    fn mul(self, rhs: Self) -> (r: Self)
        ensures
            r == self.mul_spec(rhs),
    ;

    fn div(self, rhs: Self) -> (r: Self)
        ensures
            r == self.div_spec(rhs),
    ;

    fn rem(self, rhs: Self) -> (r: Self)
        ensures
            r == self.rem_spec(rhs),
    ;

    fn neg(self) -> (r: Self)
        ensures
            r == self.neg_spec(),
    ;

    fn zero() -> (r: Self)
        ensures
            r == Self::zero_spec(),
    ;

    fn from_count(c: usize) -> (r: Self)
        ensures
            r == Self::from_count_spec(c),
    ;

    fn lt(self, rhs: Self) -> (r: bool)
        ensures
            r == self.lt_spec(rhs),
    ;

    fn signum(self) -> (r: Self)
        ensures
            r == self.signum_spec(),
    ;

    fn is_positive(self) -> (r: bool)
        ensures
            r == self.pos_spec(),
    ;

    fn is_negative(self) -> (r: bool)
        ensures
            r == self.neg_sign_spec(),
    ;

    /// Addition is commutative.
    proof fn add_commutes(a: Self, b: Self)
        ensures
            a.add_spec(b) == b.add_spec(a),
    ;

    /// Addition is associative.
    proof fn add_associates(a: Self, b: Self, c: Self)
        ensures
            a.add_spec(b).add_spec(c) == a.add_spec(b.add_spec(c)),
    ;

    /// Zero is the additive identity.
    proof fn add_zero(a: Self)
        ensures
            a.add_spec(Self::zero_spec()) == a,
            Self::zero_spec().add_spec(a) == a,
    ;

    /// Subtracting what was added gives the value back.
    proof fn sub_cancels(a: Self, b: Self)
        ensures
            a.add_spec(b).sub_spec(b) == a,
    ;

    /// Multiplication is commutative.
    proof fn mul_commutes(a: Self, b: Self)
        ensures
            a.mul_spec(b) == b.mul_spec(a),
    ;

    /// Multiplication distributes over addition.
    proof fn mul_distributes(a: Self, b: Self, c: Self)
        ensures
            a.mul_spec(b.add_spec(c)) == a.mul_spec(b).add_spec(a.mul_spec(c)),
    ;

    /// Zero absorbs multiplication.
    proof fn mul_zero(a: Self)
        ensures
            a.mul_spec(Self::zero_spec()) == Self::zero_spec(),
            Self::zero_spec().mul_spec(a) == Self::zero_spec(),
    ;
}

/// One more than `i64::MAX` minus `i64::MIN`: the modulus of wrapping
/// arithmetic on `i64`.
pub open spec fn i64_modulus() -> int {
    0x1_0000_0000_0000_0000
}

/// Truncating division of `a` by `b`, total: zero on a zero divisor, and
/// wrapping on the one overflowing quotient.
pub open spec fn i64_div_total(a: i64, b: i64) -> i64 {
    if b == 0 {
        0
    } else {
        let q = abs_int(a as int) / abs_int(b as int);
        if (a < 0) != (b < 0) {
            (-q) as i64
        } else {
            if q > i64::MAX {
                i64::MIN
            } else {
                q as i64
            }
        }
    }
}

/// Truncating remainder of `a` by `b`, total: `a` itself on a zero divisor.
/// Its sign follows the dividend, as the `%` of the machine does.
pub open spec fn i64_rem_total(a: i64, b: i64) -> i64 {
    if b == 0 {
        a
    } else {
        let r = abs_int(a as int) % abs_int(b as int);
        if a < 0 {
            (-r) as i64
        } else {
            r as i64
        }
    }
}

pub open spec fn abs_int(a: int) -> int {
    if a < 0 {
        -a
    } else {
        a
    }
}

impl Scalar for i64 {
    open spec fn add_spec(self, rhs: Self) -> Self {
        vstd::wrapping::i64_specs::wrapping_add(self, rhs)
    }

    open spec fn sub_spec(self, rhs: Self) -> Self {
        vstd::wrapping::i64_specs::wrapping_sub(self, rhs)
    }

    open spec fn mul_spec(self, rhs: Self) -> Self {
        vstd::wrapping::i64_specs::wrapping_mul(self, rhs)
    }

    open spec fn div_spec(self, rhs: Self) -> Self {
        i64_div_total(self, rhs)
    }

    open spec fn rem_spec(self, rhs: Self) -> Self {
        i64_rem_total(self, rhs)
    }

    open spec fn neg_spec(self) -> Self {
        vstd::wrapping::i64_specs::wrapping_sub(0, self)
    }

    open spec fn zero_spec() -> Self {
        0
    }

    open spec fn from_count_spec(c: usize) -> Self {
        if c <= i64::MAX {
            c as i64
        } else {
            (c - i64_modulus()) as i64
        }
    }

    open spec fn lt_spec(self, rhs: Self) -> bool {
        self < rhs
    }

    open spec fn signum_spec(self) -> Self {
        if self < 0 {
            -1i64
        } else if self == 0 {
            0i64
        } else {
            1i64
        }
    }

    open spec fn pos_spec(self) -> bool {
        self > 0
    }

    open spec fn neg_sign_spec(self) -> bool {
        self < 0
    }

    fn add(self, rhs: Self) -> (r: Self) {
        self.wrapping_add(rhs)
    }

    fn sub(self, rhs: Self) -> (r: Self) {
        self.wrapping_sub(rhs)
    }

    fn mul(self, rhs: Self) -> (r: Self) {
        self.wrapping_mul(rhs)
    }

    fn div(self, rhs: Self) -> (r: Self) {
        if rhs == 0 {
            0
        } else {
            let ua = i64_magnitude(self);
            let ub = i64_magnitude(rhs);
            let q = ua / ub;
            if (self < 0) != (rhs < 0) {
                if q == 0x8000_0000_0000_0000u64 {
                    i64::MIN
                } else {
                    -(q as i64)
                }
            } else {
                if q >= 0x8000_0000_0000_0000u64 {
                    i64::MIN
                } else {
                    q as i64
                }
            }
        }
    }

    fn rem(self, rhs: Self) -> (r: Self) {
        if rhs == 0 {
            self
        } else {
            let ua = i64_magnitude(self);
            let ub = i64_magnitude(rhs);
            let r = ua % ub;
            if self < 0 {
                -(r as i64)
            } else {
                r as i64
            }
        }
    }

    fn neg(self) -> (r: Self) {
        i64::wrapping_sub(0, self)
    }

    fn zero() -> (r: Self) {
        0
    }

    fn from_count(c: usize) -> (r: Self) {
        let wide = c as u64;
        if wide <= 0x7fff_ffff_ffff_ffffu64 {
            wide as i64
        } else {
            let above = wide - 0x8000_0000_0000_0000u64;
            i64::MIN + (above as i64)
        }
    }

    fn lt(self, rhs: Self) -> (r: bool) {
        self < rhs
    }

    fn signum(self) -> (r: Self) {
        if self < 0 {
            -1
        } else if self == 0 {
            0
        } else {
            1
        }
    }

    fn is_positive(self) -> (r: bool) {
        self > 0
    }

    fn is_negative(self) -> (r: bool) {
        self < 0
    }

    proof fn add_commutes(a: Self, b: Self) {
    }

    proof fn add_associates(a: Self, b: Self, c: Self) {
    }

    proof fn add_zero(a: Self) {
    }

    proof fn sub_cancels(a: Self, b: Self) {
    }

    proof fn mul_commutes(a: Self, b: Self) {
    }

    proof fn mul_distributes(a: Self, b: Self, c: Self) {
        lemma_i64_mul_distributes(a, b, c);
    }

    proof fn mul_zero(a: Self) {
    }
}

/// The magnitude of an `i64` as a `u64`; total, also on `i64::MIN`.
fn i64_magnitude(a: i64) -> (r: u64)
    ensures
        r == abs_int(a as int),
{
    if a == i64::MIN {
        0x8000_0000_0000_0000u64
    } else if a < 0 {
        (-a) as u64
    } else {
        a as u64
    }
}

/// Two values congruent modulo the `i64` modulus wrap to the same value.
proof fn lemma_i64_crop_congruent(x: int, y: int)
    requires
        x % i64_modulus() == y % i64_modulus(),
    ensures
        vstd::wrapping::i64_specs::signed_crop(x) == vstd::wrapping::i64_specs::signed_crop(y),
{
}

/// Adding a multiple of the modulus does not change the residue.
proof fn lemma_i64_mod_multiples(k: int, x: int)
    ensures
        (x + k * i64_modulus()) % i64_modulus() == x % i64_modulus(),
{
    vstd::arithmetic::div_mod::lemma_mod_multiples_vanish(k, x, i64_modulus());
}

/// Wrapping addition of two in-range values is the wrap of their exact sum.
proof fn lemma_i64_add_is_crop(a: i64, b: i64)
    ensures
        vstd::wrapping::i64_specs::wrapping_add(a, b) == vstd::wrapping::i64_specs::signed_crop(
            a + b,
        ),
{
    let m = i64_modulus();
    if a + b > i64::MAX {
        vstd::arithmetic::div_mod::lemma_small_mod((a + b) as nat, m as nat);
    } else if a + b < i64::MIN {
        lemma_i64_mod_multiples(1, a + b);
        vstd::arithmetic::div_mod::lemma_small_mod((a + b + m) as nat, m as nat);
    } else {
        if a + b >= 0 {
            vstd::arithmetic::div_mod::lemma_small_mod((a + b) as nat, m as nat);
        } else {
            lemma_i64_mod_multiples(1, a + b);
            vstd::arithmetic::div_mod::lemma_small_mod((a + b + m) as nat, m as nat);
        }
    }
}

/// Distributivity of wrapping multiplication over wrapping addition.
proof fn lemma_i64_mul_distributes(a: i64, b: i64, c: i64)
    ensures
        vstd::wrapping::i64_specs::wrapping_mul(
            a,
            vstd::wrapping::i64_specs::wrapping_add(b, c),
        ) == vstd::wrapping::i64_specs::wrapping_add(
            vstd::wrapping::i64_specs::wrapping_mul(a, b),
            vstd::wrapping::i64_specs::wrapping_mul(a, c),
        ),
{
    let m = i64_modulus();
    let s = vstd::wrapping::i64_specs::wrapping_add(b, c);
    let k: int = if b + c > i64::MAX {
        -1
    } else if b + c < i64::MIN {
        1
    } else {
        0
    };
    assert(s == b + c + k * m);
    assert(a * s == a * b + a * c + (a * k) * m) by (nonlinear_arith)
        requires
            s == b + c + k * m,
    ;
    lemma_i64_mod_multiples(a * k, a * b + a * c);
    assert((a * s) % m == (a * b + a * c) % m);
    lemma_i64_crop_congruent(a * s, a * b + a * c);
    // the right-hand side wraps the sum of the two cropped products
    let pb = vstd::wrapping::i64_specs::signed_crop(a * b);
    let pc = vstd::wrapping::i64_specs::signed_crop(a * c);
    lemma_i64_add_is_crop(pb, pc);
    let kb: int = if (a * b) % m > i64::MAX {
        ((a * b) / m) + 1
    } else {
        (a * b) / m
    };
    let kc: int = if (a * c) % m > i64::MAX {
        ((a * c) / m) + 1
    } else {
        (a * c) / m
    };
    vstd::arithmetic::div_mod::lemma_fundamental_div_mod(a * b, m);
    vstd::arithmetic::div_mod::lemma_fundamental_div_mod(a * c, m);
    assert(pb == a * b - kb * m) by {
        assert(a * b == m * ((a * b) / m) + (a * b) % m);
        assert(kb * m == ((a * b) / m) * m || kb * m == ((a * b) / m) * m + m) by (nonlinear_arith)
            requires
                kb == (a * b) / m || kb == (a * b) / m + 1,
        ;
        assert(m * ((a * b) / m) == ((a * b) / m) * m) by (nonlinear_arith);
    }
    assert(pc == a * c - kc * m) by {
        assert(a * c == m * ((a * c) / m) + (a * c) % m);
        assert(kc * m == ((a * c) / m) * m || kc * m == ((a * c) / m) * m + m) by (nonlinear_arith)
            requires
                kc == (a * c) / m || kc == (a * c) / m + 1,
        ;
        assert(m * ((a * c) / m) == ((a * c) / m) * m) by (nonlinear_arith);
    }
    assert(pb + pc == a * b + a * c + (-kb - kc) * m) by (nonlinear_arith)
        requires
            pb == a * b - kb * m,
            pc == a * c - kc * m,
    ;
    lemma_i64_mod_multiples(-kb - kc, a * b + a * c);
    lemma_i64_crop_congruent(pb + pc, a * b + a * c);
}

} // verus!
