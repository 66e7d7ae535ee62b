use vstd::prelude::*;

verus! {

/// The numeric capability the solver is written against.
///
/// The optimizer never fixes a number type: every arithmetic step and every
/// comparison it makes goes through this trait, and every contract in the
/// crate speaks of the spec-level mirrors (`s_add`, `s_lt`, ...). An
/// implementation decides what the numbers are; the solver's verified
/// obligations (active-set uniqueness, cache consistency, the shape of each
/// update) hold for any implementation, and the minimality arguments hold for
/// any implementation that proves the order laws below.
pub trait Scalar: Sized + Copy {
    /// Additive identity.
    spec fn s_zero() -> Self;

    /// Upper sentinel used to start a minimum scan.
    spec fn s_huge() -> Self;

    /// Small positive clamp for numerically degenerate curvature.
    spec fn s_tau() -> Self;

    /// Coarse gradient-gap threshold bounding per-sample work.
    spec fn s_coarse() -> Self;

    /// The scalar for a class label: plus one or minus one.
    spec fn s_label(positive: bool) -> Self;

    spec fn s_neg(self) -> Self;

    spec fn s_add(self, o: Self) -> Self;

    spec fn s_sub(self, o: Self) -> Self;

    spec fn s_mul(self, o: Self) -> Self;

    spec fn s_div(self, o: Self) -> Self;

    /// Halving, used once to place the bias between the two extremal gradients.
    spec fn s_half(self) -> Self;

    /// The strict order the solver compares by.
    spec fn s_lt(self, o: Self) -> bool;

    fn zero() -> (r: Self)
        ensures
            r == Self::s_zero(),
    ;

    fn huge() -> (r: Self)
        ensures
            r == Self::s_huge(),
    ;

    fn tau() -> (r: Self)
        ensures
            r == Self::s_tau(),
    ;

    fn coarse() -> (r: Self)
        ensures
            r == Self::s_coarse(),
    ;

    fn label(positive: bool) -> (r: Self)
        ensures
            r == Self::s_label(positive),
    ;

    fn neg(self) -> (r: Self)
        ensures
            r == self.s_neg(),
    ;

    fn add(self, o: Self) -> (r: Self)
        ensures
            r == self.s_add(o),
    ;

    fn sub(self, o: Self) -> (r: Self)
        ensures
            r == self.s_sub(o),
    ;

    fn mul(self, o: Self) -> (r: Self)
        ensures
            r == self.s_mul(o),
    ;

    fn div(self, o: Self) -> (r: Self)
        ensures
            r == self.s_div(o),
    ;

    fn half(self) -> (r: Self)
        ensures
            r == self.s_half(),
    ;

    fn lt(self, o: Self) -> (r: bool)
        ensures
            r == self.s_lt(o),
    ;

    /// The strict order is irreflexive.
    proof fn lt_irrefl(a: Self)
        ensures
            !a.s_lt(a),
    ;

    /// The strict order is transitive.
    proof fn lt_trans(a: Self, b: Self, c: Self)
        requires
            a.s_lt(b),
            b.s_lt(c),
        ensures
            a.s_lt(c),
    ;

    /// The complement of the strict order is transitive.
    proof fn lt_neg_trans(a: Self, b: Self, c: Self)
        requires
            !a.s_lt(b),
            !b.s_lt(c),
        ensures
            !a.s_lt(c),
    ;

    /// Multiplication is commutative.
    proof fn mul_comm(a: Self, b: Self)
        ensures
            a.s_mul(b) == b.s_mul(a),
    ;

    /// The positive label sits above zero, the negative one below.
    proof fn label_sign(positive: bool)
        ensures
            positive ==> Self::s_zero().s_lt(Self::s_label(positive)),
            !positive ==> Self::s_label(positive).s_lt(Self::s_zero()),
    ;

    /// Nothing sits strictly above the upper sentinel.
    proof fn huge_is_max(a: Self)
        ensures
            !Self::s_huge().s_lt(a),
    ;
}

/// `x` clamped into the 64-bit signed range.
pub open spec fn sat64(x: int) -> i64 {
    if x > i64::MAX {
        i64::MAX
    } else if x < i64::MIN {
        i64::MIN
    } else {
        x as i64
    }
}

/// The magnitude of `x` (exact, as a 64-bit unsigned value).
pub open spec fn mag64(x: i64) -> int {
    if x < 0 {
        -(x as int)
    } else {
        x as int
    }
}

/// Saturating 64-bit integer scalars: an exact implementation of [`Scalar`]
/// whose order laws are proved, useful for exercising the solver's
/// decision structure deterministically. Division truncates toward zero and
/// yields zero on a zero divisor; halving rounds toward negative infinity.
#[derive(Clone, Copy, PartialEq, Eq, Structural, Debug)]
pub struct IntScalar(pub i64);

impl Scalar for IntScalar {
    open spec fn s_zero() -> IntScalar {
        IntScalar(0)
    }

    open spec fn s_huge() -> IntScalar {
        IntScalar(i64::MAX)
    }

    open spec fn s_tau() -> IntScalar {
        IntScalar(1)
    }

    open spec fn s_coarse() -> IntScalar {
        IntScalar(1000)
    }

    open spec fn s_label(positive: bool) -> IntScalar {
        if positive {
            IntScalar(1)
        } else {
            IntScalar(-1i64)
        }
    }

    open spec fn s_neg(self) -> IntScalar {
        IntScalar(sat64(-(self.0 as int)))
    }

    open spec fn s_add(self, o: IntScalar) -> IntScalar {
        IntScalar(sat64(self.0 as int + o.0 as int))
    }

    open spec fn s_sub(self, o: IntScalar) -> IntScalar {
        IntScalar(sat64(self.0 as int - o.0 as int))
    }

    open spec fn s_mul(self, o: IntScalar) -> IntScalar {
        IntScalar(sat64(self.0 as int * o.0 as int))
    }

    open spec fn s_div(self, o: IntScalar) -> IntScalar {
        if o.0 == 0 {
            IntScalar(0)
        } else {
            let q = mag64(self.0) / mag64(o.0);
            if (self.0 < 0) != (o.0 < 0) {
                IntScalar(sat64(-q))
            } else {
                IntScalar(sat64(q))
            }
        }
    }

    open spec fn s_half(self) -> IntScalar {
        IntScalar(((self.0 as int - (if self.0 as int % 2 == 1 {
            1int
        } else {
            0int
        })) / 2) as i64)
    }

    open spec fn s_lt(self, o: IntScalar) -> bool {
        self.0 < o.0
    }

    fn zero() -> (r: IntScalar) {
        IntScalar(0)
    }

    fn huge() -> (r: IntScalar) {
        IntScalar(i64::MAX)
    }

    fn tau() -> (r: IntScalar) {
        IntScalar(1)
    }

    fn coarse() -> (r: IntScalar) {
        IntScalar(1000)
    }

    fn label(positive: bool) -> (r: IntScalar) {
        if positive {
            IntScalar(1)
        } else {
            IntScalar(-1i64)
        }
    }

    fn neg(self) -> (r: IntScalar) {
        if self.0 == i64::MIN {
            IntScalar(i64::MAX)
        } else {
            IntScalar(-self.0)
        }
    }

    fn add(self, o: IntScalar) -> (r: IntScalar) {
        let w: i128 = self.0 as i128 + o.0 as i128;
        if w > i64::MAX as i128 {
            IntScalar(i64::MAX)
        } else if w < i64::MIN as i128 {
            IntScalar(i64::MIN)
        } else {
            IntScalar(w as i64)
        }
    }

    fn sub(self, o: IntScalar) -> (r: IntScalar) {
        let w: i128 = self.0 as i128 - o.0 as i128;
        if w > i64::MAX as i128 {
            IntScalar(i64::MAX)
        } else if w < i64::MIN as i128 {
            IntScalar(i64::MIN)
        } else {
            IntScalar(w as i64)
        }
    }

    fn mul(self, o: IntScalar) -> (r: IntScalar) {
        proof {
            assert((self.0 as int) * (o.0 as int) <= i128::MAX && (self.0 as int) * (o.0 as int)
                >= i128::MIN) by (nonlinear_arith)
                requires
                    i64::MIN <= self.0 as int <= i64::MAX,
                    i64::MIN <= o.0 as int <= i64::MAX,
            ;
        }
        let w: i128 = self.0 as i128 * o.0 as i128;
        if w > i64::MAX as i128 {
            IntScalar(i64::MAX)
        } else if w < i64::MIN as i128 {
            IntScalar(i64::MIN)
        } else {
            IntScalar(w as i64)
        }
    }

    fn div(self, o: IntScalar) -> (r: IntScalar) {
        if o.0 == 0 {
            return IntScalar(0);
        }
        let a: u64 = mag64_exec(self.0);
        let b: u64 = mag64_exec(o.0);
        let q: u64 = a / b;
        let negative = (self.0 < 0) != (o.0 < 0);
        if negative {
            if q >= 9223372036854775808u64 {
                IntScalar(i64::MIN)
            } else {
                IntScalar(-(q as i64))
            }
        } else {
            if q > i64::MAX as u64 {
                IntScalar(i64::MAX)
            } else {
                IntScalar(q as i64)
            }
        }
    }

    fn half(self) -> (r: IntScalar) {
        if self.0 >= 0 {
            let q = (self.0 as u64) / 2;
            IntScalar(q as i64)
        } else {
            let m: u64 = mag64_exec(self.0);
            let q: u64 = m / 2 + m % 2;
            if q >= 9223372036854775808u64 {
                IntScalar(i64::MIN)
            } else {
                IntScalar(-(q as i64))
            }
        }
    }

    fn lt(self, o: IntScalar) -> (r: bool) {
        self.0 < o.0
    }

    proof fn lt_irrefl(a: IntScalar) {
    }

    proof fn lt_trans(a: IntScalar, b: IntScalar, c: IntScalar) {
    }

    proof fn lt_neg_trans(a: IntScalar, b: IntScalar, c: IntScalar) {
    }

    proof fn mul_comm(a: IntScalar, b: IntScalar) {
        assert(a.0 as int * b.0 as int == b.0 as int * a.0 as int) by (nonlinear_arith);
    }

    proof fn label_sign(positive: bool) {
    }

    proof fn huge_is_max(a: IntScalar) {
    }
}

/// The magnitude of `x` as a 64-bit unsigned value.
fn mag64_exec(x: i64) -> (r: u64)
    ensures
        r as int == mag64(x),
{
    if x >= 0 {
        x as u64
    } else {
        (-(x as i128)) as u64
    }
}

} // verus!
