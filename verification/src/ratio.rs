//! Exact nonnegative rational scores: a numerator over a positive
//! denominator. Centrality scores are fractions of whole counts, so they are
//! kept exact instead of being rounded.

use vstd::prelude::*;

verus! {

/// A nonnegative rational score. The represented value is `num / den`; a
/// well-formed score has a positive denominator, so every score is
/// nonnegative.
#[derive(Clone, Copy)]
pub struct Ratio {
    pub num: u64,
    pub den: u64,
}

impl Ratio {
    /// Well-formedness: the denominator is positive.
    pub open spec fn valid(self) -> bool {
        self.den > 0
    }
}

/// The zero score.
pub fn ratio_zero() -> (r: Ratio)
    ensures
        r.valid(),
        r.num == 0,
        r.den == 1,
{
    Ratio { num: 0, den: 1 }
}

/// Exact sum of two scores; absent exactly when the unreduced numerator or
/// denominator of the sum would overflow the machine word.
pub fn ratio_add(x: Ratio, y: Ratio) -> (r: Option<Ratio>)
    requires
        x.valid(),
        y.valid(),
    ensures
        r is None <==> (x.num * y.den + y.num * x.den > u64::MAX || x.den * y.den > u64::MAX),
        (r matches Some(z) ==> z.valid() && z.num * (x.den * y.den) == (x.num * y.den + y.num
            * x.den) * z.den),
        (r matches Some(z) ==> (x.num == 0 && y.num == 0 ==> z.num == 0)),
{
    let ad = match x.num.checked_mul(y.den) {
        Some(v) => v,
        None => {
            proof {
                assert(y.num * x.den >= 0) by (nonlinear_arith)
                    requires
                        y.num >= 0,
                        x.den >= 0,
                ;
            }
            return None;
        },
    };
    let cb = match y.num.checked_mul(x.den) {
        Some(v) => v,
        None => {
            proof {
                assert(x.num * y.den >= 0) by (nonlinear_arith)
                    requires
                        x.num >= 0,
                        y.den >= 0,
                ;
            }
            return None;
        },
    };
    let sum = match ad.checked_add(cb) {
        Some(v) => v,
        None => {
            return None;
        },
    };
    let den = match x.den.checked_mul(y.den) {
        Some(v) => v,
        None => {
            return None;
        },
    };
    proof {
        assert(x.den * y.den > 0) by (nonlinear_arith)
            requires
                x.den > 0,
                y.den > 0,
        ;
        assert(ad == x.num * y.den);
        assert(cb == y.num * x.den);
        assert(sum == x.num * y.den + y.num * x.den);
        assert(den == x.den * y.den);
    }
    if sum == 0 {
        proof {
            assert(0 * (x.den * y.den) == 0);
            assert((x.num * y.den + y.num * x.den) * 1 == sum);
        }
        Some(Ratio { num: 0, den: 1 })
    } else {
        proof {
            assert(sum * (x.den * y.den) == (x.num * y.den + y.num * x.den) * den);
            assert(x.num == 0 && y.num == 0 ==> sum == 0) by (nonlinear_arith)
                requires
                    sum == x.num * y.den + y.num * x.den,
            ;
        }
        Some(Ratio { num: sum, den })
    }
}

/// Exact product of two scores; absent exactly when the unreduced numerator
/// or denominator of the product would overflow the machine word.
pub fn ratio_mul(x: Ratio, y: Ratio) -> (r: Option<Ratio>)
    requires
        x.valid(),
        y.valid(),
    ensures
        r is None <==> (x.num * y.num > u64::MAX || x.den * y.den > u64::MAX),
        (r matches Some(z) ==> z.valid() && z.num * (x.den * y.den) == (x.num * y.num) * z.den),
        (r matches Some(z) ==> ((x.num == 0 || y.num == 0) ==> z.num == 0)),
{
    let num = match x.num.checked_mul(y.num) {
        Some(v) => v,
        None => {
            return None;
        },
    };
    let den = match x.den.checked_mul(y.den) {
        Some(v) => v,
        None => {
            return None;
        },
    };
    proof {
        assert(x.den * y.den > 0) by (nonlinear_arith)
            requires
                x.den > 0,
                y.den > 0,
        ;
        assert(num == x.num * y.num);
        assert(den == x.den * y.den);
        assert((x.num == 0 || y.num == 0) ==> num == 0) by (nonlinear_arith)
            requires
                num == x.num * y.num,
        ;
    }
    if num == 0 {
        proof {
            assert(0 * (x.den * y.den) == 0);
            assert((x.num * y.num) * 1 == num);
        }
        Some(Ratio { num: 0, den: 1 })
    } else {
        proof {
            assert(num * (x.den * y.den) == (x.num * y.num) * den);
        }
        Some(Ratio { num, den })
    }
}

} // verus!
