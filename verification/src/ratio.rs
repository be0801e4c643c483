//! Exact rational arithmetic on overflow-checked integer pairs, and the
//! bounded continued-fraction approximation that caps a rational's
//! denominator.
//!
//! Every operation reports overflow instead of wrapping: an
//! unrepresentable rational is a normalization failure, never a wrong
//! number.

use vstd::prelude::*;
use vstd::arithmetic::div_mod::lemma_fundamental_div_mod;

use crate::numbers::abs_of;
use crate::numbers::divides;
use crate::numbers::gcd;
use crate::numbers::gcd_u128;
use crate::numbers::lemma_coprime_divides;
use crate::numbers::lemma_divides_le;
use crate::numbers::lemma_unimodular_coprime;
use crate::numbers::lemma_divides_exact;
use crate::numbers::lemma_gcd_divides;
use crate::numbers::lemma_gcd_zero;

verus! {

/// An exact fraction: `num / den` with a positive denominator.
#[derive(Debug, Clone, Copy)]
pub struct Frac {
    pub num: i128,
    pub den: i128,
}

impl Frac {
    /// The denominator is always positive.
    pub open spec fn wf(&self) -> bool {
        self.den >= 1
    }

    /// Zero.
    pub fn zero() -> (r: Frac)
        ensures
            r.wf(),
            r.num == 0,
            r.den == 1,
    {
        Frac { num: 0, den: 1 }
    }

    /// A whole number of atoms as a fraction.
    pub fn from_u64(n: u64) -> (r: Frac)
        ensures
            r.wf(),
            r.num == n,
            r.den == 1,
    {
        Frac { num: n as i128, den: 1 }
    }

    /// Whether the fraction is zero.
    pub fn is_zero(&self) -> (r: bool)
        requires
            self.wf(),
        ensures
            r == (self.num == 0),
    {
        self.num == 0
    }

    /// Brings a raw pair to lowest terms; `None` reports an unrepresentable
    /// magnitude (only the smallest number has none).
    fn reduced(num: i128, den: i128) -> (r: Option<Frac>)
        requires
            den >= 1,
        ensures
            r matches Some(f) ==> f.wf() && f.num * den == num * f.den && (f.num == 0 <==> num
                == 0),
            num > i128::MIN ==> r is Some,
    {
        let neg: bool = num < 0;
        let mag: u128 = if num < 0 {
            if num == i128::MIN {
                return None;
            }
            (-num) as u128
        } else {
            num as u128
        };
        let den_u: u128 = den as u128;
        let g = gcd_u128(mag, den_u);
        proof {
            if g == 0 {
                lemma_gcd_zero(mag as nat, den_u as nat);
            }
            lemma_gcd_divides(mag as nat, den_u as nat);
            lemma_divides_exact(g as int, mag as int);
            lemma_divides_exact(g as int, den_u as int);
            assert(den_u / g >= 1) by (nonlinear_arith)
                requires
                    den_u as int == (den_u as int / g as int) * (g as int),
                    den_u >= 1,
                    g >= 1,
            ;
            assert(mag / g <= mag) by (nonlinear_arith)
                requires
                    mag as int == (mag as int / g as int) * (g as int),
                    g >= 1,
                    mag >= 0,
            ;
            assert(den_u / g <= den_u) by (nonlinear_arith)
                requires
                    den_u as int == (den_u as int / g as int) * (g as int),
                    g >= 1,
                    den_u >= 0,
            ;
        }
        let rm: u128 = mag / g;
        let rd: u128 = den_u / g;
        let num_r: i128 = if neg {
            -(rm as i128)
        } else {
            rm as i128
        };
        proof {
            let qm = mag as int / g as int;
            let qd = den_u as int / g as int;
            assert(qm * (den as int) == (mag as int) * qd) by (nonlinear_arith)
                requires
                    mag as int == qm * (g as int),
                    den as int == qd * (g as int),
                    g >= 1,
            ;
            assert(rm as int == qm && rd as int == qd);
            if neg {
                assert(mag as int == -(num as int));
                assert(rm <= mag);
                assert((rm as i128) as int == rm as int);
                assert((-(rm as i128)) as int == -(rm as int));
                assert(rd <= den_u);
                assert((rd as i128) as int == rd as int);
                assert((-(rm as i128)) * den == num * (rd as i128)) by (nonlinear_arith)
                    requires
                        (rm as int) * (den as int) == (mag as int) * (rd as int),
                        (-(rm as i128)) as int == -(rm as int),
                        (rd as i128) as int == rd as int,
                        num == -(mag as int),
                ;
            }
            assert(rm == 0 <==> mag == 0) by (nonlinear_arith)
                requires
                    mag as int == (mag as int / g as int) * (g as int),
                    rm as int == mag as int / g as int,
                    g >= 1,
            ;
        }
        Some(Frac { num: num_r, den: rd as i128 })
    }

    /// Sum; `None` reports overflow. The result is exactly the rational
    /// sum: cross-multiplied, `f = (a.num*b.den + b.num*a.den) / (a.den*b.den)`;
    /// `None` comes only when an exact intermediate is unrepresentable.
    pub fn add(&self, other: &Frac) -> (r: Option<Frac>)
        requires
            self.wf(),
            other.wf(),
        ensures
            r matches Some(f) ==> f.wf() && f.num * (self.den * other.den) == (self.num * other.den
                + other.num * self.den) * f.den,
            (i128::MIN <= self.num * other.den <= i128::MAX && i128::MIN <= other.num * self.den
                <= i128::MAX && i128::MIN < self.num * other.den + other.num * self.den
                <= i128::MAX && self.den * other.den <= i128::MAX) ==> r is Some,
    {
        let a = match self.num.checked_mul(other.den) {
            Some(v) => v,
            None => {
                return None;
            },
        };
        let b = match other.num.checked_mul(self.den) {
            Some(v) => v,
            None => {
                return None;
            },
        };
        let n = match a.checked_add(b) {
            Some(v) => v,
            None => {
                return None;
            },
        };
        let d = match self.den.checked_mul(other.den) {
            Some(v) => v,
            None => {
                return None;
            },
        };
        proof {
            assert(d >= 1) by (nonlinear_arith)
                requires
                    d == self.den * other.den,
                    self.den >= 1,
                    other.den >= 1,
            ;
        }
        Frac::reduced(n, d)
    }

    /// Difference; `None` reports overflow. The result is exactly the
    /// rational difference, cross-multiplied as in `add`; `None` comes only
    /// when an exact intermediate is unrepresentable.
    pub fn sub(&self, other: &Frac) -> (r: Option<Frac>)
        requires
            self.wf(),
            other.wf(),
        ensures
            r matches Some(f) ==> f.wf() && f.num * (self.den * other.den) == (self.num * other.den
                - other.num * self.den) * f.den,
            (i128::MIN <= self.num * other.den <= i128::MAX && i128::MIN <= other.num * self.den
                <= i128::MAX && i128::MIN < self.num * other.den - other.num * self.den
                <= i128::MAX && self.den * other.den <= i128::MAX) ==> r is Some,
    {
        let a = match self.num.checked_mul(other.den) {
            Some(v) => v,
            None => {
                return None;
            },
        };
        let b = match other.num.checked_mul(self.den) {
            Some(v) => v,
            None => {
                return None;
            },
        };
        let n = match a.checked_sub(b) {
            Some(v) => v,
            None => {
                return None;
            },
        };
        let d = match self.den.checked_mul(other.den) {
            Some(v) => v,
            None => {
                return None;
            },
        };
        proof {
            assert(d >= 1) by (nonlinear_arith)
                requires
                    d == self.den * other.den,
                    self.den >= 1,
                    other.den >= 1,
            ;
        }
        Frac::reduced(n, d)
    }

    /// Product; `None` reports overflow. The result is exactly the rational
    /// product: `f = (a.num*b.num) / (a.den*b.den)`; `None` comes only when
    /// an exact intermediate is unrepresentable.
    pub fn mul(&self, other: &Frac) -> (r: Option<Frac>)
        requires
            self.wf(),
            other.wf(),
        ensures
            r matches Some(f) ==> f.wf() && f.num * (self.den * other.den) == (self.num
                * other.num) * f.den,
            (i128::MIN < self.num * other.num <= i128::MAX && self.den * other.den <= i128::MAX)
                ==> r is Some,
    {
        let n = match self.num.checked_mul(other.num) {
            Some(v) => v,
            None => {
                return None;
            },
        };
        let d = match self.den.checked_mul(other.den) {
            Some(v) => v,
            None => {
                return None;
            },
        };
        proof {
            assert(d >= 1) by (nonlinear_arith)
                requires
                    d == self.den * other.den,
                    self.den >= 1,
                    other.den >= 1,
            ;
        }
        Frac::reduced(n, d)
    }

    /// Quotient; `None` reports overflow or a zero divisor. The result is
    /// exactly the rational quotient: `f = (a.num*b.den) / (a.den*b.num)`;
    /// for a nonzero divisor, `None` comes only when an exact intermediate
    /// is unrepresentable.
    pub fn div(&self, other: &Frac) -> (r: Option<Frac>)
        requires
            self.wf(),
            other.wf(),
        ensures
            r matches Some(f) ==> f.wf() && f.num * (self.den * other.num) == (self.num
                * other.den) * f.den,
            (other.num != 0 && i128::MIN < self.num * other.den <= i128::MAX && i128::MIN
                < self.den * other.num <= i128::MAX) ==> r is Some,
    {
        if other.num == 0 {
            return None;
        }
        let n0 = match self.num.checked_mul(other.den) {
            Some(v) => v,
            None => {
                return None;
            },
        };
        let d0 = match self.den.checked_mul(other.num) {
            Some(v) => v,
            None => {
                return None;
            },
        };
        proof {
            assert(d0 != 0) by (nonlinear_arith)
                requires
                    d0 == self.den * other.num,
                    self.den >= 1,
                    other.num != 0,
            ;
        }
        if d0 < 0 {
            let n1 = match (0i128).checked_sub(n0) {
                Some(v) => v,
                None => {
                    return None;
                },
            };
            let d1 = match (0i128).checked_sub(d0) {
                Some(v) => v,
                None => {
                    return None;
                },
            };
            let out = Frac::reduced(n1, d1);
            proof {
                if out is Some {
                    let f = out->Some_0;
                    assert(f.num * d0 == n0 * f.den) by (nonlinear_arith)
                        requires
                            f.num * d1 == n1 * f.den,
                            n1 == -n0,
                            d1 == -d0,
                    ;
                }
            }
            out
        } else {
            Frac::reduced(n0, d0)
        }
    }
}

/// The scaled error of the fraction `a/b` against the value `num/den`:
/// the magnitude of `a*den - num*b`, which is `|a/b - num/den| * b * den`.
pub open spec fn err_num(a: int, b: int, num: int, den: int) -> int {
    abs_of(a * den - num * b)
}

/// The pair `p/q` approximates `num/den` at least as well as `a/b` does:
/// cross-multiplied, its scaled error is no larger.
pub open spec fn at_least_as_close(p: int, q: int, a: int, b: int, num: int, den: int) -> bool {
    err_num(p, q, num, den) * b <= err_num(a, b, num, den) * q
}

/// Caps a rational's denominator at `max_denominator` by the continued
/// fraction convergent recurrence, choosing between the last two candidate
/// approximations by which lies closer to the given value. A rational whose
/// denominator already fits is returned unchanged, as is everything when
/// the cap is zero. `Err` reports an overflow while comparing candidates.
#[verifier::rlimit(60)]
pub fn limit_denominator(num: u64, den: u64, max_denominator: u64) -> (r: Result<(u64, u64), ()>)
    requires
        den >= 1,
        gcd(num as nat, den as nat) == 1,
    ensures
        match r {
            Ok(p_q) => {
                &&& p_q.1 >= 1
                &&& p_q.0 <= num
                &&& gcd(p_q.0 as nat, p_q.1 as nat) == 1
                &&& if max_denominator < 1 || den <= max_denominator {
                    p_q.0 == num && p_q.1 == den
                } else {
                    p_q.1 <= max_denominator
                }
                &&& forall|a: int, b: int|
                    1 <= b <= max_denominator ==> #[trigger] at_least_as_close(
                        p_q.0 as int,
                        p_q.1 as int,
                        a,
                        b,
                        num as int,
                        den as int,
                    )
            },
            Err(()) => false,
        },
{
    if max_denominator < 1 || den <= max_denominator {
        proof {
            assert forall|a: int, b: int| 1 <= b <= max_denominator implies #[trigger]
                at_least_as_close(num as int, den as int, a, b, num as int, den as int) by {
                assert(err_num(num as int, den as int, num as int, den as int) == 0);
                assert(err_num(a, b, num as int, den as int) * (den as int) >= 0)
                    by (nonlinear_arith)
                    requires
                        err_num(a, b, num as int, den as int) >= 0,
                        den >= 1,
                ;
            }
        }
        return Ok((num, den));
    }
    proof {
        if num == 0 {
            assert((0 as nat) % (den as nat) == 0);
            assert(gcd(0, den as nat) == gcd(den as nat, 0));
            assert(gcd(den as nat, 0) == den);
        }
    }
    let n0: u128 = num as u128;
    let d0: u128 = den as u128;
    let mx: u128 = max_denominator as u128;
    let mut p0: u128 = 0;
    let mut q0: u128 = 1;
    let mut p1: u128 = 1;
    let mut q1: u128 = 0;
    let mut n: u128 = n0;
    let mut d: u128 = d0;
    loop
        invariant
            n0 == num,
            d0 == den,
            mx == max_denominator,
            1 <= mx < d0,
            n0 >= 1,
            d0 >= 2,
            1 <= n <= u64::MAX,
            1 <= d <= u64::MAX,
            gcd(n as nat, d as nat) == 1,
            p1 * n + p0 * d == n0,
            q1 * n + q0 * d == d0,
            p0 <= n0,
            p1 <= n0,
            q0 <= mx,
            q1 <= mx,
            (p0 == 0 && q0 == 1 && p1 == 1 && q1 == 0 && n == n0 && d == d0) || (q1 >= 1 && d
                < n),
            p1 * q0 == p0 * q1 + 1 || p0 * q1 == p1 * q0 + 1,
        ensures
            q1 >= 1,
            q0 <= mx,
            q1 <= mx,
            p0 <= n0,
            p1 <= n0,
            1 <= d,
            1 <= n,
            p1 * n + p0 * d == n0,
            q1 * n + q0 * d == d0,
            q0 + (n / d) * q1 > mx,
            p0 + (n / d) * p1 <= n0,
            p1 * q0 == p0 * q1 + 1 || p0 * q1 == p1 * q0 + 1,
        decreases d,
    {
        let a: u128 = n / d;
        proof {
            lemma_fundamental_div_mod(n as int, d as int);
            assert((q0 + a * q1) * d + q1 * (n % d) == d0) by (nonlinear_arith)
                requires
                    q1 * n + q0 * d == d0,
                    n == d * (n / d) + n % d,
                    a == n / d,
            ;
            assert(q0 + a * q1 <= d0) by (nonlinear_arith)
                requires
                    (q0 + a * q1) * d + q1 * (n % d) == d0,
                    d >= 1,
                    q1 >= 0,
                    n % d >= 0,
                    q0 + a * q1 >= 0,
            ;
            assert((p0 + a * p1) * d + p1 * (n % d) == n0) by (nonlinear_arith)
                requires
                    p1 * n + p0 * d == n0,
                    n == d * (n / d) + n % d,
                    a == n / d,
            ;
            assert(p0 + a * p1 <= n0) by (nonlinear_arith)
                requires
                    (p0 + a * p1) * d + p1 * (n % d) == n0,
                    d >= 1,
                    p1 >= 0,
                    n % d >= 0,
                    p0 + a * p1 >= 0,
            ;
        }
        let q2: u128 = q0 + a * q1;
        if q2 > mx {
            break;
        }
        // Advance the convergent recurrence and one Euclid step.
        proof {
            // The remainder cannot vanish while the loop continues: a zero
            // remainder forces d == 1 (the fraction is reduced), and then
            // the new convergent denominator is d0 itself, above the cap.
            if n % d == 0 {
                assert(gcd(n as nat, d as nat) == gcd(d as nat, (n % d) as nat));
                assert(gcd(d as nat, 0) == d);
                assert(d == 1);
                assert(a == n) by (nonlinear_arith)
                    requires
                        n == d * a + n % d,
                        d == 1,
                        n % d == 0,
                ;
                assert(q2 == d0) by (nonlinear_arith)
                    requires
                        q2 == q0 + a * q1,
                        a == n,
                        q1 * n + q0 * d == d0,
                        d == 1,
                ;
                assert(false);
            }
            // The new convergent denominator is positive: in the initial
            // state it is 1, afterwards the quotient is at least 1.
            if q1 >= 1 {
                assert(a >= 1) by (nonlinear_arith)
                    requires
                        a == n / d,
                        n == d * (n / d) + n % d,
                        n % d < d,
                        d < n,
                        d >= 1,
                ;
                assert(q2 >= 1) by (nonlinear_arith)
                    requires
                        q2 == q0 + a * q1,
                        q0 >= 0,
                        a >= 1,
                        q1 >= 1,
                ;
            } else {
                assert(q2 == q0 + a * q1 && q1 == 0 && q0 == 1);
                assert(q2 == 1) by (nonlinear_arith)
                    requires
                        q2 == q0 + a * q1,
                        q1 == 0,
                        q0 == 1,
                ;
            }
        }
        proof {
            // The convergent determinant flips sign each step.
            assert((p0 + a * p1) * q1 == p1 * (q0 + a * q1) + 1 || p1 * (q0 + a * q1) == (p0 + a
                * p1) * q1 + 1) by (nonlinear_arith)
                requires
                    p1 * q0 == p0 * q1 + 1 || p0 * q1 == p1 * q0 + 1,
                    q2 == q0 + a * q1,
            ;
        }
        let p1_new: u128 = p0 + a * p1;
        let r: u128 = n % d;
        p0 = p1;
        q0 = q1;
        p1 = p1_new;
        q1 = q2;
        n = d;
        d = r;
    }
    // Between the last convergent and the best semiconvergent under the
    // cap, keep whichever is closer to the given value.
    let k: u128 = (mx - q0) / q1;
    proof {
        lemma_fundamental_div_mod((mx - q0) as int, q1 as int);
        assert(k * q1 <= mx - q0) by (nonlinear_arith)
            requires
                mx - q0 == q1 * k + (mx - q0) % (q1 as int),
                (mx - q0) % (q1 as int) >= 0,
                q1 >= 1,
        ;
        assert(k <= n / d) by {
            let a = n / d;
            assert(q0 + a * q1 > mx);
            assert(k <= a) by (nonlinear_arith)
                requires
                    k * q1 <= mx - q0,
                    q0 + a * q1 > mx,
                    q1 >= 1,
                    k >= 0,
                    a >= 0,
            ;
        }
        assert(p0 + k * p1 <= p0 + (n / d) * p1) by (nonlinear_arith)
            requires
                k <= n / d,
                p1 >= 0,
        ;
        assert(q0 == 0 ==> k >= 1) by (nonlinear_arith)
            requires
                k == (mx - q0) / (q1 as int),
                q1 >= 1,
                q1 <= mx,
                mx - q0 == q1 * k + (mx - q0) % (q1 as int),
                (mx - q0) % (q1 as int) < q1,
        ;
        assert(q0 + k * q1 >= 1) by (nonlinear_arith)
            requires
                q0 >= 1 || k >= 1,
                q1 >= 1,
                k >= 0,
                q0 >= 0,
        ;
    }
    let pb: u128 = p0 + k * p1;
    let qb: u128 = q0 + k * q1;
    proof {
        assert(pb * d0 <= (u64::MAX as u128) * (u64::MAX as u128)) by (nonlinear_arith)
            requires
                pb <= u64::MAX as u128,
                d0 <= u64::MAX as u128,
                pb >= 0,
                d0 >= 0,
        ;
        assert(n0 * qb <= (u64::MAX as u128) * (u64::MAX as u128)) by (nonlinear_arith)
            requires
                n0 <= u64::MAX as u128,
                qb <= u64::MAX as u128,
                n0 >= 0,
                qb >= 0,
        ;
        assert(p1 * d0 <= (u64::MAX as u128) * (u64::MAX as u128)) by (nonlinear_arith)
            requires
                p1 <= u64::MAX as u128,
                d0 <= u64::MAX as u128,
                p1 >= 0,
                d0 >= 0,
        ;
        assert(n0 * q1 <= (u64::MAX as u128) * (u64::MAX as u128)) by (nonlinear_arith)
            requires
                n0 <= u64::MAX as u128,
                q1 <= u64::MAX as u128,
                n0 >= 0,
                q1 >= 0,
        ;
    }
    let t1: u128 = pb * d0;
    let t2: u128 = n0 * qb;
    let diff_b: u128 = if t1 >= t2 {
        t1 - t2
    } else {
        t2 - t1
    };
    let s1: u128 = p1 * d0;
    let s2: u128 = n0 * q1;
    let diff_c: u128 = if s1 >= s2 {
        s1 - s2
    } else {
        s2 - s1
    };
    proof {
        // Both candidates are in lowest terms: each makes a determinant of
        // one with its neighbouring convergent.
        assert((p1 as nat) * (q0 as int) + (q1 as nat) * (-(p0 as int)) == 1 || (p1 as nat) * (
        q0 as int) + (q1 as nat) * (-(p0 as int)) == -1) by (nonlinear_arith)
            requires
                p1 * q0 == p0 * q1 + 1 || p0 * q1 == p1 * q0 + 1,
        ;
        lemma_unimodular_coprime(p1 as nat, q1 as nat, q0 as int, -(p0 as int));
        assert((pb as nat) * (q1 as int) + (qb as nat) * (-(p1 as int)) == 1 || (pb as nat) * (
        q1 as int) + (qb as nat) * (-(p1 as int)) == -1) by (nonlinear_arith)
            requires
                p1 * q0 == p0 * q1 + 1 || p0 * q1 == p1 * q0 + 1,
                pb == p0 + k * p1,
                qb == q0 + k * q1,
        ;
        lemma_unimodular_coprime(pb as nat, qb as nat, q1 as int, -(p1 as int));
    }
    // The two candidates' exact error magnitudes: `d` for the convergent
    // and `n - k*d` for the semiconvergent, with opposite signs, so the
    // true value lies strictly between them.
    let ghost sg: int = p1 as int * (q0 as int) - p0 as int * (q1 as int);
    let ghost ni: int = n as int;
    let ghost di: int = d as int;
    let ghost ki: int = k as int;
    let ghost eb: int = ni - ki * di;
    proof {
        lemma_fundamental_div_mod(ni, di);
        assert(sg == 1 || sg == -1);
        assert(p1 as int * (d0 as int) - n0 as int * (q1 as int) == sg * di) by (nonlinear_arith)
            requires
                p1 as int * ni + p0 as int * di == n0 as int,
                q1 as int * ni + q0 as int * di == d0 as int,
                sg == p1 as int * (q0 as int) - p0 as int * (q1 as int),
        ;
        assert(p0 as int * (d0 as int) - n0 as int * (q0 as int) == -sg * ni) by (nonlinear_arith)
            requires
                p1 as int * ni + p0 as int * di == n0 as int,
                q1 as int * ni + q0 as int * di == d0 as int,
                sg == p1 as int * (q0 as int) - p0 as int * (q1 as int),
        ;
        assert(pb as int * (d0 as int) == p0 as int * (d0 as int) + ki * (p1 as int * (d0 as int)))
            by (nonlinear_arith)
            requires
                pb as int == p0 as int + ki * (p1 as int),
        ;
        assert(n0 as int * (qb as int) == n0 as int * (q0 as int) + ki * (n0 as int * (q1 as int)))
            by (nonlinear_arith)
            requires
                qb as int == q0 as int + ki * (q1 as int),
        ;
        assert(pb as int * (d0 as int) - n0 as int * (qb as int) == -sg * eb) by (nonlinear_arith)
            requires
                pb as int * (d0 as int) == p0 as int * (d0 as int) + ki * (p1 as int * (d0 as int)),
                n0 as int * (qb as int) == n0 as int * (q0 as int) + ki * (n0 as int * (q1 as int)),
                p0 as int * (d0 as int) - n0 as int * (q0 as int) == -sg * ni,
                p1 as int * (d0 as int) - n0 as int * (q1 as int) == sg * di,
                eb == ni - ki * di,
                sg == 1 || sg == -1,
        ;
        assert(pb as int * (q1 as int) - p1 as int * (qb as int) == -sg) by (nonlinear_arith)
            requires
                pb as int == p0 as int + ki * (p1 as int),
                qb as int == q0 as int + ki * (q1 as int),
                sg == p1 as int * (q0 as int) - p0 as int * (q1 as int),
        ;
        // The quotient is strictly past the cap, so k stays below it and
        // the semiconvergent error is at least one.
        assert(ki < ni / di) by (nonlinear_arith)
            requires
                q0 as int + (ni / di) * (q1 as int) > mx as int,
                ki * (q1 as int) <= mx as int - q0 as int,
                q1 >= 1,
                ki >= 0,
        ;
        assert(eb >= 1) by (nonlinear_arith)
            requires
                eb == ni - ki * di,
                ni == di * (ni / di) + ni % di,
                ni % di >= 0,
                di >= 1,
                ki <= ni / di - 1,
        ;
        // One more semiconvergent step would overtake the cap.
        assert(qb as int + q1 as int > mx as int) by (nonlinear_arith)
            requires
                qb as int == q0 as int + ki * (q1 as int),
                mx as int - q0 as int == (q1 as int) * ki + (mx as int - q0 as int) % (q1 as int),
                (mx as int - q0 as int) % (q1 as int) < q1 as int,
        ;
    }
    let t1: u128 = pb * d0;
    let t2: u128 = n0 * qb;
    let diff_b: u128 = if t1 >= t2 {
        t1 - t2
    } else {
        t2 - t1
    };
    let s1: u128 = p1 * d0;
    let s2: u128 = n0 * q1;
    let diff_c: u128 = if s1 >= s2 {
        s1 - s2
    } else {
        s2 - s1
    };
    proof {
        assert(diff_c as int == di) by (nonlinear_arith)
            requires
                s1 as int == p1 as int * (d0 as int),
                s2 as int == n0 as int * (q1 as int),
                p1 as int * (d0 as int) - n0 as int * (q1 as int) == sg * di,
                sg == 1 || sg == -1,
                di >= 1,
                (s1 >= s2 && diff_c as int == s1 as int - s2 as int) || (s1 < s2 && diff_c as int
                    == s2 as int - s1 as int),
        ;
        assert(diff_b as int == eb) by (nonlinear_arith)
            requires
                t1 as int == pb as int * (d0 as int),
                t2 as int == n0 as int * (qb as int),
                pb as int * (d0 as int) - n0 as int * (qb as int) == -sg * eb,
                sg == 1 || sg == -1,
                eb >= 1,
                (t1 >= t2 && diff_b as int == t1 as int - t2 as int) || (t1 < t2 && diff_b as int
                    == t2 as int - t1 as int),
        ;
        // Both comparison products fit the wide type.
        assert(diff_b * q1 <= (u64::MAX as u128) * (u64::MAX as u128)) by (nonlinear_arith)
            requires
                diff_b as int == eb,
                eb <= ni,
                ni <= u64::MAX as int,
                q1 <= u64::MAX as u128,
                eb >= 0,
                q1 >= 0,
        ;
        assert(diff_c * qb <= (u64::MAX as u128) * (u64::MAX as u128)) by (nonlinear_arith)
            requires
                diff_c as int == di,
                di <= u64::MAX as int,
                qb <= u64::MAX as u128,
                di >= 0,
                qb >= 0,
        ;
    }
    // Whichever candidate the comparison keeps is a closest fraction with
    // a denominator under the cap: any strictly closer fraction would lie
    // strictly between the two candidates, whose determinant is one, and
    // would therefore need a denominator of at least `q1 + qb`, past the
    // cap.
    proof {
        assert forall|av: int, bv: int| 1 <= bv <= mx as int implies di * bv <= #[trigger]
            err_num(av, bv, n0 as int, d0 as int) * (q1 as int) || eb * bv <= err_num(
            av,
            bv,
            n0 as int,
            d0 as int,
        ) * (qb as int) by {
            let dd = d0 as int;
            let nn = n0 as int;
            let q1i = q1 as int;
            let qbi = qb as int;
            let p1i = p1 as int;
            let pbi = pb as int;
            let f = av * dd - nn * bv;
            let fm = err_num(av, bv, nn, dd);
            assert(fm == abs_of(f));
            if f == 0 {
                // The fraction equals the value itself, whose reduced
                // denominator is past the cap.
                assert(nn * bv == av * dd);
                assert(divides(dd, nn * bv));
                lemma_coprime_divides(den as nat, num as nat, bv as nat);
                assert(divides(dd, bv));
                lemma_divides_le(dd, bv);
                assert(false);
            } else {
                let x = av * qbi - bv * pbi;
                let y = p1i * bv - q1i * av;
                let wb = pbi * dd - nn * qbi;
                let wc = p1i * dd - nn * q1i;
                let wd = pbi * q1i - p1i * qbi;
                assert(dd * x == f * qbi - bv * wb) by (nonlinear_arith)
                    requires
                        x == av * qbi - bv * pbi,
                        f == av * dd - nn * bv,
                        wb == pbi * dd - nn * qbi,
                ;
                assert(dd * x == f * qbi + sg * eb * bv) by (nonlinear_arith)
                    requires
                        dd * x == f * qbi - bv * wb,
                        wb == -sg * eb,
                ;
                assert(dd * y == bv * wc - f * q1i) by (nonlinear_arith)
                    requires
                        y == p1i * bv - q1i * av,
                        f == av * dd - nn * bv,
                        wc == p1i * dd - nn * q1i,
                ;
                assert(dd * y == sg * di * bv - f * q1i) by (nonlinear_arith)
                    requires
                        dd * y == bv * wc - f * q1i,
                        wc == sg * di,
                ;
                assert(q1i * x + qbi * y == -bv * wd) by (nonlinear_arith)
                    requires
                        x == av * qbi - bv * pbi,
                        y == p1i * bv - q1i * av,
                        wd == pbi * q1i - p1i * qbi,
                ;
                assert(q1i * x + qbi * y == sg * bv) by (nonlinear_arith)
                    requires
                        q1i * x + qbi * y == -bv * wd,
                        wd == -sg,
                ;
                if sg * f > 0 {
                    assert(fm == sg * f) by (nonlinear_arith)
                        requires
                            sg == 1 || sg == -1,
                            sg * f > 0,
                            fm == abs_of(f),
                            f < 0 ==> fm == -f,
                            f >= 0 ==> fm == f,
                    ;
                    if fm * q1i < di * bv {
                        // Strictly closer than the convergent: strictly
                        // between the candidates.
                        assert(sg * x >= 1) by (nonlinear_arith)
                            requires
                                dd * x == f * qbi + sg * eb * bv,
                                sg * f == fm,
                                sg == 1 || sg == -1,
                                fm >= 1,
                                qb >= 1,
                                eb >= 1,
                                bv >= 1,
                                dd >= 1,
                                qbi == qb as int,
                        ;
                        assert(sg * y >= 1) by (nonlinear_arith)
                            requires
                                dd * y == sg * di * bv - f * q1i,
                                sg * f == fm,
                                sg == 1 || sg == -1,
                                fm * q1i < di * bv,
                                dd >= 1,
                        ;
                        assert(bv >= q1i + qbi) by (nonlinear_arith)
                            requires
                                q1i * x + qbi * y == sg * bv,
                                sg == 1 || sg == -1,
                                sg * x >= 1,
                                sg * y >= 1,
                                q1i >= 1,
                                qbi >= 1,
                        ;
                        assert(false);
                    }
                } else {
                    assert(sg * f < 0 && fm == -(sg * f)) by (nonlinear_arith)
                        requires
                            sg == 1 || sg == -1,
                            !(sg * f > 0),
                            f != 0,
                            fm == abs_of(f),
                            f < 0 ==> fm == -f,
                            f >= 0 ==> fm == f,
                    ;
                    if fm * qbi < eb * bv {
                        assert(sg * x >= 1) by (nonlinear_arith)
                            requires
                                dd * x == f * qbi + sg * eb * bv,
                                sg * f == -fm,
                                sg == 1 || sg == -1,
                                fm * qbi < eb * bv,
                                dd >= 1,
                        ;
                        assert(sg * y >= 1) by (nonlinear_arith)
                            requires
                                dd * y == sg * di * bv - f * q1i,
                                sg * f == -fm,
                                sg == 1 || sg == -1,
                                fm >= 1,
                                di >= 1,
                                bv >= 1,
                                q1 >= 1,
                                q1i == q1 as int,
                                dd >= 1,
                        ;
                        assert(bv >= q1i + qbi) by (nonlinear_arith)
                            requires
                                q1i * x + qbi * y == sg * bv,
                                sg == 1 || sg == -1,
                                sg * x >= 1,
                                sg * y >= 1,
                                q1i >= 1,
                                qbi >= 1,
                        ;
                        assert(false);
                    }
                }
            }
        }
    }
    let lhs = diff_b.checked_mul(q1);
    let rhs = diff_c.checked_mul(qb);
    proof {
        assert(lhs is Some && rhs is Some);
    }
    match (lhs, rhs) {
        (Some(l), Some(r)) => {
            if l <= r {
                proof {
                    assert(err_num(pb as int, qb as int, num as int, den as int) == eb);
                    assert forall|av: int, bv: int| 1 <= bv <= max_denominator implies #[trigger]
                        at_least_as_close(pb as int, qb as int, av, bv, num as int, den as int) by {
                        let fm = err_num(av, bv, n0 as int, d0 as int);
                        if di * bv <= fm * (q1 as int) {
                            // The convergent is no closer than a/b, and the
                            // kept candidate is no worse than the convergent.
                            assert(eb * bv <= fm * (qb as int)) by (nonlinear_arith)
                                requires
                                    eb * (q1 as int) <= di * (qb as int),
                                    di * bv <= fm * (q1 as int),
                                    q1 >= 1,
                                    qb >= 1,
                                    bv >= 1,
                                    di >= 1,
                                    eb >= 1,
                                    fm >= 0,
                            ;
                        }
                    }
                }
                Ok((pb as u64, qb as u64))
            } else {
                proof {
                    assert(err_num(p1 as int, q1 as int, num as int, den as int) == di);
                    assert forall|av: int, bv: int| 1 <= bv <= max_denominator implies #[trigger]
                        at_least_as_close(p1 as int, q1 as int, av, bv, num as int, den as int) by {
                        let fm = err_num(av, bv, n0 as int, d0 as int);
                        if eb * bv <= fm * (qb as int) {
                            assert(di * bv <= fm * (q1 as int)) by (nonlinear_arith)
                                requires
                                    di * (qb as int) <= eb * (q1 as int),
                                    eb * bv <= fm * (qb as int),
                                    q1 >= 1,
                                    qb >= 1,
                                    bv >= 1,
                                    di >= 1,
                                    eb >= 1,
                                    fm >= 0,
                            ;
                        }
                    }
                }
                Ok((p1 as u64, q1 as u64))
            }
        },
        _ => {
            proof {
                assert(false);
            }
            Err(())
        },
    }
}

} // verus!
