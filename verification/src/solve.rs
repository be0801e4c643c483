//! Solving the balancing system and normalizing its solution.
//!
//! The atom-count matrix is solved exactly over rationals by Gauss-Jordan
//! elimination, with the last species' coefficient fixed at one. Whatever
//! the solver yields is only a candidate: the balancer re-checks the final
//! integer coefficients against every element's atom totals, and that
//! integer recheck, not the elimination, is the authoritative contract.
//!
//! Normalization turns the rational candidates into the smallest whole
//! coefficients: each rational is reduced, its denominator is capped, the
//! denominators' least common multiple scales everything to integers, and
//! the integers are divided by their greatest common divisor, so the
//! published set provably has no common factor.

use vstd::prelude::*;

use crate::numbers::divides;
use crate::numbers::gcd;
use crate::numbers::gcd_seq;
use crate::numbers::gcd_u128;
use crate::numbers::gcd_u64;
use crate::numbers::lcm_u64;
use crate::numbers::lemma_divides_exact;
use crate::numbers::lemma_divides_trans;
use crate::numbers::lemma_gcd_div_gcd;
use crate::numbers::lemma_gcd_divides;
use crate::numbers::lemma_gcd_seq_divides;
use crate::numbers::lemma_gcd_seq_mul;
use crate::numbers::lemma_gcd_seq_pos;
use crate::numbers::lemma_gcd_zero;
use crate::numbers::lemma_pow100_mono;
use crate::numbers::pow100;
use crate::ratio::Frac;
use crate::ratio::at_least_as_close;
use crate::ratio::limit_denominator;

verus! {

/// Why the linear system could not be solved.
#[derive(Debug, Clone, Copy, PartialEq, Eq, Structural)]
pub enum SolveError {
    /// The system is singular or inconsistent: the elimination ended with
    /// an equation `0 = c` for a nonzero `c`, so it found no solution with
    /// the last species' coefficient fixed at one.
    Singular,
    /// The eliminated candidate left a nonzero residual in the exact
    /// integer recheck. No input is expected to produce this; it is kept
    /// apart from `Singular` so that each error names its own evidence.
    Residual,
    /// An intermediate rational did not fit the integer representation.
    Overflow,
}

/// Why exact integer coefficients could not be produced.
#[derive(Debug, Clone, Copy, PartialEq, Eq, Structural)]
pub enum NormalizeError {
    /// A numerator, denominator or scaled coefficient did not fit the
    /// integer representation.
    Overflow,
}

/// Every row has the full width and well-formed entries.
pub open spec fn grid_wf(m: Seq<Vec<Frac>>, width: int) -> bool {
    forall|r: int|
        0 <= r < m.len() ==> (#[trigger] m[r])@.len() == width && forall|c: int|
            0 <= c < width ==> (#[trigger] m[r]@[c]).wf()
}

/// The exact running sum of the first `k` terms of one equation's left
/// side, as an unreduced fraction: numerator and denominator of
/// `sum of row[j] * x[j]` for `j` below `k`.
pub open spec fn row_sum(row: Seq<u64>, x: Seq<Frac>, k: int) -> (int, int)
    decreases k,
{
    if k <= 0 {
        (0int, 1int)
    } else {
        let p = row_sum(row, x, k - 1);
        (p.0 * x[k - 1].den + row[k - 1] * x[k - 1].num * p.1, p.1 * x[k - 1].den)
    }
}

/// One equation of the balancing system holds exactly: the weighted sum of
/// the solved coefficients equals the right-hand side.
pub open spec fn row_solved(row: Seq<u64>, x: Seq<Frac>) -> bool {
    row_sum(row, x, x.len() as int).0 == row[row.len() - 1] * row_sum(row, x, x.len() as int).1
}

/// Checks one equation of the system with exact integer arithmetic.
fn check_row(row: &Vec<u64>, x: &Vec<Frac>) -> (r: Option<bool>)
    requires
        row@.len() == x@.len() + 1,
        forall|j: int| 0 <= j < x@.len() ==> (#[trigger] x@[j]).wf(),
    ensures
        r matches Some(b) ==> b == row_solved(row@, x@),
{
    let nvars = x.len();
    let mut sn: i128 = 0;
    let mut sd: i128 = 1;
    let mut j: usize = 0;
    while j < nvars
        invariant
            nvars == x@.len(),
            row@.len() == nvars + 1,
            forall|t: int| 0 <= t < x@.len() ==> (#[trigger] x@[t]).wf(),
            0 <= j <= nvars,
            (sn as int, sd as int) == row_sum(row@, x@, j as int),
            sd >= 1,
        decreases nvars - j,
    {
        let xi = x[j];
        let term = match (row[j] as i128).checked_mul(xi.num) {
            Some(v) => v,
            None => {
                return None;
            },
        };
        let a = match sn.checked_mul(xi.den) {
            Some(v) => v,
            None => {
                return None;
            },
        };
        let b = match term.checked_mul(sd) {
            Some(v) => v,
            None => {
                return None;
            },
        };
        let new_sn = match a.checked_add(b) {
            Some(v) => v,
            None => {
                return None;
            },
        };
        let new_sd = match sd.checked_mul(xi.den) {
            Some(v) => v,
            None => {
                return None;
            },
        };
        proof {
            assert(new_sd >= 1) by (nonlinear_arith)
                requires
                    new_sd == sd * xi.den,
                    sd >= 1,
                    xi.den >= 1,
            ;
        }
        sn = new_sn;
        sd = new_sd;
        j = j + 1;
    }
    let rhs = match (row[nvars] as i128).checked_mul(sd) {
        Some(v) => v,
        None => {
            return None;
        },
    };
    Some(sn == rhs)
}

/// Solves the balancing system `A x = b`, where `A` is all columns of the
/// matrix but the last and `b` is the last column, by exact Gauss-Jordan
/// elimination over rationals. Free variables are set to zero, so a
/// genuinely underdetermined species surfaces as a zero coefficient and is
/// rejected by the balancer's verification step. Whatever the elimination
/// produces is then re-checked row by row with exact integer arithmetic,
/// so a returned vector provably satisfies every equation; downstream, the
/// balancer's final integer recheck of the scaled coefficients remains the
/// authoritative conservation test.
pub fn solve_system(mx: &Vec<Vec<u64>>, ncols: usize) -> (r: Result<Vec<Frac>, SolveError>)
    requires
        ncols >= 1,
        forall|i: int| 0 <= i < mx@.len() ==> (#[trigger] mx@[i])@.len() == ncols,
    ensures
        match r {
            Ok(v) => {
                &&& v@.len() == ncols - 1
                &&& forall|i: int| 0 <= i < v@.len() ==> (#[trigger] v@[i]).wf()
                &&& forall|i: int| 0 <= i < mx@.len() ==> row_solved((#[trigger] mx@[i])@, v@)
            },
            Err(_) => true,
        },
{
    let rows: usize = mx.len();
    let width: usize = ncols;
    let nvars: usize = ncols - 1;
    // Copy the integer matrix into exact rationals.
    let mut m: Vec<Vec<Frac>> = Vec::new();
    let mut r: usize = 0;
    while r < rows
        invariant
            rows == mx@.len(),
            forall|i: int| 0 <= i < mx@.len() ==> (#[trigger] mx@[i])@.len() == width,
            0 <= r <= rows,
            m@.len() == r,
            grid_wf(m@, width as int),
        decreases rows - r,
    {
        let mut row: Vec<Frac> = Vec::new();
        let mut c: usize = 0;
        while c < width
            invariant
                rows == mx@.len(),
                forall|i: int| 0 <= i < mx@.len() ==> (#[trigger] mx@[i])@.len() == width,
                0 <= r < rows,
                0 <= c <= width,
                row@.len() == c,
                forall|k: int| 0 <= k < c ==> (#[trigger] row@[k]).wf(),
            decreases width - c,
        {
            row.push(Frac::from_u64(mx[r][c]));
            c = c + 1;
        }
        m.push(row);
        r = r + 1;
    }
    // Forward elimination to reduced row echelon form.
    let mut pivot_cols: Vec<usize> = Vec::new();
    let mut pivot_row: usize = 0;
    let mut col: usize = 0;
    while col < nvars
        invariant
            nvars < width,
            m@.len() == rows,
            grid_wf(m@, width as int),
            pivot_row <= rows,
            pivot_cols@.len() == pivot_row,
            forall|k: int| 0 <= k < pivot_cols@.len() ==> (#[trigger] pivot_cols@[k]) < nvars,
            0 <= col <= nvars,
        decreases nvars - col,
    {
        if pivot_row >= rows {
            break;
        }
        // Find a row at or below the pivot row with a nonzero entry.
        let mut found: usize = rows;
        let mut rr: usize = pivot_row;
        while rr < rows
            invariant
                m@.len() == rows,
                grid_wf(m@, width as int),
                col < width,
                pivot_row <= rr,
                found == rows || (pivot_row <= found && found < rows),
            decreases rows - rr,
        {
            if !m[rr][col].is_zero() {
                found = rr;
                break;
            }
            rr = rr + 1;
        }
        if found == rows {
            col = col + 1;
            continue;
        }
        // Bring the pivot row up.
        if found != pivot_row {
            let tmp = m[found].clone();
            let tmp2 = m[pivot_row].clone();
            proof {
                lemma_clone_row(m@[found as int], tmp);
                lemma_clone_row(m@[pivot_row as int], tmp2);
            }
            m[found] = tmp2;
            m[pivot_row] = tmp;
        }
        // Scale the pivot row so the pivot entry becomes one.
        let pivot = m[pivot_row][col];
        let mut c2: usize = 0;
        while c2 < width
            invariant
                m@.len() == rows,
                grid_wf(m@, width as int),
                pivot_row < rows,
                pivot.wf(),
                0 <= c2 <= width,
            decreases width - c2,
        {
            let cur = m[pivot_row][c2];
            let scaled = match cur.div(&pivot) {
                Some(v) => v,
                None => {
                    return Err(SolveError::Overflow);
                },
            };
            m[pivot_row][c2] = scaled;
            c2 = c2 + 1;
        }
        // Eliminate the pivot column from every other row.
        let mut r2: usize = 0;
        while r2 < rows
            invariant
                m@.len() == rows,
                grid_wf(m@, width as int),
                pivot_row < rows,
                col < width,
                0 <= r2 <= rows,
            decreases rows - r2,
        {
            if r2 != pivot_row {
                let factor = m[r2][col];
                if !factor.is_zero() {
                    let mut c3: usize = 0;
                    while c3 < width
                        invariant
                            m@.len() == rows,
                            grid_wf(m@, width as int),
                            pivot_row < rows,
                            r2 < rows,
                            factor.wf(),
                            0 <= c3 <= width,
                        decreases width - c3,
                    {
                        let prod = match factor.mul(&m[pivot_row][c3]) {
                            Some(v) => v,
                            None => {
                                return Err(SolveError::Overflow);
                            },
                        };
                        let diff = match m[r2][c3].sub(&prod) {
                            Some(v) => v,
                            None => {
                                return Err(SolveError::Overflow);
                            },
                        };
                        m[r2][c3] = diff;
                        c3 = c3 + 1;
                    }
                }
            }
            r2 = r2 + 1;
        }
        pivot_cols.push(col);
        pivot_row = pivot_row + 1;
        col = col + 1;
    }
    // Rows with no pivot must have a zero right-hand side, or the system
    // is inconsistent.
    let mut r3: usize = pivot_row;
    while r3 < rows
        invariant
            m@.len() == rows,
            grid_wf(m@, width as int),
            nvars < width,
            0 <= r3,
        decreases rows - r3,
    {
        if !m[r3][width - 1].is_zero() {
            return Err(SolveError::Singular);
        }
        r3 = r3 + 1;
    }
    // Pivot variables take the reduced right-hand side; free variables
    // take zero.
    let mut x: Vec<Frac> = Vec::new();
    let mut v: usize = 0;
    while v < nvars
        invariant
            0 <= v <= nvars,
            x@.len() == v,
            forall|k: int| 0 <= k < v ==> (#[trigger] x@[k]).wf(),
        decreases nvars - v,
    {
        x.push(Frac::zero());
        v = v + 1;
    }
    let npivots: usize = pivot_cols.len();
    let mut k: usize = 0;
    while k < npivots
        invariant
            npivots == pivot_cols@.len(),
            npivots == pivot_row,
            pivot_row <= rows,
            m@.len() == rows,
            grid_wf(m@, width as int),
            nvars < width,
            forall|i: int| 0 <= i < pivot_cols@.len() ==> (#[trigger] pivot_cols@[i]) < nvars,
            x@.len() == nvars,
            forall|i: int| 0 <= i < x@.len() ==> (#[trigger] x@[i]).wf(),
            0 <= k <= npivots,
        decreases npivots - k,
    {
        let c = pivot_cols[k];
        x[c] = m[k][width - 1];
        k = k + 1;
    }
    // Re-check the candidate against the original system, exactly.
    let mut cr: usize = 0;
    while cr < rows
        invariant
            rows == mx@.len(),
            forall|i: int| 0 <= i < mx@.len() ==> (#[trigger] mx@[i])@.len() == width,
            width == ncols,
            nvars == ncols - 1,
            x@.len() == nvars,
            forall|i: int| 0 <= i < x@.len() ==> (#[trigger] x@[i]).wf(),
            0 <= cr <= rows,
            forall|i: int| 0 <= i < cr ==> row_solved((#[trigger] mx@[i])@, x@),
        decreases rows - cr,
    {
        match check_row(&mx[cr], &x) {
            Some(true) => {},
            Some(false) => {
                return Err(SolveError::Residual);
            },
            None => {
                return Err(SolveError::Overflow);
            },
        }
        cr = cr + 1;
    }
    Ok(x)
}

/// A cloned row has the same entries.
proof fn lemma_clone_row(a: Vec<Frac>, b: Vec<Frac>)
    requires
        a@ == b@,
    ensures
        forall|c: int| 0 <= c < a@.len() ==> a@[c] == b@[c],
{
}

/// The magnitude of a fraction's numerator.
pub open spec fn abs_num(f: Frac) -> int {
    if f.num < 0 {
        -(f.num as int)
    } else {
        f.num as int
    }
}

/// The denominator of `f` brought to lowest terms.
pub open spec fn reduced_den(f: Frac) -> int {
    f.den as int / (gcd(abs_num(f) as nat, f.den as nat) as int)
}

/// The magnitude of `f`'s numerator brought to lowest terms.
pub open spec fn reduced_num(f: Frac) -> int {
    abs_num(f) / (gcd(abs_num(f) as nat, f.den as nat) as int)
}

/// Inputs on which normalization is owed an answer: every reduced pair is
/// representable, and even the worst-case denominator scale (one hundred
/// per species) keeps every scaled numerator within the coefficient type.
pub open spec fn representable(cs: Seq<Frac>) -> bool {
    &&& pow100(cs.len()) <= u64::MAX
    &&& forall|i: int|
        0 <= i < cs.len() ==> (#[trigger] cs[i]).num != i128::MIN && reduced_den(cs[i])
            <= u64::MAX && reduced_num(cs[i]) * pow100(cs.len()) <= u64::MAX
}

/// Turns exact rational coefficients into the smallest whole-number
/// coefficient set: each rational is reduced and its magnitude taken (the
/// sign of a solved coefficient is an artifact of the solving convention),
/// the denominator is capped at 100 by `limit_denominator`, all
/// denominators are scaled away by their least common multiple (the scale
/// itself becomes the last species' coefficient), and the whole set is
/// divided by its greatest common divisor. The result provably has no
/// common factor left.
pub fn normalize_coefficients(coefficients: &Vec<Frac>) -> (r: Result<Vec<u64>, NormalizeError>)
    requires
        forall|i: int| 0 <= i < coefficients@.len() ==> (#[trigger] coefficients@[i]).wf(),
    ensures
        match r {
            Ok(c) => {
                &&& c@.len() == coefficients@.len() + 1
                &&& c@.last() >= 1
                &&& gcd_seq(c@) == 1
                &&& exists|ps: Seq<u64>, qs: Seq<u64>|
                    #![trigger ps.len(), qs.len()]
                    {
                        &&& ps.len() == coefficients@.len()
                        &&& qs.len() == coefficients@.len()
                        &&& forall|i: int| 0 <= i < qs.len() ==> 1 <= #[trigger] qs[i] <= 100
                        &&& forall|i: int|
                            #![trigger ps[i]]
                            0 <= i < ps.len() ==> gcd(ps[i] as nat, qs[i] as nat) == 1
                        &&& forall|i: int|
                            #![trigger ps[i]]
                            0 <= i < ps.len() ==> (reduced_den(coefficients@[i]) <= 100 ==> ps[i]
                                * coefficients@[i].den == abs_num(coefficients@[i]) * qs[i])
                        &&& forall|i: int|
                            #![trigger ps[i]]
                            0 <= i < ps.len() ==> (forall|a: int, b: int|
                                1 <= b <= 100 ==> #[trigger] at_least_as_close(
                                    ps[i] as int,
                                    qs[i] as int,
                                    a,
                                    b,
                                    reduced_num(coefficients@[i]),
                                    reduced_den(coefficients@[i]),
                                ))
                        &&& forall|i: int|
                            #![trigger qs[i]]
                            0 <= i < qs.len() ==> c@[i] * qs[i] == ps[i] * c@.last()
                    }
            },
            Err(_) => true,
        },
        representable(coefficients@) ==> r is Ok,
{
    let count: usize = coefficients.len();
    // Reduce each coefficient's magnitude to lowest terms.
    let mut ps: Vec<u64> = Vec::new();
    let mut qs: Vec<u64> = Vec::new();
    let mut i: usize = 0;
    while i < count
        invariant
            count == coefficients@.len(),
            forall|t: int| 0 <= t < coefficients@.len() ==> (#[trigger] coefficients@[t]).wf(),
            0 <= i <= count,
            ps@.len() == i,
            qs@.len() == i,
            forall|t: int| 0 <= t < i ==> 1 <= (#[trigger] qs@[t]) <= 100,
            forall|t: int|
                #![trigger ps@[t]]
                0 <= t < i ==> gcd(ps@[t] as nat, qs@[t] as nat) == 1,
            forall|t: int|
                #![trigger ps@[t]]
                0 <= t < i ==> (reduced_den(coefficients@[t]) <= 100 ==> ps@[t]
                    * coefficients@[t].den == abs_num(coefficients@[t]) * qs@[t]),
            forall|t: int|
                #![trigger ps@[t]]
                0 <= t < i ==> (forall|a: int, b: int|
                    1 <= b <= 100 ==> #[trigger] at_least_as_close(
                        ps@[t] as int,
                        qs@[t] as int,
                        a,
                        b,
                        reduced_num(coefficients@[t]),
                        reduced_den(coefficients@[t]),
                    )),
            forall|t: int|
                #![trigger ps@[t]]
                0 <= t < i ==> ps@[t] as int <= reduced_num(coefficients@[t]),
        decreases count - i,
    {
        let f = coefficients[i];
        let mag: u128 = if f.num < 0 {
            if f.num == i128::MIN {
                proof {
                    if representable(coefficients@) {
                        assert(coefficients@[i as int].num != i128::MIN);
                    }
                }
                return Err(NormalizeError::Overflow);
            }
            (-f.num) as u128
        } else {
            f.num as u128
        };
        let den_u: u128 = f.den as u128;
        let g = gcd_u128(mag, den_u);
        proof {
            if g == 0 {
                lemma_gcd_zero(mag as nat, den_u as nat);
            }
            lemma_gcd_divides(mag as nat, den_u as nat);
            lemma_divides_exact(g as int, mag as int);
            lemma_divides_exact(g as int, den_u as int);
            assert(den_u / g >= 1) by (nonlinear_arith)
                requires
                    den_u as int == (den_u as int / g as int) * (g as int),
                    den_u >= 1,
                    g >= 1,
            ;
            lemma_gcd_div_gcd(mag as nat, den_u as nat);
        }
        let rm: u128 = mag / g;
        let rd: u128 = den_u / g;
        proof {
            assert(mag as int == abs_num(f));
            assert(g as nat == gcd(abs_num(f) as nat, f.den as nat));
            assert(rd as int == reduced_den(f));
            assert(mag as int == (rm as int) * (g as int)) by (nonlinear_arith)
                requires
                    mag as int == (mag as int / g as int) * (g as int),
                    rm as int == mag as int / g as int,
            ;
            assert(den_u as int == (rd as int) * (g as int)) by (nonlinear_arith)
                requires
                    den_u as int == (den_u as int / g as int) * (g as int),
                    rd as int == den_u as int / g as int,
            ;
            assert((rm as int) * (den_u as int) == (mag as int) * (rd as int))
                by (nonlinear_arith)
                requires
                    mag as int == (rm as int) * (g as int),
                    den_u as int == (rd as int) * (g as int),
            ;
        }
        if rm > u64::MAX as u128 || rd > u64::MAX as u128 {
            proof {
                if representable(coefficients@) {
                    assert(coefficients@[i as int].num != i128::MIN);
                    assert(rm as int == reduced_num(f));
                    assert(rd as int == reduced_den(f));
                    lemma_pow100_mono(coefficients@.len(), coefficients@.len());
                    assert(reduced_num(f) <= u64::MAX) by (nonlinear_arith)
                        requires
                            reduced_num(f) * pow100(coefficients@.len()) <= u64::MAX,
                            pow100(coefficients@.len()) >= 1,
                            reduced_num(f) >= 0,
                    ;
                    assert(false);
                }
            }
            return Err(NormalizeError::Overflow);
        }
        // Guard the scaled coefficients against floating noise by capping
        // the denominator.
        match limit_denominator(rm as u64, rd as u64, 100) {
            Ok((p, q)) => {
                proof {
                    assert(rm as int == reduced_num(f));
                    if rd <= 100 {
                        // The cap leaves a small denominator unchanged, so
                        // the stored pair is exactly the reduced magnitude.
                        assert(p == rm && q == rd);
                        assert((p as int) * (f.den as int) == abs_num(f) * (q as int));
                    }
                    assert forall|a: int, b: int| 1 <= b <= 100 implies #[trigger]
                        at_least_as_close(
                        p as int,
                        q as int,
                        a,
                        b,
                        reduced_num(f),
                        reduced_den(f),
                    ) by {
                        assert(at_least_as_close(
                            p as int,
                            q as int,
                            a,
                            b,
                            (rm as u64) as int,
                            (rd as u64) as int,
                        ));
                    }
                }
                ps.push(p);
                qs.push(q);
            },
            Err(()) => {
                // The denominator cap is total; this arm is provably dead.
                proof {
                    assert(false);
                }
                return Err(NormalizeError::Overflow);
            },
        }
        i = i + 1;
    }
    // The common scale: the least common multiple of all denominators.
    let mut scale: u64 = 1;
    let mut j: usize = 0;
    while j < count
        invariant
            count == qs@.len(),
            count == coefficients@.len(),
            forall|t: int| 0 <= t < count ==> 1 <= (#[trigger] qs@[t]) <= 100,
            0 <= j <= count,
            scale >= 1,
            forall|t: int| 0 <= t < j ==> divides(qs@[t] as int, scale as int),
            representable(coefficients@) ==> scale as nat <= pow100(j as nat),
        decreases count - j,
    {
        let q = qs[j];
        let next = match lcm_u64(scale, q) {
            Some(l) => l,
            None => {
                proof {
                    if representable(coefficients@) {
                        let g = gcd(scale as nat, q as nat);
                        if g == 0 {
                            lemma_gcd_zero(scale as nat, q as nat);
                        }
                        lemma_gcd_divides(scale as nat, q as nat);
                        lemma_divides_exact(g as int, scale as int);
                        assert(scale as int / g as int <= scale as int) by (nonlinear_arith)
                            requires
                                scale as int == (scale as int / g as int) * (g as int),
                                g >= 1,
                                scale >= 1,
                        ;
                        lemma_pow100_mono(j as nat + 1, coefficients@.len());
                        assert((scale as int / g as int) * (q as int) <= (scale as int) * (
                        q as int)) by (nonlinear_arith)
                            requires
                                scale as int / g as int <= scale as int,
                                q >= 1,
                                scale as int / g as int >= 0,
                        ;
                        assert((scale as int) * (q as int) <= pow100(j as nat + 1))
                            by (nonlinear_arith)
                            requires
                                scale as nat <= pow100(j as nat),
                                q <= 100,
                                q >= 0,
                                scale >= 0,
                                pow100(j as nat + 1) == 100 * pow100(j as nat),
                        ;
                        assert(false);
                    }
                }
                return Err(NormalizeError::Overflow);
            },
        };
        proof {
            assert forall|t: int| 0 <= t < j implies divides(qs@[t] as int, next as int) by {
                lemma_divides_trans(qs@[t] as int, scale as int, next as int);
            }
            if representable(coefficients@) {
                assert(next as nat <= pow100(j as nat + 1)) by (nonlinear_arith)
                    requires
                        next as int <= (scale as int) * (q as int),
                        scale as nat <= pow100(j as nat),
                        q <= 100,
                        q >= 0,
                        scale >= 0,
                        pow100(j as nat + 1) == 100 * pow100(j as nat),
                ;
            }
        }
        scale = next;
        j = j + 1;
    }
    // Scale every numerator to a whole coefficient; the scale itself is
    // the last species' coefficient.
    let mut raw: Vec<u64> = Vec::new();
    let mut t: usize = 0;
    while t < count
        invariant
            count == qs@.len(),
            count == ps@.len(),
            count == coefficients@.len(),
            forall|w: int| 0 <= w < count ==> (#[trigger] qs@[w]) >= 1,
            forall|w: int| 0 <= w < count ==> divides(qs@[w] as int, scale as int),
            forall|w: int|
                #![trigger ps@[w]]
                0 <= w < count ==> ps@[w] as int <= reduced_num(coefficients@[w]),
            scale >= 1,
            representable(coefficients@) ==> scale as nat <= pow100(coefficients@.len()),
            0 <= t <= count,
            raw@.len() == t,
            forall|w: int| #![trigger raw@[w]] 0 <= w < t ==> raw@[w] * qs@[w] == ps@[w] * scale,
        decreases count - t,
    {
        let q = qs[t];
        proof {
            lemma_divides_exact(q as int, scale as int);
        }
        let factor: u64 = scale / q;
        let c = match ps[t].checked_mul(factor) {
            Some(v) => v,
            None => {
                proof {
                    if representable(coefficients@) {
                        assert(coefficients@[t as int].num != i128::MIN);
                        assert(factor as int <= scale as int) by (nonlinear_arith)
                            requires
                                scale as int == (factor as int) * (q as int),
                                q >= 1,
                                factor >= 0,
                        ;
                        assert((ps@[t as int] as int) * (factor as int) <= reduced_num(
                            coefficients@[t as int],
                        ) * pow100(coefficients@.len())) by (nonlinear_arith)
                            requires
                                ps@[t as int] as int <= reduced_num(coefficients@[t as int]),
                                factor as int <= scale as int,
                                scale as nat <= pow100(coefficients@.len()),
                                ps@[t as int] >= 0,
                                factor >= 0,
                                reduced_num(coefficients@[t as int]) >= 0,
                                scale >= 0,
                        ;
                        assert(false);
                    }
                }
                return Err(NormalizeError::Overflow);
            },
        };
        proof {
            assert((c as int) * (q as int) == (ps@[t as int] as int) * (scale as int))
                by (nonlinear_arith)
                requires
                    c as int == (ps@[t as int] as int) * (factor as int),
                    scale as int == (factor as int) * (q as int),
            ;
        }
        raw.push(c);
        t = t + 1;
    }
    raw.push(scale);
    // Divide the whole set by its greatest common divisor, so no common
    // factor remains.
    let total: usize = raw.len();
    let mut g: u64 = 0;
    let mut u: usize = 0;
    while u < total
        invariant
            total == raw@.len(),
            0 <= u <= total,
            g as nat == gcd_seq(raw@.take(u as int)),
        decreases total - u,
    {
        proof {
            assert(raw@.take(u as int + 1).drop_last() == raw@.take(u as int));
            assert(raw@.take(u as int + 1).last() == raw@[u as int]);
        }
        g = gcd_u64(g, raw[u]);
        u = u + 1;
    }
    proof {
        assert(raw@.take(total as int) == raw@);
        assert(raw@[total - 1] == scale);
        lemma_gcd_seq_pos(raw@, total as int - 1);
    }
    let mut out: Vec<u64> = Vec::new();
    let mut w: usize = 0;
    while w < total
        invariant
            total == raw@.len(),
            g >= 1,
            g as nat == gcd_seq(raw@),
            0 <= w <= total,
            out@.len() == w,
            forall|v2: int|
                0 <= v2 < w ==> raw@[v2] as nat == (g as nat) * ((#[trigger] out@[v2]) as nat),
            forall|v2: int| 0 <= v2 < w ==> (raw@[v2] >= 1 ==> (#[trigger] out@[v2]) >= 1),
        decreases total - w,
    {
        proof {
            lemma_gcd_seq_divides(raw@, w as int);
            lemma_divides_exact(g as int, raw@[w as int] as int);
            assert(raw@[w as int] as int == (g as int) * ((raw@[w as int] as int) / (g as int)))
                by (nonlinear_arith)
                requires
                    raw@[w as int] as int == ((raw@[w as int] as int) / (g as int)) * (g as int),
            ;
            if raw@[w as int] >= 1 {
                assert((raw@[w as int] as int) / (g as int) >= 1) by (nonlinear_arith)
                    requires
                        raw@[w as int] as int == ((raw@[w as int] as int) / (g as int)) * (
                        g as int),
                        raw@[w as int] >= 1,
                        g >= 1,
                ;
            }
        }
        out.push(raw[w] / g);
        w = w + 1;
    }
    proof {
        lemma_gcd_seq_mul(g as nat, raw@, out@);
        assert(gcd_seq(out@) == 1) by (nonlinear_arith)
            requires
                gcd_seq(raw@) == (g as nat) * gcd_seq(out@),
                g as nat == gcd_seq(raw@),
                g >= 1,
        ;
        assert(out@.last() >= 1);
        // Each output stands to the last one exactly as its capped
        // fraction demands: out[i] * q_i == p_i * out.last().
        assert forall|i: int| #![trigger qs@[i]] 0 <= i < count implies out@[i] * qs@[i]
            == ps@[i] * out@.last() by {
            assert(raw@[i] as nat == (g as nat) * (out@[i] as nat));
            assert(raw@[count as int] as nat == (g as nat) * (out@[count as int] as nat));
            assert(raw@[count as int] == scale);
            assert(raw@[i] * qs@[i] == ps@[i] * scale);
            assert(out@[i] * qs@[i] == ps@[i] * out@[count as int]) by (nonlinear_arith)
                requires
                    raw@[i] as int == (g as int) * (out@[i] as int),
                    scale as int == (g as int) * (out@[count as int] as int),
                    (raw@[i] as int) * (qs@[i] as int) == (ps@[i] as int) * (scale as int),
                    g >= 1,
            ;
            assert(out@.last() == out@[count as int]);
        }
        assert(ps@.len() == coefficients@.len() && qs@.len() == coefficients@.len());
    }
    Ok(out)
}

} // verus!
