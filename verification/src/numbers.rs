//! Divisibility, greatest common divisors and least common multiples.
//!
//! The balancer scales rational coefficients by the least common multiple of
//! their denominators and then divides the resulting integers by their
//! greatest common divisor, so that the published coefficient set has no
//! common factor. The lemmas here carry those two steps.

use vstd::prelude::*;
use vstd::arithmetic::div_mod::lemma_fundamental_div_mod;
use vstd::arithmetic::div_mod::lemma_fundamental_div_mod_converse_mod;

verus! {

/// `d` divides `a`.
pub open spec fn divides(d: int, a: int) -> bool {
    exists|k: int| a == #[trigger] (k * d)
}

/// Euclid's greatest common divisor.
pub open spec fn gcd(a: nat, b: nat) -> nat
    decreases b,
{
    if b == 0 {
        a
    } else {
        gcd(b, a % b)
    }
}

/// The greatest common divisor of a sequence (zero for an empty one).
pub open spec fn gcd_seq(s: Seq<u64>) -> nat
    decreases s.len(),
{
    if s.len() == 0 {
        0
    } else {
        gcd(gcd_seq(s.drop_last()), s.last() as nat)
    }
}

/// The gcd divides both of its arguments.
pub proof fn lemma_gcd_divides(a: nat, b: nat)
    ensures
        divides(gcd(a, b) as int, a as int),
        divides(gcd(a, b) as int, b as int),
    decreases b,
{
    if b == 0 {
        assert(a as int == 1 * (a as int));
        assert(0 == 0 * (a as int));
    } else {
        lemma_gcd_divides(b, a % b);
        let g = gcd(a, b) as int;
        let k1 = choose|k: int| b as int == #[trigger] (k * g);
        let k2 = choose|k: int| (a % b) as int == #[trigger] (k * g);
        lemma_fundamental_div_mod(a as int, b as int);
        assert(a as int == ((a as int / b as int) * k1 + k2) * g) by (nonlinear_arith)
            requires
                a as int == b as int * (a as int / b as int) + (a % b) as int,
                b as int == k1 * g,
                (a % b) as int == k2 * g,
        ;
    }
}

/// A gcd of zero means both arguments are zero.
pub proof fn lemma_gcd_zero(a: nat, b: nat)
    requires
        gcd(a, b) == 0,
    ensures
        a == 0 && b == 0,
{
    lemma_gcd_divides(a, b);
    let k1 = choose|k: int| a as int == #[trigger] (k * 0);
    let k2 = choose|k: int| b as int == #[trigger] (k * 0);
    assert(a as int == k1 * 0);
    assert(b as int == k2 * 0);
}

/// Exact division: a positive divisor of `a` splits it without remainder.
pub proof fn lemma_divides_exact(d: int, a: int)
    requires
        divides(d, a),
        d >= 1,
        a >= 0,
    ensures
        a % d == 0,
        a == (a / d) * d,
        a / d >= 0,
        divides(a / d, a),
{
    let k = choose|k: int| a == #[trigger] (k * d);
    assert(k >= 0) by (nonlinear_arith)
        requires
            a == k * d,
            d >= 1,
            a >= 0,
    ;
    lemma_fundamental_div_mod_converse_mod(a, d, k, 0);
    assert(a == k * d + 0);
    lemma_fundamental_div_mod(a, d);
    assert(a == d * (a / d) + a % d);
    assert(a == (a / d) * d) by (nonlinear_arith)
        requires
            a == d * (a / d) + a % d,
            a % d == 0,
    ;
    assert(a == d * (a / d));
}

/// Scaling both arguments scales the gcd.
pub proof fn lemma_gcd_mul(k: nat, a: nat, b: nat)
    ensures
        gcd(k * a, k * b) == k * gcd(a, b),
    decreases b,
{
    if k == 0 {
        assert(k * a == 0 && k * b == 0 && k * gcd(a, b) == 0) by (nonlinear_arith)
            requires
                k == 0,
        ;
    } else if b == 0 {
        assert(k * b == 0) by (nonlinear_arith)
            requires
                b == 0,
        ;
    } else {
        assert(k * b != 0) by (nonlinear_arith)
            requires
                k >= 1,
                b >= 1,
        ;
        lemma_fundamental_div_mod(a as int, b as int);
        let q = a as int / b as int;
        let r = (a % b) as int;
        assert(k * a == q * (k * b) + k * r) by (nonlinear_arith)
            requires
                a as int == b as int * q + r,
        ;
        assert(0 <= k * r < k * b) by (nonlinear_arith)
            requires
                k >= 1,
                0 <= r < b,
        ;
        lemma_fundamental_div_mod_converse_mod((k * a) as int, (k * b) as int, q, k * r);
        assert((k * a) % (k * b) == k * (a % b));
        lemma_gcd_mul(k, b, a % b);
    }
}

/// Scaling every entry of a sequence scales its gcd.
pub proof fn lemma_gcd_seq_mul(g: nat, s: Seq<u64>, t: Seq<u64>)
    requires
        s.len() == t.len(),
        forall|i: int| 0 <= i < s.len() ==> s[i] as nat == g * (t[i] as nat),
    ensures
        gcd_seq(s) == g * gcd_seq(t),
    decreases s.len(),
{
    if s.len() == 0 {
        assert(g * 0 == 0) by (nonlinear_arith);
    } else {
        lemma_gcd_seq_mul(g, s.drop_last(), t.drop_last());
        lemma_gcd_mul(g, gcd_seq(t.drop_last()), t.last() as nat);
    }
}

/// The gcd of a sequence divides every entry.
pub proof fn lemma_gcd_seq_divides(s: Seq<u64>, i: int)
    requires
        0 <= i < s.len(),
    ensures
        divides(gcd_seq(s) as int, s[i] as int),
    decreases s.len(),
{
    let g = gcd_seq(s);
    lemma_gcd_divides(gcd_seq(s.drop_last()), s.last() as nat);
    if i == s.len() - 1 {
    } else {
        lemma_gcd_seq_divides(s.drop_last(), i);
        let d = gcd_seq(s.drop_last()) as int;
        let k1 = choose|k: int| s.drop_last()[i] as int == #[trigger] (k * d);
        let k2 = choose|k: int| d == #[trigger] (k * (g as int));
        assert(s[i] as int == k1 * (k2 * (g as int)));
        assert(k1 * (k2 * (g as int)) == (k1 * k2) * (g as int)) by (nonlinear_arith);
    }
}

/// A positive entry keeps the gcd of the sequence positive.
pub proof fn lemma_gcd_seq_pos(s: Seq<u64>, i: int)
    requires
        0 <= i < s.len(),
        s[i] >= 1,
    ensures
        gcd_seq(s) >= 1,
{
    if gcd_seq(s) == 0 {
        lemma_gcd_seq_divides(s, i);
        let k = choose|k: int| s[i] as int == #[trigger] (k * 0);
        assert(s[i] as int == k * 0);
    }
}

/// Divisibility is transitive.
pub proof fn lemma_divides_trans(a: int, b: int, c: int)
    requires
        divides(a, b),
        divides(b, c),
    ensures
        divides(a, c),
{
    let k1 = choose|k: int| b == #[trigger] (k * a);
    let k2 = choose|k: int| c == #[trigger] (k * b);
    assert(c == (k2 * k1) * a) by (nonlinear_arith)
        requires
            b == k1 * a,
            c == k2 * b,
    ;
}

/// Powers of one hundred: the worst-case growth of a chain of least
/// common multiples of capped denominators.
pub open spec fn pow100(n: nat) -> nat
    decreases n,
{
    if n == 0 {
        1
    } else {
        100 * pow100((n - 1) as nat)
    }
}

/// Powers of one hundred grow with the exponent.
pub proof fn lemma_pow100_mono(a: nat, b: nat)
    requires
        a <= b,
    ensures
        pow100(a) <= pow100(b),
        pow100(a) >= 1,
    decreases b,
{
    if a == b {
        if a > 0 {
            lemma_pow100_mono((a - 1) as nat, (a - 1) as nat);
            assert(pow100(a) == 100 * pow100((a - 1) as nat));
            assert(pow100(a) >= 1) by (nonlinear_arith)
                requires
                    pow100(a) == 100 * pow100((a - 1) as nat),
                    pow100((a - 1) as nat) >= 1,
            ;
        }
    } else {
        lemma_pow100_mono(a, (b - 1) as nat);
        assert(pow100(b) == 100 * pow100((b - 1) as nat));
        assert(pow100((b - 1) as nat) <= pow100(b)) by (nonlinear_arith)
            requires
                pow100(b) == 100 * pow100((b - 1) as nat),
                pow100((b - 1) as nat) >= 0,
        ;
    }
}

/// The magnitude of an integer.
pub open spec fn abs_of(x: int) -> int {
    if x < 0 {
        -x
    } else {
        x
    }
}

/// Any common divisor divides the gcd.
pub proof fn lemma_divides_gcd(d: int, a: nat, b: nat)
    requires
        divides(d, a as int),
        divides(d, b as int),
    ensures
        divides(d, gcd(a, b) as int),
    decreases b,
{
    if b == 0 {
    } else {
        let k1 = choose|k: int| a as int == #[trigger] (k * d);
        let k2 = choose|k: int| b as int == #[trigger] (k * d);
        lemma_fundamental_div_mod(a as int, b as int);
        let q = a as int / b as int;
        assert((a % b) as int == (k1 - q * k2) * d) by (nonlinear_arith)
            requires
                a as int == b as int * q + (a % b) as int,
                a as int == k1 * d,
                b as int == k2 * d,
        ;
        lemma_divides_gcd(d, b, a % b);
    }
}

/// A positive multiple is at least as large as the divisor.
pub proof fn lemma_divides_le(d: int, a: int)
    requires
        divides(d, a),
        d >= 0,
        a >= 1,
    ensures
        1 <= d <= a,
{
    let k = choose|k: int| a == #[trigger] (k * d);
    assert(1 <= d <= a) by (nonlinear_arith)
        requires
            a == k * d,
            d >= 0,
            a >= 1,
    ;
}

/// A number coprime to `n` dividing `n * b` divides `b`.
pub proof fn lemma_coprime_divides(d: nat, n: nat, b: nat)
    requires
        gcd(n, d) == 1,
        divides(d as int, (n as int) * (b as int)),
    ensures
        divides(d as int, b as int),
{
    lemma_gcd_mul(b, n, d);
    assert((b * n) as int == (n as int) * (b as int)) by (nonlinear_arith);
    assert((b * d) as int == 1 * ((b as int) * (d as int))) by (nonlinear_arith);
    assert(divides(d as int, (b * d) as int)) by {
        assert((b * d) as int == (b as int) * (d as int)) by (nonlinear_arith);
    }
    lemma_divides_gcd(d as int, b * n, b * d);
    assert(gcd(b * n, b * d) == b * 1);
    assert(b * 1 == b) by (nonlinear_arith);
}

/// Two numbers with an integer combination of one are coprime.
pub proof fn lemma_unimodular_coprime(a: nat, b: nat, x: int, y: int)
    requires
        a * x + b * y == 1 || a * x + b * y == -1,
    ensures
        gcd(a, b) == 1,
{
    lemma_gcd_divides(a, b);
    let g = gcd(a, b) as int;
    let k1 = choose|k: int| a as int == #[trigger] (k * g);
    let k2 = choose|k: int| b as int == #[trigger] (k * g);
    let m = k1 * x + k2 * y;
    assert(m * g == 1 || m * g == -1) by (nonlinear_arith)
        requires
            a as int == k1 * g,
            b as int == k2 * g,
            m == k1 * x + k2 * y,
            a * x + b * y == 1 || a * x + b * y == -1,
    ;
    assert(g == 1) by (nonlinear_arith)
        requires
            m * g == 1 || m * g == -1,
            g >= 0,
    ;
}

/// Dividing two numbers by their gcd leaves them coprime.
pub proof fn lemma_gcd_div_gcd(a: nat, b: nat)
    requires
        gcd(a, b) >= 1,
    ensures
        gcd((a / gcd(a, b)) as nat, (b / gcd(a, b)) as nat) == 1,
{
    let g = gcd(a, b);
    lemma_gcd_divides(a, b);
    lemma_divides_exact(g as int, a as int);
    lemma_divides_exact(g as int, b as int);
    let qa = (a / g) as nat;
    let qb = (b / g) as nat;
    lemma_gcd_mul(g, qa, qb);
    assert(g * qa == a) by (nonlinear_arith)
        requires
            a as int == (a as int / g as int) * (g as int),
            qa == a as int / g as int,
    ;
    assert(g * qb == b) by (nonlinear_arith)
        requires
            b as int == (b as int / g as int) * (g as int),
            qb == b as int / g as int,
    ;
    assert(gcd(qa, qb) == 1) by (nonlinear_arith)
        requires
            g == g * gcd(qa, qb),
            g >= 1,
    ;
}

/// The character for one decimal digit.
pub open spec fn dec_digit(d: int) -> char {
    if d == 0 {
        '0'
    } else if d == 1 {
        '1'
    } else if d == 2 {
        '2'
    } else if d == 3 {
        '3'
    } else if d == 4 {
        '4'
    } else if d == 5 {
        '5'
    } else if d == 6 {
        '6'
    } else if d == 7 {
        '7'
    } else if d == 8 {
        '8'
    } else {
        '9'
    }
}

/// The decimal spelling of a nonnegative number.
pub open spec fn dec_str(n: int) -> Seq<char>
    decreases n,
{
    if n < 10 {
        seq![dec_digit(n)]
    } else {
        dec_str(n / 10).push(dec_digit(n % 10))
    }
}

/// The string for one decimal digit.
fn digit_str(d: u64) -> (r: &'static str)
    requires
        d < 10,
    ensures
        r@ == seq![dec_digit(d as int)],
{
    proof {
        reveal_strlit("0");
        reveal_strlit("1");
        reveal_strlit("2");
        reveal_strlit("3");
        reveal_strlit("4");
        reveal_strlit("5");
        reveal_strlit("6");
        reveal_strlit("7");
        reveal_strlit("8");
        reveal_strlit("9");
    }
    let r = if d == 0 {
        "0"
    } else if d == 1 {
        "1"
    } else if d == 2 {
        "2"
    } else if d == 3 {
        "3"
    } else if d == 4 {
        "4"
    } else if d == 5 {
        "5"
    } else if d == 6 {
        "6"
    } else if d == 7 {
        "7"
    } else if d == 8 {
        "8"
    } else {
        "9"
    };
    proof {
        assert(r@ =~= seq![dec_digit(d as int)]);
    }
    r
}

/// Renders a number in decimal.
pub fn u64_to_string(n: u64) -> (r: String)
    ensures
        r@ == dec_str(n as int),
    decreases n,
{
    if n < 10 {
        digit_str(n).to_owned()
    } else {
        let mut s = u64_to_string(n / 10);
        s.append(digit_str(n % 10));
        proof {
            assert(s@ =~= dec_str(n as int));
        }
        s
    }
}

/// Greatest common divisor of two numbers.
pub fn gcd_u64(a: u64, b: u64) -> (g: u64)
    ensures
        g as nat == gcd(a as nat, b as nat),
{
    let mut x: u64 = a;
    let mut y: u64 = b;
    while y != 0
        invariant
            gcd(x as nat, y as nat) == gcd(a as nat, b as nat),
        decreases y,
    {
        let r: u64 = x % y;
        x = y;
        y = r;
    }
    x
}

/// Greatest common divisor of two wide numbers.
pub fn gcd_u128(a: u128, b: u128) -> (g: u128)
    ensures
        g as nat == gcd(a as nat, b as nat),
{
    let mut x: u128 = a;
    let mut y: u128 = b;
    while y != 0
        invariant
            gcd(x as nat, y as nat) == gcd(a as nat, b as nat),
        decreases y,
    {
        let r: u128 = x % y;
        x = y;
        y = r;
    }
    x
}

/// Least common multiple, or `None` when it does not fit in 64 bits.
pub fn lcm_u64(a: u64, b: u64) -> (r: Option<u64>)
    requires
        a >= 1,
        b >= 1,
    ensures
        match r {
            Some(l) => l >= 1 && l <= a * b && divides(a as int, l as int) && divides(
                b as int,
                l as int,
            ),
            None => (a as int / gcd(a as nat, b as nat) as int) * b > u64::MAX,
        },
{
    let g = gcd_u64(a, b);
    proof {
        lemma_gcd_divides(a as nat, b as nat);
        if g == 0 {
            lemma_gcd_zero(a as nat, b as nat);
        }
        lemma_divides_exact(g as int, a as int);
    }
    let q: u64 = a / g;
    proof {
        assert(q >= 1) by (nonlinear_arith)
            requires
                a as int == (q as int) * (g as int),
                g >= 1,
                a >= 1,
        ;
    }
    match q.checked_mul(b) {
        Some(l) => {
            proof {
                assert(l >= 1) by (nonlinear_arith)
                    requires
                        l == q * b,
                        q >= 1,
                        b >= 1,
                ;
                assert(l <= a * b) by (nonlinear_arith)
                    requires
                        l == q * b,
                        a as int == (q as int) * (g as int),
                        g >= 1,
                        q >= 0,
                        b >= 1,
                ;
                // l = (a/g)*b is a multiple of b.
                assert(l as int == (q as int) * (b as int));
                // and of a: a = g*(a/g), g divides b, so l = a * (b/g).
                lemma_divides_exact(g as int, b as int);
                let bq = b as int / g as int;
                assert(l as int == bq * (a as int)) by (nonlinear_arith)
                    requires
                        l as int == (a as int / g as int) * (b as int),
                        a as int == (a as int / g as int) * (g as int),
                        b as int == bq * (g as int),
                ;
            }
            Some(l)
        },
        None => None,
    }
}

} // verus!
