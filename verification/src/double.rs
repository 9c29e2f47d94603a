//! Double-precision rounding on whole numbers: what a sum or a product of numbers
//! with 53 significant bits comes to, in whatever unit makes them all whole.

use vstd::prelude::*;

use vstd::arithmetic::div_mod::*;
use vstd::arithmetic::mul::*;
use vstd::arithmetic::power2::*;

use crate::seconds;

verus! {

/// How many bits of `n` are beyond the 53 most significant ones.
pub open spec fn excess(n: nat) -> nat
    decreases n,
{
    if n < 0x20_0000_0000_0000 {
        0
    } else {
        1 + excess(n / 2)
    }
}

/// `n` to 53 significant bits: the nearest such number, halves to the even one.
pub open spec fn rounded(n: int) -> int {
    let step = pow2(excess(n as nat));
    (seconds::nearest(n as nat, step) * step) as int
}

/// Whether `n` has no more than 53 significant bits.
pub open spec fn is_double(n: int) -> bool {
    rounded(n) == n
}

proof fn lemma_excess(n: nat)
    ensures
        pow2(excess(n)) >= 1,
        n < 0x20_0000_0000_0000 * pow2(excess(n)),
        excess(n) > 0 ==> n >= 0x10_0000_0000_0000 * pow2(excess(n)),
    decreases n,
{
    lemma2_to64();
    lemma_pow2_pos(excess(n));
    if n >= 0x20_0000_0000_0000 {
        lemma_excess(n / 2);
        lemma_pow2_unfold(excess(n));
        if excess(n / 2) == 0 {
            assert(pow2(excess(n)) == 2);
        }
    }
}

proof fn lemma_excess_grows(a: nat, b: nat)
    requires
        a <= b,
    ensures
        excess(a) <= excess(b),
    decreases b,
{
    if a >= 0x20_0000_0000_0000 {
        lemma_excess_grows(a / 2, b / 2);
    }
}

/// The nearest multiple of a step is within half of it.
proof fn lemma_nearest(n: nat, step: nat)
    requires
        step >= 1,
    ensures
        ({
            let r = seconds::nearest(n, step) * step;
            &&& 2 * (r - n) <= step
            &&& 2 * (n - r) <= step
        }),
        n / step <= seconds::nearest(n, step) <= n / step + 1,
{
    lemma_fundamental_div_mod(n as int, step as int);
    lemma_mod_bound(n as int, step as int);
    let q = n / step;
    assert((q + 1) * step == step * q + step) by (nonlinear_arith);
    assert(q * step == step * q) by (nonlinear_arith);
}

proof fn lemma_nearest_grows(a: nat, b: nat, step: nat)
    requires
        a <= b,
        step >= 1,
    ensures
        seconds::nearest(a, step) <= seconds::nearest(b, step),
{
    lemma_nearest(a, step);
    lemma_nearest(b, step);
    lemma_div_is_ordered(a as int, b as int, step as int);
    if a / step == b / step {
        lemma_fundamental_div_mod(a as int, step as int);
        lemma_fundamental_div_mod(b as int, step as int);
    }
}

/// Rounding is off by no more than one part in two to the power of 53.
pub proof fn lemma_rounded(n: int)
    requires
        n >= 0,
    ensures
        rounded(n) >= 0,
        0x20_0000_0000_0000 * (rounded(n) - n) <= n,
        0x20_0000_0000_0000 * (n - rounded(n)) <= n,
        n < 0x20_0000_0000_0000 ==> rounded(n) == n,
{
    let k = excess(n as nat);
    lemma_excess(n as nat);
    lemma_nearest(n as nat, pow2(k));
    lemma2_to64();
    if n < 0x20_0000_0000_0000 {
        assert(pow2(k) == 1);
        lemma_div_basics(n);
        assert(n % 1 == 0);
    }
    lemma_mul_nonnegative(seconds::nearest(n as nat, pow2(k)) as int, pow2(k) as int);
}

/// What is rounded is a count of steps, no more than there can be.
pub proof fn lemma_rounded_count(n: int)
    requires
        n >= 0,
    ensures
        0 <= seconds::nearest(n as nat, pow2(excess(n as nat))) <= 0x20_0000_0000_0000,
{
    let k = excess(n as nat);
    lemma_excess(n as nat);
    lemma_nearest(n as nat, pow2(k));
    lemma_div_strictly_bounded(n, pow2(k) as int, 0x20_0000_0000_0000);
}

/// No number of 53 significant bits is nearer than the one that is rounded to.
#[verifier::spinoff_prover]
pub proof fn lemma_rounded_is_nearest(n: int, m: int, j: nat)
    requires
        n >= 0,
        0 <= m <= 0x20_0000_0000_0000,
    ensures
        ({
            let d = m * pow2(j);
            let off = if d >= n {
                d - n
            } else {
                n - d
            };
            &&& rounded(n) - n <= off
            &&& n - rounded(n) <= off
            &&& rounded(n) >= n && d >= n ==> rounded(n) <= d
            &&& rounded(n) <= n && d <= n ==> rounded(n) >= d
        }),
{
    let k = excess(n as nat);
    let step = pow2(k) as int;
    let d = m * pow2(j);
    lemma_excess(n as nat);
    lemma_nearest(n as nat, pow2(k));
    lemma_pow2_pos(j);
    if j >= k {
        lemma_pow2_adds((j - k) as nat, k);
        let c = m * pow2((j - k) as nat);
        assert(d == c * step) by (nonlinear_arith)
            requires
                d == m * pow2(j),
                pow2(j) == pow2((j - k) as nat) * step,
                c == m * pow2((j - k) as nat),
        ;
        lemma_pow2_pos((j - k) as nat);
        lemma_mul_nonnegative(m, pow2((j - k) as nat) as int);
        lemma_steps_apart(n, c, step);
    } else {
        // The largest such number of smaller steps is no more than a whole count of
        // these, which is no more than `n`.
        lemma_pow2_unfold((j + 1) as nat);
        if j + 1 < k {
            lemma_pow2_strictly_increases((j + 1) as nat, k);
        }
        lemma_mul_inequality(m, 0x20_0000_0000_0000, pow2(j) as int);
        assert(d <= 0x10_0000_0000_0000 * step);
        lemma_steps_apart(n, 0x10_0000_0000_0000, step);
    }
}

/// The nearest count of steps is as near as any count.
proof fn lemma_steps_apart(n: int, c: int, step: int)
    requires
        n >= 0,
        c >= 0,
        step >= 1,
    ensures
        ({
            let r = seconds::nearest(n as nat, step as nat) * step;
            let d = c * step;
            let off = if d >= n {
                d - n
            } else {
                n - d
            };
            &&& r - n <= off
            &&& n - r <= off
            &&& r >= n && d >= n ==> r <= d
            &&& r <= n && d <= n ==> r >= d
        }),
{
    let q = n / step;
    let rest = n % step;
    let x = seconds::nearest(n as nat, step as nat) as int;
    lemma_nearest(n as nat, step as nat);
    lemma_fundamental_div_mod(n, step);
    lemma_mod_bound(n, step);
    lemma_mul_is_commutative(q, step);
    assert((q + 1) * step == q * step + step) by (nonlinear_arith);
    if c <= q {
        lemma_mul_inequality(c, q, step);
    } else {
        lemma_mul_inequality(q + 1, c, step);
    }
}

/// Rounding keeps the order.
#[verifier::spinoff_prover]
pub proof fn lemma_rounded_grows(a: int, b: int)
    requires
        0 <= a <= b,
    ensures
        rounded(a) <= rounded(b),
{
    let j = excess(a as nat);
    let k = excess(b as nat);
    lemma_excess_grows(a as nat, b as nat);
    lemma_excess(a as nat);
    lemma_excess(b as nat);
    let na = seconds::nearest(a as nat, pow2(j));
    let nb = seconds::nearest(b as nat, pow2(k));
    if j == k {
        lemma_nearest_grows(a as nat, b as nat, pow2(j));
        lemma_mul_inequality(na as int, nb as int, pow2(j) as int);
    } else {
        lemma_nearest(a as nat, pow2(j));
        lemma_nearest(b as nat, pow2(k));
        assert(na <= 0x20_0000_0000_0000) by {
            assert((a as nat) / pow2(j) < 0x20_0000_0000_0000) by {
                lemma_div_strictly_bounded(a, pow2(j) as int, 0x20_0000_0000_0000);
            }
        }
        assert(nb >= 0x10_0000_0000_0000) by {
            lemma_div_is_ordered(
                0x10_0000_0000_0000 * pow2(k) as int,
                b,
                pow2(k) as int,
            );
            lemma_div_by_multiple(0x10_0000_0000_0000, pow2(k) as int);
        }
        lemma_pow2_unfold((j + 1) as nat);
        if j + 1 < k {
            lemma_pow2_strictly_increases((j + 1) as nat, k);
        }
        lemma_mul_inequality(na as int, 0x20_0000_0000_0000, pow2(j) as int);
        lemma_mul_inequality(0x10_0000_0000_0000, nb as int, pow2(k) as int);
    }
}

proof fn lemma_div_strictly_bounded(a: int, d: int, bound: int)
    requires
        d >= 1,
        a < bound * d,
    ensures
        a / d < bound,
{
    lemma_fundamental_div_mod(a, d);
    lemma_mod_bound(a, d);
    if a / d >= bound {
        lemma_mul_inequality(bound, a / d, d);
        lemma_mul_is_commutative(a / d, d);
    }
}

/// Rounding does not depend on the binary unit.
proof fn lemma_rounded_doubles(n: int)
    requires
        n >= 0,
    ensures
        rounded(2 * n) == 2 * rounded(n),
{
    let k = excess(n as nat);
    lemma2_to64();
    lemma_excess(n as nat);
    if n < 0x10_0000_0000_0000 {
        lemma_rounded(n);
        lemma_rounded(2 * n);
    } else {
        let step = pow2(k);
        assert(excess((2 * n) as nat) == 1 + k) by {
            assert((2 * n) as nat / 2 == n);
        }
        lemma_pow2_unfold((k + 1) as nat);
        assert(pow2((k + 1) as nat) == 2 * step);
        lemma_fundamental_div_mod(n, step as int);
        lemma_mod_bound(n, step as int);
        let q = n / step as int;
        let r = n % step as int;
        assert(2 * n == (2 * step) * q + 2 * r) by (nonlinear_arith)
            requires
                n == step * q + r,
        ;
        lemma_fundamental_div_mod_converse(2 * n, (2 * step) as int, q, 2 * r);
        let m = seconds::nearest(n as nat, step);
        assert(seconds::nearest((2 * n) as nat, (2 * step) as nat) == m);
        assert(m * (2 * step) == 2 * (m * step)) by (nonlinear_arith);
    }
}

/// Rounding does not depend on the binary unit.
pub proof fn lemma_rounded_scales(n: int, j: nat)
    requires
        n >= 0,
    ensures
        rounded(n * pow2(j)) == rounded(n) * pow2(j),
    decreases j,
{
    lemma2_to64();
    if j > 0 {
        let half = pow2((j - 1) as nat) as int;
        lemma_pow2_unfold(j);
        lemma_rounded_scales(n, (j - 1) as nat);
        lemma_mul_nonnegative(n, half);
        lemma_rounded_doubles(n * half);
        assert(n * (2 * half) == 2 * (n * half)) by (nonlinear_arith);
        assert(rounded(n) * (2 * half) == 2 * (rounded(n) * half)) by (nonlinear_arith);
        assert(pow2(j) == 2 * half);
    } else {
        assert(n * 1 == n && rounded(n) * 1 == rounded(n)) by (nonlinear_arith);
    }
}

/// What has been rounded needs no more rounding.
pub proof fn lemma_rounded_is_double(n: int)
    requires
        n >= 0,
    ensures
        is_double(rounded(n)),
{
    let k = excess(n as nat);
    lemma_excess(n as nat);
    lemma_nearest(n as nat, pow2(k));
    let m = seconds::nearest(n as nat, pow2(k)) as int;
    lemma_div_strictly_bounded(n, pow2(k) as int, 0x20_0000_0000_0000);
    lemma_rounded_scales(m, k);
    if m < 0x20_0000_0000_0000 {
        lemma_rounded(m);
    } else {
        lemma_rounded_doubles(0x10_0000_0000_0000);
        lemma_rounded(0x10_0000_0000_0000);
    }
}

/// A double bounds what is rounded just as it bounds what is not.
pub proof fn lemma_rounded_bound(n: int, d: int)
    requires
        n >= 0,
        d >= 0,
        is_double(d),
    ensures
        n <= d ==> rounded(n) <= d,
        n >= d ==> rounded(n) >= d,
{
    if n <= d {
        lemma_rounded_grows(n, d);
    }
    if n >= d {
        lemma_rounded_grows(d, n);
    }
}

/// The step between numbers of 53 significant bits about `n`, and how many whole ones
/// `n` holds.
fn steps_in(n: u128) -> (r: (u128, u128))
    requires
        n < 0x8000_0000_0000_0000_0000_0000_0000_0000,
    ensures
        r.0 == n / r.1,
        r.1 == pow2(excess(n as nat)),
        1 <= r.1 <= 0x800_0000_0000_0000_0000,
{
    let mut count: u128 = n;
    let mut step: u128 = 1;
    let ghost mut k: nat = 0;
    proof {
        lemma2_to64();
        lemma_div_basics(n as int);
    }
    while count >= 0x20_0000_0000_0000
        invariant
            n < 0x8000_0000_0000_0000_0000_0000_0000_0000,
            count == n / step,
            step == pow2(k),
            1 <= step <= 0x800_0000_0000_0000_0000,
            excess(n as nat) == k + excess(count as nat),
        decreases count,
    {
        proof {
            lemma_div_denominator(n as int, step as int, 2);
            lemma_pow2_unfold((k + 1) as nat);
            lemma_fundamental_div_mod(n as int, step as int);
            lemma_mod_bound(n as int, step as int);
            assert(step * 0x20_0000_0000_0000 <= step * count) by (nonlinear_arith)
                requires
                    count >= 0x20_0000_0000_0000,
                    step >= 0,
            ;
            k = k + 1;
        }
        count = count / 2;
        step = step * 2;
    }
    (count, step)
}

/// `n` to 53 significant bits.
pub fn round(n: u128) -> (r: u128)
    requires
        n < 0x8000_0000_0000_0000_0000_0000_0000_0000,
    ensures
        r == rounded(n as int),
{
    let (count, step) = steps_in(n);
    proof {
        lemma_rounded(n as int);
        lemma_nearest(n as nat, step as nat);
        lemma_fundamental_div_mod(n as int, step as int);
        lemma_mod_bound(n as int, step as int);
        lemma_mul_is_commutative(count as int, step as int);
    }
    let rest = n - count * step;
    if 2 * rest > step || (2 * rest == step && count % 2 == 1) {
        (count + 1) * step
    } else {
        count * step
    }
}

/// `a` divided by `b`, to 53 significant bits in units of 2^-54, where `a` is no less
/// than `b`.
pub open spec fn quotient(a: int, b: int) -> int {
    let n = a * 0x40_0000_0000_0000;
    let step = pow2(excess((n / b) as nat)) as int;
    seconds::nearest(n as nat, (b * step) as nat) * step
}

/// The smallest whole number that is no less than `q` units of 2^-54.
pub open spec fn ceiling(q: int) -> int {
    (q + 0x40_0000_0000_0000 - 1) / 0x40_0000_0000_0000
}

/// A whole number of `d` has that number as its quotient, however it is rounded.
proof fn lemma_nearest_whole(m: int, d: int)
    requires
        m >= 0,
        d >= 1,
    ensures
        m * d >= 0,
        seconds::nearest((m * d) as nat, d as nat) == m,
{
    lemma_mul_nonnegative(m, d);
    lemma_div_by_multiple(m, d);
    lemma_mod_multiples_basic(m, d);
}

/// A number is between two whole ones, so its ceiling is the larger.
proof fn lemma_ceiling(n: int, d: int, c: int)
    requires
        d >= 1,
        c * d < n <= (c + 1) * d,
    ensures
        (n + d - 1) / d == c + 1,
{
    assert((c + 1) * d == c * d + d) by (nonlinear_arith);
    let r = n + d - 1 - (c + 1) * d;
    lemma_mul_is_commutative(c + 1, d);
    lemma_fundamental_div_mod_converse(n + d - 1, d, c + 1, r);
}

/// How the quotient of two doubles is rounded does not show in its ceiling, where the
/// divisor is a whole number of the steps about the dividend.
#[verifier::spinoff_prover]
pub proof fn lemma_quotient_ceiling(a: int, b: int)
    requires
        0 < b < a,
        is_double(a),
        b % pow2(excess(a as nat)) as int == 0,
        a < b * 0x20_0000_0000_0000,
    ensures
        ceiling(quotient(a, b)) == (a + b - 1) / b,
{
    let unit = 0x40_0000_0000_0000int;
    let n = a * unit;
    let f = n / b;
    let j = excess(f as nat);
    let step = pow2(j) as int;
    let s = pow2(excess(a as nat)) as int;
    lemma_excess(a as nat);
    assert(unit <= f < unit * 0x20_0000_0000_0000) by {
        assert(unit * b <= n) by (nonlinear_arith)
            requires
                n == a * unit,
                b <= a,
                unit > 0,
        ;
        lemma_div_is_ordered(unit * b, n, b);
        lemma_div_by_multiple(unit, b);
        assert(n < (unit * 0x20_0000_0000_0000) * b) by (nonlinear_arith)
            requires
                n == a * unit,
                a < b * 0x20_0000_0000_0000,
                unit > 0,
        ;
        lemma_div_strictly_bounded(n, b, unit * 0x20_0000_0000_0000);
    }
    lemma_excess(f as nat);
    lemma2_to64();
    lemma2_to64_rest();
    assert(j > 0);
    // The step about the quotient divides the unit.
    assert(j <= 54) by {
        if j > 54 {
            lemma_pow2_strictly_increases(54, j);
            lemma_pow2_unfold(j);
            if j > 55 {
                lemma_pow2_strictly_increases(55, j);
            }
        }
    }
    let per = pow2((54 - j) as nat) as int;
    lemma_pow2_adds((54 - j) as nat, j);
    lemma_pow2_pos((54 - j) as nat);
    assert(per * step == unit);
    let d = b * step;
    let c = a / b;
    lemma_fundamental_div_mod(a, b);
    lemma_mod_bound(a, b);
    let rest = a % b;
    assert(d >= 1) by (nonlinear_arith)
        requires
            d == b * step,
            b >= 1,
            step >= 1,
    ;
    assert(c >= 1) by (nonlinear_arith)
        requires
            a == b * c + rest,
            rest < b,
            a > b,
            b > 0,
    ;
    assert(n == (c * per) * d + rest * unit) by (nonlinear_arith)
        requires
            n == a * unit,
            a == b * c + rest,
            d == b * step,
            per * step == unit,
    ;
    assert((c * per) * step == c * unit) by (nonlinear_arith)
        requires
            per * step == unit,
    ;
    assert(((c + 1) * per) * step == (c + 1) * unit) by (nonlinear_arith)
        requires
            per * step == unit,
    ;
    lemma_mul_nonnegative(c, per);
    lemma_mul_nonnegative(c + 1, per);
    let m = seconds::nearest(n as nat, d as nat) as int;
    if rest == 0 {
        assert(rest * unit == 0) by (nonlinear_arith)
            requires
                rest == 0,
        ;
        lemma_nearest_whole(c * per, d);
        assert(m * step == c * unit);
        assert((c - 1) * unit < c * unit) by (nonlinear_arith)
            requires
                unit > 0,
        ;
        lemma_ceiling(c * unit, unit, c - 1);
        assert((c - 1) * b < a && a <= c * b) by (nonlinear_arith)
            requires
                a == b * c,
                b > 0,
        ;
        lemma_ceiling(a, b, c - 1);
    } else {
        // What is left over is a whole number of the steps about the dividend, so
        // more than half a step about the quotient.
        assert(rest >= s) by {
            lemma_double_is_whole_steps(a);
            lemma_multiple_rest(a, b, s);
        }
        lemma_fundamental_div_mod(n, b);
        lemma_mod_bound(n, b);
        assert(d * 0x10_0000_0000_0000 <= n) by (nonlinear_arith)
            requires
                d == b * step,
                step * 0x10_0000_0000_0000 <= f,
                b * f <= n,
                b > 0,
        {
            assert(b * (step * 0x10_0000_0000_0000) <= b * f);
        }
        assert(d < 2 * (s * unit)) by (nonlinear_arith)
            requires
                d * 0x10_0000_0000_0000 <= n,
                n == a * unit,
                a < 0x20_0000_0000_0000 * s,
                unit == 0x40_0000_0000_0000,
        ;
        assert(s * unit <= rest * unit) by (nonlinear_arith)
            requires
                s <= rest,
                unit > 0,
        ;
        lemma_rounds_up(n, d, c * per, rest * unit);
        assert(n <= ((c + 1) * per) * d) by (nonlinear_arith)
            requires
                n == a * unit,
                a == b * c + rest,
                rest < b,
                d == b * step,
                per * step == unit,
                unit > 0,
        {
            assert(((c + 1) * per) * d == (b * (c + 1)) * unit);
        }
        lemma_nearest_whole((c + 1) * per, d);
        lemma_nearest_grows(n as nat, (((c + 1) * per) * d) as nat, d as nat);
        lemma_mul_inequality(m, (c + 1) * per, step);
        lemma_mul_inequality(c * per + 1, m, step);
        assert((c * per + 1) * step == c * unit + step) by (nonlinear_arith)
            requires
                (c * per) * step == c * unit,
        ;
        lemma_ceiling(m * step, unit, c);
        assert(c * b < a && a <= (c + 1) * b) by (nonlinear_arith)
            requires
                a == b * c + rest,
                0 < rest < b,
        ;
        lemma_ceiling(a, b, c);
    }
}

/// More than half a step over a whole number of them is rounded up.
proof fn lemma_rounds_up(n: int, d: int, whole: int, over: int)
    requires
        d >= 1,
        whole >= 0,
        over >= 0,
        n == whole * d + over,
        2 * over > d,
    ensures
        seconds::nearest(n as nat, d as nat) >= whole + 1,
{
    lemma_mul_nonnegative(whole, d);
    if over < d {
        lemma_mul_is_commutative(whole, d);
        lemma_fundamental_div_mod_converse(n, d, whole, over);
    } else {
        lemma_nearest(n as nat, d as nat);
        assert((whole + 1) * d <= n) by (nonlinear_arith)
            requires
                n == whole * d + over,
                over >= d,
        ;
        lemma_div_is_ordered((whole + 1) * d, n, d);
        lemma_div_by_multiple(whole + 1, d);
    }
}

/// What is left of a whole number of `s` after a whole number of `s` is taken off as
/// often as it goes is nothing, or at least `s`.
proof fn lemma_multiple_rest(a: int, b: int, s: int)
    requires
        s >= 1,
        b > 0,
        a % s == 0,
        b % s == 0,
        a % b > 0,
    ensures
        a % b >= s,
{
    lemma_fundamental_div_mod(a, s);
    lemma_fundamental_div_mod(b, s);
    lemma_fundamental_div_mod(a, b);
    let x = a / s;
    let y = b / s;
    let c = a / b;
    let z = x - y * c;
    assert(a % b == s * z) by (nonlinear_arith)
        requires
            a == s * x,
            b == s * y,
            a == b * c + a % b,
            z == x - y * c,
    ;
    assert(z >= 1) by (nonlinear_arith)
        requires
            s * z > 0,
            s >= 1,
    ;
    assert(s * z >= s) by (nonlinear_arith)
        requires
            z >= 1,
            s >= 1,
    ;
}

/// A double is a whole number of the steps about it.
pub proof fn lemma_double_is_whole_steps(n: int)
    requires
        n >= 0,
        is_double(n),
    ensures
        n % pow2(excess(n as nat)) as int == 0,
{
    let step = pow2(excess(n as nat)) as int;
    lemma_excess(n as nat);
    lemma_mod_multiples_basic(seconds::nearest(n as nat, step as nat) as int, step);
}

/// What a whole number of the steps about a double leaves of it is a double too.
pub proof fn lemma_difference_is_double(a: int, b: int)
    requires
        0 <= b <= a,
        is_double(a),
        b % pow2(excess(a as nat)) as int == 0,
    ensures
        is_double(a - b),
{
    let k = excess(a as nat);
    let s = pow2(k) as int;
    lemma_excess(a as nat);
    lemma_double_is_whole_steps(a);
    lemma_fundamental_div_mod(a, s);
    lemma_fundamental_div_mod(b, s);
    let m = a / s - b / s;
    assert(a - b == m * s) by (nonlinear_arith)
        requires
            a == s * (a / s),
            b == s * (b / s),
            m == a / s - b / s,
    ;
    lemma_div_is_ordered(b, a, s);
    lemma_div_strictly_bounded(a, s, 0x20_0000_0000_0000);
    lemma_div_pos_is_pos(b, s);
    lemma_rounded(m);
    lemma_rounded_scales(m, k);
}

/// A number below two to the power of 53 is a double in every binary unit.
pub proof fn lemma_small_in_unit(m: int, k: nat)
    requires
        0 <= m < 0x20_0000_0000_0000,
    ensures
        is_double(m * pow2(k)),
{
    lemma_rounded(m);
    lemma_rounded_scales(m, k);
}

/// The step about a number below two to the power of `53 + k` divides two to the power
/// of `k`.
pub proof fn lemma_step_divides(n: int, k: nat)
    requires
        0 <= n < 0x20_0000_0000_0000 * pow2(k),
    ensures
        forall|m: int| #[trigger] (m * pow2(k)) % pow2(excess(n as nat)) as int == 0,
{
    let j = excess(n as nat);
    lemma_excess(n as nat);
    assert(j <= k) by {
        if j > k {
            lemma_pow2_unfold(j);
            if k < j - 1 {
                lemma_pow2_strictly_increases(k, (j - 1) as nat);
            }
        }
    }
    lemma_pow2_adds((k - j) as nat, j);
    let times = pow2((k - j) as nat) as int;
    let s = pow2(j) as int;
    assert forall|m: int| #[trigger] (m * pow2(k)) % s == 0 by {
        assert(m * pow2(k) == (m * times) * s) by (nonlinear_arith)
            requires
                pow2(k) == times * s,
        ;
        lemma_mod_multiples_basic(m * times, s);
    }
}

/// What two numbers of 53 significant bits multiply to, in units of two to the
/// power of 52.
pub open spec fn product(a: int, b: int) -> int {
    rounded(a * b) / 0x10_0000_0000_0000
}

/// Whether `n` is zero or a double large enough for its products to be whole.
pub open spec fn is_factor(n: int) -> bool {
    is_double(n) && (n == 0 || n >= 0x10_0000_0000_0000)
}

proof fn lemma_whole_steps(n: int)
    requires
        n >= 0x10_0000_0000_0000 * 0x10_0000_0000_0000,
    ensures
        rounded(n) % 0x10_0000_0000_0000 == 0,
{
    let k = excess(n as nat);
    lemma2_to64_rest();
    lemma_excess(n as nat);
    if k < 52 {
        lemma_pow2_unfold((k + 1) as nat);
        if k + 1 < 52 {
            lemma_pow2_strictly_increases((k + 1) as nat, 52);
        }
        assert(2 * pow2(k) <= 0x10_0000_0000_0000);
    } else {
        lemma_pow2_adds((k - 52) as nat, 52);
        let m = seconds::nearest(n as nat, pow2(k)) as int;
        let c = pow2((k - 52) as nat) as int;
        assert(m * (c * 0x10_0000_0000_0000) == (m * c) * 0x10_0000_0000_0000) by (nonlinear_arith);
        lemma_mod_multiples_basic(m * c, 0x10_0000_0000_0000);
    }
}

/// A product is a double, and no more than one part in two to the power of 53 off.
pub proof fn lemma_product(a: int, b: int)
    requires
        is_factor(a),
        is_factor(b),
        a >= 0,
        b >= 0,
    ensures
        product(a, b) >= 0,
        is_double(product(a, b)),
        product(a, b) * 0x10_0000_0000_0000 == rounded(a * b),
        a == 0 || b == 0 ==> product(a, b) == 0,
{
    lemma_mul_nonnegative(a, b);
    lemma_rounded(a * b);
    if a == 0 || b == 0 {
        assert(a * b == 0) by (nonlinear_arith)
            requires
                a == 0 || b == 0,
        ;
        lemma_rounded(0);
    } else {
        assert(a * b >= 0x10_0000_0000_0000 * 0x10_0000_0000_0000) by (nonlinear_arith)
            requires
                a >= 0x10_0000_0000_0000,
                b >= 0x10_0000_0000_0000,
        ;
        lemma_whole_steps(a * b);
        lemma_rounded_is_double(a * b);
        lemma2_to64_rest();
        lemma_rounded_scales(product(a, b), 52);
        lemma_mul_is_commutative(product(a, b), 0x10_0000_0000_0000);
    }
}

/// Larger factors never give a smaller product.
pub proof fn lemma_product_grows(a: int, b: int, c: int, d: int)
    requires
        0 <= a <= c,
        0 <= b <= d,
    ensures
        product(a, b) <= product(c, d),
{
    assert(0 <= a * b <= c * d) by (nonlinear_arith)
        requires
            0 <= a <= c,
            0 <= b <= d,
    ;
    lemma_rounded_grows(a * b, c * d);
    lemma_div_is_ordered(rounded(a * b), rounded(c * d), 0x10_0000_0000_0000);
}

/// A double is a whole number of the steps about it, and if it is large enough more
/// than half as many as there can be.
proof fn lemma_double_steps(n: int)
    requires
        n >= 0x10_0000_0000_0000,
        is_double(n),
    ensures
        ({
            let step = pow2(excess(n as nat)) as int;
            &&& (n / step) * step == n
            &&& 0x10_0000_0000_0000 <= n / step < 0x20_0000_0000_0000
        }),
{
    let step = pow2(excess(n as nat)) as int;
    lemma_excess(n as nat);
    let m = seconds::nearest(n as nat, step as nat) as int;
    lemma_div_by_multiple(m, step);
    lemma_div_strictly_bounded(n, step, 0x20_0000_0000_0000);
    if excess(n as nat) > 0 {
        lemma_div_is_ordered(0x10_0000_0000_0000 * step, n, step);
        lemma_div_by_multiple(0x10_0000_0000_0000, step);
    } else {
        lemma2_to64();
        lemma_div_basics(n);
    }
}

/// The product of two doubles.
pub fn multiply(a: u128, b: u128) -> (r: u128)
    requires
        is_factor(a as int),
        is_factor(b as int),
        a <= 0x10_0000_0000_0000_0000,
        b <= 0x40_0000_0000_0000_0000_0000,
    ensures
        r == product(a as int, b as int),
{
    if a == 0 || b == 0 {
        proof {
            lemma_product(a as int, b as int);
        }
        return 0;
    }
    let (m, p) = steps_in(a);
    let (n, q) = steps_in(b);
    proof {
        lemma_double_steps(a as int);
        lemma_double_steps(b as int);
        assert(p <= 0x1_0000 && q <= 0x4_0000_0000) by (nonlinear_arith)
            requires
                m * p == a,
                n * q == b,
                m >= 0x10_0000_0000_0000,
                n >= 0x10_0000_0000_0000,
                a <= 0x10_0000_0000_0000_0000,
                b <= 0x40_0000_0000_0000_0000_0000,
        ;
        assert(0x10_0000_0000_0000 * 0x10_0000_0000_0000 <= m * n < 0x20_0000_0000_0000
            * 0x20_0000_0000_0000) by (nonlinear_arith)
            requires
                0x10_0000_0000_0000 <= m < 0x20_0000_0000_0000,
                0x10_0000_0000_0000 <= n < 0x20_0000_0000_0000,
        ;
    }
    let whole: u128 = round(m * n);
    let steps: u128 = whole / 0x10_0000_0000_0000;
    proof {
        let mn = (m * n) as int;
        lemma_whole_steps(mn);
        lemma_rounded(mn);
        assert(steps <= 0x80_0000_0000_0000);
        let j = excess(a as nat);
        let k = excess(b as nat);
        lemma_rounded_scales(mn, j);
        lemma_mul_nonnegative(mn, p as int);
        lemma_rounded_scales(mn * p, k);
        assert(a * b == (mn * p) * q) by (nonlinear_arith)
            requires
                m * p == a,
                n * q == b,
                mn == m * n,
        ;
        assert((whole * p) * q == (steps * p * q) * 0x10_0000_0000_0000) by (nonlinear_arith)
            requires
                whole == steps * 0x10_0000_0000_0000,
        ;
        lemma_div_by_multiple((steps * p * q) as int, 0x10_0000_0000_0000);
        assert(steps * p <= 0x80_0000_0000_0000 * 0x1_0000 && steps * p * q
            <= 0x80_0000_0000_0000 * 0x1_0000 * 0x4_0000_0000) by (nonlinear_arith)
            requires
                0 <= steps <= 0x80_0000_0000_0000,
                0 <= p <= 0x1_0000,
                0 <= q <= 0x4_0000_0000,
        ;
    }
    steps * p * q
}

} // verus!
