//! Rounding to binary64, over whole numbers.
//!
//! A binary64 number that is not negative is a whole number of units of 2^-1074, and is
//! represented here by that number. There is no upper bound: a value past the largest
//! finite binary64 number stands for infinity.

use vstd::arithmetic::power2::*;
use vstd::arithmetic::div_mod::*;
use vstd::arithmetic::mul::*;
use vstd::prelude::*;

verus! {

/// How many binary digits `n` has.
pub open spec fn bits(n: nat) -> nat
    decreases n,
{
    if n == 0 {
        0
    } else {
        1 + bits(n / 2)
    }
}

/// `a / b` rounded to the nearest whole number, ties to the even one.
pub open spec fn half_even(a: nat, b: nat) -> nat
    recommends
        b > 0,
{
    let q = a / b;
    let r = a % b;
    if 2 * r > b || (2 * r == b && q % 2 == 1) {
        q + 1
    } else {
        q
    }
}

/// The exponent of the unit in the last of 53 binary digits of `n`.
pub open spec fn last_place(n: nat) -> nat {
    if bits(n) > 53 {
        (bits(n) - 53) as nat
    } else {
        0
    }
}

/// The binary64 number nearest to `num / den` units, ties to the even one.
pub open spec fn nearest(num: nat, den: nat) -> nat
    recommends
        den > 0,
{
    let place = pow2(last_place(num / den));
    half_even(num, den * place) * place
}

/// How many units make one.
pub open spec fn one() -> nat {
    pow2(1074)
}

/// The whole part of a number of units.
pub open spec fn whole(units: nat) -> nat {
    units / one()
}

// ---------------------------------------------------------------------------
// Facts about the definitions
// ---------------------------------------------------------------------------

/// The binary digits of a number say between which powers of two it lies.
pub proof fn lemma_bits(n: nat)
    ensures
        n < pow2(bits(n)),
        n > 0 ==> bits(n) > 0 && pow2((bits(n) - 1) as nat) <= n,
    decreases n,
{
    lemma2_to64();
    if n > 0 {
        lemma_bits(n / 2);
        lemma_pow2_unfold(bits(n));
        if n / 2 > 0 {
            lemma_pow2_unfold((bits(n) - 1) as nat);
        }
    }
}

/// The powers of two around a number give its binary digits.
pub proof fn lemma_bits_between(n: nat, b: nat)
    requires
        b > 0,
        pow2((b - 1) as nat) <= n < pow2(b),
    ensures
        bits(n) == b,
{
    lemma_pow2_pos((b - 1) as nat);
    lemma_bits(n);
    let c = bits(n);
    if c < b {
        if c < b - 1 {
            lemma_pow2_strictly_increases(c, (b - 1) as nat);
        }
    }
    if b < c {
        if b < c - 1 {
            lemma_pow2_strictly_increases(b, (c - 1) as nat);
        }
    }
}

/// A number below a power of two has no more binary digits than its exponent.
pub proof fn lemma_bits_below(n: nat, b: nat)
    requires
        n < pow2(b),
    ensures
        bits(n) <= b,
{
    lemma_bits(n);
    if bits(n) > b {
        if b < bits(n) - 1 {
            lemma_pow2_strictly_increases(b, (bits(n) - 1) as nat);
        }
    }
}

/// What `half_even` leaves between its result and the quotient.
pub proof fn lemma_half_even(a: nat, b: nat)
    requires
        b > 0,
    ensures
        a / b <= half_even(a, b) <= a / b + 1,
        2 * half_even(a, b) * b <= 2 * a + b,
        2 * a <= 2 * half_even(a, b) * b + b,
{
    lemma_fundamental_div_mod(a as int, b as int);
    lemma_mod_bound(a as int, b as int);
    let q = a / b;
    let r = a % b;
    let h = half_even(a, b);
    assert(a == b * q + r);
    assert(2 * (q + 1) * b == 2 * (b * q) + 2 * b) by (nonlinear_arith);
    assert(2 * q * b == 2 * (b * q)) by (nonlinear_arith);
}

/// Scaling both sides of a quotient changes nothing.
pub proof fn lemma_half_even_scaled(a: nat, b: nat, c: nat)
    requires
        b > 0,
        c > 0,
    ensures
        b * c > 0,
        (a * c) / (b * c) == a / b,
        half_even(a * c, b * c) == half_even(a, b),
{
    lemma_fundamental_div_mod(a as int, b as int);
    lemma_mod_bound(a as int, b as int);
    let q = a / b;
    let r = a % b;
    assert(b * c > 0) by (nonlinear_arith)
        requires
            b > 0,
            c > 0,
    ;
    assert(a * c == (b * c) * q + r * c) by (nonlinear_arith)
        requires
            a == b * q + r,
    ;
    assert(0 <= r * c < b * c) by (nonlinear_arith)
        requires
            0 <= r < b,
            c > 0,
    ;
    lemma_fundamental_div_mod_converse((a * c) as int, (b * c) as int, q as int, (r * c) as int);
    assert((2 * (r * c) > b * c) == (2 * r > b)) by (nonlinear_arith)
        requires
            c > 0,
    ;
    assert((2 * (r * c) == b * c) == (2 * r == b)) by (nonlinear_arith)
        requires
            c > 0,
    ;
}

/// Scaling both sides of a quotient does not change the nearest number.
pub proof fn lemma_nearest_scaled(num: nat, den: nat, c: nat)
    requires
        den > 0,
        c > 0,
    ensures
        nearest(num * c, den * c) == nearest(num, den),
{
    lemma_half_even_scaled(num, den, c);
    let place = pow2(last_place(num / den));
    lemma_pow2_pos(last_place(num / den));
    assert(den * place > 0) by (nonlinear_arith)
        requires
            den > 0,
            place > 0,
    ;
    lemma_half_even_scaled(num, den * place, c);
    assert(den * place * c == den * c * place) by (nonlinear_arith);
}

/// A nearest number lies between half of the quotient and twice it.
pub proof fn lemma_nearest_rough(num: nat, den: nat)
    requires
        den > 0,
    ensures
        num / den <= 2 * nearest(num, den),
        nearest(num, den) <= 2 * (num / den) + 1,
{
    let q = num / den;
    let e = last_place(q);
    let place = pow2(e);
    lemma_pow2_pos(e);
    assert(den * place > 0) by (nonlinear_arith)
        requires
            den > 0,
            place > 0,
    ;
    lemma_half_even(num, den * place);
    let h = half_even(num, den * place);
    let f = num / (den * place);
    lemma_div_denominator(num as int, den as int, place as int);
    assert(f == q / place);
    lemma_fundamental_div_mod(q as int, place as int);
    lemma_mod_bound(q as int, place as int);
    assert(q == place * f + q % place);
    lemma_bits(q);
    assert(f * place <= h * place) by (nonlinear_arith)
        requires
            f <= h,
    ;
    assert(h * place <= f * place + place) by (nonlinear_arith)
        requires
            h <= f + 1,
    ;
    assert(place * f == f * place) by (nonlinear_arith);
    if e > 0 {
        // `q` has 53 + e binary digits, so `f` is at least one
        lemma_pow2_adds(52, e);
        assert(pow2(52) > 0) by {
            lemma_pow2_pos(52);
        }
        assert(pow2(52) * place >= place) by (nonlinear_arith)
            requires
                pow2(52) > 0,
        ;
        assert(q >= place);
        if f == 0 {
            assert(place * f == 0) by (nonlinear_arith)
                requires
                    f == 0,
            ;
        }
        assert(f * place >= place) by (nonlinear_arith)
            requires
                f >= 1,
        ;
    } else {
        lemma2_to64();
        assert(place == 1);
    }
}

/// The nearest number to a quotient whose first 53 binary digits are known.
pub proof fn lemma_nearest_at(num: nat, den: nat, acc: nat, rest: nat, t: nat, s: nat)
    requires
        den > 0,
        rest < t,
        pow2(52) <= acc < pow2(53),
        num * t == den * ((acc * t + rest) * pow2(s)),
    ensures
        nearest(num, den) == half_even(acc * t + rest, t) * pow2(s),
{
    let a = acc * t + rest;
    let p = pow2(s);
    lemma_pow2_pos(s);
    lemma_nearest_scaled(num, den, t);
    lemma_nearest_scaled(a * p, t, den);
    assert(num * t == a * p * den) by (nonlinear_arith)
        requires
            num * t == den * (a * p),
    ;
    assert(den * t == t * den) by (nonlinear_arith);
    assert(nearest(num, den) == nearest(a * p, t));
    // the quotient has 53 + s binary digits
    let q = (a * p) / t;
    assert(a * p == t * (acc * p) + rest * p) by (nonlinear_arith)
        requires
            a == acc * t + rest,
    ;
    assert(q >= acc * p && q < (acc + 1) * p) by {
        lemma_fundamental_div_mod((a * p) as int, t as int);
        lemma_mod_bound((a * p) as int, t as int);
        let r = (a * p) % t;
        assert(t * q + r == t * (acc * p) + rest * p);
        assert(rest * p < t * p) by (nonlinear_arith)
            requires
                rest < t,
                p > 0,
        ;
        assert(q >= acc * p) by (nonlinear_arith)
            requires
                t * q + r == t * (acc * p) + rest * p,
                0 <= r < t,
                rest * p >= 0,
                t > 0,
        ;
        assert(q < acc * p + p) by (nonlinear_arith)
            requires
                t * q + r == t * (acc * p) + rest * p,
                0 <= r < t,
                rest * p < t * p,
                t > 0,
        ;
        assert((acc + 1) * p == acc * p + p) by (nonlinear_arith);
    }
    lemma_pow2_adds(52, s);
    lemma_pow2_adds(53, s);
    assert(acc * p >= pow2(52) * p) by (nonlinear_arith)
        requires
            acc >= pow2(52),
    ;
    assert((acc + 1) * p <= pow2(53) * p) by (nonlinear_arith)
        requires
            acc + 1 <= pow2(53),
    ;
    lemma_bits_between(q, 53 + s);
    assert(last_place(q) == s);
    lemma_half_even_scaled(a, t, p);
}

/// The whole part of a number of units that is `m` times a power of two.
pub proof fn lemma_whole_of(m: nat, k: nat)
    requires
        k <= 1074,
    ensures
        pow2(k) > 0,
        whole(m * pow2((1074 - k) as nat)) == m / pow2(k),
        forall|t: nat|
            m * pow2((1074 - k) as nat) >= #[trigger] (t * one()) <==> m >= t * pow2(k),
{
    let s = (1074 - k) as nat;
    lemma_pow2_pos(k);
    lemma_pow2_pos(s);
    lemma_pow2_adds(k, s);
    assert(one() == pow2(k) * pow2(s));
    lemma_half_even_scaled(m, pow2(k), pow2(s));
    assert forall|t: nat| m * pow2(s) >= #[trigger] (t * one()) <==> m >= t * pow2(k) by {
        assert(t * one() == t * pow2(k) * pow2(s)) by (nonlinear_arith)
            requires
                one() == pow2(k) * pow2(s),
        ;
        let x = t * pow2(k);
        let p = pow2(s);
        assert(m * p >= x * p <==> m >= x) by (nonlinear_arith)
            requires
                p > 0,
        ;
    }
}

/// A hundredth of a binary64 number of at least one hundred, rounded, has the whole part
/// that the exact hundredth has.
pub proof fn lemma_hundredth(m: nat, k: nat)
    requires
        k <= 1000,
        m <= pow2(53),
    ensures
        whole(nearest(m * pow2((1074 - k) as nat), 100)) == (m / pow2(k)) / 100,
{
    let s = (1074 - k) as nat;
    let p = pow2(s);
    let u = m * p;
    let q = u / 100;
    let e = last_place(q);
    let place = pow2(e);
    lemma_pow2_pos(s);
    lemma_pow2_pos(e);
    lemma_pow2_pos(k);
    lemma_whole_of(m, k);
    // e + 6 <= s
    assert(e + 6 <= s) by {
        lemma2_to64();
        assert(u <= pow2(53) * p) by (nonlinear_arith)
            requires
                u == m * p,
                m <= pow2(53),
        ;
        lemma_pow2_adds(53, s);
        lemma_pow2_adds(6, (47 + s) as nat);
        lemma_pow2_pos((47 + s) as nat);
        assert(u <= 64 * pow2((47 + s) as nat));
        assert(q < pow2((47 + s) as nat));
        lemma_bits_below(q, (47 + s) as nat);
    }
    let g = (s - e) as nat;
    lemma_pow2_adds(e, g);
    assert(p == place * pow2(g));
    assert(pow2(g) >= 64) by {
        lemma2_to64();
        if g > 6 {
            lemma_pow2_strictly_increases(6, g);
        }
    }
    let n = (m / pow2(k)) / 100;
    // n * one <= u / 100 < (n + 1) * one
    let w = (1074 - e) as nat;
    lemma_pow2_adds(e, w);
    lemma_pow2_adds(k, s);
    assert(one() == place * pow2(w));
    let h = half_even(u, 100 * place);
    lemma_half_even(u, 100 * place);
    assert(m >= n * 100 * pow2(k) && m < (n + 1) * 100 * pow2(k)) by {
        let x = m / pow2(k);
        lemma_fundamental_div_mod(m as int, pow2(k) as int);
        lemma_mod_bound(m as int, pow2(k) as int);
        let z = pow2(k);
        assert(m >= n * 100 * z && m < (n + 1) * 100 * z) by (nonlinear_arith)
            requires
                m == z * x + m % z,
                0 <= m % z < z,
                n == x / 100,
        ;
    }
    // below: the result is at least n
    assert(h * place >= n * one()) by {
        let big = n * pow2(w);
        let z = pow2(k);
        assert(u >= n * 100 * z * p) by (nonlinear_arith)
            requires
                u == m * p,
                m >= n * 100 * z,
        ;
        assert(n * 100 * z * p == big * (100 * place)) by (nonlinear_arith)
            requires
                z * p == one(),
                one() == place * pow2(w),
                big == n * pow2(w),
        ;
        let f = u / (100 * place);
        lemma_fundamental_div_mod(u as int, (100 * place) as int);
        lemma_mod_bound(u as int, (100 * place) as int);
        let b = 100 * place;
        assert(f >= big) by (nonlinear_arith)
            requires
                u == b * f + u % b,
                u % b < b,
                u >= big * b,
                b > 0,
        ;
        assert(h * place >= big * place) by (nonlinear_arith)
            requires
                h >= big,
        ;
        assert(big * place == n * one()) by (nonlinear_arith)
            requires
                big == n * pow2(w),
                one() == place * pow2(w),
        ;
    }
    // above: reaching n + 1 would need more than `u` has
    assert(h * place < (n + 1) * one()) by {
        let big = (n + 1) * pow2(w);
        let z = pow2(k);
        assert(u + p <= (n + 1) * 100 * z * p) by (nonlinear_arith)
            requires
                u == m * p,
                m + 1 <= (n + 1) * 100 * z,
        ;
        assert((n + 1) * 100 * z * p == big * (100 * place)) by (nonlinear_arith)
            requires
                z * p == one(),
                one() == place * pow2(w),
                big == (n + 1) * pow2(w),
        ;
        let b = 100 * place;
        assert(p >= 64 * place) by (nonlinear_arith)
            requires
                p == place * pow2(g),
                pow2(g) >= 64,
        ;
        assert(h < big) by (nonlinear_arith)
            requires
                2 * h * b <= 2 * u + b,
                u + p <= big * b,
                p >= 64 * place,
                b == 100 * place,
                place > 0,
        ;
        assert(h * place < big * place) by (nonlinear_arith)
            requires
                h < big,
                place > 0,
        ;
        assert(big * place == (n + 1) * one()) by (nonlinear_arith)
            requires
                big == (n + 1) * pow2(w),
                one() == place * pow2(w),
        ;
    }
    lemma_pow2_pos(1074);
    let y = h * place;
    let o = one();
    assert(y / o == n) by {
        assert((n + 1) * o == n * o + o) by (nonlinear_arith);
        lemma_fundamental_div_mod_converse(y as int, o as int, n as int, y - n * o);
    }
}

/// A thousand times a binary64 number with 53 binary digits, rounded.
pub proof fn lemma_thousandfold(m: nat, k: nat, shift: nat)
    requires
        k <= 1000,
        pow2(52 + shift) <= 1000 * m < pow2(53 + shift),
    ensures
        nearest(1000 * (m * pow2((1074 - k) as nat)), 1) == half_even(1000 * m, pow2(shift))
            * pow2(shift) * pow2((1074 - k) as nat),
        whole(nearest(1000 * (m * pow2((1074 - k) as nat)), 1)) == (half_even(
            1000 * m,
            pow2(shift),
        ) * pow2(shift)) / pow2(k),
{
    let s = (1074 - k) as nat;
    let p = pow2(s);
    let x = 1000 * m;
    let v = 1000 * (m * p);
    assert(v == x * p) by (nonlinear_arith)
        requires
            v == 1000 * (m * p),
            x == 1000 * m,
    ;
    lemma_pow2_pos(s);
    lemma_pow2_pos(shift);
    lemma_pow2_adds((52 + shift) as nat, s);
    lemma_pow2_adds((53 + shift) as nat, s);
    assert(pow2(52 + shift) * p <= v < pow2(53 + shift) * p) by (nonlinear_arith)
        requires
            pow2(52 + shift) <= x < pow2(53 + shift),
            v == x * p,
            p > 0,
    ;
    lemma_bits_between(v, (53 + shift + s) as nat);
    assert(last_place(v) == shift + s);
    lemma_pow2_adds(shift, s);
    let b = pow2(shift);
    assert(pow2(shift + s) == b * p);
    lemma_half_even_scaled(x, b, p);
    assert(v / 1 == v);
    let h = half_even(x, b);
    assert(1 * (b * p) == b * p);
    assert(h * (b * p) == h * b * p) by (nonlinear_arith);
    lemma_whole_of(h * b, k);
}

/// A whole number below 2^53 is a binary64 number.
pub proof fn lemma_nearest_whole(n: nat)
    requires
        0 < n < pow2(53),
    ensures
        nearest(n * one(), 1) == n * one(),
{
    let b = bits(n);
    lemma_bits(n);
    lemma_bits_below(n, 53);
    let k = (53 - b) as nat;
    let s = (1074 - k) as nat;
    lemma_pow2_adds(k, s);
    lemma_pow2_adds((b - 1) as nat, k);
    lemma_pow2_adds(b, k);
    let x = n * pow2(k);
    lemma_pow2_pos(k);
    assert(pow2((b - 1) as nat) * pow2(k) <= x < pow2(b) * pow2(k)) by (nonlinear_arith)
        requires
            pow2((b - 1) as nat) <= n < pow2(b),
            x == n * pow2(k),
            pow2(k) > 0,
    ;
    assert(n * one() == x * pow2(s)) by (nonlinear_arith)
        requires
            x == n * pow2(k),
            one() == pow2(k) * pow2(s),
    ;
    assert((n * one()) * 1 == 1 * ((x * 1 + 0) * pow2(s)));
    lemma_nearest_at(n * one(), 1, x, 0, 1, s);
    assert(half_even(x, 1) == x);
}

/// A tenth of `w`, rounded, times a thousand, rounded, is a hundred times `w`, wherever that
/// has ten more binary digits than the whole part of the tenth.
pub proof fn lemma_tenth_times_thousand(w: nat)
    requires
        10 <= w < 10_000,
        bits(100 * w) == bits(w / 10) + 10,
    ensures
        nearest(w * one(), 10) < 1000 * one(),
        whole(nearest(1000 * nearest(w * one(), 10), 1)) == 100 * w,
{
    let b = bits(w / 10);
    let n = 100 * w;
    lemma_bits(w / 10);
    lemma_bits(n);
    lemma2_to64();
    lemma2_to64_rest();
    lemma_bits_below(w / 10, 10);
    let k = (53 - b) as nat;
    let s = (1074 - k) as nat;
    let p = pow2(k);
    lemma_pow2_pos(k);
    assert(p >= 1024) by {
        if k > 10 {
            lemma_pow2_strictly_increases(10, k);
        }
    }
    lemma_pow2_adds((b - 1) as nat, k);
    lemma_pow2_adds(b, k);
    lemma_pow2_adds(k, s);
    // the tenth, with 53 binary digits
    let x = w * p;
    let acc = x / 10;
    let rest = x % 10;
    let lo = pow2((b - 1) as nat);
    let hi = pow2(b);
    assert(10 * lo <= w);
    assert(w < 10 * hi);
    assert(10 * (lo * p) <= x) by (nonlinear_arith)
        requires
            10 * lo <= w,
            x == w * p,
    ;
    assert(x < 10 * (hi * p)) by (nonlinear_arith)
        requires
            w < 10 * hi,
            x == w * p,
            p > 0,
    ;
    assert(pow2(52) <= acc < pow2(53));
    assert((w * one()) * 10 == 10 * ((acc * 10 + rest) * pow2(s))) by (nonlinear_arith)
        requires
            acc * 10 + rest == w * p,
            one() == p * pow2(s),
    ;
    lemma_nearest_at(w * one(), 10, acc, rest, 10, s);
    let m = half_even(x, 10);
    lemma_half_even(x, 10);
    assert(acc * 10 + rest == x);
    assert(nearest(w * one(), 10) == m * pow2(s));
    lemma_whole_of(m, k);
    assert(x <= 9999 * p) by (nonlinear_arith)
        requires
            x == w * p,
            w <= 9999,
    ;
    assert(m < 1000 * p);
    assert(!(m * pow2(s) >= 1000 * one()));
    // the thousandfold, with ten binary digits more than 53
    let np = n * p;
    assert(np == 100 * x) by (nonlinear_arith)
        requires
            np == n * p,
            n == 100 * w,
            x == w * p,
    ;
    assert(1000 * m <= np + 500 && np <= 1000 * m + 500);
    lemma_pow2_adds((b + 9) as nat, k);
    lemma_pow2_adds((b + 10) as nat, k);
    let nlo = pow2((b + 9) as nat);
    let nhi = pow2((b + 10) as nat);
    assert(nlo + 1 <= n && n + 1 <= nhi) by {
        lemma_hundred_no_power(w, (b + 9) as nat);
    }
    assert(nlo * p + p <= np) by (nonlinear_arith)
        requires
            nlo + 1 <= n,
            np == n * p,
    ;
    assert(np + p <= nhi * p) by (nonlinear_arith)
        requires
            n + 1 <= nhi,
            np == n * p,
    ;
    assert(pow2(62) <= 1000 * m < pow2(63));
    lemma_thousandfold(m, k, 10);
    let h = half_even(1000 * m, 1024);
    lemma_half_even(1000 * m, 1024);
    let g = (k - 10) as nat;
    lemma_pow2_adds(10, g);
    let big = n * pow2(g);
    assert(np == big * 1024) by (nonlinear_arith)
        requires
            np == n * p,
            p == 1024 * pow2(g),
            big == n * pow2(g),
    ;
    assert(h == big);
    lemma_fundamental_div_mod_converse(np as int, p as int, n as int, 0);
}

/// No multiple of a hundred is a power of two.
proof fn lemma_hundred_no_power(w: nat, e: nat)
    ensures
        100 * w != pow2(e),
    decreases e,
{
    lemma2_to64();
    if e >= 2 {
        // 25 * w would be a power of two
        lemma_pow2_unfold(e);
        lemma_pow2_unfold((e - 1) as nat);
        lemma_five_no_power(5 * w, (e - 2) as nat);
    }
}

/// No multiple of five is a power of two.
proof fn lemma_five_no_power(w: nat, e: nat)
    ensures
        5 * w != pow2(e),
    decreases e,
{
    lemma2_to64();
    if e >= 1 {
        lemma_pow2_unfold(e);
        if w % 2 == 0 {
            lemma_five_no_power(w / 2, (e - 1) as nat);
        }
    }
}

// ---------------------------------------------------------------------------
// Rounding keeps order
// ---------------------------------------------------------------------------

/// A quotient that is not below a number with few enough binary digits is not rounded below it.
pub proof fn lemma_nearest_at_least(num: nat, den: nat, c: nat, e: nat)
    requires
        den > 0,
        num / den < pow2(e + 53),
        c * pow2(e) * den <= num,
    ensures
        c * pow2(e) <= nearest(num, den),
{
    let t = last_place(num / den);
    lemma_bits_below(num / den, e + 53);
    let p = pow2(t);
    let d = pow2((e - t) as nat);
    lemma_pow2_pos(t);
    lemma_pow2_adds((e - t) as nat, t);
    let b = den * p;
    assert(b > 0) by (nonlinear_arith)
        requires
            b == den * p,
            den > 0,
            p > 0,
    ;
    let x = c * d;
    assert(x * b == c * pow2(e) * den) by (nonlinear_arith)
        requires
            x == c * d,
            b == den * p,
            pow2(e) == d * p,
    ;
    let q = num / b;
    lemma_fundamental_div_mod(num as int, b as int);
    lemma_mod_bound(num as int, b as int);
    assert(q >= x) by (nonlinear_arith)
        requires
            x * b <= num,
            num == b * q + num % b,
            0 <= num % b < b,
            b > 0,
    ;
    lemma_half_even(num, b);
    let h = half_even(num, b);
    assert(x * p <= h * p) by (nonlinear_arith)
        requires
            x <= h,
            p > 0,
    ;
    assert(x * p == c * pow2(e)) by (nonlinear_arith)
        requires
            x == c * d,
            pow2(e) == d * p,
    ;
}

/// A quotient that is not above a number with few enough binary digits is not rounded above it.
pub proof fn lemma_nearest_at_most(num: nat, den: nat, c: nat, e: nat)
    requires
        den > 0,
        num / den < pow2(e + 53),
        num <= c * pow2(e) * den,
    ensures
        nearest(num, den) <= c * pow2(e),
{
    let t = last_place(num / den);
    lemma_bits_below(num / den, e + 53);
    let p = pow2(t);
    let d = pow2((e - t) as nat);
    lemma_pow2_pos(t);
    lemma_pow2_adds((e - t) as nat, t);
    let b = den * p;
    assert(b > 0) by (nonlinear_arith)
        requires
            b == den * p,
            den > 0,
            p > 0,
    ;
    let x = c * d;
    assert(x * b == c * pow2(e) * den) by (nonlinear_arith)
        requires
            x == c * d,
            b == den * p,
            pow2(e) == d * p,
    ;
    let q = num / b;
    let r = num % b;
    lemma_fundamental_div_mod(num as int, b as int);
    lemma_mod_bound(num as int, b as int);
    assert(q <= x && (q == x ==> r == 0)) by (nonlinear_arith)
        requires
            num <= x * b,
            num == b * q + r,
            0 <= r < b,
            b > 0,
    ;
    lemma_half_even(num, b);
    let h = half_even(num, b);
    assert(h <= x);
    assert(h * p <= x * p) by (nonlinear_arith)
        requires
            h <= x,
            p > 0,
    ;
    assert(x * p == c * pow2(e)) by (nonlinear_arith)
        requires
            x == c * d,
            pow2(e) == d * p,
    ;
}

/// How far a quotient is from what it is rounded to.
pub proof fn lemma_nearest_error(num: nat, den: nat, e: nat)
    requires
        den > 0,
        num / den < pow2(e + 53),
    ensures
        nearest(num, den) * den <= num + den * pow2(e),
        num <= nearest(num, den) * den + den * pow2(e),
{
    let t = last_place(num / den);
    lemma_bits_below(num / den, e + 53);
    let p = pow2(t);
    lemma_pow2_pos(t);
    if t < e {
        lemma_pow2_strictly_increases(t, e);
    }
    let b = den * p;
    assert(0 < b <= den * pow2(e)) by (nonlinear_arith)
        requires
            b == den * p,
            den > 0,
            0 < p <= pow2(e),
    ;
    lemma_half_even(num, b);
    let h = half_even(num, b);
    assert(h * p * den == h * b) by (nonlinear_arith)
        requires
            b == den * p,
    ;
    assert(2 * h * b == 2 * (h * b)) by (nonlinear_arith);
}

/// A sixteenth of one, in units.
proof fn lemma_sixteenth()
    ensures
        one() == 16 * pow2(1070),
        pow2(1123) == pow2(49) * one(),
        pow2(1070) > 0,
        pow2(49) == 0x2_0000_0000_0000,
{
    lemma2_to64();
    lemma2_to64_rest();
    lemma_pow2_adds(4, 1070);
    lemma_pow2_adds(49, 1074);
    lemma_pow2_pos(1070);
}

/// What lies between a whole number and nine tenths above it is rounded to something that has
/// this whole number as its whole part.
pub proof fn lemma_nearest_keeps_whole(num: nat, den: nat, k: nat)
    requires
        den > 0,
        k < 0x100_0000_0000,
        k * one() * den <= num,
        10 * num <= (10 * k + 9) * one() * den,
    ensures
        k * one() <= nearest(num, den),
        16 * nearest(num, den) <= (16 * k + 15) * one(),
        whole(nearest(num, den)) == k,
{
    lemma_sixteenth();
    let s = pow2(1070);
    let o = one();
    let c = 16 * k;
    let d = 16 * k + 15;
    assert(num < pow2(49) * o * den) by (nonlinear_arith)
        requires
            10 * num <= (10 * k + 9) * o * den,
            k < 0x100_0000_0000,
            pow2(49) == 0x2_0000_0000_0000,
            o > 0,
            den > 0,
    ;
    lemma_div_below(num, den, pow2(49) * o);
    assert(c * s * den <= num) by (nonlinear_arith)
        requires
            k * o * den <= num,
            c == 16 * k,
            o == 16 * s,
    ;
    assert(num <= d * s * den) by (nonlinear_arith)
        requires
            10 * num <= (10 * k + 9) * o * den,
            d == 16 * k + 15,
            o == 16 * s,
    ;
    lemma_nearest_at_least(num, den, c, 1070);
    lemma_nearest_at_most(num, den, d, 1070);
    let n = nearest(num, den);
    assert(c * s == k * o) by (nonlinear_arith)
        requires
            c == 16 * k,
            o == 16 * s,
    ;
    assert(16 * (d * s) == (16 * k + 15) * o) by (nonlinear_arith)
        requires
            d == 16 * k + 15,
            o == 16 * s,
    ;
    assert(k * o <= n < k * o + o) by (nonlinear_arith)
        requires
            k * o <= n,
            16 * n <= (16 * k + 15) * o,
            o > 0,
    ;
    lemma_fundamental_div_mod_converse(n as int, o as int, k as int, n - k * o);
}

/// A quotient below a bound.
pub proof fn lemma_div_below(num: nat, den: nat, bound: nat)
    requires
        den > 0,
        num < bound * den,
    ensures
        num / den < bound,
{
    lemma_fundamental_div_mod(num as int, den as int);
    lemma_mod_bound(num as int, den as int);
    assert(num / den < bound) by (nonlinear_arith)
        requires
            num < bound * den,
            num == den * (num / den) + num % den,
            num % den >= 0,
            den > 0,
    ;
}

/// A common factor does not matter.
proof fn lemma_cancel(a: int, b: int, c: nat)
    requires
        c > 0,
        a * c <= b * c,
    ensures
        a <= b,
{
    assert(a <= b) by (nonlinear_arith)
        requires
            c > 0,
            a * c <= b * c,
    ;
}

/// A thousandth part of what lies between a whole number and nine tenths above it, rounded,
/// times a thousand, rounded, has this whole number or the one before it as its whole part.
pub proof fn lemma_thousandth_times_thousand(num: nat, den: nat, k: nat)
    requires
        den > 0,
        0 < k < 1_000_000,
        k * one() * den <= 1000 * num,
        10_000 * num <= (10 * k + 9) * one() * den,
    ensures
        k - 1 <= whole(nearest(1000 * nearest(num, den), 1)) <= k,
{
    lemma_sixteenth();
    let o = one();
    let s = pow2(1070);
    let t = pow2(1044);
    lemma_pow2_pos(1044);
    lemma_pow2_adds(30, 1044);
    lemma_pow2_adds(53, 1044);
    lemma_pow2_adds(23, 1074);
    lemma2_to64();
    lemma2_to64_rest();
    assert(o == 0x4000_0000 * t);
    assert(pow2(1097) == 0x80_0000 * o);
    assert(num < (0x80_0000 * o) * den) by (nonlinear_arith)
        requires
            10_000 * num <= (10 * k + 9) * o * den,
            k < 1_000_000,
            o > 0,
            den > 0,
    ;
    lemma_div_below(num, den, 0x80_0000 * o);
    lemma_nearest_error(num, den, 1044);
    let u = nearest(num, den);
    let v = 1000 * u;
    let ud = u * den;
    let td = den * t;
    let od = o * den;
    let kod = k * od;
    assert(od == 0x4000_0000 * td) by (nonlinear_arith)
        requires
            od == o * den,
            td == den * t,
            o == 0x4000_0000 * t,
    ;
    assert(k * o * den == kod) by (nonlinear_arith)
        requires
            kod == k * od,
            od == o * den,
    ;
    assert((10 * k + 9) * o * den == 10 * kod + 9 * od) by (nonlinear_arith)
        requires
            kod == k * od,
            od == o * den,
    ;
    assert(td >= 0) by (nonlinear_arith)
        requires
            td == den * t,
            den > 0,
            t > 0,
    ;
    assert(kod - od <= 1000 * ud);
    assert(16 * (1000 * ud) <= 16 * kod + 15 * od);
    assert(v * den == 1000 * ud) by (nonlinear_arith)
        requires
            v == 1000 * u,
            ud == u * den,
    ;
    assert(((k - 1) * o) * den == kod - od) by (nonlinear_arith)
        requires
            kod == k * od,
            od == o * den,
    ;
    assert(((16 * k + 15) * o) * den == 16 * kod + 15 * od) by (nonlinear_arith)
        requires
            kod == k * od,
            od == o * den,
    ;
    lemma_cancel((k - 1) * o, v as int, den);
    assert((16 * v) * den == 16 * (v * den)) by (nonlinear_arith);
    lemma_cancel((16 * v) as int, ((16 * k + 15) * o) as int, den);
    let c = (16 * (k - 1)) as nat;
    let d = (16 * k + 15) as nat;
    assert(c * s <= v && v <= d * s) by (nonlinear_arith)
        requires
            (k - 1) * o <= v,
            16 * v <= (16 * k + 15) * o,
            c == 16 * (k - 1),
            d == 16 * k + 15,
            o == 16 * s,
    ;
    assert(c * s * 1 == c * s && d * s * 1 == d * s);
    assert(v / 1 == v);
    assert(v < pow2(49) * o) by (nonlinear_arith)
        requires
            16 * v <= (16 * k + 15) * o,
            k < 1_000_000,
            pow2(49) == 0x2_0000_0000_0000,
            o > 0,
    ;
    lemma_nearest_at_least(v, 1, c, 1070);
    lemma_nearest_at_most(v, 1, d, 1070);
    let n = nearest(v, 1);
    assert((k - 1) * o <= n < k * o + o) by (nonlinear_arith)
        requires
            c * s <= n <= d * s,
            c == 16 * (k - 1),
            d == 16 * k + 15,
            o == 16 * s,
            s > 0,
    ;
    if n < k * o {
        assert(n == (k - 1) * o + (n - (k - 1) * o));
        assert(n - (k - 1) * o < o) by (nonlinear_arith)
            requires
                n < k * o,
        ;
        lemma_fundamental_div_mod_converse(n as int, o as int, k - 1, n - (k - 1) * o);
    } else {
        lemma_fundamental_div_mod_converse(n as int, o as int, k as int, n - k * o);
    }
}

/// What is at least a ten-thousandth below a thousand is not rounded up to it.
pub proof fn lemma_nearest_below_thousand(num: nat, den: nat)
    requires
        den > 0,
        10_000 * num <= 9_999_999 * one() * den,
    ensures
        nearest(num, den) < 1000 * one(),
{
    let o = one();
    let s = pow2(1060);
    lemma2_to64();
    lemma2_to64_rest();
    lemma_pow2_pos(1060);
    lemma_pow2_adds(14, 1060);
    lemma_pow2_adds(39, 1074);
    assert(o == 16_384 * s);
    let od = o * den;
    assert(9_999_999 * o * den == 9_999_999 * od) by (nonlinear_arith)
        requires
            od == o * den,
    ;
    let c = 16_383_999nat;
    assert(od == 16_384 * (s * den)) by (nonlinear_arith)
        requires
            od == o * den,
            o == 16_384 * s,
    ;
    let sd = s * den;
    assert(c * s * den == c * sd) by (nonlinear_arith)
        requires
            sd == s * den,
    ;
    assert(num <= c * sd);
    assert(sd > 0) by (nonlinear_arith)
        requires
            sd == s * den,
            s > 0,
            den > 0,
    ;
    assert((pow2(39) * o) * den == pow2(39) * od) by (nonlinear_arith)
        requires
            od == o * den,
    ;
    assert(num < pow2(39) * od) by (nonlinear_arith)
        requires
            10_000 * num <= 9_999_999 * od,
            pow2(39) == 0x80_0000_0000,
            od > 0,
    ;
    lemma_div_below(num, den, pow2(39) * o);
    lemma_nearest_at_most(num, den, c, 1060);
}

} // verus!
