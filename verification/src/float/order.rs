//! How the operations order their results: an exact result between two numbers of the format is
//! rounded to something between them, and one that is a number of the format is kept.
//!
//! Every finite number of a format is a whole multiple of its least positive one. Counted in
//! those units, the statements here are about integers.
use super::encoding::{
    floor_log2, least, magnitude_of, nearest_even, power, product, quotient, reaches_power, rounded,
    rounded_magnitude, signed, spacing, sum, Format, Number,
};
use super::rounding::{lemma_floor_log2, lemma_power_adds, lemma_power_positive};
use vstd::arithmetic::div_mod::{lemma_fundamental_div_mod, lemma_fundamental_div_mod_converse};
use vstd::arithmetic::power2::{
    lemma2_to64, lemma2_to64_rest, lemma_pow2_adds, lemma_pow2_pos, lemma_pow2_strictly_increases,
    lemma_pow2_unfold, pow2,
};
use vstd::prelude::*;

verus! {

/// Whether an encoding stands for a finite number.
pub open spec fn finite(format: Format, bits: int) -> bool {
    format.holds(bits) && format.decode(bits) is Finite
}

/// The number that an encoding stands for, in units of the least positive number.
pub open spec fn units(format: Format, bits: int) -> int {
    match format.decode(bits) {
        Number::Finite { negative, mantissa, exponent } => signed(
            negative,
            mantissa * pow2((exponent - format.least_exponent()) as nat),
        ),
        _ => 0,
    }
}

/// The distance from a non-negative finite number to the next one, in units of the least positive
/// number.
pub open spec fn gap(format: Format, r: int) -> nat {
    let field = r / format.hidden();
    if field == 0 { pow2(0) } else { pow2((field - 1) as nat) }
}

/// One, in units of the least positive number.
pub open spec fn one(format: Format) -> nat {
    pow2((-format.least_exponent()) as nat)
}

proof fn lemma_above_index(n: nat)
    ensures
        pow2(n) > n,
    decreases n,
{
    lemma2_to64();
    if n > 0 {
        lemma_above_index((n - 1) as nat);
        lemma_pow2_unfold(n);
    }
}

proof fn lemma_log_between(num: nat, den: nat, low: int, high: int) -> (l: int)
    requires
        low < high,
        reaches_power(num, den, low),
        !reaches_power(num, den, high),
    ensures
        reaches_power(num, den, l),
        !reaches_power(num, den, l + 1),
    decreases high - low,
{
    if low + 1 == high {
        low
    } else if reaches_power(num, den, low + 1) {
        lemma_log_between(num, den, low + 1, high)
    } else {
        low
    }
}

/// Every positive fraction lies between two powers of two.
pub proof fn lemma_log_exists(num: nat, den: nat)
    requires
        num > 0,
        den > 0,
    ensures
        reaches_power(num, den, floor_log2(num, den)),
        !reaches_power(num, den, floor_log2(num, den) + 1),
{
    lemma_above_index(num);
    lemma_above_index(den);
    lemma2_to64();
    let low = -(den as int);
    let high = num as int;
    assert(reaches_power(num, den, low)) by {
        assert(power(low) == 1);
        assert(power(-low) == pow2(den));
        assert(den <= num * pow2(den)) by (nonlinear_arith)
            requires
                num > 0,
                pow2(den) > den,
        ;
    }
    assert(!reaches_power(num, den, high)) by {
        assert(power(high) == pow2(num));
        assert(power(-high) == 1);
        assert(num < den * pow2(num)) by (nonlinear_arith)
            requires
                den > 0,
                pow2(num) > num,
        ;
    }
    let l = lemma_log_between(num, den, low, high);
    lemma_floor_log2(num, den, l);
}

proof fn lemma_nearest_even_between(num: nat, den: nat, m: nat)
    requires
        den > 0,
    ensures
        num <= m * den ==> nearest_even(num, den) <= m,
        num >= m * den ==> nearest_even(num, den) >= m,
        2 * num < (2 * m + 1) * den ==> nearest_even(num, den) <= m,
        2 * num > (2 * m + 1) * den ==> nearest_even(num, den) > m,
        2 * num == (2 * m + 1) * den ==> nearest_even(num, den) == m + m % 2,
{
    let q = (num / den) as int;
    let r = (num % den) as int;
    lemma_fundamental_div_mod(num as int, den as int);
    let d = den as int;
    assert(num == d * q + r && 0 <= r < d);
    if num <= m * den {
        assert(q <= m && (q == m ==> r == 0)) by (nonlinear_arith)
            requires
                d * q + r <= m * d,
                0 <= r < d,
        ;
    }
    if num >= m * den {
        assert(q >= m) by (nonlinear_arith)
            requires
                d * q + r >= m * d,
                0 <= r < d,
        ;
    }
    if 2 * num < (2 * m + 1) * den {
        assert(q <= m && (q == m ==> 2 * r < d)) by (nonlinear_arith)
            requires
                2 * (d * q + r) < (2 * m + 1) * d,
                0 <= r < d,
        ;
    }
    if 2 * num > (2 * m + 1) * den {
        assert(q >= m && (q == m ==> 2 * r > d)) by (nonlinear_arith)
            requires
                2 * (d * q + r) > (2 * m + 1) * d,
                0 <= r < d,
        ;
    }
    if 2 * num == (2 * m + 1) * den {
        assert(q == m && 2 * r == d) by (nonlinear_arith)
            requires
                2 * (d * q + r) == (2 * m + 1) * d,
                0 <= r < d,
        ;
    }
}

/// The fields of a non-negative finite number.
pub proof fn lemma_fields(format: Format, r: int) -> (res: (nat, nat))
    requires
        0 <= r < format.infinity(),
    ensures
        finite(format, r),
        res.0 < 2 * format.hidden(),
        res.1 > 0 ==> res.0 >= format.hidden(),
        r == res.1 * format.hidden() + res.0,
        units(format, r) == res.0 * pow2(res.1),
        gap(format, r) == pow2(res.1),
{
    let field = r / format.hidden();
    let fraction = r % format.hidden();
    lemma_fundamental_div_mod(r, format.hidden());
    lemma2_to64();
    if field == 0 {
        (fraction as nat, 0)
    } else {
        ((format.hidden() + fraction) as nat, (field - 1) as nat)
    }
}

/// Between encodings of non-negative finite numbers the order is that of the numbers.
pub proof fn lemma_bits_order(format: Format, a: int, b: int)
    requires
        0 <= a < format.infinity(),
        0 <= b < format.infinity(),
    ensures
        finite(format, a),
        finite(format, b),
        0 <= units(format, a),
        a <= b <==> units(format, a) <= units(format, b),
{
    if a <= b {
        lemma_bits_monotone(format, a, b);
    }
    if b <= a {
        lemma_bits_monotone(format, b, a);
    }
    if a < b {
        lemma_bits_strict(format, a, b);
    }
    if b < a {
        lemma_bits_strict(format, b, a);
    }
}

proof fn lemma_bits_monotone(format: Format, a: int, b: int)
    requires
        0 <= a <= b < format.infinity(),
    ensures
        finite(format, a),
        finite(format, b),
        0 <= units(format, a) <= units(format, b),
{
    let (ma, ea) = lemma_fields(format, a);
    let (mb, eb) = lemma_fields(format, b);
    let h = format.hidden();
    lemma_pow2_pos(ea);
    lemma_pow2_pos(eb);
    assert(ma * pow2(ea) >= 0) by (nonlinear_arith)
        requires
            pow2(ea) > 0,
    ;
    if ea == eb {
        assert(ma * pow2(ea) <= mb * pow2(eb)) by (nonlinear_arith)
            requires
                ma <= mb,
                ea == eb,
                pow2(ea) > 0,
        ;
    } else {
        assert(ea < eb) by (nonlinear_arith)
            requires
                ea != eb,
                ea * h + ma <= eb * h + mb,
                mb < 2 * h,
                ea > 0 ==> ma >= h,
                h > 0,
        ;
        lemma_pow2_step(ea, eb);
        assert(ma * pow2(ea) <= mb * pow2(eb)) by (nonlinear_arith)
            requires
                ma < 2 * h,
                mb >= h,
                2 * pow2(ea) <= pow2(eb),
                pow2(ea) > 0,
        ;
    }
}

proof fn lemma_bits_strict(format: Format, a: int, b: int)
    requires
        0 <= a < b < format.infinity(),
    ensures
        units(format, a) < units(format, b),
{
    let (ma, ea) = lemma_fields(format, a);
    let (mb, eb) = lemma_fields(format, b);
    let h = format.hidden();
    lemma_pow2_pos(ea);
    lemma_pow2_pos(eb);
    if ea == eb {
        assert(ma * pow2(ea) < mb * pow2(eb)) by (nonlinear_arith)
            requires
                ma < mb,
                ea == eb,
                pow2(ea) > 0,
        ;
    } else {
        assert(ea < eb) by (nonlinear_arith)
            requires
                ea != eb,
                ea * h + ma <= eb * h + mb,
                mb < 2 * h,
                ea > 0 ==> ma >= h,
                h > 0,
        ;
        lemma_pow2_step(ea, eb);
        assert(ma * pow2(ea) < mb * pow2(eb)) by (nonlinear_arith)
            requires
                ma < 2 * h,
                mb >= h,
                2 * pow2(ea) <= pow2(eb),
                pow2(ea) > 0,
        ;
    }
}

/// A higher power of two is at least twice as large.
proof fn lemma_pow2_step(a: nat, b: nat)
    requires
        a < b,
    ensures
        2 * pow2(a) <= pow2(b),
{
    lemma_pow2_unfold(a + 1);
    if a + 1 < b {
        lemma_pow2_strictly_increases(a + 1, b);
    }
}

/// Moving a power of two from one side of a fraction to the other.
proof fn lemma_rescaled(num: int, den: int, x: int, y: int, limit: int)
    requires
        num >= 0,
        den > 0,
        y >= 0,
        limit == power(y),
    ensures
        num * power(-(x + y)) < den * power(x + y) ==> num * power(-x) < limit * (den * power(x)),
        num * power(-(x + y)) >= den * power(x + y) ==> num * power(-x) >= limit * (den * power(
            x,
        )),
{
    lemma_power_adds(x, y);
    lemma_power_positive(x);
    lemma_power_positive(-x);
    lemma_power_positive(y);
    lemma_power_positive(x + y);
    lemma_power_positive(-(x + y));
    assert(power(-y) == 1) by {
        lemma2_to64();
    }
    let (px, mx) = (power(x) as int, power(-x) as int);
    let (pz, mz) = (power(x + y) as int, power(-(x + y)) as int);
    let py = limit;
    assert(px * py * mz == mx * pz) by (nonlinear_arith)
        requires
            power(x) * power(y) * power(-(x + y)) == power(-x) * power(-y) * power(x + y),
            power(-y) == 1,
            px == power(x),
            mx == power(-x),
            py == power(y),
            pz == power(x + y),
            mz == power(-(x + y)),
    ;
    let left = num * mx;
    let right = py * (den * px);
    assert(left * pz == (num * mz) * (px * py)) by (nonlinear_arith)
        requires
            left == num * mx,
            px * py * mz == mx * pz,
    ;
    assert(right * pz == (den * pz) * (px * py)) by (nonlinear_arith)
        requires
            right == py * (den * px),
    ;
    let c = px * py;
    assert(c > 0) by (nonlinear_arith)
        requires
            c == px * py,
            px > 0,
            py > 0,
    ;
    if num * mz < den * pz {
        assert(left < right) by (nonlinear_arith)
            requires
                left * pz == (num * mz) * c,
                right * pz == (den * pz) * c,
                num * mz < den * pz,
                c > 0,
                pz > 0,
        ;
    }
    if num * mz >= den * pz {
        assert(left >= right) by (nonlinear_arith)
            requires
                left * pz == (num * mz) * c,
                right * pz == (den * pz) * c,
                num * mz >= den * pz,
                c > 0,
                pz > 0,
        ;
    }
}

proof fn lemma_reaches_below(num: nat, den: nat, k: int, l: int)
    requires
        k <= l,
        reaches_power(num, den, l),
    ensures
        reaches_power(num, den, k),
{
    super::rounding::lemma_power_monotone(k, l);
    assert(den * power(k) <= num * power(-k)) by (nonlinear_arith)
        requires
            power(k) <= power(l),
            power(-l) <= power(-k),
            den * power(l) <= num * power(-l),
    ;
}

/// An exact magnitude at or under a number of the format is not rounded above it, and one at or
/// over it is not rounded below it. Nor is one rounded above it that is over it by less than half
/// the distance to the next one. One that is over it by more is, and one that is over it by just
/// half goes to the even one of the two.
pub proof fn lemma_rounded_magnitude_order(format: Format, num: nat, den: nat, exp: int, r: int)
    requires
        den > 0,
        0 <= r < format.infinity(),
    ensures
        ({
            let n = num * power(exp - format.least_exponent());
            let d = den * power(format.least_exponent() - exp);
            let bits = rounded_magnitude(format, num, den, exp);
            &&& 0 <= bits <= format.infinity()
            &&& n <= units(format, r) * d ==> bits <= r
            &&& n >= units(format, r) * d ==> bits >= r
            &&& 2 * n < (2 * units(format, r) + gap(format, r)) * d ==> bits <= r
            &&& 2 * n > (2 * units(format, r) + gap(format, r)) * d ==> bits > r
            &&& 2 * n == (2 * units(format, r) + gap(format, r)) * d ==> bits == r + r % 2
        }),
{
    let low = format.least_exponent();
    let h = format.hidden();
    let fb = format.fraction_bits();
    let n = (num * power(exp - low)) as int;
    let d = (den * power(low - exp)) as int;
    let (mr, er) = lemma_fields(format, r);
    let u = units(format, r);
    lemma_power_positive(exp - low);
    lemma_power_positive(low - exp);
    lemma_pow2_pos(er);
    assert(d > 0) by (nonlinear_arith)
        requires
            d == den * power(low - exp),
            den > 0,
            power(low - exp) > 0,
    ;
    assert(u >= 0) by (nonlinear_arith)
        requires
            u == mr * pow2(er),
            pow2(er) > 0,
    ;
    if num == 0 {
        assert(n == 0) by (nonlinear_arith)
            requires
                n == num * power(exp - low),
                num == 0,
        ;
        assert(0 < (2 * u + pow2(er)) * d) by (nonlinear_arith)
            requires
                u >= 0,
                pow2(er) > 0,
                d > 0,
        ;
        if u * d <= 0 {
            assert(u == 0) by (nonlinear_arith)
                requires
                    u * d <= 0,
                    d > 0,
                    u >= 0,
            ;
            assert(mr == 0) by (nonlinear_arith)
                requires
                    mr * pow2(er) == 0,
                    pow2(er) > 0,
            ;
            assert(er == 0);
            assert(r == 0);
        }
    } else {
        let q = spacing(format, num, den, exp);
        let l = floor_log2(num, den);
        lemma_log_exists(num, den);
        let a = (num * power(exp - q)) as int;
        let b = (den * power(q - exp)) as int;
        let count = nearest_even(a as nat, b as nat);
        let s = q - low;
        let p = power(s) as int;
        lemma_power_positive(s);
        lemma_power_positive(q - exp);
        lemma_power_positive(exp - q);
        assert(b > 0) by (nonlinear_arith)
            requires
                b == den * power(q - exp),
                den > 0,
                power(q - exp) > 0,
        ;
        // The exact magnitude in units is `p` times `a / b`.
        assert(n * b == a * (d * p)) by {
            lemma_power_adds(exp - q, s);
            assert(power(-s) == 1) by {
                lemma2_to64();
            }
            let e1 = exp - q;
            assert(e1 + s == exp - low);
            let (x1, y1) = (power(e1) as int, power(-e1) as int);
            let (x2, y2) = (power(e1 + s) as int, power(-(e1 + s)) as int);
            assert(-e1 == q - exp && -(e1 + s) == low - exp);
            assert(x1 * p * y2 == y1 * x2) by (nonlinear_arith)
                requires
                    power(e1) * power(s) * power(-(e1 + s)) == power(-e1) * power(-s) * power(
                        e1 + s,
                    ),
                    power(-s) == 1,
                    x1 == power(e1),
                    y1 == power(-e1),
                    x2 == power(e1 + s),
                    y2 == power(-(e1 + s)),
                    p == power(s),
            ;
            let (m, k) = (num as int, den as int);
            assert((m * x2) * (k * y1) == (m * x1) * ((k * y2) * p)) by (nonlinear_arith)
                requires
                    x1 * p * y2 == y1 * x2,
            ;
        }
        assert(h == power(fb) && 2 * h == power(fb + 1)) by {
            lemma2_to64();
            lemma2_to64_rest();
        }
        // Fewer than `2 * h` spacings, and at least `h` where there are smaller ones.
        assert(a < (2 * h) * b) by {
            let m = (q - exp) + (fb + 1);
            assert(!reaches_power(num, den, m)) by {
                if reaches_power(num, den, m) {
                    lemma_reaches_below(num, den, l + 1, m);
                }
            }
            lemma_rescaled(num as int, den as int, q - exp, fb + 1, 2 * h);
            assert(-(q - exp) == exp - q);
        }
        if q > low {
            assert(a >= h * b) by {
                let m = (q - exp) + fb;
                assert(m == l);
                lemma_rescaled(num as int, den as int, q - exp, fb, h);
                assert(-(q - exp) == exp - q);
            }
        }
        lemma_nearest_even_between(a as nat, b as nat, (2 * h) as nat);
        lemma_nearest_even_between(a as nat, b as nat, h as nat);
        lemma_nearest_even_between(a as nat, b as nat, mr);
        let bits = s * h + count;
        assert(rounded_magnitude(format, num, den, exp) == if bits < format.infinity() {
            bits
        } else {
            format.infinity()
        });
        assert(bits >= 0) by (nonlinear_arith)
            requires
                bits == s * h + count,
                s >= 0,
                h > 0,
        ;
        let dp = d * p;
        assert(dp > 0) by (nonlinear_arith)
            requires
                dp == d * p,
                d > 0,
                p > 0,
        ;
        if er == s {
            assert(u == mr * p);
            if n <= u * d {
                assert(a <= mr * b) by (nonlinear_arith)
                    requires
                        n * b == a * dp,
                        n <= (mr * p) * d,
                        dp == d * p,
                        dp > 0,
                        b > 0,
                ;
            }
            if n >= u * d {
                assert(a >= mr * b) by (nonlinear_arith)
                    requires
                        n * b == a * dp,
                        n >= (mr * p) * d,
                        dp == d * p,
                        dp > 0,
                        b > 0,
                ;
            }
            if 2 * n < (2 * u + pow2(er)) * d {
                assert(2 * a < (2 * mr + 1) * b) by (nonlinear_arith)
                    requires
                        n * b == a * dp,
                        2 * n < (2 * (mr * p) + p) * d,
                        dp == d * p,
                        dp > 0,
                        b > 0,
                ;
            }
            if 2 * n > (2 * u + pow2(er)) * d {
                assert(2 * a > (2 * mr + 1) * b) by (nonlinear_arith)
                    requires
                        n * b == a * dp,
                        2 * n > (2 * (mr * p) + p) * d,
                        dp == d * p,
                        dp > 0,
                        b > 0,
                ;
            }
            if 2 * n == (2 * u + pow2(er)) * d {
                assert(2 * a == (2 * mr + 1) * b) by (nonlinear_arith)
                    requires
                        n * b == a * dp,
                        2 * n == (2 * (mr * p) + p) * d,
                        dp == d * p,
                        dp > 0,
                        b > 0,
                ;
                lemma_even_multiple(s, h, mr as int);
            }
        } else if er < s {
            lemma_pow2_step(er, s as nat);
            assert(u < h * p) by (nonlinear_arith)
                requires
                    u == mr * pow2(er),
                    mr < 2 * h,
                    2 * pow2(er) <= p,
                    pow2(er) > 0,
            ;
            assert(n >= h * dp) by (nonlinear_arith)
                requires
                    n * b == a * dp,
                    a >= h * b,
                    dp > 0,
                    b > 0,
            ;
            assert(n > u * d) by (nonlinear_arith)
                requires
                    n >= h * dp,
                    dp == d * p,
                    u < h * p,
                    d > 0,
            ;
            assert(2 * u + pow2(er) < 2 * (h * p)) by (nonlinear_arith)
                requires
                    u == mr * pow2(er),
                    mr + 1 <= 2 * h,
                    2 * pow2(er) <= p,
                    pow2(er) > 0,
            ;
            assert(2 * n > (2 * u + pow2(er)) * d) by (nonlinear_arith)
                requires
                    n >= h * dp,
                    dp == d * p,
                    2 * u + pow2(er) < 2 * (h * p),
                    d > 0,
            ;
            assert(r < bits) by (nonlinear_arith)
                requires
                    r == er * h + mr,
                    mr < 2 * h,
                    er < s,
                    bits == s * h + count,
                    count >= h,
                    h > 0,
            ;
        } else {
            lemma_pow2_step(s as nat, er);
            assert(u >= (2 * h) * p) by (nonlinear_arith)
                requires
                    u == mr * pow2(er),
                    mr >= h,
                    2 * p <= pow2(er),
                    p > 0,
                    h > 0,
            ;
            assert(n < (2 * h) * dp) by (nonlinear_arith)
                requires
                    n * b == a * dp,
                    a < (2 * h) * b,
                    dp > 0,
                    b > 0,
            ;
            assert(n < u * d) by (nonlinear_arith)
                requires
                    n < (2 * h) * dp,
                    dp == d * p,
                    u >= (2 * h) * p,
                    d > 0,
            ;
            assert(2 * n < (2 * u + pow2(er)) * d) by (nonlinear_arith)
                requires
                    n < u * d,
                    pow2(er) > 0,
                    d > 0,
            ;
            assert(bits <= r) by (nonlinear_arith)
                requires
                    r == er * h + mr,
                    mr >= h,
                    er > s,
                    bits == s * h + count,
                    count <= 2 * h,
                    h > 0,
            ;
        }
    }
}

/// A whole number of spacings is as even as the count over it.
proof fn lemma_even_multiple(s: int, h: int, m: int)
    requires
        h % 2 == 0,
    ensures
        (s * h + m) % 2 == m % 2,
{
    let g = h / 2;
    assert(s * h == 2 * (s * g)) by (nonlinear_arith)
        requires
            h == 2 * g,
    ;
}

/// Rounding keeps the order of exact magnitudes.
pub proof fn lemma_rounded_monotone(
    format: Format,
    n1: nat,
    d1: nat,
    e1: int,
    n2: nat,
    d2: nat,
    e2: int,
)
    requires
        d1 > 0,
        d2 > 0,
        (n1 * power(e1 - format.least_exponent())) * (d2 * power(format.least_exponent() - e2)) <= (
        n2 * power(e2 - format.least_exponent())) * (d1 * power(format.least_exponent() - e1)),
    ensures
        rounded_magnitude(format, n1, d1, e1) <= rounded_magnitude(format, n2, d2, e2),
{
    let low = format.least_exponent();
    let r = rounded_magnitude(format, n2, d2, e2);
    lemma_rounded_magnitude_order(format, n1, d1, e1, 0);
    lemma_rounded_magnitude_order(format, n2, d2, e2, 0);
    if r < format.infinity() {
        lemma_rounded_magnitude_order(format, n1, d1, e1, r);
        lemma_rounded_magnitude_order(format, n2, d2, e2, r);
        let (a, b) = ((n1 * power(e1 - low)) as int, (d1 * power(low - e1)) as int);
        let (c, d) = ((n2 * power(e2 - low)) as int, (d2 * power(low - e2)) as int);
        let m = (2 * units(format, r) + gap(format, r)) as int;
        lemma_power_positive(low - e1);
        lemma_power_positive(low - e2);
        assert(b > 0 && d > 0) by (nonlinear_arith)
            requires
                b == d1 * power(low - e1),
                d == d2 * power(low - e2),
                d1 > 0,
                d2 > 0,
                power(low - e1) > 0,
                power(low - e2) > 0,
        ;
        if rounded_magnitude(format, n1, d1, e1) > r {
            assert(2 * a >= m * b && 2 * c <= m * d);
            assert(2 * a == m * b && 2 * c == m * d) by (nonlinear_arith)
                requires
                    a * d <= c * b,
                    2 * a >= m * b,
                    2 * c <= m * d,
                    b > 0,
                    d > 0,
            ;
        }
    }
}

/// The zero of either sign.
pub proof fn lemma_zero(format: Format)
    ensures
        finite(format, 0),
        units(format, 0) == 0,
        finite(format, format.sign()),
        units(format, format.sign()) == 0,
{
    let e = 0nat;
    assert(0 * pow2(e) == 0) by (nonlinear_arith);
}

/// What a finite encoding is made of.
pub proof fn lemma_parts(format: Format, a: int) -> (res: (bool, nat, int))
    requires
        finite(format, a),
    ensures
        format.decode(a) == (Number::Finite {
            negative: res.0,
            mantissa: res.1,
            exponent: res.2,
        }),
        res.0 == (a >= format.sign()),
        res.2 >= format.least_exponent(),
        units(format, a) == signed(res.0, res.1 * pow2((res.2 - format.least_exponent()) as nat)),
        0 <= (if res.0 { a - format.sign() } else { a }) < format.infinity(),
{
    match format.decode(a) {
        Number::Finite { negative, mantissa, exponent } => (negative, mantissa, exponent),
        _ => (false, 0, 0),
    }
}

/// The sign bit negates the number.
pub proof fn lemma_sign_bit(format: Format, m: int)
    requires
        0 <= m < format.infinity(),
    ensures
        finite(format, m),
        finite(format, m + format.sign()),
        units(format, m + format.sign()) == -units(format, m),
        units(format, m) >= 0,
{
    lemma_bits_order(format, m, m);
    assert(format.infinity() < format.sign());
}

/// An exact result between two finite numbers is rounded to a finite number between them. The
/// exact result is `n / d` units.
pub proof fn lemma_rounded_between(
    format: Format,
    negative: bool,
    num: nat,
    den: nat,
    exp: int,
    low: int,
    high: int,
)
    requires
        den > 0,
        finite(format, low),
        finite(format, high),
        ({
            let n = signed(negative, num * power(exp - format.least_exponent()));
            let d = den * power(format.least_exponent() - exp);
            units(format, low) * d <= n <= units(format, high) * d
        }),
    ensures
        finite(format, rounded(format, negative, num, den, exp)),
        units(format, low) <= units(format, rounded(format, negative, num, den, exp)) <= units(
            format,
            high,
        ),
{
    let n = (num * power(exp - format.least_exponent())) as int;
    let d = (den * power(format.least_exponent() - exp)) as int;
    lemma_power_positive(exp - format.least_exponent());
    lemma_power_positive(format.least_exponent() - exp);
    assert(d > 0) by (nonlinear_arith)
        requires
            d == den * power(format.least_exponent() - exp),
            den > 0,
            power(format.least_exponent() - exp) > 0,
    ;
    assert(n >= 0) by (nonlinear_arith)
        requires
            n == num * power(exp - format.least_exponent()),
    ;
    let bits = rounded_magnitude(format, num, den, exp);
    let (nl, _, _) = lemma_parts(format, low);
    let (nh, _, _) = lemma_parts(format, high);
    let ml = if nl { low - format.sign() } else { low };
    let mh = if nh { high - format.sign() } else { high };
    lemma_sign_bit(format, ml);
    lemma_sign_bit(format, mh);
    let ul = units(format, low);
    let uh = units(format, high);
    lemma_rounded_magnitude_order(format, num, den, exp, ml);
    lemma_rounded_magnitude_order(format, num, den, exp, mh);
    lemma_rounded_magnitude_order(format, num, den, exp, 0);
    lemma_zero(format);
    if !negative {
        assert(uh >= 0) by (nonlinear_arith)
            requires
                n <= uh * d,
                n >= 0,
                d > 0,
        ;
        assert(units(format, mh) == uh);
        assert(bits <= mh);
        lemma_bits_order(format, bits, mh);
        lemma_bits_order(format, ml, bits);
        if ul > 0 {
            assert(units(format, ml) == ul);
            assert(ml <= bits);
        }
    } else {
        assert(ul <= 0) by (nonlinear_arith)
            requires
                ul * d <= -n,
                n >= 0,
                d > 0,
        ;
        assert(units(format, ml) == -ul);
        assert((-ul) * d == -(ul * d)) by (nonlinear_arith);
        assert(bits <= ml);
        lemma_bits_order(format, bits, ml);
        lemma_sign_bit(format, bits);
        lemma_bits_order(format, mh, bits);
        if uh < 0 {
            assert(units(format, mh) == -uh);
            assert((-uh) * d == -(uh * d)) by (nonlinear_arith);
            assert(mh <= bits);
        }
    }
}

/// The terms of a sum in units.
pub proof fn lemma_term(format: Format, negative: bool, m: nat, ea: int, e: int)
    requires
        format.least_exponent() <= e <= ea,
    ensures
        (signed(negative, m) * power(ea - e)) * pow2((e - format.least_exponent()) as nat)
            == signed(negative, m * pow2((ea - format.least_exponent()) as nat)),
{
    let low = format.least_exponent();
    lemma_pow2_adds((ea - e) as nat, (e - low) as nat);
    let (x, y, z) = (pow2((ea - e) as nat), pow2((e - low) as nat), pow2((ea - low) as nat));
    assert(x * y == z);
    let s = signed(negative, m);
    assert((s * x) * y == s * z) by (nonlinear_arith)
        requires
            x * y == z,
    ;
    assert(s * z == signed(negative, m * z)) by (nonlinear_arith)
        requires
            s == (if negative { -(m as int) } else { m as int }),
            signed(negative, m * z) == (if negative { -((m * z) as int) } else { (m * z) as int }),
    ;
}

/// A sum is rounded to between the numbers that the exact sum is between.
pub proof fn lemma_sum_between(format: Format, a: int, b: int, low: int, high: int)
    requires
        finite(format, a),
        finite(format, b),
        finite(format, low),
        finite(format, high),
        units(format, low) <= units(format, a) + units(format, b) <= units(format, high),
    ensures
        finite(format, sum(format, a, b)),
        units(format, low) <= units(format, sum(format, a, b)) <= units(format, high),
{
    let (na, ma, ea) = lemma_parts(format, a);
    let (nb, mb, eb) = lemma_parts(format, b);
    let least_e = format.least_exponent();
    let e = least(ea, eb);
    let exact = signed(na, ma) * power(ea - e) + signed(nb, mb) * power(eb - e);
    lemma_term(format, na, ma, ea, e);
    lemma_term(format, nb, mb, eb, e);
    let p = pow2((e - least_e) as nat) as int;
    lemma_pow2_pos((e - least_e) as nat);
    assert(exact * p == units(format, a) + units(format, b)) by (nonlinear_arith)
        requires
            exact == signed(na, ma) * power(ea - e) + signed(nb, mb) * power(eb - e),
            (signed(na, ma) * power(ea - e)) * p == units(format, a),
            (signed(nb, mb) * power(eb - e)) * p == units(format, b),
    ;
    if exact == 0 {
        assert(exact * p == 0) by (nonlinear_arith)
            requires
                exact == 0,
        ;
        lemma_sign_bit(format, 0);
        lemma_zero(format);
    } else {
        let m = magnitude_of(exact);
        assert(power(least_e - e) == 1) by {
            lemma2_to64();
        }
        assert(power(e - least_e) == p);
        assert(signed(exact < 0, m * power(e - least_e)) == exact * p) by (nonlinear_arith)
            requires
                m == (if exact < 0 { -exact } else { exact }),
                power(e - least_e) == p,
                p > 0,
                signed(exact < 0, m * power(e - least_e)) == (if exact < 0 {
                    -((m * power(e - least_e)) as int)
                } else {
                    (m * power(e - least_e)) as int
                }),
        ;
        let d = 1nat * power(least_e - e);
        assert(d == 1);
        assert(units(format, low) * d == units(format, low));
        assert(units(format, high) * d == units(format, high));
        lemma_rounded_between(format, exact < 0, m, 1, e, low, high);
    }
}

/// A sum that exceeds a number by less than half the distance to the next one is not rounded
/// above it.
pub proof fn lemma_sum_below(format: Format, a: int, b: int, high: int)
    requires
        finite(format, a),
        finite(format, b),
        0 <= high < format.infinity(),
        0 <= 2 * (units(format, a) + units(format, b)) < 2 * units(format, high) + gap(
            format,
            high,
        ),
    ensures
        finite(format, sum(format, a, b)),
        0 <= units(format, sum(format, a, b)) <= units(format, high),
{
    let (na, ma, ea) = lemma_parts(format, a);
    let (nb, mb, eb) = lemma_parts(format, b);
    let least_e = format.least_exponent();
    let e = least(ea, eb);
    let exact = signed(na, ma) * power(ea - e) + signed(nb, mb) * power(eb - e);
    lemma_term(format, na, ma, ea, e);
    lemma_term(format, nb, mb, eb, e);
    let p = pow2((e - least_e) as nat) as int;
    lemma_pow2_pos((e - least_e) as nat);
    assert(exact * p == units(format, a) + units(format, b)) by (nonlinear_arith)
        requires
            exact == signed(na, ma) * power(ea - e) + signed(nb, mb) * power(eb - e),
            (signed(na, ma) * power(ea - e)) * p == units(format, a),
            (signed(nb, mb) * power(eb - e)) * p == units(format, b),
    ;
    assert(exact >= 0) by (nonlinear_arith)
        requires
            exact * p >= 0,
            p > 0,
    ;
    lemma_zero(format);
    lemma_bits_order(format, 0, high);
    if exact != 0 {
        let d = 1nat * power(least_e - e);
        assert(d == 1) by {
            lemma2_to64();
        }
        lemma_rounded_magnitude_order(format, exact as nat, 1, e, high);
        let bits = rounded_magnitude(format, exact as nat, 1, e);
        let n = exact as nat * power(e - least_e);
        assert(n == exact * p);
        assert((2 * units(format, high) + gap(format, high)) * d == 2 * units(format, high) + gap(
            format,
            high,
        ));
        lemma_bits_order(format, bits, high);
    }
}

/// A product is rounded to between the numbers that the exact product is between.
pub proof fn lemma_product_between(format: Format, a: int, b: int, low: int, high: int)
    requires
        finite(format, a),
        finite(format, b),
        finite(format, low),
        finite(format, high),
        units(format, low) * one(format) <= units(format, a) * units(format, b) <= units(
            format,
            high,
        ) * one(format),
    ensures
        finite(format, product(format, a, b)),
        units(format, low) <= units(format, product(format, a, b)) <= units(format, high),
{
    let (na, ma, ea) = lemma_parts(format, a);
    let (nb, mb, eb) = lemma_parts(format, b);
    let least_e = format.least_exponent();
    let e = ea + eb;
    let m = ma * mb;
    let n = signed(na != nb, m * power(e - least_e));
    let d = (1 * power(least_e - e)) as int;
    lemma_power_positive(e - least_e);
    lemma_power_positive(least_e - e);
    let u = one(format) as int;
    lemma_pow2_pos((-least_e) as nat);
    // In units the exact product is `n / d`, and that is the product of the units over one.
    let xa = pow2((ea - least_e) as nat) as int;
    let xb = pow2((eb - least_e) as nat) as int;
    let pe = power(e - least_e) as int;
    let pm = power(least_e - e) as int;
    assert(pe * u == xa * xb * pm) by {
        lemma_pow2_adds((ea - least_e) as nat, (eb - least_e) as nat);
        lemma2_to64();
        if e - least_e >= 0 {
            assert(pm == 1);
            lemma_pow2_adds((e - least_e) as nat, (-least_e) as nat);
        } else {
            assert(pe == 1);
            lemma_pow2_adds((e - 2 * least_e) as nat, (least_e - e) as nat);
        }
        assert(pe * u == xa * xb * pm) by (nonlinear_arith)
            requires
                (pm == 1 && pe * u == xa * xb) || (pe == 1 && u == xa * xb * pm),
        ;
    }
    let ua = units(format, a);
    let ub = units(format, b);
    assert(n * u == (ua * ub) * d) by {
        let sm = signed(na != nb, m);
        assert(ua * ub == sm * (xa * xb)) by (nonlinear_arith)
            requires
                ua == (if na { -(ma * xa) } else { ma * xa }),
                ub == (if nb { -(mb * xb) } else { mb * xb }),
                sm == (if na != nb { -(m as int) } else { m as int }),
                m == ma * mb,
        ;
        assert(n == sm * pe) by (nonlinear_arith)
            requires
                n == (if na != nb { -((m * pe) as int) } else { (m * pe) as int }),
                sm == (if na != nb { -(m as int) } else { m as int }),
        ;
        assert((sm * pe) * u == (sm * (xa * xb)) * pm) by (nonlinear_arith)
            requires
                pe * u == xa * xb * pm,
        ;
    }
    let ul = units(format, low);
    let uh = units(format, high);
    assert(ul * d <= n <= uh * d) by (nonlinear_arith)
        requires
            n * u == (ua * ub) * d,
            ul * u <= ua * ub <= uh * u,
            d > 0,
            u > 0,
    ;
    lemma_rounded_between(format, na != nb, m, 1, e, low, high);
}

/// A quotient is rounded to between the numbers that the exact quotient is between.
pub proof fn lemma_quotient_between(format: Format, a: int, b: int, low: int, high: int)
    requires
        finite(format, a),
        finite(format, b),
        finite(format, low),
        finite(format, high),
        units(format, b) > 0,
        units(format, low) * units(format, b) <= units(format, a) * one(format) <= units(
            format,
            high,
        ) * units(format, b),
    ensures
        finite(format, quotient(format, a, b)),
        units(format, low) <= units(format, quotient(format, a, b)) <= units(format, high),
{
    let (na, ma, ea) = lemma_parts(format, a);
    let (nb, mb, eb) = lemma_parts(format, b);
    let least_e = format.least_exponent();
    let xa = pow2((ea - least_e) as nat) as int;
    let xb = pow2((eb - least_e) as nat) as int;
    lemma_pow2_pos((ea - least_e) as nat);
    lemma_pow2_pos((eb - least_e) as nat);
    assert(!nb && mb > 0) by (nonlinear_arith)
        requires
            units(format, b) > 0,
            units(format, b) == (if nb { -(mb * xb) } else { mb * xb }),
            xb > 0,
    ;
    let e = ea - eb;
    let n = signed(na, ma * power(e - least_e));
    let d = (mb * power(least_e - e)) as int;
    let pe = power(e - least_e) as int;
    let pm = power(least_e - e) as int;
    lemma_power_positive(e - least_e);
    lemma_power_positive(least_e - e);
    let u = one(format) as int;
    lemma_pow2_pos((-least_e) as nat);
    assert(d > 0) by (nonlinear_arith)
        requires
            d == mb * pm,
            mb > 0,
            pm > 0,
    ;
    assert(pe * xb == xa * u * pm) by {
        lemma2_to64();
        lemma_pow2_adds((ea - least_e) as nat, (-least_e) as nat);
        if e - least_e >= 0 {
            assert(pm == 1);
            lemma_pow2_adds((e - least_e) as nat, (eb - least_e) as nat);
        } else {
            assert(pe == 1);
            lemma_pow2_adds((ea - 2 * least_e) as nat, (least_e - e) as nat);
        }
        assert(pe * xb == xa * u * pm) by (nonlinear_arith)
            requires
                (pm == 1 && pe * xb == xa * u) || (pe == 1 && xb == xa * u * pm),
        ;
    }
    let ua = units(format, a);
    let ub = units(format, b);
    // In units the exact quotient is `n / d`, and that is the quotient of the units times one.
    assert(n * ub == (ua * u) * d) by {
        let sm = signed(na, ma);
        assert(ua == sm * xa) by (nonlinear_arith)
            requires
                ua == (if na { -(ma * xa) } else { ma * xa }),
                sm == (if na { -(ma as int) } else { ma as int }),
        ;
        assert(n == sm * pe) by (nonlinear_arith)
            requires
                n == (if na { -((ma * pe) as int) } else { (ma * pe) as int }),
                sm == (if na { -(ma as int) } else { ma as int }),
        ;
        assert((sm * pe) * (mb * xb) == ((sm * xa) * u) * (mb * pm)) by (nonlinear_arith)
            requires
                pe * xb == xa * u * pm,
        ;
    }
    let ul = units(format, low);
    let uh = units(format, high);
    assert(ul * d <= n <= uh * d) by (nonlinear_arith)
        requires
            n * ub == (ua * u) * d,
            ul * ub <= ua * u <= uh * ub,
            d > 0,
            ub > 0,
    ;
    lemma_rounded_between(format, na, ma, mb, e, low, high);
}

/// Encoding of one.
pub open spec fn one_bits(format: Format) -> int {
    match format {
        Format::Single => 0x3f80_0000,
        Format::Double => 0x3ff0_0000_0000_0000,
    }
}

/// One is one.
pub proof fn lemma_one(format: Format)
    ensures
        finite(format, one_bits(format)),
        units(format, one_bits(format)) == one(format),
{
    lemma2_to64();
    lemma2_to64_rest();
    match format {
        Format::Single => lemma_pow2_adds(23, 126),
        Format::Double => lemma_pow2_adds(52, 1022),
    }
}

/// The sign of a product.
pub proof fn lemma_product_sign(format: Format, a: int, b: int)
    requires
        finite(format, a),
        finite(format, b),
    ensures
        format.holds(product(format, a, b)),
        (product(format, a, b) >= format.sign()) == ((a >= format.sign()) != (b
            >= format.sign())),
{
    let (na, ma, ea) = lemma_parts(format, a);
    let (nb, mb, eb) = lemma_parts(format, b);
    lemma_rounded_magnitude_order(format, ma * mb, 1, ea + eb, 0);
}

/// Finite numbers with the same value and the same sign bit are the same.
pub proof fn lemma_same_bits(format: Format, a: int, b: int)
    requires
        finite(format, a),
        finite(format, b),
        units(format, a) == units(format, b),
        (a >= format.sign()) == (b >= format.sign()),
    ensures
        a == b,
{
    let (na, _, _) = lemma_parts(format, a);
    let (nb, _, _) = lemma_parts(format, b);
    let ma = if na { a - format.sign() } else { a };
    let mb = if nb { b - format.sign() } else { b };
    lemma_sign_bit(format, ma);
    lemma_sign_bit(format, mb);
    lemma_bits_order(format, ma, mb);
    lemma_bits_order(format, mb, ma);
}

/// A product with one is the number itself.
pub proof fn lemma_product_one(format: Format, a: int)
    requires
        format.holds(a),
        !(format.decode(a) is NotANumber),
    ensures
        product(format, a, one_bits(format)) == a,
        product(format, one_bits(format), a) == a,
{
    lemma_one(format);
    let b = one_bits(format);
    let (nb, mb, eb) = lemma_parts(format, b);
    if finite(format, a) {
        let u = one(format) as int;
        let v = units(format, a);
        assert(v * u == u * v) by (nonlinear_arith);
        lemma_product_between(format, a, b, a, a);
        lemma_product_between(format, b, a, a, a);
        lemma_product_sign(format, a, b);
        lemma_product_sign(format, b, a);
        lemma_same_bits(format, product(format, a, b), a);
        lemma_same_bits(format, product(format, b, a), a);
    } else {
        assert(mb > 0) by {
            lemma_pow2_pos((-format.least_exponent()) as nat);
            if mb == 0 {
                let p = pow2((eb - format.least_exponent()) as nat);
                assert(mb * p == 0) by (nonlinear_arith)
                    requires
                        mb == 0,
                ;
            }
        }
    }
}

/// The number after a non-negative one lies a gap above it.
pub proof fn lemma_next(format: Format, r: int)
    requires
        0 <= r,
        r + 1 < format.infinity(),
    ensures
        units(format, r + 1) == units(format, r) + gap(format, r),
{
    let (m, e) = lemma_fields(format, r);
    let (n, f) = lemma_fields(format, r + 1);
    let h = format.hidden();
    let p = pow2(e) as int;
    if m + 1 < 2 * h {
        assert(f == e && n == m + 1) by (nonlinear_arith)
            requires
                f * h + n == e * h + m + 1,
                m + 1 < 2 * h,
                n < 2 * h,
                f > 0 ==> n >= h,
                e > 0 ==> m >= h,
                h > 0,
        ;
        assert((m + 1) * p == m * p + p) by (nonlinear_arith);
    } else {
        assert(f == e + 1 && n == h) by (nonlinear_arith)
            requires
                f * h + n == e * h + m + 1,
                m + 1 == 2 * h,
                n < 2 * h,
                f > 0 ==> n >= h,
                h > 0,
        ;
        lemma_pow2_unfold(f);
        assert(h * (2 * p) == m * p + p) by (nonlinear_arith)
            requires
                m + 1 == 2 * h,
        ;
    }
}

/// The number `m * 2^e` of a format, where `m` fits the fraction.
pub proof fn lemma_representable(format: Format, m: nat, e: int) -> (r: int)
    requires
        m < 2 * format.hidden(),
        format.least_exponent() <= e <= format.greatest_exponent(),
    ensures
        0 <= r < format.infinity(),
        finite(format, r),
        units(format, r) == m * pow2((e - format.least_exponent()) as nat),
    decreases 2 * format.hidden() - m,
{
    let low = format.least_exponent();
    let h = format.hidden();
    if m == 0 {
        lemma_zero(format);
        assert(0 * pow2((e - low) as nat) == 0) by (nonlinear_arith);
        0
    } else if m >= h || e == low {
        let bits = (e - low) * h + m;
        assert(0 <= bits < format.infinity()) by {
            match format {
                Format::Single => {},
                Format::Double => {},
            }
        }
        assert(bits / h == (if m >= h { e - low + 1 } else { 0 }) && bits % h == (if m >= h {
            m - h
        } else {
            m as int
        })) by {
            if m >= h {
                assert(bits == (e - low + 1) * h + (m - h)) by (nonlinear_arith)
                    requires
                        bits == (e - low) * h + m,
                ;
                lemma_fundamental_div_mod_converse(
                    bits,
                    h,
                    e - low + 1,
                    m - h,
                );
            } else {
                lemma_fundamental_div_mod_converse(
                    bits,
                    h,
                    0,
                    m as int,
                );
            }
        }
        bits
    } else {
        let r = lemma_representable(format, 2 * m, e - 1);
        lemma_pow2_unfold((e - low) as nat);
        let (a, b) = (pow2((e - low) as nat), pow2((e - low - 1) as nat));
        assert((2 * m) * b == m * a) by (nonlinear_arith)
            requires
                a == 2 * b,
        ;
        r
    }
}

/// A number that a format holds is rounded to itself.
pub proof fn lemma_representable_kept(
    format: Format,
    negative: bool,
    m: nat,
    e: int,
    r: int,
)
    requires
        0 <= r < format.infinity(),
        e >= format.least_exponent(),
        units(format, r) == m * pow2((e - format.least_exponent()) as nat),
    ensures
        rounded(format, negative, m, 1, e) == format.signed_zero(negative) + r,
{
    lemma2_to64();
    let low = format.least_exponent();
    assert(power(low - e) == 1);
    let d = 1nat * power(low - e);
    assert(d == 1);
    assert(units(format, r) * d == units(format, r));
    lemma_rounded_magnitude_order(format, m, 1, e, r);
}

/// Sums do not depend on the order of the terms.
pub proof fn lemma_sum_commutes(format: Format, a: int, b: int)
    requires
        format.holds(a),
        format.holds(b),
    ensures
        sum(format, a, b) == sum(format, b, a),
{
    match (format.decode(a), format.decode(b)) {
        (Number::Infinite { negative: na }, Number::Infinite { negative: nb }) => {
            assert(na == nb ==> a == b);
        },
        _ => {},
    }
}

/// Products do not depend on the order of the factors.
pub proof fn lemma_product_commutes(format: Format, a: int, b: int)
    ensures
        product(format, a, b) == product(format, b, a),
{
    match (format.decode(a), format.decode(b)) {
        (Number::Finite { mantissa: ma, .. }, Number::Finite { mantissa: mb, .. }) => {
            assert(ma * mb == mb * ma) by (nonlinear_arith);
        },
        _ => {},
    }
}

/// A sum that is not negative is not rounded to a negative number.
pub proof fn lemma_sum_not_negative(format: Format, a: int, b: int)
    requires
        finite(format, a),
        finite(format, b),
        units(format, a) + units(format, b) >= 0,
        finite(format, sum(format, a, b)),
    ensures
        units(format, sum(format, a, b)) >= 0,
{
    let (na, ma, ea) = lemma_parts(format, a);
    let (nb, mb, eb) = lemma_parts(format, b);
    let least_e = format.least_exponent();
    let e = least(ea, eb);
    let exact = signed(na, ma) * power(ea - e) + signed(nb, mb) * power(eb - e);
    lemma_term(format, na, ma, ea, e);
    lemma_term(format, nb, mb, eb, e);
    let p = pow2((e - least_e) as nat) as int;
    lemma_pow2_pos((e - least_e) as nat);
    assert(exact * p == units(format, a) + units(format, b)) by (nonlinear_arith)
        requires
            exact == signed(na, ma) * power(ea - e) + signed(nb, mb) * power(eb - e),
            (signed(na, ma) * power(ea - e)) * p == units(format, a),
            (signed(nb, mb) * power(eb - e)) * p == units(format, b),
    ;
    assert(exact >= 0) by (nonlinear_arith)
        requires
            exact * p >= 0,
            p > 0,
    ;
    lemma_zero(format);
    if exact != 0 {
        lemma_rounded_magnitude_order(format, exact as nat, 1, e, 0);
        let bits = rounded_magnitude(format, exact as nat, 1, e);
        lemma_bits_order(format, bits, bits);
    }
}

/// A sum with the positive zero is the number itself, the negative zero aside.
pub proof fn lemma_zero_plus(format: Format, a: int)
    requires
        format.holds(a),
        !(format.decode(a) is NotANumber),
        a != format.sign(),
    ensures
        sum(format, 0, a) == a,
{
    lemma_zero(format);
    if finite(format, a) {
        lemma_sum_between(format, 0, a, a, a);
        lemma_parts(format, a);
        lemma_parts(format, 0);
        lemma_parts(format, sum(format, 0, a));
        if units(format, a) == 0 {
            if a >= format.sign() {
                lemma_same_bits(format, a, format.sign());
            } else {
                lemma_same_bits(format, a, 0);
            }
        } else {
            lemma_sign_of(format, a);
            lemma_sign_of(format, sum(format, 0, a));
            lemma_same_bits(format, sum(format, 0, a), a);
        }
    }
}

/// The sign bit is that of the value.
proof fn lemma_sign_of(format: Format, a: int)
    requires
        finite(format, a),
        units(format, a) != 0,
    ensures
        (a >= format.sign()) == (units(format, a) < 0),
{
    let (na, ma, ea) = lemma_parts(format, a);
    lemma_pow2_pos((ea - format.least_exponent()) as nat);
    let p = pow2((ea - format.least_exponent()) as nat);
    assert(ma * p >= 0) by (nonlinear_arith);
}

} // verus!
