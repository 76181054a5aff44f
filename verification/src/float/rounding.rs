//! Rounding an exact quotient to a format, with what a shortened quotient keeps of it.
use super::encoding::{floor_log2, nearest_even, power, reaches_power, rounded, spacing, Format};
use vstd::arithmetic::div_mod::{
    lemma_div_denominator, lemma_fundamental_div_mod, lemma_fundamental_div_mod_converse,
    lemma_mod_breakdown,
};
use vstd::arithmetic::power2::{
    lemma2_to64, lemma2_to64_rest, lemma_pow2_adds, lemma_pow2_pos, lemma_pow2_strictly_increases,
    pow2,
};
use vstd::prelude::*;

verus! {

pub proof fn lemma_power_positive(x: int)
    ensures
        power(x) > 0,
{
    if x >= 0 {
        lemma_pow2_pos(x as nat);
    }
}

/// `2^x * 2^y == 2^(x + y)`, with the denominators multiplied out.
pub proof fn lemma_power_adds(x: int, y: int)
    ensures
        power(x) * power(y) * power(-(x + y)) == power(-x) * power(-y) * power(x + y),
{
    let z = x + y;
    if x >= 0 && y >= 0 {
        lemma_pow2_adds(x as nat, y as nat);
        assert(power(-z) == 1) by {
            if z == 0 {
                lemma2_to64();
            }
        }
        assert(power(-x) == 1 && power(-y) == 1) by {
            lemma2_to64();
        }
    } else if x < 0 && y < 0 {
        lemma_pow2_adds((-x) as nat, (-y) as nat);
    } else if x >= 0 && z >= 0 {
        lemma_pow2_adds(z as nat, (-y) as nat);
        lemma2_to64();
    } else if x >= 0 {
        lemma_pow2_adds(x as nat, (-z) as nat);
        lemma2_to64();
    } else if z >= 0 {
        lemma_pow2_adds(z as nat, (-x) as nat);
        lemma2_to64();
    } else {
        lemma_pow2_adds(y as nat, (-z) as nat);
        lemma2_to64();
        assert(power(x) == 1 && power(z) == 1);
        assert(power(y) * power(-z) == power(-x));
    }
    assert(power(x) * power(y) * power(-z) == power(-x) * power(-y) * power(z)) by (nonlinear_arith)
        requires
            (power(x) * power(y) == power(z) && power(-z) == 1 && power(-x) == 1 && power(-y) == 1)
                || (power(-x) * power(-y) == power(-z) && power(x) == 1 && power(y) == 1
                && power(z) == 1) || (power(z) * power(-y) == power(x) && power(y) == 1 && power(-z)
                == 1 && power(-x) == 1) || (power(x) * power(-z) == power(-y) && power(y) == 1
                && power(z) == 1 && power(-x) == 1) || (power(z) * power(-x) == power(y) && power(x)
                == 1 && power(-z) == 1 && power(-y) == 1) || (power(y) * power(-z) == power(-x)
                && power(x) == 1 && power(z) == 1 && power(-y) == 1),
    ;
}

/// Equal fractions are rounded to the same integer.
pub proof fn lemma_nearest_even_same(a: nat, b: nat, c: nat, d: nat)
    requires
        b > 0,
        d > 0,
        a * d == c * b,
    ensures
        nearest_even(a, b) == nearest_even(c, d),
{
    let q = a / b;
    let r = a % b;
    lemma_fundamental_div_mod(a as int, b as int);
    let s: int = c - d * q;
    assert(s * b == r * d) by (nonlinear_arith)
        requires
            a == b * q + r,
            a * d == c * b,
            s == c - d * q,
    ;
    assert(0 <= s < d) by (nonlinear_arith)
        requires
            s * b == r * d,
            0 <= r < b,
            d > 0,
            b > 0,
    ;
    assert(c == q * d + s) by (nonlinear_arith)
        requires
            s == c - d * q,
    ;
    lemma_fundamental_div_mod_converse(c as int, d as int, q as int, s);
    assert((2 * s > d) == (2 * r > b) && (2 * s == d) == (2 * r == b)) by (nonlinear_arith)
        requires
            s * b == r * d,
            d > 0,
            b > 0,
    ;
}

pub proof fn lemma_power_monotone(x: int, y: int)
    requires
        x <= y,
    ensures
        power(x) <= power(y),
        power(-y) <= power(-x),
{
    lemma_power_positive(y);
    lemma_power_positive(-x);
    lemma2_to64();
    if 0 <= x < y {
        lemma_pow2_strictly_increases(x as nat, y as nat);
    }
    if x < y <= 0 {
        lemma_pow2_strictly_increases((-y) as nat, (-x) as nat);
    }
}

proof fn lemma_reaches_smaller(num: nat, den: nat, k: int, l: int)
    requires
        k <= l,
        reaches_power(num, den, l),
    ensures
        reaches_power(num, den, k),
{
    lemma_power_monotone(k, l);
    assert(den * power(k) <= num * power(-k)) by (nonlinear_arith)
        requires
            power(k) <= power(l),
            power(-l) <= power(-k),
            den * power(l) <= num * power(-l),
    ;
}

/// The integer between whose powers of two a fraction lies is unique.
pub proof fn lemma_floor_log2(num: nat, den: nat, l: int)
    requires
        reaches_power(num, den, l),
        !reaches_power(num, den, l + 1),
    ensures
        floor_log2(num, den) == l,
{
    let c = floor_log2(num, den);
    assert(reaches_power(num, den, c) && !reaches_power(num, den, c + 1));
    if c < l {
        lemma_reaches_smaller(num, den, c + 1, l);
    } else if l < c {
        lemma_reaches_smaller(num, den, l + 1, c);
    }
}

/// Multiplying both sides of a comparison by positive factors keeps it.
proof fn lemma_scaled_comparison(x: int, y: int, w: int, u: int, v: int, c: int)
    requires
        w > 0,
        c > 0,
        x * w == c * u,
        y * w == c * v,
    ensures
        x <= y <==> u <= v,
{
    assert((x <= y) == (x * w <= y * w)) by (nonlinear_arith)
        requires
            w > 0,
    ;
    assert((u <= v) == (c * u <= c * v)) by (nonlinear_arith)
        requires
            c > 0,
    ;
}

/// Two ways of writing the same number reach the same powers of two.
proof fn lemma_reaches_same(n1: nat, d1: nat, e1: int, n2: nat, d2: nat, e2: int, l: int)
    requires
        d1 > 0,
        d2 > 0,
        n1 * d2 * power(e1 - e2) == n2 * d1 * power(e2 - e1),
    ensures
        reaches_power(n1, d1, l) <==> reaches_power(n2, d2, l + e1 - e2),
{
    let k = e1 - e2;
    let m = l + k;
    lemma_power_adds(l, k);
    lemma_power_positive(l);
    lemma_power_positive(-l);
    lemma_power_positive(k);
    lemma_power_positive(-k);
    lemma_power_positive(m);
    lemma_power_positive(-m);
    let (pl, ml) = (power(l) as int, power(-l) as int);
    let (pk, mk) = (power(k) as int, power(-k) as int);
    let (pm, mm) = (power(m) as int, power(-m) as int);
    let (a1, b1, a2, b2) = (n1 as int, d1 as int, n2 as int, d2 as int);
    assert(pl * pk * mm == ml * mk * pm);
    assert(a1 * b2 * pk == a2 * b1 * mk);
    let w = b2 * pk * mm;
    let c = b1 * ml * mk;
    assert(w > 0) by (nonlinear_arith)
        requires
            w == b2 * pk * mm,
            b2 > 0,
            pk > 0,
            mm > 0,
    ;
    assert(c > 0) by (nonlinear_arith)
        requires
            c == b1 * ml * mk,
            b1 > 0,
            ml > 0,
            mk > 0,
    ;
    assert((b1 * pl) * w == c * (b2 * pm)) by {
        assert((b1 * pl) * (b2 * pk * mm) == (b1 * b2) * (pl * pk * mm)) by (nonlinear_arith);
        assert((b1 * b2) * (ml * mk * pm) == (b1 * ml * mk) * (b2 * pm)) by (nonlinear_arith);
    }
    assert((a1 * ml) * w == c * (a2 * mm)) by {
        assert((a1 * ml) * (b2 * pk * mm) == (a1 * b2 * pk) * (ml * mm)) by (nonlinear_arith);
        assert((a2 * b1 * mk) * (ml * mm) == (b1 * ml * mk) * (a2 * mm)) by (nonlinear_arith);
    }
    lemma_scaled_comparison(b1 * pl, a1 * ml, w, b2 * pm, a2 * mm, c);
    assert(d1 * power(l) == b1 * pl && n1 * power(-l) == a1 * ml);
    assert(d2 * power(m) == b2 * pm && n2 * power(-m) == a2 * mm);
}

/// Two ways of writing the same number are rounded to the same encoding. `l` is the logarithm
/// of the first.
pub proof fn lemma_rounded_same(
    format: Format,
    negative: bool,
    n1: nat,
    d1: nat,
    e1: int,
    n2: nat,
    d2: nat,
    e2: int,
    l: int,
)
    requires
        d1 > 0,
        d2 > 0,
        n1 * d2 * power(e1 - e2) == n2 * d1 * power(e2 - e1),
        reaches_power(n1, d1, l),
        !reaches_power(n1, d1, l + 1),
    ensures
        rounded(format, negative, n1, d1, e1) == rounded(format, negative, n2, d2, e2),
{
    let k = e1 - e2;
    lemma_reaches_same(n1, d1, e1, n2, d2, e2, l);
    lemma_reaches_same(n1, d1, e1, n2, d2, e2, l + 1);
    assert(l + 1 + e1 - e2 == (l + k) + 1);
    lemma_floor_log2(n1, d1, l);
    lemma_floor_log2(n2, d2, l + k);
    lemma_power_positive(k);
    lemma_power_positive(-k);
    lemma_power_positive(-l);
    lemma_power_positive(l);
    assert(n1 > 0) by (nonlinear_arith)
        requires
            d1 * power(l) <= n1 * power(-l),
            d1 > 0,
            power(l) > 0,
    ;
    assert(n2 > 0) by (nonlinear_arith)
        requires
            n1 * d2 * power(k) == n2 * d1 * power(-k),
            n1 > 0,
            d2 > 0,
            power(k) > 0,
    ;
    let q = spacing(format, n1, d1, e1);
    assert(q == spacing(format, n2, d2, e2));
    let x = e1 - q;
    let y = q - e2;
    lemma_power_adds(x, y);
    lemma_power_positive(x);
    lemma_power_positive(-x);
    lemma_power_positive(y);
    lemma_power_positive(-y);
    assert(x + y == k);
    let (px, mx) = (power(x) as int, power(-x) as int);
    let (py, my) = (power(y) as int, power(-y) as int);
    let (pk, mk) = (power(k) as int, power(-k) as int);
    let (a1, b1, a2, b2) = (n1 as int, d1 as int, n2 as int, d2 as int);
    assert(px * py * mk == mx * my * pk);
    assert(a1 * b2 * pk == a2 * b1 * mk);
    let left = (a1 * px) * (b2 * py);
    let right = (a2 * my) * (b1 * mx);
    assert(left * mk == right * mk) by {
        assert(((a1 * px) * (b2 * py)) * mk == (a1 * b2) * (px * py * mk)) by (nonlinear_arith);
        assert((a1 * b2) * (mx * my * pk) == (a1 * b2 * pk) * (mx * my)) by (nonlinear_arith);
        assert((a2 * b1 * mk) * (mx * my) == ((a2 * my) * (b1 * mx)) * mk) by (nonlinear_arith);
    }
    assert(left == right) by (nonlinear_arith)
        requires
            left * mk == right * mk,
            mk > 0,
    ;
    assert(e1 - q == x && q - e1 == -x && e2 - q == -y && q - e2 == y);
    assert((n1 * power(x)) * (d2 * power(y)) == left);
    assert((n2 * power(-y)) * (d1 * power(-x)) == right);
    assert(d1 * power(-x) > 0) by (nonlinear_arith)
        requires
            d1 > 0,
            power(-x) > 0,
    ;
    assert(d2 * power(y) > 0) by (nonlinear_arith)
        requires
            d2 > 0,
            power(y) > 0,
    ;
    lemma_nearest_even_same(
        n1 * power(x),
        d1 * power(-x),
        n2 * power(-y),
        d2 * power(y),
    );
}

/// What a shortened quotient shows of rounding the full one. `half` is half the unit dropped.
proof fn lemma_nearest_even_shortened(num: nat, den: nat, half: nat)
    requires
        den > 0,
        half > 0,
    ensures
        ({
            let m = num / den;
            let inexact = num % den != 0;
            let low = m % (2 * half);
            let kept = m / (2 * half);
            nearest_even(num, den * (2 * half)) == if low > half || (low == half && (inexact || kept
                % 2 == 1)) {
                kept + 1
            } else {
                kept
            }
        }),
{
    let p: nat = 2 * half;
    let m = num / den;
    let rest = num % den;
    let low = m % p;
    lemma_div_denominator(num as int, den as int, p as int);
    lemma_mod_breakdown(num as int, den as int, p as int);
    lemma_fundamental_div_mod(num as int, den as int);
    let full = num % (den * p);
    assert(den * p > 0) by (nonlinear_arith)
        requires
            den > 0,
            p > 0,
    ;
    assert(full == den * low + rest);
    assert((2 * full > den * p) == (low > half || (low == half && rest > 0))) by (nonlinear_arith)
        requires
            full == den * low + rest,
            p == 2 * half,
            0 <= rest < den,
    ;
    assert((2 * full == den * p) == (low == half && rest == 0)) by (nonlinear_arith)
        requires
            full == den * low + rest,
            p == 2 * half,
            0 <= rest < den,
    ;
}

/// The logarithm of a quotient is that of its integer part, where that is not zero.
pub proof fn lemma_log_of_quotient(num: nat, den: nat, l: nat)
    requires
        den > 0,
        pow2(l) <= num / den < pow2(l + 1),
    ensures
        reaches_power(num, den, l as int),
        !reaches_power(num, den, (l as int) + 1),
{
    let m = num / den;
    lemma_fundamental_div_mod(num as int, den as int);
    let rest = num % den;
    lemma2_to64();
    assert(power(l as int) == pow2(l) && power((l as int) + 1) == pow2(l + 1));
    assert(power(-(l as int)) == 1 && power(-((l as int) + 1)) == 1);
    assert(den * pow2(l) <= num) by (nonlinear_arith)
        requires
            num == den * m + rest,
            pow2(l) <= m,
            rest >= 0,
    ;
    assert(num < den * pow2(l + 1)) by (nonlinear_arith)
        requires
            num == den * m + rest,
            m + 1 <= pow2(l + 1),
            rest < den,
    ;
}

/// `2^k`.
pub fn power_of_two(k: u32) -> (r: u128)
    requires
        k <= 127,
    ensures
        r == pow2(k as nat),
        r == power(k as int),
        r > 0,
{
    proof {
        lemma_shifted_one(k);
    }
    1u128 << k
}

proof fn lemma_shifted_one(k: u32)
    requires
        k <= 127,
    ensures
        (1u128 << k) == pow2(k as nat),
        (1u128 << k) > 0,
    decreases k,
{
    lemma2_to64();
    if k == 0 {
        assert((1u128 << 0u32) == 1) by (bit_vector);
    } else {
        let j = (k - 1) as u32;
        lemma_shifted_one(j);
        lemma_pow2_adds(1, j as nat);
        assert((1u128 << k) == 2 * (1u128 << j)) by (bit_vector)
            requires
                k <= 127,
                k >= 1,
                j == k - 1,
        ;
    }
}

/// Position of the highest bit that is set.
pub fn highest_bit(m: u128) -> (l: u32)
    requires
        m > 0,
    ensures
        l <= 127,
        pow2(l as nat) <= m < pow2(l as nat + 1),
{
    let mut l: u32 = 0;
    let mut rest: u128 = m;
    proof {
        lemma2_to64();
        lemma_pow2_adds(64, 64);
    }
    let mut step: u32 = 64;
    while step > 0
        invariant
            step == 64 || step == 32 || step == 16 || step == 8 || step == 4 || step == 2 || step
                == 1 || step == 0,
            rest > 0,
            l + (if step == 0 { 1 } else { 2 * step }) <= 128,
            rest < pow2((if step == 0 { 1 } else { 2 * step }) as nat),
            rest * pow2(l as nat) <= m < (rest + 1) * pow2(l as nat),
        decreases step,
    {
        let weight: u128 = power_of_two(step);
        let ghost before = (rest, l);
        if rest >= weight {
            proof {
                let high = rest / weight;
                lemma_fundamental_div_mod(rest as int, weight as int);
                lemma_pow2_adds(step as nat, step as nat);
                lemma_pow2_adds(l as nat, step as nat);
                let p = pow2(l as nat);
                let w = weight as int;
                let left = rest % weight;
                assert(high > 0) by (nonlinear_arith)
                    requires
                        rest == weight * high + left,
                        left < weight,
                        rest >= weight,
                ;
                assert(high < weight) by (nonlinear_arith)
                    requires
                        rest == weight * high + left,
                        left >= 0,
                        rest < weight * weight,
                ;
                assert(high * (p * w) <= rest * p) by (nonlinear_arith)
                    requires
                        rest == w * high + left,
                        left >= 0,
                ;
                assert((rest + 1) * p <= (high + 1) * (p * w)) by (nonlinear_arith)
                    requires
                        rest == w * high + left,
                        left < w,
                ;
            }
            rest = rest / weight;
            l = l + step;
        }
        step = step / 2;
    }
    proof {
        assert(rest == 1);
        lemma_pow2_adds(1, l as nat);
        let p = pow2(l as nat) as int;
        assert(1 * p == p && (1 + 1) * p == 2 * p);
    }
    l
}

impl Format {
    fn hidden_weight(self) -> (r: u64)
        ensures
            r == self.hidden(),
    {
        match self {
            Format::Single => 0x80_0000,
            Format::Double => 0x10_0000_0000_0000,
        }
    }

    fn infinity_bits(self) -> (r: u64)
        ensures
            r == self.infinity(),
    {
        match self {
            Format::Single => 0x7f80_0000,
            Format::Double => 0x7ff0_0000_0000_0000,
        }
    }

    fn sign_weight(self) -> (r: u64)
        ensures
            r == self.sign(),
    {
        match self {
            Format::Single => 0x8000_0000,
            Format::Double => 0x8000_0000_0000_0000,
        }
    }

    fn fraction_width(self) -> (r: i32)
        ensures
            r == self.fraction_bits(),
    {
        match self {
            Format::Single => 23,
            Format::Double => 52,
        }
    }

    fn bottom_exponent(self) -> (r: i32)
        ensures
            r == self.least_exponent(),
    {
        match self {
            Format::Single => -149,
            Format::Double => -1074,
        }
    }
}

/// Two bits more than the format has are enough to be above its width.
proof fn lemma_wide(format: Format, m: nat, l: nat)
    requires
        4 * format.hidden() <= m < pow2(l + 1),
    ensures
        l >= format.fraction_bits() + 2,
{
    lemma2_to64();
    lemma2_to64_rest();
    if l + 1 <= format.fraction_bits() + 2 {
        lemma_power_monotone(l as int + 1, format.fraction_bits() + 2);
    }
}

proof fn lemma_stays_narrow(m: nat, l: nat, shift: nat)
    requires
        m < pow2(l + 1),
        l + shift <= 52,
    ensures
        m * pow2(shift) < 0x20_0000_0000_0000,
{
    lemma2_to64();
    lemma2_to64_rest();
    lemma_pow2_adds(l + 1, shift);
    lemma_pow2_pos(shift);
    lemma_power_monotone(l as int + 1 + shift, 53);
    assert(m * pow2(shift) < pow2(l + 1) * pow2(shift)) by (nonlinear_arith)
        requires
            m < pow2(l + 1),
            pow2(shift) > 0,
    ;
}

/// The encoding closest to `num / den * 2^exp`, from the integer part `m` of the quotient and
/// whether the division leaves a remainder. Where it does, `m` must be two bits wider than the
/// format.
pub fn pack(
    format: Format,
    negative: bool,
    m: u128,
    inexact: bool,
    exp: i32,
    Ghost(num): Ghost<nat>,
    Ghost(den): Ghost<nat>,
) -> (r: u64)
    requires
        den > 0,
        m == num / den,
        inexact == (num % den != 0),
        inexact ==> m >= 4 * format.hidden(),
        m < pow2(127),
        -8000 <= exp <= 8000,
    ensures
        r == rounded(format, negative, num, den, exp as int),
        format.holds(r as int),
        m > 0 ==> reaches_power(num, den, floor_log2(num, den)) && !reaches_power(
            num,
            den,
            floor_log2(num, den) + 1,
        ),
{
    let sign: u64 = if negative { format.sign_weight() } else { 0 };
    proof {
        lemma_fundamental_div_mod(num as int, den as int);
        lemma2_to64();
    }
    if m == 0 {
        proof {
            assert(num == den * 0 + 0);
        }
        return sign;
    }
    let l = highest_bit(m);
    proof {
        assert(num > 0) by (nonlinear_arith)
            requires
                num == den * m + num % den,
                den > 0,
                m > 0,
                num % den >= 0,
        ;
        lemma_log_of_quotient(num, den, l as nat);
        lemma_floor_log2(num, den, l as int);
    }
    let natural: i32 = l as i32 + exp - format.fraction_width();
    let bottom = format.bottom_exponent();
    let q: i32 = if natural < bottom { bottom } else { natural };
    assert(q == spacing(format, num, den, exp as int));
    let count: u128;
    if q <= exp {
        let shift: u32 = (exp - q) as u32;
        proof {
            if inexact {
                lemma_wide(format, m as nat, l as nat);
            }
            lemma_stays_narrow(m as nat, l as nat, shift as nat);
        }
        let weight = power_of_two(shift);
        count = m * weight;
        proof {
            assert(power(q - exp) == 1);
            assert(num == den * m);
            assert((num * power(exp - q)) == (m * weight) * den) by (nonlinear_arith)
                requires
                    num == den * m,
                    power(exp - q) == weight,
            ;
            lemma_fundamental_div_mod_converse(
                (num * power(exp - q)) as int,
                den as int,
                (m * weight) as int,
                0,
            );
        }
    } else {
        let shift: u32 = (q - exp) as u32;
        if shift > l + 1 {
            count = 0;
            proof {
                lemma_power_monotone(l + 2, shift as int);
                lemma_pow2_adds(1, (l + 1) as nat);
                assert(power(exp - q) == 1);
                let p = power(q - exp);
                assert(2 * num < den * p) by (nonlinear_arith)
                    requires
                        num == den * m + num % den,
                        num % den < den,
                        m + 1 <= pow2((l + 1) as nat),
                        p >= 2 * pow2((l + 1) as nat),
                        den > 0,
                ;
                lemma_fundamental_div_mod_converse(
                    num as int,
                    (den * p) as int,
                    0,
                    num as int,
                );
            }
        } else {
            let half: u128 = power_of_two(shift - 1);
            proof {
                lemma_pow2_adds(1, (shift - 1) as nat);
                lemma_nearest_even_shortened(num, den, half as nat);
                lemma_power_monotone((shift - 1) as int, l as int);
                lemma2_to64_rest();
                lemma_pow2_adds(64, 63);
                assert(m < 0x8000_0000_0000_0000_0000_0000_0000_0000);
            }
            let unit: u128 = half * 2;
            let kept: u128 = m / unit;
            assert(kept <= m) by (nonlinear_arith)
                requires
                    kept == m / unit,
                    unit > 0,
            ;
            let low: u128 = m % unit;
            count = if low > half || (low == half && (inexact || kept % 2 == 1)) {
                kept + 1
            } else {
                kept
            };
            assert(power(exp - q) == 1);
            assert(power(q - exp) == 2 * half);
        }
    }
    assert(count == nearest_even(num * power(exp - q), den * power(q - exp)));
    let hidden = format.hidden_weight();
    let infinity = format.infinity_bits();
    let field: u128 = (q - bottom) as u128;
    proof {
        assert(field * hidden <= 20000 * hidden) by (nonlinear_arith)
            requires
                field <= 20000,
        ;
    }
    let bits: u128 = field * (hidden as u128) + count;
    if bits < infinity as u128 {
        sign + bits as u64
    } else {
        sign + infinity
    }
}

} // verus!
