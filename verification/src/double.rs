//! Double precision arithmetic on numbers that are not negative, carried out with integers.
//!
//! A double precision number holds 53 significant bits, and the result of an operation is the
//! nearest such number, the even one of two that are equally near. The numbers that occur here are
//! zero or at least `2^-30`, so each of them is a whole multiple of `2^-82`: they are written as
//! the count of such units.

use vstd::prelude::*;

pub mod order;

verus! {

/// The first whole number with more than 53 bits.
pub const MANTISSA_LIMIT: u128 = 0x20_0000_0000_0000;

/// The number one, in units.
pub const ONE: u128 = 0x4_0000_0000_0000_0000_0000;

/// The number one, in units of `2^-62`.
const COARSE_ONE: u128 = 0x4000_0000_0000_0000;

/// How many units are one of `2^-62`.
const COARSE_UNIT: u128 = 0x10_0000;

/// The weight of the last of 53 significant bits of `n / d`, at least 1.
pub open spec fn last_place(n: nat, d: nat) -> nat
    decreases
            (if n < MANTISSA_LIMIT * d {
                0
            } else {
                n - MANTISSA_LIMIT * d + 1
            }),
{
    if d == 0 || n < MANTISSA_LIMIT * d {
        1
    } else {
        2 * last_place(n, 2 * d)
    }
}

/// The whole number nearest to `n / d`, the even one of two.
pub open spec fn nearest(n: nat, d: nat) -> nat {
    if 2 * (n % d) < d || (2 * (n % d) == d && (n / d) % 2 == 0) {
        n / d
    } else {
        n / d + 1
    }
}

/// `n / d`, rounded to 53 significant bits.
pub open spec fn rounded(n: nat, d: nat) -> nat {
    nearest(n, d * last_place(n, d)) * last_place(n, d)
}

/// Whether `n` is a power of two.
pub open spec fn is_power_of_two(n: nat) -> bool {
    exists|k: nat| n == #[trigger] vstd::arithmetic::power2::pow2(k)
}

/// A time of `secs` seconds and `nanos` nanoseconds as a number of seconds, in units: the sum of
/// the two, each of them rounded.
pub open spec fn seconds(secs: nat, nanos: nat) -> nat {
    rounded(rounded(secs * ONE as nat, 1) + rounded(nanos * ONE as nat, 1_000_000_000), 1)
}

/// The least whole number that is not below `n` units.
pub open spec fn ceiling(n: nat) -> nat {
    ((n + ONE - 1) / ONE as int) as nat
}

/// The ceiling of a number of seconds times a rate.
pub open spec fn ceiling_of_product(secs: nat, nanos: nat, rate: nat) -> nat {
    ceiling(rounded(seconds(secs, nanos) * rate, 1))
}

/// Rounds `n / d` to 53 significant bits: the digits, and the weight of the last one.
pub fn round(n: u128, d: u128) -> (result: (u128, u128))
    requires
        0 < d <= 0x4000_0000,
        n < 0x8000_0000_0000_0000_0000_0000_0000_0000,
    ensures
        result.1 == last_place(n as nat, d as nat),
        result.0 == nearest(n as nat, d as nat * result.1 as nat),
        rounded(n as nat, d as nat) == result.0 * result.1,
        result.0 <= MANTISSA_LIMIT,
        result.0 * result.1 <= n / d + result.1,
        result.1 == 1 || MANTISSA_LIMIT * d * result.1 <= 2 * n,
        result.1 > 0,
        is_power_of_two(result.1 as nat),
{
    let mut weight: u128 = 1;
    let mut scaled: u128 = d;
    proof {
        vstd::arithmetic::power2::lemma2_to64();
        assert(weight == vstd::arithmetic::power2::pow2(0));
    }
    while n >= MANTISSA_LIMIT * scaled
        invariant
            0 < d <= 0x4000_0000,
            n < 0x8000_0000_0000_0000_0000_0000_0000_0000,
            weight > 0,
            scaled == d * weight,
            scaled == d || MANTISSA_LIMIT * scaled <= 2 * n,
            weight == 1 || MANTISSA_LIMIT * scaled <= 2 * n,
            MANTISSA_LIMIT * scaled <= u128::MAX,
            last_place(n as nat, d as nat) == weight * last_place(n as nat, scaled as nat),
            is_power_of_two(weight as nat),
        decreases 2 * n - scaled,
    {
        proof {
            let k = choose|k: nat|
                weight as nat == #[trigger] vstd::arithmetic::power2::pow2(k);
            vstd::arithmetic::power2::lemma_pow2_unfold((k + 1) as nat);
            assert(2 * weight == vstd::arithmetic::power2::pow2((k + 1) as nat));
            assert(weight <= scaled) by (nonlinear_arith)
                requires
                    scaled == d * weight,
                    d >= 1,
            ;
            let rest = last_place(n as nat, 2 * scaled as nat);
            assert(weight * (2 * rest) == (2 * weight) * rest) by (nonlinear_arith);
            assert(2 * (d * weight) == d * (2 * weight)) by (nonlinear_arith);
        }
        scaled = 2 * scaled;
        weight = 2 * weight;
    }
    let quotient: u128 = n / scaled;
    let rest: u128 = n % scaled;
    proof {
        vstd::arithmetic::div_mod::lemma_fundamental_div_mod(n as int, scaled as int);
        assert(quotient < MANTISSA_LIMIT) by (nonlinear_arith)
            requires
                n < MANTISSA_LIMIT * scaled,
                n == scaled * quotient + rest,
                scaled > 0,
                rest >= 0,
        ;
        assert(weight * 1 == weight);
    }
    let digits: u128 = if 2 * rest < scaled || (2 * rest == scaled && quotient % 2 == 0) {
        quotient
    } else {
        quotient + 1
    };
    proof {
        lemma_digits_bound(n as int, d as int, weight as int, quotient as int, digits as int);
        assert(MANTISSA_LIMIT * scaled == MANTISSA_LIMIT * d * weight) by (nonlinear_arith)
            requires
                scaled == d * weight,
        ;
    }
    (digits, weight)
}

proof fn lemma_digits_bound(n: int, d: int, weight: int, quotient: int, digits: int)
    requires
        n >= 0,
        d > 0,
        weight > 0,
        quotient == n / (d * weight),
        digits <= quotient + 1,
    ensures
        digits * weight <= n / d + weight,
{
    assert(d * weight > 0) by (nonlinear_arith)
        requires
            d > 0,
            weight > 0,
    ;
    vstd::arithmetic::div_mod::lemma_fundamental_div_mod(n, d * weight);
    vstd::arithmetic::div_mod::lemma_fundamental_div_mod(n, d);
    assert(quotient * weight <= n / d) by (nonlinear_arith)
        requires
            n == (d * weight) * quotient + n % (d * weight),
            n % (d * weight) >= 0,
            n == d * (n / d) + n % d,
            n % d < d,
            d > 0,
    ;
    assert(digits * weight <= quotient * weight + weight) by (nonlinear_arith)
        requires
            digits <= quotient + 1,
            weight > 0,
    ;
}

/// Computes [`ceiling_of_product`].
pub fn product_ceiling(secs: u64, nanos: u32, rate: u32) -> (result: u128)
    requires
        nanos < 1_000_000_000,
    ensures
        result == ceiling_of_product(secs as nat, nanos as nat, rate as nat),
{
    let (fraction_digits, fraction_weight) = round(nanos as u128 * ONE, 1_000_000_000);
    proof {
        lemma_fraction_bound(nanos as int, fraction_digits as int, fraction_weight as int);
    }
    let fraction: u128 = fraction_digits * fraction_weight;
    let digits: u128;
    let weight: u128;
    let one: u128;
    if secs == 0 {
        let (d, w) = round(fraction, 1);
        digits = d;
        weight = w;
        one = ONE;
        proof {
            lemma_rounded_exact(0);
            assert(0 * ONE == 0);
            assert(seconds(0, nanos as nat) == d * w);
            assert(ONE as nat / one as nat == 1);
            assert((d * w) * 1 == d * w);
        }
    } else {
        let (whole_digits, whole_weight) = round(secs as u128, 1);
        proof {
            assert(whole_digits * whole_weight <= secs + whole_weight);
        }
        let whole: u128 = whole_digits * whole_weight;
        let tail: u128 = fraction / COARSE_UNIT;
        let cut: u128 = fraction % COARSE_UNIT;
        let sum: u128 = whole * COARSE_ONE + tail;
        let jam: u128 = if cut != 0 && sum % 2 == 0 {
            sum + 1
        } else {
            sum
        };
        proof {
            lemma_whole_positive(secs as nat);
        }
        let (d, w) = round(jam, 1);
        digits = d;
        weight = w;
        one = COARSE_ONE;
        proof {
            lemma_sum(secs as nat, nanos as nat, whole as nat, fraction as nat);
            assert(ONE as nat / one as nat == COARSE_UNIT);
        }
    }
    assert(seconds(secs as nat, nanos as nat) == (digits * weight) * (ONE as nat / one as nat));
    assert(digits * rate <= MANTISSA_LIMIT * 0xffff_ffff) by (nonlinear_arith)
        requires
            digits <= MANTISSA_LIMIT,
            rate <= 0xffff_ffff,
    ;
    let (product_digits, product_weight) = round(digits * rate as u128, 1);
    proof {
        assert(product_weight <= 0x2_0000_0000);
    }
    let product: u128 = product_digits * product_weight;
    proof {
        vstd::arithmetic::power2::lemma2_to64();
        vstd::arithmetic::power2::lemma2_to64_rest();
        vstd::arithmetic::power2::lemma_pow2_adds(62, 20);
        let k = choose|k: nat| weight as nat == #[trigger] vstd::arithmetic::power2::pow2(k);
        let e: nat = if secs == 0 {
            82
        } else {
            62
        };
        lemma_product(digits as nat * rate as nat, product as nat, k, e);
        assert((digits * weight) * (ONE as nat / one as nat) * rate == (digits * rate) * (weight * (
        ONE as nat / one as nat))) by (nonlinear_arith);
    }
    if weight <= one {
        let unit: u128 = one / weight;
        (product + (unit - 1)) / unit
    } else {
        proof {
            assert(weight / one <= 0x2000) by (nonlinear_arith)
                requires
                    weight <= 0x800_0000_0000_0000_0000,
                    one == COARSE_ONE || one == ONE,
                    COARSE_ONE == 0x4000_0000_0000_0000,
                    ONE == 0x4_0000_0000_0000_0000_0000,
            ;
            assert(product * (weight / one) <= 0x100_0000_0000_0000_0000_0000 * 0x2000)
                by (nonlinear_arith)
                requires
                    product <= 0x100_0000_0000_0000_0000_0000,
                    weight / one <= 0x2000,
            ;
        }
        product * (weight / one)
    }
}

/// The ceiling of a product, by the weight `2^k` of the last digit of its first factor, which is
/// given in units of `2^-e`.
proof fn lemma_product(digits: nat, product: nat, k: nat, e: nat)
    requires
        e <= 82,
        product == rounded(digits, 1),
        vstd::arithmetic::power2::pow2(82) == ONE,
    ensures
        ({
            let weight = vstd::arithmetic::power2::pow2(k);
            let one = vstd::arithmetic::power2::pow2(e);
            let total = digits * (weight * (ONE as nat / one));
            &&& one > 0 && weight > 0
            &&& weight <= one ==> {
                let unit = one / weight;
                &&& 0 < unit <= one
                &&& ceiling(rounded(total, 1)) == (product + (unit - 1)) / unit as int
            }
            &&& weight > one ==> ceiling(rounded(total, 1)) == product * (weight / one)
        }),
{
    let weight = vstd::arithmetic::power2::pow2(k);
    let one = vstd::arithmetic::power2::pow2(e);
    let fine = vstd::arithmetic::power2::pow2((82 - e) as nat);
    vstd::arithmetic::power2::lemma_pow2_pos(k);
    vstd::arithmetic::power2::lemma_pow2_pos(e);
    vstd::arithmetic::power2::lemma_pow2_pos((82 - e) as nat);
    vstd::arithmetic::power2::lemma_pow2_adds(e, (82 - e) as nat);
    vstd::arithmetic::div_mod::lemma_div_multiples_vanish(fine as int, one as int);
    assert(ONE as nat / one == fine);
    vstd::arithmetic::power2::lemma_pow2_adds(k, (82 - e) as nat);
    lemma_rounded_scale(digits, (k + (82 - e)) as nat);
    let value = product * (weight * fine);
    if weight <= one {
        if k > e {
            vstd::arithmetic::power2::lemma_pow2_strictly_increases(e, k);
        }
        let unit = vstd::arithmetic::power2::pow2((e - k) as nat);
        vstd::arithmetic::power2::lemma_pow2_pos((e - k) as nat);
        vstd::arithmetic::power2::lemma_pow2_adds(k, (e - k) as nat);
        vstd::arithmetic::div_mod::lemma_div_multiples_vanish(unit as int, weight as int);
        assert(unit <= one) by (nonlinear_arith)
            requires
                one == weight * unit,
                weight >= 1,
        ;
        let scale = weight * fine;
        assert(scale > 0) by (nonlinear_arith)
            requires
                weight > 0,
                fine > 0,
                scale == weight * fine,
        ;
        assert(scale * unit == ONE) by (nonlinear_arith)
            requires
                scale == weight * fine,
                one == weight * unit,
                one * fine == ONE,
        ;
        lemma_ceiling_scale(product as int, unit as int, scale as int);
        assert(value == scale * product) by (nonlinear_arith)
            requires
                value == product * (weight * fine),
                scale == weight * fine,
        ;
    } else {
        if k < e {
            vstd::arithmetic::power2::lemma_pow2_strictly_increases(k, e);
        }
        let times = vstd::arithmetic::power2::pow2((k - e) as nat);
        vstd::arithmetic::power2::lemma_pow2_adds(e, (k - e) as nat);
        vstd::arithmetic::div_mod::lemma_div_multiples_vanish(times as int, one as int);
        assert(value == ONE * (product * times)) by (nonlinear_arith)
            requires
                value == product * (weight * fine),
                weight == one * times,
                one * fine == ONE,
        ;
        lemma_ceiling_scale((product * times) as int, 1, ONE as int);
        assert((product * times) / 1 == product * times);
    }
}

/// A common factor does not change a ceiling.
proof fn lemma_ceiling_scale(n: int, unit: int, scale: int)
    requires
        n >= 0,
        unit > 0,
        scale > 0,
    ensures
        (scale * n + (scale * unit - 1)) / (scale * unit) == (n + (unit - 1)) / unit,
{
    let q = (n + (unit - 1)) / unit;
    let r = (n + (unit - 1)) % unit;
    vstd::arithmetic::div_mod::lemma_fundamental_div_mod(n + (unit - 1), unit);
    let rest = scale * r + (scale - 1);
    assert(scale * n + (scale * unit - 1) == (scale * unit) * q + rest) by (nonlinear_arith)
        requires
            n + (unit - 1) == unit * q + r,
            rest == scale * r + (scale - 1),
    ;
    assert(0 <= rest < scale * unit) by (nonlinear_arith)
        requires
            rest == scale * r + (scale - 1),
            0 <= r,
            r + 1 <= unit,
            scale > 0,
    ;
    vstd::arithmetic::div_mod::lemma_fundamental_div_mod_converse(
        scale * n + (scale * unit - 1),
        scale * unit,
        q,
        rest,
    );
}

proof fn lemma_fraction_bound(nanos: int, digits: int, weight: int)
    requires
        0 <= nanos < 1_000_000_000,
        0 <= digits,
        weight > 0,
        digits * weight <= (nanos * ONE) / 1_000_000_000 + weight,
        weight == 1 || MANTISSA_LIMIT * 1_000_000_000 * weight <= 2 * (nanos * ONE),
    ensures
        0 <= digits * weight <= ONE + 0x8000_0000,
{
    assert(digits * weight >= 0) by (nonlinear_arith)
        requires
            digits >= 0,
            weight > 0,
    ;
    assert(weight <= 0x8000_0000) by (nonlinear_arith)
        requires
            weight == 1 || 0x20_0000_0000_0000 * 1_000_000_000 * weight <= 2 * (nanos
                * 0x4_0000_0000_0000_0000_0000),
            nanos < 1_000_000_000,
    ;
    assert((nanos * ONE) / 1_000_000_000 <= ONE) by (nonlinear_arith)
        requires
            nanos < 1_000_000_000,
            ONE == 0x4_0000_0000_0000_0000_0000,
    ;
}

/// A positive number does not round to zero.
proof fn lemma_whole_positive(n: nat)
    requires
        n > 0,
    ensures
        rounded(n, 1) > 0,
{
    let place = last_place(n, 1);
    lemma_last_place_bound(n, 1);
    lemma_last_place_positive(n, 1);
    assert(place <= n);
    assert(1 * place == place);
    vstd::arithmetic::div_mod::lemma_div_is_ordered(place as int, n as int, place as int);
    vstd::arithmetic::div_mod::lemma_div_by_self(place as int);
    assert(nearest(n, place) * place > 0) by (nonlinear_arith)
        requires
            nearest(n, place) > 0,
            place > 0,
    ;
}

/// The last place of a number is not above the number.
proof fn lemma_last_place_bound(n: nat, d: nat)
    requires
        d > 0,
    ensures
        last_place(n, d) == 1 || last_place(n, d) * d <= n,
    decreases
            (if n < MANTISSA_LIMIT * d {
                0
            } else {
                n - MANTISSA_LIMIT * d + 1
            }),
{
    if n >= MANTISSA_LIMIT * d {
        lemma_last_place_bound(n, 2 * d);
        let next = last_place(n, 2 * d);
        assert((2 * next) * d == next * (2 * d)) by (nonlinear_arith);
    }
}

/// The sum of the seconds and of the fraction, computed in coarse units.
proof fn lemma_sum(secs: nat, nanos: nat, whole: nat, fraction: nat)
    requires
        whole > 0,
        whole == rounded(secs, 1),
        fraction == rounded(nanos * ONE as nat, 1_000_000_000),
    ensures
        seconds(secs, nanos) == rounded(
            jammed(
                whole * COARSE_ONE as nat + fraction / COARSE_UNIT as nat,
                fraction % COARSE_UNIT as nat != 0,
            ),
            1,
        ) * COARSE_UNIT,
{
    vstd::arithmetic::power2::lemma2_to64();
    vstd::arithmetic::power2::lemma2_to64_rest();
    vstd::arithmetic::power2::lemma_pow2_adds(62, 20);
    lemma_rounded_scale(secs, 82);
    let n = whole * COARSE_ONE as nat + fraction / COARSE_UNIT as nat;
    lemma_rounded_jammed(n, 20, fraction % COARSE_UNIT as nat);
    assert(n * COARSE_UNIT + fraction % COARSE_UNIT as nat == whole * ONE + fraction)
        by (nonlinear_arith)
        requires
            n == whole * 0x4000_0000_0000_0000 + fraction / 0x10_0000,
            COARSE_UNIT == 0x10_0000,
            ONE == 0x4_0000_0000_0000_0000_0000,
    ;
}

/// Doubling both sides, with or without a remainder, leaves the weight of the last place.
proof fn lemma_last_place_twice(n: nat, d: nat, bit: nat)
    requires
        d > 0,
        bit <= 1,
    ensures
        last_place(2 * n + bit, 2 * d) == last_place(n, d),
    decreases
            (if n < MANTISSA_LIMIT * d {
                0
            } else {
                n - MANTISSA_LIMIT * d + 1
            }),
{
    if n >= MANTISSA_LIMIT * d {
        lemma_last_place_twice(n, 2 * d, bit);
    }
}

/// An even number and the next one have the same last place.
proof fn lemma_last_place_next(n: nat, d: nat)
    requires
        d > 0,
        n % 2 == 0,
    ensures
        last_place(n + 1, d) == last_place(n, d),
    decreases
            (if n < MANTISSA_LIMIT * d {
                0
            } else {
                n - MANTISSA_LIMIT * d + 1
            }),
{
    if n >= MANTISSA_LIMIT * d {
        lemma_last_place_next(n, 2 * d);
    } else {
        assert((MANTISSA_LIMIT * d) % 2 == 0) by {
            assert(MANTISSA_LIMIT * d == 2 * (0x10_0000_0000_0000 * d));
        }
    }
}

/// A whole number of no more than 53 bits is not changed.
proof fn lemma_rounded_exact(n: nat)
    requires
        n < MANTISSA_LIMIT,
    ensures
        rounded(n, 1) == n,
{
    assert(last_place(n, 1) == 1);
    assert(n % 1 == 0 && n / 1 == n);
}

/// A number and its double round alike.
proof fn lemma_rounded_twice(n: nat)
    ensures
        rounded(2 * n, 1) == 2 * rounded(n, 1),
{
    let place = last_place(n, 1);
    if 2 * n >= MANTISSA_LIMIT {
        lemma_last_place_twice(n, 1, 0);
        assert(last_place(2 * n, 1) == 2 * place);
        lemma_last_place_positive(n, 1);
        lemma_nearest_scale(n, place, 2);
        assert(nearest(n, place) * (2 * place) == 2 * (nearest(n, place) * place))
            by (nonlinear_arith);
        assert(1 * (2 * place) == 2 * place && 1 * place == place);
    } else {
        lemma_rounded_exact(n);
        lemma_rounded_exact(2 * n);
    }
}

/// Scaling by a power of two commutes with rounding.
proof fn lemma_rounded_scale(n: nat, k: nat)
    ensures
        rounded(n * vstd::arithmetic::power2::pow2(k), 1) == rounded(n, 1)
            * vstd::arithmetic::power2::pow2(k),
    decreases k,
{
    if k == 0 {
        vstd::arithmetic::power2::lemma2_to64();
        assert(n * 1 == n);
        assert(rounded(n, 1) * 1 == rounded(n, 1));
    } else {
        let p = vstd::arithmetic::power2::pow2((k - 1) as nat);
        vstd::arithmetic::power2::lemma_pow2_unfold(k);
        lemma_rounded_scale(n, (k - 1) as nat);
        lemma_rounded_twice(n * p);
        assert(n * (2 * p) == 2 * (n * p)) by (nonlinear_arith);
        assert(rounded(n, 1) * (2 * p) == 2 * (rounded(n, 1) * p)) by (nonlinear_arith);
    }
}

proof fn lemma_last_place_positive(n: nat, d: nat)
    ensures
        last_place(n, d) > 0,
    decreases
            (if n < MANTISSA_LIMIT * d {
                0
            } else {
                n - MANTISSA_LIMIT * d + 1
            }),
{
    if d != 0 && n >= MANTISSA_LIMIT * d {
        lemma_last_place_positive(n, 2 * d);
    }
}

/// The nearest whole number is a matter of the ratio alone.
proof fn lemma_nearest_scale(n: nat, d: nat, p: nat)
    requires
        d > 0,
        p > 0,
    ensures
        nearest(p * n, p * d) == nearest(n, d),
{
    vstd::arithmetic::div_mod::lemma_truncate_middle(n as int, p as int, d as int);
    vstd::arithmetic::div_mod::lemma_div_multiples_vanish_quotient(
        p as int,
        n as int,
        d as int,
    );
    let r = n % d;
    assert((p * n) % (p * d) == p * r);
    assert(2 * (p * r) < p * d <==> 2 * r < d) by (nonlinear_arith)
        requires
            p > 0,
    ;
    assert(2 * (p * r) == p * d <==> 2 * r == d) by (nonlinear_arith)
        requires
            p > 0,
    ;
}

/// The last place of a number that loses its last `k` bits.
proof fn lemma_last_place_truncate(n: nat, k: nat, rest: nat)
    requires
        n >= MANTISSA_LIMIT,
        rest < vstd::arithmetic::power2::pow2(k),
    ensures
        last_place(n * vstd::arithmetic::power2::pow2(k) + rest, 1) == last_place(n, 1)
            * vstd::arithmetic::power2::pow2(k),
    decreases k,
{
    vstd::arithmetic::power2::lemma2_to64();
    if k == 0 {
        assert(n * 1 == n);
        assert(last_place(n, 1) * 1 == last_place(n, 1));
    } else {
        let p = vstd::arithmetic::power2::pow2((k - 1) as nat);
        vstd::arithmetic::power2::lemma_pow2_unfold(k);
        vstd::arithmetic::power2::lemma_pow2_pos((k - 1) as nat);
        let half = rest / 2;
        lemma_last_place_truncate(n, (k - 1) as nat, half);
        let m = n * p + half;
        assert(n * p >= n) by (nonlinear_arith)
            requires
                p >= 1,
        ;
        assert(n * (2 * p) == 2 * (n * p)) by (nonlinear_arith);
        assert(n * vstd::arithmetic::power2::pow2(k) + rest == 2 * m + rest % 2);
        lemma_last_place_twice(m, 1, rest % 2);
        assert(last_place(2 * m + rest % 2, 1) == 2 * last_place(2 * m + rest % 2, 2));
        assert(2 * (last_place(n, 1) * p) == last_place(n, 1) * (2 * p)) by (nonlinear_arith);
    }
}

/// `n`, with its last bit set where a part of it was cut off.
pub open spec fn jammed(n: nat, cut: bool) -> nat {
    if cut && n % 2 == 0 {
        n + 1
    } else {
        n
    }
}

/// The nearest multiple of a large weight can be found without the last bits, as long as it is
/// remembered whether they were all zero.
proof fn lemma_nearest_jammed(n: nat, rest: nat, p: nat, weight: nat)
    requires
        rest < p,
        weight > 0,
        weight % 4 == 0,
    ensures
        nearest(n * p + rest, weight * p) == nearest(jammed(n, rest != 0), weight),
{
    let q = n / weight;
    let r = n % weight;
    let whole = n * p + rest;
    vstd::arithmetic::div_mod::lemma_fundamental_div_mod(n as int, weight as int);
    assert(whole == (weight * p) * q + (r * p + rest)) by (nonlinear_arith)
        requires
            whole == n * p + rest,
            n == weight * q + r,
    ;
    assert(r * p + rest < weight * p) by (nonlinear_arith)
        requires
            r + 1 <= weight,
            rest < p,
    ;
    assert(weight * p > 0) by (nonlinear_arith)
        requires
            weight > 0,
            p > 0,
    ;
    vstd::arithmetic::div_mod::lemma_fundamental_div_mod_converse(
        whole as int,
        (weight * p) as int,
        q as int,
        (r * p + rest) as int,
    );
    let half = weight / 2;
    assert(weight * p == 2 * (half * p)) by (nonlinear_arith)
        requires
            weight == 2 * half,
    ;
    if r < half {
        assert(r * p + rest < half * p) by (nonlinear_arith)
            requires
                r + 1 <= half,
                rest < p,
        ;
    } else if r > half {
        assert(r * p + rest > half * p) by (nonlinear_arith)
            requires
                r >= half + 1,
                p > 0,
                rest >= 0,
        ;
    }
    if jammed(n, rest != 0) != n {
        assert(weight * q == 2 * (half * q)) by (nonlinear_arith)
            requires
                weight == 2 * half,
        ;
        assert(r % 2 == 0);
        assert(r + 1 < weight);
        vstd::arithmetic::div_mod::lemma_fundamental_div_mod_converse(
            (n + 1) as int,
            weight as int,
            q as int,
            (r + 1) as int,
        );
    } else if rest != 0 {
        assert(weight * q == 2 * (half * q)) by (nonlinear_arith)
            requires
                weight == 2 * half,
        ;
        assert(r % 2 == 1);
    }
}

/// Rounding can do without the last bits of a long number, as long as it is remembered whether
/// they were all zero.
proof fn lemma_rounded_jammed(n: nat, k: nat, rest: nat)
    requires
        n >= 2 * MANTISSA_LIMIT,
        rest < vstd::arithmetic::power2::pow2(k),
    ensures
        rounded(n * vstd::arithmetic::power2::pow2(k) + rest, 1) == rounded(
            jammed(n, rest != 0),
            1,
        ) * vstd::arithmetic::power2::pow2(k),
{
    let p = vstd::arithmetic::power2::pow2(k);
    let place = last_place(n, 1);
    let short = jammed(n, rest != 0);
    lemma_last_place_truncate(n, k, rest);
    if short != n {
        lemma_last_place_next(n, 1);
    }
    assert(place == 2 * last_place(n, 2));
    assert(last_place(n, 2) == 2 * last_place(n, 4));
    lemma_last_place_positive(n, 4);
    lemma_nearest_jammed(n, rest, p, place);
    assert(1 * (place * p) == place * p && 1 * place == place);
    let digits = nearest(short, place);
    assert(digits * (place * p) == (digits * place) * p) by (nonlinear_arith);
}

/// A product of whole numbers is exact as long as it has no more than 53 bits.
pub proof fn lemma_whole_product(secs: nat, rate: nat)
    requires
        secs < MANTISSA_LIMIT,
        secs * rate < MANTISSA_LIMIT,
    ensures
        ceiling_of_product(secs, 0, rate) == secs * rate,
{
    let one = ONE as nat;
    vstd::arithmetic::power2::lemma2_to64();
    vstd::arithmetic::power2::lemma2_to64_rest();
    vstd::arithmetic::power2::lemma_pow2_adds(62, 20);
    lemma_rounded_exact(secs);
    lemma_rounded_scale(secs, 82);
    assert(last_place(0, 1_000_000_000) == 1);
    assert(rounded(0, 1_000_000_000) == 0);
    assert(0 * one == 0);
    assert(seconds(secs, 0) == secs * one);
    lemma_rounded_exact(secs * rate);
    lemma_rounded_scale(secs * rate, 82);
    assert((secs * one) * rate == (secs * rate) * one) by (nonlinear_arith);
    let n = (secs * rate) * one;
    vstd::arithmetic::div_mod::lemma_fundamental_div_mod_converse(
        n + one - 1,
        one as int,
        (secs * rate) as int,
        one - 1,
    );
}

} // verus!
