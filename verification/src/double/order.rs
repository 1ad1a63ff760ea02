//! Rounding keeps the order of numbers.

use vstd::prelude::*;

use crate::double::MANTISSA_LIMIT;
use crate::double::ONE;

verus! {

/// The last place of a number is the one that leaves 53 significant bits.
proof fn lemma_place_range(n: nat, d: nat)
    requires
        d > 0,
    ensures
        crate::double::last_place(n, d) > 0,
        n < MANTISSA_LIMIT * (d * crate::double::last_place(n, d)),
        crate::double::last_place(n, d) == 1 || MANTISSA_LIMIT * (d * crate::double::last_place(
            n,
            d,
        )) <= 2 * n,
    decreases
            (if n < MANTISSA_LIMIT * d {
                0
            } else {
                n - MANTISSA_LIMIT * d + 1
            }),
{
    if n >= MANTISSA_LIMIT * d {
        lemma_place_range(n, 2 * d);
        let next = crate::double::last_place(n, 2 * d);
        assert((2 * d) * next == d * (2 * next)) by (nonlinear_arith);
        if next == 1 {
            assert(d * 2 == 2 * d);
        }
    } else {
        assert(d * 1 == d);
    }
}

/// A larger number has the same last place, or one that weighs at least twice as much.
proof fn lemma_place_ordered(n: nat, m: nat, d: nat)
    requires
        d > 0,
        n <= m,
    ensures
        crate::double::last_place(n, d) == crate::double::last_place(m, d) || 2
            * crate::double::last_place(n, d) <= crate::double::last_place(m, d),
    decreases
            (if m < MANTISSA_LIMIT * d {
                0
            } else {
                m - MANTISSA_LIMIT * d + 1
            }),
{
    if n >= MANTISSA_LIMIT * d {
        lemma_place_ordered(n, m, 2 * d);
    } else if m >= MANTISSA_LIMIT * d {
        crate::double::lemma_last_place_positive(m, 2 * d);
    }
}

/// The nearest whole number keeps the order.
proof fn lemma_nearest_ordered(n: nat, m: nat, d: nat)
    requires
        d > 0,
        n <= m,
    ensures
        crate::double::nearest(n, d) <= crate::double::nearest(m, d),
{
    vstd::arithmetic::div_mod::lemma_div_is_ordered(n as int, m as int, d as int);
    vstd::arithmetic::div_mod::lemma_fundamental_div_mod(n as int, d as int);
    vstd::arithmetic::div_mod::lemma_fundamental_div_mod(m as int, d as int);
}

/// Rounding to 53 significant bits keeps the order.
pub proof fn lemma_rounded_ordered(n: nat, m: nat, d: nat)
    requires
        d > 0,
        n <= m,
    ensures
        crate::double::rounded(n, d) <= crate::double::rounded(m, d),
{
    let low = crate::double::last_place(n, d);
    let high = crate::double::last_place(m, d);
    lemma_place_range(n, d);
    lemma_place_range(m, d);
    lemma_place_ordered(n, m, d);
    let a = crate::double::nearest(n, d * low);
    let b = crate::double::nearest(m, d * high);
    assert(d * low > 0 && d * high > 0) by (nonlinear_arith)
        requires
            d > 0,
            low > 0,
            high > 0,
    ;
    if low == high {
        lemma_nearest_ordered(n, m, d * low);
        assert(a * low <= b * low) by (nonlinear_arith)
            requires
                a <= b,
        ;
    } else {
        vstd::arithmetic::div_mod::lemma_fundamental_div_mod(n as int, (d * low) as int);
        vstd::arithmetic::div_mod::lemma_fundamental_div_mod(m as int, (d * high) as int);
        let q = n / (d * low);
        assert(q < MANTISSA_LIMIT) by (nonlinear_arith)
            requires
                n == (d * low) * q + n % (d * low),
                n < MANTISSA_LIMIT * (d * low),
                d * low > 0,
                n % (d * low) >= 0,
        ;
        let p = m / (d * high);
        assert(2 * p + 2 > MANTISSA_LIMIT) by (nonlinear_arith)
            requires
                m == (d * high) * p + m % (d * high),
                m % (d * high) < d * high,
                MANTISSA_LIMIT * (d * high) <= 2 * m,
                d * high > 0,
        ;
        assert(2 * p >= MANTISSA_LIMIT);
        assert(a * low <= b * high) by (nonlinear_arith)
            requires
                a <= MANTISSA_LIMIT,
                2 * b >= MANTISSA_LIMIT,
                2 * low <= high,
        ;
    }
}

/// Scaling a number of 53 significant bits scales its last place.
proof fn lemma_place_scale(n: nat, k: nat)
    requires
        2 * n >= MANTISSA_LIMIT,
    ensures
        crate::double::last_place(n * vstd::arithmetic::power2::pow2(k), 1)
            == crate::double::last_place(n, 1) * vstd::arithmetic::power2::pow2(k),
    decreases k,
{
    vstd::arithmetic::power2::lemma2_to64();
    if k == 0 {
        assert(n * 1 == n);
        assert(crate::double::last_place(n, 1) * 1 == crate::double::last_place(n, 1));
    } else {
        let p = vstd::arithmetic::power2::pow2((k - 1) as nat);
        let place = crate::double::last_place(n, 1);
        vstd::arithmetic::power2::lemma_pow2_unfold(k);
        vstd::arithmetic::power2::lemma_pow2_pos((k - 1) as nat);
        lemma_place_scale(n, (k - 1) as nat);
        assert(n * p >= n) by (nonlinear_arith)
            requires
                p >= 1,
        ;
        assert(n * (2 * p) == 2 * (n * p)) by (nonlinear_arith);
        assert(place * (2 * p) == 2 * (place * p)) by (nonlinear_arith);
        crate::double::lemma_last_place_twice(n * p, 1, 0);
    }
}

/// A multiple of its own last place is not changed by rounding.
proof fn lemma_multiple_is_kept(n: nat)
    requires
        n % crate::double::last_place(n, 1) == 0,
    ensures
        crate::double::rounded(n, 1) == n,
{
    let place = crate::double::last_place(n, 1);
    lemma_place_range(n, 1);
    vstd::arithmetic::div_mod::lemma_fundamental_div_mod(n as int, place as int);
    assert(1 * place == place);
    assert(place * (n / place) == (n / place) * place) by (nonlinear_arith);
}

/// The weight of a last place is a power of two.
proof fn lemma_place_power(n: nat, d: nat) -> (k: nat)
    ensures
        crate::double::last_place(n, d) == vstd::arithmetic::power2::pow2(k),
    decreases
            (if n < MANTISSA_LIMIT * d {
                0
            } else {
                n - MANTISSA_LIMIT * d + 1
            }),
{
    vstd::arithmetic::power2::lemma2_to64();
    if d == 0 || n < MANTISSA_LIMIT * d {
        0
    } else {
        let next = lemma_place_power(n, 2 * d);
        vstd::arithmetic::power2::lemma_pow2_unfold(next + 1);
        next + 1
    }
}

/// A rounded whole number is a multiple of its last place, and one of more than 53 bits does not
/// become shorter.
proof fn lemma_rounded_is_multiple(n: nat)
    ensures
        crate::double::rounded(n, 1) % crate::double::last_place(crate::double::rounded(n, 1), 1)
            == 0,
        n >= MANTISSA_LIMIT ==> crate::double::rounded(n, 1) >= MANTISSA_LIMIT,
{
    let result = crate::double::rounded(n, 1);
    if n < MANTISSA_LIMIT {
        crate::double::lemma_rounded_exact(n);
    } else {
        let place = crate::double::last_place(n, 1);
        let k = lemma_place_power(n, 1);
        lemma_place_range(n, 1);
        assert(1 * place == place);
        assert(place >= 2);
        let digits = crate::double::nearest(n, place);
        vstd::arithmetic::div_mod::lemma_fundamental_div_mod(n as int, place as int);
        let q = n / place;
        assert(q < MANTISSA_LIMIT) by (nonlinear_arith)
            requires
                n == place * q + n % place,
                n < MANTISSA_LIMIT * place,
                place > 0,
                n % place >= 0,
        ;
        assert(2 * q + 2 > MANTISSA_LIMIT) by (nonlinear_arith)
            requires
                n == place * q + n % place,
                n % place < place,
                MANTISSA_LIMIT * place <= 2 * n,
                place > 0,
        ;
        lemma_place_scale(digits, k);
        assert(result == digits * place);
        if digits < MANTISSA_LIMIT {
            assert(crate::double::last_place(digits, 1) == 1);
            assert(1 * place == place);
            vstd::arithmetic::div_mod::lemma_mod_multiples_basic(digits as int, place as int);
        } else {
            assert(digits == MANTISSA_LIMIT);
            assert(crate::double::last_place(digits, 2) == 1);
            assert(crate::double::last_place(digits, 1) == 2);
            assert(result == 0x10_0000_0000_0000 * (2 * place));
            vstd::arithmetic::div_mod::lemma_mod_multiples_basic(
                0x10_0000_0000_0000,
                (2 * place) as int,
            );
        }
        assert(digits * place >= MANTISSA_LIMIT) by (nonlinear_arith)
            requires
                2 * digits >= MANTISSA_LIMIT,
                place >= 2,
        ;
    }
}

/// A fraction of a second does not round up to a second.
proof fn lemma_fraction_is_less(nanos: nat)
    requires
        nanos < 1_000_000_000,
    ensures
        crate::double::rounded(nanos * ONE as nat, 1_000_000_000) < ONE,
{
    let n = nanos * ONE as nat;
    let d = 1_000_000_000nat;
    let place = crate::double::last_place(n, d);
    lemma_place_range(n, d);
    assert(n <= 999_999_999 * ONE) by (nonlinear_arith)
        requires
            n == nanos * ONE,
            nanos <= 999_999_999,
    ;
    assert(place <= 0x8000_0000);
    let scaled = d * place;
    let q = n / scaled;
    vstd::arithmetic::div_mod::lemma_fundamental_div_mod(n as int, scaled as int);
    assert(d * (q * place) <= n) by (nonlinear_arith)
        requires
            n == scaled * q + n % scaled,
            n % scaled >= 0,
            scaled == d * place,
    ;
    assert((q + 1) * place == q * place + place) by (nonlinear_arith);
}

/// More than 53 bits of seconds leave no room for a fraction.
proof fn lemma_fraction_is_lost(whole: nat, fraction: nat)
    requires
        whole >= MANTISSA_LIMIT,
        whole % crate::double::last_place(whole, 1) == 0,
        fraction < ONE,
    ensures
        crate::double::rounded(whole * ONE as nat + fraction, 1) == whole * ONE,
{
    vstd::arithmetic::power2::lemma2_to64();
    vstd::arithmetic::power2::lemma2_to64_rest();
    vstd::arithmetic::power2::lemma_pow2_adds(62, 20);
    crate::double::lemma_last_place_truncate(whole, 82, fraction);
    let place = crate::double::last_place(whole, 1);
    lemma_place_range(whole, 1);
    assert(1 * place == place);
    assert(place >= 2);
    let weight = place * ONE as nat;
    let q = whole / place;
    vstd::arithmetic::div_mod::lemma_fundamental_div_mod(whole as int, place as int);
    assert(whole * ONE + fraction == weight * q + fraction && weight * q == whole * ONE)
        by (nonlinear_arith)
        requires
            whole == place * q,
            weight == place * ONE,
    ;
    assert(weight >= 2 * ONE) by (nonlinear_arith)
        requires
            weight == place * ONE,
            place >= 2,
    ;
    vstd::arithmetic::div_mod::lemma_fundamental_div_mod_converse(
        (whole * ONE + fraction) as int,
        weight as int,
        q as int,
        fraction as int,
    );
    assert(1 * weight == weight);
    assert(q * weight == weight * q) by (nonlinear_arith);
}

/// A longer time is not fewer seconds.
proof fn lemma_seconds_ordered(secs: nat, nanos: nat, later_secs: nat, later_nanos: nat)
    requires
        nanos < 1_000_000_000,
        later_nanos < 1_000_000_000,
        secs < later_secs || (secs == later_secs && nanos <= later_nanos),
    ensures
        crate::double::seconds(secs, nanos) <= crate::double::seconds(later_secs, later_nanos),
{
    vstd::arithmetic::power2::lemma2_to64();
    vstd::arithmetic::power2::lemma2_to64_rest();
    vstd::arithmetic::power2::lemma_pow2_adds(62, 20);
    let one = ONE as nat;
    let fraction = crate::double::rounded(nanos * one, 1_000_000_000);
    let later_fraction = crate::double::rounded(later_nanos * one, 1_000_000_000);
    let whole = crate::double::rounded(secs, 1);
    let later_whole = crate::double::rounded(later_secs, 1);
    crate::double::lemma_rounded_scale(secs, 82);
    crate::double::lemma_rounded_scale(later_secs, 82);
    if secs == later_secs {
        assert(nanos * one <= later_nanos * one) by (nonlinear_arith)
            requires
                nanos <= later_nanos,
        ;
        lemma_rounded_ordered(nanos * one, later_nanos * one, 1_000_000_000);
        lemma_rounded_ordered(whole * one + fraction, whole * one + later_fraction, 1);
    } else {
        lemma_fraction_is_less(nanos);
        lemma_rounded_is_multiple(secs);
        lemma_rounded_is_multiple(later_secs);
        lemma_rounded_is_multiple((secs + 1) as nat);
        lemma_rounded_ordered(secs, later_secs, 1);
        lemma_rounded_ordered(later_whole * one, later_whole * one + later_fraction, 1);
        lemma_multiple_is_kept(later_whole);
        crate::double::lemma_rounded_scale(later_whole, 82);
        if secs < MANTISSA_LIMIT {
            crate::double::lemma_rounded_exact(secs);
            lemma_rounded_ordered((secs + 1) as nat, later_secs, 1);
            if secs + 1 < MANTISSA_LIMIT {
                crate::double::lemma_rounded_exact((secs + 1) as nat);
            }
        }
        if whole < later_whole {
            assert(whole * one + one <= later_whole * one) by (nonlinear_arith)
                requires
                    whole + 1 <= later_whole,
            ;
            lemma_rounded_ordered(whole * one + fraction, later_whole * one, 1);
        } else {
            lemma_fraction_is_lost(whole, fraction);
        }
    }
}

/// A longer time is not fewer samples.
pub proof fn lemma_product_ordered(
    secs: nat,
    nanos: nat,
    later_secs: nat,
    later_nanos: nat,
    rate: nat,
)
    requires
        nanos < 1_000_000_000,
        later_nanos < 1_000_000_000,
        secs < later_secs || (secs == later_secs && nanos <= later_nanos),
    ensures
        crate::double::ceiling_of_product(secs, nanos, rate)
            <= crate::double::ceiling_of_product(later_secs, later_nanos, rate),
{
    lemma_seconds_ordered(secs, nanos, later_secs, later_nanos);
    let time = crate::double::seconds(secs, nanos);
    let later = crate::double::seconds(later_secs, later_nanos);
    assert(time * rate <= later * rate) by (nonlinear_arith)
        requires
            time <= later,
    ;
    lemma_rounded_ordered(time * rate, later * rate, 1);
    vstd::arithmetic::div_mod::lemma_div_is_ordered(
        crate::double::rounded(time * rate, 1) + ONE - 1,
        crate::double::rounded(later * rate, 1) + ONE - 1,
        ONE as int,
    );
}

/// Rounding takes off no more than one part in `2^53`.
proof fn lemma_rounded_is_close(n: nat, d: nat)
    requires
        d > 0,
        d == 1 || n == 0 || MANTISSA_LIMIT * d <= 2 * n,
    ensures
        (MANTISSA_LIMIT - 1) * n <= MANTISSA_LIMIT * (d * crate::double::rounded(n, d)),
{
    let place = crate::double::last_place(n, d);
    let weight = d * place;
    let digits = crate::double::nearest(n, weight);
    lemma_place_range(n, d);
    assert(weight > 0) by (nonlinear_arith)
        requires
            d > 0,
            place > 0,
            weight == d * place,
    ;
    vstd::arithmetic::div_mod::lemma_fundamental_div_mod(n as int, weight as int);
    let q = n / weight;
    let r = n % weight;
    assert((q + 1) * weight == weight * q + weight && q * weight == weight * q)
        by (nonlinear_arith);
    assert(2 * n <= 2 * (digits * weight) + weight);
    if place == 1 && d == 1 {
        assert(weight == 1);
        assert(digits * weight == n);
    } else if n > 0 {
        if place == 1 {
            assert(d * 1 == d);
        }
        assert(MANTISSA_LIMIT * weight <= 2 * n);
        assert(MANTISSA_LIMIT * n <= MANTISSA_LIMIT * (digits * weight) + n) by (nonlinear_arith)
            requires
                2 * n <= 2 * (digits * weight) + weight,
                MANTISSA_LIMIT * weight <= 2 * n,
        ;
    }
    assert((MANTISSA_LIMIT - 1) * n == MANTISSA_LIMIT * n - n) by (nonlinear_arith);
    assert(d * (digits * place) == digits * weight) by (nonlinear_arith)
        requires
            weight == d * place,
    ;
}

/// As long as it is below a third of `2^53`, a number of samples that fit into a time is not above
/// the number of samples that the time is counted as.
pub proof fn lemma_product_not_below(secs: nat, nanos: nat, rate: nat, count: nat)
    requires
        nanos < 1_000_000_000,
        count * 1_000_000_000 <= (secs * 1_000_000_000 + nanos) * rate,
        3 * count < MANTISSA_LIMIT,
    ensures
        count <= crate::double::ceiling_of_product(secs, nanos, rate),
{
    let m = MANTISSA_LIMIT as int;
    let one = ONE as int;
    let e = 1_000_000_000int;
    let whole = crate::double::rounded(secs * ONE as nat, 1) as int;
    let fraction = crate::double::rounded(nanos * ONE as nat, 1_000_000_000) as int;
    let time = crate::double::seconds(secs, nanos) as int;
    let product = crate::double::rounded((time as nat) * rate, 1) as int;
    let span = (secs * e + nanos) as int;
    lemma_rounded_is_close(secs * ONE as nat, 1);
    if nanos > 0 {
        assert(m * e <= 2 * (nanos * one)) by (nonlinear_arith)
            requires
                nanos >= 1,
                m == 0x20_0000_0000_0000,
                e == 1_000_000_000,
                one == 0x4_0000_0000_0000_0000_0000,
        ;
    } else {
        assert(nanos * ONE == 0);
    }
    lemma_rounded_is_close(nanos * ONE as nat, 1_000_000_000);
    lemma_rounded_is_close((whole + fraction) as nat, 1);
    lemma_rounded_is_close((time as nat) * rate, 1);
    let target = count * one;
    assert((m - 1) * (span * one) <= e * (m * (whole + fraction))) by (nonlinear_arith)
        requires
            (m - 1) * (secs * one) <= m * whole,
            (m - 1) * (nanos * one) <= m * (e * fraction),
            span == secs * e + nanos,
            e > 0,
    ;
    assert((m - 1) * ((m - 1) * (span * one)) <= e * (m * (m * time))) by (nonlinear_arith)
        requires
            (m - 1) * (span * one) <= e * (m * (whole + fraction)),
            (m - 1) * (whole + fraction) <= m * time,
            m > 1,
            e > 0,
    ;
    assert((m - 1) * ((m - 1) * ((m - 1) * (span * one * rate))) <= e * (m * (m * (m * product))))
        by (nonlinear_arith)
        requires
            (m - 1) * ((m - 1) * (span * one)) <= e * (m * (m * time)),
            (m - 1) * (time * rate) <= m * product,
            m > 1,
            e > 0,
            rate >= 0,
    ;
    assert(e * target <= span * one * rate) by (nonlinear_arith)
        requires
            count * e <= span * rate,
            target == count * one,
            one > 0,
    ;
    assert(e * ((m - 1) * ((m - 1) * ((m - 1) * target))) <= e * (m * (m * (m * product))))
        by (nonlinear_arith)
        requires
            (m - 1) * ((m - 1) * ((m - 1) * (span * one * rate))) <= e * (m * (m * (m
                * product))),
            e * target <= span * one * rate,
            m > 1,
    ;
    assert((m - 1) * ((m - 1) * ((m - 1) * target)) <= m * (m * (m * product)))
        by (nonlinear_arith)
        requires
            e * ((m - 1) * ((m - 1) * ((m - 1) * target))) <= e * (m * (m * (m * product))),
            e > 0,
    ;
    assert(m * (m * ((m - 3) * target)) <= (m - 1) * ((m - 1) * ((m - 1) * target)))
        by (nonlinear_arith)
        requires
            target >= 0,
            m > 3,
    ;
    assert((m - 3) * target <= m * product) by (nonlinear_arith)
        requires
            m * (m * ((m - 3) * target)) <= m * (m * (m * product)),
            m > 0,
    ;
    assert(m * ((count - 1) * one) < m * product) by (nonlinear_arith)
        requires
            (m - 3) * target <= m * product,
            target == count * one,
            3 * count < m,
            one > 0,
    ;
    assert((count - 1) * one < product) by (nonlinear_arith)
        requires
            m * ((count - 1) * one) < m * product,
            m > 0,
    ;
    assert(one * count == (count - 1) * one + one) by (nonlinear_arith);
    vstd::arithmetic::div_mod::lemma_div_is_ordered(one * count, product + one - 1, one);
    vstd::arithmetic::div_mod::lemma_div_multiples_vanish(count as int, one);
}

/// Rounding adds no more than one part in `2^53`.
proof fn lemma_rounded_is_close_above(n: nat, d: nat)
    requires
        d > 0,
        d == 1 || n == 0 || MANTISSA_LIMIT * d <= 2 * n,
    ensures
        MANTISSA_LIMIT * (d * crate::double::rounded(n, d)) <= (MANTISSA_LIMIT + 1) * n,
{
    let place = crate::double::last_place(n, d);
    let weight = d * place;
    let digits = crate::double::nearest(n, weight);
    lemma_place_range(n, d);
    assert(weight > 0) by (nonlinear_arith)
        requires
            d > 0,
            place > 0,
            weight == d * place,
    ;
    vstd::arithmetic::div_mod::lemma_fundamental_div_mod(n as int, weight as int);
    let q = n / weight;
    assert((q + 1) * weight == weight * q + weight && q * weight == weight * q)
        by (nonlinear_arith);
    assert(2 * (digits * weight) <= 2 * n + weight);
    if place == 1 && d == 1 {
        assert(weight == 1);
        assert(digits * weight == n);
        assert(MANTISSA_LIMIT * (digits * weight) <= MANTISSA_LIMIT * n + n);
    } else if n > 0 {
        if place == 1 {
            assert(d * 1 == d);
        }
        assert(MANTISSA_LIMIT * weight <= 2 * n);
        assert(MANTISSA_LIMIT * (digits * weight) <= MANTISSA_LIMIT * n + n) by (nonlinear_arith)
            requires
                2 * (digits * weight) <= 2 * n + weight,
                MANTISSA_LIMIT * weight <= 2 * n,
        ;
    } else {
        assert(place == 1);
        assert(d * 1 == d);
        vstd::arithmetic::div_mod::lemma_div_basics(weight as int);
        assert(q == 0);
        assert(0 * weight == 0);
    }
    assert((MANTISSA_LIMIT + 1) * n == MANTISSA_LIMIT * n + n) by (nonlinear_arith);
    assert(d * (digits * place) == digits * weight) by (nonlinear_arith)
        requires
            weight == d * place,
    ;
}

/// The number of samples that a time is counted as is less than two above the exact number.
pub proof fn lemma_product_not_above(secs: nat, nanos: nat, rate: nat)
    requires
        nanos < 1_000_000_000,
        4 * ((secs * 1_000_000_000 + nanos) * rate) <= MANTISSA_LIMIT * 1_000_000_000,
    ensures
        crate::double::ceiling_of_product(secs, nanos, rate) * 1_000_000_000 < (secs * 1_000_000_000
            + nanos) * rate + 2_000_000_000,
{
    let m = MANTISSA_LIMIT as int;
    let one = ONE as int;
    let e = 1_000_000_000int;
    let whole = crate::double::rounded(secs * ONE as nat, 1) as int;
    let fraction = crate::double::rounded(nanos * ONE as nat, 1_000_000_000) as int;
    let time = crate::double::seconds(secs, nanos) as int;
    let product = crate::double::rounded((time as nat) * rate, 1) as int;
    let span = (secs * e + nanos) as int;
    lemma_rounded_is_close_above(secs * ONE as nat, 1);
    if nanos > 0 {
        assert(m * e <= 2 * (nanos * one)) by (nonlinear_arith)
            requires
                nanos >= 1,
                m == 0x20_0000_0000_0000,
                e == 1_000_000_000,
                one == 0x4_0000_0000_0000_0000_0000,
        ;
    } else {
        assert(nanos * ONE == 0);
    }
    lemma_rounded_is_close_above(nanos * ONE as nat, 1_000_000_000);
    lemma_rounded_is_close_above((whole + fraction) as nat, 1);
    lemma_rounded_is_close_above((time as nat) * rate, 1);
    assert(e * (m * (whole + fraction)) <= (m + 1) * (span * one)) by (nonlinear_arith)
        requires
            m * whole <= (m + 1) * (secs * one),
            m * (e * fraction) <= (m + 1) * (nanos * one),
            span == secs * e + nanos,
            e > 0,
    ;
    assert(e * (m * (m * time)) <= (m + 1) * ((m + 1) * (span * one))) by (nonlinear_arith)
        requires
            e * (m * (whole + fraction)) <= (m + 1) * (span * one),
            m * time <= (m + 1) * (whole + fraction),
            m > 1,
            e > 0,
    ;
    let exact = span * rate * one;
    assert(e * (m * (m * (m * product))) <= (m + 1) * ((m + 1) * ((m + 1) * exact)))
        by (nonlinear_arith)
        requires
            e * (m * (m * time)) <= (m + 1) * ((m + 1) * (span * one)),
            m * product <= (m + 1) * (time * rate),
            exact == span * rate * one,
            m > 1,
            e > 0,
            rate >= 0,
    ;
    assert(exact >= 0) by (nonlinear_arith)
        requires
            exact == span * rate * one,
            span >= 0,
            rate >= 0,
            one > 0,
    ;
    assert((m + 1) * ((m + 1) * ((m + 1) * exact)) <= m * (m * ((m + 4) * exact)))
        by (nonlinear_arith)
        requires
            exact >= 0,
            m > 8,
    ;
    assert(e * (m * product) <= (m + 4) * exact) by (nonlinear_arith)
        requires
            e * (m * (m * (m * product))) <= m * (m * ((m + 4) * exact)),
            m > 0,
    ;
    assert(4 * exact <= m * e * one) by (nonlinear_arith)
        requires
            4 * (span * rate) <= m * e,
            exact == span * rate * one,
            one > 0,
    ;
    assert(e * product <= exact + e * one) by (nonlinear_arith)
        requires
            e * (m * product) <= (m + 4) * exact,
            4 * exact <= m * e * one,
            m > 0,
    ;
    let count = (product + one - 1) / one;
    vstd::arithmetic::div_mod::lemma_fundamental_div_mod(product + one - 1, one);
    assert(count * one <= product + one - 1) by (nonlinear_arith)
        requires
            product + one - 1 == one * count + (product + one - 1) % one,
            (product + one - 1) % one >= 0,
    ;
    assert(count * e < span * rate + 2 * e) by (nonlinear_arith)
        requires
            count * one <= product + one - 1,
            e * product <= exact + e * one,
            exact == span * rate * one,
            one > 0,
            e > 0,
    ;
}

/// Rounding gives the nearest number of 53 significant bits, the even one of two: a multiple of the
/// last place, which is a power of two.
pub proof fn law_rounding_is_to_nearest(n: nat, d: nat)
    requires
        d > 0,
    ensures
        ({
            let place = crate::double::last_place(n, d);
            let digits = crate::double::nearest(n, d * place);
            let result = crate::double::rounded(n, d);
            &&& crate::double::is_power_of_two(place)
            &&& n < MANTISSA_LIMIT * (d * place)
            &&& place == 1 || MANTISSA_LIMIT * (d * place) <= 2 * n
            &&& result == digits * place
            &&& 2 * n <= 2 * (digits * (d * place)) + d * place
            &&& 2 * (digits * (d * place)) <= 2 * n + d * place
            &&& 2 * n == 2 * (digits * (d * place)) + d * place || 2 * (digits * (d * place)) == 2
                * n + d * place ==> digits % 2 == 0
        }),
{
    let place = crate::double::last_place(n, d);
    let weight = d * place;
    lemma_place_range(n, d);
    let k = lemma_place_power(n, d);
    assert(weight > 0) by (nonlinear_arith)
        requires
            d > 0,
            place > 0,
            weight == d * place,
    ;
    vstd::arithmetic::div_mod::lemma_fundamental_div_mod(n as int, weight as int);
    let q = n / weight;
    assert((q + 1) * weight == weight * q + weight && q * weight == weight * q)
        by (nonlinear_arith);
}

/// Whether `digits` times `place` is the number of 53 significant bits that is nearest to `n / d`,
/// the even one of two.
pub open spec fn rounds_to(n: nat, d: nat, digits: nat, place: nat) -> bool {
    &&& crate::double::is_power_of_two(place)
    &&& n < MANTISSA_LIMIT * (d * place)
    &&& place == 1 || MANTISSA_LIMIT * (d * place) <= 2 * n
    &&& 2 * n <= 2 * (digits * (d * place)) + d * place
    &&& 2 * (digits * (d * place)) <= 2 * n + d * place
    &&& 2 * n == 2 * (digits * (d * place)) + d * place || 2 * (digits * (d * place)) == 2 * n + d
        * place ==> digits % 2 == 0
}

/// The seconds of a time are the sum of its whole seconds and of its nanoseconds, each rounded and
/// then the sum; times a rate, this is rounded once more, and the number of samples is the ceiling
/// of that.
pub proof fn law_count_is_ceiling_of_rounded_product(secs: nat, nanos: nat, rate: nat)
    ensures
        exists|
            whole: (nat, nat),
            fraction: (nat, nat),
            time: (nat, nat),
            product: (nat, nat),
        |
            {
                let count = crate::double::ceiling_of_product(secs, nanos, rate);
                &&& #[trigger] rounds_to(secs * ONE as nat, 1, whole.0, whole.1)
                &&& #[trigger] rounds_to(
                    nanos * ONE as nat,
                    1_000_000_000,
                    fraction.0,
                    fraction.1,
                )
                &&& #[trigger] rounds_to(
                    whole.0 * whole.1 + fraction.0 * fraction.1,
                    1,
                    time.0,
                    time.1,
                )
                &&& #[trigger] rounds_to(time.0 * time.1 * rate, 1, product.0, product.1)
                &&& product.0 * product.1 <= count * ONE < product.0 * product.1 + ONE
            },
{
    let a = secs * ONE as nat;
    let b = nanos * ONE as nat;
    let c = crate::double::rounded(a, 1) + crate::double::rounded(b, 1_000_000_000);
    let d = crate::double::rounded(c, 1) * rate;
    law_rounding_is_to_nearest(a, 1);
    law_rounding_is_to_nearest(b, 1_000_000_000);
    law_rounding_is_to_nearest(c, 1);
    law_rounding_is_to_nearest(d, 1);
    law_ceiling_is_least(crate::double::rounded(d, 1));
    let whole_place = crate::double::last_place(a, 1);
    let fraction_place = crate::double::last_place(b, 1_000_000_000);
    let time_place = crate::double::last_place(c, 1);
    let product_place = crate::double::last_place(d, 1);
    let whole = (crate::double::nearest(a, 1 * whole_place), whole_place);
    let fraction = (
        crate::double::nearest(b, 1_000_000_000 * fraction_place),
        fraction_place,
    );
    let time = (crate::double::nearest(c, 1 * time_place), time_place);
    let product = (crate::double::nearest(d, 1 * product_place), product_place);
    assert(rounds_to(a, 1, whole.0, whole.1));
    assert(rounds_to(b, 1_000_000_000, fraction.0, fraction.1));
    assert(rounds_to(whole.0 * whole.1 + fraction.0 * fraction.1, 1, time.0, time.1));
    assert(rounds_to(time.0 * time.1 * rate, 1, product.0, product.1));
}

/// A ceiling is the least whole number that is not below.
pub proof fn law_ceiling_is_least(n: nat)
    ensures
        n <= crate::double::ceiling(n) * ONE,
        crate::double::ceiling(n) * ONE < n + ONE,
{
    let one = ONE as int;
    vstd::arithmetic::div_mod::lemma_fundamental_div_mod(n + one - 1, one);
    let count = (n + one - 1) / one;
    assert(one * count == count * one) by (nonlinear_arith);
}

} // verus!
