//! Frequencies.

use std::ops::{Add, Div, Mul, Sub};

use vstd::prelude::*;
use vstd::std_specs::ops::{AddSpecImpl, DivSpecImpl, MulSpecImpl, SubSpecImpl};
use vstd::string::StringExecFns;

verus! {

/// A frequency, in whole cycles per second.
#[derive(Debug, Clone, Copy, PartialEq, Eq, PartialOrd, Ord, Hash, Structural)]
pub struct Hz(pub isize);

impl View for Hz {
    type V = int;

    open spec fn view(&self) -> int {
        self.0 as int
    }
}

/// Whether a frequency of `value` can be held.
pub open spec fn holds(value: int) -> bool {
    isize::MIN <= value <= isize::MAX
}

/// `a / b`, rounded towards zero.
pub open spec fn quotient(a: int, b: int) -> int {
    if a >= 0 {
        a / b
    } else {
        -((-a) / b)
    }
}

/// Whether `a` can be divided by `b`.
pub open spec fn divides(a: isize, b: isize) -> bool {
    b != 0 && !(a == isize::MIN && b == -1)
}

/// A thousand times a frequency.
fn thousand_times(frequency: Hz) -> (product: Hz)
    requires
        holds(frequency@ * 1000),
    ensures
        product@ == frequency@ * 1000,
{
    Hz(frequency.0 * 1000)
}

/// Numbers as frequencies.
pub trait HzExt: Sized {
    /// The number in the range of frequencies.
    spec fn hertz(self) -> isize;

    /// As many cycles per second.
    fn hz(self) -> (frequency: Hz)
        ensures
            frequency@ == self.hertz(),
    ;

    /// As many thousand cycles per second.
    fn khz(self) -> (frequency: Hz)
        requires
            holds(self.hertz() * 1000),
        ensures
            frequency@ == self.hertz() * 1000,
    {
        thousand_times(self.hz())
    }

    /// As many million cycles per second.
    fn mhz(self) -> (frequency: Hz)
        requires
            holds(self.hertz() * 1_000_000),
        ensures
            frequency@ == self.hertz() * 1_000_000,
    {
        thousand_times(self.khz())
    }

    /// As many billion cycles per second.
    fn ghz(self) -> (frequency: Hz)
        requires
            holds(self.hertz() * 1_000_000_000),
        ensures
            frequency@ == self.hertz() * 1_000_000_000,
    {
        thousand_times(self.mhz())
    }
}

impl Add for Hz {
    type Output = Hz;

    fn add(self, rhs: Hz) -> (sum: Hz) {
        Hz(self.0 + rhs.0)
    }
}

impl AddSpecImpl for Hz {
    open spec fn obeys_add_spec() -> bool {
        true
    }

    open spec fn add_req(self, rhs: Hz) -> bool {
        holds(self@ + rhs@)
    }

    open spec fn add_spec(self, rhs: Hz) -> Hz {
        Hz((self@ + rhs@) as isize)
    }
}

impl Sub for Hz {
    type Output = Hz;

    fn sub(self, rhs: Hz) -> (difference: Hz) {
        Hz(self.0 - rhs.0)
    }
}

impl SubSpecImpl for Hz {
    open spec fn obeys_sub_spec() -> bool {
        true
    }

    open spec fn sub_req(self, rhs: Hz) -> bool {
        holds(self@ - rhs@)
    }

    open spec fn sub_spec(self, rhs: Hz) -> Hz {
        Hz((self@ - rhs@) as isize)
    }
}

impl HzExt for u8 {
    open spec fn hertz(self) -> isize {
        self as isize
    }

    fn hz(self) -> (frequency: Hz) {
        Hz(self as isize)
    }
}

impl Mul<u8> for Hz {
    type Output = Hz;

    fn mul(self, rhs: u8) -> (product: Hz) {
        Hz(self.0 * rhs as isize)
    }
}

impl MulSpecImpl<u8> for Hz {
    open spec fn obeys_mul_spec() -> bool {
        true
    }

    open spec fn mul_req(self, rhs: u8) -> bool {
        holds(self@ * (rhs as isize))
    }

    open spec fn mul_spec(self, rhs: u8) -> Hz {
        Hz((self@ * (rhs as isize)) as isize)
    }
}

impl Div<u8> for Hz {
    type Output = Hz;

    fn div(self, rhs: u8) -> (ratio: Hz) {
        Hz(self.0 / rhs as isize)
    }
}

impl DivSpecImpl<u8> for Hz {
    open spec fn obeys_div_spec() -> bool {
        true
    }

    open spec fn div_req(self, rhs: u8) -> bool {
        divides(self.0, rhs as isize)
    }

    open spec fn div_spec(self, rhs: u8) -> Hz {
        Hz(quotient(self@, (rhs as isize) as int) as isize)
    }
}

impl HzExt for i8 {
    open spec fn hertz(self) -> isize {
        self as isize
    }

    fn hz(self) -> (frequency: Hz) {
        Hz(self as isize)
    }
}

impl Mul<i8> for Hz {
    type Output = Hz;

    fn mul(self, rhs: i8) -> (product: Hz) {
        Hz(self.0 * rhs as isize)
    }
}

impl MulSpecImpl<i8> for Hz {
    open spec fn obeys_mul_spec() -> bool {
        true
    }

    open spec fn mul_req(self, rhs: i8) -> bool {
        holds(self@ * (rhs as isize))
    }

    open spec fn mul_spec(self, rhs: i8) -> Hz {
        Hz((self@ * (rhs as isize)) as isize)
    }
}

impl Div<i8> for Hz {
    type Output = Hz;

    fn div(self, rhs: i8) -> (ratio: Hz) {
        Hz(self.0 / rhs as isize)
    }
}

impl DivSpecImpl<i8> for Hz {
    open spec fn obeys_div_spec() -> bool {
        true
    }

    open spec fn div_req(self, rhs: i8) -> bool {
        divides(self.0, rhs as isize)
    }

    open spec fn div_spec(self, rhs: i8) -> Hz {
        Hz(quotient(self@, (rhs as isize) as int) as isize)
    }
}

impl HzExt for u16 {
    open spec fn hertz(self) -> isize {
        self as isize
    }

    fn hz(self) -> (frequency: Hz) {
        Hz(self as isize)
    }
}

impl Mul<u16> for Hz {
    type Output = Hz;

    fn mul(self, rhs: u16) -> (product: Hz) {
        Hz(self.0 * rhs as isize)
    }
}

impl MulSpecImpl<u16> for Hz {
    open spec fn obeys_mul_spec() -> bool {
        true
    }

    open spec fn mul_req(self, rhs: u16) -> bool {
        holds(self@ * (rhs as isize))
    }

    open spec fn mul_spec(self, rhs: u16) -> Hz {
        Hz((self@ * (rhs as isize)) as isize)
    }
}

impl Div<u16> for Hz {
    type Output = Hz;

    fn div(self, rhs: u16) -> (ratio: Hz) {
        Hz(self.0 / rhs as isize)
    }
}

impl DivSpecImpl<u16> for Hz {
    open spec fn obeys_div_spec() -> bool {
        true
    }

    open spec fn div_req(self, rhs: u16) -> bool {
        divides(self.0, rhs as isize)
    }

    open spec fn div_spec(self, rhs: u16) -> Hz {
        Hz(quotient(self@, (rhs as isize) as int) as isize)
    }
}

impl HzExt for i16 {
    open spec fn hertz(self) -> isize {
        self as isize
    }

    fn hz(self) -> (frequency: Hz) {
        Hz(self as isize)
    }
}

impl Mul<i16> for Hz {
    type Output = Hz;

    fn mul(self, rhs: i16) -> (product: Hz) {
        Hz(self.0 * rhs as isize)
    }
}

impl MulSpecImpl<i16> for Hz {
    open spec fn obeys_mul_spec() -> bool {
        true
    }

    open spec fn mul_req(self, rhs: i16) -> bool {
        holds(self@ * (rhs as isize))
    }

    open spec fn mul_spec(self, rhs: i16) -> Hz {
        Hz((self@ * (rhs as isize)) as isize)
    }
}

impl Div<i16> for Hz {
    type Output = Hz;

    fn div(self, rhs: i16) -> (ratio: Hz) {
        Hz(self.0 / rhs as isize)
    }
}

impl DivSpecImpl<i16> for Hz {
    open spec fn obeys_div_spec() -> bool {
        true
    }

    open spec fn div_req(self, rhs: i16) -> bool {
        divides(self.0, rhs as isize)
    }

    open spec fn div_spec(self, rhs: i16) -> Hz {
        Hz(quotient(self@, (rhs as isize) as int) as isize)
    }
}

impl HzExt for u32 {
    open spec fn hertz(self) -> isize {
        self as isize
    }

    fn hz(self) -> (frequency: Hz) {
        Hz(self as isize)
    }
}

impl Mul<u32> for Hz {
    type Output = Hz;

    fn mul(self, rhs: u32) -> (product: Hz) {
        Hz(self.0 * rhs as isize)
    }
}

impl MulSpecImpl<u32> for Hz {
    open spec fn obeys_mul_spec() -> bool {
        true
    }

    open spec fn mul_req(self, rhs: u32) -> bool {
        holds(self@ * (rhs as isize))
    }

    open spec fn mul_spec(self, rhs: u32) -> Hz {
        Hz((self@ * (rhs as isize)) as isize)
    }
}

impl Div<u32> for Hz {
    type Output = Hz;

    fn div(self, rhs: u32) -> (ratio: Hz) {
        Hz(self.0 / rhs as isize)
    }
}

impl DivSpecImpl<u32> for Hz {
    open spec fn obeys_div_spec() -> bool {
        true
    }

    open spec fn div_req(self, rhs: u32) -> bool {
        divides(self.0, rhs as isize)
    }

    open spec fn div_spec(self, rhs: u32) -> Hz {
        Hz(quotient(self@, (rhs as isize) as int) as isize)
    }
}

impl HzExt for i32 {
    open spec fn hertz(self) -> isize {
        self as isize
    }

    fn hz(self) -> (frequency: Hz) {
        Hz(self as isize)
    }
}

impl Mul<i32> for Hz {
    type Output = Hz;

    fn mul(self, rhs: i32) -> (product: Hz) {
        Hz(self.0 * rhs as isize)
    }
}

impl MulSpecImpl<i32> for Hz {
    open spec fn obeys_mul_spec() -> bool {
        true
    }

    open spec fn mul_req(self, rhs: i32) -> bool {
        holds(self@ * (rhs as isize))
    }

    open spec fn mul_spec(self, rhs: i32) -> Hz {
        Hz((self@ * (rhs as isize)) as isize)
    }
}

impl Div<i32> for Hz {
    type Output = Hz;

    fn div(self, rhs: i32) -> (ratio: Hz) {
        Hz(self.0 / rhs as isize)
    }
}

impl DivSpecImpl<i32> for Hz {
    open spec fn obeys_div_spec() -> bool {
        true
    }

    open spec fn div_req(self, rhs: i32) -> bool {
        divides(self.0, rhs as isize)
    }

    open spec fn div_spec(self, rhs: i32) -> Hz {
        Hz(quotient(self@, (rhs as isize) as int) as isize)
    }
}

impl HzExt for u64 {
    open spec fn hertz(self) -> isize {
        self as isize
    }

    fn hz(self) -> (frequency: Hz) {
        Hz(self as isize)
    }
}

impl Mul<u64> for Hz {
    type Output = Hz;

    fn mul(self, rhs: u64) -> (product: Hz) {
        Hz(self.0 * rhs as isize)
    }
}

impl MulSpecImpl<u64> for Hz {
    open spec fn obeys_mul_spec() -> bool {
        true
    }

    open spec fn mul_req(self, rhs: u64) -> bool {
        holds(self@ * (rhs as isize))
    }

    open spec fn mul_spec(self, rhs: u64) -> Hz {
        Hz((self@ * (rhs as isize)) as isize)
    }
}

impl Div<u64> for Hz {
    type Output = Hz;

    fn div(self, rhs: u64) -> (ratio: Hz) {
        Hz(self.0 / rhs as isize)
    }
}

impl DivSpecImpl<u64> for Hz {
    open spec fn obeys_div_spec() -> bool {
        true
    }

    open spec fn div_req(self, rhs: u64) -> bool {
        divides(self.0, rhs as isize)
    }

    open spec fn div_spec(self, rhs: u64) -> Hz {
        Hz(quotient(self@, (rhs as isize) as int) as isize)
    }
}

impl HzExt for i64 {
    open spec fn hertz(self) -> isize {
        self as isize
    }

    fn hz(self) -> (frequency: Hz) {
        Hz(self as isize)
    }
}

impl Mul<i64> for Hz {
    type Output = Hz;

    fn mul(self, rhs: i64) -> (product: Hz) {
        Hz(self.0 * rhs as isize)
    }
}

impl MulSpecImpl<i64> for Hz {
    open spec fn obeys_mul_spec() -> bool {
        true
    }

    open spec fn mul_req(self, rhs: i64) -> bool {
        holds(self@ * (rhs as isize))
    }

    open spec fn mul_spec(self, rhs: i64) -> Hz {
        Hz((self@ * (rhs as isize)) as isize)
    }
}

impl Div<i64> for Hz {
    type Output = Hz;

    fn div(self, rhs: i64) -> (ratio: Hz) {
        Hz(self.0 / rhs as isize)
    }
}

impl DivSpecImpl<i64> for Hz {
    open spec fn obeys_div_spec() -> bool {
        true
    }

    open spec fn div_req(self, rhs: i64) -> bool {
        divides(self.0, rhs as isize)
    }

    open spec fn div_spec(self, rhs: i64) -> Hz {
        Hz(quotient(self@, (rhs as isize) as int) as isize)
    }
}

impl HzExt for usize {
    open spec fn hertz(self) -> isize {
        self as isize
    }

    fn hz(self) -> (frequency: Hz) {
        Hz(self as isize)
    }
}

impl Mul<usize> for Hz {
    type Output = Hz;

    fn mul(self, rhs: usize) -> (product: Hz) {
        Hz(self.0 * rhs as isize)
    }
}

impl MulSpecImpl<usize> for Hz {
    open spec fn obeys_mul_spec() -> bool {
        true
    }

    open spec fn mul_req(self, rhs: usize) -> bool {
        holds(self@ * (rhs as isize))
    }

    open spec fn mul_spec(self, rhs: usize) -> Hz {
        Hz((self@ * (rhs as isize)) as isize)
    }
}

impl Div<usize> for Hz {
    type Output = Hz;

    fn div(self, rhs: usize) -> (ratio: Hz) {
        Hz(self.0 / rhs as isize)
    }
}

impl DivSpecImpl<usize> for Hz {
    open spec fn obeys_div_spec() -> bool {
        true
    }

    open spec fn div_req(self, rhs: usize) -> bool {
        divides(self.0, rhs as isize)
    }

    open spec fn div_spec(self, rhs: usize) -> Hz {
        Hz(quotient(self@, (rhs as isize) as int) as isize)
    }
}

impl HzExt for isize {
    open spec fn hertz(self) -> isize {
        self as isize
    }

    fn hz(self) -> (frequency: Hz) {
        Hz(self as isize)
    }
}

impl Mul<isize> for Hz {
    type Output = Hz;

    fn mul(self, rhs: isize) -> (product: Hz) {
        Hz(self.0 * rhs as isize)
    }
}

impl MulSpecImpl<isize> for Hz {
    open spec fn obeys_mul_spec() -> bool {
        true
    }

    open spec fn mul_req(self, rhs: isize) -> bool {
        holds(self@ * (rhs as isize))
    }

    open spec fn mul_spec(self, rhs: isize) -> Hz {
        Hz((self@ * (rhs as isize)) as isize)
    }
}

impl Div<isize> for Hz {
    type Output = Hz;

    fn div(self, rhs: isize) -> (ratio: Hz) {
        Hz(self.0 / rhs as isize)
    }
}

impl DivSpecImpl<isize> for Hz {
    open spec fn obeys_div_spec() -> bool {
        true
    }

    open spec fn div_req(self, rhs: isize) -> bool {
        divides(self.0, rhs as isize)
    }

    open spec fn div_spec(self, rhs: isize) -> Hz {
        Hz(quotient(self@, (rhs as isize) as int) as isize)
    }
}

/// A frequency divided by a number is not larger than the frequency, so it can be held.
pub proof fn law_quotient_is_held(a: isize, b: isize)
    requires
        divides(a, b),
    ensures
        holds(quotient(a as int, b as int)),
        a >= 0 && b > 0 ==> 0 <= quotient(a as int, b as int) <= a,
{
    let n = if a >= 0 {
        a as int
    } else {
        -a
    };
    let q = n / (b as int);
    vstd::arithmetic::div_mod::lemma_fundamental_div_mod(n, b as int);
    let r = n % (b as int);
    assert(b >= 1 ==> 0 <= q <= n) by (nonlinear_arith)
        requires
            n == b * q + r,
            n >= 0,
            b >= 1 ==> 0 <= r < b,
    ;
    assert(b <= -1 ==> -n <= q <= 0) by (nonlinear_arith)
        requires
            n == b * q + r,
            n >= 0,
            b <= -1 ==> 0 <= r < -b,
    ;
    assert(b <= -2 && n > 0 ==> -n < q) by (nonlinear_arith)
        requires
            n == b * q + r,
            n >= 0,
            b <= -1 ==> 0 <= r < -b,
            b <= -1 ==> -n <= q <= 0,
    ;
}

/// Dividing undoes multiplying.
pub proof fn law_division_undoes_multiplication(frequency: int, factor: int)
    requires
        factor != 0,
    ensures
        quotient(frequency * factor, factor) == frequency,
{
    let product = frequency * factor;
    if product >= 0 {
        assert(product == factor * frequency) by (nonlinear_arith)
            requires
                product == frequency * factor,
        ;
        lemma_exact_quotient(product, factor, frequency);
    } else {
        assert(-product == factor * (-frequency)) by (nonlinear_arith)
            requires
                product == frequency * factor,
        ;
        lemma_exact_quotient(-product, factor, -frequency);
    }
}

/// A quotient is rounded towards zero: what it falls short of is less than the divisor, and it does
/// not go beyond.
pub proof fn law_quotient_rounds_towards_zero(a: int, b: int)
    requires
        b != 0,
    ensures
        a >= 0 ==> 0 <= a - b * quotient(a, b) < (if b > 0 {
            b
        } else {
            -b
        }),
        a < 0 ==> 0 <= b * quotient(a, b) - a < (if b > 0 {
            b
        } else {
            -b
        }),
{
    let n = if a >= 0 {
        a
    } else {
        -a
    };
    vstd::arithmetic::div_mod::lemma_fundamental_div_mod(n, b);
    assert(0 <= n % b < (if b > 0 {
        b
    } else {
        -b
    })) by (nonlinear_arith)
        requires
            b != 0,
    ;
    assert(b * (-(n / b)) == -(b * (n / b))) by (nonlinear_arith);
}

/// Every frequency in the range of the number behind it can be held, and divided by everything but
/// zero, unless the quotient is out of that range.
pub proof fn law_range_is_that_of_the_number(value: int, a: isize, b: isize)
    ensures
        holds(value) <==> isize::MIN <= value <= isize::MAX,
        divides(a, b) <==> b != 0 && (a != isize::MIN || b != -1),
{
}

/// Sums and differences of frequencies are those of their numbers.
pub proof fn law_sums_are_exact(frequency: Hz, other: Hz)
    ensures
        holds(frequency@ + other@) ==> vstd::std_specs::ops::AddSpec::add_req(frequency, other) && vstd::std_specs::ops::AddSpec::add_spec(frequency, other)@
            == frequency@ + other@,
        holds(frequency@ - other@) ==> vstd::std_specs::ops::SubSpec::sub_req(frequency, other) && vstd::std_specs::ops::SubSpec::sub_spec(frequency, other)@
            == frequency@ - other@,
{
}

/// Multiples of a frequency are those of its number, whatever the type of the factor.
pub proof fn law_multiples_are_exact(
    frequency: Hz,
    of_u8: u8,
    of_i8: i8,
    of_u16: u16,
    of_i16: i16,
    of_u32: u32,
    of_i32: i32,
    of_u64: u64,
    of_i64: i64,
    of_usize: usize,
    of_isize: isize,
)
    ensures
        holds(of_u8 as int) && holds(frequency@ * of_u8) ==> vstd::std_specs::ops::MulSpec::mul_req(frequency, of_u8)
            && vstd::std_specs::ops::MulSpec::mul_spec(frequency, of_u8)@ == frequency@ * of_u8,
        holds(of_i8 as int) && holds(frequency@ * of_i8) ==> vstd::std_specs::ops::MulSpec::mul_req(frequency, of_i8)
            && vstd::std_specs::ops::MulSpec::mul_spec(frequency, of_i8)@ == frequency@ * of_i8,
        holds(of_u16 as int) && holds(frequency@ * of_u16) ==> vstd::std_specs::ops::MulSpec::mul_req(frequency, of_u16)
            && vstd::std_specs::ops::MulSpec::mul_spec(frequency, of_u16)@ == frequency@ * of_u16,
        holds(of_i16 as int) && holds(frequency@ * of_i16) ==> vstd::std_specs::ops::MulSpec::mul_req(frequency, of_i16)
            && vstd::std_specs::ops::MulSpec::mul_spec(frequency, of_i16)@ == frequency@ * of_i16,
        holds(of_u32 as int) && holds(frequency@ * of_u32) ==> vstd::std_specs::ops::MulSpec::mul_req(frequency, of_u32)
            && vstd::std_specs::ops::MulSpec::mul_spec(frequency, of_u32)@ == frequency@ * of_u32,
        holds(of_i32 as int) && holds(frequency@ * of_i32) ==> vstd::std_specs::ops::MulSpec::mul_req(frequency, of_i32)
            && vstd::std_specs::ops::MulSpec::mul_spec(frequency, of_i32)@ == frequency@ * of_i32,
        holds(of_u64 as int) && holds(frequency@ * of_u64) ==> vstd::std_specs::ops::MulSpec::mul_req(frequency, of_u64)
            && vstd::std_specs::ops::MulSpec::mul_spec(frequency, of_u64)@ == frequency@ * of_u64,
        holds(of_i64 as int) && holds(frequency@ * of_i64) ==> vstd::std_specs::ops::MulSpec::mul_req(frequency, of_i64)
            && vstd::std_specs::ops::MulSpec::mul_spec(frequency, of_i64)@ == frequency@ * of_i64,
        holds(of_usize as int) && holds(frequency@ * of_usize) ==> vstd::std_specs::ops::MulSpec::mul_req(frequency, of_usize)
            && vstd::std_specs::ops::MulSpec::mul_spec(frequency, of_usize)@ == frequency@ * of_usize,
        holds(of_isize as int) && holds(frequency@ * of_isize) ==> vstd::std_specs::ops::MulSpec::mul_req(frequency, of_isize)
            && vstd::std_specs::ops::MulSpec::mul_spec(frequency, of_isize)@ == frequency@ * of_isize,
{
}

/// Parts of a frequency are those of its number, rounded towards zero, whatever the type of the
/// divisor.
pub proof fn law_parts_are_rounded_towards_zero(
    frequency: Hz,
    of_u8: u8,
    of_i8: i8,
    of_u16: u16,
    of_i16: i16,
    of_u32: u32,
    of_i32: i32,
    of_u64: u64,
    of_i64: i64,
    of_usize: usize,
    of_isize: isize,
)
    ensures
        holds(of_u8 as int) && of_u8 != 0 && holds(quotient(frequency@, of_u8 as int)) ==> {
            &&& vstd::std_specs::ops::DivSpec::div_req(frequency, of_u8)
            &&& vstd::std_specs::ops::DivSpec::div_spec(frequency, of_u8)@ == quotient(frequency@, of_u8 as int)
        },
        holds(of_i8 as int) && of_i8 != 0 && holds(quotient(frequency@, of_i8 as int)) ==> {
            &&& vstd::std_specs::ops::DivSpec::div_req(frequency, of_i8)
            &&& vstd::std_specs::ops::DivSpec::div_spec(frequency, of_i8)@ == quotient(frequency@, of_i8 as int)
        },
        holds(of_u16 as int) && of_u16 != 0 && holds(quotient(frequency@, of_u16 as int)) ==> {
            &&& vstd::std_specs::ops::DivSpec::div_req(frequency, of_u16)
            &&& vstd::std_specs::ops::DivSpec::div_spec(frequency, of_u16)@ == quotient(frequency@, of_u16 as int)
        },
        holds(of_i16 as int) && of_i16 != 0 && holds(quotient(frequency@, of_i16 as int)) ==> {
            &&& vstd::std_specs::ops::DivSpec::div_req(frequency, of_i16)
            &&& vstd::std_specs::ops::DivSpec::div_spec(frequency, of_i16)@ == quotient(frequency@, of_i16 as int)
        },
        holds(of_u32 as int) && of_u32 != 0 && holds(quotient(frequency@, of_u32 as int)) ==> {
            &&& vstd::std_specs::ops::DivSpec::div_req(frequency, of_u32)
            &&& vstd::std_specs::ops::DivSpec::div_spec(frequency, of_u32)@ == quotient(frequency@, of_u32 as int)
        },
        holds(of_i32 as int) && of_i32 != 0 && holds(quotient(frequency@, of_i32 as int)) ==> {
            &&& vstd::std_specs::ops::DivSpec::div_req(frequency, of_i32)
            &&& vstd::std_specs::ops::DivSpec::div_spec(frequency, of_i32)@ == quotient(frequency@, of_i32 as int)
        },
        holds(of_u64 as int) && of_u64 != 0 && holds(quotient(frequency@, of_u64 as int)) ==> {
            &&& vstd::std_specs::ops::DivSpec::div_req(frequency, of_u64)
            &&& vstd::std_specs::ops::DivSpec::div_spec(frequency, of_u64)@ == quotient(frequency@, of_u64 as int)
        },
        holds(of_i64 as int) && of_i64 != 0 && holds(quotient(frequency@, of_i64 as int)) ==> {
            &&& vstd::std_specs::ops::DivSpec::div_req(frequency, of_i64)
            &&& vstd::std_specs::ops::DivSpec::div_spec(frequency, of_i64)@ == quotient(frequency@, of_i64 as int)
        },
        holds(of_usize as int) && of_usize != 0 && holds(quotient(frequency@, of_usize as int)) ==> {
            &&& vstd::std_specs::ops::DivSpec::div_req(frequency, of_usize)
            &&& vstd::std_specs::ops::DivSpec::div_spec(frequency, of_usize)@ == quotient(frequency@, of_usize as int)
        },
        holds(of_isize as int) && of_isize != 0 && holds(quotient(frequency@, of_isize as int)) ==> {
            &&& vstd::std_specs::ops::DivSpec::div_req(frequency, of_isize)
            &&& vstd::std_specs::ops::DivSpec::div_spec(frequency, of_isize)@ == quotient(frequency@, of_isize as int)
        },
{
    if frequency.0 == isize::MIN {
        assert((-frequency@) / -1int == frequency@);
    }
}

/// A number as a frequency is that number, whatever its type.
pub proof fn law_numbers_are_kept(
    of_u8: u8,
    of_i8: i8,
    of_u16: u16,
    of_i16: i16,
    of_u32: u32,
    of_i32: i32,
    of_u64: u64,
    of_i64: i64,
    of_usize: usize,
    of_isize: isize,
)
    ensures
        holds(of_u8 as int) ==> of_u8.hertz() == of_u8,
        holds(of_i8 as int) ==> of_i8.hertz() == of_i8,
        holds(of_u16 as int) ==> of_u16.hertz() == of_u16,
        holds(of_i16 as int) ==> of_i16.hertz() == of_i16,
        holds(of_u32 as int) ==> of_u32.hertz() == of_u32,
        holds(of_i32 as int) ==> of_i32.hertz() == of_i32,
        holds(of_u64 as int) ==> of_u64.hertz() == of_u64,
        holds(of_i64 as int) ==> of_i64.hertz() == of_i64,
        holds(of_usize as int) ==> of_usize.hertz() == of_usize,
        holds(of_isize as int) ==> of_isize.hertz() == of_isize,
{
}

proof fn lemma_exact_quotient(n: int, b: int, q: int)
    requires
        b != 0,
        n == b * q,
    ensures
        n / b == q,
{
    assert(n / b == q) by (nonlinear_arith)
        requires
            b != 0,
            n == b * q,
    ;
}

/// The character of a decimal digit.
pub open spec fn digit(value: nat) -> char {
    (48 + value) as char
}

/// A number in decimal digits.
pub open spec fn decimal(value: nat) -> Seq<char>
    decreases value,
{
    if value < 10 {
        seq![digit(value)]
    } else {
        decimal(value / 10).push(digit(value % 10))
    }
}

/// A number in decimal digits, with zeros in front where there would be less than four.
pub open spec fn four_digits(value: nat) -> Seq<char> {
    if value < 10 {
        "000"@ + decimal(value)
    } else if value < 100 {
        "00"@ + decimal(value)
    } else if value < 1000 {
        "0"@ + decimal(value)
    } else {
        decimal(value)
    }
}

impl Hz {
    /// What is shown of a frequency: thousands, a point and the rest in four digits; of whole
    /// thousands, only that the rest is zero.
    pub open spec fn shown(&self) -> Seq<char> {
        let value = if self@ < 0 {
            -self@
        } else {
            self@
        };
        let sign = if self@ < 0 {
            "-"@
        } else {
            ""@
        };
        if value % 1000 == 0 {
            sign + "0 pHz"@
        } else {
            sign + decimal((value / 1000) as nat) + "."@ + four_digits((value % 1000) as nat)
                + " kHz"@
        }
    }

    /// The frequency as text.
    pub fn to_string(&self) -> (text: String)
        requires
            self@ != isize::MIN,
        ensures
            text@ == self.shown(),
    {
        let neg: bool = self.0 < 0;
        let mut val: isize = if neg {
            -self.0
        } else {
            self.0
        };
        let ghost value = val as int;
        let mut leading: usize = 0;
        while val % 1000 == 0 && leading < 3
            invariant
                0 <= val,
                leading <= 3,
                leading == 0 ==> val == value,
                leading > 0 ==> val == 0 && value % 1000 == 0,
            decreases 3 - leading,
        {
            val = val % 1000;
            leading += 1;
        }
        let mut text = String::new();
        if neg {
            text.append("-");
        }
        let unit: &str = match leading {
            0 => " kHz",
            1 => " mHz",
            2 => " gHz",
            _ => " pHz",
        };
        let div: isize = val / 1000;
        let rem: isize = val % 1000;
        append_decimal(&mut text, div as usize);
        if rem != 0 {
            text.append(".");
            if rem < 10 {
                text.append("000");
            } else if rem < 100 {
                text.append("00");
            } else {
                text.append("0");
            }
            append_decimal(&mut text, rem as usize);
        }
        text.append(unit);
        proof {
            reveal_strlit("");
            reveal_strlit("0 pHz");
            reveal_strlit(" pHz");
            assert(text@ =~= self.shown());
        }
        text
    }
}

/// Appends a number in decimal digits.
fn append_decimal(text: &mut String, value: usize)
    ensures
        final(text)@ == old(text)@ + decimal(value as nat),
    decreases value,
{
    if value >= 10 {
        append_decimal(text, value / 10);
    }
    let ghost before = text@;
    text.append(digit_text(value % 10));
    assert(text@ =~= old(text)@ + decimal(value as nat));
}

/// A digit as text.
fn digit_text(value: usize) -> (text: &'static str)
    requires
        value < 10,
    ensures
        text@ == seq![digit(value as nat)],
{
    proof {
        reveal_strlit("0");
        reveal_strlit("1");
        reveal_strlit("2");
        reveal_strlit("3");
        reveal_strlit("4");
        reveal_strlit("5");
        reveal_strlit("6");
        reveal_strlit("7");
        reveal_strlit("8");
        reveal_strlit("9");
    }
    match value {
        0 => "0",
        1 => "1",
        2 => "2",
        3 => "3",
        4 => "4",
        5 => "5",
        6 => "6",
        7 => "7",
        8 => "8",
        _ => "9",
    }
}

/// The number that decimal digits stand for.
pub open spec fn number_of(text: Seq<char>) -> nat
    decreases text.len(),
{
    if text.len() == 0 {
        0
    } else {
        number_of(text.drop_last()) * 10 + ((text.last() as int - '0' as int) as nat)
    }
}

/// Whether a text is made of decimal digits.
pub open spec fn are_digits(text: Seq<char>) -> bool {
    &&& text.len() > 0
    &&& forall|i: int| 0 <= i < text.len() ==> '0' <= #[trigger] text[i] <= '9'
}

/// The digits of a number stand for that number, and do not start with a zero unless it is zero.
pub proof fn law_digits_stand_for_the_number(value: nat)
    ensures
        are_digits(decimal(value)),
        number_of(decimal(value)) == value,
        value > 0 ==> decimal(value)[0] != '0',
        value < 10 ==> decimal(value).len() == 1,
        10 <= value < 100 ==> decimal(value).len() == 2,
        100 <= value < 1000 ==> decimal(value).len() == 3,
    decreases value,
{
    reveal_with_fuel(number_of, 2);
    if value < 10 {
        assert(decimal(value).drop_last() =~= Seq::empty());
    } else {
        law_digits_stand_for_the_number(value / 10);
        assert(decimal(value).drop_last() =~= decimal(value / 10));
    }
}

/// A text with a zero in front stands for the same number.
proof fn lemma_zero_in_front(text: Seq<char>)
    requires
        are_digits(text),
    ensures
        are_digits(seq!['0'] + text),
        number_of(seq!['0'] + text) == number_of(text),
    decreases text.len(),
{
    let longer = seq!['0'] + text;
    assert(longer.drop_last() =~= seq!['0'] + text.drop_last());
    if text.len() > 1 {
        lemma_zero_in_front(text.drop_last());
    } else {
        assert(longer.drop_last() =~= seq!['0']);
        reveal_with_fuel(number_of, 2);
        assert(seq!['0'].drop_last() =~= Seq::<char>::empty());
        assert(seq!['0'].last() == '0');
        assert(number_of(seq!['0']) == 0);
        assert(text.drop_last() =~= Seq::<char>::empty());
    }
}

/// A number of kilohertz, by its sign, its digits before the point and those after it.
pub open spec fn in_kilohertz(sign: Seq<char>, thousands: Seq<char>, rest: Seq<char>) -> Seq<char> {
    sign + thousands + "."@ + rest + " kHz"@
}

/// What is shown of a frequency: a minus sign where it is negative, the thousands in digits, a point,
/// the rest in four digits and the unit. Of a multiple of a thousand, only a zero is shown.
pub proof fn law_shown_digits_stand_for_the_frequency(frequency: Hz)
    ensures
        ({
            let value = if frequency@ < 0 {
                -frequency@
            } else {
                frequency@
            };
            &&& value % 1000 == 0 && frequency@ >= 0 ==> frequency.shown() == "0 pHz"@
            &&& value % 1000 == 0 && frequency@ < 0 ==> frequency.shown() == "-0 pHz"@
            &&& value % 1000 != 0 ==> exists|
                sign: Seq<char>,
                thousands: Seq<char>,
                rest: Seq<char>,
            |
                {
                    &&& frequency@ < 0 ==> sign == "-"@
                    &&& frequency@ > 0 ==> sign == ""@
                    &&& frequency.shown() == #[trigger] in_kilohertz(sign, thousands, rest)
                    &&& are_digits(thousands)
                    &&& number_of(thousands) == value / 1000
                    &&& value / 1000 > 0 ==> thousands[0] != '0'
                    &&& value / 1000 == 0 ==> thousands.len() == 1
                    &&& are_digits(rest)
                    &&& rest.len() == 4
                    &&& number_of(rest) == value % 1000
                }
        }),
{
    let value = if frequency@ < 0 {
        -frequency@
    } else {
        frequency@
    };
    let sign = if frequency@ < 0 {
        "-"@
    } else {
        ""@
    };
    reveal_strlit("");
    reveal_strlit("-");
    reveal_strlit("0 pHz");
    reveal_strlit("-0 pHz");
    assert(""@ + "0 pHz"@ =~= "0 pHz"@);
    assert("-"@ + "0 pHz"@ =~= "-0 pHz"@);
    if value % 1000 != 0 {
        let thousands = decimal((value / 1000) as nat);
        let part = (value % 1000) as nat;
        let rest = four_digits(part);
        let digits = decimal(part);
        law_digits_stand_for_the_number((value / 1000) as nat);
        law_digits_stand_for_the_number(part);
        reveal_strlit("0");
        reveal_strlit("00");
        reveal_strlit("000");
        let one = seq!['0'] + digits;
        let two = seq!['0'] + one;
        let three = seq!['0'] + two;
        lemma_zero_in_front(digits);
        lemma_zero_in_front(one);
        lemma_zero_in_front(two);
        assert("0"@ + digits =~= one);
        assert("00"@ + digits =~= two);
        assert("000"@ + digits =~= three);
        assert(frequency.shown() == in_kilohertz(sign, thousands, rest));
    }
}

} // verus!
