//! Probabilities stored by their natural logarithm.
//!
//! A [`LogSpaceF32`] holds the IEEE-754 single-precision bit pattern of a
//! log-probability. Everything that can be decided on that bit pattern alone
//! (zero tests, the total order of `f32::total_cmp`, which branch of a
//! log-space sum applies) is decided and verified here. The two floating-point
//! kernels (the sum `hi + ln_1p(exp(lo - hi))` of a larger and a smaller
//! log-probability, and the product `a + b` of two log-probabilities) are
//! supplied by the caller as pure functions on bit patterns.

use vstd::prelude::*;

verus! {

/// Bit pattern of `f32::NEG_INFINITY`, the logarithm of probability zero.
pub const NEG_INFINITY_BITS: u32 = 0xff80_0000u32;

/// Bit pattern of `0.0f32`, the logarithm of probability one.
pub const ZERO_BITS: u32 = 0u32;

/// A probability represented in log-space, by the bits of its `f32` logarithm.
#[derive(Clone, Copy, Debug)]
pub struct LogSpaceF32 {
    pub log_bits: u32,
}

/// The key by which `f32::total_cmp` orders bit patterns: positive patterns
/// keep their value, negative ones are reversed below them.
pub open spec fn total_order_key(bits: u32) -> int {
    if bits < 0x8000_0000u32 {
        bits as int
    } else {
        0x7fff_ffffint - bits as int
    }
}

impl Default for LogSpaceF32 {
    /// Probability zero.
    fn default() -> (r: Self)
        ensures
            r.bits() == NEG_INFINITY_BITS,
    {
        LogSpaceF32::zero()
    }
}

impl LogSpaceF32 {
    /// The bits of the stored logarithm.
    pub open spec fn bits(self) -> u32 {
        self.log_bits
    }

    /// `f32::total_cmp(self, other) == Less`.
    pub open spec fn spec_total_lt(self, other: Self) -> bool {
        total_order_key(self.log_bits) < total_order_key(other.log_bits)
    }

    /// The stored value is the logarithm of zero.
    pub open spec fn spec_is_zero(self) -> bool {
        self.log_bits == NEG_INFINITY_BITS
    }

    /// Probability zero (logarithm negative infinity).
    pub fn zero() -> (r: Self)
        ensures
            r.bits() == NEG_INFINITY_BITS,
    {
        LogSpaceF32 { log_bits: NEG_INFINITY_BITS }
    }

    /// Probability one (logarithm zero).
    pub fn one() -> (r: Self)
        ensures
            r.bits() == ZERO_BITS,
    {
        LogSpaceF32 { log_bits: ZERO_BITS }
    }

    /// Wraps the bits of an `f32` logarithm.
    pub fn from_log_bits(log_bits: u32) -> (r: Self)
        ensures
            r.bits() == log_bits,
    {
        LogSpaceF32 { log_bits }
    }

    /// The bits of the `f32` logarithm.
    pub fn log_bits(&self) -> (r: u32)
        ensures
            r == self.bits(),
    {
        self.log_bits
    }

    /// Whether this is probability zero: the logarithm equals negative
    /// infinity, which holds of exactly one bit pattern.
    pub fn is_zero(self) -> (r: bool)
        ensures
            r == self.spec_is_zero(),
    {
        self.log_bits == NEG_INFINITY_BITS
    }

    /// `f32::total_cmp` on the logarithms, as a comparison key.
    pub fn order_key(&self) -> (r: i64)
        ensures
            r == total_order_key(self.log_bits),
    {
        if self.log_bits < 0x8000_0000u32 {
            self.log_bits as i64
        } else {
            0x7fff_ffffi64 - self.log_bits as i64
        }
    }

    /// Whether `self` orders strictly below `other` under `f32::total_cmp`.
    pub fn total_lt(&self, other: &Self) -> (r: bool)
        ensures
            r == self.spec_total_lt(*other),
    {
        self.order_key() < other.order_key()
    }

    /// The sum of two probabilities in log-space, given the kernel `log_sum`
    /// that computes `hi + ln_1p(exp(lo - hi))` for a larger `hi` and a
    /// smaller-or-equal `lo`. Zero is the identity; otherwise the kernel is
    /// applied with the larger operand (by `total_cmp`) first.
    pub fn add<S: Fn(LogSpaceF32, LogSpaceF32) -> LogSpaceF32>(self, rhs: Self, log_sum: &S) -> (r: Self)
        requires
            is_log_op(*log_sum),
        ensures
            r == spec_log_add(log_op(*log_sum), self, rhs),
    {
        if self.is_zero() {
            rhs
        } else if rhs.is_zero() {
            self
        } else if rhs.total_lt(&self) {
            call_log_op(log_sum, self, rhs)
        } else {
            call_log_op(log_sum, rhs, self)
        }
    }

    /// The product of two probabilities in log-space, computed by the kernel
    /// `log_product` (the sum of the two logarithms).
    pub fn mul<P: Fn(LogSpaceF32, LogSpaceF32) -> LogSpaceF32>(self, rhs: Self, log_product: &P) -> (r: Self)
        requires
            is_log_op(*log_product),
        ensures
            r == log_op(*log_product)(self, rhs),
    {
        call_log_op(log_product, self, rhs)
    }
}

/// The sum of two log-space probabilities, for the kernel `sum` on (larger,
/// smaller) operands.
pub open spec fn spec_log_add(
    sum: spec_fn(LogSpaceF32, LogSpaceF32) -> LogSpaceF32,
    a: LogSpaceF32,
    b: LogSpaceF32,
) -> LogSpaceF32 {
    if a.spec_is_zero() {
        b
    } else if b.spec_is_zero() {
        a
    } else if b.spec_total_lt(a) {
        sum(a, b)
    } else {
        sum(b, a)
    }
}

/// A kernel is a total, deterministic function of its two operands.
pub open spec fn is_log_op<F: Fn(LogSpaceF32, LogSpaceF32) -> LogSpaceF32>(f: F) -> bool {
    &&& forall|a: LogSpaceF32, b: LogSpaceF32| #[trigger] f.requires((a, b))
    &&& forall|a: LogSpaceF32, b: LogSpaceF32, r1: LogSpaceF32, r2: LogSpaceF32|
        #![trigger f.ensures((a, b), r1), f.ensures((a, b), r2)]
        f.ensures((a, b), r1) && f.ensures((a, b), r2) ==> r1 == r2
}

/// The function that a deterministic kernel computes.
pub open spec fn log_op<F: Fn(LogSpaceF32, LogSpaceF32) -> LogSpaceF32>(f: F) -> spec_fn(
    LogSpaceF32,
    LogSpaceF32,
) -> LogSpaceF32 {
    |a: LogSpaceF32, b: LogSpaceF32| choose|r: LogSpaceF32| f.ensures((a, b), r)
}

/// Runs a kernel.
pub fn call_log_op<F: Fn(LogSpaceF32, LogSpaceF32) -> LogSpaceF32>(
    f: &F,
    a: LogSpaceF32,
    b: LogSpaceF32,
) -> (r: LogSpaceF32)
    requires
        is_log_op(*f),
    ensures
        r == log_op(*f)(a, b),
{
    f(a, b)
}

/// Zero is the identity of the log-space sum, on either side.
pub proof fn lemma_log_add_zero(sum: spec_fn(LogSpaceF32, LogSpaceF32) -> LogSpaceF32, a: LogSpaceF32)
    ensures
        spec_log_add(sum, LogSpaceF32 { log_bits: NEG_INFINITY_BITS }, a) == a,
        spec_log_add(sum, a, LogSpaceF32 { log_bits: NEG_INFINITY_BITS }) == a,
{
}

/// The log-space sum is commutative: the kernel always sees the larger
/// operand first.
pub proof fn lemma_log_add_commutative(
    sum: spec_fn(LogSpaceF32, LogSpaceF32) -> LogSpaceF32,
    a: LogSpaceF32,
    b: LogSpaceF32,
)
    ensures
        spec_log_add(sum, a, b) == spec_log_add(sum, b, a),
{
    if a != b && !a.spec_is_zero() && !b.spec_is_zero() {
        lemma_total_order_key_injective(a.bits(), b.bits());
    }
}

/// The log-space sum of two non-zero probabilities is the kernel applied to
/// them with the larger one (by `f32::total_cmp`) first; zero is the identity.
pub proof fn lemma_log_add_larger_first(
    sum: spec_fn(LogSpaceF32, LogSpaceF32) -> LogSpaceF32,
    a: LogSpaceF32,
    b: LogSpaceF32,
)
    ensures
        a.spec_is_zero() ==> spec_log_add(sum, a, b) == b,
        !a.spec_is_zero() && b.spec_is_zero() ==> spec_log_add(sum, a, b) == a,
        !a.spec_is_zero() && !b.spec_is_zero() ==> {
            ||| spec_log_add(sum, a, b) == sum(a, b) && total_order_key(a.bits()) >= total_order_key(b.bits())
            ||| spec_log_add(sum, a, b) == sum(b, a) && total_order_key(b.bits()) >= total_order_key(a.bits())
        },
{
}

/// `f32::total_cmp` is a total order on bit patterns: distinct patterns get
/// distinct keys.
pub proof fn lemma_total_order_key_injective(x: u32, y: u32)
    ensures
        x != y ==> total_order_key(x) != total_order_key(y),
{
}

} // verus!
