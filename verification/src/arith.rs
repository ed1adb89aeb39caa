//! The arithmetic that the editor computes with, and formulas over it.
//!
//! Rounding is the business of whoever supplies the arithmetic: `Arith` promises nothing of its
//! results, and nothing in the library depends on them. A contract that involves a computed value
//! states by a `Formula` which operations produce it, on which operands and in which order;
//! `gives` relates a formula to the values that the arithmetic can produce for it.
use vstd::prelude::*;

use crate::effects::{SAMPLE_FIVE, SAMPLE_SEVEN_TENTHS};
use crate::num::{in_range, Num, Sample, INFINITY, ONE, SAMPLE_INFINITY, SAMPLE_ONE};
use crate::playback::SAMPLE_PCM_MAX;

verus! {

/// Floating-point arithmetic on values held by their bits.
pub trait Arith {
    /// The sum of two values.
    fn plus(&self, a: Num, b: Num) -> Num;

    /// The difference of two values.
    fn minus(&self, a: Num, b: Num) -> Num;

    /// The product of two values.
    fn times(&self, a: Num, b: Num) -> Num;

    /// The quotient of two values.
    fn over(&self, a: Num, b: Num) -> Num;

    /// The nearest whole value, halves away from zero.
    fn round(&self, a: Num) -> Num;

    /// The value nearest to a count.
    fn of_count(&self, n: u64) -> Num;

    /// The whole part as a count: 0 for NaN and below 0, the greatest count above all counts.
    fn to_count(&self, a: Num) -> usize;

    /// The whole part as a number of pixels: 0 for NaN, the nearest end of the range outside it.
    fn to_pixels(&self, a: Num) -> i32;

    /// A sample as a binary64 value.
    fn widen(&self, s: Sample) -> Num;

    /// The sum of two samples.
    fn sample_plus(&self, a: Sample, b: Sample) -> Sample;

    /// The difference of two samples.
    fn sample_minus(&self, a: Sample, b: Sample) -> Sample;

    /// The product of two samples.
    fn sample_times(&self, a: Sample, b: Sample) -> Sample;

    /// The quotient of two samples.
    fn sample_over(&self, a: Sample, b: Sample) -> Sample;

    /// The hyperbolic tangent of a sample.
    fn sample_tanh(&self, a: Sample) -> Sample;

    /// The whole part of a sample as a 16-bit integer: 0 for NaN, the nearest end of the range
    /// outside it.
    fn to_pcm(&self, a: Sample) -> i16;
}

/// How a binary64 value is computed.
pub enum Formula {
    Value(Num),
    Count(u64),
    Widened(Sample),
    Sum(Box<Formula>, Box<Formula>),
    Difference(Box<Formula>, Box<Formula>),
    Product(Box<Formula>, Box<Formula>),
    Quotient(Box<Formula>, Box<Formula>),
    Rounded(Box<Formula>),
    Max(Box<Formula>, Num),
    Min(Box<Formula>, Num),
    Clamped(Box<Formula>, Num, Num),
}

/// How a sample is computed.
pub enum SampleFormula {
    Value(Sample),
    Sum(Box<SampleFormula>, Box<SampleFormula>),
    Difference(Box<SampleFormula>, Box<SampleFormula>),
    Product(Box<SampleFormula>, Box<SampleFormula>),
    Quotient(Box<SampleFormula>, Box<SampleFormula>),
    Tanh(Box<SampleFormula>),
    Clamped(Box<SampleFormula>, Sample, Sample),
}

/// The formula that is just a value.
pub open spec fn val(n: Num) -> Formula {
    Formula::Value(n)
}

/// The formula that is just the value with the given bits.
pub open spec fn lit(bits: u64) -> Formula {
    Formula::Value(Num { bits })
}

/// The formula of a count turned into a value.
pub open spec fn count(n: u64) -> Formula {
    Formula::Count(n)
}

/// The formula that is just a sample.
pub open spec fn sample(s: Sample) -> SampleFormula {
    SampleFormula::Value(s)
}

/// The formula that is just the sample with the given bits.
pub open spec fn sample_lit(bits: u32) -> SampleFormula {
    SampleFormula::Value(Sample { bits })
}

impl Formula {
    pub open spec fn spec_add(self, other: Formula) -> Formula {
        Formula::Sum(Box::new(self), Box::new(other))
    }

    pub open spec fn spec_sub(self, other: Formula) -> Formula {
        Formula::Difference(Box::new(self), Box::new(other))
    }

    pub open spec fn spec_mul(self, other: Formula) -> Formula {
        Formula::Product(Box::new(self), Box::new(other))
    }

    pub open spec fn spec_euclidean_or_real_div(self, other: Formula) -> Formula {
        Formula::Quotient(Box::new(self), Box::new(other))
    }

    /// The formula rounded to the nearest whole value.
    pub open spec fn rounded(self) -> Formula {
        Formula::Rounded(Box::new(self))
    }

    /// The formula, or `floor` where that is greater.
    pub open spec fn max(self, floor: Num) -> Formula {
        Formula::Max(Box::new(self), floor)
    }

    /// The formula, or `cap` where that is less.
    pub open spec fn min(self, cap: Num) -> Formula {
        Formula::Min(Box::new(self), cap)
    }

    /// The formula moved into `low..=high`.
    pub open spec fn clamped(self, low: Num, high: Num) -> Formula {
        Formula::Clamped(Box::new(self), low, high)
    }
}

impl SampleFormula {
    pub open spec fn spec_add(self, other: SampleFormula) -> SampleFormula {
        SampleFormula::Sum(Box::new(self), Box::new(other))
    }

    pub open spec fn spec_sub(self, other: SampleFormula) -> SampleFormula {
        SampleFormula::Difference(Box::new(self), Box::new(other))
    }

    pub open spec fn spec_mul(self, other: SampleFormula) -> SampleFormula {
        SampleFormula::Product(Box::new(self), Box::new(other))
    }

    pub open spec fn spec_euclidean_or_real_div(self, other: SampleFormula) -> SampleFormula {
        SampleFormula::Quotient(Box::new(self), Box::new(other))
    }

    /// The hyperbolic tangent of the formula.
    pub open spec fn tanh(self) -> SampleFormula {
        SampleFormula::Tanh(Box::new(self))
    }

    /// The formula moved into `low..=high`.
    pub open spec fn clamped(self, low: Sample, high: Sample) -> SampleFormula {
        SampleFormula::Clamped(Box::new(self), low, high)
    }
}

/// Whether the arithmetic can produce `r` for the formula.
pub open spec fn gives<A: Arith>(m: &A, f: Formula, r: Num) -> bool
    decreases f,
{
    match f {
        Formula::Value(n) => r == n,
        Formula::Count(n) => call_ensures(A::of_count, (m, n), r),
        Formula::Widened(s) => call_ensures(A::widen, (m, s), r),
        Formula::Sum(x, y) => exists|a: Num, b: Num|
            gives(m, *x, a) && gives(m, *y, b) && #[trigger] call_ensures(A::plus, (m, a, b), r),
        Formula::Difference(x, y) => exists|a: Num, b: Num|
            gives(m, *x, a) && gives(m, *y, b) && #[trigger] call_ensures(A::minus, (m, a, b), r),
        Formula::Product(x, y) => exists|a: Num, b: Num|
            gives(m, *x, a) && gives(m, *y, b) && #[trigger] call_ensures(A::times, (m, a, b), r),
        Formula::Quotient(x, y) => exists|a: Num, b: Num|
            gives(m, *x, a) && gives(m, *y, b) && #[trigger] call_ensures(A::over, (m, a, b), r),
        Formula::Rounded(x) => exists|a: Num|
            gives(m, *x, a) && #[trigger] call_ensures(A::round, (m, a), r),
        Formula::Max(x, n) => exists|a: Num| gives(m, *x, a) && r == #[trigger] a.max(n),
        Formula::Min(x, n) => exists|a: Num| gives(m, *x, a) && r == #[trigger] a.min(n),
        Formula::Clamped(x, low, high) => exists|a: Num|
            gives(m, *x, a) && r == #[trigger] a.clamp(low, high),
    }
}

/// Whether the arithmetic can produce `r` for the formula.
pub open spec fn sample_gives<A: Arith>(m: &A, f: SampleFormula, r: Sample) -> bool
    decreases f,
{
    match f {
        SampleFormula::Value(s) => r == s,
        SampleFormula::Sum(x, y) => exists|a: Sample, b: Sample|
            sample_gives(m, *x, a) && sample_gives(m, *y, b)
                && #[trigger] call_ensures(A::sample_plus, (m, a, b), r),
        SampleFormula::Difference(x, y) => exists|a: Sample, b: Sample|
            sample_gives(m, *x, a) && sample_gives(m, *y, b)
                && #[trigger] call_ensures(A::sample_minus, (m, a, b), r),
        SampleFormula::Product(x, y) => exists|a: Sample, b: Sample|
            sample_gives(m, *x, a) && sample_gives(m, *y, b)
                && #[trigger] call_ensures(A::sample_times, (m, a, b), r),
        SampleFormula::Quotient(x, y) => exists|a: Sample, b: Sample|
            sample_gives(m, *x, a) && sample_gives(m, *y, b)
                && #[trigger] call_ensures(A::sample_over, (m, a, b), r),
        SampleFormula::Tanh(x) => exists|a: Sample|
            sample_gives(m, *x, a) && #[trigger] call_ensures(A::sample_tanh, (m, a), r),
        SampleFormula::Clamped(x, low, high) => exists|a: Sample|
            sample_gives(m, *x, a) && r == #[trigger] a.clamp(low, high),
    }
}

/// Whether the arithmetic can produce the count `n` as the whole part of the formula.
pub open spec fn gives_count<A: Arith>(m: &A, f: Formula, n: usize) -> bool {
    exists|v: Num| #[trigger] gives(m, f, v) && call_ensures(A::to_count, (m, v), n)
}

/// Whether the arithmetic can produce `n` pixels as the whole part of the formula.
pub open spec fn gives_pixels<A: Arith>(m: &A, f: Formula, n: i32) -> bool {
    exists|v: Num| #[trigger] gives(m, f, v) && call_ensures(A::to_pixels, (m, v), n)
}

/// Whether the arithmetic can produce the 16-bit integer `n` as the whole part of the formula.
pub open spec fn gives_pcm<A: Arith>(m: &A, f: SampleFormula, n: i16) -> bool {
    exists|v: Sample| #[trigger] sample_gives(m, f, v) && call_ensures(A::to_pcm, (m, v), n)
}

/// A value that is being computed, with the formula that has been worked out so far.
pub(crate) struct Term<'a, A: Arith> {
    pub(crate) m: &'a A,
    pub(crate) v: Num,
    pub(crate) f: Ghost<Formula>,
}

/// Starts a computation from a value.
pub(crate) fn from<'a, A: Arith>(m: &'a A, n: Num) -> (r: Term<'a, A>)
    ensures
        r.holds(),
        r.m == m,
        r.f@ == val(n),
{
    Term { m, v: n, f: Ghost(val(n)) }
}

/// Starts a computation from the value with the given bits.
pub(crate) fn from_bits<'a, A: Arith>(m: &'a A, bits: u64) -> (r: Term<'a, A>)
    ensures
        r.holds(),
        r.m == m,
        r.f@ == lit(bits),
{
    Term { m, v: Num { bits }, f: Ghost(lit(bits)) }
}

/// Starts a computation from a count.
pub(crate) fn from_count<'a, A: Arith>(m: &'a A, n: u64) -> (r: Term<'a, A>)
    ensures
        r.holds(),
        r.m == m,
        r.f@ == count(n),
{
    let v = m.of_count(n);
    Term { m, v, f: Ghost(count(n)) }
}

/// Starts a computation from a sample.
pub(crate) fn from_sample<'a, A: Arith>(m: &'a A, s: Sample) -> (r: Term<'a, A>)
    ensures
        r.holds(),
        r.m == m,
        r.f@ == Formula::Widened(s),
{
    let v = m.widen(s);
    Term { m, v, f: Ghost(Formula::Widened(s)) }
}

impl<'a, A: Arith> Term<'a, A> {
    pub(crate) open spec fn holds(&self) -> bool {
        gives(self.m, self.f@, self.v)
    }

    pub(crate) fn plus(self, other: Term<'a, A>) -> (r: Term<'a, A>)
        requires
            self.holds(),
            other.holds(),
            self.m == other.m,
        ensures
            r.holds(),
            r.m == self.m,
            r.f@ == self.f@ + other.f@,
    {
        let v = self.m.plus(self.v, other.v);
        Term { m: self.m, v, f: Ghost(self.f@ + other.f@) }
    }

    pub(crate) fn minus(self, other: Term<'a, A>) -> (r: Term<'a, A>)
        requires
            self.holds(),
            other.holds(),
            self.m == other.m,
        ensures
            r.holds(),
            r.m == self.m,
            r.f@ == self.f@ - other.f@,
    {
        let v = self.m.minus(self.v, other.v);
        Term { m: self.m, v, f: Ghost(self.f@ - other.f@) }
    }

    pub(crate) fn times(self, other: Term<'a, A>) -> (r: Term<'a, A>)
        requires
            self.holds(),
            other.holds(),
            self.m == other.m,
        ensures
            r.holds(),
            r.m == self.m,
            r.f@ == self.f@ * other.f@,
    {
        let v = self.m.times(self.v, other.v);
        Term { m: self.m, v, f: Ghost(self.f@ * other.f@) }
    }

    pub(crate) fn over(self, other: Term<'a, A>) -> (r: Term<'a, A>)
        requires
            self.holds(),
            other.holds(),
            self.m == other.m,
        ensures
            r.holds(),
            r.m == self.m,
            r.f@ == self.f@ / other.f@,
    {
        let v = self.m.over(self.v, other.v);
        Term { m: self.m, v, f: Ghost(self.f@ / other.f@) }
    }

    pub(crate) fn round(self) -> (r: Term<'a, A>)
        requires
            self.holds(),
        ensures
            r.holds(),
            r.m == self.m,
            r.f@ == self.f@.rounded(),
    {
        let v = self.m.round(self.v);
        Term { m: self.m, v, f: Ghost(self.f@.rounded()) }
    }

    pub(crate) fn max(self, floor: u64) -> (r: Term<'a, A>)
        requires
            self.holds(),
        ensures
            r.holds(),
            r.m == self.m,
            r.f@ == self.f@.max(Num { bits: floor }),
            r.v == self.v.max(Num { bits: floor }),
    {
        let v = self.v.max(Num { bits: floor });
        let ghost f = self.f@.max(Num { bits: floor });
        assert(v == self.v.max(f->Max_1));
        Term { m: self.m, v, f: Ghost(f) }
    }

    pub(crate) fn min(self, cap: Num) -> (r: Term<'a, A>)
        requires
            self.holds(),
        ensures
            r.holds(),
            r.m == self.m,
            r.f@ == self.f@.min(cap),
            r.v == self.v.min(cap),
    {
        let v = self.v.min(cap);
        let ghost f = self.f@.min(cap);
        assert(v == self.v.min(f->Min_1));
        Term { m: self.m, v, f: Ghost(f) }
    }

    pub(crate) fn clamp(self, low: Num, high: Num) -> (r: Term<'a, A>)
        requires
            self.holds(),
            low.le(high),
        ensures
            r.holds(),
            r.m == self.m,
            r.f@ == self.f@.clamped(low, high),
            r.v == self.v.clamp(low, high),
    {
        let v = self.v.clamp(low, high);
        let ghost f = self.f@.clamped(low, high);
        assert(v == self.v.clamp(f->Clamped_1, f->Clamped_2));
        Term { m: self.m, v, f: Ghost(f) }
    }

    /// Ends a computation with the whole part of its value.
    pub(crate) fn count(self) -> (n: usize)
        requires
            self.holds(),
        ensures
            gives_count(self.m, self.f@, n),
    {
        self.m.to_count(self.v)
    }

    /// Ends a computation with the whole part of its value in pixels.
    pub(crate) fn pixels(self) -> (n: i32)
        requires
            self.holds(),
        ensures
            gives_pixels(self.m, self.f@, n),
    {
        self.m.to_pixels(self.v)
    }
}

/// A sample that is being computed, with the formula that has been worked out so far.
pub(crate) struct SampleTerm<'a, A: Arith> {
    pub(crate) m: &'a A,
    pub(crate) v: Sample,
    pub(crate) f: Ghost<SampleFormula>,
}

/// Starts a computation from a sample.
pub(crate) fn take<'a, A: Arith>(m: &'a A, s: Sample) -> (r: SampleTerm<'a, A>)
    ensures
        r.holds(),
        r.m == m,
        r.f@ == sample(s),
{
    SampleTerm { m, v: s, f: Ghost(sample(s)) }
}

/// Starts a computation from the sample with the given bits.
pub(crate) fn take_bits<'a, A: Arith>(m: &'a A, bits: u32) -> (r: SampleTerm<'a, A>)
    ensures
        r.holds(),
        r.m == m,
        r.f@ == sample_lit(bits),
{
    SampleTerm { m, v: Sample { bits }, f: Ghost(sample_lit(bits)) }
}

impl<'a, A: Arith> SampleTerm<'a, A> {
    pub(crate) open spec fn holds(&self) -> bool {
        sample_gives(self.m, self.f@, self.v)
    }

    pub(crate) fn plus(self, other: SampleTerm<'a, A>) -> (r: SampleTerm<'a, A>)
        requires
            self.holds(),
            other.holds(),
            self.m == other.m,
        ensures
            r.holds(),
            r.m == self.m,
            r.f@ == self.f@ + other.f@,
    {
        let v = self.m.sample_plus(self.v, other.v);
        SampleTerm { m: self.m, v, f: Ghost(self.f@ + other.f@) }
    }

    pub(crate) fn minus(self, other: SampleTerm<'a, A>) -> (r: SampleTerm<'a, A>)
        requires
            self.holds(),
            other.holds(),
            self.m == other.m,
        ensures
            r.holds(),
            r.m == self.m,
            r.f@ == self.f@ - other.f@,
    {
        let v = self.m.sample_minus(self.v, other.v);
        SampleTerm { m: self.m, v, f: Ghost(self.f@ - other.f@) }
    }

    pub(crate) fn times(self, other: SampleTerm<'a, A>) -> (r: SampleTerm<'a, A>)
        requires
            self.holds(),
            other.holds(),
            self.m == other.m,
        ensures
            r.holds(),
            r.m == self.m,
            r.f@ == self.f@ * other.f@,
    {
        let v = self.m.sample_times(self.v, other.v);
        SampleTerm { m: self.m, v, f: Ghost(self.f@ * other.f@) }
    }

    pub(crate) fn over(self, other: SampleTerm<'a, A>) -> (r: SampleTerm<'a, A>)
        requires
            self.holds(),
            other.holds(),
            self.m == other.m,
        ensures
            r.holds(),
            r.m == self.m,
            r.f@ == self.f@ / other.f@,
    {
        let v = self.m.sample_over(self.v, other.v);
        SampleTerm { m: self.m, v, f: Ghost(self.f@ / other.f@) }
    }

    pub(crate) fn tanh(self) -> (r: SampleTerm<'a, A>)
        requires
            self.holds(),
        ensures
            r.holds(),
            r.m == self.m,
            r.f@ == self.f@.tanh(),
    {
        let v = self.m.sample_tanh(self.v);
        SampleTerm { m: self.m, v, f: Ghost(self.f@.tanh()) }
    }

    pub(crate) fn clamp(self, low: Sample, high: Sample) -> (r: SampleTerm<'a, A>)
        requires
            self.holds(),
            low.le(high),
        ensures
            r.holds(),
            r.m == self.m,
            r.f@ == self.f@.clamped(low, high),
            r.v == self.v.clamp(low, high),
    {
        let v = self.v.clamp(low, high);
        let ghost f = self.f@.clamped(low, high);
        assert(v == self.v.clamp(f->Clamped_1, f->Clamped_2));
        SampleTerm { m: self.m, v, f: Ghost(f) }
    }

    /// Ends a computation with the whole part of its value as a 16-bit integer.
    pub(crate) fn pcm(self) -> (n: i16)
        requires
            self.holds(),
        ensures
            gives_pcm(self.m, self.f@, n),
    {
        self.m.to_pcm(self.v)
    }
}

/// Whether the arithmetic is a function: the same operands always give the same result.
pub open spec fn functional<A: Arith>(m: &A) -> bool {
    &&& forall|a: Num, b: Num, r: Num, s: Num|
        #[trigger] call_ensures(A::plus, (m, a, b), r) && #[trigger] call_ensures(
            A::plus,
            (m, a, b),
            s,
        ) ==> r == s
    &&& forall|a: Num, b: Num, r: Num, s: Num|
        #[trigger] call_ensures(A::minus, (m, a, b), r) && #[trigger] call_ensures(
            A::minus,
            (m, a, b),
            s,
        ) ==> r == s
    &&& forall|a: Num, b: Num, r: Num, s: Num|
        #[trigger] call_ensures(A::times, (m, a, b), r) && #[trigger] call_ensures(
            A::times,
            (m, a, b),
            s,
        ) ==> r == s
    &&& forall|a: Num, b: Num, r: Num, s: Num|
        #[trigger] call_ensures(A::over, (m, a, b), r) && #[trigger] call_ensures(
            A::over,
            (m, a, b),
            s,
        ) ==> r == s
    &&& forall|a: Num, r: Num, s: Num|
        #[trigger] call_ensures(A::round, (m, a), r) && #[trigger] call_ensures(
            A::round,
            (m, a),
            s,
        ) ==> r == s
    &&& forall|a: u64, r: Num, s: Num|
        #[trigger] call_ensures(A::of_count, (m, a), r) && #[trigger] call_ensures(
            A::of_count,
            (m, a),
            s,
        ) ==> r == s
    &&& forall|a: Num, r: usize, s: usize|
        #[trigger] call_ensures(A::to_count, (m, a), r) && #[trigger] call_ensures(
            A::to_count,
            (m, a),
            s,
        ) ==> r == s
    &&& forall|a: Num, r: i32, s: i32|
        #[trigger] call_ensures(A::to_pixels, (m, a), r) && #[trigger] call_ensures(
            A::to_pixels,
            (m, a),
            s,
        ) ==> r == s
    &&& forall|a: Sample, r: Num, s: Num|
        #[trigger] call_ensures(A::widen, (m, a), r) && #[trigger] call_ensures(
            A::widen,
            (m, a),
            s,
        ) ==> r == s
    &&& forall|a: Sample, b: Sample, r: Sample, s: Sample|
        #[trigger] call_ensures(A::sample_plus, (m, a, b), r) && #[trigger] call_ensures(
            A::sample_plus,
            (m, a, b),
            s,
        ) ==> r == s
    &&& forall|a: Sample, b: Sample, r: Sample, s: Sample|
        #[trigger] call_ensures(A::sample_minus, (m, a, b), r) && #[trigger] call_ensures(
            A::sample_minus,
            (m, a, b),
            s,
        ) ==> r == s
    &&& forall|a: Sample, b: Sample, r: Sample, s: Sample|
        #[trigger] call_ensures(A::sample_times, (m, a, b), r) && #[trigger] call_ensures(
            A::sample_times,
            (m, a, b),
            s,
        ) ==> r == s
    &&& forall|a: Sample, b: Sample, r: Sample, s: Sample|
        #[trigger] call_ensures(A::sample_over, (m, a, b), r) && #[trigger] call_ensures(
            A::sample_over,
            (m, a, b),
            s,
        ) ==> r == s
    &&& forall|a: Sample, r: Sample, s: Sample|
        #[trigger] call_ensures(A::sample_tanh, (m, a), r) && #[trigger] call_ensures(
            A::sample_tanh,
            (m, a),
            s,
        ) ==> r == s
    &&& forall|a: Sample, r: i16, s: i16|
        #[trigger] call_ensures(A::to_pcm, (m, a), r) && #[trigger] call_ensures(
            A::to_pcm,
            (m, a),
            s,
        ) ==> r == s
}

/// Whether the arithmetic keeps the order of values where rounding cannot break it:
/// - a sum of values from 0 on is not less than either of them;
/// - a value from 0 on, times or over a positive finite one, stays from 0 on; a factor from 1 on
///   makes it no less, a divisor from 1 on no greater;
/// - a value from 0 on is rounded to one, and every count becomes one;
/// - a sample from 0 on, over a positive one that is no less, lies in 0 to 1, unless it is NaN.
pub open spec fn orderly<A: Arith>(m: &A) -> bool {
    &&& forall|a: Num, b: Num, r: Num|
        a.is_from_zero_on() && b.is_from_zero_on() && #[trigger] call_ensures(
            A::plus,
            (m, a, b),
            r,
        ) ==> a.le(r) && b.le(r)
    &&& forall|a: Num, b: Num, r: Num|
        a.is_from_zero_on() && 0 < b.order() < INFINITY && #[trigger] call_ensures(
            A::times,
            (m, a, b),
            r,
        ) ==> r.is_from_zero_on() && (ONE <= b.order() ==> a.le(r))
    &&& forall|a: Num, b: Num, r: Num|
        a.is_from_zero_on() && 0 < b.order() < INFINITY && #[trigger] call_ensures(
            A::over,
            (m, a, b),
            r,
        ) ==> r.is_from_zero_on() && (ONE <= b.order() ==> r.le(a))
    &&& forall|a: Num, r: Num|
        a.is_from_zero_on() && #[trigger] call_ensures(A::round, (m, a), r) ==> r.is_from_zero_on()
    &&& forall|n: u64, r: Num|
        #[trigger] call_ensures(A::of_count, (m, n), r) ==> r.is_from_zero_on()
    &&& forall|a: Sample, b: Sample, r: Sample|
        0 <= a.order() <= b.order() && 0 < b.order() && #[trigger] call_ensures(
            A::sample_over,
            (m, a, b),
            r,
        ) ==> r.is_number() ==> 0 <= r.order() <= SAMPLE_ONE
}

/// Whether the arithmetic leaves a sample as it is when it multiplies it by 1; NaN stays NaN.
pub open spec fn one_is_neutral<A: Arith>(m: &A) -> bool {
    forall|a: Sample, r: Sample|
        #[trigger] call_ensures(
            A::sample_times,
            (m, a, Sample { bits: SAMPLE_ONE }),
            r,
        ) ==> if a.is_number() {
            r == a
        } else {
            !r.is_number()
        }
}

/// Whether the arithmetic gives the quotient of two samples and that of their doubles alike, where
/// the doubles are finite: they are the same number.
pub open spec fn doubles_cancel<A: Arith>(m: &A) -> bool {
    forall|a: Sample, b: Sample, r: Sample, s: Sample|
        a.is_doubled_exactly() && b.is_doubled_exactly() && 0 <= a.order() && 0 < b.order()
            && #[trigger] call_ensures(A::sample_over, (m, a, b), r) && #[trigger] call_ensures(
            A::sample_over,
            (m, a.doubled(), b.doubled()),
            s,
        ) ==> r == s
}

/// Whether the arithmetic takes two values from each other with results that only differ in sign,
/// or are NaN both.
pub open spec fn differences_are_opposite<A: Arith>(m: &A) -> bool {
    forall|a: Num, b: Num, r: Num, s: Num|
        #[trigger] call_ensures(A::minus, (m, a, b), r) && #[trigger] call_ensures(
            A::minus,
            (m, b, a),
            s,
        ) ==> r.abs() == s.abs() || !r.is_number() && !s.is_number()
}

/// Whether the arithmetic keeps distortion in bounds: 5 times a number is a number, the hyperbolic
/// tangent of a number lies in -1 to 1, and 0.7 times a number that lies there lies within 0.7 of
/// 0.
pub open spec fn tanh_is_bounded<A: Arith>(m: &A) -> bool {
    &&& forall|a: Sample, r: Sample|
        a.is_number() && #[trigger] call_ensures(
            A::sample_times,
            (m, a, Sample { bits: SAMPLE_FIVE }),
            r,
        ) ==> r.is_number()
    &&& forall|a: Sample, r: Sample|
        a.is_number() && #[trigger] call_ensures(A::sample_tanh, (m, a), r) ==> r.magnitude()
            <= SAMPLE_ONE
    &&& forall|a: Sample, r: Sample|
        a.magnitude() <= SAMPLE_ONE && #[trigger] call_ensures(
            A::sample_times,
            (m, a, Sample { bits: SAMPLE_SEVEN_TENTHS }),
            r,
        ) ==> r.magnitude() <= SAMPLE_SEVEN_TENTHS
}

/// Whether the arithmetic turns 32767 times a sample in -1 to 1, or times NaN, into an integer from
/// -32767 to 32767.
pub open spec fn pcm_is_bounded<A: Arith>(m: &A) -> bool {
    forall|a: Sample, p: Sample, n: i16|
        in_range(a) && #[trigger] call_ensures(
            A::sample_times,
            (m, a, Sample { bits: SAMPLE_PCM_MAX }),
            p,
        ) && #[trigger] call_ensures(A::to_pcm, (m, p), n) ==> -32767 <= n <= 32767
}

/// Whether the arithmetic tells a whole from a part: a positive finite sample over itself is 1, and
/// a sample from 0 on over a greater one is less than 1.
pub open spec fn parts_are_less<A: Arith>(m: &A) -> bool {
    &&& forall|a: Sample, r: Sample|
        0 < a.order() < SAMPLE_INFINITY && #[trigger] call_ensures(A::sample_over, (m, a, a), r)
            ==> r == (Sample { bits: SAMPLE_ONE })
    &&& forall|a: Sample, b: Sample, r: Sample|
        0 <= a.order() < b.order() <= SAMPLE_INFINITY && #[trigger] call_ensures(
            A::sample_over,
            (m, a, b),
            r,
        ) ==> r.is_number() && r.order() < SAMPLE_ONE
}

} // verus!
