//! Double-precision numbers, held as their bits.
use std::marker::PhantomData;
use vstd::prelude::*;

verus! {

/// The bits of the number one.
pub const ONE: u64 = 0x3FF0_0000_0000_0000;

/// The bits of infinity. A greater magnitude is that of a NaN.
pub const INFINITY: u64 = 0x7FF0_0000_0000_0000;

/// The sign bit alone.
pub const SIGN: u64 = 0x8000_0000_0000_0000;

/// Whether the sign bit is set.
pub open spec fn is_negative(bits: u64) -> bool {
    bits >= SIGN
}

/// The bits without the sign.
pub open spec fn magnitude(bits: u64) -> int {
    if is_negative(bits) {
        bits - SIGN
    } else {
        bits as int
    }
}

/// Whether the bits are those of a NaN.
pub open spec fn is_nan(bits: u64) -> bool {
    magnitude(bits) > INFINITY
}

/// An integer by which the numbers that are not NaN are ordered: of two doubles the one with
/// the smaller rank is the smaller number, and both zeros have rank zero.
pub open spec fn rank(bits: u64) -> int {
    if is_negative(bits) {
        -magnitude(bits)
    } else {
        magnitude(bits)
    }
}

/// `a < b` of doubles: false where either is a NaN.
pub open spec fn less(a: u64, b: u64) -> bool {
    !is_nan(a) && !is_nan(b) && rank(a) < rank(b)
}

/// `a == b` of doubles: false where either is a NaN.
pub open spec fn equal(a: u64, b: u64) -> bool {
    !is_nan(a) && !is_nan(b) && rank(a) == rank(b)
}

/// `x >= 1.0` of doubles.
pub open spec fn at_least_one(bits: u64) -> bool {
    less(ONE, bits) || equal(ONE, bits)
}

/// Tells a NaN from a number.
pub fn check_nan(bits: u64) -> (nan: bool)
    ensures
        nan == is_nan(bits),
{
    if bits >= SIGN {
        bits - SIGN > INFINITY
    } else {
        bits > INFINITY
    }
}

/// Tells whether the number is one or more.
pub fn check_at_least_one(bits: u64) -> (yes: bool)
    ensures
        yes == at_least_one(bits),
{
    bits >= ONE && bits <= INFINITY
}

/// The rank of a number, moved up so that it is never negative.
pub fn unsigned_rank(bits: u64) -> (r: u64)
    ensures
        r == rank(bits) + SIGN,
{
    if bits >= SIGN {
        SIGN - (bits - SIGN)
    } else {
        SIGN + bits
    }
}

/// A double as a value of a record: its bits, by which it is ordered and computed with, and
/// the text that it is shown as.
#[derive(Debug)]
pub struct Float {
    /// The IEEE 754 bits.
    pub bits: u64,
    /// The text.
    pub text: String,
}

/// What a [`Float`] holds.
pub struct FloatView {
    pub bits: u64,
    pub text: Seq<char>,
}

impl View for Float {
    type V = FloatView;

    open spec fn view(&self) -> FloatView {
        FloatView { bits: self.bits, text: self.text@ }
    }
}

impl Clone for Float {
    fn clone(&self) -> (copy: Float)
        ensures
            copy@ == self@,
    {
        Float { bits: self.bits, text: self.text.clone() }
    }
}

impl PartialEq for Float {
    fn eq(&self, other: &Float) -> (same: bool) {
        if check_nan(self.bits) || check_nan(other.bits) {
            false
        } else {
            unsigned_rank(self.bits) == unsigned_rank(other.bits)
        }
    }
}

impl vstd::std_specs::cmp::PartialEqSpecImpl for Float {
    open spec fn obeys_eq_spec() -> bool {
        true
    }

    open spec fn eq_spec(&self, other: &Float) -> bool {
        equal(self.bits, other.bits)
    }
}

/// What a double holds, where there is one.
pub open spec fn float_view(float: Option<Float>) -> Option<FloatView> {
    match float {
        Some(f) => Some(f@),
        None => None,
    }
}

/// How doubles are written.
///
/// The same text is always read in the same way: what is read is a function of the text. Of an
/// implementation that says no more, that is all that is known.
pub trait Notation: Sized {
    /// The double that a text denotes, where it denotes one, with the text that it is shown as.
    open spec fn double_in(text: Seq<char>) -> Option<FloatView> {
        (arbitrary::<(PhantomData<Self>, spec_fn(Seq<char>) -> Option<FloatView>)>().1)(text)
    }

    /// Reads a double.
    fn read(text: &str) -> (double: Option<Float>)
        ensures
            float_view(double) == Self::double_in(text@),
    ;
}

/// The notation in which no text is that of a double: there are integers, and all else is text.
pub struct IntegersOnly;

impl Notation for IntegersOnly {
    open spec fn double_in(text: Seq<char>) -> Option<FloatView> {
        None
    }

    fn read(_text: &str) -> (double: Option<Float>) {
        None
    }
}

/// The operations on doubles that the aggregates need, over their bits, with the quantile
/// sketch among them, beside the notation of doubles. Nothing is assumed of what they return:
/// the contracts of the aggregates say on what values each operation was called and where its
/// result went.
pub trait Numerics: Notation {
    /// A summary of many numbers that answers quantile queries.
    type Sketch: Clone;

    /// `a + b`.
    fn plus(a: u64, b: u64) -> u64;

    /// `a / b`.
    fn over(a: u64, b: u64) -> u64;

    /// The double nearest to an integer.
    fn of_int(i: i64) -> u64;

    /// The integer part of a double, at the nearest bound where it is out of range.
    fn to_int(x: u64) -> i64;

    /// The text that a double is shown as.
    fn show(x: u64) -> String;

    /// A sketch of no numbers, with this bound on its error.
    fn sketch(error: u64) -> Self::Sketch;

    /// The sketch with one number more.
    fn observe(sketch: Self::Sketch, x: u64) -> Self::Sketch;

    /// The number at this quantile, where the sketch holds any.
    fn quantile(sketch: &Self::Sketch, q: u64) -> Option<u64>;
}

/// Where there are integers only, no text denotes a double.
pub proof fn law_integers_only(text: Seq<char>)
    ensures
        IntegersOnly::double_in(text) is None,
{
}

} // verus!
