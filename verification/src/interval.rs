//! The sign rules of interval arithmetic: which closed form encloses the
//! reciprocal or the power of an interval, and whether an interval has a
//! root inside, decided from where its two endpoints stand relative to zero.
//!
//! The endpoints themselves, and the arithmetic on them, stay with the
//! caller; the rules are stated here over exact numbers.

use vstd::prelude::*;

verus! {

/// Where a number stands relative to zero.
#[derive(Debug, Copy, Clone, PartialEq, Eq, Structural)]
pub enum Sign {
    Negative,
    Zero,
    Positive,
}

/// How the reciprocal of a divisor `[c, d]` is enclosed.
#[derive(Debug, Copy, Clone, PartialEq, Eq, Structural)]
pub enum Reciprocal {
    /// `[1/d, 1/c]`: the divisor lies on one side of zero.
    Between,
    /// `[-inf, 1/c]`: the divisor ends at zero.
    UpTo,
    /// `[1/d, +inf]`: the divisor begins at zero.
    From,
    /// `[-inf, +inf]`: the divisor has zero inside, or is zero.
    Everything,
}

/// Which part of a base `[a, b]` a power is taken of.
#[derive(Debug, Copy, Clone, PartialEq, Eq, Structural)]
pub enum PowerBase {
    /// No part: the base is negative throughout and the result is empty.
    Nothing,
    /// `[0, b]`: the base reaches below zero and is cut off there.
    FromZero,
    /// `[a, b]`: the base is nowhere negative.
    Whole,
}

/// The sign of an exact number.
pub open spec fn sign_of(v: real) -> Sign {
    if v < 0real {
        Sign::Negative
    } else if v == 0real {
        Sign::Zero
    } else {
        Sign::Positive
    }
}

/// Zero lies strictly inside the interval whose endpoints have these signs.
pub open spec fn straddles_zero(min: Sign, max: Sign) -> bool {
    min is Negative && max is Positive
}

/// The enclosure of the reciprocal, by the signs of the divisor's endpoints.
pub open spec fn reciprocal_of(min: Sign, max: Sign) -> Reciprocal {
    if min is Zero && max is Zero {
        Reciprocal::Everything
    } else if max is Zero {
        Reciprocal::UpTo
    } else if min is Zero {
        Reciprocal::From
    } else if straddles_zero(min, max) {
        Reciprocal::Everything
    } else {
        Reciprocal::Between
    }
}

/// The part of a base that a power is taken of, by the signs of the base's
/// endpoints.
pub open spec fn power_base_of(min: Sign, max: Sign) -> PowerBase {
    if max is Negative {
        PowerBase::Nothing
    } else if min is Negative {
        PowerBase::FromZero
    } else {
        PowerBase::Whole
    }
}

/// Whether zero lies strictly inside an interval: an endpoint at zero does
/// not count.
pub fn interval_contains_zero(min: Sign, max: Sign) -> (inside: bool)
    ensures
        inside == straddles_zero(min, max),
{
    matches!(min, Sign::Negative) && matches!(max, Sign::Positive)
}

/// Whether zero lies strictly inside one of the intervals, each given by
/// the signs of its two endpoints.
pub fn contains_zero(intervals: &Vec<(Sign, Sign)>) -> (inside: bool)
    ensures
        inside == exists|i: int|
            0 <= i < intervals@.len() && straddles_zero(
                (#[trigger] intervals@[i]).0,
                intervals@[i].1,
            ),
{
    let mut i: usize = 0;
    while i < intervals.len()
        invariant
            i <= intervals@.len(),
            forall|j: int|
                0 <= j < i ==> !straddles_zero((#[trigger] intervals@[j]).0, intervals@[j].1),
        decreases intervals@.len() - i,
    {
        let (min, max) = intervals[i];
        if interval_contains_zero(min, max) {
            return true;
        }
        i = i + 1;
    }
    false
}

/// Chooses the enclosure of the reciprocal of a divisor.
pub fn reciprocal_rule(min: Sign, max: Sign) -> (rule: Reciprocal)
    ensures
        rule == reciprocal_of(min, max),
{
    match (min, max) {
        (Sign::Zero, Sign::Zero) => Reciprocal::Everything,
        (_, Sign::Zero) => Reciprocal::UpTo,
        (Sign::Zero, _) => Reciprocal::From,
        (Sign::Negative, Sign::Positive) => Reciprocal::Everything,
        (_, _) => Reciprocal::Between,
    }
}

/// Chooses the part of a base that a power is taken of.
pub fn power_base_rule(min: Sign, max: Sign) -> (rule: PowerBase)
    ensures
        rule == power_base_of(min, max),
{
    match (min, max) {
        (_, Sign::Negative) => PowerBase::Nothing,
        (Sign::Negative, _) => PowerBase::FromZero,
        (_, _) => PowerBase::Whole,
    }
}

/// `x` is a number of the interval `[a, b]`.
pub open spec fn within(a: real, b: real, x: real) -> bool {
    a <= x <= b
}

/// The least of four numbers.
pub open spec fn least_of(p: real, q: real, r: real, s: real) -> real {
    let pq = if p <= q {
        p
    } else {
        q
    };
    let rs = if r <= s {
        r
    } else {
        s
    };
    if pq <= rs {
        pq
    } else {
        rs
    }
}

/// The greatest of four numbers.
pub open spec fn greatest_of(p: real, q: real, r: real, s: real) -> real {
    let pq = if p >= q {
        p
    } else {
        q
    };
    let rs = if r >= s {
        r
    } else {
        s
    };
    if pq >= rs {
        pq
    } else {
        rs
    }
}

/// The sum of a number of `[a, b]` and a number of `[c, d]` lies in
/// `[a + c, b + d]`.
pub proof fn lemma_sum_enclosed(a: real, b: real, c: real, d: real, x: real, y: real)
    requires
        within(a, b, x),
        within(c, d, y),
    ensures
        within(a + c, b + d, x + y),
{
}

/// The difference of a number of `[a, b]` and a number of `[c, d]` lies in
/// `[a - d, b - c]`.
pub proof fn lemma_difference_enclosed(a: real, b: real, c: real, d: real, x: real, y: real)
    requires
        within(a, b, x),
        within(c, d, y),
    ensures
        within(a - d, b - c, x - y),
{
}

/// The product of a number of `[a, b]` and a number of `[c, d]` lies
/// between the least and the greatest of the four products of endpoints.
pub proof fn lemma_product_enclosed(a: real, b: real, c: real, d: real, x: real, y: real)
    requires
        within(a, b, x),
        within(c, d, y),
    ensures
        within(
            least_of(a * c, a * d, b * c, b * d),
            greatest_of(a * c, a * d, b * c, b * d),
            x * y,
        ),
{
    assert(x * y <= a * c || x * y <= a * d || x * y <= b * c || x * y <= b * d)
        by (nonlinear_arith)
        requires
            a <= x <= b,
            c <= y <= d,
    ;
    assert(x * y >= a * c || x * y >= a * d || x * y >= b * c || x * y >= b * d)
        by (nonlinear_arith)
        requires
            a <= x <= b,
            c <= y <= d,
    ;
}

/// The reciprocal of `y`.
pub open spec fn reciprocal(y: real) -> real {
    1real / y
}

/// The chosen enclosure holds the reciprocal of every number of the
/// divisor but zero.
pub proof fn lemma_reciprocal_enclosed(c: real, d: real, y: real)
    requires
        c <= y <= d,
        y != 0real,
    ensures
        match reciprocal_of(sign_of(c), sign_of(d)) {
            Reciprocal::Between => reciprocal(d) <= reciprocal(y) <= reciprocal(c),
            Reciprocal::UpTo => reciprocal(y) <= reciprocal(c),
            Reciprocal::From => reciprocal(d) <= reciprocal(y),
            Reciprocal::Everything => true,
        },
{
    if c > 0real || d < 0real {
        assert(reciprocal(d) <= reciprocal(y) <= reciprocal(c)) by (nonlinear_arith)
            requires
                c <= y <= d,
                c > 0real || d < 0real,
        ;
    } else if d == 0real && c < 0real {
        assert(reciprocal(y) <= reciprocal(c)) by (nonlinear_arith)
            requires
                c <= y < 0real,
        ;
    } else if c == 0real && d > 0real {
        assert(reciprocal(d) <= reciprocal(y)) by (nonlinear_arith)
            requires
                0real < y <= d,
        ;
    }
}

/// Zero counts as inside exactly where the interval holds numbers on both
/// sides of it.
pub proof fn lemma_straddles_zero(c: real, d: real)
    requires
        c <= d,
    ensures
        straddles_zero(sign_of(c), sign_of(d)) <==> c < 0real < d,
{
}

/// A power is taken of the numbers of the base that are not negative:
/// of none where all are negative, of all where none is.
pub proof fn lemma_power_base(a: real, b: real)
    requires
        a <= b,
    ensures
        power_base_of(sign_of(a), sign_of(b)) is Nothing <==> forall|x: real| #[trigger]
            within(a, b, x) ==> x < 0real,
        power_base_of(sign_of(a), sign_of(b)) is Whole <==> forall|x: real| #[trigger]
            within(a, b, x) ==> x >= 0real,
{
    assert(within(a, b, a));
    assert(within(a, b, b));
}

} // verus!
