use vstd::prelude::*;

verus! {

/// Ten to the power `e`, with non-positive exponents collapsing to one.
pub open spec fn pow10(e: int) -> int
    decreases e,
{
    if e <= 0 {
        1
    } else {
        10 * pow10(e - 1)
    }
}

/// How many decimal digits a non-negative number occupies; zero takes one.
pub open spec fn digits10(n: int) -> int
    decreases n,
{
    if n < 10 {
        1
    } else {
        1 + digits10(n / 10)
    }
}

/// The linear-range bucket formula shared by the numeric adapters:
/// `floor((v / m) * (c - 1))`, with the division artifacts of a
/// non-positive maximum or value collapsed to bucket zero, and an index
/// beyond the nominal range clamped to the last bucket.
pub open spec fn linear_index(v: int, c: int, m: int) -> int {
    if m <= 0 || v <= 0 {
        0
    } else {
        let i = v * (c - 1) / m;
        if i >= c {
            c - 1
        } else {
            i
        }
    }
}

pub proof fn lemma_pow10_pos(e: int)
    ensures
        pow10(e) >= 1,
    decreases e,
{
    if e > 0 {
        lemma_pow10_pos(e - 1);
    }
}

pub proof fn lemma_pow10_mono(a: int, b: int)
    requires
        a <= b,
    ensures
        pow10(a) <= pow10(b),
    decreases b - a,
{
    lemma_pow10_pos(a);
    if a < b {
        lemma_pow10_mono(a, b - 1);
        lemma_pow10_pos(b - 1);
    }
}

/// A value below the power at some place yields digit zero there.
pub proof fn lemma_digit_vanishes(a: int, place: int, bound: int)
    requires
        0 <= a,
        a < pow10(bound),
        bound <= place,
    ensures
        a / pow10(place) % 10 == 0,
{
    lemma_pow10_pos(place);
    lemma_pow10_mono(bound, place);
    vstd::arithmetic::div_mod::lemma_basic_div(a, pow10(place));
}

/// The linear-range formula stays within `[0, c)`.
pub proof fn lemma_linear_index_bounds(v: int, c: int, m: int)
    requires
        c >= 1,
    ensures
        0 <= linear_index(v, c, m) < c,
{
    if m <= 0 || v <= 0 {
    } else {
        vstd::arithmetic::mul::lemma_mul_nonnegative(v, c - 1);
        vstd::arithmetic::div_mod::lemma_div_pos_is_pos(v * (c - 1), m);
    }
}

/// The linear-range formula respects the numeric order of its value.
pub proof fn lemma_linear_index_monotone(v1: int, v2: int, c: int, m: int)
    requires
        c >= 1,
        v1 <= v2,
    ensures
        linear_index(v1, c, m) <= linear_index(v2, c, m),
{
    lemma_linear_index_bounds(v1, c, m);
    lemma_linear_index_bounds(v2, c, m);
    if m <= 0 || v1 <= 0 {
    } else {
        vstd::arithmetic::mul::lemma_mul_inequality(v1, v2, c - 1);
        vstd::arithmetic::div_mod::lemma_div_is_ordered(v1 * (c - 1), v2 * (c - 1), m);
    }
}

} // verus!
