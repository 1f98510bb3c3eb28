use vstd::prelude::*;
use crate::order::Sortable;
use crate::bucket::BucketSortable;
use crate::radix::RadixSortable;
use crate::digits::pow10;
use crate::digits::digits10;
use crate::digits::linear_index;
use crate::digits::lemma_pow10_pos;
use crate::digits::lemma_pow10_mono;
use crate::digits::lemma_digit_vanishes;
use crate::digits::lemma_linear_index_bounds;
use crate::digits::lemma_linear_index_monotone;

verus! {

/// The magnitude of a signed value, as an unbounded integer.
pub open spec fn abs_of(v: int) -> int {
    if v < 0 {
        -v
    } else {
        v
    }
}

impl Sortable for i32 {
    open spec fn le_spec(self, other: Self) -> bool {
        self <= other
    }

    proof fn lemma_le_total(a: Self, b: Self) {
    }

    proof fn lemma_le_trans(a: Self, b: Self, c: Self) {
    }

    fn le(&self, other: &Self) -> (r: bool) {
        *self <= *other
    }
}

impl BucketSortable for i32 {
    /// The count is the square root of the maximum, rounded up, with a
    /// floor of one covering a non-positive maximum.
    open spec fn bucket_count_spec(self, count: int) -> bool {
        if self <= 0 {
            count == 1
        } else {
            count >= 1 && count * count >= self && (count > 1 ==> (count - 1) * (count - 1)
                < self)
        }
    }

    open spec fn bucket_index_spec(self, count: int, max: Self) -> int {
        linear_index(self as int, count, max as int)
    }

    open spec fn index_monotone() -> bool {
        true
    }

    proof fn lemma_index_monotone(a: Self, b: Self, count: int, max: Self) {
        lemma_linear_index_monotone(a as int, b as int, count, max as int);
    }

    fn get_bucket_count(&self) -> (c: usize) {
        let v = *self;
        if v <= 0 {
            return 1;
        }
        let vv: u64 = v as u64;
        let mut k: u64 = 1;
        let mut sq: u64 = 1;
        while sq < vv
            invariant
                1 <= k <= 46341,
                sq == k * k,
                vv < 0x8000_0000,
                vv as int == *self as int,
                (k - 1) * (k - 1) < vv,
            decreases 46341 - k,
        {
            proof {
                assert(k <= 46340) by (nonlinear_arith)
                    requires
                        k * k < 0x8000_0000u64,
                        k >= 1,
                ;
                assert((k + 1) * (k + 1) == k * k + 2 * k + 1) by (nonlinear_arith);
                assert((k + 1) * (k + 1) <= 46341 * 46341) by (nonlinear_arith)
                    requires
                        k + 1 <= 46341,
                ;
            }
            sq = sq + 2 * k + 1;
            k = k + 1;
        }
        k as usize
    }

    fn to_bucket_index(&self, bucket_count: usize, max_value: &Self) -> (i: usize) {
        let v: i128 = *self as i128;
        let m: i128 = *max_value as i128;
        let c: i128 = bucket_count as i128;
        if m <= 0 || v <= 0 {
            proof {
                lemma_linear_index_bounds(v as int, c as int, m as int);
            }
            return 0;
        }
        proof {
            assert(v * (c - 1) <= 0x8000_0000 * c) by (nonlinear_arith)
                requires
                    0 < v < 0x8000_0000,
                    c >= 1,
            ;
            vstd::arithmetic::mul::lemma_mul_nonnegative(v as int, c as int - 1);
            lemma_linear_index_bounds(v as int, c as int, m as int);
        }
        let raw = v * (c - 1) / m;
        let idx = if raw >= c {
            c - 1
        } else {
            raw
        };
        proof {
            vstd::arithmetic::div_mod::lemma_div_pos_is_pos(v as int * (c as int - 1), m as int);
        }
        idx as usize
    }
}

impl RadixSortable for i32 {
    /// The digit at `place` of the value's magnitude.
    open spec fn digit_spec(self, place: int) -> int {
        abs_of(self as int) / pow10(place) % 10
    }

    /// The number of decimal digits of the magnitude; zero reports one.
    open spec fn max_digits_spec(self) -> int {
        digits10(abs_of(self as int))
    }

    /// Magnitude digits ignore the sign, so the engine must re-sort.
    open spec fn needs_correction() -> bool {
        true
    }

    fn get_digit(&self, place: usize) -> (d: usize) {
        let v: i64 = *self as i64;
        let a: u64 = if v < 0 {
            (-v) as u64
        } else {
            v as u64
        };
        if place >= 20 {
            proof {
                lemma_pow10_concrete();
                lemma_digit_vanishes(a as int, place as int, 10);
            }
            return 0;
        }
        let p = pow10_u64(place);
        proof {
            lemma_pow10_pos(place as int);
            vstd::arithmetic::div_mod::lemma_div_pos_is_pos(a as int, p as int);
        }
        ((a / p) % 10) as usize
    }

    fn max_digits(&self) -> (n: usize) {
        let v: i64 = *self as i64;
        let a: u64 = if v < 0 {
            (-v) as u64
        } else {
            v as u64
        };
        count_digits_u64(a)
    }

    fn wants_sign_correction() -> (b: bool) {
        true
    }
}

/// Landmark values of `pow10`, unfolded once for the arithmetic around
/// digit extraction.
pub(crate) proof fn lemma_pow10_concrete()
    ensures
        pow10(6) == 1_000_000,
        pow10(10) == 10_000_000_000,
        pow10(19) == 10_000_000_000_000_000_000,
        pow10(20) == 100_000_000_000_000_000_000,
{
    reveal_with_fuel(pow10, 21);
}

/// One more landmark value: seven places cover every character code.
pub(crate) proof fn lemma_pow10_concrete7()
    ensures
        pow10(7) == 10_000_000,
{
    reveal_with_fuel(pow10, 8);
}

/// Ten to the power `e`, executably; the exponent must leave the result
/// within the word.
pub(crate) fn pow10_u64(e: usize) -> (p: u64)
    requires
        e < 20,
    ensures
        p as int == pow10(e as int),
        p >= 1,
{
    proof {
        lemma_pow10_pos(e as int);
        lemma_pow10_concrete();
        lemma_pow10_mono(e as int, 19);
    }
    let mut p: u64 = 1;
    let mut i: usize = 0;
    while i < e
        invariant
            i <= e,
            e < 20,
            p as int == pow10(i as int),
        decreases e - i,
    {
        proof {
            lemma_pow10_pos(i as int);
            lemma_pow10_concrete();
            lemma_pow10_mono(i as int + 1, 19);
        }
        p = p * 10;
        i = i + 1;
    }
    p
}

/// How many decimal digits a magnitude occupies; zero occupies one.
pub(crate) fn count_digits_u64(a: u64) -> (n: usize)
    ensures
        n as int == digits10(a as int),
        n >= 1,
{
    let mut rest: u64 = a;
    let mut n: usize = 1;
    while rest >= 10
        invariant
            n >= 1,
            n <= 20,
            digits10(a as int) == n - 1 + digits10(rest as int),
        decreases rest,
    {
        proof {
            lemma_digits10_step(rest as int);
            lemma_digits10_bound(a as int, rest as int, n as int);
        }
        rest = rest / 10;
        n = n + 1;
    }
    n
}

proof fn lemma_digits10_step(x: int)
    requires
        x >= 10,
    ensures
        digits10(x) == 1 + digits10(x / 10),
{
}

/// A digit count never exceeds twenty for a word-sized magnitude; keeps the
/// counter within its type.
proof fn lemma_digits10_bound(a: int, rest: int, n: int)
    requires
        0 <= rest,
        rest >= 10,
        n >= 1,
        digits10(a) == n - 1 + digits10(rest),
        a < 0x1_0000_0000_0000_0000,
        0 <= a,
    ensures
        n + 1 <= 20,
{
    lemma_digits10_le(a);
    lemma_digits10_pos(rest / 10);
    lemma_digits10_two(rest);
}

pub(crate) proof fn lemma_digits10_pos(x: int)
    ensures
        digits10(x) >= 1,
    decreases x,
{
    if x >= 10 {
        lemma_digits10_pos(x / 10);
    }
}

proof fn lemma_digits10_two(x: int)
    requires
        x >= 10,
    ensures
        digits10(x) >= 2,
{
    lemma_digits10_pos(x / 10);
}

/// At most twenty digits fit in a 64-bit magnitude.
proof fn lemma_digits10_le(a: int)
    requires
        0 <= a < 0x1_0000_0000_0000_0000,
    ensures
        digits10(a) <= 20,
{
    lemma_pow10_concrete();
    lemma_digits10_under(a, 20);
}

pub(crate) proof fn lemma_digits10_under(a: int, e: int)
    requires
        0 <= a,
        e >= 1,
        a < pow10(e),
    ensures
        digits10(a) <= e,
    decreases e,
{
    if a < 10 {
    } else {
        assert(pow10(e) == 10 * pow10(e - 1));
        assert(a / 10 < pow10(e - 1)) by {
            vstd::arithmetic::div_mod::lemma_div_is_ordered(a, pow10(e) - 1, 10);
            lemma_pow10_pos(e - 1);
            assert((10 * pow10(e - 1) - 1) / 10 == pow10(e - 1) - 1) by {
                vstd::arithmetic::div_mod::lemma_fundamental_div_mod_converse(
                    10 * pow10(e - 1) - 1,
                    10,
                    pow10(e - 1) - 1,
                    9,
                );
            }
        }
        assert(e >= 2) by {
            lemma_pow10_pos(e - 1);
            if e == 1 {
            }
        }
        lemma_digits10_under(a / 10, e - 1);
    }
}

} // verus!
