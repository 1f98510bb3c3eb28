use vstd::prelude::*;
use crate::order::Sortable;
use crate::bucket::BucketSortable;
use crate::radix::RadixSortable;
use crate::digits::pow10;
use crate::digits::digits10;
use crate::digits::linear_index;
use crate::digits::lemma_pow10_pos;
use crate::digits::lemma_digit_vanishes;
use crate::digits::lemma_linear_index_bounds;
use crate::digits::lemma_linear_index_monotone;
use crate::int_adapter::abs_of;
use crate::int_adapter::lemma_pow10_concrete;
use crate::int_adapter::pow10_u64;
use crate::int_adapter::count_digits_u64;

verus! {

/// How many micro-units make one whole unit: the fixed six-fractional-digit
/// scaling both engines assume for real-valued elements.
pub const MICROS_PER_UNIT: i64 = 1_000_000;

/// A real value held as a signed count of millionths: the library's
/// fixed-point stand-in for a 64-bit floating-point element, which carries
/// exactly the six fractional decimal digits the radix engine scales by.
#[derive(Clone, Copy, PartialEq, Eq, Structural, Debug)]
pub struct Fixed {
    micros: i64,
}

impl Fixed {
    /// The underlying count of millionths.
    pub closed spec fn micros_spec(self) -> i64 {
        self.micros
    }

    pub fn from_micros(micros: i64) -> (r: Self)
        ensures
            r.micros_spec() == micros,
    {
        Fixed { micros }
    }

    pub fn micros(&self) -> (r: i64)
        ensures
            r == self.micros_spec(),
    {
        self.micros
    }
}

/// Equal micro-counts mean equal values.
pub proof fn lemma_fixed_eq(a: Fixed, b: Fixed)
    requires
        a.micros_spec() == b.micros_spec(),
    ensures
        a == b,
{
}

impl Sortable for Fixed {
    open spec fn le_spec(self, other: Self) -> bool {
        self.micros_spec() <= other.micros_spec()
    }

    proof fn lemma_le_total(a: Self, b: Self) {
    }

    proof fn lemma_le_trans(a: Self, b: Self, c: Self) {
    }

    fn le(&self, other: &Self) -> (r: bool) {
        self.micros <= other.micros
    }
}

impl BucketSortable for Fixed {
    /// The count is the square root of the maximum's real value, rounded
    /// up, with a floor of one covering a non-positive maximum. In
    /// micro-units, `count` is the least `c >= 1` with
    /// `c * c * MICROS_PER_UNIT` at least the maximum.
    open spec fn bucket_count_spec(self, count: int) -> bool {
        let m = self.micros_spec() as int;
        if m <= 0 {
            count == 1
        } else {
            count >= 1 && count * count * (MICROS_PER_UNIT as int) >= m && (count > 1 ==> (count
                - 1) * (count - 1) * (MICROS_PER_UNIT as int) < m)
        }
    }

    /// The scale of value and maximum cancels, so the plain linear-range
    /// formula over micro-counts matches the real-valued one.
    open spec fn bucket_index_spec(self, count: int, max: Self) -> int {
        linear_index(self.micros_spec() as int, count, max.micros_spec() as int)
    }

    open spec fn index_monotone() -> bool {
        true
    }

    proof fn lemma_index_monotone(a: Self, b: Self, count: int, max: Self) {
        lemma_linear_index_monotone(
            a.micros_spec() as int,
            b.micros_spec() as int,
            count,
            max.micros_spec() as int,
        );
    }

    fn get_bucket_count(&self) -> (c: usize) {
        let m = self.micros;
        if m <= 0 {
            return 1;
        }
        let vv: u128 = m as u128;
        let mut k: u64 = 1;
        let mut sq: u128 = 1;
        while sq * 1_000_000 < vv
            invariant
                1 <= k <= 3_037_001,
                sq == k * k,
                sq <= 10_000_000_000_000,
                vv == self.micros_spec() as int,
                vv >= 1,
                (k - 1) * (k - 1) * 1_000_000 < vv,
            decreases 3_037_001 - k,
        {
            proof {
                assert(k <= 3_037_000) by (nonlinear_arith)
                    requires
                        k * k * 1_000_000 < 0x8000_0000_0000_0000u128,
                        k >= 1,
                ;
                assert((k + 1) * (k + 1) == k * k + 2 * k + 1) by (nonlinear_arith);
                assert((k + 1) * (k + 1) <= 10_000_000_000_000) by (nonlinear_arith)
                    requires
                        k + 1 <= 3_037_001u64,
                ;
            }
            sq = sq + 2 * (k as u128) + 1;
            k = k + 1;
        }
        k as usize
    }

    fn to_bucket_index(&self, bucket_count: usize, max_value: &Self) -> (i: usize) {
        let v: i128 = self.micros as i128;
        let m: i128 = max_value.micros as i128;
        let c: i128 = bucket_count as i128;
        if m <= 0 || v <= 0 {
            proof {
                lemma_linear_index_bounds(v as int, c as int, m as int);
            }
            return 0;
        }
        proof {
            assert(v as int * (c as int - 1) < 0x8000_0000_0000_0000 * 0x1_0000_0000_0000_0000)
                by (nonlinear_arith)
                requires
                    0 < (v as int),
                    (v as int) < 0x8000_0000_0000_0000,
                    0 <= ((c as int) - 1),
                    ((c as int) - 1) < 0x1_0000_0000_0000_0000,
            ;
            vstd::arithmetic::mul::lemma_mul_nonnegative(v as int, c as int - 1);
            lemma_linear_index_bounds(v as int, c as int, m as int);
        }
        let raw = v * (c - 1) / m;
        let idx = if raw >= c {
            c - 1
        } else {
            raw
        };
        proof {
            vstd::arithmetic::div_mod::lemma_div_pos_is_pos(v as int * (c as int - 1), m as int);
        }
        idx as usize
    }
}

impl RadixSortable for Fixed {
    /// The digit at `place` of the scaled magnitude.
    open spec fn digit_spec(self, place: int) -> int {
        abs_of(self.micros_spec() as int) / pow10(place) % 10
    }

    /// The number of decimal digits of the scaled magnitude.
    open spec fn max_digits_spec(self) -> int {
        digits10(abs_of(self.micros_spec() as int))
    }

    /// No correction pass: negative values keep the magnitude order the
    /// digit passes give them, a known limitation of the digit model.
    open spec fn needs_correction() -> bool {
        false
    }

    fn get_digit(&self, place: usize) -> (d: usize) {
        let v: i64 = self.micros;
        let a: u64 = if v < 0 {
            (-(v as i128)) as u64
        } else {
            v as u64
        };
        if place >= 20 {
            proof {
                lemma_pow10_concrete();
                lemma_digit_vanishes(a as int, place as int, 19);
            }
            return 0;
        }
        let p = pow10_u64(place);
        proof {
            lemma_pow10_pos(place as int);
            vstd::arithmetic::div_mod::lemma_div_pos_is_pos(a as int, p as int);
        }
        ((a / p) % 10) as usize
    }

    fn max_digits(&self) -> (n: usize) {
        let v: i64 = self.micros;
        let a: u64 = if v < 0 {
            (-(v as i128)) as u64
        } else {
            v as u64
        };
        count_digits_u64(a)
    }

    fn wants_sign_correction() -> (b: bool) {
        false
    }
}

} // verus!
