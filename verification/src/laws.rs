use vstd::prelude::*;
use vstd::relations::sorted_by;
use vstd::relations::total_ordering;
use crate::order::Sortable;
use crate::order::sorted;
use crate::fixed::Fixed;
use crate::fixed::lemma_fixed_eq;
use crate::radix::RadixSortable;
use crate::radix::cdigit;
use crate::radix::filt;
use crate::radix::piles;
use crate::radix::radix_passes;
use crate::radix::seq_max_digits;
use crate::radix::lemma_filt_members;
use crate::radix::lemma_filt_source;
use crate::radix::lemma_filt_keeps_pairwise;
use crate::radix::lemma_filt_partition;
use crate::radix::lemma_piles_members;
use crate::digits::pow10;
use crate::digits::digits10;
use crate::digits::lemma_pow10_pos;
use crate::digits::lemma_pow10_mono;
use crate::text::reads_as_number;
use crate::text::magnitude_micros;
use crate::text::valid_chars;
use crate::text::code_value;
use crate::text::lemma_code_value_bound;
use crate::text::lemma_code_value_digit;

verus! {

/// Two sorted integer sequences holding the same multiset are the same
/// sequence. With the engines' permutation and sortedness guarantees this
/// says that sorting an already-sorted integer sequence reproduces it,
/// whichever engine ran.
pub proof fn lemma_sorted_unique_int(a: Seq<i32>, b: Seq<i32>)
    requires
        sorted(a),
        sorted(b),
        a.to_multiset() == b.to_multiset(),
    ensures
        a == b,
{
    let leq = |x: i32, y: i32| x <= y;
    assert(total_ordering(leq)) by {
        assert forall|x: i32| #[trigger] leq(x, x) by {}
        assert forall|x: i32, y: i32| #[trigger] leq(x, y) && #[trigger] leq(y, x) implies x == y by {}
        assert forall|x: i32, y: i32, z: i32|
            #[trigger] leq(x, y) && #[trigger] leq(y, z) implies leq(x, z) by {}
        assert forall|x: i32, y: i32| #[trigger] leq(x, y) || #[trigger] leq(y, x) by {}
    }
    assert(sorted_by(a, leq)) by {
        assert forall|i: int, j: int| 0 <= i < j < a.len() implies #[trigger] leq(a[i], a[j]) by {
            assert(a[i].le_spec(a[j]));
        }
    }
    assert(sorted_by(b, leq)) by {
        assert forall|i: int, j: int| 0 <= i < j < b.len() implies #[trigger] leq(b[i], b[j]) by {
            assert(b[i].le_spec(b[j]));
        }
    }
    vstd::seq_lib::lemma_sorted_unique(a, b, leq);
}

/// The same uniqueness for fixed-point sequences: their order is the order
/// of the micro-counts, and equal micro-counts mean equal values.
pub proof fn lemma_sorted_unique_fixed(a: Seq<Fixed>, b: Seq<Fixed>)
    requires
        sorted(a),
        sorted(b),
        a.to_multiset() == b.to_multiset(),
    ensures
        a == b,
{
    let leq = |x: Fixed, y: Fixed| x.le_spec(y);
    assert(total_ordering(leq)) by {
        assert forall|x: Fixed| #[trigger] leq(x, x) by {}
        assert forall|x: Fixed, y: Fixed|
            #[trigger] leq(x, y) && #[trigger] leq(y, x) implies x == y by {
            lemma_fixed_eq(x, y);
        }
        assert forall|x: Fixed, y: Fixed, z: Fixed|
            #[trigger] leq(x, y) && #[trigger] leq(y, z) implies leq(x, z) by {}
        assert forall|x: Fixed, y: Fixed| #[trigger] leq(x, y) || #[trigger] leq(y, x) by {}
    }
    assert(sorted_by(a, leq)) by {
        assert forall|i: int, j: int| 0 <= i < j < a.len() implies #[trigger] leq(a[i], a[j]) by {
            assert(a[i].le_spec(a[j]));
        }
    }
    assert(sorted_by(b, leq)) by {
        assert forall|i: int, j: int| 0 <= i < j < b.len() implies #[trigger] leq(b[i], b[j]) by {
            assert(b[i].le_spec(b[j]));
        }
    }
    vstd::seq_lib::lemma_sorted_unique(a, b, leq);
}


/// A sequence of non-negative fixed-point values: the inputs for which the
/// digit passes alone are a complete sort.
pub open spec fn all_nonneg(s: Seq<Fixed>) -> bool {
    forall|i: int| 0 <= i < s.len() ==> (#[trigger] s[i].micros_spec()) >= 0
}

/// A non-negative value splits at a place boundary into its digit there
/// and the places below.
proof fn lemma_value_split(v: int, k: int)
    requires
        k >= 0,
        v >= 0,
    ensures
        0 <= v / pow10(k) % 10 <= 9,
        v % pow10(k + 1) == (v / pow10(k) % 10) * pow10(k) + v % pow10(k),
        0 <= v % pow10(k) < pow10(k),
{
    lemma_pow10_pos(k);
    vstd::arithmetic::div_mod::lemma_div_pos_is_pos(v, pow10(k));
    vstd::arithmetic::div_mod::lemma_mod_bound(v / pow10(k), 10);
    vstd::arithmetic::div_mod::lemma_mod_bound(v, pow10(k));
    vstd::arithmetic::div_mod::lemma_breakdown(v, pow10(k), 10);
    assert(pow10(k) * 10 == pow10(k + 1));
    assert(v % (pow10(k) * 10) == pow10(k) * ((v / pow10(k)) % 10) + v % pow10(k));
    assert(pow10(k) * ((v / pow10(k)) % 10) == ((v / pow10(k)) % 10) * pow10(k))
        by (nonlinear_arith);
}

/// The digit premise under which the passes sort by `val`: every element
/// is non-negative under `val` and reports exactly the decimal digits of
/// its `val` at every place.
pub open spec fn digits_follow_value<T: RadixSortable>(s: Seq<T>, val: spec_fn(T) -> int) -> bool {
    &&& forall|i: int| 0 <= i < s.len() ==> val(#[trigger] s[i]) >= 0
    &&& forall|i: int, kk: int|
        0 <= i < s.len() && kk >= 0 ==> #[trigger] cdigit(s[i], kk) == val(s[i]) / pow10(kk) % 10
}

/// One pass worth of classes, cut at class `d`: ordered under one more
/// digit place of `val`, with every element drawn from the source.
proof fn lemma_class_step<T: RadixSortable>(t: Seq<T>, k: int, d: int, val: spec_fn(T) -> int)
    requires
        k >= 0,
        -1 <= d <= 9,
        digits_follow_value(t, val),
        forall|i: int, j: int|
            0 <= i < j < t.len() ==> val(#[trigger] t[i]) % pow10(k) <= val(#[trigger] t[j])
                % pow10(k),
    ensures
        forall|i: int, j: int|
            0 <= i < j < piles(t, k, d).len() ==> val(#[trigger] piles(t, k, d)[i]) % pow10(k + 1)
                <= val(#[trigger] piles(t, k, d)[j]) % pow10(k + 1),
        forall|i: int| 0 <= i < piles(t, k, d).len() ==> t.contains(#[trigger] piles(t, k, d)[i]),
    decreases d + 1,
{
    if d >= 0 {
        lemma_class_step(t, k, d - 1, val);
        lemma_piles_members(t, k, d - 1);
        lemma_filt_members(t, k, d);
        lemma_filt_source(t, k, d);
        let key = |x: T| val(x) % pow10(k);
        assert forall|i: int, j: int| 0 <= i < j < t.len() implies #[trigger] key(t[i])
            <= #[trigger] key(t[j]) by {
            assert(key(t[i]) == val(t[i]) % pow10(k));
            assert(key(t[j]) == val(t[j]) % pow10(k));
        }
        lemma_filt_keeps_pairwise(t, k, d, key);
        let p = piles(t, k, d);
        let q = piles(t, k, d - 1);
        let f = filt(t, k, d);
        assert(p == q + f);
        assert forall|i: int| 0 <= i < p.len() implies t.contains(#[trigger] p[i]) by {
            if i < q.len() {
                assert(p[i] == q[i]);
                assert(t.contains(q[i]));
            } else {
                assert(p[i] == f[i - q.len()]);
                let w = choose|w: int| 0 <= w < t.len() && t[w] == f[i - q.len()];
                assert(t[w] == p[i]);
            }
        }
        assert forall|i: int, j: int| 0 <= i < j < p.len() implies val(#[trigger] p[i]) % pow10(
            k + 1,
        ) <= val(#[trigger] p[j]) % pow10(k + 1) by {
            assert(t.contains(p[i]));
            assert(t.contains(p[j]));
            let wi = choose|w: int| 0 <= w < t.len() && t[w] == p[i];
            let wj = choose|w: int| 0 <= w < t.len() && t[w] == p[j];
            assert(val(t[wi]) >= 0);
            assert(val(t[wj]) >= 0);
            assert(cdigit(t[wi], k) == val(t[wi]) / pow10(k) % 10);
            assert(cdigit(t[wj], k) == val(t[wj]) / pow10(k) % 10);
            assert(cdigit(p[i], k) == val(p[i]) / pow10(k) % 10 && val(p[i]) >= 0);
            assert(cdigit(p[j], k) == val(p[j]) / pow10(k) % 10 && val(p[j]) >= 0);
            lemma_value_split(val(p[i]), k);
            lemma_value_split(val(p[j]), k);
            if j < q.len() {
                assert(p[i] == q[i]);
                assert(p[j] == q[j]);
            } else if i >= q.len() {
                assert(p[i] == f[i - q.len()]);
                assert(p[j] == f[j - q.len()]);
                assert(key(f[i - q.len()]) <= key(f[j - q.len()]));
                assert(val(p[i]) % pow10(k) <= val(p[j]) % pow10(k));
                assert(cdigit(p[i], k) == d);
                assert(cdigit(p[j], k) == d);
            } else {
                assert(p[i] == q[i]);
                assert(p[j] == f[j - q.len()]);
                assert(cdigit(p[i], k) <= d - 1);
                assert(cdigit(p[j], k) == d);
                assert((cdigit(p[i], k) + 1) * pow10(k) <= d * pow10(k)) by {
                    vstd::arithmetic::mul::lemma_mul_inequality(cdigit(p[i], k) + 1, d, pow10(k));
                }
                assert((cdigit(p[i], k)) * pow10(k) + pow10(k) == (cdigit(p[i], k) + 1) * pow10(k))
                    by (nonlinear_arith);
                assert(d * pow10(k) <= val(p[j]) % pow10(k + 1));
            }
        }
    } else {
        assert(piles(t, k, d) =~= Seq::<T>::empty());
    }
}

/// After `k` passes the sequence is ordered under the low `k` digits of
/// `val`, and every element traces back to the input.
proof fn lemma_passes_ordered<T: RadixSortable>(s: Seq<T>, k: int, val: spec_fn(T) -> int)
    requires
        k >= 0,
        digits_follow_value(s, val),
    ensures
        forall|i: int, j: int|
            0 <= i < j < radix_passes(s, k).len() ==> val(#[trigger] radix_passes(s, k)[i]) % pow10(
                k,
            ) <= val(#[trigger] radix_passes(s, k)[j]) % pow10(k),
        forall|i: int|
            0 <= i < radix_passes(s, k).len() ==> s.contains(#[trigger] radix_passes(s, k)[i]),
    decreases k,
{
    if k == 0 {
        assert forall|i: int, j: int| 0 <= i < j < s.len() implies val(#[trigger] s[i]) % pow10(0)
            <= val(#[trigger] s[j]) % pow10(0) by {
            assert(val(s[i]) >= 0);
            assert(val(s[j]) >= 0);
            vstd::arithmetic::div_mod::lemma_mod_bound(val(s[i]), 1);
            vstd::arithmetic::div_mod::lemma_mod_bound(val(s[j]), 1);
        }
        assert forall|i: int| 0 <= i < s.len() implies s.contains(
            #[trigger] radix_passes(s, 0)[i],
        ) by {
            assert(s[i] == radix_passes(s, 0)[i]);
        }
    } else {
        lemma_passes_ordered(s, k - 1, val);
        let prev = radix_passes(s, k - 1);
        assert(digits_follow_value(prev, val)) by {
            assert forall|i: int| 0 <= i < prev.len() implies val(#[trigger] prev[i]) >= 0 by {
                assert(s.contains(prev[i]));
                let w = choose|w: int| 0 <= w < s.len() && s[w] == prev[i];
                assert(val(s[w]) >= 0);
            }
            assert forall|i: int, kk: int|
                0 <= i < prev.len() && kk >= 0 implies #[trigger] cdigit(prev[i], kk) == val(
                prev[i],
            ) / pow10(kk) % 10 by {
                assert(s.contains(prev[i]));
                let w = choose|w: int| 0 <= w < s.len() && s[w] == prev[i];
                assert(cdigit(s[w], kk) == val(s[w]) / pow10(kk) % 10);
            }
        }
        lemma_class_step(prev, k - 1, 9, val);
        let p = radix_passes(s, k);
        assert forall|i: int| 0 <= i < p.len() implies s.contains(#[trigger] p[i]) by {
            assert(prev.contains(p[i]));
            let u = choose|u: int| 0 <= u < prev.len() && prev[u] == p[i];
            assert(s.contains(prev[u]));
        }
    }
}

/// The passes only rearrange: the multiset of values is unchanged.
proof fn lemma_passes_multiset<T: RadixSortable>(s: Seq<T>, k: int)
    requires
        k >= 0,
    ensures
        radix_passes(s, k).to_multiset() == s.to_multiset(),
    decreases k,
{
    if k > 0 {
        lemma_passes_multiset(s, k - 1);
        lemma_filt_partition(radix_passes(s, k - 1), k - 1);
    }
}

/// A non-negative value stays below ten to its digit count.
proof fn lemma_value_lt_pow10_digits(n: int)
    requires
        n >= 0,
    ensures
        n < pow10(digits10(n)),
    decreases n,
{
    if n < 10 {
        assert(digits10(n) == 1);
        assert(pow10(0) == 1);
        assert(pow10(1) == 10 * pow10(0));
    } else {
        vstd::arithmetic::div_mod::lemma_fundamental_div_mod(n, 10);
        vstd::arithmetic::div_mod::lemma_mod_bound(n, 10);
        vstd::arithmetic::div_mod::lemma_div_pos_is_pos(n, 10);
        vstd::arithmetic::div_mod::lemma_div_is_strictly_smaller(n, 10);
        lemma_value_lt_pow10_digits(n / 10);
        crate::int_adapter::lemma_digits10_pos(n / 10);
        assert(digits10(n) == 1 + digits10(n / 10));
        assert(digits10(n) >= 2);
        assert(pow10(digits10(n)) == 10 * pow10(digits10(n / 10)));
        assert(n == 10 * (n / 10) + n % 10);
        assert(n / 10 <= pow10(digits10(n / 10)) - 1);
        assert(10 * (n / 10) <= 10 * pow10(digits10(n / 10)) - 10);
        assert(n % 10 <= 9);
        assert(n < 10 * pow10(digits10(n / 10)));
    }
}

/// The greatest digit-place count covers every element.
proof fn lemma_seq_max_digits_covers<T: RadixSortable>(s: Seq<T>)
    ensures
        seq_max_digits(s) >= 0,
        forall|i: int|
            0 <= i < s.len() ==> (#[trigger] s[i].max_digits_spec()) <= seq_max_digits(s),
    decreases s.len(),
{
    if s.len() > 0 {
        lemma_seq_max_digits_covers(s.drop_last());
        assert forall|i: int| 0 <= i < s.len() implies (#[trigger] s[i].max_digits_spec())
            <= seq_max_digits(s) by {
            if i < s.len() - 1 {
                assert(s.drop_last()[i] == s[i]);
            }
        }
    }
}

/// After one pass per digit place of the largest element, the sequence is
/// ordered under `val`: the general shape of LSD radix correctness, for
/// any adapter whose digits spell a non-negative value whose digit count
/// its place count covers.
proof fn lemma_passes_sort_by_value<T: RadixSortable>(s: Seq<T>, val: spec_fn(T) -> int)
    requires
        digits_follow_value(s, val),
        forall|i: int|
            0 <= i < s.len() ==> digits10(val(#[trigger] s[i])) <= s[i].max_digits_spec(),
    ensures
        forall|i: int, j: int|
            0 <= i < j < radix_passes(s, seq_max_digits(s)).len() ==> val(
                #[trigger] radix_passes(s, seq_max_digits(s))[i],
            ) <= val(#[trigger] radix_passes(s, seq_max_digits(s))[j]),
        radix_passes(s, seq_max_digits(s)).to_multiset() == s.to_multiset(),
        forall|i: int|
            0 <= i < radix_passes(s, seq_max_digits(s)).len() ==> s.contains(
                #[trigger] radix_passes(s, seq_max_digits(s))[i],
            ),
{
    lemma_seq_max_digits_covers(s);
    let k = seq_max_digits(s);
    lemma_passes_ordered(s, k, val);
    lemma_passes_multiset(s, k);
    let p = radix_passes(s, k);
    assert forall|i: int, j: int| 0 <= i < j < p.len() implies val(#[trigger] p[i]) <= val(
        #[trigger] p[j],
    ) by {
        assert(s.contains(p[i]));
        assert(s.contains(p[j]));
        let wi = choose|w: int| 0 <= w < s.len() && s[w] == p[i];
        let wj = choose|w: int| 0 <= w < s.len() && s[w] == p[j];
        assert(0 <= wi < s.len() && s[wi] == p[i]);
        assert(0 <= wj < s.len() && s[wj] == p[j]);
        assert(val(s[wi]) >= 0);
        assert(val(s[wj]) >= 0);
        assert(digits10(val(s[wi])) <= s[wi].max_digits_spec());
        assert(digits10(val(s[wj])) <= s[wj].max_digits_spec());
        lemma_value_lt_pow10_digits(val(p[i]));
        lemma_value_lt_pow10_digits(val(p[j]));
        lemma_pow10_mono(digits10(val(p[i])), k);
        lemma_pow10_mono(digits10(val(p[j])), k);
        lemma_pow10_pos(k);
        vstd::arithmetic::div_mod::lemma_small_mod(val(p[i]) as nat, pow10(k) as nat);
        vstd::arithmetic::div_mod::lemma_small_mod(val(p[j]) as nat, pow10(k) as nat);
    }
}

/// Digit passes are a complete ascending sort for non-negative
/// fixed-point sequences: after one pass per digit place of the largest
/// element, the sequence the radix engine hands back is sorted, and is a
/// permutation of the input. Negative values are the engine's accepted
/// blind spot, so they are left out.
pub proof fn lemma_radix_passes_sort_nonneg(s: Seq<Fixed>)
    requires
        all_nonneg(s),
    ensures
        sorted(radix_passes(s, seq_max_digits(s))),
        radix_passes(s, seq_max_digits(s)).to_multiset() == s.to_multiset(),
{
    let val = |x: Fixed| x.micros_spec() as int;
    assert(digits_follow_value(s, val)) by {
        assert forall|i: int| 0 <= i < s.len() implies val(#[trigger] s[i]) >= 0 by {
            assert(s[i].micros_spec() >= 0);
        }
        assert forall|i: int, kk: int|
            0 <= i < s.len() && kk >= 0 implies #[trigger] cdigit(s[i], kk) == val(s[i]) / pow10(
            kk,
        ) % 10 by {
            lemma_value_split(s[i].micros_spec() as int, kk);
        }
    }
    assert forall|i: int|
        0 <= i < s.len() implies digits10(val(#[trigger] s[i])) <= s[i].max_digits_spec() by {
        assert(val(s[i]) == s[i].micros_spec() as int);
    }
    lemma_passes_sort_by_value(s, val);
    let p = radix_passes(s, seq_max_digits(s));
    assert forall|i: int, j: int| 0 <= i < j < p.len() implies #[trigger] p[i].le_spec(
        #[trigger] p[j],
    ) by {
        assert(val(p[i]) <= val(p[j]));
    }
}

/// Idempotence of the digit passes on non-negative fixed-point input:
/// a sorted sequence comes back unchanged.
pub proof fn lemma_radix_passes_idempotent_nonneg(s: Seq<Fixed>)
    requires
        all_nonneg(s),
        sorted(s),
    ensures
        radix_passes(s, seq_max_digits(s)) == s,
{
    lemma_radix_passes_sort_nonneg(s);
    lemma_sorted_unique_fixed(radix_passes(s, seq_max_digits(s)), s);
}

/// Digit passes order strings that all read as numbers by their numeric
/// magnitude: the radix engine sorts a sequence of decimal strings by
/// value, not by dictionary order, and returns a permutation of it.
pub proof fn lemma_radix_passes_order_numeric_text(s: Seq<&str>)
    requires
        forall|i: int| 0 <= i < s.len() ==> reads_as_number((#[trigger] s[i])@),
    ensures
        forall|i: int, j: int|
            0 <= i < j < radix_passes(s, seq_max_digits(s)).len() ==> magnitude_micros(
                (#[trigger] radix_passes(s, seq_max_digits(s))[i])@,
            ) <= magnitude_micros((#[trigger] radix_passes(s, seq_max_digits(s))[j])@),
        radix_passes(s, seq_max_digits(s)).to_multiset() == s.to_multiset(),
{
    let val = |x: &str| magnitude_micros(x@);
    assert(digits_follow_value(s, val)) by {
        assert forall|i: int| 0 <= i < s.len() implies val(#[trigger] s[i]) >= 0 by {
            assert(reads_as_number(s[i]@));
            crate::text::lemma_magnitude_nonneg(s[i]@);
        }
        assert forall|i: int, kk: int|
            0 <= i < s.len() && kk >= 0 implies #[trigger] cdigit(s[i], kk) == val(s[i]) / pow10(
            kk,
        ) % 10 by {
            assert(reads_as_number(s[i]@));
            crate::text::lemma_magnitude_nonneg(s[i]@);
            lemma_value_split(magnitude_micros(s[i]@), kk);
            assert(s[i].digit_spec(kk) == magnitude_micros(s[i]@) / pow10(kk) % 10);
        }
    }
    assert forall|i: int|
        0 <= i < s.len() implies digits10(val(#[trigger] s[i])) <= s[i].max_digits_spec() by {
        assert(reads_as_number(s[i]@));
    }
    lemma_passes_sort_by_value(s, val);
    let p = radix_passes(s, seq_max_digits(s));
    assert forall|i: int, j: int| 0 <= i < j < p.len() implies magnitude_micros(
        (#[trigger] p[i])@,
    ) <= magnitude_micros((#[trigger] p[j])@) by {
        assert(val(p[i]) <= val(p[j]));
    }
}


/// Digit passes order strings that read as no number by their character
/// codes, fixed width from the right: exactly the code ordering the
/// plain-string digit model spells out, with shorter strings reading zero
/// at the places the longest one fills. The character-validity premise
/// holds of the view of every real string, and the length premise of any
/// string that fits in memory.
pub proof fn lemma_radix_passes_order_plain_text(s: Seq<&str>)
    requires
        forall|i: int| 0 <= i < s.len() ==> !reads_as_number((#[trigger] s[i])@),
        forall|i: int| 0 <= i < s.len() ==> valid_chars((#[trigger] s[i])@),
        forall|i: int| 0 <= i < s.len() ==> 7 * (((#[trigger] s[i])@.len()) as int) <= usize::MAX,
    ensures
        forall|i: int, j: int|
            0 <= i < j < radix_passes(s, seq_max_digits(s)).len() ==> code_value(
                (#[trigger] radix_passes(s, seq_max_digits(s))[i])@,
            ) <= code_value((#[trigger] radix_passes(s, seq_max_digits(s))[j])@),
        radix_passes(s, seq_max_digits(s)).to_multiset() == s.to_multiset(),
{
    let val = |x: &str| code_value(x@);
    assert(digits_follow_value(s, val)) by {
        assert forall|i: int| 0 <= i < s.len() implies val(#[trigger] s[i]) >= 0 by {
            lemma_code_value_bound(s[i]@);
        }
        assert forall|i: int, kk: int|
            0 <= i < s.len() && kk >= 0 implies #[trigger] cdigit(s[i], kk) == val(s[i]) / pow10(
            kk,
        ) % 10 by {
            lemma_code_value_digit(s[i]@, kk);
            if kk / 7 < s[i]@.len() {
                let code = s[i]@[s[i]@.len() - 1 - kk / 7] as int;
                assert(0 <= code);
                lemma_pow10_pos(kk % 7);
                vstd::arithmetic::div_mod::lemma_div_pos_is_pos(code, pow10(kk % 7));
                vstd::arithmetic::div_mod::lemma_mod_bound(code / pow10(kk % 7), 10);
                assert(s[i].digit_spec(kk) == code / pow10(kk % 7) % 10);
            } else {
                assert(s[i].digit_spec(kk) == 0);
            }
        }
    }
    assert forall|i: int|
        0 <= i < s.len() implies digits10(val(#[trigger] s[i])) <= s[i].max_digits_spec() by {
        lemma_code_value_bound(s[i]@);
        let len = s[i]@.len() as int;
        if len == 0 {
            assert(code_value(s[i]@) == 0);
            assert(digits10(0) == 1);
            assert(s[i].max_digits_spec() == 1);
        } else {
            crate::int_adapter::lemma_digits10_under(code_value(s[i]@), 7 * len);
            assert(s[i].max_digits_spec() == 7 * len);
        }
    }
    lemma_passes_sort_by_value(s, val);
    let p = radix_passes(s, seq_max_digits(s));
    assert forall|i: int, j: int| 0 <= i < j < p.len() implies code_value(
        (#[trigger] p[i])@,
    ) <= code_value((#[trigger] p[j])@) by {
        assert(val(p[i]) <= val(p[j]));
    }
}

} // verus!
