use vstd::prelude::*;
use vstd::multiset::Multiset;
use crate::order::Sortable;
use crate::order::sorted;
use crate::order::insertion_sort;

verus! {

/// The radix-family adapter: how a type reports decimal digits of its
/// magnitude representation, least-significant place first.
pub trait RadixSortable: Sortable {
    /// The digit the adapter reports for `self` at `place`.
    spec fn digit_spec(self, place: int) -> int;

    /// How many digit places `self` occupies.
    spec fn max_digits_spec(self) -> int;

    /// True for the signed-integer adapter, whose magnitude digits make
    /// negative values interleave with positive ones: the engine runs a
    /// full comparison sort after the digit passes for such a type.
    spec fn needs_correction() -> bool;

    fn get_digit(&self, place: usize) -> (d: usize)
        ensures
            d as int == self.digit_spec(place as int),
    ;

    fn max_digits(&self) -> (n: usize)
        ensures
            n as int == self.max_digits_spec(),
            1 <= n,
    ;

    fn wants_sign_correction() -> (b: bool)
        ensures
            b == Self::needs_correction(),
    ;
}

/// The digit the engine actually files an element under: the adapter's
/// digit clamped into the ten counting bins.
pub open spec fn cdigit<T: RadixSortable>(x: T, place: int) -> int {
    let d = x.digit_spec(place);
    if d < 0 {
        0
    } else if d > 9 {
        9
    } else {
        d
    }
}

/// A sequence is in non-decreasing order of its clamped digit at `place`:
/// what one stable counting pass establishes.
pub open spec fn digit_ordered<T: RadixSortable>(s: Seq<T>, place: int) -> bool {
    forall|p: int, q: int| 0 <= p < q < s.len() ==> cdigit(#[trigger] s[p], place) <= cdigit(
        #[trigger] s[q],
        place,
    )
}

/// The greatest digit-place count reported by any element.
pub open spec fn seq_max_digits<T: RadixSortable>(s: Seq<T>) -> int
    decreases s.len(),
{
    if s.len() == 0 {
        0
    } else {
        let rest = seq_max_digits(s.drop_last());
        let last = s.last().max_digits_spec();
        if last > rest {
            last
        } else {
            rest
        }
    }
}

/// The subsequence of `s` whose clamped digit at `place` is `d`, in order.
pub open spec fn filt<T: RadixSortable>(s: Seq<T>, place: int, d: int) -> Seq<T>
    decreases s.len(),
{
    if s.len() == 0 {
        Seq::empty()
    } else {
        let rest = filt(s.drop_first(), place, d);
        if cdigit(s[0], place) == d {
            seq![s[0]] + rest
        } else {
            rest
        }
    }
}

/// How many elements of `s` carry a clamped digit of at most `d` at `place`.
spec fn cnt_le<T: RadixSortable>(s: Seq<T>, place: int, d: int) -> int
    decreases d + 1,
{
    if d < 0 {
        0
    } else {
        cnt_le(s, place, d - 1) + filt(s, place, d).len()
    }
}

/// The digit classes laid out one after the other, class 0 first.
pub open spec fn piles<T: RadixSortable>(s: Seq<T>, place: int, d: int) -> Seq<T>
    decreases d + 1,
{
    if d < 0 {
        Seq::empty()
    } else {
        piles(s, place, d - 1) + filt(s, place, d)
    }
}

/// The sequence after `k` stable counting passes, least significant place
/// first: each pass lays the previous sequence out by its digit classes.
pub open spec fn radix_passes<T: RadixSortable>(s: Seq<T>, k: int) -> Seq<T>
    decreases k,
{
    if k <= 0 {
        s
    } else {
        piles(radix_passes(s, k - 1), k - 1, 9)
    }
}

/// Every element of a digit class comes from the sequence it was drawn of.
pub(crate) proof fn lemma_filt_source<T: RadixSortable>(s: Seq<T>, place: int, d: int)
    ensures
        forall|i: int|
            0 <= i < filt(s, place, d).len() ==> exists|w: int|
                0 <= w < s.len() && s[w] == #[trigger] filt(s, place, d)[i],
    decreases s.len(),
{
    if s.len() > 0 {
        lemma_filt_source(s.drop_first(), place, d);
        let f = filt(s, place, d);
        let rest = filt(s.drop_first(), place, d);
        assert forall|i: int| 0 <= i < f.len() implies exists|w: int|
            0 <= w < s.len() && s[w] == #[trigger] f[i] by {
            if cdigit(s[0], place) == d {
                assert(f == seq![s[0]] + rest);
                if i == 0 {
                    assert(s[0] == f[i]);
                } else {
                    assert(f[i] == rest[i - 1]);
                    let w = choose|w: int| 0 <= w < s.drop_first().len() && s.drop_first()[w] == rest[i - 1];
                    assert(s[w + 1] == f[i]);
                }
            } else {
                assert(f == rest);
                let w = choose|w: int| 0 <= w < s.drop_first().len() && s.drop_first()[w] == rest[i];
                assert(s[w + 1] == f[i]);
            }
        }
    }
}

/// A digit class keeps any pairwise order its source sequence had.
pub(crate) proof fn lemma_filt_keeps_pairwise<T: RadixSortable>(
    s: Seq<T>,
    place: int,
    d: int,
    key: spec_fn(T) -> int,
)
    requires
        forall|i: int, j: int| 0 <= i < j < s.len() ==> #[trigger] key(s[i]) <= #[trigger] key(s[j]),
    ensures
        forall|i: int, j: int|
            0 <= i < j < filt(s, place, d).len() ==> #[trigger] key(filt(s, place, d)[i])
                <= #[trigger] key(filt(s, place, d)[j]),
    decreases s.len(),
{
    if s.len() > 0 {
        assert forall|i: int, j: int|
            0 <= i < j < s.drop_first().len() implies #[trigger] key(s.drop_first()[i])
            <= #[trigger] key(s.drop_first()[j]) by {
            assert(s.drop_first()[i] == s[i + 1]);
            assert(s.drop_first()[j] == s[j + 1]);
        }
        lemma_filt_keeps_pairwise(s.drop_first(), place, d, key);
        lemma_filt_source(s.drop_first(), place, d);
        let f = filt(s, place, d);
        let rest = filt(s.drop_first(), place, d);
        assert forall|i: int, j: int| 0 <= i < j < f.len() implies #[trigger] key(f[i])
            <= #[trigger] key(f[j]) by {
            if cdigit(s[0], place) == d {
                assert(f == seq![s[0]] + rest);
                if i == 0 {
                    assert(f[j] == rest[j - 1]);
                    let w = choose|w: int|
                        0 <= w < s.drop_first().len() && s.drop_first()[w] == rest[j - 1];
                    assert(s[w + 1] == f[j]);
                    assert(key(s[0]) <= key(s[w + 1]));
                } else {
                    assert(f[i] == rest[i - 1]);
                    assert(f[j] == rest[j - 1]);
                }
            } else {
                assert(f == rest);
            }
        }
    }
}

/// Every element of the first `d + 1` classes carries a digit of at most
/// `d` and comes from the source sequence.
pub(crate) proof fn lemma_piles_members<T: RadixSortable>(s: Seq<T>, place: int, d: int)
    ensures
        forall|i: int|
            0 <= i < piles(s, place, d).len() ==> cdigit(#[trigger] piles(s, place, d)[i], place)
                <= d && exists|w: int| 0 <= w < s.len() && s[w] == piles(s, place, d)[i],
    decreases d + 1,
{
    if d >= 0 {
        lemma_piles_members(s, place, d - 1);
        lemma_filt_members(s, place, d);
        lemma_filt_source(s, place, d);
        let p = piles(s, place, d);
        let q = piles(s, place, d - 1);
        let f = filt(s, place, d);
        assert forall|i: int| 0 <= i < p.len() implies cdigit(#[trigger] p[i], place) <= d
            && exists|w: int| 0 <= w < s.len() && s[w] == p[i] by {
            if i < q.len() {
                assert(p[i] == q[i]);
            } else {
                assert(p[i] == f[i - q.len()]);
            }
        }
    }
}

proof fn lemma_filt_len_le<T: RadixSortable>(s: Seq<T>, place: int, d: int)
    ensures
        filt(s, place, d).len() <= s.len(),
    decreases s.len(),
{
    if s.len() > 0 {
        lemma_filt_len_le(s.drop_first(), place, d);
    }
}

proof fn lemma_filt_push<T: RadixSortable>(s: Seq<T>, x: T, place: int, d: int)
    ensures
        cdigit(x, place) == d ==> filt(s.push(x), place, d) == filt(s, place, d).push(x),
        cdigit(x, place) != d ==> filt(s.push(x), place, d) == filt(s, place, d),
    decreases s.len(),
{
    if s.len() == 0 {
        assert(s.push(x).len() == 1);
        assert(s.push(x)[0] == x);
        assert(s.push(x).drop_first() =~= Seq::<T>::empty());
        assert(filt(Seq::<T>::empty(), place, d) =~= Seq::<T>::empty());
        assert(filt(s.push(x).drop_first(), place, d) =~= Seq::<T>::empty());
        if cdigit(x, place) == d {
            assert(filt(s.push(x), place, d) =~= seq![x] + Seq::<T>::empty());
            assert(filt(s.push(x), place, d) =~= filt(s, place, d).push(x));
        } else {
            assert(filt(s.push(x), place, d) =~= filt(s, place, d));
        }
    } else {
        assert(s.push(x).drop_first() =~= s.drop_first().push(x));
        lemma_filt_push(s.drop_first(), x, place, d);
        if cdigit(x, place) == d {
            assert(filt(s.push(x), place, d) =~= filt(s, place, d).push(x));
        }
    }
}

proof fn lemma_filt_cons<T: RadixSortable>(s: Seq<T>, x: T, place: int, d: int)
    ensures
        cdigit(x, place) == d ==> filt(seq![x] + s, place, d) == seq![x] + filt(s, place, d),
        cdigit(x, place) != d ==> filt(seq![x] + s, place, d) == filt(s, place, d),
{
    let c = seq![x] + s;
    assert(c[0] == x);
    assert(c.drop_first() =~= s);
}

proof fn lemma_filt_concat<T: RadixSortable>(a: Seq<T>, b: Seq<T>, place: int, d: int)
    ensures
        filt(a + b, place, d) == filt(a, place, d) + filt(b, place, d),
    decreases a.len(),
{
    if a.len() == 0 {
        assert(a + b =~= b);
        assert(filt(a, place, d) =~= Seq::<T>::empty());
        assert(filt(a, place, d) + filt(b, place, d) =~= filt(b, place, d));
    } else {
        assert(a + b =~= seq![a[0]] + (a.drop_first() + b));
        lemma_filt_concat(a.drop_first(), b, place, d);
        lemma_filt_cons(a.drop_first() + b, a[0], place, d);
        assert(a =~= seq![a[0]] + a.drop_first());
        lemma_filt_cons(a.drop_first(), a[0], place, d);
        if cdigit(a[0], place) == d {
            assert(filt(a + b, place, d) =~= filt(a, place, d) + filt(b, place, d));
        }
    }
}

pub(crate) proof fn lemma_filt_members<T: RadixSortable>(s: Seq<T>, place: int, d: int)
    ensures
        forall|i: int| 0 <= i < filt(s, place, d).len() ==> cdigit(
            #[trigger] filt(s, place, d)[i],
            place,
        ) == d,
    decreases s.len(),
{
    if s.len() > 0 {
        lemma_filt_members(s.drop_first(), place, d);
        let f = filt(s, place, d);
        let rest = filt(s.drop_first(), place, d);
        assert forall|i: int| 0 <= i < f.len() implies cdigit(#[trigger] f[i], place) == d by {
            if cdigit(s[0], place) == d {
                assert(f == seq![s[0]] + rest);
                if i == 0 {
                    assert(f[i] == s[0]);
                } else {
                    assert(f[i] == rest[i - 1]);
                }
            } else {
                assert(f == rest);
            }
        }
    }
}

proof fn lemma_cnt_le_nonneg<T: RadixSortable>(s: Seq<T>, place: int, d: int)
    ensures
        forall|dd: int| dd <= d ==> #[trigger] cnt_le(s, place, dd) >= 0,
        forall|dd: int, ee: int|
            dd <= ee <= d ==> #[trigger] cnt_le(s, place, dd) <= #[trigger] cnt_le(s, place, ee),
    decreases d + 2,
{
    if d < 0 {
        assert forall|dd: int| dd <= d implies #[trigger] cnt_le(s, place, dd) >= 0 by {
            assert(cnt_le(s, place, dd) == 0);
        }
        assert forall|dd: int, ee: int| dd <= ee <= d implies #[trigger] cnt_le(s, place, dd)
            <= #[trigger] cnt_le(s, place, ee) by {
            assert(cnt_le(s, place, dd) == 0);
            assert(cnt_le(s, place, ee) == 0);
        }
    } else {
        lemma_cnt_le_nonneg(s, place, d - 1);
        assert(cnt_le(s, place, d) == cnt_le(s, place, d - 1) + filt(s, place, d).len());
        assert forall|dd: int, ee: int| dd <= ee <= d implies #[trigger] cnt_le(s, place, dd)
            <= #[trigger] cnt_le(s, place, ee) by {
            if ee == d && dd < d {
                assert(cnt_le(s, place, dd) <= cnt_le(s, place, d - 1));
            }
        }
    }
}

proof fn lemma_cnt_le_cons<T: RadixSortable>(s: Seq<T>, x: T, place: int, d: int)
    ensures
        cdigit(x, place) <= d ==> cnt_le(seq![x] + s, place, d) == cnt_le(s, place, d) + 1,
        cdigit(x, place) > d ==> cnt_le(seq![x] + s, place, d) == cnt_le(s, place, d),
    decreases d + 1,
{
    if d >= 0 {
        lemma_cnt_le_cons(s, x, place, d - 1);
        lemma_filt_cons(s, x, place, d);
    }
}

proof fn lemma_cnt_le_total<T: RadixSortable>(s: Seq<T>, place: int)
    ensures
        cnt_le(s, place, 9) == s.len(),
    decreases s.len(),
{
    if s.len() == 0 {
        assert(s =~= Seq::<T>::empty());
        lemma_cnt_le_empty::<T>(place, 9);
    } else {
        lemma_cnt_le_total(s.drop_first(), place);
        assert(s =~= seq![s[0]] + s.drop_first());
        lemma_cnt_le_cons(s.drop_first(), s[0], place, 9);
        assert(cdigit(s[0], place) <= 9);
    }
}

proof fn lemma_cnt_le_empty<T: RadixSortable>(place: int, d: int)
    ensures
        cnt_le(Seq::<T>::empty(), place, d) == 0,
    decreases d + 1,
{
    if d >= 0 {
        lemma_cnt_le_empty::<T>(place, d - 1);
        assert(filt(Seq::<T>::empty(), place, d) =~= Seq::<T>::empty());
    }
}

proof fn lemma_singleton_ms<T>(x: T)
    ensures
        seq![x].to_multiset() == Multiset::<T>::empty().insert(x),
{
    broadcast use vstd::seq_lib::group_to_multiset_ensures;
    broadcast use vstd::multiset::group_multiset_axioms;

    assert(Seq::<T>::empty().push(x) =~= seq![x]);
    assert forall|y: T| #[trigger] Seq::<T>::empty().to_multiset().count(y) == 0 by {
        vstd::seq_lib::to_multiset_contains(Seq::<T>::empty(), y);
    }
    assert(Seq::<T>::empty().to_multiset() =~= Multiset::<T>::empty());
    assert(seq![x].to_multiset() =~= Multiset::<T>::empty().insert(x));
}

proof fn lemma_piles_cons_ms<T: RadixSortable>(s: Seq<T>, x: T, place: int, d: int)
    ensures
        cdigit(x, place) <= d ==> piles(seq![x] + s, place, d).to_multiset() == piles(
            s,
            place,
            d,
        ).to_multiset().insert(x),
        cdigit(x, place) > d ==> piles(seq![x] + s, place, d).to_multiset() == piles(
            s,
            place,
            d,
        ).to_multiset(),
    decreases d + 1,
{
    broadcast use vstd::multiset::group_multiset_axioms;

    if d >= 0 {
        lemma_piles_cons_ms(s, x, place, d - 1);
        lemma_filt_cons(s, x, place, d);
        vstd::seq_lib::lemma_multiset_commutative(piles(seq![x] + s, place, d - 1), filt(seq![x] + s, place, d));
        vstd::seq_lib::lemma_multiset_commutative(piles(s, place, d - 1), filt(s, place, d));
        if cdigit(x, place) == d {
            vstd::seq_lib::lemma_multiset_commutative(seq![x], filt(s, place, d));
            lemma_singleton_ms(x);
            assert(piles(seq![x] + s, place, d).to_multiset() =~= piles(s, place, d).to_multiset().insert(x));
        } else if cdigit(x, place) < d {
            assert(piles(seq![x] + s, place, d).to_multiset() =~= piles(s, place, d).to_multiset().insert(x));
        } else {
            assert(piles(seq![x] + s, place, d).to_multiset() =~= piles(s, place, d).to_multiset());
        }
    }
}

pub(crate) proof fn lemma_filt_partition<T: RadixSortable>(s: Seq<T>, place: int)
    ensures
        piles(s, place, 9).to_multiset() == s.to_multiset(),
    decreases s.len(),
{
    broadcast use vstd::seq_lib::group_to_multiset_ensures;
    broadcast use vstd::multiset::group_multiset_axioms;

    if s.len() == 0 {
        assert(s =~= Seq::<T>::empty());
        lemma_piles_empty::<T>(place, 9);
    } else {
        lemma_filt_partition(s.drop_first(), place);
        assert(s =~= seq![s[0]] + s.drop_first());
        lemma_piles_cons_ms(s.drop_first(), s[0], place, 9);
        assert(cdigit(s[0], place) <= 9);
        vstd::seq_lib::lemma_multiset_commutative(seq![s[0]], s.drop_first());
        lemma_singleton_ms(s[0]);
        assert(s.to_multiset() =~= s.drop_first().to_multiset().insert(s[0]));
    }
}

proof fn lemma_piles_empty<T: RadixSortable>(place: int, d: int)
    ensures
        piles(Seq::<T>::empty(), place, d) == Seq::<T>::empty(),
    decreases d + 1,
{
    if d >= 0 {
        lemma_piles_empty::<T>(place, d - 1);
        assert(filt(Seq::<T>::empty(), place, d) =~= Seq::<T>::empty());
        assert(piles(Seq::<T>::empty(), place, d) =~= Seq::<T>::empty());
    } else {
        assert(piles(Seq::<T>::empty(), place, d) =~= Seq::<T>::empty());
    }
}

proof fn lemma_piles_len<T: RadixSortable>(s: Seq<T>, place: int, d: int)
    ensures
        piles(s, place, d).len() == cnt_le(s, place, d),
    decreases d + 1,
{
    if d >= 0 {
        lemma_piles_len(s, place, d - 1);
    }
}


/// The adapter digit clamped into the ten counting bins, executably.
fn clamped_digit<T: RadixSortable>(x: &T, place: usize) -> (d: usize)
    ensures
        d as int == cdigit(*x, place as int),
        d <= 9,
{
    let d = x.get_digit(place);
    if d > 9 {
        9
    } else {
        d
    }
}

/// Builds the frequency table: how many elements carry each clamped digit.
fn build_counts<T: Copy + RadixSortable>(data: &Vec<T>, place: usize) -> (count: Vec<usize>)
    ensures
        count@.len() == 10,
        forall|d: int|
            0 <= d < 10 ==> #[trigger] count@[d] as int == filt(data@, place as int, d).len(),
{
    let ghost orig = data@;
    let ghost pl = place as int;
    let n = data.len();

    let mut count: Vec<usize> = Vec::new();
    let mut z: usize = 0;
    while z < 10
        invariant
            count@.len() == z,
            z <= 10,
            forall|d: int| 0 <= d < z ==> #[trigger] count@[d] == 0,
        decreases 10 - z,
    {
        count.push(0);
        z = z + 1;
    }

    proof {
        assert(orig.subrange(0, 0) =~= Seq::<T>::empty());
        assert forall|d: int| 0 <= d < 10 implies #[trigger] filt(
            orig.subrange(0, 0),
            pl,
            d,
        ).len() == 0 by {
            assert(filt(Seq::<T>::empty(), pl, d) =~= Seq::<T>::empty());
        }
    }

    let mut t: usize = 0;
    while t < n
        invariant
            t <= n,
            n == data@.len(),
            data@ == orig,
            pl == place as int,
            count@.len() == 10,
            forall|d: int|
                0 <= d < 10 ==> #[trigger] count@[d] as int == filt(
                    orig.subrange(0, t as int),
                    pl,
                    d,
                ).len(),
        decreases n - t,
    {
        let x = data[t];
        let dg = clamped_digit(&x, place);
        proof {
            lemma_filt_len_le(orig.subrange(0, t as int), pl, dg as int);
        }
        let cur = count[dg];
        count.set(dg, cur + 1);
        proof {
            assert(orig.subrange(0, t + 1) =~= orig.subrange(0, t as int).push(orig[t as int]));
            assert forall|d: int| 0 <= d < 10 implies #[trigger] count@[d] as int == filt(
                orig.subrange(0, t + 1),
                pl,
                d,
            ).len() by {
                lemma_filt_push(orig.subrange(0, t as int), orig[t as int], pl, d);
                assert(cdigit(orig[t as int], pl) == dg as int);
            }
        }
        t = t + 1;
    }
    proof {
        assert(orig.subrange(0, n as int) =~= orig);
    }
    count
}

/// Turns the frequency table into running totals: after this, entry `d`
/// holds the number of elements whose clamped digit is at most `d`.
fn accumulate<T: Copy + RadixSortable>(count: &mut Vec<usize>, data: &Vec<T>, place: usize)
    requires
        old(count)@.len() == 10,
        forall|d: int|
            0 <= d < 10 ==> #[trigger] old(count)@[d] as int == filt(
                data@,
                place as int,
                d,
            ).len(),
    ensures
        final(count)@.len() == 10,
        forall|d: int|
            0 <= d < 10 ==> #[trigger] final(count)@[d] as int == cnt_le(data@, place as int, d),
{
    let ghost orig = data@;
    let ghost pl = place as int;
    let n = data.len();
    proof {
        assert(cnt_le(orig, pl, -1) == 0);
        assert(cnt_le(orig, pl, 0) == filt(orig, pl, 0).len());
    }
    let mut dc: usize = 1;
    while dc < 10
        invariant
            1 <= dc <= 10,
            orig == data@,
            pl == place as int,
            n == data@.len(),
            count@.len() == 10,
            forall|d: int| 0 <= d < dc ==> #[trigger] count@[d] as int == cnt_le(orig, pl, d),
            forall|d: int| dc <= d < 10 ==> #[trigger] count@[d] as int == filt(orig, pl, d).len(),
        decreases 10 - dc,
    {
        let lower = count[dc - 1];
        let here = count[dc];
        proof {
            lemma_cnt_le_total(orig, pl);
            lemma_cnt_le_nonneg(orig, pl, 9);
            assert(here as int + lower as int == cnt_le(orig, pl, dc as int));
            assert(cnt_le(orig, pl, dc as int) <= cnt_le(orig, pl, 9));
            assert(cnt_le(orig, pl, 9) == n as int);
        }
        count.set(dc, here + lower);
        dc = dc + 1;
    }
}

/// Fills the scratch buffer by walking the sequence in reverse and dropping
/// each element at the next free slot for its digit; the reverse walk keeps
/// elements of equal digit in their previous relative order.
#[verifier::rlimit(50)]
fn place_pass<T: Copy + RadixSortable>(data: &Vec<T>, count: &mut Vec<usize>, place: usize) -> (temp:
    Vec<T>)
    requires
        data@.len() >= 1,
        old(count)@.len() == 10,
        forall|d: int|
            0 <= d < 10 ==> #[trigger] old(count)@[d] as int == cnt_le(data@, place as int, d),
    ensures
        temp@.len() == data@.len(),
        temp@ == piles(data@, place as int, 9),
{
    let ghost orig = data@;
    let ghost pl = place as int;
    let n = data.len();

    let x0 = data[0];
    let mut temp: Vec<T> = Vec::new();
    while temp.len() < n
        invariant
            temp@.len() <= n,
        decreases n - temp@.len(),
    {
        temp.push(x0);
    }

    proof {
        lemma_cnt_le_nonneg(orig, pl, 9);
        lemma_cnt_le_total(orig, pl);
        assert(orig.subrange(n as int, n as int) =~= Seq::<T>::empty());
        assert forall|d: int| 0 <= d < 10 implies temp@.subrange(
            #[trigger] count@[d] as int,
            cnt_le(orig, pl, d),
        ) =~= filt(orig.subrange(n as int, n as int), pl, d) by {
            assert(filt(Seq::<T>::empty(), pl, d) =~= Seq::<T>::empty());
        }
    }

    let mut k: usize = n;
    while k > 0
        invariant
            0 <= k <= n,
            n == data@.len(),
            data@ == orig,
            pl == place as int,
            temp@.len() == n,
            count@.len() == 10,
            cnt_le(orig, pl, 9) == n,
            forall|d: int|
                0 <= d < 10 ==> #[trigger] count@[d] as int == cnt_le(orig, pl, d) - filt(
                    orig.subrange(k as int, n as int),
                    pl,
                    d,
                ).len(),
            forall|d: int|
                0 <= d < 10 ==> temp@.subrange(#[trigger] count@[d] as int, cnt_le(orig, pl, d))
                    == filt(orig.subrange(k as int, n as int), pl, d),
        decreases k,
    {
        k = k - 1;
        let x = data[k];
        let dg = clamped_digit(&x, place);
        let ghost dgi = dg as int;
        let ghost s_old = orig.subrange(k + 1, n as int);
        let ghost s_new = orig.subrange(k as int, n as int);
        proof {
            lemma_cnt_le_nonneg(orig, pl, 9);
            assert(s_new =~= seq![orig[k as int]] + s_old);
            assert(cdigit(orig[k as int], pl) == dgi);
            assert forall|d: int| 0 <= d < 10 implies (if d == dgi {
                #[trigger] filt(s_new, pl, d) == seq![x] + filt(s_old, pl, d)
            } else {
                filt(s_new, pl, d) == filt(s_old, pl, d)
            }) by {
                lemma_filt_cons(s_old, orig[k as int], pl, d);
            }
            assert forall|d: int| 0 <= d < 10 implies #[trigger] filt(s_new, pl, d).len() <= filt(
                orig,
                pl,
                d,
            ).len() by {
                assert(orig =~= orig.subrange(0, k as int) + s_new);
                lemma_filt_concat(orig.subrange(0, k as int), s_new, pl, d);
            }
            assert(cnt_le(orig, pl, dgi) == cnt_le(orig, pl, dgi - 1) + filt(orig, pl, dgi).len());
            assert(filt(s_new, pl, dgi) == seq![x] + filt(s_old, pl, dgi));
            assert(filt(s_new, pl, dgi).len() == filt(s_old, pl, dgi).len() + 1);
            assert(filt(s_new, pl, dgi).len() <= filt(orig, pl, dgi).len());
            assert(count@[dgi] as int == cnt_le(orig, pl, dgi) - filt(s_old, pl, dgi).len());
            assert(count@[dgi] as int >= cnt_le(orig, pl, dgi - 1) + 1);
        }
        let c = count[dg];
        count.set(dg, c - 1);
        temp.set(c - 1, x);
        proof {
            assert forall|d: int| 0 <= d < 10 implies #[trigger] count@[d] as int == cnt_le(
                orig,
                pl,
                d,
            ) - filt(s_new, pl, d).len() by {}
            assert forall|d: int| 0 <= d < 10 implies temp@.subrange(
                #[trigger] count@[d] as int,
                cnt_le(orig, pl, d),
            ) == filt(s_new, pl, d) by {
                let lo = count@[d] as int;
                let hi = cnt_le(orig, pl, d);
                if d == dgi {
                    assert(temp@.subrange(lo, hi) =~= seq![x] + filt(s_old, pl, d)) by {
                        assert forall|j: int| lo <= j < hi implies temp@[j] == (seq![x] + filt(
                            s_old,
                            pl,
                            d,
                        ))[j - lo] by {
                            if j > lo {
                                assert(temp@[j] == filt(s_old, pl, d)[j - lo - 1]);
                            }
                        }
                    }
                } else if d < dgi {
                    assert(hi <= cnt_le(orig, pl, dgi - 1));
                    assert(cnt_le(orig, pl, dgi - 1) <= c - 1);
                    assert(temp@.subrange(lo, hi) =~= filt(s_old, pl, d));
                } else {
                    assert(cnt_le(orig, pl, dgi) <= cnt_le(orig, pl, d - 1));
                    assert(c <= cnt_le(orig, pl, dgi));
                    assert(temp@.subrange(lo, hi) =~= filt(s_old, pl, d));
                }
            }
        }
    }

    proof {
        lemma_cnt_le_nonneg(orig, pl, 9);
        lemma_cnt_le_total(orig, pl);
        assert(orig.subrange(0, n as int) =~= orig);
        assert forall|d: int| 0 <= d < 10 implies temp@.subrange(
            cnt_le(orig, pl, d - 1),
            #[trigger] cnt_le(orig, pl, d),
        ) == filt(orig, pl, d) by {
            assert(count@[d] as int == cnt_le(orig, pl, d) - filt(orig, pl, d).len());
            assert(cnt_le(orig, pl, d) == cnt_le(orig, pl, d - 1) + filt(orig, pl, d).len());
            assert(temp@.subrange(count@[d] as int, cnt_le(orig, pl, d)) == filt(orig, pl, d));
        }
        lemma_assemble(temp@, orig, pl, 9);
        assert(temp@.subrange(0, cnt_le(orig, pl, 9)) =~= temp@);
    }
    temp
}

/// One stable counting-sort pass over the clamped digit at `place`:
/// frequency table, prefix sums, reverse placement into a scratch buffer,
/// copy back.
fn counting_pass<T: Copy + RadixSortable>(data: &mut Vec<T>, place: usize)
    requires
        old(data)@.len() >= 1,
    ensures
        final(data)@.to_multiset() == old(data)@.to_multiset(),
        final(data)@.len() == old(data)@.len(),
        final(data)@ == piles(old(data)@, place as int, 9),
        digit_ordered(final(data)@, place as int),
{
    let ghost orig = data@;
    let ghost pl = place as int;
    let n = data.len();

    let mut count = build_counts(data, place);
    accumulate(&mut count, data, place);
    let temp = place_pass(data, &mut count, place);

    proof {
        lemma_filt_partition(orig, pl);
        lemma_piles_ordered(orig, pl);
    }

    let mut i: usize = 0;
    while i < n
        invariant
            i <= n,
            n == data@.len(),
            temp@.len() == n,
            data@.subrange(0, i as int) == temp@.subrange(0, i as int),
            temp@ == piles(orig, pl, 9),
            temp@.to_multiset() == orig.to_multiset(),
            digit_ordered(temp@, pl),
        decreases n - i,
    {
        let v = temp[i];
        data.set(i, v);
        proof {
            assert(data@.subrange(0, i + 1) =~= temp@.subrange(0, i + 1));
        }
        i = i + 1;
    }
    proof {
        assert(data@.subrange(0, n as int) =~= data@);
        assert(temp@.subrange(0, n as int) =~= temp@);
        assert(data@ == temp@);
    }
}

/// The concatenated digit classes are ordered by their clamped digit.
proof fn lemma_piles_ordered<T: RadixSortable>(s: Seq<T>, place: int)
    ensures
        digit_ordered(piles(s, place, 9), place),
{
    lemma_cnt_le_nonneg(s, place, 9);
    lemma_cnt_le_total(s, place);
    lemma_piles_len(s, place, 9);
    let tmp = piles(s, place, 9);
    assert forall|d: int| 0 <= d < 10 implies tmp.subrange(
        cnt_le(s, place, d - 1),
        #[trigger] cnt_le(s, place, d),
    ) == filt(s, place, d) by {
        lemma_piles_region(s, place, d);
    }
    assert forall|p: int, q: int| 0 <= p < q < tmp.len() implies cdigit(#[trigger] tmp[p], place)
        <= cdigit(#[trigger] tmp[q], place) by {
        lemma_region_find(s, place, p, 0);
        lemma_region_find(s, place, q, 0);
        let dp = choose|dd: int|
            0 <= dd <= 9 && cnt_le(s, place, dd - 1) <= p < #[trigger] cnt_le(s, place, dd);
        let dq = choose|dd: int|
            0 <= dd <= 9 && cnt_le(s, place, dd - 1) <= q < #[trigger] cnt_le(s, place, dd);
        assert(tmp[p] == filt(s, place, dp)[p - cnt_le(s, place, dp - 1)]) by {
            assert(tmp.subrange(cnt_le(s, place, dp - 1), cnt_le(s, place, dp)) == filt(
                s,
                place,
                dp,
            ));
        }
        assert(tmp[q] == filt(s, place, dq)[q - cnt_le(s, place, dq - 1)]) by {
            assert(tmp.subrange(cnt_le(s, place, dq - 1), cnt_le(s, place, dq)) == filt(
                s,
                place,
                dq,
            ));
        }
        lemma_filt_members(s, place, dp);
        lemma_filt_members(s, place, dq);
        assert(cdigit(tmp[p], place) == dp);
        assert(cdigit(tmp[q], place) == dq);
        if dq < dp {
            assert(cnt_le(s, place, dq) <= cnt_le(s, place, dp - 1));
            assert(false);
        }
    }
}

/// Inside the concatenated classes, the stretch for digit `d` is its class.
proof fn lemma_piles_region<T: RadixSortable>(s: Seq<T>, place: int, d: int)
    requires
        0 <= d <= 9,
    ensures
        piles(s, place, 9).subrange(cnt_le(s, place, d - 1), cnt_le(s, place, d)) == filt(
            s,
            place,
            d,
        ),
    decreases 9 - d,
{
    lemma_cnt_le_nonneg(s, place, 9);
    lemma_piles_len(s, place, 9);
    lemma_piles_len(s, place, d);
    lemma_piles_len(s, place, d - 1);
    lemma_piles_prefix(s, place, d, 9);
    let whole = piles(s, place, 9);
    let upto_d = piles(s, place, d);
    assert(upto_d == piles(s, place, d - 1) + filt(s, place, d));
    assert(whole.subrange(0, cnt_le(s, place, d)) == upto_d);
    assert(whole.subrange(cnt_le(s, place, d - 1), cnt_le(s, place, d)) =~= filt(s, place, d))
        by {
        assert forall|j: int| 0 <= j < filt(s, place, d).len() implies whole.subrange(
            cnt_le(s, place, d - 1),
            cnt_le(s, place, d),
        )[j] == filt(s, place, d)[j] by {
            assert(whole[cnt_le(s, place, d - 1) + j] == upto_d[cnt_le(s, place, d - 1) + j]);
            assert(upto_d[cnt_le(s, place, d - 1) + j] == filt(s, place, d)[j]);
        }
    }
}

/// A shorter run of classes is a prefix of a longer one.
proof fn lemma_piles_prefix<T: RadixSortable>(s: Seq<T>, place: int, d: int, e: int)
    requires
        -1 <= d <= e <= 9,
    ensures
        piles(s, place, e).subrange(0, cnt_le(s, place, d)) == piles(s, place, d),
    decreases e - d,
{
    lemma_cnt_le_nonneg(s, place, 9);
    lemma_piles_len(s, place, e);
    lemma_piles_len(s, place, d);
    if d == e {
        assert(piles(s, place, e).subrange(0, cnt_le(s, place, d)) =~= piles(s, place, d));
    } else {
        lemma_piles_prefix(s, place, d, e - 1);
        lemma_piles_len(s, place, e - 1);
        assert(piles(s, place, e) == piles(s, place, e - 1) + filt(s, place, e));
        assert(piles(s, place, e).subrange(0, cnt_le(s, place, e - 1)) =~= piles(
            s,
            place,
            e - 1,
        ));
        assert(piles(s, place, e).subrange(0, cnt_le(s, place, d)) =~= piles(
            s,
            place,
            e - 1,
        ).subrange(0, cnt_le(s, place, d)));
    }
}

proof fn lemma_assemble<T: RadixSortable>(tmp: Seq<T>, s: Seq<T>, place: int, d: int)
    requires
        -1 <= d <= 9,
        tmp.len() == s.len(),
        cnt_le(s, place, 9) == s.len(),
        forall|dd: int|
            0 <= dd < 10 ==> tmp.subrange(cnt_le(s, place, dd - 1), cnt_le(s, place, dd)) == filt(
                s,
                place,
                dd,
            ),
    ensures
        tmp.subrange(0, cnt_le(s, place, d)) == piles(s, place, d),
    decreases d + 2,
{
    lemma_cnt_le_nonneg(s, place, 9);
    if d < 0 {
        assert(tmp.subrange(0, 0) =~= Seq::<T>::empty());
        assert(piles(s, place, d) =~= Seq::<T>::empty());
    } else {
        lemma_assemble(tmp, s, place, d - 1);
        assert(tmp.subrange(0, cnt_le(s, place, d)) =~= tmp.subrange(0, cnt_le(s, place, d - 1))
            + tmp.subrange(cnt_le(s, place, d - 1), cnt_le(s, place, d)));
    }
}

proof fn lemma_region_find<T: RadixSortable>(s: Seq<T>, place: int, p: int, d: int)
    requires
        0 <= d <= 9,
        cnt_le(s, place, d - 1) <= p < s.len(),
        cnt_le(s, place, 9) == s.len(),
    ensures
        exists|dd: int|
            0 <= dd <= 9 && cnt_le(s, place, dd - 1) <= p < #[trigger] cnt_le(s, place, dd),
    decreases 9 - d,
{
    if p < cnt_le(s, place, d) {
        assert(cnt_le(s, place, d - 1) <= p < cnt_le(s, place, d));
    } else {
        assert(d < 9);
        lemma_region_find(s, place, p, d + 1);
    }
}

/// Run statistics: comparisons and element moves of one sort call.
struct SortStats {
    comparisons: usize,
    moves: usize,
}

impl SortStats {
    fn zeroed() -> (s: Self)
        ensures
            s.comparisons == 0,
            s.moves == 0,
    {
        SortStats { comparisons: 0, moves: 0 }
    }
}

/// LSD radix sort engine with run statistics: stable counting passes over
/// decimal digit places, least significant first, plus a final comparison
/// pass for the signed-integer adapter.
pub struct RadixSort {
    stats: SortStats,
}

impl RadixSort {
    /// Comparison counter accumulated by the most recent sort call.
    pub closed spec fn spec_comparisons(self) -> usize {
        self.stats.comparisons
    }

    /// Move counter accumulated by the most recent sort call.
    pub closed spec fn spec_moves(self) -> usize {
        self.stats.moves
    }

    pub fn new() -> (s: Self)
        ensures
            s.spec_comparisons() == 0,
            s.spec_moves() == 0,
    {
        RadixSort { stats: SortStats::zeroed() }
    }

    pub fn get_stats(&self) -> (r: (usize, usize))
        ensures
            r == (self.spec_comparisons(), self.spec_moves()),
    {
        (self.stats.comparisons, self.stats.moves)
    }

    pub fn reset_stats(&mut self)
        ensures
            final(self).spec_comparisons() == 0,
            final(self).spec_moves() == 0,
    {
        self.stats = SortStats::zeroed();
    }

    /// Sort `data` in place by stable counting passes over its decimal
    /// digits, least significant place first.
    ///
    /// The result is always a permutation of the input. For the type whose
    /// adapter asks for it (signed integers, whose magnitude digits ignore
    /// the sign), a full comparison sort runs after the digit passes, so the
    /// result is fully sorted. For the other types the result is exactly
    /// the sequence of digit-class passes, ordered by the clamped digit at
    /// the highest place examined; whether that equals the natural order
    /// depends on the adapter. Both counters restart from zero on every
    /// call and stay within `len * (len + 1)` comparisons and
    /// `2 * len * max_digits` moves.
    pub fn sort<T: Copy + RadixSortable>(&mut self, data: &mut Vec<T>)
        ensures
            final(data)@.to_multiset() == old(data)@.to_multiset(),
            final(data)@.len() == old(data)@.len(),
            old(data)@.len() == 0 ==> final(data)@ == old(data)@
                && final(self).spec_comparisons() == 0 && final(self).spec_moves() == 0,
            old(data)@.len() == 1 ==> final(data)@ == old(data)@,
            T::needs_correction() ==> sorted(final(data)@),
            old(data)@.len() >= 1 && !T::needs_correction() ==> final(data)@ == radix_passes(
                old(data)@,
                seq_max_digits(old(data)@),
            ),
            old(data)@.len() >= 1 && !T::needs_correction() && seq_max_digits(old(data)@) >= 1
                ==> digit_ordered(final(data)@, seq_max_digits(old(data)@) - 1),
            old(data)@.len() >= 1 ==> final(self).spec_comparisons() >= old(data)@.len(),
            old(data)@.len() >= 1 && !T::needs_correction() ==> final(self).spec_comparisons()
                == old(data)@.len(),
            final(self).spec_comparisons() as int <= old(data)@.len() * (old(data)@.len() + 1),
            final(self).spec_moves() as int <= 2 * old(data)@.len() * seq_max_digits(old(data)@),
            old(data)@.len() >= 1 ==> final(self).spec_moves() >= 1,
            old(data)@.len() >= 1 && 2 * old(data)@.len() * seq_max_digits(old(data)@)
                <= usize::MAX ==> final(self).spec_moves() == 2 * old(data)@.len()
                * seq_max_digits(old(data)@),
    {
        // Counters reset on every call, before anything else can return.
        self.reset_stats();

        let n = data.len();
        if n == 0 {
            return ;
        }
        proof {
            vstd::arithmetic::mul::lemma_mul_nonnegative(n as int, n as int);
            assert((n as int) * ((n as int) + 1) == (n as int) * (n as int) + n) by (nonlinear_arith);
        }

        let ghost orig = data@;

        // Greatest digit-place count over all elements; examining each
        // element counts as one comparison.
        let mut max_digits_all: usize = 0;
        let mut t: usize = 0;
        while t < n
            invariant
                t <= n,
                n == data@.len(),
                data@ == orig,
                self.stats.comparisons == t,
                self.stats.moves == 0,
                max_digits_all as int == seq_max_digits(orig.subrange(0, t as int)),
                t >= 1 ==> max_digits_all >= 1,
            decreases n - t,
        {
            self.stats.comparisons = self.stats.comparisons + 1;
            let md = data[t].max_digits();
            proof {
                assert(orig.subrange(0, t + 1).drop_last() =~= orig.subrange(0, t as int));
                assert(orig.subrange(0, t + 1).last() == orig[t as int]);
            }
            if md > max_digits_all {
                max_digits_all = md;
            }
            t = t + 1;
        }
        proof {
            assert(orig.subrange(0, n as int) =~= orig);
        }
        let ghost maxd = seq_max_digits(orig);

        // One stable counting pass per digit place.
        let mut place: usize = 0;
        while place < max_digits_all
            invariant
                place <= max_digits_all,
                max_digits_all as int == maxd,
                n >= 1,
                n == data@.len(),
                data@.to_multiset() == orig.to_multiset(),
                data@ == radix_passes(orig, place as int),
                self.stats.comparisons == n,
                2 * n * maxd <= usize::MAX ==> self.stats.moves == 2 * n * place,
                self.stats.moves as int <= 2 * n * place,
                place >= 1 ==> self.stats.moves >= 1,
                place >= 1 ==> digit_ordered(data@, place - 1),
            decreases max_digits_all - place,
        {
            counting_pass(data, place);
            self.stats.moves = self.stats.moves.saturating_add(n).saturating_add(n);
            proof {
                assert(2 * n * (place + 1) == 2 * n * place + 2 * n) by (nonlinear_arith);
                if 2 * n * maxd <= usize::MAX {
                    assert(2 * n * (place + 1) <= 2 * n * maxd) by (nonlinear_arith)
                        requires
                            place + 1 <= maxd,
                            n >= 0,
                    ;
                }
            }
            place = place + 1;
        }

        // Magnitude digits ignore the sign: restore full order for the
        // signed-integer adapter with a comparison sort.
        if T::wants_sign_correction() {
            self.stats.comparisons = insertion_sort(data, self.stats.comparisons);
        }

        proof {
            assert(self.stats.comparisons as int <= n + (n as int) * (n as int));
            assert((n as int) * ((n as int) + 1) == (n as int) * (n as int) + n)
                by (nonlinear_arith);
            assert(2 * (n as int) * maxd <= 2 * (n as int) * maxd);
            assert(2 * n * (max_digits_all as int) <= 2 * n * maxd);
            if n == 1 {
                broadcast use vstd::seq_lib::group_to_multiset_ensures;

                vstd::seq_lib::to_multiset_contains(orig, orig[0]);
                vstd::seq_lib::to_multiset_contains(data@, orig[0]);
                assert(data@.contains(orig[0]));
                assert(data@[0] == orig[0]);
                assert(data@ =~= orig);
            }
        }
    }
}

} // verus!
