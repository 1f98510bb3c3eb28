use vstd::prelude::*;
use vstd::multiset::Multiset;
use crate::order::Sortable;
use crate::order::sorted;
use crate::order::is_max_of;
use crate::order::order_equiv;
use crate::order::moved_count;
use crate::order::lemma_moved_count_frame;
use crate::order::lemma_moved_count_zero;
use crate::order::lemma_consecutive_sorted;
use crate::order::insertion_sort;

verus! {

/// The bucket-family adapter: how a type chooses a bucket count for a given
/// maximum value and maps each value to a bucket.
pub trait BucketSortable: Sortable {
    /// Pins the bucket count the adapter picks for maximum value `self`.
    /// Stated as a relation so that a count defined through a square root
    /// can be characterised exactly without a closed form.
    spec fn bucket_count_spec(self, count: int) -> bool;

    /// The bucket index assigned to `self` under `count` buckets and maximum
    /// `max`. Always within `[0, count)` when `count >= 1`.
    spec fn bucket_index_spec(self, count: int, max: Self) -> int;

    /// True for adapters whose index function respects the element order;
    /// for those, bucket concatenation yields a fully sorted sequence.
    spec fn index_monotone() -> bool;

    proof fn lemma_index_monotone(a: Self, b: Self, count: int, max: Self)
        requires
            Self::index_monotone(),
            a.le_spec(b),
            count >= 1,
        ensures
            a.bucket_index_spec(count, max) <= b.bucket_index_spec(count, max),
    ;

    /// How many buckets to use when `self` is the maximum element.
    fn get_bucket_count(&self) -> (c: usize)
        ensures
            1 <= c,
            self.bucket_count_spec(c as int),
    ;

    /// The bucket `self` is distributed to; out-of-range artifacts of the
    /// underlying formula are clamped into `[0, bucket_count)`.
    fn to_bucket_index(&self, bucket_count: usize, max_value: &Self) -> (i: usize)
        requires
            bucket_count >= 1,
        ensures
            i < bucket_count,
            i as int == self.bucket_index_spec(bucket_count as int, *max_value),
    ;
}

/// `a` ranks no later than `b` when buckets are laid out for `count`/`max`:
/// strictly earlier bucket, or the same bucket and no greater value.
pub open spec fn bucket_le<T: BucketSortable>(a: T, b: T, count: int, max: T) -> bool {
    ||| a.bucket_index_spec(count, max) < b.bucket_index_spec(count, max)
    ||| (a.bucket_index_spec(count, max) == b.bucket_index_spec(count, max) && a.le_spec(b))
}

/// The order the bucket engine actually establishes: elements appear in
/// bucket-index order, and in element order within one bucket.
pub open spec fn bucket_ordered<T: BucketSortable>(s: Seq<T>, count: int, max: T) -> bool {
    forall|p: int, q: int| 0 <= p < q < s.len() ==> #[trigger] bucket_le(s[p], s[q], count, max)
}

/// Everything held by the first `upto` buckets, as one multiset.
spec fn stacked<T>(bs: Seq<Vec<T>>, upto: int) -> Multiset<T>
    decreases upto,
{
    if upto <= 0 {
        Multiset::empty()
    } else {
        stacked(bs, upto - 1).add(bs[upto - 1]@.to_multiset())
    }
}

/// Total number of elements held by the first `upto` buckets.
spec fn stacked_len<T>(bs: Seq<Vec<T>>, upto: int) -> int
    decreases upto,
{
    if upto <= 0 {
        0
    } else {
        stacked_len(bs, upto - 1) + bs[upto - 1]@.len()
    }
}

proof fn lemma_stacked_push_one<T>(bs: Seq<Vec<T>>, idx: int, nv: Vec<T>, x: T, upto: int)
    requires
        0 <= idx < bs.len(),
        nv@ == bs[idx]@.push(x),
        0 <= upto <= bs.len(),
    ensures
        upto <= idx ==> stacked(bs.update(idx, nv), upto) == stacked(bs, upto),
        upto > idx ==> stacked(bs.update(idx, nv), upto) == stacked(bs, upto).insert(x),
    decreases upto,
{
    broadcast use vstd::seq_lib::group_to_multiset_ensures;
    broadcast use vstd::multiset::group_multiset_axioms;

    if upto > 0 {
        lemma_stacked_push_one(bs, idx, nv, x, upto - 1);
        if upto - 1 == idx {
            assert(bs.update(idx, nv)[upto - 1] == nv);
            assert(nv@.to_multiset() == bs[idx]@.to_multiset().insert(x));
            assert(stacked(bs.update(idx, nv), upto) =~= stacked(bs, upto).insert(x));
        } else {
            assert(bs.update(idx, nv)[upto - 1] == bs[upto - 1]);
            if upto > idx {
                assert(stacked(bs.update(idx, nv), upto) =~= stacked(bs, upto).insert(x));
            }
        }
    }
}

proof fn lemma_stacked_swap_equal<T>(bs: Seq<Vec<T>>, idx: int, nv: Vec<T>, upto: int)
    requires
        0 <= idx < bs.len(),
        nv@.to_multiset() == bs[idx]@.to_multiset(),
        0 <= upto <= bs.len(),
    ensures
        stacked(bs.update(idx, nv), upto) == stacked(bs, upto),
    decreases upto,
{
    if upto > 0 {
        lemma_stacked_swap_equal(bs, idx, nv, upto - 1);
        if upto - 1 == idx {
            assert(bs.update(idx, nv)[upto - 1] == nv);
        } else {
            assert(bs.update(idx, nv)[upto - 1] == bs[upto - 1]);
        }
    }
}

proof fn lemma_stacked_len_is<T>(bs: Seq<Vec<T>>, upto: int)
    requires
        0 <= upto <= bs.len(),
    ensures
        stacked(bs, upto).len() == stacked_len(bs, upto),
        stacked_len(bs, upto) >= 0,
    decreases upto,
{
    broadcast use vstd::multiset::group_multiset_axioms;

    if upto > 0 {
        lemma_stacked_len_is(bs, upto - 1);
        vstd::seq_lib::to_multiset_len(bs[upto - 1]@);
    }
}

proof fn lemma_stacked_len_same_lens<T>(bs: Seq<Vec<T>>, idx: int, nv: Vec<T>, upto: int)
    requires
        0 <= idx < bs.len(),
        nv@.len() == bs[idx]@.len(),
        0 <= upto <= bs.len(),
    ensures
        stacked_len(bs.update(idx, nv), upto) == stacked_len(bs, upto),
    decreases upto,
{
    if upto > 0 {
        lemma_stacked_len_same_lens(bs, idx, nv, upto - 1);
        if upto - 1 == idx {
            assert(bs.update(idx, nv)[upto - 1] == nv);
        } else {
            assert(bs.update(idx, nv)[upto - 1] == bs[upto - 1]);
        }
    }
}

/// Bucket sort engine with run statistics: distributes elements into
/// adapter-chosen buckets, comparison-sorts each bucket, concatenates.
pub struct BucketSort {
    comparisons: usize,
    moves: usize,
}

impl BucketSort {
    /// Comparison counter accumulated by the most recent sort call.
    pub closed spec fn spec_comparisons(self) -> usize {
        self.comparisons
    }

    /// Move counter accumulated by the most recent sort call.
    pub closed spec fn spec_moves(self) -> usize {
        self.moves
    }

    pub fn new() -> (s: Self)
        ensures
            s.spec_comparisons() == 0,
            s.spec_moves() == 0,
    {
        BucketSort { comparisons: 0, moves: 0 }
    }

    pub fn get_stats(&self) -> (r: (usize, usize))
        ensures
            r == (self.spec_comparisons(), self.spec_moves()),
    {
        (self.comparisons, self.moves)
    }

    /// Sort `data` in place, ascending under the type's order.
    ///
    /// The result is always a permutation of the input. Already-sorted input
    /// is recognised by an initial scan and left untouched with zero moves.
    /// Otherwise the result carries the bucket layout order for the chosen
    /// maximum; for adapters whose bucket index respects the element order
    /// (the numeric ones) that means the result is fully sorted. Both
    /// counters restart from zero on every call; the move counter equals
    /// the number of write-back positions whose landing value differs from
    /// the previous occupant, and the comparison counter never exceeds
    /// `len * (len + 1)`.
    pub fn sort<T: Copy + BucketSortable>(&mut self, data: &mut Vec<T>)
        ensures
            final(data)@.to_multiset() == old(data)@.to_multiset(),
            final(data)@.len() == old(data)@.len(),
            old(data)@.len() == 0 ==> final(data)@ == old(data)@
                && final(self).spec_comparisons() == 0 && final(self).spec_moves() == 0,
            old(data)@.len() > 0 && sorted(old(data)@) ==> final(data)@ == old(data)@
                && final(self).spec_moves() == 0 && final(self).spec_comparisons() == old(
                data,
            )@.len() - 1,
            !sorted(old(data)@) ==> exists|m: T, c: int|
                is_max_of(m, old(data)@) && m.bucket_count_spec(c) && 1 <= c && #[trigger] bucket_ordered(
                    final(data)@,
                    c,
                    m,
                ),
            T::index_monotone() ==> sorted(final(data)@),
            old(data)@.len() >= 2 ==> final(self).spec_comparisons() >= 1,
            final(self).spec_comparisons() as int <= old(data)@.len() * (old(data)@.len() + 1),
            old(data)@.len() > 0 && !sorted(old(data)@) ==> final(self).spec_moves() as int
                == moved_count(final(data)@, old(data)@, old(data)@.len() as int),
            T::index_monotone() && !sorted(old(data)@) ==> final(self).spec_moves() >= 1,
    {
        // Counters reset on every call, before anything else can return.
        self.comparisons = 0;
        self.moves = 0;

        let n = data.len();
        if n == 0 {
            assert(sorted(data@));
            return ;
        }
        proof {
            vstd::arithmetic::mul::lemma_mul_nonnegative(n as int, n as int);
            assert((n as int) * ((n as int) + 1) == (n as int) * (n as int) + n) by (nonlinear_arith);
        }

        let ghost orig = data@;

        // Initial scan: detect already-sorted input, counting one comparison
        // per adjacent pair examined.
        let mut is_sorted = true;
        let mut k: usize = 1;
        while k < n && is_sorted
            invariant
                1 <= k <= n,
                n == data@.len(),
                data@ == orig,
                self.comparisons == k - 1,
                self.moves == 0,
                is_sorted ==> forall|p: int|
                    0 <= p < k - 1 ==> #[trigger] data@[p].le_spec(data@[p + 1]),
                !is_sorted ==> !sorted(data@) && 2 <= k,
            decreases n - k,
        {
            self.comparisons = self.comparisons + 1;
            let a = data[k - 1];
            let b = data[k];
            if !a.le(&b) {
                is_sorted = false;
                proof {
                    assert(!data@[k - 1].le_spec(data@[k as int]));
                }
            }
            k = k + 1;
        }

        if is_sorted {
            proof {
                lemma_consecutive_sorted(data@);
            }
            return ;
        }

        assert(n >= 2);
        assert(self.comparisons >= 1);

        // Find a maximum element; ties go to the later occurrence.
        let mut max_value = data[0];
        proof {
            T::lemma_le_total(data@[0], data@[0]);
        }
        let mut t: usize = 1;
        while t < n
            invariant
                1 <= t <= n,
                n == data@.len(),
                data@ == orig,
                exists|w: int| 0 <= w < t && data@[w] == max_value,
                forall|p: int| 0 <= p < t ==> #[trigger] data@[p].le_spec(max_value),
            decreases n - t,
        {
            let c = data[t];
            if max_value.le(&c) {
                proof {
                    assert forall|p: int| 0 <= p < t + 1 implies #[trigger] data@[p].le_spec(c) by {
                        if p < t {
                            T::lemma_le_trans(data@[p], max_value, c);
                        } else {
                            T::lemma_le_total(c, c);
                        }
                    }
                }
                max_value = c;
            } else {
                proof {
                    T::lemma_le_total(max_value, c);
                    assert(c.le_spec(max_value));
                }
            }
            t = t + 1;
        }
        assert(is_max_of(max_value, orig));

        let bucket_count = max_value.get_bucket_count();

        let mut buckets: Vec<Vec<T>> = Vec::new();
        while buckets.len() < bucket_count
            invariant
                buckets@.len() <= bucket_count,
                forall|b: int| 0 <= b < buckets@.len() ==> #[trigger] buckets@[b]@.len() == 0,
            decreases bucket_count - buckets.len(),
        {
            buckets.push(Vec::new());
        }

        proof {
            broadcast use vstd::multiset::group_multiset_axioms;

            lemma_stacked_empty_all(buckets@, bucket_count as int);
            assert forall|x: T| #[trigger] orig.subrange(0, 0).to_multiset().count(x) == 0 by {
                vstd::seq_lib::to_multiset_contains(orig.subrange(0, 0), x);
            }
            assert(orig.subrange(0, 0).to_multiset() =~= Multiset::<T>::empty());
        }

        // Distribute every element to its adapter-chosen bucket.
        let ghost count = bucket_count as int;
        let mut d: usize = 0;
        while d < n
            invariant
                0 <= d <= n,
                n == data@.len(),
                data@ == orig,
                buckets@.len() == count,
                bucket_count as int == count,
                bucket_count >= 1,
                forall|b: int, e: int|
                    0 <= b < count && 0 <= e < buckets@[b]@.len()
                        ==> #[trigger] buckets@[b]@[e].bucket_index_spec(count, max_value) == b,
                stacked(buckets@, count) == orig.subrange(0, d as int).to_multiset(),
            decreases n - d,
        {
            broadcast use vstd::seq_lib::group_to_multiset_ensures;

            let item = data[d];
            let idx = item.to_bucket_index(bucket_count, &max_value);
            let ghost before = buckets@;
            buckets[idx].push(item);
            proof {
                lemma_stacked_push_one(
                    before,
                    idx as int,
                    buckets@[idx as int],
                    item,
                    count,
                );
                assert(orig.subrange(0, d + 1) == orig.subrange(0, d as int).push(orig[d as int]));
            }
            d = d + 1;
        }

        proof {
            assert(orig.subrange(0, n as int) =~= orig);
        }

        // Sort each bucket, accumulating its comparison count.
        let ghost distributed = buckets@;
        let mut b: usize = 0;
        while b < bucket_count
            invariant
                0 <= b <= bucket_count,
                buckets@.len() == count,
                bucket_count as int == count,
                self.comparisons >= 1,
                self.moves == 0,
                n == data@.len(),
                self.comparisons as int <= n - 1 + stacked_len(buckets@, b as int) * stacked_len(
                    buckets@,
                    b as int,
                ),
                forall|bb: int, e: int|
                    0 <= bb < count && 0 <= e < buckets@[bb]@.len()
                        ==> #[trigger] buckets@[bb]@[e].bucket_index_spec(count, max_value) == bb,
                stacked(buckets@, count) == orig.to_multiset(),
                forall|bb: int| 0 <= bb < b ==> sorted(#[trigger] buckets@[bb]@),
            decreases bucket_count - b,
        {
            broadcast use vstd::seq_lib::group_to_multiset_ensures;

            if buckets[b].len() > 1 {
                let ghost before = buckets@;
                let ghost blen0 = buckets@[b as int]@.len();
                self.comparisons = insertion_sort(&mut buckets[b], self.comparisons);
                proof {
                    let nv = buckets@[b as int];
                    assert(before.update(b as int, nv) == buckets@);
                    lemma_stacked_swap_equal(before, b as int, nv, count);
                    lemma_stacked_len_same_lens(before, b as int, nv, b as int);
                    lemma_stacked_len_same_lens(before, b as int, nv, b + 1);
                    lemma_stacked_len_is(buckets@, b as int);
                    assert(stacked_len(buckets@, b + 1) == stacked_len(buckets@, b as int)
                        + blen0);
                    assert(stacked_len(buckets@, b as int) * stacked_len(buckets@, b as int)
                        + blen0 * blen0 <= stacked_len(buckets@, b + 1) * stacked_len(
                        buckets@,
                        b + 1,
                    )) by (nonlinear_arith)
                        requires
                            stacked_len(buckets@, b as int) >= 0,
                            blen0 >= 0,
                            stacked_len(buckets@, b + 1) == stacked_len(buckets@, b as int)
                                + blen0,
                    ;
                    assert forall|e: int| 0 <= e < nv@.len() implies #[trigger] nv@[e].bucket_index_spec(
                        count,
                        max_value,
                    ) == b by {
                        vstd::seq_lib::to_multiset_contains(nv@, nv@[e]);
                        vstd::seq_lib::to_multiset_contains(before[b as int]@, nv@[e]);
                        assert(before[b as int]@.contains(nv@[e]));
                        let w = choose|w: int|
                            0 <= w < before[b as int]@.len() && before[b as int]@[w] == nv@[e];
                        assert(before[b as int]@[w].bucket_index_spec(count, max_value) == b);
                    }
                }
            }
            proof {
                assert(sorted(buckets@[b as int]@));
                lemma_stacked_len_is(buckets@, b as int);
                assert(stacked_len(buckets@, b + 1) == stacked_len(buckets@, b as int) + buckets@[
                    b as int
                ]@.len());
                assert(stacked_len(buckets@, b as int) * stacked_len(buckets@, b as int)
                    <= stacked_len(buckets@, b + 1) * stacked_len(buckets@, b + 1))
                    by (nonlinear_arith)
                    requires
                        stacked_len(buckets@, b as int) >= 0,
                        stacked_len(buckets@, b + 1) >= stacked_len(buckets@, b as int),
                ;
            }
            b = b + 1;
        }

        proof {
            lemma_stacked_len_is(buckets@, count);
            vstd::seq_lib::to_multiset_len(orig);
            assert(stacked_len(buckets@, count) == n);
        }

        // Concatenate the buckets back over the original sequence, counting a
        // move wherever the landing value differs from what stood there.
        let ghost bs = buckets@;
        let mut i: usize = 0;
        let mut wb: usize = 0;
        while wb < bucket_count
            invariant
                0 <= wb <= bucket_count,
                buckets@ == bs,
                bs.len() == count,
                bucket_count as int == count,
                n == data@.len(),
                orig.len() == n,
                self.comparisons >= 1,
                self.comparisons as int <= n - 1 + (n as int) * (n as int),
                i as int == stacked_len(bs, wb as int),
                i <= n,
                stacked_len(bs, count) == n,
                stacked(bs, count) == orig.to_multiset(),
                forall|bb: int, e: int|
                    0 <= bb < count && 0 <= e < bs[bb]@.len()
                        ==> #[trigger] bs[bb]@[e].bucket_index_spec(count, max_value) == bb,
                forall|bb: int| 0 <= bb < count ==> sorted(#[trigger] bs[bb]@),
                data@.subrange(i as int, n as int) == orig.subrange(i as int, n as int),
                data@.subrange(0, i as int).to_multiset() == stacked(bs, wb as int),
                bucket_ordered(data@.subrange(0, i as int), count, max_value),
                forall|p: int|
                    0 <= p < i ==> #[trigger] data@[p].bucket_index_spec(count, max_value) < wb,
                self.moves <= i,
                self.moves as int == moved_count(data@, orig, i as int),
            decreases bucket_count - wb,
        {
            broadcast use vstd::seq_lib::group_to_multiset_ensures;

            let blen = buckets[wb].len();
            let ghost base = i as int;
            let mut e: usize = 0;
            while e < blen
                invariant
                    0 <= e <= blen,
                    0 <= wb < bucket_count,
                    buckets@ == bs,
                    bs.len() == count,
                    bucket_count as int == count,
                    blen == bs[wb as int]@.len(),
                    n == data@.len(),
                    orig.len() == n,
                    base == stacked_len(bs, wb as int),
                    0 <= base,
                    i as int == base + e,
                    i <= n,
                    stacked_len(bs, count) == n,
                    stacked(bs, count) == orig.to_multiset(),
                    forall|bb: int, ee: int|
                        0 <= bb < count && 0 <= ee < bs[bb]@.len()
                            ==> #[trigger] bs[bb]@[ee].bucket_index_spec(count, max_value) == bb,
                    forall|bb: int| 0 <= bb < count ==> sorted(#[trigger] bs[bb]@),
                    data@.subrange(i as int, n as int) == orig.subrange(i as int, n as int),
                    data@.subrange(0, i as int).to_multiset() == stacked(bs, wb as int).add(
                        bs[wb as int]@.subrange(0, e as int).to_multiset(),
                    ),
                    data@.subrange(base, i as int) == bs[wb as int]@.subrange(0, e as int),
                    bucket_ordered(data@.subrange(0, i as int), count, max_value),
                    self.comparisons >= 1,
                    self.comparisons as int <= n - 1 + (n as int) * (n as int),
                    forall|p: int|
                        0 <= p < base ==> #[trigger] data@[p].bucket_index_spec(count, max_value)
                            < wb,
                    self.moves <= i,
                    self.moves as int == moved_count(data@, orig, i as int),
                decreases blen - e,
            {
                broadcast use vstd::seq_lib::group_to_multiset_ensures;

                proof {
                    lemma_stacked_len_parts(bs, wb as int, count);
                    assert(i < n);
                }
                let item = buckets[wb][e];
                if i < n {
                    let ghost pre = data@;
                    let cur = data[i];
                    let same = cur.le(&item) && item.le(&cur);
                    if !same {
                        self.moves = self.moves + 1;
                    }
                    data.set(i, item);
                    proof {
                        assert forall|tt: int| i + 1 <= tt < n implies data@[tt] == orig[tt] by {
                            assert(pre.subrange(i as int, n as int)[tt - i] == orig.subrange(
                                i as int,
                                n as int,
                            )[tt - i]);
                        }
                        assert(data@.subrange(i + 1, n as int) =~= orig.subrange(i + 1, n as int));
                        assert(data@.subrange(0, i + 1) =~= pre.subrange(0, i as int).push(item));
                        assert(data@.subrange(0, i as int) =~= pre.subrange(0, i as int));
                        assert forall|tt: int| 0 <= tt < e + 1 implies data@.subrange(
                            base,
                            i + 1,
                        )[tt] == #[trigger] bs[wb as int]@.subrange(0, e + 1)[tt] by {
                            assert(data@.subrange(base, i + 1)[tt] == data@[base + tt]);
                            assert(bs[wb as int]@.subrange(0, e + 1)[tt] == bs[wb as int]@[tt]);
                            if tt < e {
                                assert(data@[base + tt] == pre[base + tt]);
                                assert(pre.subrange(base, i as int)[tt] == pre[base + tt]);
                                assert(pre.subrange(base, i as int)[tt] == bs[
                                    wb as int
                                ]@.subrange(0, e as int)[tt]);
                                assert(bs[wb as int]@.subrange(0, e as int)[tt] == bs[
                                    wb as int
                                ]@[tt]);
                            } else {
                                assert(data@[base + tt] == item);
                            }
                        }
                        assert(data@.subrange(base, i + 1) =~= bs[wb as int]@.subrange(
                            0,
                            e + 1,
                        ));
                        assert(bs[wb as int]@.subrange(0, e + 1) == bs[wb as int]@.subrange(
                            0,
                            e as int,
                        ).push(bs[wb as int]@[e as int]));
                        // ordering of the extended prefix
                        assert(item.bucket_index_spec(count, max_value) == wb as int);
                        assert forall|p: int, q: int| 0 <= p < q < i + 1 implies #[trigger] crate::bucket::bucket_le(
                            data@.subrange(0, i + 1)[p],
                            data@.subrange(0, i + 1)[q],
                            count,
                            max_value,
                        ) by {
                            let s = data@.subrange(0, i + 1);
                            if q < i {
                                assert(bucket_ordered(pre.subrange(0, i as int), count, max_value));
                                assert(s[p] == pre.subrange(0, i as int)[p]);
                                assert(s[q] == pre.subrange(0, i as int)[q]);
                            } else {
                                assert(s[q] == item);
                                assert(s[p] == pre[p]);
                                if p < base {
                                    assert(pre[p].bucket_index_spec(count, max_value) < wb as int);
                                } else {
                                    assert(pre.subrange(base, i as int)[p - base] == bs[
                                        wb as int
                                    ]@.subrange(0, e as int)[p - base]);
                                    assert(pre[p] == bs[wb as int]@[p - base]);
                                    assert(pre[p].bucket_index_spec(count, max_value) == wb as int);
                                    assert(sorted(bs[wb as int]@));
                                    assert(bs[wb as int]@[p - base].le_spec(bs[wb as int]@[e as int]));
                                }
                            }
                        }
                        // multiset of the extended prefix
                        assert(data@.subrange(0, i + 1).to_multiset() == stacked(
                            bs,
                            wb as int,
                        ).add(bs[wb as int]@.subrange(0, e + 1).to_multiset()));
                        // move accounting: the landing value either matches
                        // the previous occupant or counts one move
                        assert(cur == orig[i as int]) by {
                            assert(pre.subrange(i as int, n as int)[0] == orig.subrange(
                                i as int,
                                n as int,
                            )[0]);
                        }
                        lemma_moved_count_frame(data@, pre, orig, i as int);
                        assert(data@[i as int] == item);
                        assert(moved_count(data@, orig, i + 1) == moved_count(pre, orig, i as int)
                            + if order_equiv(item, orig[i as int]) {
                            0int
                        } else {
                            1int
                        });
                        assert(same == order_equiv(item, orig[i as int]));
                    }
                }
                i = i + 1;
                e = e + 1;
            }
            proof {
                assert(bs[wb as int]@.subrange(0, blen as int) =~= bs[wb as int]@);
                assert(i as int == stacked_len(bs, wb as int + 1));
                assert(data@.subrange(0, i as int).to_multiset() == stacked(bs, wb as int + 1));
                assert forall|p: int| 0 <= p < i implies #[trigger] data@[p].bucket_index_spec(
                    count,
                    max_value,
                ) < wb + 1 by {
                    if p >= base {
                        assert(data@.subrange(base, i as int)[p - base] == bs[wb as int]@.subrange(
                            0,
                            blen as int,
                        )[p - base]);
                        assert(data@[p].bucket_index_spec(count, max_value) == wb as int);
                    }
                }
            }
            wb = wb + 1;
        }

        proof {
            assert(i == n);
            assert(data@.subrange(0, n as int) =~= data@);
            assert(data@.to_multiset() == orig.to_multiset());
            assert(bucket_ordered(data@, count, max_value));
            assert(max_value.bucket_count_spec(count));
            assert(1 <= count);
            // the existential characterisation of the result
            assert(is_max_of(max_value, orig) && max_value.bucket_count_spec(count) && 1 <= count
                && bucket_ordered(data@, count, max_value));
            assert(n - 1 + (n as int) * (n as int) <= (n as int) * ((n as int) + 1))
                by (nonlinear_arith);
            if T::index_monotone() {
                assert forall|p: int, q: int| 0 <= p < q < n implies data@[p].le_spec(data@[q]) by {
                    assert(bucket_le(data@[p], data@[q], count, max_value));
                    if !data@[p].le_spec(data@[q]) {
                        T::lemma_le_total(data@[p], data@[q]);
                        assert(data@[q].le_spec(data@[p]));
                        T::lemma_index_monotone(data@[q], data@[p], count, max_value);
                        assert(false);
                    }
                }
                assert(sorted(data@));
                if self.moves == 0 {
                    lemma_moved_count_zero(data@, orig, n as int);
                    assert forall|p: int, q: int| 0 <= p < q < n implies orig[p].le_spec(
                        orig[q],
                    ) by {
                        assert(order_equiv(data@[p], orig[p]));
                        assert(order_equiv(data@[q], orig[q]));
                        assert(data@[p].le_spec(data@[q]));
                        T::lemma_le_trans(orig[p], data@[p], data@[q]);
                        T::lemma_le_trans(orig[p], data@[q], orig[q]);
                    }
                    assert(sorted(orig));
                    assert(false);
                }
            }
        }
    }
}

proof fn lemma_stacked_empty_all<T>(bs: Seq<Vec<T>>, upto: int)
    requires
        0 <= upto <= bs.len(),
        forall|b: int| 0 <= b < bs.len() ==> #[trigger] bs[b]@.len() == 0,
    ensures
        stacked(bs, upto) == Multiset::<T>::empty(),
    decreases upto,
{
    broadcast use vstd::multiset::group_multiset_axioms;

    if upto > 0 {
        lemma_stacked_empty_all(bs, upto - 1);
        assert forall|x: T| #[trigger] bs[upto - 1]@.to_multiset().count(x) == 0 by {
            vstd::seq_lib::to_multiset_contains(bs[upto - 1]@, x);
        }
        assert(bs[upto - 1]@.to_multiset() =~= Multiset::<T>::empty());
        assert(stacked(bs, upto) =~= Multiset::<T>::empty());
    }
}

/// The elements held by buckets below `mid` are no more than all of them.
proof fn lemma_stacked_len_parts<T>(bs: Seq<Vec<T>>, mid: int, upto: int)
    requires
        0 <= mid < upto <= bs.len(),
    ensures
        stacked_len(bs, mid) + bs[mid]@.len() <= stacked_len(bs, upto),
    decreases upto,
{
    if mid + 1 == upto {
    } else {
        lemma_stacked_len_parts(bs, mid, upto - 1);
        lemma_stacked_len_nonneg_last(bs, upto);
    }
}

proof fn lemma_stacked_len_nonneg_last<T>(bs: Seq<Vec<T>>, upto: int)
    requires
        0 < upto <= bs.len(),
    ensures
        stacked_len(bs, upto - 1) <= stacked_len(bs, upto),
{
}

} // verus!
