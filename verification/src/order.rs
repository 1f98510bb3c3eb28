use vstd::prelude::*;

verus! {

/// The comparison capability both engines need: a total order on the element
/// type, given as a spec-level relation, an executable test for it, and the
/// proof obligations (totality and transitivity) that sorting relies on.
pub trait Sortable: Sized {
    /// The type's natural "less than or equal" relation.
    spec fn le_spec(self, other: Self) -> bool;

    /// Any two values are comparable.
    proof fn lemma_le_total(a: Self, b: Self)
        ensures
            a.le_spec(b) || b.le_spec(a),
    ;

    /// The relation is transitive.
    proof fn lemma_le_trans(a: Self, b: Self, c: Self)
        requires
            a.le_spec(b),
            b.le_spec(c),
        ensures
            a.le_spec(c),
    ;

    /// Executable comparison deciding `le_spec`.
    fn le(&self, other: &Self) -> (r: bool)
        ensures
            r == self.le_spec(*other),
    ;
}

/// A sequence is in non-decreasing order under the type's relation.
pub open spec fn sorted<T: Sortable>(s: Seq<T>) -> bool {
    forall|i: int, j: int| 0 <= i < j < s.len() ==> #[trigger] s[i].le_spec(#[trigger] s[j])
}

/// Two values that sit at the same point of the order: each is below the other.
pub open spec fn order_equiv<T: Sortable>(a: T, b: T) -> bool {
    a.le_spec(b) && b.le_spec(a)
}

/// The order relation spans any gap bridged by consecutive steps.
pub proof fn lemma_le_span<T: Sortable>(s: Seq<T>, p: int, q: int)
    requires
        forall|k: int| 0 <= k < s.len() - 1 ==> #[trigger] s[k].le_spec(s[k + 1]),
        0 <= p <= q < s.len(),
    ensures
        p < q ==> s[p].le_spec(s[q]),
    decreases q - p,
{
    if p < q {
        if p + 1 == q {
            assert(s[p].le_spec(s[p + 1]));
        } else {
            lemma_le_span(s, p + 1, q);
            assert(s[p].le_spec(s[p + 1]));
            T::lemma_le_trans(s[p], s[p + 1], s[q]);
        }
    }
}

/// A sequence whose consecutive elements are in order is sorted throughout.
pub proof fn lemma_consecutive_sorted<T: Sortable>(s: Seq<T>)
    requires
        forall|k: int| 0 <= k < s.len() - 1 ==> #[trigger] s[k].le_spec(s[k + 1]),
    ensures
        sorted(s),
{
    assert forall|i: int, j: int| 0 <= i < j < s.len() implies s[i].le_spec(s[j]) by {
        lemma_le_span(s, i, j);
    }
}

/// How many positions of the first `upto` hold a value out of order with
/// what stood there: the engines' move counter, one move per write-back
/// position whose landing value differs from the previous occupant. For
/// the element types here, order-equivalence is value equality.
pub open spec fn moved_count<T: Sortable>(out: Seq<T>, orig: Seq<T>, upto: int) -> int
    decreases upto,
{
    if upto <= 0 {
        0
    } else {
        moved_count(out, orig, upto - 1) + if order_equiv(out[upto - 1], orig[upto - 1]) {
            0int
        } else {
            1int
        }
    }
}

/// The count reads only the first `upto` positions of the output.
pub proof fn lemma_moved_count_frame<T: Sortable>(o1: Seq<T>, o2: Seq<T>, orig: Seq<T>, upto: int)
    requires
        forall|p: int| 0 <= p < upto ==> o1[p] == o2[p],
    ensures
        moved_count(o1, orig, upto) == moved_count(o2, orig, upto),
    decreases upto,
{
    if upto > 0 {
        lemma_moved_count_frame(o1, o2, orig, upto - 1);
    }
}

/// The count stays between zero and the positions examined.
pub proof fn lemma_moved_count_bounds<T: Sortable>(out: Seq<T>, orig: Seq<T>, upto: int)
    requires
        upto >= 0,
    ensures
        0 <= moved_count(out, orig, upto) <= upto,
    decreases upto,
{
    if upto > 0 {
        lemma_moved_count_bounds(out, orig, upto - 1);
    }
}

/// A zero count means every examined position kept an equivalent value.
pub proof fn lemma_moved_count_zero<T: Sortable>(out: Seq<T>, orig: Seq<T>, upto: int)
    requires
        moved_count(out, orig, upto) == 0,
    ensures
        forall|p: int| 0 <= p < upto ==> #[trigger] order_equiv(out[p], orig[p]),
    decreases upto,
{
    if upto > 0 {
        lemma_moved_count_bounds(out, orig, upto - 1);
        lemma_moved_count_zero(out, orig, upto - 1);
    }
}

/// A value bounding every element of a sequence from above, itself drawn
/// from the sequence: the maximum used to parameterise bucket distribution.
pub open spec fn is_max_of<T: Sortable>(m: T, s: Seq<T>) -> bool {
    &&& s.contains(m)
    &&& forall|i: int| 0 <= i < s.len() ==> #[trigger] s[i].le_spec(m)
}

/// In-place comparison sort of a whole vector, counting one comparison per
/// pairwise test performed (saturating, on top of the count handed in).
/// Both engines use it: the bucket engine on each bucket, the radix engine
/// for the signed-integer correction pass.
pub(crate) fn insertion_sort<T: Copy + Sortable>(v: &mut Vec<T>, comparisons: usize) -> (r: usize)
    ensures
        sorted(final(v)@),
        final(v)@.to_multiset() == old(v)@.to_multiset(),
        final(v)@.len() == old(v)@.len(),
        r >= comparisons,
        r as int <= comparisons + old(v)@.len() * old(v)@.len(),
{
    broadcast use vstd::seq_lib::to_multiset_update;
    broadcast use vstd::seq_lib::group_to_multiset_ensures;
    broadcast use vstd::multiset::group_multiset_axioms;

    let ghost orig = v@;
    let n = v.len();
    let mut comps = comparisons;
    if n < 2 {
        assert(sorted(v@));
        proof {
            vstd::arithmetic::mul::lemma_mul_nonnegative(n as int, n as int);
        }
        return comps;
    }
    let mut i: usize = 1;
    while i < n
        invariant
            1 <= i <= n,
            n == v@.len(),
            v@.to_multiset() == orig.to_multiset(),
            sorted(v@.subrange(0, i as int)),
            comps >= comparisons,
            comps as int <= comparisons + (i - 1) * (n as int),
        decreases n - i,
    {
        proof {
            assert forall|p: int, q: int|
                0 <= p < q <= i && p != i && q != i implies v@[p].le_spec(v@[q]) by {
                assert(v@.subrange(0, i as int)[p] == v@[p]);
                assert(v@.subrange(0, i as int)[q] == v@[q]);
            }
        }
        let mut j: usize = i;
        let mut done = false;
        while j > 0 && !done
            invariant
                0 <= j <= i < n,
                n == v@.len(),
                v@.to_multiset() == orig.to_multiset(),
                comps >= comparisons,
                comps as int <= comparisons + (i - 1) * (n as int) + (i - j) + (if done {
                    1int
                } else {
                    0int
                }),
                // every pair not involving position j is already in order
                forall|p: int, q: int|
                    0 <= p < q <= i && p != j && q != j ==> #[trigger] v@[p].le_spec(#[trigger] v@[q]),
                // the element parked at j is below everything to its right
                forall|q: int| j < q <= i ==> #[trigger] v@[j as int].le_spec(v@[q]),
                done ==> sorted(v@.subrange(0, i + 1)),
            decreases j + (if done { 0int } else { 1int }),
        {
            comps = comps.saturating_add(1);
            let a = v[j - 1];
            let b = v[j];
            if a.le(&b) {
                done = true;
                proof {
                    assert forall|p: int, q: int| 0 <= p < q <= i implies v@[p].le_spec(v@[q]) by {
                        if q == j {
                            if p < j - 1 {
                                T::lemma_le_trans(v@[p], v@[j - 1], v@[j as int]);
                            }
                        } else if p == j {
                        } else {
                        }
                    }
                    assert(sorted(v@.subrange(0, i + 1)));
                }
            } else {
                proof {
                    T::lemma_le_total(a, b);
                    assert(b.le_spec(a));
                }
                let ghost pre = v@;
                v.set(j - 1, b);
                v.set(j, a);
                proof {
                    vstd::seq_lib::to_multiset_update(pre, j as int - 1, b);
                    vstd::seq_lib::to_multiset_update(pre.update(j as int - 1, b), j as int, a);
                    assert(v@ == pre.update(j as int - 1, b).update(j as int, a));
                    assert(pre.contains(pre[j as int - 1]));
                    vstd::seq_lib::to_multiset_contains(pre, a);
                    assert(pre.to_multiset().count(a) > 0);
                    assert(v@.to_multiset() =~= pre.to_multiset());
                }
                j = j - 1;
            }
        }
        proof {
            assert(comps as int <= comparisons + i * (n as int)) by {
                assert(i - j + 1 <= n);
                assert((i - 1) * (n as int) + (n as int) == i * (n as int)) by (nonlinear_arith);
            }
            if !done {
                assert(j == 0);
                assert forall|p: int, q: int| 0 <= p < q <= i implies v@[p].le_spec(v@[q]) by {
                    if p == j {
                    }
                }
            }
            assert(sorted(v@.subrange(0, i + 1)));
        }
        i = i + 1;
    }
    proof {
        assert(v@.subrange(0, n as int) =~= v@);
        assert((n - 1) * (n as int) <= (n as int) * (n as int)) by (nonlinear_arith)
            requires
                n >= 1,
        ;
    }
    comps
}

} // verus!
