//! Weighted sums over sequences, the arithmetic every balance argument rests on.

use vstd::prelude::*;

verus! {

/// The sum of `w(x)` over the entries `x` of `s`, each counted as often as it occurs.
pub open spec fn sum_of<A>(s: Seq<A>, w: spec_fn(A) -> int) -> int
    decreases s.len(),
{
    if s.len() == 0 {
        0
    } else {
        sum_of(s.drop_last(), w) + w(s.last())
    }
}

/// The weight that reads a 64-bit amount as a mathematical integer.
pub open spec fn amount() -> spec_fn(u64) -> int {
    |x: u64| x as int
}

/// The sum of a column of 64-bit amounts.
pub open spec fn column_total(column: Seq<u64>) -> int {
    sum_of(column, amount())
}

/// Appending one entry adds its weight.
pub proof fn lemma_sum_push<A>(s: Seq<A>, x: A, w: spec_fn(A) -> int)
    ensures
        sum_of(s.push(x), w) == sum_of(s, w) + w(x),
{
    assert(s.push(x).drop_last() =~= s);
}

/// The sum over the first `k + 1` entries is the sum over the first `k` plus the next weight.
pub proof fn lemma_sum_take_next<A>(s: Seq<A>, k: int, w: spec_fn(A) -> int)
    requires
        0 <= k < s.len(),
    ensures
        sum_of(s.take(k + 1), w) == sum_of(s.take(k), w) + w(s[k]),
{
    assert(s.take(k + 1).drop_last() =~= s.take(k));
}

/// The sum over a concatenation is the sum of the two sums.
pub proof fn lemma_sum_concat<A>(a: Seq<A>, b: Seq<A>, w: spec_fn(A) -> int)
    ensures
        sum_of(a + b, w) == sum_of(a, w) + sum_of(b, w),
    decreases b.len(),
{
    if b.len() > 0 {
        assert((a + b).drop_last() =~= a + b.drop_last());
        lemma_sum_concat(a, b.drop_last(), w);
    }
}

/// Two sequences of one length whose weights agree position by position have the same sum.
pub proof fn lemma_sum_aligned<A, B>(
    a: Seq<A>,
    wa: spec_fn(A) -> int,
    b: Seq<B>,
    wb: spec_fn(B) -> int,
)
    requires
        a.len() == b.len(),
        forall|i: int| 0 <= i < a.len() ==> wa(#[trigger] a[i]) == wb(b[i]),
    ensures
        sum_of(a, wa) == sum_of(b, wb),
    decreases a.len(),
{
    if a.len() > 0 {
        lemma_sum_aligned(a.drop_last(), wa, b.drop_last(), wb);
    }
}

/// A weight that splits into two parts on every entry splits the sum in the same way.
pub proof fn lemma_sum_split<A>(
    s: Seq<A>,
    w: spec_fn(A) -> int,
    w1: spec_fn(A) -> int,
    w2: spec_fn(A) -> int,
)
    requires
        forall|i: int| 0 <= i < s.len() ==> w(#[trigger] s[i]) == w1(s[i]) + w2(s[i]),
    ensures
        sum_of(s, w) == sum_of(s, w1) + sum_of(s, w2),
    decreases s.len(),
{
    if s.len() > 0 {
        lemma_sum_split(s.drop_last(), w, w1, w2);
    }
}

/// A weight that is nowhere larger gives a sum that is not larger.
pub proof fn lemma_sum_monotone<A>(s: Seq<A>, w1: spec_fn(A) -> int, w2: spec_fn(A) -> int)
    requires
        forall|i: int| 0 <= i < s.len() ==> w1(#[trigger] s[i]) <= w2(s[i]),
    ensures
        sum_of(s, w1) <= sum_of(s, w2),
    decreases s.len(),
{
    if s.len() > 0 {
        lemma_sum_monotone(s.drop_last(), w1, w2);
    }
}

/// With weights that are never negative, no prefix sums to more than the whole and no
/// single weight exceeds the sum.
pub proof fn lemma_sum_nonnegative<A>(s: Seq<A>, w: spec_fn(A) -> int)
    requires
        forall|i: int| 0 <= i < s.len() ==> 0 <= w(#[trigger] s[i]),
    ensures
        0 <= sum_of(s, w),
        forall|k: int| 0 <= k <= s.len() ==> 0 <= #[trigger] sum_of(s.take(k), w) <= sum_of(s, w),
        forall|i: int| 0 <= i < s.len() ==> w(#[trigger] s[i]) <= sum_of(s, w),
    decreases s.len(),
{
    if s.len() > 0 {
        let front = s.drop_last();
        lemma_sum_nonnegative(front, w);
        assert forall|k: int| 0 <= k <= s.len() implies 0 <= #[trigger] sum_of(s.take(k), w)
            <= sum_of(s, w) by {
            if k == s.len() {
                assert(s.take(k) =~= s);
            } else {
                assert(s.take(k) =~= front.take(k));
            }
        }
        assert forall|i: int| 0 <= i < s.len() implies w(#[trigger] s[i]) <= sum_of(s, w) by {
            if i < front.len() {
                assert(front[i] == s[i]);
            }
        }
    }
}

/// Entries of weight zero may be filtered out without changing the sum.
pub proof fn lemma_sum_filter<A>(s: Seq<A>, keep: spec_fn(A) -> bool, w: spec_fn(A) -> int)
    requires
        forall|i: int| 0 <= i < s.len() && !keep(#[trigger] s[i]) ==> w(s[i]) == 0,
    ensures
        sum_of(s.filter(keep), w) == sum_of(s, w),
    decreases s.len(),
{
    reveal(Seq::filter);
    if s.len() > 0 {
        let front = s.drop_last();
        lemma_sum_filter(front, keep, w);
        if keep(s.last()) {
            lemma_sum_push(front.filter(keep), s.last(), w);
        }
    }
}

/// Removing the entry at `i` takes its weight out of the sum.
pub proof fn lemma_sum_remove<A>(s: Seq<A>, i: int, w: spec_fn(A) -> int)
    requires
        0 <= i < s.len(),
    ensures
        sum_of(s.remove(i), w) == sum_of(s, w) - w(s[i]),
{
    let head = s.take(i);
    let tail = s.skip(i + 1);
    assert(s =~= head.push(s[i]) + tail);
    lemma_sum_concat(head.push(s[i]), tail, w);
    lemma_sum_concat(head, tail, w);
    lemma_sum_push(head, s[i], w);
}

/// The sum does not depend on the order of the entries.
pub proof fn lemma_sum_permutation<A>(a: Seq<A>, b: Seq<A>, w: spec_fn(A) -> int)
    requires
        a.to_multiset() == b.to_multiset(),
    ensures
        sum_of(a, w) == sum_of(b, w),
    decreases a.len(),
{
    broadcast use vstd::seq_lib::group_to_multiset_ensures;

    if a.len() == 0 {
        assert(b.to_multiset().len() == 0);
    } else {
        let x = a.last();
        assert(a.to_multiset().count(x) > 0);
        let j = choose|j: int| 0 <= j < b.len() && b[j] == x;
        assert(a.drop_last() =~= a.remove(a.len() - 1));
        lemma_sum_permutation(a.drop_last(), b.remove(j), w);
        lemma_sum_remove(b, j, w);
    }
}

/// A weight that is a fixed multiple of another gives that multiple of the other's sum.
pub proof fn lemma_sum_scaled<A>(
    s: Seq<A>,
    w: spec_fn(A) -> int,
    factor: int,
    scaled: spec_fn(A) -> int,
)
    requires
        forall|i: int| 0 <= i < s.len() ==> scaled(#[trigger] s[i]) == factor * w(s[i]),
    ensures
        sum_of(s, scaled) == factor * sum_of(s, w),
    decreases s.len(),
{
    if s.len() > 0 {
        let x = s[s.len() - 1];
        lemma_sum_scaled(s.drop_last(), w, factor, scaled);
        assert(factor * (sum_of(s.drop_last(), w) + w(x)) == factor * sum_of(s.drop_last(), w)
            + factor * w(x)) by (nonlinear_arith);
    }
}

/// The entries that a test keeps weigh as much as all entries do under the weight that
/// counts only what the test keeps.
pub proof fn lemma_sum_kept<A>(
    s: Seq<A>,
    keep: spec_fn(A) -> bool,
    w: spec_fn(A) -> int,
    kept_w: spec_fn(A) -> int,
)
    requires
        forall|x: A| #[trigger] kept_w(x) == if keep(x) { w(x) } else { 0 },
    ensures
        sum_of(s.filter(keep), w) == sum_of(s, kept_w),
{
    let kept = s.filter(keep);
    lemma_sum_aligned(kept, w, kept, kept_w);
    lemma_sum_filter(s, keep, kept_w);
}

} // verus!
