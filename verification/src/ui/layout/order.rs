//! The order in which a weighted division serves its elements.
//!
//! An element whose minimum is large relative to its weight is the first to
//! be held at its minimum when space shrinks, so it is served first. An
//! element of weight zero never takes part in the proportional share and
//! counts as having an unbounded ratio. Elements of equal ratio are served in
//! index order.

use vstd::prelude::*;
use vstd::relations::{sorted_by, total_ordering};
use vstd::seq_lib::lemma_sorted_unique;

verus! {

/// The mathematical values of a sequence of positions.
pub open spec fn positions(s: Seq<usize>) -> Seq<int> {
    s.map_values(|x: usize| x as int)
}

/// The mathematical values of a sequence of machine integers.
pub open spec fn ints(s: Seq<u64>) -> Seq<int> {
    s.map_values(|x: u64| x as int)
}

/// Weights and minima describe the same elements and none is negative.
pub open spec fn admissible(weights: Seq<int>, minima: Seq<int>) -> bool {
    &&& weights.len() == minima.len()
    &&& forall|i: int| 0 <= i < weights.len() ==> #[trigger] weights[i] >= 0
    &&& forall|i: int| 0 <= i < minima.len() ==> #[trigger] minima[i] >= 0
}

/// The ratio `ma / wa` is strictly larger than `mb / wb`, where a ratio over
/// a zero weight is larger than every ratio over a positive weight and equal
/// to every other ratio over a zero weight.
pub open spec fn ratio_exceeds(wa: int, ma: int, wb: int, mb: int) -> bool {
    if wa == 0 {
        wb != 0
    } else {
        wb != 0 && ma * wb > mb * wa
    }
}

/// Element `i` is served before element `j`.
pub open spec fn served_before(weights: Seq<int>, minima: Seq<int>, i: int, j: int) -> bool {
    ||| ratio_exceeds(weights[i], minima[i], weights[j], minima[j])
    ||| (!ratio_exceeds(weights[j], minima[j], weights[i], minima[i]) && i < j)
}

/// The order of service as a relation on all integers: an index of the
/// given elements is not served after another when it is the same index or
/// is served before it. Integers that are no index follow every index and
/// keep their numeric order, which makes the relation total.
pub open spec fn not_after(weights: Seq<int>, minima: Seq<int>) -> spec_fn(int, int) -> bool {
    |i: int, j: int|
        {
            let known_i = 0 <= i < weights.len();
            let known_j = 0 <= j < weights.len();
            if known_i && known_j {
                i == j || served_before(weights, minima, i, j)
            } else if known_i {
                true
            } else if known_j {
                false
            } else {
                i <= j
            }
        }
}

/// The indices `0, 1, .., n - 1` in increasing order.
pub open spec fn indices(n: nat) -> Seq<int> {
    Seq::new(n, |i: int| i)
}

/// The indices of the elements in the order in which they are served.
pub open spec fn serving_order(weights: Seq<int>, minima: Seq<int>) -> Seq<int> {
    indices(weights.len()).sort_by(not_after(weights, minima))
}

proof fn lemma_cross_chain_strict(wa: int, ma: int, wb: int, mb: int, wc: int, mc: int)
    by (nonlinear_arith)
    requires
        wa > 0,
        wb > 0,
        wc > 0,
        ma >= 0,
        mb >= 0,
        mc >= 0,
        ma * wb > mb * wa,
        mb * wc >= mc * wb,
    ensures
        ma * wc > mc * wa,
{
    assert((ma * wb) * wc > (mb * wa) * wc);
    assert((mb * wc) * wa >= (mc * wb) * wa);
    assert((ma * wc) * wb > (mc * wa) * wb);
}

proof fn lemma_cross_chain_weak(wa: int, ma: int, wb: int, mb: int, wc: int, mc: int)
    by (nonlinear_arith)
    requires
        wa > 0,
        wb > 0,
        wc > 0,
        ma >= 0,
        mb >= 0,
        mc >= 0,
        ma * wb >= mb * wa,
        mb * wc >= mc * wb,
    ensures
        ma * wc >= mc * wa,
{
    assert((ma * wb) * wc >= (mb * wa) * wc);
    assert((mb * wc) * wa >= (mc * wb) * wa);
    assert((ma * wc) * wb >= (mc * wa) * wb);
}

/// Exceeding is transitive, and so is not exceeding.
pub proof fn lemma_ratio_transitive(wa: int, ma: int, wb: int, mb: int, wc: int, mc: int)
    requires
        wa >= 0,
        wb >= 0,
        wc >= 0,
        ma >= 0,
        mb >= 0,
        mc >= 0,
    ensures
        ratio_exceeds(wa, ma, wb, mb) && ratio_exceeds(wb, mb, wc, mc) ==> ratio_exceeds(
            wa,
            ma,
            wc,
            mc,
        ),
        !ratio_exceeds(wa, ma, wb, mb) && !ratio_exceeds(wb, mb, wc, mc) ==> !ratio_exceeds(
            wa,
            ma,
            wc,
            mc,
        ),
{
    if wa > 0 && wb > 0 && wc > 0 {
        if ma * wb > mb * wa && mb * wc > mc * wb {
            lemma_cross_chain_strict(wa, ma, wb, mb, wc, mc);
        }
        if mc * wb >= mb * wc && mb * wa >= ma * wb {
            lemma_cross_chain_weak(wc, mc, wb, mb, wa, ma);
        }
    }
}

/// On the indices of admissible elements, being served before is a strict
/// total order.
pub proof fn lemma_served_before_is_strict_total(
    weights: Seq<int>,
    minima: Seq<int>,
    i: int,
    j: int,
    k: int,
)
    requires
        admissible(weights, minima),
        0 <= i < weights.len(),
        0 <= j < weights.len(),
        0 <= k < weights.len(),
    ensures
        !served_before(weights, minima, i, i),
        served_before(weights, minima, i, j) ==> !served_before(weights, minima, j, i),
        i != j ==> served_before(weights, minima, i, j) || served_before(weights, minima, j, i),
        served_before(weights, minima, i, j) && served_before(weights, minima, j, k)
            ==> served_before(weights, minima, i, k),
{
    let (wi, mi) = (weights[i], minima[i]);
    let (wj, mj) = (weights[j], minima[j]);
    let (wk, mk) = (weights[k], minima[k]);
    lemma_ratio_transitive(wi, mi, wj, mj, wk, mk);
    lemma_ratio_transitive(wi, mi, wk, mk, wj, mj);
    lemma_ratio_transitive(wj, mj, wi, mi, wk, mk);
    lemma_ratio_transitive(wk, mk, wj, mj, wi, mi);
    lemma_ratio_transitive(wk, mk, wi, mi, wj, mj);
    lemma_ratio_transitive(wj, mj, wk, mk, wi, mi);
}

/// For admissible elements the order of service is a total order.
pub proof fn lemma_not_after_is_total_ordering(weights: Seq<int>, minima: Seq<int>)
    requires
        admissible(weights, minima),
    ensures
        total_ordering(not_after(weights, minima)),
{
    let r = not_after(weights, minima);
    let n = weights.len();
    assert forall|x: int, y: int| #[trigger] r(x, y) && #[trigger] r(y, x) implies x == y by {
        if 0 <= x < n && 0 <= y < n {
            lemma_served_before_is_strict_total(weights, minima, x, y, x);
        }
    }
    assert forall|x: int, y: int, z: int| #[trigger] r(x, y) && #[trigger] r(y, z) implies r(
        x,
        z,
    ) by {
        if 0 <= x < n && 0 <= y < n && 0 <= z < n {
            lemma_served_before_is_strict_total(weights, minima, x, y, z);
        }
    }
    assert forall|x: int, y: int| #[trigger] r(x, y) || #[trigger] r(y, x) by {
        if 0 <= x < n && 0 <= y < n {
            lemma_served_before_is_strict_total(weights, minima, x, y, x);
        }
    }
}

/// Decides whether element `i` is served before element `j`.
pub fn precedes(weights: &[u64], minima: &[u64], i: usize, j: usize) -> (r: bool)
    requires
        weights.len() == minima.len(),
        i < weights.len(),
        j < weights.len(),
    ensures
        r == served_before(ints(weights@), ints(minima@), i as int, j as int),
{
    let wi: u128 = weights[i] as u128;
    let wj: u128 = weights[j] as u128;
    let mi: u128 = minima[i] as u128;
    let mj: u128 = minima[j] as u128;
    assert(mi * wj <= 0xffff_ffff_ffff_ffff * 0xffff_ffff_ffff_ffff) by (nonlinear_arith)
        requires
            mi <= 0xffff_ffff_ffff_ffff,
            wj <= 0xffff_ffff_ffff_ffff,
    ;
    assert(mj * wi <= 0xffff_ffff_ffff_ffff * 0xffff_ffff_ffff_ffff) by (nonlinear_arith)
        requires
            mj <= 0xffff_ffff_ffff_ffff,
            wi <= 0xffff_ffff_ffff_ffff,
    ;
    let ahead: bool = if wi == 0 {
        wj != 0
    } else {
        wj != 0 && mi * wj > mj * wi
    };
    let behind: bool = if wj == 0 {
        wi != 0
    } else {
        wi != 0 && mj * wi > mi * wj
    };
    ahead || (!behind && i < j)
}

/// Merges two runs of indices, each in order of service, into one.
fn merge_runs(weights: &[u64], minima: &[u64], left: &Vec<usize>, right: &Vec<usize>) -> (out: Vec<
    usize,
>)
    requires
        weights.len() == minima.len(),
        forall|k: int| 0 <= k < left.len() ==> left[k] < weights.len(),
        forall|k: int| 0 <= k < right.len() ==> right[k] < weights.len(),
        sorted_by(positions(left@), not_after(ints(weights@), ints(minima@))),
        sorted_by(positions(right@), not_after(ints(weights@), ints(minima@))),
    ensures
        forall|k: int| 0 <= k < out.len() ==> out[k] < weights.len(),
        sorted_by(positions(out@), not_after(ints(weights@), ints(minima@))),
        positions(out@).to_multiset() == positions(left@).to_multiset().add(
            positions(right@).to_multiset(),
        ),
{
    let ghost r = not_after(ints(weights@), ints(minima@));
    let ghost n = weights.len();
    proof {
        lemma_not_after_is_total_ordering(ints(weights@), ints(minima@));
    }
    let mut out: Vec<usize> = Vec::new();
    let mut a: usize = 0;
    let mut b: usize = 0;
    assert(positions(left@.take(0)) =~= Seq::<int>::empty());
    assert(positions(right@.take(0)) =~= Seq::<int>::empty());
    assert(positions(out@) =~= Seq::<int>::empty());
    assert(Seq::<int>::empty().to_multiset() =~= Seq::<int>::empty().to_multiset().add(
        Seq::<int>::empty().to_multiset(),
    )) by {
        broadcast use vstd::seq_lib::group_to_multiset_ensures;
        broadcast use vstd::multiset::group_multiset_axioms;

    }
    while a < left.len() || b < right.len()
        invariant
            weights.len() == minima.len(),
            n == weights.len(),
            r == not_after(ints(weights@), ints(minima@)),
            total_ordering(r),
            a <= left.len(),
            b <= right.len(),
            forall|k: int| 0 <= k < left.len() ==> left[k] < n,
            forall|k: int| 0 <= k < right.len() ==> right[k] < n,
            sorted_by(positions(left@), r),
            sorted_by(positions(right@), r),
            forall|k: int| 0 <= k < out.len() ==> out[k] < n,
            sorted_by(positions(out@), r),
            forall|k: int|
                0 <= k < out.len() && a < left.len() ==> r(#[trigger] out[k] as int, left[a as int] as int),
            forall|k: int|
                0 <= k < out.len() && b < right.len() ==> r(
                    #[trigger] out[k] as int,
                    right[b as int] as int,
                ),
            positions(out@).to_multiset() == positions(left@.take(a as int)).to_multiset().add(
                positions(right@.take(b as int)).to_multiset(),
            ),
        decreases left.len() - a + right.len() - b,
    {
        let from_left: bool = if a < left.len() && b < right.len() {
            !precedes(weights, minima, right[b], left[a])
        } else {
            a < left.len()
        };
        let ghost before = out@;
        if from_left {
            let x: usize = left[a];
            proof {
                if b < right.len() {
                    lemma_served_before_is_strict_total(
                        ints(weights@),
                        ints(minima@),
                        x as int,
                        right[b as int] as int,
                        x as int,
                    );
                    assert(r(x as int, right[b as int] as int));
                }
                if a + 1 < left.len() {
                    assert(r(positions(left@)[a as int], positions(left@)[a + 1]));
                }
                assert(left@.take(a + 1) =~= left@.take(a as int).push(x));
                assert(positions(left@.take(a + 1)) =~= positions(left@.take(a as int)).push(
                    x as int,
                ));
            }
            out.push(x);
            a = a + 1;
            proof {
                assert(positions(out@) =~= positions(before).push(x as int));
                broadcast use vstd::seq_lib::group_to_multiset_ensures;
                broadcast use vstd::multiset::group_multiset_axioms;

                assert(positions(out@).to_multiset() =~= positions(
                    left@.take(a as int),
                ).to_multiset().add(positions(right@.take(b as int)).to_multiset()));
                assert forall|i: int, j: int| 0 <= i < j < out.len() implies #[trigger] r(
                    positions(out@)[i],
                    positions(out@)[j],
                ) by {
                    if j < before.len() {
                        assert(r(positions(before)[i], positions(before)[j]));
                    }
                }
            }
        } else {
            let y: usize = right[b];
            proof {
                if a < left.len() {
                    assert(r(y as int, left[a as int] as int));
                }
                if b + 1 < right.len() {
                    assert(r(positions(right@)[b as int], positions(right@)[b + 1]));
                }
                assert(right@.take(b + 1) =~= right@.take(b as int).push(y));
                assert(positions(right@.take(b + 1)) =~= positions(right@.take(b as int)).push(
                    y as int,
                ));
            }
            out.push(y);
            b = b + 1;
            proof {
                assert(positions(out@) =~= positions(before).push(y as int));
                broadcast use vstd::seq_lib::group_to_multiset_ensures;
                broadcast use vstd::multiset::group_multiset_axioms;

                assert(positions(out@).to_multiset() =~= positions(
                    left@.take(a as int),
                ).to_multiset().add(positions(right@.take(b as int)).to_multiset()));
                assert forall|i: int, j: int| 0 <= i < j < out.len() implies #[trigger] r(
                    positions(out@)[i],
                    positions(out@)[j],
                ) by {
                    if j < before.len() {
                        assert(r(positions(before)[i], positions(before)[j]));
                    }
                }
            }
        }
    }
    assert(left@.take(a as int) =~= left@);
    assert(right@.take(b as int) =~= right@);
    out
}

/// Sorts indices into the order of service by merging sorted halves.
fn sort_run(weights: &[u64], minima: &[u64], items: Vec<usize>) -> (out: Vec<usize>)
    requires
        weights.len() == minima.len(),
        forall|k: int| 0 <= k < items.len() ==> items[k] < weights.len(),
    ensures
        forall|k: int| 0 <= k < out.len() ==> out[k] < weights.len(),
        sorted_by(positions(out@), not_after(ints(weights@), ints(minima@))),
        positions(out@).to_multiset() == positions(items@).to_multiset(),
    decreases items.len(),
{
    if items.len() <= 1 {
        return items;
    }
    let ghost whole = items@;
    let mid: usize = items.len() / 2;
    let mut left: Vec<usize> = items;
    let right: Vec<usize> = left.split_off(mid);
    assert(whole =~= left@ + right@);
    assert(positions(whole) =~= positions(left@) + positions(right@));
    proof {
        vstd::seq_lib::lemma_multiset_commutative(positions(left@), positions(right@));
    }
    let left_sorted = sort_run(weights, minima, left);
    let right_sorted = sort_run(weights, minima, right);
    merge_runs(weights, minima, &left_sorted, &right_sorted)
}

/// A sequence holds each of the indices `0, 1, .., n - 1` exactly once.
pub open spec fn is_permutation(order: Seq<int>, n: nat) -> bool {
    &&& order.len() == n
    &&& forall|k: int| 0 <= k < n ==> 0 <= #[trigger] order[k] < n
    &&& order.no_duplicates()
    &&& forall|i: int| 0 <= i < n ==> #[trigger] order.contains(i)
}

/// A sequence with the same members as the indices, each as often, is a
/// permutation of them.
pub proof fn lemma_same_members_is_permutation(order: Seq<int>, n: nat)
    requires
        order.to_multiset() == indices(n).to_multiset(),
    ensures
        is_permutation(order, n),
{
    let all = indices(n);
    order.to_multiset_ensures();
    all.to_multiset_ensures();
    assert(order.len() == order.to_multiset().len());
    assert(all.len() == all.to_multiset().len());
    assert forall|k: int| 0 <= k < n implies 0 <= #[trigger] order[k] < n by {
        assert(order.contains(order[k]));
        assert(order.to_multiset().count(order[k]) > 0);
        assert(all.contains(order[k]));
    }
    assert forall|i: int| 0 <= i < n implies #[trigger] order.contains(i) by {
        assert(all[i] == i);
        assert(all.contains(i));
        assert(all.to_multiset().count(i) > 0);
    }
    assert(all.no_duplicates());
    all.lemma_multiset_has_no_duplicates();
    order.lemma_multiset_has_no_duplicates_conv();
}

/// A permutation of the indices has the same members as the indices.
pub proof fn lemma_permutation_has_same_members(order: Seq<int>, n: nat)
    requires
        is_permutation(order, n),
    ensures
        order.to_multiset() == indices(n).to_multiset(),
{
    let all = indices(n);
    order.to_multiset_ensures();
    all.to_multiset_ensures();
    assert(all.no_duplicates());
    all.lemma_multiset_has_no_duplicates();
    order.lemma_multiset_has_no_duplicates();
    assert forall|x: int| order.to_multiset().count(x) == all.to_multiset().count(x) by {
        if 0 <= x < n {
            assert(all[x] == x);
            assert(all.contains(x));
            assert(order.contains(x));
            assert(all.to_multiset().count(x) > 0);
            assert(order.to_multiset().count(x) > 0);
        } else {
            assert(!all.contains(x));
            assert(!order.contains(x)) by {
                if order.contains(x) {
                    let k = choose|k: int| 0 <= k < order.len() && order[k] == x;
                    assert(0 <= order[k] < n);
                }
            }
            assert(!(all.to_multiset().count(x) > 0));
            assert(!(order.to_multiset().count(x) > 0));
        }
    }
    assert(order.to_multiset() =~= all.to_multiset());
}

/// The order of service of admissible elements is a permutation of their
/// indices in which each index is served before those that follow it.
pub proof fn lemma_serving_order(weights: Seq<int>, minima: Seq<int>)
    requires
        admissible(weights, minima),
    ensures
        is_permutation(serving_order(weights, minima), weights.len()),
        forall|a: int, b: int|
            0 <= a < b < weights.len() ==> served_before(
                weights,
                minima,
                #[trigger] serving_order(weights, minima)[a],
                #[trigger] serving_order(weights, minima)[b],
            ),
{
    let r = not_after(weights, minima);
    let order = serving_order(weights, minima);
    lemma_not_after_is_total_ordering(weights, minima);
    indices(weights.len()).lemma_sort_by_ensures(r);
    lemma_same_members_is_permutation(order, weights.len());
    assert forall|a: int, b: int| 0 <= a < b < weights.len() implies served_before(
        weights,
        minima,
        #[trigger] order[a],
        #[trigger] order[b],
    ) by {
        assert(r(order[a], order[b]));
    }
}

/// A permutation of the indices in which each index is served before those
/// that follow it is the order of service.
pub proof fn lemma_serving_order_is_unique(weights: Seq<int>, minima: Seq<int>, order: Seq<int>)
    requires
        admissible(weights, minima),
        is_permutation(order, weights.len()),
        forall|a: int, b: int|
            0 <= a < b < weights.len() ==> served_before(
                weights,
                minima,
                #[trigger] order[a],
                #[trigger] order[b],
            ),
    ensures
        order == serving_order(weights, minima),
{
    let r = not_after(weights, minima);
    lemma_not_after_is_total_ordering(weights, minima);
    indices(weights.len()).lemma_sort_by_ensures(r);
    lemma_permutation_has_same_members(order, weights.len());
    lemma_sorted_unique(order, serving_order(weights, minima), r);
}

/// Computes the order of service.
pub fn serving_order_of(weights: &[u64], minima: &[u64]) -> (order: Vec<usize>)
    requires
        weights.len() == minima.len(),
    ensures
        positions(order@) == serving_order(ints(weights@), ints(minima@)),
        is_permutation(positions(order@), weights@.len()),
{
    let n: usize = weights.len();
    let mut all: Vec<usize> = Vec::new();
    let mut i: usize = 0;
    while i < n
        invariant
            i <= n,
            all.len() == i,
            forall|k: int| 0 <= k < i ==> all[k] == k,
        decreases n - i,
    {
        all.push(i);
        i = i + 1;
    }
    assert(positions(all@) =~= indices(n as nat));
    let order = sort_run(weights, minima, all);
    proof {
        let r = not_after(ints(weights@), ints(minima@));
        lemma_not_after_is_total_ordering(ints(weights@), ints(minima@));
        indices(n as nat).lemma_sort_by_ensures(r);
        lemma_sorted_unique(positions(order@), serving_order(ints(weights@), ints(minima@)), r);
        lemma_same_members_is_permutation(positions(order@), n as nat);
    }
    order
}

} // verus!
