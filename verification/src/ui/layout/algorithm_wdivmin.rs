//! Weighted division with minima.
//!
//! A total is divided among elements that each carry a weight and a minimum.
//! The elements are served in the order of [`serving_order`]. Each is granted
//! the larger of its minimum and its proportional share of the space that is
//! left, the share being the space left times its weight over the weight of
//! all elements not yet served, rounded down. What it is granted is taken
//! from the space left, which never falls below zero.
//!
//! Where the weights that remain sum to zero, the share is zero: elements of
//! weight zero receive exactly their minimum, and so does every element when
//! all weights are zero.
//!
//! Sizes are whole units. A caller that lays out in fractions of a pixel
//! chooses the unit accordingly.

use vstd::prelude::*;
use super::laws::lemma_division_exceeds_total_with_minima;
use super::order::{
    admissible,
    ints,
    is_permutation,
    positions,
    serving_order,
    serving_order_of,
};

verus! {

/// The sum of a sequence.
pub open spec fn total_of(s: Seq<int>) -> int
    decreases s.len(),
{
    if s.len() == 0 {
        0
    } else {
        total_of(s.drop_last()) + s.last()
    }
}

/// The values of the elements, arranged in the given order.
pub open spec fn arranged(values: Seq<int>, order: Seq<int>) -> Seq<int> {
    Seq::new(order.len(), |k: int| values[order[k]])
}

/// The proportional share of `space` for an element of weight `weight`, when
/// the elements not yet served weigh `remaining` together.
pub open spec fn share(space: int, weight: int, remaining: int) -> int {
    if remaining <= 0 {
        0
    } else {
        space * weight / remaining
    }
}

/// What an element is granted: its share, but no less than its minimum.
pub open spec fn granted(space: int, weight: int, minimum: int, remaining: int) -> int {
    let proportional = share(space, weight, remaining);
    if minimum >= proportional {
        minimum
    } else {
        proportional
    }
}

/// The weight of the elements at positions `k` and later of a queue.
pub open spec fn weight_from(queue_weights: Seq<int>, k: int) -> int {
    total_of(queue_weights) - total_of(queue_weights.take(k))
}

/// The space that is left when the elements at positions before `k` of a
/// queue have been served.
pub open spec fn space_before(
    total: int,
    queue_weights: Seq<int>,
    queue_minima: Seq<int>,
    k: int,
) -> int
    decreases k,
{
    if k <= 0 {
        total
    } else {
        let left = space_before(total, queue_weights, queue_minima, k - 1);
        let size = granted(
            left,
            queue_weights[k - 1],
            queue_minima[k - 1],
            weight_from(queue_weights, k - 1),
        );
        if left >= size {
            left - size
        } else {
            0
        }
    }
}

/// The size granted to the element at position `k` of a queue.
pub open spec fn size_at(total: int, queue_weights: Seq<int>, queue_minima: Seq<int>, k: int) -> int {
    granted(
        space_before(total, queue_weights, queue_minima, k),
        queue_weights[k],
        queue_minima[k],
        weight_from(queue_weights, k),
    )
}

/// The sizes that the weighted division grants, by element.
pub open spec fn division(total: int, weights: Seq<int>, minima: Seq<int>) -> Seq<int> {
    let order = serving_order(weights, minima);
    let queue_weights = arranged(weights, order);
    let queue_minima = arranged(minima, order);
    Seq::new(
        weights.len(),
        |i: int| size_at(total, queue_weights, queue_minima, order.index_of(i)),
    )
}

/// The sums of the prefixes of a sequence without negative members do not
/// decrease.
pub proof fn lemma_prefix_totals_grow(s: Seq<int>, a: int, b: int)
    requires
        forall|i: int| 0 <= i < s.len() ==> #[trigger] s[i] >= 0,
        0 <= a <= b <= s.len(),
    ensures
        0 <= total_of(s.take(a)) <= total_of(s.take(b)),
    decreases b,
{
    if b == 0 {
        assert(s.take(0).len() == 0);
    } else if a == b {
        lemma_prefix_totals_grow(s, 0, b - 1);
        assert(s.take(b).drop_last() =~= s.take(b - 1));
    } else {
        lemma_prefix_totals_grow(s, a, b - 1);
        assert(s.take(b).drop_last() =~= s.take(b - 1));
    }
}

/// A proportional share lies between zero and the space it is taken from.
pub proof fn lemma_share_bounds(space: int, weight: int, remaining: int)
    requires
        0 <= space,
        0 <= weight <= remaining,
    ensures
        0 <= share(space, weight, remaining) <= space,
{
    if remaining > 0 {
        assert(0 <= space * weight / remaining <= space) by (nonlinear_arith)
            requires
                0 <= space,
                0 <= weight <= remaining,
                remaining > 0,
        ;
    }
}

/// Divides `total` among elements with the given weights and minima.
///
/// Where the minima ask for more than the total, every element is still
/// granted its minimum, neither more nor less. The caller learns of it from
/// the sizes, which then and only then add up to more than the total.
///
/// It runs in O(n log n) for n elements.
pub fn wdivmin(total: u64, el_weights: &[u64], el_minima: &[u64]) -> (sizes: Vec<u64>)
    requires
        el_weights.len() == el_minima.len(),
    ensures
        sizes.len() == el_weights.len(),
        ints(sizes@) == division(total as int, ints(el_weights@), ints(el_minima@)),
        total_of(ints(sizes@)) > total <==> total_of(ints(el_minima@)) > total,
        total_of(ints(el_minima@)) > total ==> sizes@ == el_minima@,
{
    let el_count: usize = el_weights.len();
    let order = serving_order_of(el_weights, el_minima);
    let ghost seq_order = positions(order@);
    let ghost queue_weights = arranged(ints(el_weights@), seq_order);
    let ghost queue_minima = arranged(ints(el_minima@), seq_order);

    let mut weight_left: u128 = 0;
    let mut k: usize = 0;
    assert(queue_weights.take(0).len() == 0);
    while k < el_count
        invariant
            k <= el_count,
            el_count == el_weights.len(),
            order.len() == el_count,
            seq_order == positions(order@),
            is_permutation(seq_order, el_count as nat),
            queue_weights == arranged(ints(el_weights@), seq_order),
            weight_left == total_of(queue_weights.take(k as int)),
            weight_left <= k * 0xffff_ffff_ffff_ffff,
        decreases el_count - k,
    {
        assert(0 <= seq_order[k as int] < el_count);
        let i: usize = order[k];
        assert(queue_weights.take(k + 1).drop_last() =~= queue_weights.take(k as int));
        assert(queue_weights.take(k + 1).last() == el_weights[i as int]);
        weight_left = weight_left + el_weights[i] as u128;
        k = k + 1;
    }
    assert(queue_weights.take(el_count as int) =~= queue_weights);

    let mut sizes: Vec<u64> = vec![0u64; el_count];
    let mut space_left: u64 = total;
    let mut k: usize = 0;
    assert(queue_weights.take(0).len() == 0);
    while k < el_count
        invariant
            k <= el_count,
            el_count == el_weights.len(),
            el_count == el_minima.len(),
            order.len() == el_count,
            sizes.len() == el_count,
            seq_order == positions(order@),
            is_permutation(seq_order, el_count as nat),
            queue_weights == arranged(ints(el_weights@), seq_order),
            queue_minima == arranged(ints(el_minima@), seq_order),
            weight_left == weight_from(queue_weights, k as int),
            space_left == space_before(total as int, queue_weights, queue_minima, k as int),
            forall|j: int|
                0 <= j < k ==> sizes[#[trigger] seq_order[j]] == size_at(
                    total as int,
                    queue_weights,
                    queue_minima,
                    j,
                ),
        decreases el_count - k,
    {
        assert(0 <= seq_order[k as int] < el_count);
        let i: usize = order[k];
        let weight: u64 = el_weights[i];
        let minimum: u64 = el_minima[i];
        proof {
            assert(queue_weights[k as int] == weight);
            assert(queue_minima[k as int] == minimum);
            assert(forall|j: int| 0 <= j < queue_weights.len() ==> #[trigger] queue_weights[j] >= 0);
            lemma_prefix_totals_grow(queue_weights, k + 1, el_count as int);
            assert(queue_weights.take(el_count as int) =~= queue_weights);
            assert(queue_weights.take(k + 1).drop_last() =~= queue_weights.take(k as int));
            assert(weight <= weight_left);
            lemma_share_bounds(space_left as int, weight as int, weight_left as int);
        }
        let proportional: u64 = if weight_left == 0 {
            0
        } else {
            assert(space_left as u128 * weight as u128 <= 0xffff_ffff_ffff_ffff
                * 0xffff_ffff_ffff_ffff) by (nonlinear_arith)
                requires
                    space_left <= 0xffff_ffff_ffff_ffff,
                    weight <= 0xffff_ffff_ffff_ffff,
            ;
            (space_left as u128 * weight as u128 / weight_left) as u64
        };
        let size: u64 = if minimum >= proportional {
            minimum
        } else {
            proportional
        };
        assert(size == size_at(total as int, queue_weights, queue_minima, k as int));
        let ghost before = sizes@;
        sizes.set(i, size);
        space_left = if space_left >= size {
            space_left - size
        } else {
            0
        };
        weight_left = weight_left - weight as u128;
        proof {
            assert forall|j: int| 0 <= j < k + 1 implies sizes[#[trigger] seq_order[j]] == size_at(
                total as int,
                queue_weights,
                queue_minima,
                j,
            ) by {
                if j < k {
                    assert(seq_order[j] != seq_order[k as int]);
                    assert(before[seq_order[j]] == size_at(
                        total as int,
                        queue_weights,
                        queue_minima,
                        j,
                    ));
                }
            }
        }
        k = k + 1;
    }
    proof {
        let expected = division(total as int, ints(el_weights@), ints(el_minima@));
        assert forall|i: int| 0 <= i < el_count implies ints(sizes@)[i] == expected[i] by {
            assert(seq_order.contains(i));
            let j = seq_order.index_of(i);
            assert(0 <= j < el_count && seq_order[j] == i);
        }
        assert(ints(sizes@) =~= expected);
        lemma_division_exceeds_total_with_minima(
            total as int,
            ints(el_weights@),
            ints(el_minima@),
        );
        if total_of(ints(el_minima@)) > total {
            assert forall|i: int| 0 <= i < el_count implies sizes@[i] == el_minima@[i] by {
                assert(ints(sizes@)[i] == ints(el_minima@)[i]);
            }
            assert(sizes@ =~= el_minima@);
        }
    }
    sizes
}

} // verus!
