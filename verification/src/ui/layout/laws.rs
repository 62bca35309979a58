//! What holds of every weighted division.

use vstd::prelude::*;
use super::algorithm_wdivmin::{
    arranged,
    division,
    granted,
    lemma_prefix_totals_grow,
    lemma_share_bounds,
    share,
    size_at,
    space_before,
    total_of,
    weight_from,
};
use super::order::{
    admissible,
    is_permutation,
    lemma_serving_order,
    lemma_serving_order_is_unique,
    ratio_exceeds,
    served_before,
    serving_order,
};

verus! {

/// Taking one more member into a prefix adds that member to its sum.
pub proof fn lemma_total_of_next(s: Seq<int>, k: int)
    requires
        0 <= k < s.len(),
    ensures
        total_of(s.take(k + 1)) == total_of(s.take(k)) + s[k],
{
    assert(s.take(k + 1).drop_last() =~= s.take(k));
}

/// Removing a member from a sequence takes it from the sum.
pub proof fn lemma_total_of_remove(s: Seq<int>, p: int)
    requires
        0 <= p < s.len(),
    ensures
        total_of(s) == total_of(s.remove(p)) + s[p],
    decreases s.len(),
{
    if p == s.len() - 1 {
        assert(s.remove(p) =~= s.drop_last());
    } else {
        lemma_total_of_remove(s.drop_last(), p);
        assert(s.remove(p).drop_last() =~= s.drop_last().remove(p));
        assert(s.remove(p).last() == s.last());
    }
}

/// The sum of a sequence does not depend on the order of its members.
pub proof fn lemma_total_of_arranged(values: Seq<int>, order: Seq<int>)
    requires
        is_permutation(order, values.len()),
    ensures
        total_of(arranged(values, order)) == total_of(values),
    decreases values.len(),
{
    let n = values.len() as int;
    if n == 0 {
        assert(arranged(values, order).len() == 0);
    } else {
        assert(order.contains(n - 1));
        let p = choose|p: int| 0 <= p < order.len() && order[p] == n - 1;
        let rest = order.remove(p);
        let fewer = values.drop_last();
        assert forall|k: int| 0 <= k < n - 1 implies 0 <= #[trigger] rest[k] < n - 1 by {
            if k < p {
                assert(rest[k] == order[k]);
                assert(order[k] != order[p]);
            } else {
                assert(rest[k] == order[k + 1]);
                assert(order[k + 1] != order[p]);
            }
        }
        assert forall|a: int, b: int| 0 <= a < rest.len() && 0 <= b < rest.len() && a != b implies rest[a]
            != rest[b] by {
            let aa = if a < p { a } else { a + 1 };
            let bb = if b < p { b } else { b + 1 };
            assert(rest[a] == order[aa] && rest[b] == order[bb]);
        }
        assert forall|i: int| 0 <= i < n - 1 implies #[trigger] rest.contains(i) by {
            assert(order.contains(i));
            let q = choose|q: int| 0 <= q < order.len() && order[q] == i;
            if q < p {
                assert(rest[q] == i);
            } else {
                assert(rest[q - 1] == i);
            }
        }
        assert(is_permutation(rest, fewer.len()));
        lemma_total_of_arranged(fewer, rest);
        assert(arranged(values, order).remove(p) =~= arranged(fewer, rest));
        lemma_total_of_remove(arranged(values, order), p);
    }
}

/// In the order of service no element has a smaller ratio than one that
/// follows it.
pub open spec fn ratios_descend(queue_weights: Seq<int>, queue_minima: Seq<int>) -> bool {
    forall|a: int, b: int|
        0 <= a < b < queue_weights.len() ==> !ratio_exceeds(
            #[trigger] queue_weights[b],
            queue_minima[b],
            #[trigger] queue_weights[a],
            queue_minima[a],
        )
}

/// The sizes granted along a queue, by position.
pub open spec fn queue_sizes(total: int, queue_weights: Seq<int>, queue_minima: Seq<int>) -> Seq<
    int,
> {
    Seq::new(queue_weights.len(), |k: int| size_at(total, queue_weights, queue_minima, k))
}

/// Where each minimum after position `from`, scaled by `weight`, stays within
/// `bound` times its own weight, the minima between `from` and `to` together
/// do so too.
proof fn lemma_scaled_totals(
    queue_weights: Seq<int>,
    queue_minima: Seq<int>,
    from: int,
    to: int,
    weight: int,
    bound: int,
)
    requires
        queue_weights.len() == queue_minima.len(),
        0 <= from <= to <= queue_weights.len(),
        forall|j: int|
            from <= j < to ==> #[trigger] queue_minima[j] * weight <= bound * queue_weights[j],
    ensures
        (total_of(queue_minima.take(to)) - total_of(queue_minima.take(from))) * weight <= bound * (
        total_of(queue_weights.take(to)) - total_of(queue_weights.take(from))),
    decreases to - from,
{
    if to == from {
        assert(0 * weight == 0 && bound * 0 == 0) by (nonlinear_arith);
    } else {
        lemma_scaled_totals(queue_weights, queue_minima, from, to - 1, weight, bound);
        lemma_total_of_next(queue_minima, to - 1);
        lemma_total_of_next(queue_weights, to - 1);
        let m_sum = total_of(queue_minima.take(to - 1)) - total_of(queue_minima.take(from));
        let w_sum = total_of(queue_weights.take(to - 1)) - total_of(queue_weights.take(from));
        let m = queue_minima[to - 1];
        let w = queue_weights[to - 1];
        assert(m * weight <= bound * w);
        assert((m_sum + m) * weight <= bound * (w_sum + w)) by (nonlinear_arith)
            requires
                m_sum * weight <= bound * w_sum,
                m * weight <= bound * w,
        ;
    }
}

/// Along a queue whose ratios descend and whose minima fit into the total,
/// the space that is left always covers the minima not yet served, and what
/// was granted and what is left add up to the total.
proof fn lemma_queue_keeps_room(
    total: int,
    queue_weights: Seq<int>,
    queue_minima: Seq<int>,
    k: int,
)
    requires
        admissible(queue_weights, queue_minima),
        ratios_descend(queue_weights, queue_minima),
        total_of(queue_minima) <= total,
        0 <= k <= queue_weights.len(),
    ensures
        space_before(total, queue_weights, queue_minima, k) >= total_of(queue_minima) - total_of(
            queue_minima.take(k),
        ),
        total_of(queue_sizes(total, queue_weights, queue_minima).take(k)) + space_before(
            total,
            queue_weights,
            queue_minima,
            k,
        ) == total,
    decreases k,
{
    let n = queue_weights.len() as int;
    let sizes = queue_sizes(total, queue_weights, queue_minima);
    if k == 0 {
        assert(queue_minima.take(0).len() == 0);
        assert(sizes.take(0).len() == 0);
    } else {
        let at = k - 1;
        lemma_queue_keeps_room(total, queue_weights, queue_minima, at);
        let space = space_before(total, queue_weights, queue_minima, at);
        let weight = queue_weights[at];
        let minimum = queue_minima[at];
        let remaining = weight_from(queue_weights, at);
        let size = granted(space, weight, minimum, remaining);
        assert(size == sizes[at]);
        lemma_total_of_next(sizes, at);
        lemma_total_of_next(queue_minima, at);
        lemma_total_of_next(queue_weights, at);
        lemma_prefix_totals_grow(queue_minima, k, n);
        lemma_prefix_totals_grow(queue_weights, k, n);
        assert(queue_minima.take(n) =~= queue_minima);
        assert(queue_weights.take(n) =~= queue_weights);
        let later_minima = total_of(queue_minima) - total_of(queue_minima.take(k));
        let later_weight = total_of(queue_weights) - total_of(queue_weights.take(k));
        assert(remaining == weight + later_weight);
        assert(space >= minimum + later_minima);
        lemma_share_bounds(space, weight, remaining);
        let proportional = share(space, weight, remaining);
        if minimum < proportional {
            assert(remaining > 0);
            assert(weight > 0) by (nonlinear_arith)
                requires
                    remaining > 0,
                    weight >= 0,
                    space >= 0,
                    space * weight / remaining > 0,
            ;
            assert(proportional * remaining <= space * weight) by (nonlinear_arith)
                requires
                    remaining > 0,
                    proportional == space * weight / remaining,
            ;
            assert forall|j: int| k <= j < n implies #[trigger] queue_minima[j] * weight
                <= proportional * queue_weights[j] by {
                assert(!ratio_exceeds(queue_weights[j], queue_minima[j], queue_weights[at], minimum));
                let wj = queue_weights[j];
                let mj = queue_minima[j];
                assert(wj > 0);
                assert(mj * weight <= minimum * wj);
                assert(mj * weight <= proportional * wj) by (nonlinear_arith)
                    requires
                        mj * weight <= minimum * wj,
                        minimum < proportional,
                        wj > 0,
                ;
            }
            lemma_scaled_totals(queue_weights, queue_minima, k, n, weight, proportional);
            assert(later_minima + proportional <= space) by (nonlinear_arith)
                requires
                    later_minima * weight <= proportional * later_weight,
                    proportional * (weight + later_weight) <= space * weight,
                    weight > 0,
            ;
        }
    }
}

/// **Conservation.** Where the minima fit into the total and some weight is
/// positive, the sizes granted add up to the total.
pub proof fn lemma_division_conserves_total(total: int, weights: Seq<int>, minima: Seq<int>)
    requires
        admissible(weights, minima),
        total_of(minima) <= total,
        total_of(weights) > 0,
    ensures
        total_of(division(total, weights, minima)) == total,
{
    let n = weights.len() as int;
    let order = serving_order(weights, minima);
    let queue_weights = arranged(weights, order);
    let queue_minima = arranged(minima, order);
    let sizes = queue_sizes(total, queue_weights, queue_minima);
    let granted_sizes = division(total, weights, minima);
    lemma_serving_order(weights, minima);
    lemma_total_of_arranged(weights, order);
    lemma_total_of_arranged(minima, order);
    assert(ratios_descend(queue_weights, queue_minima)) by {
        assert forall|a: int, b: int| 0 <= a < b < n implies !ratio_exceeds(
            #[trigger] queue_weights[b],
            queue_minima[b],
            #[trigger] queue_weights[a],
            queue_minima[a],
        ) by {
            assert(served_before(weights, minima, order[a], order[b]));
        }
    }
    assert(arranged(granted_sizes, order) =~= sizes) by {
        assert forall|k: int| 0 <= k < n implies arranged(granted_sizes, order)[k] == sizes[k] by {
            assert(order.contains(order[k]));
            let j = order.index_of(order[k]);
            assert(order[j] == order[k]);
        }
    }
    lemma_total_of_arranged(granted_sizes, order);
    if n == 0 {
        assert(weights.len() == 0);
    } else {
        let last = n - 1;
        lemma_queue_keeps_room(total, queue_weights, queue_minima, last);
        lemma_queue_keeps_room(total, queue_weights, queue_minima, n);
        lemma_total_of_next(queue_weights, last);
        lemma_total_of_next(queue_minima, last);
        assert(queue_weights.take(n) =~= queue_weights);
        assert(queue_minima.take(n) =~= queue_minima);
        assert(sizes.take(n) =~= sizes);
        let space = space_before(total, queue_weights, queue_minima, last);
        let weight = queue_weights[last];
        assert(weight_from(queue_weights, last) == weight);
        if weight == 0 {
            lemma_positive_total_has_positive_member(queue_weights);
            let p = choose|p: int| 0 <= p < queue_weights.len() && queue_weights[p] > 0;
            assert(ratio_exceeds(queue_weights[last], queue_minima[last], queue_weights[p], queue_minima[p]));
        }
        assert(share(space, weight, weight) == space) by (nonlinear_arith)
            requires
                weight > 0,
        ;
    }
}

/// A sequence with a positive sum has a positive member.
pub proof fn lemma_positive_total_has_positive_member(s: Seq<int>)
    requires
        total_of(s) > 0,
    ensures
        exists|p: int| 0 <= p < s.len() && s[p] > 0,
    decreases s.len(),
{
    if s.len() > 0 {
        if s.last() > 0 {
            assert(s[s.len() - 1] > 0);
        } else {
            lemma_positive_total_has_positive_member(s.drop_last());
            let p = choose|p: int| 0 <= p < s.drop_last().len() && s.drop_last()[p] > 0;
            assert(s[p] > 0);
        }
    }
}

/// **Minima respected.** Every element is granted at least its minimum,
/// whether or not the minima fit into the total.
pub proof fn lemma_division_respects_minima(
    total: int,
    weights: Seq<int>,
    minima: Seq<int>,
    i: int,
)
    requires
        admissible(weights, minima),
        0 <= i < weights.len(),
    ensures
        division(total, weights, minima)[i] >= minima[i],
{
    let order = serving_order(weights, minima);
    lemma_serving_order(weights, minima);
    assert(order.contains(i));
    let j = order.index_of(i);
    assert(order[j] == i);
}

/// **Zero weights.** Where every weight is zero, every element is granted
/// exactly its minimum.
pub proof fn lemma_division_without_weights(
    total: int,
    weights: Seq<int>,
    minima: Seq<int>,
    i: int,
)
    requires
        admissible(weights, minima),
        forall|j: int| 0 <= j < weights.len() ==> #[trigger] weights[j] == 0,
        0 <= i < weights.len(),
    ensures
        division(total, weights, minima)[i] == minima[i],
{
    let order = serving_order(weights, minima);
    let queue_weights = arranged(weights, order);
    lemma_serving_order(weights, minima);
    assert(order.contains(i));
    let j = order.index_of(i);
    assert(order[j] == i);
    let space = space_before(total, queue_weights, arranged(minima, order), j);
    let remaining = weight_from(queue_weights, j);
    if remaining > 0 {
        assert(space * 0 / remaining == 0) by (nonlinear_arith)
            requires
                remaining > 0,
        ;
    }
}

/// No two elements have the same ratio of minimum to weight.
pub open spec fn ratios_differ(weights: Seq<int>, minima: Seq<int>) -> bool {
    forall|i: int, j: int|
        0 <= i < j < weights.len() ==> ratio_exceeds(
            #[trigger] weights[i],
            minima[i],
            #[trigger] weights[j],
            minima[j],
        ) || ratio_exceeds(weights[j], minima[j], weights[i], minima[i])
}

/// **Order invariance.** Where the elements are moved to other places, the
/// element that was at `i` to place `to[i]`, each is granted at its new place
/// what it was granted before, provided that no two elements have the same
/// ratio. Elements of the same ratio are served in index order, and which of
/// them receives the unit that a rounded share leaves over depends on that.
pub proof fn lemma_division_follows_elements(
    total: int,
    weights: Seq<int>,
    minima: Seq<int>,
    moved_weights: Seq<int>,
    moved_minima: Seq<int>,
    to: Seq<int>,
)
    requires
        admissible(weights, minima),
        ratios_differ(weights, minima),
        is_permutation(to, weights.len()),
        moved_weights.len() == weights.len(),
        moved_minima.len() == weights.len(),
        forall|i: int|
            0 <= i < weights.len() ==> moved_weights[#[trigger] to[i]] == weights[i]
                && moved_minima[to[i]] == minima[i],
    ensures
        forall|i: int|
            0 <= i < weights.len() ==> division(total, moved_weights, moved_minima)[#[trigger] to[i]]
                == division(total, weights, minima)[i],
{
    let n = weights.len() as int;
    let order = serving_order(weights, minima);
    lemma_serving_order(weights, minima);
    let moved_order = Seq::new(n as nat, |k: int| to[order[k]]);
    assert(admissible(moved_weights, moved_minima)) by {
        assert forall|p: int| 0 <= p < n implies #[trigger] moved_weights[p] >= 0 by {
            assert(to.contains(p));
            let i = choose|i: int| 0 <= i < to.len() && to[i] == p;
            assert(moved_weights[to[i]] == weights[i]);
            assert(weights[i] >= 0);
        }
        assert forall|p: int| 0 <= p < n implies #[trigger] moved_minima[p] >= 0 by {
            assert(to.contains(p));
            let i = choose|i: int| 0 <= i < to.len() && to[i] == p;
            assert(moved_minima[to[i]] == minima[i]);
            assert(minima[i] >= 0);
        }
    }
    assert(is_permutation(moved_order, n as nat)) by {
        assert forall|k: int| 0 <= k < n implies 0 <= #[trigger] moved_order[k] < n by {
            assert(0 <= order[k] < n);
            assert(0 <= to[order[k]] < n);
        }
        assert forall|a: int, b: int|
            0 <= a < moved_order.len() && 0 <= b < moved_order.len() && a != b implies moved_order[a]
            != moved_order[b] by {
            assert(0 <= order[a] < n && 0 <= order[b] < n);
            assert(order[a] != order[b]);
        }
        assert forall|p: int| 0 <= p < n implies #[trigger] moved_order.contains(p) by {
            assert(to.contains(p));
            let i = choose|i: int| 0 <= i < to.len() && to[i] == p;
            assert(order.contains(i));
            let k = choose|k: int| 0 <= k < order.len() && order[k] == i;
            assert(moved_order[k] == p);
        }
    }
    assert forall|a: int, b: int| 0 <= a < b < n implies served_before(
        moved_weights,
        moved_minima,
        #[trigger] moved_order[a],
        #[trigger] moved_order[b],
    ) by {
        let (i, j) = (order[a], order[b]);
        assert(0 <= i < n && 0 <= j < n && i != j);
        assert(served_before(weights, minima, i, j));
        assert(moved_weights[to[i]] == weights[i] && moved_minima[to[i]] == minima[i]);
        assert(moved_weights[to[j]] == weights[j] && moved_minima[to[j]] == minima[j]);
        if i < j {
            assert(ratio_exceeds(weights[i], minima[i], weights[j], minima[j]) || ratio_exceeds(
                weights[j],
                minima[j],
                weights[i],
                minima[i],
            ));
        } else {
            assert(ratio_exceeds(weights[j], minima[j], weights[i], minima[i]) || ratio_exceeds(
                weights[i],
                minima[i],
                weights[j],
                minima[j],
            ));
        }
    }
    lemma_serving_order_is_unique(moved_weights, moved_minima, moved_order);
    assert(arranged(moved_weights, moved_order) =~= arranged(weights, order)) by {
        assert forall|k: int| 0 <= k < n implies arranged(moved_weights, moved_order)[k]
            == arranged(weights, order)[k] by {
            assert(0 <= order[k] < n);
        }
    }
    assert(arranged(moved_minima, moved_order) =~= arranged(minima, order)) by {
        assert forall|k: int| 0 <= k < n implies arranged(moved_minima, moved_order)[k] == arranged(
            minima,
            order,
        )[k] by {
            assert(0 <= order[k] < n);
        }
    }
    assert forall|i: int| 0 <= i < n implies division(total, moved_weights, moved_minima)[#[trigger] to[i]]
        == division(total, weights, minima)[i] by {
        assert(0 <= to[i] < n);
        assert(order.contains(i));
        let k = order.index_of(i);
        assert(order[k] == i);
        assert(moved_order[k] == to[i]);
        assert(moved_order.contains(to[i]));
        let moved_k = moved_order.index_of(to[i]);
        assert(moved_order[moved_k] == to[i]);
        assert(moved_k == k);
    }
}

/// The sum of a sequence without negative members is zero only if every
/// member is.
pub proof fn lemma_zero_total(s: Seq<int>)
    requires
        forall|i: int| 0 <= i < s.len() ==> #[trigger] s[i] >= 0,
    ensures
        total_of(s) >= 0,
        total_of(s) == 0 <==> forall|i: int| 0 <= i < s.len() ==> #[trigger] s[i] == 0,
    decreases s.len(),
{
    if s.len() > 0 {
        let front = s.drop_last();
        lemma_zero_total(front);
        if total_of(s) == 0 {
            assert forall|i: int| 0 <= i < s.len() implies #[trigger] s[i] == 0 by {
                if i < s.len() - 1 {
                    assert(front[i] == 0);
                }
            }
        }
        if forall|i: int| 0 <= i < s.len() ==> #[trigger] s[i] == 0 {
            assert forall|i: int| 0 <= i < front.len() implies #[trigger] front[i] == 0 by {
                assert(s[i] == 0);
            }
        }
    }
}

/// In the order of service the ratios of admissible elements descend.
pub proof fn lemma_served_ratios_descend(weights: Seq<int>, minima: Seq<int>)
    requires
        admissible(weights, minima),
    ensures
        ratios_descend(
            arranged(weights, serving_order(weights, minima)),
            arranged(minima, serving_order(weights, minima)),
        ),
        admissible(
            arranged(weights, serving_order(weights, minima)),
            arranged(minima, serving_order(weights, minima)),
        ),
{
    let order = serving_order(weights, minima);
    let queue_weights = arranged(weights, order);
    let queue_minima = arranged(minima, order);
    lemma_serving_order(weights, minima);
    assert forall|a: int, b: int| 0 <= a < b < queue_weights.len() implies !ratio_exceeds(
        #[trigger] queue_weights[b],
        queue_minima[b],
        #[trigger] queue_weights[a],
        queue_minima[a],
    ) by {
        assert(served_before(weights, minima, order[a], order[b]));
    }
    assert forall|k: int| 0 <= k < queue_weights.len() implies #[trigger] queue_weights[k] >= 0 by {
        assert(0 <= order[k] < weights.len());
    }
    assert forall|k: int| 0 <= k < queue_minima.len() implies #[trigger] queue_minima[k] >= 0 by {
        assert(0 <= order[k] < weights.len());
    }
}

/// Along a queue whose ratios descend and whose minima ask for no less than
/// the total, every element is granted exactly its minimum, and the space
/// that is left never exceeds the minima not yet served.
proof fn lemma_queue_without_room(
    total: int,
    queue_weights: Seq<int>,
    queue_minima: Seq<int>,
    k: int,
)
    requires
        admissible(queue_weights, queue_minima),
        ratios_descend(queue_weights, queue_minima),
        0 <= total <= total_of(queue_minima),
        0 <= k <= queue_weights.len(),
    ensures
        0 <= space_before(total, queue_weights, queue_minima, k) <= total_of(queue_minima)
            - total_of(queue_minima.take(k)),
        k > 0 ==> size_at(total, queue_weights, queue_minima, k - 1) == queue_minima[k - 1],
    decreases k,
{
    let n = queue_weights.len() as int;
    if k == 0 {
        assert(queue_minima.take(0).len() == 0);
    } else {
        let at = k - 1;
        lemma_queue_without_room(total, queue_weights, queue_minima, at);
        let space = space_before(total, queue_weights, queue_minima, at);
        let weight = queue_weights[at];
        let minimum = queue_minima[at];
        let remaining = weight_from(queue_weights, at);
        lemma_total_of_next(queue_minima, at);
        lemma_total_of_next(queue_weights, at);
        lemma_prefix_totals_grow(queue_minima, k, n);
        lemma_prefix_totals_grow(queue_weights, k, n);
        assert(queue_minima.take(n) =~= queue_minima);
        assert(queue_weights.take(n) =~= queue_weights);
        let later = total_of(queue_minima) - total_of(queue_minima.take(at));
        assert(space <= later);
        if remaining > 0 {
            if weight == 0 {
                assert(space * 0 / remaining == 0) by (nonlinear_arith)
                    requires
                        remaining > 0,
                ;
            } else {
                assert forall|j: int| at <= j < n implies #[trigger] queue_minima[j] * weight
                    <= minimum * queue_weights[j] by {
                    if j > at {
                        assert(!ratio_exceeds(
                            queue_weights[j],
                            queue_minima[j],
                            queue_weights[at],
                            minimum,
                        ));
                    }
                }
                lemma_scaled_totals(queue_weights, queue_minima, at, n, weight, minimum);
                assert(space * weight / remaining <= minimum) by (nonlinear_arith)
                    requires
                        later * weight <= minimum * remaining,
                        0 <= space <= later,
                        weight > 0,
                        remaining > 0,
                ;
            }
        }
        assert(share(space, weight, remaining) <= minimum);
    }
}

/// **Over-constraint.** Where the minima ask for no less than the total,
/// every element is granted exactly its minimum, whatever the weights.
pub proof fn lemma_division_without_room(
    total: int,
    weights: Seq<int>,
    minima: Seq<int>,
    i: int,
)
    requires
        admissible(weights, minima),
        0 <= total <= total_of(minima),
        0 <= i < weights.len(),
    ensures
        division(total, weights, minima)[i] == minima[i],
{
    let order = serving_order(weights, minima);
    let queue_weights = arranged(weights, order);
    let queue_minima = arranged(minima, order);
    lemma_serving_order(weights, minima);
    lemma_served_ratios_descend(weights, minima);
    lemma_total_of_arranged(minima, order);
    assert(order.contains(i));
    let j = order.index_of(i);
    assert(order[j] == i);
    lemma_queue_without_room(total, queue_weights, queue_minima, j + 1);
}

/// **Over-constraint shows.** The sizes add up to more than the total if and
/// only if the minima do, and then they are the minima. So a caller that is
/// handed bare sizes learns that the minima did not fit by adding them up.
pub proof fn lemma_division_exceeds_total_with_minima(
    total: int,
    weights: Seq<int>,
    minima: Seq<int>,
)
    requires
        admissible(weights, minima),
        0 <= total,
    ensures
        total_of(division(total, weights, minima)) > total <==> total_of(minima) > total,
        total_of(minima) >= total ==> division(total, weights, minima) == minima,
        total_of(minima) <= total && total_of(weights) > 0 ==> total_of(
            division(total, weights, minima),
        ) == total,
        total_of(minima) <= total && total_of(weights) == 0 ==> division(total, weights, minima)
            == minima,
{
    let sizes = division(total, weights, minima);
    if total_of(minima) >= total {
        assert forall|i: int| 0 <= i < weights.len() implies sizes[i] == minima[i] by {
            lemma_division_without_room(total, weights, minima, i);
        }
        assert(sizes =~= minima);
    } else {
        lemma_zero_total(weights);
        if total_of(weights) > 0 {
            lemma_division_conserves_total(total, weights, minima);
        } else {
            assert forall|i: int| 0 <= i < weights.len() implies sizes[i] == minima[i] by {
                lemma_division_without_weights(total, weights, minima, i);
            }
            assert(sizes =~= minima);
        }
    }
}

/// The space that is left is never negative and never more than the total.
pub proof fn lemma_space_stays_within(
    total: int,
    queue_weights: Seq<int>,
    queue_minima: Seq<int>,
    k: int,
)
    requires
        admissible(queue_weights, queue_minima),
        0 <= total,
        0 <= k <= queue_weights.len(),
    ensures
        0 <= space_before(total, queue_weights, queue_minima, k) <= total,
    decreases k,
{
    if k > 0 {
        lemma_space_stays_within(total, queue_weights, queue_minima, k - 1);
        assert(queue_minima[k - 1] >= 0);
    }
}

/// **Bounds.** Every element is granted at least its minimum, and no more
/// than its minimum or the total, whichever is larger.
pub proof fn lemma_division_within_bounds(
    total: int,
    weights: Seq<int>,
    minima: Seq<int>,
    i: int,
)
    requires
        admissible(weights, minima),
        0 <= total,
        0 <= i < weights.len(),
    ensures
        minima[i] <= division(total, weights, minima)[i],
        division(total, weights, minima)[i] <= minima[i] || division(total, weights, minima)[i]
            <= total,
{
    let n = weights.len() as int;
    let order = serving_order(weights, minima);
    let queue_weights = arranged(weights, order);
    let queue_minima = arranged(minima, order);
    lemma_serving_order(weights, minima);
    lemma_served_ratios_descend(weights, minima);
    assert(order.contains(i));
    let j = order.index_of(i);
    assert(order[j] == i);
    lemma_space_stays_within(total, queue_weights, queue_minima, j);
    let space = space_before(total, queue_weights, queue_minima, j);
    let remaining = weight_from(queue_weights, j);
    lemma_total_of_next(queue_weights, j);
    lemma_prefix_totals_grow(queue_weights, j + 1, n);
    assert(queue_weights.take(n) =~= queue_weights);
    if remaining > 0 {
        lemma_share_bounds(space, queue_weights[j], remaining);
    }
}

/// **Order invariance, for every input.** Where the elements are moved to
/// other places, the element that was at `i` to place `to[i]`, what it is
/// granted at its new place and what it was granted before both lie between
/// its minimum and the larger of its minimum and the total. So the two
/// differ by no more than the total exceeds the minimum, also where
/// elements have the same ratio.
pub proof fn lemma_division_of_moved_elements(
    total: int,
    weights: Seq<int>,
    minima: Seq<int>,
    moved_weights: Seq<int>,
    moved_minima: Seq<int>,
    to: Seq<int>,
    i: int,
)
    requires
        admissible(weights, minima),
        0 <= total,
        is_permutation(to, weights.len()),
        moved_weights.len() == weights.len(),
        moved_minima.len() == weights.len(),
        forall|i: int|
            0 <= i < weights.len() ==> moved_weights[#[trigger] to[i]] == weights[i]
                && moved_minima[to[i]] == minima[i],
        0 <= i < weights.len(),
    ensures
        total <= minima[i] ==> division(total, moved_weights, moved_minima)[to[i]] == division(
            total,
            weights,
            minima,
        )[i],
        total > minima[i] ==> -(total - minima[i]) <= division(
            total,
            moved_weights,
            moved_minima,
        )[to[i]] - division(total, weights, minima)[i] <= total - minima[i],
{
    lemma_moved_elements_admissible(weights, minima, moved_weights, moved_minima, to);
    assert(0 <= to[i] < weights.len());
    lemma_division_within_bounds(total, weights, minima, i);
    lemma_division_within_bounds(total, moved_weights, moved_minima, to[i]);
}

/// Elements that were moved are as admissible as they were.
pub proof fn lemma_moved_elements_admissible(
    weights: Seq<int>,
    minima: Seq<int>,
    moved_weights: Seq<int>,
    moved_minima: Seq<int>,
    to: Seq<int>,
)
    requires
        admissible(weights, minima),
        is_permutation(to, weights.len()),
        moved_weights.len() == weights.len(),
        moved_minima.len() == weights.len(),
        forall|i: int|
            0 <= i < weights.len() ==> moved_weights[#[trigger] to[i]] == weights[i]
                && moved_minima[to[i]] == minima[i],
    ensures
        admissible(moved_weights, moved_minima),
        total_of(moved_weights) == total_of(weights),
        total_of(moved_minima) == total_of(minima),
{
    let n = weights.len() as int;
    assert forall|p: int| 0 <= p < n implies #[trigger] moved_weights[p] >= 0 by {
        assert(to.contains(p));
        let i = choose|i: int| 0 <= i < to.len() && to[i] == p;
        assert(moved_weights[to[i]] == weights[i]);
        assert(weights[i] >= 0);
    }
    assert forall|p: int| 0 <= p < n implies #[trigger] moved_minima[p] >= 0 by {
        assert(to.contains(p));
        let i = choose|i: int| 0 <= i < to.len() && to[i] == p;
        assert(moved_minima[to[i]] == minima[i]);
        assert(minima[i] >= 0);
    }
    assert(arranged(moved_weights, to) =~= weights) by {
        assert forall|k: int| 0 <= k < n implies arranged(moved_weights, to)[k] == weights[k] by {
            assert(moved_weights[to[k]] == weights[k]);
        }
    }
    assert(arranged(moved_minima, to) =~= minima) by {
        assert forall|k: int| 0 <= k < n implies arranged(moved_minima, to)[k] == minima[k] by {
            assert(moved_minima[to[k]] == minima[k]);
        }
    }
    lemma_total_of_arranged(moved_weights, to);
    lemma_total_of_arranged(moved_minima, to);
}

/// One step of a division without minima: where the level of the space
/// that is left, which is the space over the weight not yet served, is no
/// lower than that of the total and less than `at` units of weight higher,
/// the share `quotient` that is rounded down lies less than one unit below
/// and no more than `at` units above the share of the total, and the level
/// after it is no lower and less than one more unit higher.
proof fn lemma_share_step(
    total: int,
    whole: int,
    space: int,
    remaining: int,
    weight: int,
    quotient: int,
    at: int,
)
    requires
        whole > 0,
        remaining > 0,
        0 <= weight <= remaining,
        0 <= space,
        0 <= total,
        0 <= at,
        quotient * remaining <= space * weight,
        quotient * remaining > space * weight - remaining,
        total * remaining <= space * whole,
        space * whole <= total * remaining + at * whole,
    ensures
        total * (remaining - weight) <= (space - quotient) * whole,
        (space - quotient) * whole <= total * (remaining - weight) + (at + 1) * whole,
        total * weight - whole < quotient * whole,
        quotient * whole <= total * weight + at * whole,
{
    let rest = remaining - weight;
    // The level does not fall.
    assert((space - quotient) * whole * remaining >= total * rest * remaining) by (nonlinear_arith)
        requires
            quotient * remaining <= space * weight,
            total * remaining <= space * whole,
            rest == remaining - weight,
            rest >= 0,
            whole > 0,
            space >= 0,
    {
        assert((space - quotient) * whole * remaining == space * whole * remaining - (quotient
            * remaining) * whole);
        assert((quotient * remaining) * whole <= (space * weight) * whole);
        assert(space * whole * remaining - (space * weight) * whole == (space * whole) * rest);
        assert((space * whole) * rest >= (total * remaining) * rest);
    }
    assert((space - quotient) * whole >= total * rest) by (nonlinear_arith)
        requires
            (space - quotient) * whole * remaining >= total * rest * remaining,
            remaining > 0,
    ;
    lemma_share_step_above(total, whole, space, remaining, weight, quotient, at);
    // The share is less than one unit below that of the total.
    assert((quotient * whole) * remaining > (total * weight - whole) * remaining)
        by (nonlinear_arith)
        requires
            quotient * remaining > space * weight - remaining,
            total * remaining <= space * whole,
            whole > 0,
            weight >= 0,
    {
        assert((quotient * remaining) * whole > (space * weight - remaining) * whole);
        assert((space * whole) * weight >= (total * remaining) * weight);
    }
    assert(quotient * whole > total * weight - whole) by (nonlinear_arith)
        requires
            (quotient * whole) * remaining > (total * weight - whole) * remaining,
            remaining > 0,
    ;
}

/// Along a queue without minima the level of the space that is left rises
/// by less than one unit of weight with each element served, and each
/// element is granted its share of the total, less than one unit less and no
/// more than one unit more for each element served before it.
proof fn lemma_queue_shares(total: int, queue_weights: Seq<int>, queue_minima: Seq<int>, k: int)
    requires
        admissible(queue_weights, queue_minima),
        forall|j: int| 0 <= j < queue_minima.len() ==> #[trigger] queue_minima[j] == 0,
        0 <= total,
        total_of(queue_weights) > 0,
        0 <= k <= queue_weights.len(),
    ensures
        0 <= space_before(total, queue_weights, queue_minima, k),
        total * weight_from(queue_weights, k) <= space_before(
            total,
            queue_weights,
            queue_minima,
            k,
        ) * total_of(queue_weights),
        space_before(total, queue_weights, queue_minima, k) * total_of(queue_weights) <= total
            * weight_from(queue_weights, k) + k * total_of(queue_weights),
        k > 0 ==> total * queue_weights[k - 1] - total_of(queue_weights) < size_at(
            total,
            queue_weights,
            queue_minima,
            k - 1,
        ) * total_of(queue_weights) <= total * queue_weights[k - 1] + (k - 1) * total_of(
            queue_weights,
        ),
    decreases k,
{
    let n = queue_weights.len() as int;
    let whole = total_of(queue_weights);
    lemma_space_stays_within(total, queue_weights, queue_minima, k);
    if k == 0 {
        assert(queue_weights.take(0).len() == 0);
        assert(0 * whole == 0) by (nonlinear_arith);
    } else {
        let at = k - 1;
        lemma_queue_shares(total, queue_weights, queue_minima, at);
        lemma_space_stays_within(total, queue_weights, queue_minima, at);
        let space = space_before(total, queue_weights, queue_minima, at);
        let weight = queue_weights[at];
        let remaining = weight_from(queue_weights, at);
        lemma_total_of_next(queue_weights, at);
        lemma_prefix_totals_grow(queue_weights, k, n);
        assert(queue_weights.take(n) =~= queue_weights);
        assert(queue_minima[at] == 0);
        assert(0 <= weight <= remaining);
        if remaining > 0 {
            let quotient = space * weight / remaining;
            assert(quotient * remaining <= space * weight && quotient * remaining > space * weight
                - remaining && quotient >= 0) by (nonlinear_arith)
                requires
                    quotient == space * weight / remaining,
                    remaining > 0,
                    space >= 0,
                    weight >= 0,
            ;
            lemma_share_bounds(space, weight, remaining);
            assert(size_at(total, queue_weights, queue_minima, at) == quotient);
            lemma_share_step(total, whole, space, remaining, weight, quotient, at);
        } else {
            assert(size_at(total, queue_weights, queue_minima, at) == 0);
            assert(total * 0 == 0 && 0 * whole == 0 && at * whole >= 0 && (at + 1) * whole >= at
                * whole) by (nonlinear_arith)
                requires
                    whole > 0,
                    at >= 0,
            ;
        }
    }
}

/// **Shares without minima.** Where no element has a minimum and every
/// weight is positive, each element is granted its share of the total by
/// weight, rounded: less than one unit less, and no more than one unit more
/// for each element before it, which is where the units go that rounding
/// down has left over.
pub proof fn lemma_shares_without_minima(total: int, weights: Seq<int>, minima: Seq<int>, i: int)
    requires
        admissible(weights, minima),
        forall|j: int| 0 <= j < weights.len() ==> #[trigger] weights[j] > 0,
        forall|j: int| 0 <= j < minima.len() ==> #[trigger] minima[j] == 0,
        0 <= total,
        0 <= i < weights.len(),
    ensures
        total * weights[i] - total_of(weights) < division(total, weights, minima)[i] * total_of(
            weights,
        ) <= total * weights[i] + i * total_of(weights),
{
    let n = weights.len();
    let order = super::order::indices(n);
    assert(is_permutation(order, n)) by {
        assert forall|j: int| 0 <= j < n implies #[trigger] order.contains(j) by {
            assert(order[j] == j);
        }
    }
    assert forall|a: int, b: int| 0 <= a < b < n implies served_before(
        weights,
        minima,
        #[trigger] order[a],
        #[trigger] order[b],
    ) by {
        assert(weights[a] > 0 && weights[b] > 0);
        assert(minima[a] == 0 && minima[b] == 0);
        assert(0 * weights[a] == 0 && 0 * weights[b] == 0) by (nonlinear_arith);
    }
    lemma_serving_order_is_unique(weights, minima, order);
    assert(arranged(weights, order) =~= weights);
    assert(arranged(minima, order) =~= minima);
    assert(order.contains(i));
    let j = order.index_of(i);
    assert(order[j] == i);
    lemma_positive_weights_add_up(weights);
    lemma_queue_shares(total, weights, minima, i + 1);
}

/// Positive weights add up to a positive sum.
pub proof fn lemma_positive_weights_add_up(weights: Seq<int>)
    requires
        weights.len() > 0,
        forall|j: int| 0 <= j < weights.len() ==> #[trigger] weights[j] > 0,
    ensures
        total_of(weights) > 0,
    decreases weights.len(),
{
    let front = weights.drop_last();
    if front.len() > 0 {
        assert forall|j: int| 0 <= j < front.len() implies #[trigger] front[j] > 0 by {
            assert(weights[j] > 0);
        }
        lemma_positive_weights_add_up(front);
    } else {
        assert(total_of(front) == 0);
    }
    assert(weights.last() == weights[weights.len() - 1]);
}

/// **Order invariance on ties.** Where no element has a minimum and every
/// weight is positive, all elements have the same ratio and are served in
/// index order. An element that is moved to another place is then granted
/// what it was granted before, up to the units that rounding leaves over:
/// the two sizes differ by less than the number of elements.
pub proof fn lemma_moved_share_without_minima(
    total: int,
    weights: Seq<int>,
    minima: Seq<int>,
    moved_weights: Seq<int>,
    moved_minima: Seq<int>,
    to: Seq<int>,
    i: int,
)
    requires
        admissible(weights, minima),
        forall|j: int| 0 <= j < weights.len() ==> #[trigger] weights[j] > 0,
        forall|j: int| 0 <= j < minima.len() ==> #[trigger] minima[j] == 0,
        0 <= total,
        is_permutation(to, weights.len()),
        moved_weights.len() == weights.len(),
        moved_minima.len() == weights.len(),
        forall|i: int|
            0 <= i < weights.len() ==> moved_weights[#[trigger] to[i]] == weights[i]
                && moved_minima[to[i]] == minima[i],
        0 <= i < weights.len(),
    ensures
        -(weights.len() as int) < division(total, moved_weights, moved_minima)[to[i]] - division(
            total,
            weights,
            minima,
        )[i] < weights.len(),
{
    let n = weights.len() as int;
    lemma_moved_elements_admissible(weights, minima, moved_weights, moved_minima, to);
    let at = to[i];
    assert(0 <= at < n);
    assert forall|p: int| 0 <= p < n implies #[trigger] moved_weights[p] > 0 by {
        assert(to.contains(p));
        let j = choose|j: int| 0 <= j < to.len() && to[j] == p;
        assert(moved_weights[to[j]] == weights[j]);
        assert(weights[j] > 0);
    }
    assert forall|p: int| 0 <= p < n implies #[trigger] moved_minima[p] == 0 by {
        assert(to.contains(p));
        let j = choose|j: int| 0 <= j < to.len() && to[j] == p;
        assert(moved_minima[to[j]] == minima[j]);
        assert(minima[j] == 0);
    }
    lemma_shares_without_minima(total, weights, minima, i);
    lemma_shares_without_minima(total, moved_weights, moved_minima, at);
    lemma_positive_weights_add_up(weights);
    let whole = total_of(weights);
    let before = division(total, weights, minima)[i];
    let after = division(total, moved_weights, moved_minima)[at];
    let fair = total * weights[i];
    assert(moved_weights[at] == weights[i]);
    assert(-n < after - before < n) by (nonlinear_arith)
        requires
            whole > 0,
            0 <= i < n,
            0 <= at < n,
            fair - whole < before * whole <= fair + i * whole,
            fair - whole < after * whole <= fair + at * whole,
    {
        assert((after - before) * whole < (at + 1) * whole);
        assert((before - after) * whole < (i + 1) * whole);
    }
}

/// One step of any division: where the level of the space that is left is
/// less than `at` units of weight above that of the total, the share
/// `quotient` that is rounded down is no more than `at` units above the
/// share of the total, and the level after it is less than one more unit
/// above.
proof fn lemma_share_step_above(
    total: int,
    whole: int,
    space: int,
    remaining: int,
    weight: int,
    quotient: int,
    at: int,
)
    requires
        whole > 0,
        remaining > 0,
        0 <= weight <= remaining,
        0 <= space,
        0 <= total,
        0 <= at,
        quotient * remaining <= space * weight,
        quotient * remaining > space * weight - remaining,
        space * whole <= total * remaining + at * whole,
    ensures
        (space - quotient) * whole <= total * (remaining - weight) + (at + 1) * whole,
        quotient * whole <= total * weight + at * whole,
{
    let rest = remaining - weight;
    assert((space - quotient) * whole * remaining <= (total * rest + (at + 1) * whole)
        * remaining) by (nonlinear_arith)
        requires
            quotient * remaining > space * weight - remaining,
            space * whole <= total * remaining + at * whole,
            rest == remaining - weight,
            0 <= rest <= remaining,
            whole > 0,
            at >= 0,
    {
        assert((space - quotient) * whole * remaining == space * whole * remaining - (quotient
            * remaining) * whole);
        assert((quotient * remaining) * whole >= (space * weight - remaining) * whole);
        assert(space * whole * remaining - (space * weight - remaining) * whole == (space
            * whole) * rest + remaining * whole);
        assert((space * whole) * rest <= (total * remaining + at * whole) * rest);
        assert((at * whole) * rest <= (at * whole) * remaining);
        assert((total * remaining + at * whole) * rest + remaining * whole <= (total * rest + (at
            + 1) * whole) * remaining);
    }
    assert((space - quotient) * whole <= total * rest + (at + 1) * whole) by (nonlinear_arith)
        requires
            (space - quotient) * whole * remaining <= (total * rest + (at + 1) * whole)
                * remaining,
            remaining > 0,
    ;
    assert((quotient * whole) * remaining <= (total * weight + at * whole) * remaining)
        by (nonlinear_arith)
        requires
            quotient * remaining <= space * weight,
            space * whole <= total * remaining + at * whole,
            0 <= weight <= remaining,
            whole > 0,
            at >= 0,
    {
        assert((quotient * remaining) * whole <= (space * weight) * whole);
        assert((space * whole) * weight <= (total * remaining + at * whole) * weight);
        assert((at * whole) * weight <= (at * whole) * remaining);
    }
    assert(quotient * whole <= total * weight + at * whole) by (nonlinear_arith)
        requires
            (quotient * whole) * remaining <= (total * weight + at * whole) * remaining,
            remaining > 0,
    ;
}

/// Along any queue the level of the space that is left rises above that of
/// the total by less than one unit of weight with each element served, and
/// an element that is granted more than its minimum is granted no more than
/// its share of the total and one unit for each element served before it.
proof fn lemma_queue_levels(total: int, queue_weights: Seq<int>, queue_minima: Seq<int>, k: int)
    requires
        admissible(queue_weights, queue_minima),
        0 <= total,
        total_of(queue_weights) > 0,
        0 <= k <= queue_weights.len(),
    ensures
        0 <= space_before(total, queue_weights, queue_minima, k),
        space_before(total, queue_weights, queue_minima, k) * total_of(queue_weights) <= total
            * weight_from(queue_weights, k) + k * total_of(queue_weights),
        k > 0 ==> size_at(total, queue_weights, queue_minima, k - 1) == queue_minima[k - 1]
            || size_at(total, queue_weights, queue_minima, k - 1) * total_of(queue_weights)
            <= total * queue_weights[k - 1] + (k - 1) * total_of(queue_weights),
    decreases k,
{
    let n = queue_weights.len() as int;
    let whole = total_of(queue_weights);
    lemma_space_stays_within(total, queue_weights, queue_minima, k);
    if k == 0 {
        assert(queue_weights.take(0).len() == 0);
        assert(0 * whole == 0) by (nonlinear_arith);
    } else {
        let at = k - 1;
        lemma_queue_levels(total, queue_weights, queue_minima, at);
        let space = space_before(total, queue_weights, queue_minima, at);
        let after = space_before(total, queue_weights, queue_minima, k);
        let weight = queue_weights[at];
        let minimum = queue_minima[at];
        let remaining = weight_from(queue_weights, at);
        lemma_total_of_next(queue_weights, at);
        lemma_prefix_totals_grow(queue_weights, k, n);
        assert(queue_weights.take(n) =~= queue_weights);
        assert(minimum >= 0);
        assert(0 <= weight <= remaining);
        if remaining > 0 {
            let quotient = space * weight / remaining;
            assert(quotient * remaining <= space * weight && quotient * remaining > space * weight
                - remaining && quotient >= 0) by (nonlinear_arith)
                requires
                    quotient == space * weight / remaining,
                    remaining > 0,
                    space >= 0,
                    weight >= 0,
            ;
            lemma_share_bounds(space, weight, remaining);
            lemma_share_step_above(total, whole, space, remaining, weight, quotient, at);
            assert(0 <= after <= space - quotient);
            assert(after * whole <= (space - quotient) * whole) by (nonlinear_arith)
                requires
                    after <= space - quotient,
                    whole > 0,
            ;
        } else {
            assert(0 <= after <= space);
            assert(after * whole <= space * whole && total * 0 == 0 && (at + 1) * whole >= at
                * whole) by (nonlinear_arith)
                requires
                    after <= space,
                    whole > 0,
                    at >= 0,
            ;
        }
    }
}

/// **No more than the share and the units left over.** An element that is
/// granted more than its minimum is granted no more than its share of the
/// total by weight and one unit for each other element, whatever the
/// minima and whichever elements have the same ratio.
pub proof fn lemma_division_near_share(total: int, weights: Seq<int>, minima: Seq<int>, i: int)
    requires
        admissible(weights, minima),
        0 <= total,
        total_of(weights) > 0,
        0 <= i < weights.len(),
    ensures
        division(total, weights, minima)[i] == minima[i] || division(total, weights, minima)[i]
            * total_of(weights) <= total * weights[i] + (weights.len() - 1) * total_of(weights),
{
    let n = weights.len() as int;
    let order = serving_order(weights, minima);
    let queue_weights = arranged(weights, order);
    let queue_minima = arranged(minima, order);
    let whole = total_of(weights);
    lemma_serving_order(weights, minima);
    lemma_served_ratios_descend(weights, minima);
    lemma_total_of_arranged(weights, order);
    assert(order.contains(i));
    let j = order.index_of(i);
    assert(order[j] == i);
    lemma_queue_levels(total, queue_weights, queue_minima, j + 1);
    assert(j * whole <= (n - 1) * whole) by (nonlinear_arith)
        requires
            j <= n - 1,
            whole > 0,
    ;
}

/// **Order invariance on ties, with minima.** Where the elements are moved
/// to other places, the element that was at `i` to place `to[i]`, what it
/// is granted at its new place and what it was granted before both lie
/// between its minimum and the larger of its minimum and its share of the
/// total with one unit for each other element.
pub proof fn lemma_moved_element_near_share(
    total: int,
    weights: Seq<int>,
    minima: Seq<int>,
    moved_weights: Seq<int>,
    moved_minima: Seq<int>,
    to: Seq<int>,
    i: int,
)
    requires
        admissible(weights, minima),
        0 <= total,
        total_of(weights) > 0,
        is_permutation(to, weights.len()),
        moved_weights.len() == weights.len(),
        moved_minima.len() == weights.len(),
        forall|i: int|
            0 <= i < weights.len() ==> moved_weights[#[trigger] to[i]] == weights[i]
                && moved_minima[to[i]] == minima[i],
        0 <= i < weights.len(),
    ensures
        minima[i] <= division(total, weights, minima)[i],
        minima[i] <= division(total, moved_weights, moved_minima)[to[i]],
        division(total, weights, minima)[i] == minima[i] || division(total, weights, minima)[i]
            * total_of(weights) <= total * weights[i] + (weights.len() - 1) * total_of(weights),
        division(total, moved_weights, moved_minima)[to[i]] == minima[i] || division(
            total,
            moved_weights,
            moved_minima,
        )[to[i]] * total_of(weights) <= total * weights[i] + (weights.len() - 1) * total_of(
            weights,
        ),
{
    lemma_moved_elements_admissible(weights, minima, moved_weights, moved_minima, to);
    assert(0 <= to[i] < weights.len());
    lemma_division_within_bounds(total, weights, minima, i);
    lemma_division_within_bounds(total, moved_weights, moved_minima, to[i]);
    lemma_division_near_share(total, weights, minima, i);
    lemma_division_near_share(total, moved_weights, moved_minima, to[i]);
}

} // verus!
