//! Distribution of space among sibling elements.
//!
//! [`divide`] is the entry point for containers: it checks its input, divides
//! the space with [`wdivmin`] and reports when the minima did not fit.

pub mod algorithm_wdivmin;
pub mod laws;
pub mod order;

use vstd::prelude::*;
use algorithm_wdivmin::{division, lemma_prefix_totals_grow, total_of, wdivmin};
use laws::{lemma_division_exceeds_total_with_minima, lemma_total_of_next};
use order::{admissible, ints};

verus! {

/// Why a division was not made.
#[derive(Debug, Clone, Copy, PartialEq, Eq, Structural)]
pub enum LayoutError {
    /// There are not as many minima as weights.
    LengthMismatch,
    /// No weight is positive although there is space to hand out, so
    /// nothing says who is to have it. A division among no elements is of
    /// this kind.
    DegenerateWeights,
}

/// The minima ask for more than there is. Each element was still granted its
/// minimum, so the sizes add up to more than the total.
#[derive(Debug, Clone, Copy, PartialEq, Eq, Structural)]
pub struct OverconstrainedLayoutWarning {
    /// The sum of the minima.
    pub required: u128,
    /// The total that was to be divided.
    pub available: u64,
}

/// The outcome of a division.
#[derive(Debug)]
pub struct Division {
    /// The size of each element, by index.
    pub sizes: Vec<u64>,
    /// Present when the minima did not fit into the total.
    pub warning: Option<OverconstrainedLayoutWarning>,
}

/// No weight is positive although there is space to hand out.
pub open spec fn degenerate(total: int, weights: Seq<int>) -> bool {
    total_of(weights) == 0 && total != 0
}

/// The minima ask for more than the total.
pub open spec fn overconstrained(total: int, minima: Seq<int>) -> bool {
    total_of(minima) > total
}

/// The sum of the values.
pub fn sum_of(values: &[u64]) -> (sum: u128)
    ensures
        sum == total_of(ints(values@)),
{
    let n: usize = values.len();
    let mut sum: u128 = 0;
    let mut k: usize = 0;
    assert(ints(values@).take(0).len() == 0);
    while k < n
        invariant
            k <= n,
            n == values.len(),
            sum == total_of(ints(values@).take(k as int)),
            sum <= k * 0xffff_ffff_ffff_ffff,
        decreases n - k,
    {
        proof {
            lemma_total_of_next(ints(values@), k as int);
        }
        sum = sum + values[k] as u128;
        k = k + 1;
    }
    assert(ints(values@).take(n as int) =~= ints(values@));
    sum
}

/// Divides `total` among elements with the given weights and minima, and
/// says when the division could not be what was asked for.
///
/// Without a warning the sizes add up to `total`.
pub fn divide(total: u64, weights: &[u64], minima: &[u64]) -> (outcome: Result<
    Division,
    LayoutError,
>)
    ensures
        match outcome {
            Err(LayoutError::LengthMismatch) => weights.len() != minima.len(),
            Err(LayoutError::DegenerateWeights) => weights.len() == minima.len() && degenerate(
                total as int,
                ints(weights@),
            ),
            Ok(made) => {
                &&& weights.len() == minima.len()
                &&& !degenerate(total as int, ints(weights@))
                &&& made.sizes.len() == weights.len()
                &&& ints(made.sizes@) == division(total as int, ints(weights@), ints(minima@))
                &&& made.warning is Some <==> overconstrained(total as int, ints(minima@))
                &&& made.warning matches Some(warning) ==> warning.required == total_of(
                    ints(minima@),
                ) && warning.available == total
                &&& made.warning is Some ==> made.sizes@ == minima@
                &&& made.warning is None ==> total_of(ints(made.sizes@)) == total
            },
        },
{
    if weights.len() != minima.len() {
        return Err(LayoutError::LengthMismatch);
    }
    let weight: u128 = sum_of(weights);
    if weight == 0 && total != 0 {
        return Err(LayoutError::DegenerateWeights);
    }
    let required: u128 = sum_of(minima);
    let sizes = wdivmin(total, weights, minima);
    let warning = if required > total as u128 {
        Some(OverconstrainedLayoutWarning { required, available: total })
    } else {
        None
    };
    proof {
        lemma_division_exceeds_total_with_minima(total as int, ints(weights@), ints(minima@));
    }
    Ok(Division { sizes, warning })
}

/// The place of an element along the axis of its container.
#[derive(Debug, Clone, Copy, PartialEq, Eq, Structural)]
pub struct Slot {
    /// Where the element starts.
    pub offset: u64,
    /// How long the element is.
    pub size: u64,
}

/// Places elements of the given sizes one behind the other from zero: each
/// starts where the one before it ends. There is no such placing if an
/// element would end beyond what the machine's integers hold.
pub fn place(sizes: &[u64]) -> (placed: Option<Vec<Slot>>)
    ensures
        match placed {
            Some(slots) => {
                &&& slots.len() == sizes.len()
                &&& total_of(ints(sizes@)) <= u64::MAX
                &&& forall|i: int|
                    0 <= i < slots.len() ==> (#[trigger] slots[i]).size == sizes[i]
                        && slots[i].offset == total_of(ints(sizes@).take(i))
            },
            None => total_of(ints(sizes@)) > u64::MAX,
        },
{
    let n: usize = sizes.len();
    let mut slots: Vec<Slot> = Vec::new();
    let mut offset: u64 = 0;
    let mut k: usize = 0;
    assert(ints(sizes@).take(0).len() == 0);
    while k < n
        invariant
            k <= n,
            n == sizes.len(),
            slots.len() == k,
            offset == total_of(ints(sizes@).take(k as int)),
            forall|i: int|
                0 <= i < k ==> (#[trigger] slots[i]).size == sizes[i] && slots[i].offset
                    == total_of(ints(sizes@).take(i)),
        decreases n - k,
    {
        proof {
            lemma_total_of_next(ints(sizes@), k as int);
        }
        slots.push(Slot { offset, size: sizes[k] });
        if sizes[k] > u64::MAX - offset {
            proof {
                lemma_prefix_totals_grow(ints(sizes@), k + 1, n as int);
                assert(ints(sizes@).take(n as int) =~= ints(sizes@));
            }
            return None;
        }
        offset = offset + sizes[k];
        k = k + 1;
    }
    assert(ints(sizes@).take(n as int) =~= ints(sizes@));
    Some(slots)
}

/// Divides `total_share` among elements with the given weights and minima.
///
/// Where the minima ask for more than the total, every element is still
/// granted its minimum, neither more nor less. The caller learns of it from
/// the sizes, which then and only then add up to more than the total.
pub fn weighted_division_with_minima(
    total_share: u64,
    el_weights: Vec<u64>,
    el_minima: Vec<u64>,
) -> (sizes: Vec<u64>)
    requires
        el_weights.len() == el_minima.len(),
    ensures
        sizes.len() == el_weights.len(),
        ints(sizes@) == division(total_share as int, ints(el_weights@), ints(el_minima@)),
        total_of(ints(sizes@)) > total_share <==> total_of(ints(el_minima@)) > total_share,
        total_of(ints(el_minima@)) > total_share ==> sizes@ == el_minima@,
{
    wdivmin(total_share, el_weights.as_slice(), el_minima.as_slice())
}

} // verus!
