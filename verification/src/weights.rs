//! Huffman weights for a number of symbols: a first distribution that meets
//! Kraft's equality, and its correction where the largest weight is above a
//! ceiling.
//!
//! A symbol of weight `w` gets a code that is `w - 1` bits shorter than the
//! longest code. The weights of a table are right when the sum of `2^w` over
//! them is a power of two.

use crate::bits::ceil_log2;
use crate::bits::is_power_of_two;
use crate::bits::lemma_ceil_log2_bounds;
use crate::bits::lemma_pow2_monotone;
use crate::bits::lemma_pow2_order;
use crate::bits::pow2_u64;
use crate::distribution::distribute_inv;
use crate::distribution::lemma_distribute_from;
use crate::distribution::lemma_distribute_start;
use crate::distribution::lemma_distribute_step;
use crate::distribution::lemma_triangle_monotone;
use crate::repayment::lemma_floor_start;
use crate::repayment::lemma_lowered_kraft;
use crate::repayment::lemma_prefix_sum_ends;
use crate::repayment::lemma_prefix_sum_step;
use crate::repayment::lemma_repaid;
use crate::repayment::lemma_repay_choice_unique;
use crate::repayment::lemma_repay_first_fits;
use crate::repayment::lemma_repay_start;
use crate::repayment::lemma_repay_step;
use crate::repayment::repay_inv;
use vstd::arithmetic::power2::lemma2_to64;
use vstd::arithmetic::power2::lemma_pow2_pos;
use vstd::arithmetic::power2::lemma_pow2_unfold;
use vstd::arithmetic::power2::pow2;
use vstd::prelude::*;

verus! {

/// The largest number of symbols of an alphabet.
pub const MAX_SYMBOLS: usize = 256;

/// No weight that [`distribute_weights`] gives is above this.
pub const MAX_DISTRIBUTED_WEIGHT: usize = 29;

/// The sum of `2^w` over the weights.
pub open spec fn pow2_sum(weights: Seq<usize>) -> nat
    decreases weights.len(),
{
    if weights.len() == 0 {
        0
    } else {
        pow2_sum(weights.drop_last()) + pow2(weights.last() as nat)
    }
}

/// Whether no weight is smaller than one before it.
pub open spec fn is_sorted(weights: Seq<usize>) -> bool {
    forall|i: int, j: int| 0 <= i <= j < weights.len() ==> weights[i] <= weights[j]
}

/// Whether no weight is 0.
pub open spec fn all_positive(weights: Seq<usize>) -> bool {
    forall|i: int| 0 <= i < weights.len() ==> #[trigger] weights[i] >= 1
}

/// The weights that the distribution reaches from `weights`, where the next
/// weight level is `counter` and the level that is being filled is `target`:
/// as long as weights are missing, it appends `2^(counter - target)` weights
/// of `target`, twice as many as the step before, or, where fewer than that
/// are missing, one weight of `counter`, which then is the level to fill.
pub open spec fn distribute_from(
    amount: nat,
    weights: Seq<usize>,
    target: nat,
    counter: nat,
) -> Seq<usize>
    decreases amount - weights.len(),
{
    if weights.len() >= amount || counter < target {
        weights
    } else {
        let add_new = pow2((counter - target) as nat);
        if add_new > amount - weights.len() {
            distribute_from(amount, weights.push(counter as usize), counter, counter + 1)
        } else {
            proof {
                lemma_pow2_pos((counter - target) as nat);
            }
            distribute_from(
                amount,
                weights + Seq::new(add_new, |i: int| target as usize),
                target,
                counter + 1,
            )
        }
    }
}

/// The first distribution of weights over `amount` symbols: it begins with
/// two symbols of weight 1.
pub open spec fn distributed_weights(amount: nat) -> Seq<usize> {
    distribute_from(amount, seq![1usize, 1usize], 1, 2)
}

/// The first distribution gives each of the `amount` symbols a weight of at
/// least 1 and at most [`MAX_DISTRIBUTED_WEIGHT`], in rising order, and the
/// sum of `2^w` over the weights is a power of two.
pub proof fn lemma_distributed_weights(amount: nat)
    requires
        2 <= amount <= MAX_SYMBOLS,
    ensures
        distributed_weights(amount).len() == amount,
        is_sorted(distributed_weights(amount)),
        all_positive(distributed_weights(amount)),
        distributed_weights(amount).last() <= MAX_DISTRIBUTED_WEIGHT,
        is_power_of_two(pow2_sum(distributed_weights(amount))),
        pow2_sum(distributed_weights(amount)) <= pow2((MAX_DISTRIBUTED_WEIGHT + 1) as nat),
{
    lemma_distribute_start(amount);
    lemma_distribute_from(amount, seq![1usize, 1usize], 1, 2, 8);
}

/// The first distribution of weights over `amount` symbols.
///
/// It begins with two symbols of weight 1. Then, step by step, it gives the
/// weight of the level that it is filling to twice as many symbols as the
/// step before, or, where fewer than that are left, gives one symbol the
/// weight of the step's number and goes on filling at that level.
pub fn distribute_weights(amount: usize) -> (weights: Vec<usize>)
    requires
        2 <= amount <= MAX_SYMBOLS,
    ensures
        weights@ == distributed_weights(amount as nat),
        weights@.len() == amount,
        is_sorted(weights@),
        all_positive(weights@),
        weights@.last() <= MAX_DISTRIBUTED_WEIGHT,
        is_power_of_two(pow2_sum(weights@)),
        pow2_sum(weights@) <= pow2((MAX_DISTRIBUTED_WEIGHT + 1) as nat),
{
    let mut weights: Vec<usize> = Vec::new();
    let mut target_weight: usize = 1;
    let mut weight_counter: usize = 2;
    weights.push(1);
    weights.push(1);
    let ghost mut bound: nat = 8;
    proof {
        assert(weights@ =~= seq![1usize, 1usize]);
        lemma_distribute_start(amount as nat);
        lemma_distributed_weights(amount as nat);
    }
    while weights.len() < amount
        invariant
            distribute_inv(
                amount as nat,
                weights@,
                target_weight as nat,
                weight_counter as nat,
                bound,
            ),
            distribute_from(
                amount as nat,
                weights@,
                target_weight as nat,
                weight_counter as nat,
            ) == distributed_weights(amount as nat),
        decreases amount - weights.len(),
    {
        proof {
            lemma_distribute_step(
                amount as nat,
                weights@,
                target_weight as nat,
                weight_counter as nat,
                bound,
            );
        }
        let mut add_new: usize = pow2_u64(weight_counter - target_weight) as usize;
        let available_space = amount - weights.len();
        let ghost before = weights@;
        if add_new > available_space {
            proof {
                bound = (weight_counter - target_weight) as nat;
            }
            target_weight = weight_counter;
            add_new = 1;
            weights.push(target_weight);
        } else {
            let mut pushed: usize = 0;
            while pushed < add_new
                invariant
                    pushed <= add_new,
                    weights@ == before + Seq::new(pushed as nat, |i: int| target_weight),
                decreases add_new - pushed,
            {
                weights.push(target_weight);
                pushed += 1;
                assert(weights@ =~= before + Seq::new(pushed as nat, |i: int| target_weight));
            }
        }
        weight_counter += 1;
    }
    proof {
        lemma_triangle_monotone(bound - 2, bound - 2);
        lemma_pow2_monotone(weight_counter as nat, (MAX_DISTRIBUTED_WEIGHT + 1) as nat);
    }
    weights
}

/// No weight that [`redistribute_weights`] takes is above this, so that the
/// sum of `2^w` over the weights of a full alphabet fits 64 bits.
pub const WEIGHT_LIMIT: usize = 55;

/// The sum of `2^w` over the first `j` weights.
pub open spec fn prefix_sum(weights: Seq<usize>, j: int) -> nat {
    pow2_sum(weights.take(j))
}

/// The weights, each one below `floor` raised to `floor`.
pub open spec fn raised(weights: Seq<usize>, floor: usize) -> Seq<usize> {
    Seq::new(
        weights.len(),
        |i: int|
            if weights[i] < floor {
                floor
            } else {
                weights[i]
            },
    )
}

/// Whether `i` is where the debt is repaid next: at the first of the largest
/// weights whose lowering by one, which takes `2^(w-1)` off the sum, the debt
/// can pay.
pub open spec fn is_repay_choice(weights: Seq<usize>, debt: nat, i: int) -> bool {
    &&& 0 <= i < weights.len()
    &&& weights[i] >= 1
    &&& pow2((weights[i] - 1) as nat) <= debt
    &&& forall|j: int| 0 <= j < i ==> #[trigger] weights[j] < weights[i]
    &&& forall|j: int|
        i < j < weights.len() && #[trigger] weights[j] > weights[i] ==> pow2(
            (weights[j] - 1) as nat,
        ) > debt
}

/// The weights after the debt is repaid: as long as debt is left, the weight
/// at the place that [`is_repay_choice`] names is lowered by one and the debt
/// by what that takes off the sum.
pub open spec fn repaid(weights: Seq<usize>, debt: nat) -> Seq<usize>
    decreases debt,
{
    if debt == 0 || !(exists|i: int| is_repay_choice(weights, debt, i)) {
        weights
    } else {
        let i = choose|i: int| is_repay_choice(weights, debt, i);
        proof {
            lemma_pow2_pos((weights[i] - 1) as nat);
        }
        repaid(
            weights.update(i, (weights[i] - 1) as usize),
            (debt - pow2((weights[i] - 1) as nat)) as nat,
        )
    }
}

/// The weights, each lowered by `offset`.
pub open spec fn lowered(weights: Seq<usize>, offset: usize) -> Seq<usize> {
    Seq::new(weights.len(), |i: int| (weights[i] - offset) as usize)
}

/// The weights after the correction for the ceiling `max_weight`.
///
/// Where the last weight is above the ceiling by `floor`, every weight below
/// `floor` is raised to `floor`. What that adds to the sum of `2^w` is a debt,
/// which is repaid by lowering weights one by one ([`repaid`]). At last all
/// weights are lowered by the same amount so that the first is 1.
pub open spec fn redistributed_weights(weights: Seq<usize>, max_weight: usize) -> Seq<usize> {
    if weights.len() == 0 || weights.last() <= max_weight {
        weights
    } else {
        let floor = (weights.last() - max_weight) as usize;
        let even = repaid(
            raised(weights, floor),
            (pow2_sum(raised(weights, floor)) - pow2_sum(weights)) as nat,
        );
        if even[0] > 1 {
            lowered(even, (even[0] - 1) as usize)
        } else {
            even
        }
    }
}

/// The correction for a ceiling keeps the number of the weights, their
/// rising order and the sum of `2^w` a power of two; it makes no weight 0
/// and the last weight no larger. Where the last weight was above the
/// ceiling the first weight is 1 after it. Where there are at most
/// `2^(max_weight + 1)` weights, the last weight is at most 2 above the
/// ceiling after it.
pub proof fn lemma_redistributed_weights(weights: Seq<usize>, max_weight: usize)
    requires
        weights.len() >= 1,
        is_sorted(weights),
        all_positive(weights),
        is_power_of_two(pow2_sum(weights)),
    ensures
        redistributed_weights(weights, max_weight).len() == weights.len(),
        is_sorted(redistributed_weights(weights, max_weight)),
        all_positive(redistributed_weights(weights, max_weight)),
        is_power_of_two(pow2_sum(redistributed_weights(weights, max_weight))),
        pow2_sum(redistributed_weights(weights, max_weight)) <= pow2_sum(weights),
        redistributed_weights(weights, max_weight).last() <= weights.last(),
        weights.last() > max_weight ==> redistributed_weights(weights, max_weight)[0] == 1,
        weights.len() <= pow2((max_weight + 1) as nat) ==> redistributed_weights(
            weights,
            max_weight,
        ).last() <= max_weight + 2,
{
    if weights.last() > max_weight {
        let floor = (weights.last() - max_weight) as usize;
        let up = raised(weights, floor);
        let total = pow2_sum(weights);
        lemma_repay_start(weights, floor);
        let debt = (pow2_sum(up) - total) as nat;
        let few = weights.len() <= pow2((max_weight + 1) as nat);
        if few && debt > 0 {
            lemma_floor_start(weights, floor);
        }
        lemma_repaid(up, debt, total, floor as nat);
        let even = repaid(up, debt);
        assert(up[0] >= floor);
        assert(even[0] >= 1);
        if even[0] > 1 {
            lemma_lowered_kraft(even, (even[0] - 1) as usize);
        }
    }
}

/// The first distribution over `amount` symbols has `amount` weights whose
/// sum of `2^w` is a power of two. Corrected for a ceiling `max_weight` with
/// `amount <= 2^(max_weight + 1)`, as every ceiling from the binary logarithm
/// of `amount` on is, it still has `amount` weights, in rising order and none
/// of them 0, whose sum of `2^w` is a power of two, and the last and largest
/// of them is at most 2 above the ceiling.
pub proof fn lemma_distribution_within_ceiling(amount: nat, max_weight: usize)
    requires
        2 <= amount <= MAX_SYMBOLS,
        amount <= pow2((max_weight + 1) as nat),
    ensures
        distributed_weights(amount).len() == amount,
        is_power_of_two(pow2_sum(distributed_weights(amount))),
        redistributed_weights(distributed_weights(amount), max_weight).len() == amount,
        is_sorted(redistributed_weights(distributed_weights(amount), max_weight)),
        all_positive(redistributed_weights(distributed_weights(amount), max_weight)),
        is_power_of_two(pow2_sum(redistributed_weights(distributed_weights(amount), max_weight))),
        redistributed_weights(distributed_weights(amount), max_weight).last() <= max_weight + 2,
{
    lemma_distributed_weights(amount);
    lemma_redistributed_weights(distributed_weights(amount), max_weight);
}

/// For a ceiling of one more than the binary logarithm of `amount`, rounded
/// up, the corrected distribution over `amount` symbols keeps the sum of
/// `2^w` a power of two, and its largest weight is at most three more than
/// that logarithm.
pub proof fn lemma_distribution_within_logarithm(amount: nat)
    requires
        2 <= amount <= MAX_SYMBOLS,
    ensures
        distributed_weights(amount).len() == amount,
        is_power_of_two(pow2_sum(distributed_weights(amount))),
        is_power_of_two(
            pow2_sum(
                redistributed_weights(
                    distributed_weights(amount),
                    (ceil_log2(amount) + 1) as usize,
                ),
            ),
        ),
        redistributed_weights(distributed_weights(amount), (ceil_log2(amount) + 1) as usize).last()
            <= ceil_log2(amount) + 3,
{
    lemma_ceil_log2_bounds(amount);
    lemma2_to64();
    lemma_pow2_order(ceil_log2(amount), 8);
    if ceil_log2(amount) > 8 {
        assert(pow2(8) < amount);
    }
    lemma_pow2_monotone(ceil_log2(amount), ceil_log2(amount) + 2);
    lemma_distribution_within_ceiling(amount, (ceil_log2(amount) + 1) as usize);
}

/// Corrects rising weights for the ceiling `max_weight`.
///
/// Where the last weight is not above the ceiling, nothing changes. Else,
/// where it is above by `floor`, each weight below `floor` is raised to
/// `floor`; what that adds to the sum of `2^w` is repaid by lowering, one
/// at a time, the first of the largest weights that the rest of the debt can
/// pay for; and at last all weights are lowered by the same amount, so that
/// the first is 1. The sum of `2^w` stays a power of two.
pub fn redistribute_weights(weights: &mut [usize], max_weight: usize)
    requires
        1 <= old(weights)@.len() <= MAX_SYMBOLS,
        is_sorted(old(weights)@),
        all_positive(old(weights)@),
        old(weights)@.last() <= WEIGHT_LIMIT,
        is_power_of_two(pow2_sum(old(weights)@)),
    ensures
        final(weights)@ == redistributed_weights(old(weights)@, max_weight),
        final(weights)@.len() == old(weights)@.len(),
        is_sorted(final(weights)@),
        all_positive(final(weights)@),
        is_power_of_two(pow2_sum(final(weights)@)),
        final(weights)@.last() <= old(weights)@.last(),
        pow2_sum(final(weights)@) <= pow2_sum(old(weights)@),
        old(weights)@.last() > max_weight ==> final(weights)@[0] == 1,
        old(weights)@.len() <= pow2((max_weight + 1) as nat) ==> final(weights)@.last()
            <= max_weight + 2,
{
    let len = weights.len();
    let max_weight_data = weights[len - 1];
    if max_weight_data <= max_weight {
        return ;
    }
    let floor = max_weight_data - max_weight;
    let ghost orig = weights@;
    let ghost up = raised(orig, floor);
    let ghost total = pow2_sum(orig);
    proof {
        lemma2_to64();
        vstd::arithmetic::power2::lemma2_to64_rest();
        lemma_prefix_sum_ends(up);
        lemma_prefix_sum_ends(orig);
    }
    let mut added_weights: u64 = 0;
    let mut i: usize = 0;
    while i < len
        invariant
            len == orig.len(),
            len == weights@.len(),
            len <= MAX_SYMBOLS,
            i <= len,
            up == raised(orig, floor),
            is_sorted(orig),
            all_positive(orig),
            floor <= orig.last() <= WEIGHT_LIMIT,
            forall|j: int| 0 <= j < i ==> weights@[j] == up[j],
            forall|j: int| i <= j < len ==> weights@[j] == orig[j],
            added_weights == prefix_sum(up, i as int) - prefix_sum(orig, i as int),
            prefix_sum(up, i as int) <= i * pow2(WEIGHT_LIMIT as nat),
        decreases len - i,
    {
        let weight = weights[i];
        proof {
            lemma_prefix_sum_step(up, i as int);
            lemma_prefix_sum_step(orig, i as int);
            assert(orig[i as int] <= orig.last());
            lemma_pow2_monotone(up[i as int] as nat, WEIGHT_LIMIT as nat);
            lemma_pow2_monotone(orig[i as int] as nat, up[i as int] as nat);
            vstd::arithmetic::power2::lemma2_to64_rest();
            assert(pow2(WEIGHT_LIMIT as nat) == 0x80_0000_0000_0000);
            assert(i * pow2(WEIGHT_LIMIT as nat) + pow2(WEIGHT_LIMIT as nat) == (i + 1) * pow2(
                WEIGHT_LIMIT as nat,
            )) by (nonlinear_arith);
            assert(i * pow2(WEIGHT_LIMIT as nat) <= 255 * pow2(WEIGHT_LIMIT as nat))
                by (nonlinear_arith)
                requires
                    i <= 255,
            ;
        }
        if weight < floor {
            let ghost base = added_weights;
            let mut add: usize = weight;
            while add < floor
                invariant
                    weight <= add <= floor <= WEIGHT_LIMIT,
                    added_weights == base + pow2(add as nat) - pow2(weight as nat),
                    base + pow2(floor as nat) <= 256 * 0x80_0000_0000_0000,
                decreases floor - add,
            {
                proof {
                    lemma_pow2_unfold((add + 1) as nat);
                    lemma_pow2_monotone((add + 1) as nat, floor as nat);
                    lemma_pow2_pos(weight as nat);
                }
                added_weights += pow2_u64(add);
                add += 1;
            }
            weights[i] = floor;
        }
        i += 1;
    }
    proof {
        assert(weights@ =~= up);
        lemma_prefix_sum_ends(up);
        lemma_prefix_sum_ends(orig);
        lemma_repay_start(orig, floor);
        assert(up.last() == orig.last());
    }
    let ghost debt = added_weights as nat;
    while added_weights > 0
        invariant
            len == weights@.len(),
            len == orig.len(),
            repay_inv(weights@, added_weights as nat, total),
            repaid(weights@, added_weights as nat) == repaid(up, debt),
            weights@.last() <= orig.last() <= WEIGHT_LIMIT,
        decreases added_weights,
    {
        proof {
            lemma_repay_first_fits(weights@, added_weights as nat, total);
        }
        let mut current_idx: usize = 0;
        let mut current_weight: usize = 0;
        let mut idx: usize = 0;
        while idx < len && pow2_u64(weights[idx] - 1) <= added_weights
            invariant
                len == weights@.len(),
                idx <= len,
                is_sorted(weights@),
                all_positive(weights@),
                weights@.last() <= WEIGHT_LIMIT,
                forall|j: int| 0 <= j < idx ==> pow2((#[trigger] weights@[j] - 1) as nat)
                    <= added_weights,
                idx == 0 ==> current_weight == 0 && current_idx == 0,
                idx > 0 ==> current_idx < idx && current_weight == weights@[idx - 1]
                    && weights@[current_idx as int] == current_weight,
                forall|j: int| 0 <= j < current_idx ==> #[trigger] weights@[j] < current_weight,
            decreases len - idx,
        {
            if weights[idx] > current_weight {
                current_weight = weights[idx];
                current_idx = idx;
            }
            idx += 1;
        }
        proof {
            let ws = weights@;
            assert(idx > 0);
            assert forall|j: int|
                current_idx < j < ws.len() && #[trigger] ws[j] > ws[current_idx as int] implies pow2(
                (ws[j] - 1) as nat,
            ) > added_weights by {
                if j < idx {
                    assert(ws[j] <= ws[idx - 1]);
                } else {
                    assert(ws[idx as int] <= ws[j]);
                    lemma_pow2_monotone((ws[idx as int] - 1) as nat, (ws[j] - 1) as nat);
                }
            }
            assert(is_repay_choice(ws, added_weights as nat, current_idx as int));
            lemma_repay_step(ws, added_weights as nat, total, current_idx as int);
            let chosen = choose|i: int| is_repay_choice(ws, added_weights as nat, i);
            lemma_repay_choice_unique(ws, added_weights as nat, chosen, current_idx as int);
            assert(ws[current_idx as int] <= ws.last());
            lemma_pow2_pos((current_weight - 1) as nat);
        }
        added_weights -= pow2_u64(current_weight - 1);
        weights[current_idx] = current_weight - 1;
        proof {
            assert(weights@.last() <= orig.last());
        }
    }
    proof {
        lemma_prefix_sum_ends(weights@);
        assert(weights@ == repaid(up, debt));
        lemma_redistributed_weights(orig, max_weight);
    }
    if weights[0] > 1 {
        let offset = weights[0] - 1;
        let ghost even = weights@;
        let mut k: usize = 0;
        while k < len
            invariant
                len == weights@.len(),
                len == even.len(),
                k <= len,
                is_sorted(even),
                offset == even[0] - 1,
                forall|j: int| 0 <= j < k ==> weights@[j] == even[j] - offset,
                forall|j: int| k <= j < len ==> weights@[j] == even[j],
            decreases len - k,
        {
            assert(even[0] <= even[k as int]);
            weights[k] = weights[k] - offset;
            k += 1;
        }
        assert(weights@ =~= lowered(even, offset));
    }
}

} // verus!
