//! Why the first distribution of weights meets Kraft's equality and stays
//! within bounds.

use crate::bits::is_power_of_two;
use crate::bits::lemma_pow2_monotone;
use crate::bits::lemma_pow2_order;
use crate::weights::MAX_DISTRIBUTED_WEIGHT;
use crate::weights::MAX_SYMBOLS;
use crate::weights::all_positive;
use crate::weights::distribute_from;
use crate::weights::is_sorted;
use crate::weights::pow2_sum;
use vstd::arithmetic::power2::lemma2_to64;
use vstd::arithmetic::power2::lemma_pow2_adds;
use vstd::arithmetic::power2::lemma_pow2_pos;
use vstd::arithmetic::power2::lemma_pow2_unfold;
use vstd::arithmetic::power2::pow2;
use vstd::prelude::*;

verus! {

/// The sum of the first `n` positive numbers.
pub(crate) open spec fn triangle(n: int) -> int
    decreases n,
{
    if n <= 0 {
        0
    } else {
        n + triangle(n - 1)
    }
}

/// The sum of the first positive numbers grows with their number.
pub(crate) proof fn lemma_triangle_monotone(a: int, b: int)
    requires
        a <= b,
    ensures
        0 <= triangle(a) <= triangle(b),
    decreases b,
{
    if b <= 0 {
    } else if a == b {
        lemma_triangle_monotone(a - 1, b - 1);
    } else {
        lemma_triangle_monotone(a, b - 1);
    }
}

/// What holds of the distribution at each step. `bound` limits how far the
/// weight level can run ahead of the level that is being filled: too few
/// weights are missing for more.
pub(crate) open spec fn distribute_inv(
    amount: nat,
    weights: Seq<usize>,
    target: nat,
    counter: nat,
    bound: nat,
) -> bool {
    &&& 2 <= weights.len() <= amount <= MAX_SYMBOLS
    &&& 1 <= target < counter
    &&& is_sorted(weights)
    &&& all_positive(weights)
    &&& weights.last() == target
    &&& pow2_sum(weights) == pow2(counter)
    &&& counter - target <= bound <= 8
    &&& amount - weights.len() <= pow2(bound) - pow2((counter - target) as nat)
    &&& counter + (bound - (counter - target)) + triangle(bound - 2) <= MAX_DISTRIBUTED_WEIGHT + 1
}

/// Appending `n` weights of `w` adds `n * 2^w` to the sum.
pub(crate) proof fn lemma_pow2_sum_repeat(weights: Seq<usize>, n: nat, w: usize)
    ensures
        pow2_sum(weights + Seq::new(n, |i: int| w)) == pow2_sum(weights) + n * pow2(w as nat),
    decreases n,
{
    let all = weights + Seq::new(n, |i: int| w);
    if n == 0 {
        assert(all =~= weights);
        assert(0 * pow2(w as nat) == 0);
    } else {
        let fewer = weights + Seq::new((n - 1) as nat, |i: int| w);
        assert(all.drop_last() =~= fewer);
        lemma_pow2_sum_repeat(weights, (n - 1) as nat, w);
        assert((n - 1) * pow2(w as nat) + pow2(w as nat) == n * pow2(w as nat))
            by (nonlinear_arith);
    }
}

/// The step of the distribution keeps what holds of it.
pub(crate) proof fn lemma_distribute_step(
    amount: nat,
    weights: Seq<usize>,
    target: nat,
    counter: nat,
    bound: nat,
)
    requires
        distribute_inv(amount, weights, target, counter, bound),
        weights.len() < amount,
    ensures
        ({
            let ahead = (counter - target) as nat;
            let add_new = pow2(ahead);
            &&& 1 <= add_new <= 256
            &&& counter < MAX_DISTRIBUTED_WEIGHT + 1
            &&& add_new > amount - weights.len() ==> distribute_inv(
                amount,
                weights.push(counter as usize),
                counter,
                counter + 1,
                ahead,
            )
            &&& add_new <= amount - weights.len() ==> distribute_inv(
                amount,
                weights + Seq::new(add_new, |i: int| target as usize),
                target,
                counter + 1,
                bound,
            )
        }),
{
    let ahead = (counter - target) as nat;
    let add_new = pow2(ahead);
    let room = amount - weights.len();
    lemma2_to64();
    lemma_pow2_pos(ahead);
    lemma_pow2_monotone(ahead, 8);
    lemma_pow2_monotone(bound, 8);
    lemma_pow2_unfold(counter + 1);
    lemma_pow2_unfold(ahead + 1);
    lemma_triangle_monotone(bound - 2, bound - 2);
    if ahead == bound {
        assert(room <= 0);
    }
    if add_new > room {
        let next = weights.push(counter as usize);
        assert(next.drop_last() =~= weights);
        assert(is_sorted(next));
        lemma_triangle_monotone(ahead - 1, bound - 2);
        assert(triangle(ahead - 1) == if ahead - 1 <= 0 {
            0
        } else {
            ahead - 1 + triangle(ahead - 2)
        });
        lemma_triangle_monotone(ahead - 2, ahead - 2);
        assert(pow2(1) == 2);
    } else {
        let added = Seq::new(add_new, |i: int| target as usize);
        let next = weights + added;
        lemma_pow2_sum_repeat(weights, add_new, target as usize);
        lemma_pow2_adds(ahead, target);
        assert(is_sorted(next));
        assert(next.last() == target);
        lemma_pow2_order(ahead + 1, bound);
    }
}

/// What holds of the distribution at each step holds at its start.
pub(crate) proof fn lemma_distribute_start(amount: nat)
    requires
        2 <= amount <= MAX_SYMBOLS,
    ensures
        distribute_inv(amount, seq![1usize, 1usize], 1, 2, 8),
{
    let start = seq![1usize, 1usize];
    lemma2_to64();
    assert(start.drop_last() =~= seq![1usize]);
    assert(start.drop_last().drop_last() =~= Seq::<usize>::empty());
    assert(pow2_sum(start.drop_last().drop_last()) == 0);
    assert(pow2_sum(start.drop_last()) == 2);
    assert(pow2_sum(start) == 4);
    assert(triangle(6) == 21) by {
        reveal_with_fuel(triangle, 8);
    }
}

/// From any step on, the distribution ends with a weight for each symbol, in
/// rising order, none of them 0 or above the bound, and with a sum of `2^w`
/// that is a power of two.
pub(crate) proof fn lemma_distribute_from(
    amount: nat,
    weights: Seq<usize>,
    target: nat,
    counter: nat,
    bound: nat,
)
    requires
        distribute_inv(amount, weights, target, counter, bound),
    ensures
        ({
            let all = distribute_from(amount, weights, target, counter);
            &&& all.len() == amount
            &&& is_sorted(all)
            &&& all_positive(all)
            &&& all.last() <= MAX_DISTRIBUTED_WEIGHT
            &&& is_power_of_two(pow2_sum(all))
            &&& pow2_sum(all) <= pow2((MAX_DISTRIBUTED_WEIGHT + 1) as nat)
        }),
    decreases amount - weights.len(),
{
    if weights.len() >= amount {
        lemma_triangle_monotone(bound - 2, bound - 2);
        assert(pow2_sum(weights) == pow2(counter));
        lemma_pow2_monotone(counter, (MAX_DISTRIBUTED_WEIGHT + 1) as nat);
    } else {
        lemma_distribute_step(amount, weights, target, counter, bound);
        let ahead = (counter - target) as nat;
        let add_new = pow2(ahead);
        if add_new > amount - weights.len() {
            lemma_distribute_from(
                amount,
                weights.push(counter as usize),
                counter,
                counter + 1,
                ahead,
            );
        } else {
            lemma_distribute_from(
                amount,
                weights + Seq::new(add_new, |i: int| target as usize),
                target,
                counter + 1,
                bound,
            );
        }
    }
}

} // verus!
