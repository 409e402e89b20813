//! Why the correction of weights for a ceiling can repay its debt: what
//! holds while it is repaid, and that each step keeps it.

use crate::bits::divides;
use crate::bits::is_power_of_two;
use crate::bits::lemma_divides_add;
use crate::bits::lemma_divides_bound;
use crate::bits::lemma_divides_pow2_smaller;
use crate::bits::lemma_divides_zero;
use crate::bits::lemma_pow2_divides;
use crate::bits::lemma_pow2_monotone;
use crate::bits::lemma_pow2_order;
use crate::weights::all_positive;
use crate::weights::is_repay_choice;
use crate::weights::is_sorted;
use crate::weights::lowered;
use crate::weights::pow2_sum;
use crate::weights::prefix_sum;
use crate::weights::raised;
use crate::weights::repaid;
use vstd::arithmetic::power2::lemma2_to64;
use vstd::arithmetic::power2::lemma_pow2_adds;
use vstd::arithmetic::power2::lemma_pow2_pos;
use vstd::arithmetic::power2::lemma_pow2_unfold;
use vstd::arithmetic::power2::pow2;
use vstd::prelude::*;

verus! {

/// The sum over no weights is 0, the sum over all of them the whole sum.
pub(crate) proof fn lemma_prefix_sum_ends(weights: Seq<usize>)
    ensures
        prefix_sum(weights, 0) == 0,
        prefix_sum(weights, weights.len() as int) == pow2_sum(weights),
{
    assert(weights.take(0) =~= Seq::<usize>::empty());
    assert(weights.take(weights.len() as int) =~= weights);
}

/// One more weight adds its `2^w` to the sum.
pub(crate) proof fn lemma_prefix_sum_step(weights: Seq<usize>, j: int)
    requires
        0 <= j < weights.len(),
    ensures
        prefix_sum(weights, j + 1) == prefix_sum(weights, j) + pow2(weights[j] as nat),
{
    assert(weights.take(j + 1).drop_last() =~= weights.take(j));
}

/// Changing the weight at `i` changes the sums over the prefixes that hold it.
pub(crate) proof fn lemma_prefix_sum_update(weights: Seq<usize>, i: int, v: usize, j: int)
    requires
        0 <= i < weights.len(),
        0 <= j <= weights.len(),
    ensures
        prefix_sum(weights.update(i, v), j) == if j <= i {
            prefix_sum(weights, j) as int
        } else {
            prefix_sum(weights, j) - pow2(weights[i] as nat) + pow2(v as nat)
        },
    decreases j,
{
    let changed = weights.update(i, v);
    if j == 0 {
        assert(changed.take(0) =~= weights.take(0));
    } else {
        lemma_prefix_sum_update(weights, i, v, j - 1);
        lemma_prefix_sum_step(weights, j - 1);
        lemma_prefix_sum_step(changed, j - 1);
    }
}

/// Weights that are not 0 add at least 2 each to the sum.
pub(crate) proof fn lemma_prefix_sum_lower_bound(weights: Seq<usize>, j: int)
    requires
        all_positive(weights),
        0 <= j <= weights.len(),
    ensures
        prefix_sum(weights, j) >= 2 * j,
    decreases j,
{
    if j == 0 {
        assert(weights.take(0) =~= Seq::<usize>::empty());
    } else {
        lemma_prefix_sum_lower_bound(weights, j - 1);
        lemma_prefix_sum_step(weights, j - 1);
        lemma2_to64();
        lemma_pow2_monotone(1, weights[j - 1] as nat);
    }
}

/// Weights of at most `top` add at most `2^top` each to the sum.
pub(crate) proof fn lemma_prefix_sum_upper_bound(weights: Seq<usize>, j: int, top: nat)
    requires
        0 <= j <= weights.len(),
        forall|i: int| 0 <= i < j ==> #[trigger] weights[i] <= top,
    ensures
        prefix_sum(weights, j) <= j * pow2(top),
    decreases j,
{
    if j == 0 {
        assert(weights.take(0) =~= Seq::<usize>::empty());
    } else {
        lemma_prefix_sum_upper_bound(weights, j - 1, top);
        lemma_prefix_sum_step(weights, j - 1);
        lemma_pow2_monotone(weights[j - 1] as nat, top);
        assert((j - 1) * pow2(top) + pow2(top) == j * pow2(top)) by (nonlinear_arith);
    }
}

/// The sum over weights of at least `low` is a multiple of `2^low`; so is
/// the sum from `j` on where the weights from `j` on are at least `low`.
pub(crate) proof fn lemma_tail_sum_divisible(weights: Seq<usize>, j: int, low: nat)
    requires
        0 <= j <= weights.len(),
        forall|i: int| j <= i < weights.len() ==> #[trigger] weights[i] >= low,
    ensures
        divides(pow2(low), pow2_sum(weights) - prefix_sum(weights, j)),
    decreases weights.len() - j,
{
    lemma_pow2_pos(low);
    if j == weights.len() {
        assert(weights.take(j) =~= weights);
        lemma_divides_zero(pow2(low));
    } else {
        lemma_tail_sum_divisible(weights, j + 1, low);
        lemma_prefix_sum_step(weights, j);
        lemma_pow2_divides(low, weights[j] as nat);
        lemma_divides_add(
            pow2(low),
            pow2_sum(weights) - prefix_sum(weights, j + 1),
            pow2(weights[j] as nat) as int,
        );
    }
}

/// Where two lists of weights agree from `j` on, their sums from `j` on
/// agree.
pub(crate) proof fn lemma_tail_sum_agrees(a: Seq<usize>, b: Seq<usize>, j: int)
    requires
        a.len() == b.len(),
        0 <= j <= a.len(),
        forall|i: int| j <= i < a.len() ==> a[i] == b[i],
    ensures
        pow2_sum(a) - prefix_sum(a, j) == pow2_sum(b) - prefix_sum(b, j),
    decreases a.len() - j,
{
    if j == a.len() {
        assert(a.take(j) =~= a);
        assert(b.take(j) =~= b);
    } else {
        lemma_tail_sum_agrees(a, b, j + 1);
        lemma_prefix_sum_step(a, j);
        lemma_prefix_sum_step(b, j);
    }
}

/// No term of a sum is above the sum.
pub(crate) proof fn lemma_term_below_sum(weights: Seq<usize>, i: int)
    requires
        0 <= i < weights.len(),
    ensures
        pow2(weights[i] as nat) <= pow2_sum(weights),
    decreases weights.len(),
{
    if i == weights.len() - 1 {
    } else {
        lemma_term_below_sum(weights.drop_last(), i);
    }
}

/// In rising weights whose sum of `2^w` is a power of two, the sum over the
/// weights before a place is a multiple of `2^w` for the weight at the
/// place.
pub(crate) proof fn lemma_kraft_prefix_divisible(weights: Seq<usize>, j: int)
    requires
        is_sorted(weights),
        is_power_of_two(pow2_sum(weights)),
        0 <= j < weights.len(),
    ensures
        divides(pow2(weights[j] as nat), prefix_sum(weights, j) as int),
{
    let low = weights[j] as nat;
    let e = choose|e: nat| pow2_sum(weights) == pow2(e);
    lemma_pow2_pos(low);
    lemma_term_below_sum(weights, j);
    lemma_pow2_order(low, e);
    lemma_pow2_divides(low, e);
    lemma_tail_sum_divisible(weights, j, low);
    lemma_divides_add(
        pow2(low),
        pow2_sum(weights) as int,
        pow2_sum(weights) - prefix_sum(weights, j),
    );
}

/// What is left to pay where the sum over the first `j` weights is to stay:
/// to need room at `j` is to be a place that the debt cannot reach, or one
/// that is two levels or more above the first weight.
pub(crate) open spec fn needs_room(weights: Seq<usize>, debt: nat, j: int) -> bool {
    j == weights.len() || pow2((weights[j] - 1) as nat) > debt || weights[j] >= weights[0] + 2
}

/// What holds while the debt is repaid, where `total` is the sum of `2^w`
/// that the weights had before the raise and will have again when the debt
/// is 0: the sum over the weights before each place, less the debt, is a
/// multiple of `2^w` for the weight at the place, and at the places that the
/// debt will not lower any more it leaves at least 2 for each weight before.
pub(crate) open spec fn repay_inv(weights: Seq<usize>, debt: nat, total: nat) -> bool {
    &&& weights.len() >= 1
    &&& is_sorted(weights)
    &&& all_positive(weights)
    &&& pow2_sum(weights) == total + debt
    &&& forall|j: int|
        0 <= j < weights.len() ==> divides(
            pow2(weights[j] as nat),
            #[trigger] prefix_sum(weights, j) - debt,
        )
    &&& forall|j: int|
        0 <= j <= weights.len() && needs_room(weights, debt, j) ==> #[trigger] prefix_sum(
            weights,
            j,
        ) - debt >= 2 * j
}

/// After the raise, what holds while the debt is repaid holds.
pub(crate) proof fn lemma_repay_start(weights: Seq<usize>, floor: usize)
    requires
        weights.len() >= 1,
        is_sorted(weights),
        all_positive(weights),
        is_power_of_two(pow2_sum(weights)),
        1 <= floor <= weights.last(),
    ensures
        pow2_sum(raised(weights, floor)) >= pow2_sum(weights),
        repay_inv(
            raised(weights, floor),
            (pow2_sum(raised(weights, floor)) - pow2_sum(weights)) as nat,
            pow2_sum(weights),
        ),
{
    let up = raised(weights, floor);
    let n = weights.len() as int;
    let total = pow2_sum(weights);
    // The last weight is not raised, so the debt is the difference of the sums before it.
    lemma_tail_sum_agrees(up, weights, n - 1);
    lemma_prefix_sum_lower_bound(weights, n - 1);
    lemma_pow2_pos(floor as nat);
    lemma_kraft_prefix_divisible(weights, n - 1);
    lemma_divides_pow2_smaller(floor as nat, weights.last() as nat, prefix_sum(weights, n - 1) as int);
    assert(up.take(n - 1) =~= raised(weights.take(n - 1), floor));
    lemma_raise_grows(weights.take(n - 1), floor);
    assert(pow2_sum(up) >= total);
    let debt = (pow2_sum(up) - total) as nat;
    assert(debt == prefix_sum(up, n - 1) - prefix_sum(weights, n - 1));
    // The debt is a multiple of `2^floor`.
    assert(forall|i: int| 0 <= i < up.len() ==> #[trigger] up[i] >= floor);
    assert(up.take(n - 1).take(n - 1) =~= up.take(n - 1));
    lemma_tail_sum_divisible(up, 0, floor as nat);
    lemma_tail_sum_divisible(up, n - 1, floor as nat);
    lemma_prefix_sum_ends(up);
    lemma_divides_add(pow2(floor as nat), pow2_sum(up) as int, pow2_sum(up) - prefix_sum(up, n - 1));
    lemma_divides_add(
        pow2(floor as nat),
        prefix_sum(up, n - 1) as int,
        prefix_sum(weights, n - 1) as int,
    );
    assert(divides(pow2(floor as nat), debt as int));
    assert(is_sorted(up));
    assert(all_positive(up));
    assert forall|j: int| 0 <= j < up.len() implies divides(
        pow2(up[j] as nat),
        #[trigger] prefix_sum(up, j) - debt,
    ) by {
        if weights[j] < floor {
            lemma_tail_sum_divisible(up, j, floor as nat);
            lemma_divides_add(
                pow2(floor as nat),
                pow2_sum(up) as int,
                pow2_sum(up) - prefix_sum(up, j),
            );
            lemma_divides_add(pow2(floor as nat), prefix_sum(up, j) as int, debt as int);
        } else {
            lemma_tail_sum_agrees(up, weights, j);
            lemma_kraft_prefix_divisible(weights, j);
        }
    }
    assert forall|j: int| 0 <= j <= up.len() && needs_room(up, debt, j) implies #[trigger] prefix_sum(
        up,
        j,
    ) - debt >= 2 * j by {
        if debt == 0 {
            lemma_prefix_sum_lower_bound(up, j);
        } else if j == up.len() || weights[j] >= floor {
            lemma_tail_sum_agrees(up, weights, j);
            lemma_prefix_sum_lower_bound(weights, j);
        } else {
            // A raised place is neither out of the debt's reach nor two levels up.
            lemma_divides_bound(pow2(floor as nat), debt as int);
            lemma_pow2_monotone((floor - 1) as nat, floor as nat);
            assert(up[0] == floor);
            assert(false);
        }
    }
}

/// Raising weights does not lower the sum.
pub(crate) proof fn lemma_raise_grows(weights: Seq<usize>, floor: usize)
    ensures
        pow2_sum(raised(weights, floor)) >= pow2_sum(weights),
    decreases weights.len(),
{
    let up = raised(weights, floor);
    if weights.len() > 0 {
        assert(up.drop_last() =~= raised(weights.drop_last(), floor));
        lemma_raise_grows(weights.drop_last(), floor);
        lemma_pow2_monotone(weights.last() as nat, up.last() as nat);
    }
}

/// Only one place is where the debt is repaid next.
pub(crate) proof fn lemma_repay_choice_unique(weights: Seq<usize>, debt: nat, i: int, k: int)
    requires
        is_repay_choice(weights, debt, i),
        is_repay_choice(weights, debt, k),
    ensures
        i == k,
{
    if i < k {
        assert(weights[i] < weights[k]);
    }
    if k < i {
        assert(weights[k] < weights[i]);
    }
}

/// As long as debt is left, it can pay for the first weight.
pub(crate) proof fn lemma_repay_first_fits(weights: Seq<usize>, debt: nat, total: nat)
    requires
        repay_inv(weights, debt, total),
        debt > 0,
    ensures
        pow2(weights[0] as nat) <= debt,
        pow2((weights[0] - 1) as nat) <= debt,
{
    let m = pow2(weights[0] as nat);
    lemma_pow2_pos(weights[0] as nat);
    lemma_prefix_sum_ends(weights);
    lemma_divides_zero(m);
    assert(divides(m, prefix_sum(weights, 0) - debt));
    lemma_divides_add(m, 0, 0 - debt);
    lemma_divides_bound(m, debt as int);
    lemma_pow2_monotone((weights[0] - 1) as nat, weights[0] as nat);
}

/// One step of repaying keeps what holds while the debt is repaid, and
/// lowers no weight to 0.
pub(crate) proof fn lemma_repay_step(weights: Seq<usize>, debt: nat, total: nat, i: int)
    requires
        repay_inv(weights, debt, total),
        debt > 0,
        is_repay_choice(weights, debt, i),
    ensures
        weights[i] >= 2,
        pow2((weights[i] - 1) as nat) <= debt,
        repay_inv(
            weights.update(i, (weights[i] - 1) as usize),
            (debt - pow2((weights[i] - 1) as nat)) as nat,
            total,
        ),
{
    let n = weights.len() as int;
    let top = weights[i];
    lemma2_to64();
    if top == 1 {
        let e = lemma_level_end(weights, 1, 0);
        lemma_prefix_sum_upper_bound(weights, e, 1);
        assert(needs_room(weights, debt, e));
        assert(prefix_sum(weights, e) - debt >= 2 * e);
        assert(false);
    }
    let paid = pow2((top - 1) as nat);
    let next = weights.update(i, (top - 1) as usize);
    let left = (debt - paid) as nat;
    lemma_pow2_unfold(top as nat);
    lemma_pow2_pos((top - 1) as nat);
    assert(is_sorted(next)) by {
        assert forall|a: int, b: int| 0 <= a <= b < next.len() implies next[a] <= next[b] by {
            if a < i && b == i {
                assert(weights[a] < weights[i]);
            }
        }
    }
    assert(all_positive(next));
    lemma_prefix_sum_ends(weights);
    lemma_prefix_sum_ends(next);
    lemma_prefix_sum_update(weights, i, (top - 1) as usize, n);
    assert(pow2_sum(next) == total + left);
    assert forall|j: int| 0 <= j < n implies divides(
        pow2(next[j] as nat),
        #[trigger] prefix_sum(next, j) - left,
    ) by {
        lemma_prefix_sum_update(weights, i, (top - 1) as usize, j);
        let before = prefix_sum(weights, j) - debt;
        assert(divides(pow2(weights[j] as nat), before));
        lemma_pow2_pos(next[j] as nat);
        if j < i {
            assert(weights[j] < weights[i]);
            lemma_pow2_divides(weights[j] as nat, (top - 1) as nat);
            lemma_divides_add(pow2(weights[j] as nat), before, paid as int);
        } else if j == i {
            lemma_divides_pow2_smaller((top - 1) as nat, top as nat, before);
            lemma_pow2_divides((top - 1) as nat, (top - 1) as nat);
            lemma_divides_add(paid, before, paid as int);
        } else {
            assert(prefix_sum(next, j) - left == before);
        }
    }
    assert forall|j: int| 0 <= j <= n && needs_room(next, left, j) implies #[trigger] prefix_sum(
        next,
        j,
    ) - left >= 2 * j by {
        lemma_prefix_sum_update(weights, i, (top - 1) as usize, j);
        if left == 0 {
            lemma_prefix_sum_lower_bound(next, j);
        } else if needs_room(weights, debt, j) {
            assert(prefix_sum(weights, j) - debt >= 2 * j);
        } else {
            // Debt is left, so it is at least `2^w` for the first weight: too
            // much for this place to be out of its reach.
            let m = pow2(next[0] as nat);
            lemma_pow2_pos(next[0] as nat);
            lemma_divides_zero(m);
            assert(divides(m, prefix_sum(next, 0) - left));
            lemma_divides_add(m, 0, 0 - left);
            lemma_divides_bound(m, left as int);
            assert(weights[0] <= weights[j]);
            if i == 0 {
                if j > 0 {
                    if weights[j] > top {
                        assert(pow2((weights[j] - 1) as nat) > debt);
                    }
                    assert(next[j] == top);
                }
                lemma_pow2_monotone((next[j] - 1) as nat, next[0] as nat);
            } else {
                lemma_pow2_monotone((next[j] - 1) as nat, next[0] as nat);
            }
            assert(false);
        }
    }
}

/// Weights of at least `low` add at least `2^low` each to the sum.
pub(crate) proof fn lemma_prefix_sum_floor(weights: Seq<usize>, j: int, low: nat)
    requires
        0 <= j <= weights.len(),
        forall|i: int| 0 <= i < j ==> #[trigger] weights[i] >= low,
    ensures
        prefix_sum(weights, j) >= j * pow2(low),
    decreases j,
{
    if j == 0 {
        lemma_prefix_sum_ends(weights);
        assert(0 * pow2(low) == 0);
    } else {
        lemma_prefix_sum_floor(weights, j - 1, low);
        lemma_prefix_sum_step(weights, j - 1);
        lemma_pow2_monotone(low, weights[j - 1] as nat);
        assert((j - 1) * pow2(low) + pow2(low) == j * pow2(low)) by (nonlinear_arith);
    }
}

/// The place up to which all weights are `low`, the least that occurs.
pub(crate) proof fn lemma_level_end(weights: Seq<usize>, low: nat, k: int) -> (e: int)
    requires
        forall|j: int| 0 <= j < weights.len() ==> #[trigger] weights[j] >= low,
        0 <= k <= weights.len(),
        forall|j: int| 0 <= j < k ==> #[trigger] weights[j] == low,
    ensures
        k <= e <= weights.len(),
        forall|j: int| 0 <= j < e ==> #[trigger] weights[j] == low,
        e == weights.len() || weights[e] > low,
    decreases weights.len() - k,
{
    if k == weights.len() || weights[k] > low {
        k
    } else {
        lemma_level_end(weights, low, k + 1)
    }
}

/// What holds besides while the debt is repaid, where the weights are so few
/// that even at `floor - 1` each they do not add up to the sum that is due:
/// no weight is below `floor - 1`; at the places that the debt will not lower
/// any more it leaves at least `2^(floor - 1)` for each weight before; and as
/// long as the debt can pay for a weight above `floor`, none is below
/// `floor`.
pub(crate) open spec fn floor_inv(weights: Seq<usize>, debt: nat, floor: nat) -> bool {
    &&& floor >= 2
    &&& forall|k: int| 0 <= k < weights.len() ==> #[trigger] weights[k] >= floor - 1
    &&& forall|j: int|
        0 <= j <= weights.len() && (j == weights.len() || pow2((weights[j] - 1) as nat) > debt)
            ==> #[trigger] prefix_sum(weights, j) - debt >= j * pow2((floor - 1) as nat)
    &&& forall|j: int|
        0 <= j < weights.len() && weights[j] > floor ==> #[trigger] prefix_sum(weights, j) - debt
            >= 1
    &&& forall|j: int|
        0 <= j < weights.len() && #[trigger] weights[j] > floor && pow2((weights[j] - 1) as nat)
            <= debt ==> weights[0] >= floor
}

/// A place above `floor` that the debt cannot reach any more has room for
/// `2^(floor - 1)` for each weight before it, where what is due before it
/// is a multiple of its `2^w` and not 0, and no weight before it is below
/// `floor`.
pub(crate) proof fn lemma_room_out_of_reach(weights: Seq<usize>, debt: nat, floor: nat, j: int)
    requires
        floor >= 1,
        0 <= j < weights.len(),
        weights[j] > floor,
        forall|i: int| 0 <= i < j ==> #[trigger] weights[i] >= floor,
        divides(pow2(weights[j] as nat), prefix_sum(weights, j) - debt),
        prefix_sum(weights, j) - debt >= 1,
        pow2((weights[j] - 1) as nat) > debt,
    ensures
        prefix_sum(weights, j) - debt >= j * pow2((floor - 1) as nat),
{
    let v = weights[j] as nat;
    let unit = pow2((floor - 1) as nat);
    let due = prefix_sum(weights, j) - debt;
    lemma_pow2_pos(v);
    lemma_divides_bound(pow2(v), due);
    if j * unit > pow2(v) {
        lemma_prefix_sum_floor(weights, j, floor);
        lemma_pow2_unfold(floor);
        lemma_pow2_unfold(v);
        assert(j * pow2(floor) == 2 * (j * unit)) by (nonlinear_arith)
            requires
                pow2(floor) == 2 * unit,
        ;
    }
}

/// After the raise, where debt was made and the weights are at most
/// `2^(ceiling + 1)` for the ceiling that the last weight is above by
/// `floor`, what holds besides while the debt is repaid holds.
pub(crate) proof fn lemma_floor_start(weights: Seq<usize>, floor: usize)
    requires
        weights.len() >= 1,
        is_sorted(weights),
        all_positive(weights),
        is_power_of_two(pow2_sum(weights)),
        1 <= floor <= weights.last(),
        weights.len() <= pow2((weights.last() - floor + 1) as nat),
        pow2_sum(raised(weights, floor)) > pow2_sum(weights),
    ensures
        floor_inv(
            raised(weights, floor),
            (pow2_sum(raised(weights, floor)) - pow2_sum(weights)) as nat,
            floor as nat,
        ),
{
    let up = raised(weights, floor);
    let n = weights.len() as int;
    let total = pow2_sum(weights);
    let debt = (pow2_sum(up) - total) as nat;
    let unit = pow2((floor - 1) as nat);
    lemma_repay_start(weights, floor);
    lemma_repay_first_fits(up, debt, total);
    // Debt was made, so the first weight was raised.
    if weights[0] >= floor {
        assert(up =~= weights);
    }
    assert(up[0] == floor);
    assert(floor >= 2);
    lemma_pow2_monotone((floor - 1) as nat, floor as nat);
    lemma_prefix_sum_ends(up);
    lemma_prefix_sum_ends(weights);
    assert forall|j: int| 0 <= j < n && up[j] > floor implies #[trigger] prefix_sum(up, j) - debt
        >= 1 by {
        lemma_tail_sum_agrees(up, weights, j);
        lemma_prefix_sum_lower_bound(weights, j);
    }
    assert forall|j: int|
        0 <= j <= n && (j == n || pow2((up[j] - 1) as nat) > debt) implies #[trigger] prefix_sum(
        up,
        j,
    ) - debt >= j * unit by {
        if j == n {
            // The sum that is due is at least `2^w` for the last weight.
            let ceiling = (weights.last() - floor) as nat;
            lemma_term_below_sum(weights, n - 1);
            lemma_pow2_adds((floor - 1) as nat, ceiling + 1);
            assert(n * unit <= pow2(ceiling + 1) * unit) by (nonlinear_arith)
                requires
                    n <= pow2(ceiling + 1),
                    unit >= 0,
            ;
            assert(pow2(ceiling + 1) * unit == unit * pow2(ceiling + 1)) by (nonlinear_arith);
        } else {
            assert(up[0] <= up[j]);
            if up[j] == floor {
                assert(false);
            }
            assert(prefix_sum(up, j) - debt >= 1);
            assert(divides(pow2(up[j] as nat), prefix_sum(up, j) - debt));
            lemma_room_out_of_reach(up, debt, floor as nat, j);
        }
    }
}

/// One step of repaying keeps what holds besides ([`floor_inv`]), and lowers
/// no weight below `floor - 1`.
pub(crate) proof fn lemma_floor_step(weights: Seq<usize>, debt: nat, total: nat, floor: nat, i: int)
    requires
        repay_inv(weights, debt, total),
        floor_inv(weights, debt, floor),
        debt > 0,
        is_repay_choice(weights, debt, i),
    ensures
        weights[i] >= floor,
        floor_inv(
            weights.update(i, (weights[i] - 1) as usize),
            (debt - pow2((weights[i] - 1) as nat)) as nat,
            floor,
        ),
{
    let n = weights.len() as int;
    let top = weights[i];
    let unit = pow2((floor - 1) as nat);
    lemma_repay_step(weights, debt, total, i);
    if top < floor {
        // All weights that the debt can pay for are at the least level.
        let e = lemma_level_end(weights, (floor - 1) as nat, 0);
        lemma_prefix_sum_upper_bound(weights, e, (floor - 1) as nat);
        if e < n {
            assert(weights[e] > weights[i]);
            if e < i {
                assert(weights[e] < weights[i]);
            }
        }
        assert(prefix_sum(weights, e) - debt >= e * unit);
        assert(false);
    }
    let paid = pow2((top - 1) as nat);
    let next = weights.update(i, (top - 1) as usize);
    let left = (debt - paid) as nat;
    lemma_pow2_unfold(top as nat);
    lemma_pow2_pos((top - 1) as nat);
    // While debt is left, it is at least `2^w` for the first weight.
    if left > 0 {
        lemma_repay_first_fits(next, left, total);
        lemma_pow2_monotone((floor - 1) as nat, next[0] as nat);
    }
    assert forall|j: int| 0 <= j < n && next[j] > floor implies #[trigger] prefix_sum(next, j)
        - left >= 1 by {
        lemma_prefix_sum_update(weights, i, (top - 1) as usize, j);
        assert(weights[j] > floor);
        assert(prefix_sum(weights, j) - debt >= 1);
    }
    assert forall|j: int|
        0 <= j < n && #[trigger] next[j] > floor && pow2((next[j] - 1) as nat)
            <= left implies next[0] >= floor by {
        if j != i {
            assert(weights[j] > floor && pow2((weights[j] - 1) as nat) <= debt);
            if weights[j] > top {
                if j < i {
                    assert(weights[j] < weights[i]);
                }
                assert(false);
            }
        } else {
            assert(weights[i] > floor && pow2((weights[i] - 1) as nat) <= debt);
        }
    }
    assert forall|j: int|
        0 <= j <= n && (j == n || pow2((next[j] - 1) as nat) > left) implies #[trigger] prefix_sum(
        next,
        j,
    ) - left >= j * unit by {
        lemma_prefix_sum_update(weights, i, (top - 1) as usize, j);
        if left == 0 {
            lemma_prefix_sum_floor(next, j, (floor - 1) as nat);
        } else if j == n || pow2((weights[j] - 1) as nat) > debt {
            assert(prefix_sum(weights, j) - debt >= j * unit);
        } else {
            // The debt could pay for this weight before the step and cannot
            // any more.
            if next[j] <= floor {
                lemma_pow2_monotone((next[j] - 1) as nat, (floor - 1) as nat);
                assert(false);
            }
            assert(weights[j] > floor);
            assert(weights[0] >= floor);
            if weights[j] > top {
                if j < i {
                    assert(weights[j] < weights[i]);
                }
                assert(false);
            }
            assert forall|k: int| 0 <= k < j implies #[trigger] next[k] >= floor by {
                assert(weights[0] <= weights[k]);
            }
            assert(prefix_sum(next, j) - left >= 1);
            assert(divides(pow2(next[j] as nat), prefix_sum(next, j) - left));
            lemma_room_out_of_reach(next, left, floor, j);
        }
    }
}

/// Lowering all weights by `offset` divides the sum by `2^offset`.
pub(crate) proof fn lemma_lowered_sum(weights: Seq<usize>, offset: usize, j: int)
    requires
        0 <= j <= weights.len(),
        forall|i: int| 0 <= i < weights.len() ==> #[trigger] weights[i] >= offset,
    ensures
        prefix_sum(lowered(weights, offset), j) * pow2(offset as nat) == prefix_sum(weights, j),
    decreases j,
{
    let low = lowered(weights, offset);
    if j == 0 {
        lemma_prefix_sum_ends(weights);
        lemma_prefix_sum_ends(low);
        assert(0 * pow2(offset as nat) == 0);
    } else {
        lemma_lowered_sum(weights, offset, j - 1);
        lemma_prefix_sum_step(weights, j - 1);
        lemma_prefix_sum_step(low, j - 1);
        lemma_pow2_adds(low[j - 1] as nat, offset as nat);
        assert((prefix_sum(low, j - 1) + pow2(low[j - 1] as nat)) * pow2(offset as nat)
            == prefix_sum(low, j - 1) * pow2(offset as nat) + pow2(low[j - 1] as nat) * pow2(
            offset as nat,
        )) by (nonlinear_arith);
    }
}

/// Lowering all weights so that the first is 1 keeps the sum a power of two.
pub(crate) proof fn lemma_lowered_kraft(weights: Seq<usize>, offset: usize)
    requires
        weights.len() >= 1,
        is_sorted(weights),
        all_positive(weights),
        is_power_of_two(pow2_sum(weights)),
        offset == weights[0] - 1,
    ensures
        is_sorted(lowered(weights, offset)),
        all_positive(lowered(weights, offset)),
        is_power_of_two(pow2_sum(lowered(weights, offset))),
        pow2_sum(lowered(weights, offset)) <= pow2_sum(weights),
        lowered(weights, offset).last() <= weights.last(),
{
    let low = lowered(weights, offset);
    let n = weights.len() as int;
    let e = choose|e: nat| pow2_sum(weights) == pow2(e);
    assert forall|i: int| 0 <= i < weights.len() implies #[trigger] weights[i] >= offset by {
        assert(weights[0] <= weights[i]);
    }
    assert(is_sorted(low)) by {
        assert forall|a: int, b: int| 0 <= a <= b < low.len() implies low[a] <= low[b] by {
            assert(weights[a] <= weights[b]);
            assert(weights[0] <= weights[a]);
        }
    }
    assert(all_positive(low)) by {
        assert forall|i: int| 0 <= i < low.len() implies #[trigger] low[i] >= 1 by {
            assert(weights[0] <= weights[i]);
        }
    }
    lemma_lowered_sum(weights, offset, n);
    lemma_prefix_sum_ends(weights);
    lemma_prefix_sum_ends(low);
    lemma_term_below_sum(weights, 0);
    lemma_pow2_monotone(offset as nat, weights[0] as nat);
    lemma_pow2_order(offset as nat, e);
    lemma_pow2_adds((e - offset) as nat, offset as nat);
    lemma_pow2_pos(offset as nat);
    let p = pow2(offset as nat);
    let x = pow2_sum(low);
    let y = pow2((e - offset) as nat);
    assert(x == y) by (nonlinear_arith)
        requires
            x * p == y * p,
            p > 0,
    ;
    assert(x <= x * p) by (nonlinear_arith)
        requires
            p > 0,
            x >= 0,
    ;
}

/// The last of the first weights that the debt can pay for, from `k` on.
pub(crate) proof fn lemma_last_in_reach(weights: Seq<usize>, debt: nat, k: int) -> (e: int)
    requires
        all_positive(weights),
        0 <= k < weights.len(),
        pow2((weights[k] - 1) as nat) <= debt,
    ensures
        k <= e < weights.len(),
        pow2((weights[e] - 1) as nat) <= debt,
        e + 1 == weights.len() || pow2((weights[e + 1] - 1) as nat) > debt,
    decreases weights.len() - k,
{
    if k + 1 < weights.len() && pow2((weights[k + 1] - 1) as nat) <= debt {
        lemma_last_in_reach(weights, debt, k + 1)
    } else {
        k
    }
}

/// The first of the weights that are equal to the weight at `e`.
pub(crate) proof fn lemma_first_of_level(weights: Seq<usize>, e: int) -> (i: int)
    requires
        is_sorted(weights),
        0 <= e < weights.len(),
    ensures
        0 <= i <= e,
        weights[i] == weights[e],
        forall|j: int| 0 <= j < i ==> #[trigger] weights[j] < weights[i],
    decreases e,
{
    if e > 0 && weights[e - 1] == weights[e] {
        lemma_first_of_level(weights, e - 1)
    } else {
        assert forall|j: int| 0 <= j < e implies #[trigger] weights[j] < weights[e] by {
            assert(weights[j] <= weights[e - 1]);
        }
        e
    }
}

/// As long as debt is left, there is a place to repay it next.
pub(crate) proof fn lemma_repay_choice_exists(weights: Seq<usize>, debt: nat, total: nat) -> (i: int)
    requires
        repay_inv(weights, debt, total),
        debt > 0,
    ensures
        is_repay_choice(weights, debt, i),
        i == choose|i: int| is_repay_choice(weights, debt, i),
{
    lemma_repay_first_fits(weights, debt, total);
    let e = lemma_last_in_reach(weights, debt, 0);
    let i = lemma_first_of_level(weights, e);
    assert forall|j: int| i < j < weights.len() && #[trigger] weights[j] > weights[i] implies pow2(
        (weights[j] - 1) as nat,
    ) > debt by {
        if j <= e {
            assert(weights[j] <= weights[e]);
        } else {
            assert(weights[e + 1] <= weights[j]);
            lemma_pow2_monotone((weights[e + 1] - 1) as nat, (weights[j] - 1) as nat);
        }
    }
    assert(is_repay_choice(weights, debt, i));
    let chosen = choose|i: int| is_repay_choice(weights, debt, i);
    lemma_repay_choice_unique(weights, debt, chosen, i);
    i
}

/// Repaying the debt ends with no debt left and with what holds while it is
/// repaid; it lowers weights only, and none below `floor - 1` where
/// [`floor_inv`] holds.
pub(crate) proof fn lemma_repaid(weights: Seq<usize>, debt: nat, total: nat, floor: nat)
    requires
        repay_inv(weights, debt, total),
    ensures
        repay_inv(repaid(weights, debt), 0, total),
        repaid(weights, debt).len() == weights.len(),
        repaid(weights, debt).last() <= weights.last(),
        floor_inv(weights, debt, floor) ==> repaid(weights, debt)[0] >= floor - 1,
    decreases debt,
{
    if debt > 0 {
        let i = lemma_repay_choice_exists(weights, debt, total);
        lemma_repay_step(weights, debt, total, i);
        if floor_inv(weights, debt, floor) {
            lemma_floor_step(weights, debt, total, floor, i);
        }
        lemma_pow2_pos((weights[i] - 1) as nat);
        let next = weights.update(i, (weights[i] - 1) as usize);
        lemma_repaid(next, (debt - pow2((weights[i] - 1) as nat)) as nat, total, floor);
        assert(next.last() <= weights.last());
    }
}

} // verus!
