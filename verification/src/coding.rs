//! Why the walk over the sorted symbols gives each symbol its code, and why
//! the weights that symbols get by their rank make a table.

use crate::bits::is_power_of_two;
use crate::table::SortEntry;
use crate::table::code_bits;
use crate::table::code_table;
use crate::table::code_value;
use crate::table::count_before;
use crate::table::count_nonzero;
use crate::table::count_rank;
use crate::table::count_weight;
use crate::table::entry_before;
use crate::table::is_sorted_entries;
use crate::table::kraft_sum;
use crate::table::lemma_max_num_bits;
use crate::table::max_num_bits;
use crate::table::precedes;
use crate::table::rank_in_run;
use crate::table::ranked_weights;
use crate::table::run_start;
use crate::table::valid_weights;
use crate::table::weight_sum;
use crate::table::weight_term;
use crate::table::weights_of_counts;
use crate::weights::MAX_DISTRIBUTED_WEIGHT;
use crate::weights::MAX_SYMBOLS;
use crate::weights::all_positive;
use crate::weights::is_sorted;
use crate::weights::pow2_sum;
use vstd::arithmetic::div_mod::lemma_div_denominator;
use vstd::arithmetic::power2::lemma2_to64;
use vstd::arithmetic::power2::lemma_pow2_pos;
use vstd::arithmetic::power2::lemma_pow2_unfold;
use vstd::arithmetic::power2::pow2;
use vstd::prelude::*;

verus! {

/// One more weight counts where it is `w`.
pub(crate) proof fn lemma_count_step(weights: Seq<usize>, j: int, w: usize)
    requires
        0 <= j < weights.len(),
    ensures
        count_weight(weights.take(j + 1), w) == count_weight(weights.take(j), w) + if weights[j]
            == w {
            1nat
        } else {
            0nat
        },
{
    assert(weights.take(j + 1).drop_last() =~= weights.take(j));
}

/// Where no weight from `a` up to `b` is `w`, as many weights before `b` are
/// `w` as before `a`, and no more weights than there are.
pub(crate) proof fn lemma_count_gap(weights: Seq<usize>, a: int, b: int, w: usize)
    requires
        0 <= a <= b <= weights.len(),
        forall|t: int| a <= t < b ==> #[trigger] weights[t] != w,
    ensures
        count_weight(weights.take(b), w) == count_weight(weights.take(a), w),
        count_weight(weights.take(a), w) <= a,
    decreases b,
{
    if a < b {
        lemma_count_gap(weights, a, b - 1, w);
        lemma_count_step(weights, b - 1, w);
    } else if a > 0 {
        lemma_count_gap(weights, a - 1, a - 1, w);
        lemma_count_step(weights, a - 1, w);
    } else {
        assert(weights.take(0) =~= Seq::<usize>::empty());
    }
}

/// A weight that occurs is counted.
pub(crate) proof fn lemma_count_member(weights: Seq<usize>, s: int)
    requires
        0 <= s < weights.len(),
    ensures
        count_weight(weights, weights[s]) >= 1,
        count_weight(weights, weights[s]) <= weights.len(),
    decreases weights.len(),
{
    let n = weights.len() as int;
    assert(weights.take(n) =~= weights);
    lemma_count_gap(weights, n, n, weights[s]);
    if s < n - 1 {
        lemma_count_member(weights.drop_last(), s);
    }
}

/// Levels without symbols halve the start of the runs once each.
pub(crate) proof fn lemma_run_start_skip(weights: Seq<usize>, low: nat, high: nat)
    requires
        low <= high <= usize::MAX,
        forall|level: usize| low < level <= high ==> #[trigger] count_weight(weights, level) == 0,
    ensures
        run_start(weights, high) == run_start(weights, low) / pow2((high - low) as nat),
    decreases high,
{
    lemma2_to64();
    if low < high {
        lemma_run_start_skip(weights, low, (high - 1) as nat);
        assert(count_weight(weights, high as usize) == 0);
        let x = run_start(weights, low) as int;
        let c = pow2((high - 1 - low) as nat) as int;
        lemma_pow2_unfold((high - low) as nat);
        lemma_pow2_pos((high - 1 - low) as nat);
        lemma_div_denominator(x, c, 2);
        assert(run_start(weights, (high - 1) as nat) == x / c);
        assert(run_start(weights, high) == (x / c) / 2);
        assert(c * 2 == pow2((high - low) as nat));
        assert(x / (c * 2) == x / (pow2((high - low) as nat) as int));
    } else {
        assert(pow2(0) == 1);
        assert(run_start(weights, low) / 1 == run_start(weights, low));
    }
}

/// No run starts above the number of symbols.
pub(crate) proof fn lemma_run_start_bound(weights: Seq<usize>, level: nat)
    ensures
        run_start(weights, level) <= weights.len(),
    decreases level,
{
    if level > 0 {
        lemma_run_start_bound(weights, (level - 1) as nat);
        let n = weights.len() as int;
        assert(weights.take(n) =~= weights);
        lemma_count_gap(weights, n, n, level as usize);
    }
}

/// What the first weights add to the weight sum is not above the sum, nor is
/// what one weight adds.
pub(crate) proof fn lemma_weight_sum_prefix(weights: Seq<usize>, j: int)
    requires
        0 <= j <= weights.len(),
    ensures
        weight_sum(weights.take(j)) <= weight_sum(weights),
        j < weights.len() ==> weight_sum(weights.take(j + 1)) == weight_sum(weights.take(j))
            + weight_term(weights[j]),
        j < weights.len() ==> weight_term(weights[j]) <= weight_sum(weights),
    decreases weights.len() - j,
{
    if j == weights.len() {
        assert(weights.take(j) =~= weights);
    } else {
        lemma_weight_sum_prefix(weights, j + 1);
        assert(weights.take(j + 1).drop_last() =~= weights.take(j));
    }
}

/// Where the walk over the sorted symbols stands before the entry at `p`.
pub(crate) open spec fn walk_inv(
    weights: Seq<usize>,
    sorted: Seq<SortEntry>,
    codes: Seq<(u32, u8)>,
    p: int,
    start_value: usize,
    current_value: usize,
    current_weight: usize,
    current_num_bits: usize,
) -> bool {
    &&& 0 <= p <= sorted.len()
    &&& codes.len() == weights.len()
    &&& start_value == run_start(weights, current_weight as nat)
    &&& p == 0 ==> current_weight == 0 && current_value == 0
    &&& p > 0 ==> {
        let prev = sorted[p - 1];
        &&& current_weight == prev.weight
        &&& current_value == code_value(weights, prev.symbol as int) + 1
        &&& current_num_bits == code_bits(weights, prev.symbol as int)
    }
    &&& forall|q: int|
        0 <= q < p ==> codes[(#[trigger] sorted[q]).symbol as int] == code_table(
            weights,
        )[sorted[q].symbol as int]
    &&& forall|s: int|
        0 <= s < weights.len() && weights[s] == 0 ==> #[trigger] codes[s] == (0u32, 0u8)
}

/// Where a symbol that occurs stands against the entry at `p`: it is that
/// entry's symbol, or comes after it, or comes no later than the entry
/// before.
pub(crate) proof fn lemma_symbol_place(
    weights: Seq<usize>,
    sorted: Seq<SortEntry>,
    p: int,
    t: int,
)
    requires
        is_sorted_entries(weights, sorted, weights.len() as int),
        0 <= p < sorted.len(),
        0 <= t < weights.len(),
        weights[t] > 0,
    ensures
        ({
            ||| weights[t] > sorted[p].weight
            ||| weights[t] == sorted[p].weight && t >= sorted[p].symbol
            ||| p > 0 && (weights[t] < sorted[p - 1].weight || (weights[t] == sorted[p - 1].weight
                && t <= sorted[p - 1].symbol))
        }),
{
    let q = choose|q: int| 0 <= q < sorted.len() && (#[trigger] sorted[q]).symbol == t;
    assert(sorted[q].weight == weights[t]);
    if q < p - 1 {
        assert(entry_before(sorted[q], sorted[p - 1]));
    } else if q > p {
        assert(entry_before(sorted[p], sorted[q]));
    }
}

/// What the entry at `p` finds: where its weight is new, no symbol has a
/// weight between the last weight and this, so that the start was halved
/// once for each level between, and the entry is the first of its run; else
/// it is the next of its run after the entry before.
pub(crate) proof fn lemma_walk_entry(
    weights: Seq<usize>,
    sorted: Seq<SortEntry>,
    p: int,
    last_weight: usize,
)
    requires
        is_sorted_entries(weights, sorted, weights.len() as int),
        0 <= p < sorted.len(),
        p == 0 ==> last_weight == 0,
        p > 0 ==> last_weight == sorted[p - 1].weight,
    ensures
        last_weight <= sorted[p].weight,
        sorted[p].symbol < weights.len(),
        last_weight != sorted[p].weight ==> run_start(weights, (sorted[p].weight - 1) as nat)
            == run_start(weights, last_weight as nat) / pow2(
            (sorted[p].weight - 1 - last_weight) as nat,
        ) && rank_in_run(weights, sorted[p].symbol as int) == 0,
        last_weight == sorted[p].weight ==> p > 0 && rank_in_run(weights, sorted[p].symbol as int)
            == rank_in_run(weights, sorted[p - 1].symbol as int) + 1,
        rank_in_run(weights, sorted[p].symbol as int) <= sorted[p].symbol,
        forall|q: int| 0 <= q < p ==> (#[trigger] sorted[q]).symbol != sorted[p].symbol,
{
    let entry = sorted[p];
    let symbol = entry.symbol as int;
    let weight = entry.weight;
    if p > 0 {
        assert(entry_before(sorted[p - 1], sorted[p]));
    }
    assert forall|q: int| 0 <= q < p implies (#[trigger] sorted[q]).symbol != sorted[p].symbol by {
        assert(entry_before(sorted[q], sorted[p]));
    }
    if last_weight != weight {
        assert forall|level: usize| last_weight < level <= weight - 1 implies #[trigger] count_weight(
            weights,
            level,
        ) == 0 by {
            assert forall|t: int| 0 <= t < weights.len() implies #[trigger] weights[t] != level by {
                if weights[t] == level {
                    lemma_symbol_place(weights, sorted, p, t);
                }
            }
            lemma_count_gap(weights, 0, weights.len() as int, level);
            assert(weights.take(weights.len() as int) =~= weights);
            assert(weights.take(0) =~= Seq::<usize>::empty());
        }
        lemma_run_start_skip(weights, last_weight as nat, (weight - 1) as nat);
        assert forall|t: int| 0 <= t < symbol implies #[trigger] weights[t] != weight by {
            if weights[t] == weight {
                lemma_symbol_place(weights, sorted, p, t);
            }
        }
        lemma_count_gap(weights, 0, symbol, weight);
        assert(weights.take(0) =~= Seq::<usize>::empty());
    } else {
        let prev = sorted[p - 1].symbol as int;
        assert forall|t: int| prev + 1 <= t < symbol implies #[trigger] weights[t] != weight by {
            if weights[t] == weight {
                lemma_symbol_place(weights, sorted, p, t);
            }
        }
        lemma_count_gap(weights, prev + 1, symbol, weight);
        lemma_count_step(weights, prev, weight);
    }
    lemma_count_gap(weights, symbol, symbol, weight);
}

/// Over the first symbols, Kraft's scaled sum is their weight sum.
pub(crate) proof fn lemma_kraft_prefix(weights: Seq<usize>, upto: int)
    requires
        valid_weights(weights),
        0 <= upto <= weights.len(),
    ensures
        kraft_sum(weights, code_table(weights), max_num_bits(weights), upto) == weight_sum(
            weights.take(upto),
        ),
    decreases upto,
{
    if upto == 0 {
        assert(weights.take(0) =~= Seq::<usize>::empty());
    } else {
        lemma_kraft_prefix(weights, upto - 1);
        lemma_max_num_bits(weights);
        assert(weights.take(upto).drop_last() =~= weights.take(upto - 1));
        assert(weights[upto - 1] <= max_num_bits(weights) + 1);
    }
}

/// Where `b` comes next after `a` among the symbols that occur, one more
/// symbol comes before `b` than before `a`, which is `a`.
pub(crate) proof fn lemma_count_before_next(counts: Seq<usize>, a: int, b: int, upto: int)
    requires
        0 <= a < counts.len(),
        0 <= b < counts.len(),
        0 <= upto <= counts.len(),
        precedes(counts, a, b),
        forall|t: int|
            0 <= t < counts.len() ==> !(#[trigger] precedes(counts, a, t) && precedes(counts, t, b)),
    ensures
        count_before(counts, b, upto) == count_before(counts, a, upto) + if a < upto {
            1nat
        } else {
            0nat
        },
    decreases upto,
{
    if upto > 0 {
        lemma_count_before_next(counts, a, b, upto - 1);
        let t = upto - 1;
        assert(!(precedes(counts, a, t) && precedes(counts, t, b)));
    }
}

/// No symbol comes before the first of those that occur.
pub(crate) proof fn lemma_count_before_first(counts: Seq<usize>, a: int, upto: int)
    requires
        0 <= a < counts.len(),
        0 <= upto <= counts.len(),
        forall|t: int| 0 <= t < counts.len() ==> !#[trigger] precedes(counts, t, a),
    ensures
        count_before(counts, a, upto) == 0,
    decreases upto,
{
    if upto > 0 {
        lemma_count_before_first(counts, a, upto - 1);
        assert(!precedes(counts, upto - 1, a));
    }
}

/// In the sorted symbols, each stands at its rank.
pub(crate) proof fn lemma_entry_rank(counts: Seq<usize>, entries: Seq<SortEntry>, p: int)
    requires
        is_sorted_entries(counts, entries, counts.len() as int),
        0 <= p < entries.len(),
    ensures
        count_rank(counts, entries[p].symbol as int) == p,
    decreases p,
{
    let b = entries[p].symbol as int;
    if p == 0 {
        assert forall|t: int| 0 <= t < counts.len() implies !#[trigger] precedes(counts, t, b) by {
            if precedes(counts, t, b) {
                lemma_symbol_place(counts, entries, p, t);
            }
        }
        lemma_count_before_first(counts, b, counts.len() as int);
    } else {
        let a = entries[p - 1].symbol as int;
        lemma_entry_rank(counts, entries, p - 1);
        assert(entry_before(entries[p - 1], entries[p]));
        assert forall|t: int| 0 <= t < counts.len() implies !(#[trigger] precedes(counts, a, t)
            && precedes(counts, t, b)) by {
            if precedes(counts, a, t) && precedes(counts, t, b) {
                lemma_symbol_place(counts, entries, p, t);
            }
        }
        lemma_count_before_next(counts, a, b, counts.len() as int);
    }
}

/// Changing one weight changes the weight sum by what the weight adds.
pub(crate) proof fn lemma_weight_sum_update(weights: Seq<usize>, i: int, v: usize)
    requires
        0 <= i < weights.len(),
    ensures
        weight_sum(weights.update(i, v)) == weight_sum(weights) - weight_term(weights[i])
            + weight_term(v),
    decreases weights.len(),
{
    let changed = weights.update(i, v);
    if i == weights.len() - 1 {
        assert(changed.drop_last() =~= weights.drop_last());
    } else {
        assert(changed.drop_last() =~= weights.drop_last().update(i, v));
        lemma_weight_sum_update(weights.drop_last(), i, v);
    }
}

/// Weights of 0 add nothing to the weight sum.
pub(crate) proof fn lemma_weight_sum_zero(weights: Seq<usize>)
    requires
        forall|s: int| 0 <= s < weights.len() ==> #[trigger] weights[s] == 0,
    ensures
        weight_sum(weights) == 0,
    decreases weights.len(),
{
    if weights.len() > 0 {
        lemma_weight_sum_zero(weights.drop_last());
    }
}

/// What the assignment by rank leaves in `assigned`: for each entry of the
/// sorted symbols the weight of its place, and 0 for every other symbol.
pub(crate) open spec fn is_assigned(
    counts: Seq<usize>,
    entries: Seq<SortEntry>,
    weights: Seq<usize>,
    assigned: Seq<usize>,
) -> bool {
    &&& is_sorted_entries(counts, entries, counts.len() as int)
    &&& entries.len() == weights.len()
    &&& assigned.len() == counts.len()
    &&& forall|q: int|
        0 <= q < entries.len() ==> assigned[(#[trigger] entries[q]).symbol as int] == weights[q]
    &&& forall|s: int| 0 <= s < counts.len() && counts[s] == 0 ==> #[trigger] assigned[s] == 0
}

/// The assignment by rank gives the weights of the counts.
pub(crate) proof fn lemma_assigned_weights(
    counts: Seq<usize>,
    entries: Seq<SortEntry>,
    weights: Seq<usize>,
    assigned: Seq<usize>,
)
    requires
        is_assigned(counts, entries, weights, assigned),
        weights == ranked_weights(count_nonzero(counts)),
    ensures
        assigned == weights_of_counts(counts),
{
    let expected = weights_of_counts(counts);
    assert forall|s: int| 0 <= s < counts.len() implies assigned[s] == expected[s] by {
        if counts[s] > 0 {
            let q = choose|q: int| 0 <= q < entries.len() && (#[trigger] entries[q]).symbol == s;
            lemma_entry_rank(counts, entries, q);
            assert(assigned[entries[q].symbol as int] == weights[q]);
        }
    }
    assert(assigned =~= expected);
}

/// Weights whose sum is half of a sum of `2^w` that is a power of two, above
/// 1 and not above `2^30`, are valid.
pub(crate) proof fn lemma_half_sum_valid(weights: Seq<usize>, assigned: Seq<usize>)
    requires
        assigned.len() <= MAX_SYMBOLS,
        2 * weight_sum(assigned) == pow2_sum(weights),
        is_power_of_two(pow2_sum(weights)),
        pow2_sum(weights) <= pow2((MAX_DISTRIBUTED_WEIGHT + 1) as nat),
        pow2_sum(weights) >= 2,
    ensures
        valid_weights(assigned),
{
    let e = choose|e: nat| pow2_sum(weights) == pow2(e);
    lemma2_to64();
    if e == 0 {
        assert(false);
    }
    lemma_pow2_unfold(e);
    assert(weight_sum(assigned) == pow2((e - 1) as nat));
}

/// Of two symbols that occur, the one that comes first by count has no
/// shorter code.
pub(crate) proof fn lemma_bits_monotone(
    counts: Seq<usize>,
    entries: Seq<SortEntry>,
    weights: Seq<usize>,
    assigned: Seq<usize>,
    a: int,
    b: int,
)
    requires
        is_assigned(counts, entries, weights, assigned),
        is_sorted(weights),
        all_positive(weights),
        valid_weights(assigned),
        0 <= a < counts.len(),
        0 <= b < counts.len(),
        counts[b] > 0,
        precedes(counts, a, b),
    ensures
        code_bits(assigned, a) >= code_bits(assigned, b),
        code_bits(assigned, a) < 256,
{
    let p = choose|q: int| 0 <= q < entries.len() && (#[trigger] entries[q]).symbol == a;
    let q = choose|q: int| 0 <= q < entries.len() && (#[trigger] entries[q]).symbol == b;
    assert(counts[entries[p].symbol as int] == entries[p].weight);
    assert(counts[entries[q].symbol as int] == entries[q].weight);
    if q < p {
        assert(entry_before(entries[q], entries[p]));
    }
    assert(assigned[entries[p].symbol as int] == weights[p]);
    assert(assigned[entries[q].symbol as int] == weights[q]);
    assert(weights[p] <= weights[q]);
    lemma_max_num_bits(assigned);
}

/// The sum of `2^w` over the first weights is not above the sum over all.
pub(crate) proof fn lemma_sum_grows(weights: Seq<usize>, j: int)
    requires
        0 <= j <= weights.len(),
    ensures
        pow2_sum(weights.take(j)) <= pow2_sum(weights),
    decreases weights.len() - j,
{
    if j == weights.len() {
        assert(weights.take(j) =~= weights);
    } else {
        lemma_sum_grows(weights, j + 1);
        assert(weights.take(j + 1).drop_last() =~= weights.take(j));
    }
}

} // verus!
