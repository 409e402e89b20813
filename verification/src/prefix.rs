//! Why the codes of a table fit their bits and none is the beginning of
//! another: the end of each run, scaled to the longest code, is what the
//! symbols up to its weight add to the weight sum.

use crate::bits::divides;
use crate::bits::lemma_divides_add;
use crate::bits::lemma_divides_zero;
use crate::bits::lemma_pow2_divides;
use crate::coding::lemma_count_step;
use crate::table::code_bits;
use crate::table::code_value;
use crate::table::count_weight;
use crate::table::lemma_max_num_bits;
use crate::table::max_num_bits;
use crate::table::rank_in_run;
use crate::table::run_start;
use crate::table::valid_weights;
use crate::table::weight_sum;
use crate::table::weight_term;
use vstd::arithmetic::div_mod::lemma_fundamental_div_mod;
use vstd::arithmetic::div_mod::lemma_multiply_divide_lt;
use vstd::arithmetic::power2::lemma2_to64;
use vstd::arithmetic::power2::lemma_pow2_adds;
use vstd::arithmetic::power2::lemma_pow2_pos;
use vstd::arithmetic::power2::lemma_pow2_unfold;
use vstd::arithmetic::power2::pow2;
use vstd::prelude::*;

verus! {

/// What the symbols with weights from 1 to `level` add to the weight sum.
pub(crate) open spec fn level_sum(weights: Seq<usize>, level: nat) -> nat
    decreases weights.len(),
{
    if weights.len() == 0 {
        0
    } else {
        level_sum(weights.drop_last(), level) + if weights.last() <= level {
            weight_term(weights.last())
        } else {
            0nat
        }
    }
}

/// The symbols of one more level add `2^(level-1)` each.
pub(crate) proof fn lemma_level_sum_step(weights: Seq<usize>, level: nat)
    requires
        1 <= level <= usize::MAX,
    ensures
        level_sum(weights, level) == level_sum(weights, (level - 1) as nat) + count_weight(
            weights,
            level as usize,
        ) * pow2((level - 1) as nat),
        level_sum(weights, 0) == 0,
    decreases weights.len(),
{
    let unit = pow2((level - 1) as nat);
    if weights.len() == 0 {
        assert(0 * unit == 0);
    } else {
        lemma_level_sum_step(weights.drop_last(), level);
        let fewer = count_weight(weights.drop_last(), level as usize);
        assert((fewer + 1) * unit == fewer * unit + unit) by (nonlinear_arith);
    }
}

/// What the symbols above `level` add to the weight sum is a multiple of
/// `2^level`, and the more levels, the more of the weight sum.
pub(crate) proof fn lemma_level_sum_rest(weights: Seq<usize>, low: nat, level: nat)
    requires
        low <= level,
    ensures
        level_sum(weights, low) <= level_sum(weights, level) <= weight_sum(weights),
        divides(pow2(level), weight_sum(weights) - level_sum(weights, level)),
    decreases weights.len(),
{
    lemma_pow2_pos(level);
    if weights.len() == 0 {
        lemma_divides_zero(pow2(level));
    } else {
        lemma_level_sum_rest(weights.drop_last(), low, level);
        let last = weights.last();
        let rest = weight_sum(weights.drop_last()) - level_sum(weights.drop_last(), level);
        if last > level {
            lemma_pow2_divides(level, (last - 1) as nat);
            lemma_divides_add(pow2(level), rest, pow2((last - 1) as nat) as int);
        }
    }
}

/// Where a run starts, scaled to the longest code, is what the symbols of
/// the weights before it add to the weight sum.
pub(crate) proof fn lemma_run_start_exact(weights: Seq<usize>, level: nat)
    requires
        valid_weights(weights),
        level <= max_num_bits(weights),
    ensures
        run_start(weights, level) * pow2(level) == level_sum(weights, level),
    decreases level,
{
    lemma2_to64();
    lemma_max_num_bits(weights);
    if level == 0 {
        lemma_level_sum_step(weights, 1);
    } else {
        lemma_run_start_exact(weights, (level - 1) as nat);
        lemma_run_end_exact(weights, level);
        let half = pow2((level - 1) as nat) as int;
        let whole = pow2(level) as int;
        let end = run_start(weights, (level - 1) as nat) + count_weight(weights, level as usize);
        let sum = level_sum(weights, level) as int;
        // What is due up to this level is a multiple of `2^level`, so the run ends at an
        // even code.
        lemma_pow2_unfold(level);
        lemma_pow2_pos(level);
        lemma_pow2_pos((level - 1) as nat);
        lemma_pow2_divides(level, max_num_bits(weights));
        lemma_level_sum_rest(weights, level, level);
        lemma_divides_add(
            pow2(level),
            weight_sum(weights) as int,
            weight_sum(weights) - level_sum(weights, level),
        );
        lemma_fundamental_div_mod(sum, whole);
        let q = sum / whole;
        assert(end == 2 * q) by (nonlinear_arith)
            requires
                end * half == sum,
                sum == whole * q,
                whole == 2 * half,
                half > 0,
        ;
        assert((end / 2) * whole == sum) by (nonlinear_arith)
            requires
                end == 2 * q,
                sum == whole * q,
        ;
    }
}

/// Where a run ends, scaled to the longest code, is what the symbols of the
/// weights up to its own add to the weight sum.
pub(crate) proof fn lemma_run_end_exact(weights: Seq<usize>, level: nat)
    requires
        valid_weights(weights),
        1 <= level <= max_num_bits(weights) + 1,
    ensures
        (run_start(weights, (level - 1) as nat) + count_weight(weights, level as usize)) * pow2(
            (level - 1) as nat,
        ) == level_sum(weights, level),
    decreases level, 0nat,
{
    lemma_max_num_bits(weights);
    lemma_run_start_exact(weights, (level - 1) as nat);
    lemma_level_sum_step(weights, level);
    let start = run_start(weights, (level - 1) as nat);
    let count = count_weight(weights, level as usize);
    let half = pow2((level - 1) as nat);
    assert((start + count) * half == start * half + count * half) by (nonlinear_arith);
}

/// Of the weights before a place no more are `w` than of those before a
/// later place, or of all.
pub(crate) proof fn lemma_count_grows(weights: Seq<usize>, a: int, b: int, w: usize)
    requires
        0 <= a <= b <= weights.len(),
    ensures
        count_weight(weights.take(a), w) <= count_weight(weights.take(b), w),
        b == weights.len() ==> count_weight(weights.take(a), w) <= count_weight(weights, w),
    decreases b - a,
{
    if a < b {
        lemma_count_grows(weights, a, b - 1, w);
        lemma_count_step(weights, b - 1, w);
    }
    assert(weights.take(weights.len() as int) =~= weights);
}

/// The code of a symbol that occurs lies before the end of its run.
pub(crate) proof fn lemma_code_in_run(weights: Seq<usize>, s: int)
    requires
        0 <= s < weights.len(),
        weights[s] > 0,
    ensures
        run_start(weights, (weights[s] - 1) as nat) <= code_value(weights, s) < run_start(
            weights,
            (weights[s] - 1) as nat,
        ) + count_weight(weights, weights[s]),
{
    lemma_count_step(weights, s, weights[s]);
    lemma_count_grows(weights, s + 1, weights.len() as int, weights[s]);
}

/// The code of a symbol that occurs is below 2 to the number of its bits.
pub(crate) proof fn lemma_code_fits(weights: Seq<usize>, s: int)
    requires
        valid_weights(weights),
        0 <= s < weights.len(),
        weights[s] > 0,
    ensures
        code_value(weights, s) < pow2(code_bits(weights, s)),
{
    let w = weights[s] as nat;
    let longest = max_num_bits(weights);
    lemma_max_num_bits(weights);
    assert(weights[s] <= longest + 1);
    lemma_code_in_run(weights, s);
    lemma_run_end_exact(weights, w);
    lemma_level_sum_rest(weights, w, w);
    lemma_pow2_adds(code_bits(weights, s), (w - 1) as nat);
    lemma_pow2_pos((w - 1) as nat);
    let end = run_start(weights, (w - 1) as nat) + count_weight(weights, weights[s]);
    let half = pow2((w - 1) as nat);
    let room = pow2(code_bits(weights, s));
    assert(end <= room) by (nonlinear_arith)
        requires
            end * half <= room * half,
            half > 0,
    ;
}

/// Of two symbols that occur, the first bits of the code of the one with
/// the longer code, as many as the other has, are not the other's code.
pub(crate) proof fn lemma_code_no_prefix(weights: Seq<usize>, s: int, t: int)
    requires
        valid_weights(weights),
        0 <= s < weights.len(),
        0 <= t < weights.len(),
        s != t,
        weights[s] > 0,
        weights[t] > 0,
        code_bits(weights, s) <= code_bits(weights, t),
    ensures
        code_value(weights, t) / pow2((code_bits(weights, t) - code_bits(weights, s)) as nat)
            != code_value(weights, s),
{
    let ws = weights[s] as nat;
    let wt = weights[t] as nat;
    let longest = max_num_bits(weights);
    lemma2_to64();
    lemma_max_num_bits(weights);
    assert(weights[s] <= longest + 1);
    assert(weights[t] <= longest + 1);
    lemma_code_in_run(weights, s);
    lemma_code_in_run(weights, t);
    if ws == wt {
        // Two symbols of one run differ in their rank.
        if s < t {
            lemma_count_step(weights, s, weights[s]);
            lemma_count_grows(weights, s + 1, t, weights[s]);
        } else {
            lemma_count_step(weights, t, weights[t]);
            lemma_count_grows(weights, t + 1, s, weights[t]);
        }
        assert(rank_in_run(weights, s) != rank_in_run(weights, t));
        assert(code_bits(weights, t) == code_bits(weights, s));
        assert(code_value(weights, t) / 1 == code_value(weights, t));
    } else {
        // The longer code lies in a run that ends, scaled to the bits of the
        // shorter code, no later than the run of the shorter code starts.
        assert(wt < ws);
        let shift = (ws - wt) as nat;
        assert(shift == code_bits(weights, t) - code_bits(weights, s));
        let start = run_start(weights, (ws - 1) as nat) as int;
        let end = (run_start(weights, (wt - 1) as nat) + count_weight(weights, weights[t])) as int;
        let half = pow2((wt - 1) as nat) as int;
        let step = pow2(shift) as int;
        lemma_run_start_exact(weights, (ws - 1) as nat);
        lemma_run_end_exact(weights, wt);
        lemma_level_sum_rest(weights, wt, (ws - 1) as nat);
        lemma_pow2_adds(shift, (wt - 1) as nat);
        lemma_pow2_pos((wt - 1) as nat);
        lemma_pow2_pos(shift);
        assert(end <= step * start) by (nonlinear_arith)
            requires
                end * half <= start * (step * half),
                half > 0,
        ;
        lemma_multiply_divide_lt(code_value(weights, t) as int, step, start);
        assert(code_value(weights, t) / pow2(shift) < start);
    }
}

} // verus!
