//! The canonical Huffman table: for each symbol its code and the number of
//! bits of the code, built from weights or from counts.

use crate::bits::bit_length;
use crate::bits::ceil_log2;
use crate::bits::highest_bit_set;
use crate::bits::is_power_of_two;
use crate::bits::lemma_bit_length_pow2;
use crate::bits::lemma_pow2_monotone;
use crate::bits::lemma_pow2_order;
use crate::bits::pow2_u64;
use crate::coding::is_assigned;
use crate::coding::lemma_assigned_weights;
use crate::coding::lemma_bits_monotone;
use crate::coding::lemma_count_member;
use crate::coding::lemma_count_step;
use crate::coding::lemma_half_sum_valid;
use crate::coding::lemma_kraft_prefix;
use crate::coding::lemma_run_start_bound;
use crate::coding::lemma_sum_grows;
use crate::coding::lemma_walk_entry;
use crate::coding::lemma_weight_sum_prefix;
use crate::coding::lemma_weight_sum_update;
use crate::coding::lemma_weight_sum_zero;
use crate::coding::walk_inv;
use crate::prefix::lemma_code_fits;
use crate::prefix::lemma_code_in_run;
use crate::prefix::lemma_code_no_prefix;
use crate::weights::MAX_SYMBOLS;
use crate::weights::all_positive;
use crate::weights::distribute_weights;
use crate::weights::distributed_weights;
use crate::weights::pow2_sum;
use crate::weights::prefix_sum;
use crate::weights::redistribute_weights;
use crate::weights::redistributed_weights;
use vstd::arithmetic::power2::lemma2_to64;
use vstd::arithmetic::power2::lemma2_to64_rest;
use vstd::arithmetic::power2::lemma_pow2_pos;
use vstd::arithmetic::power2::lemma_pow2_unfold;
use vstd::arithmetic::power2::pow2;
use vstd::prelude::*;

verus! {

/// What a symbol of weight `w` adds to the weight sum: nothing where the
/// weight is 0, which says that the symbol does not occur, else `2^(w-1)`.
pub open spec fn weight_term(w: usize) -> nat {
    if w == 0 {
        0
    } else {
        pow2((w - 1) as nat)
    }
}

/// The sum of `2^(w-1)` over the weights that are not 0.
pub open spec fn weight_sum(weights: Seq<usize>) -> nat
    decreases weights.len(),
{
    if weights.len() == 0 {
        0
    } else {
        weight_sum(weights.drop_last()) + weight_term(weights.last())
    }
}

/// Whether a table can be built from the weights: there are at most
/// [`MAX_SYMBOLS`] of them, and their weight sum is a power of two (Kraft's
/// equality) that fits the machine.
pub open spec fn valid_weights(weights: Seq<usize>) -> bool {
    &&& weights.len() <= MAX_SYMBOLS
    &&& is_power_of_two(weight_sum(weights))
    &&& weight_sum(weights) <= usize::MAX
}

/// The number of bits of the longest code: the exponent of the weight sum.
pub open spec fn max_num_bits(weights: Seq<usize>) -> nat {
    (bit_length(weight_sum(weights)) - 1) as nat
}

/// How many of the weights are `w`.
pub open spec fn count_weight(weights: Seq<usize>, w: usize) -> nat
    decreases weights.len(),
{
    if weights.len() == 0 {
        0
    } else {
        count_weight(weights.drop_last(), w) + if weights.last() == w {
            1nat
        } else {
            0nat
        }
    }
}

/// The code value at which the run of codes of the weight `level + 1`
/// starts. The symbols of one weight form a run, the runs go from the least
/// weight up, and from each weight level to the next, whose codes are one
/// bit shorter, the start goes to the half of where the run ended. A level
/// without symbols has an empty run and halves the start all the same.
pub open spec fn run_start(weights: Seq<usize>, level: nat) -> nat
    decreases level,
{
    if level == 0 {
        0
    } else {
        (run_start(weights, (level - 1) as nat) + count_weight(weights, level as usize)) / 2
    }
}

/// The number of symbols before `symbol` that have its weight.
pub open spec fn rank_in_run(weights: Seq<usize>, symbol: int) -> nat {
    count_weight(weights.take(symbol), weights[symbol])
}

/// The code of `symbol`: 0 where its weight is 0, else the start of the run
/// of its weight plus its rank in the run.
pub open spec fn code_value(weights: Seq<usize>, symbol: int) -> nat {
    if weights[symbol] == 0 {
        0
    } else {
        run_start(weights, (weights[symbol] - 1) as nat) + rank_in_run(weights, symbol)
    }
}

/// The number of bits of the code of `symbol`: 0 where its weight is 0, else
/// as many bits less than the longest code has as its weight is above 1.
pub open spec fn code_bits(weights: Seq<usize>, symbol: int) -> nat {
    if weights[symbol] == 0 {
        0
    } else {
        (max_num_bits(weights) - weights[symbol] + 1) as nat
    }
}

/// The table for the weights: for each symbol its code and the number of
/// bits of the code.
pub open spec fn code_table(weights: Seq<usize>) -> Seq<(u32, u8)> {
    Seq::new(
        weights.len(),
        |symbol: int| (code_value(weights, symbol) as u32, code_bits(weights, symbol) as u8),
    )
}

/// A symbol that occurs, with its weight.
#[derive(Clone, Copy)]
pub struct SortEntry {
    /// The symbol.
    pub symbol: u8,
    /// Its weight, which is not 0.
    pub weight: usize,
}

/// Whether `a` comes before `b`: by weight, and by symbol where the weights
/// are equal.
pub open spec fn entry_before(a: SortEntry, b: SortEntry) -> bool {
    a.weight < b.weight || (a.weight == b.weight && a.symbol < b.symbol)
}

/// Whether `entries` are the symbols below `upto` that occur, each with its
/// weight, in rising order.
pub open spec fn is_sorted_entries(weights: Seq<usize>, entries: Seq<SortEntry>, upto: int) -> bool {
    &&& forall|p: int|
        0 <= p < entries.len() ==> (#[trigger] entries[p]).symbol < upto && entries[p].weight > 0
            && weights[entries[p].symbol as int] == entries[p].weight
    &&& forall|p: int, q: int|
        0 <= p < q < entries.len() ==> entry_before(#[trigger] entries[p], #[trigger] entries[q])
    &&& forall|s: int|
        0 <= s < upto && #[trigger] weights[s] > 0 ==> exists|p: int|
            0 <= p < entries.len() && (#[trigger] entries[p]).symbol == s
}

/// The symbols that occur, each with its weight, sorted by weight and, where
/// weights are equal, by symbol.
pub fn sorted_entries(weights: &[usize]) -> (entries: Vec<SortEntry>)
    requires
        weights@.len() <= MAX_SYMBOLS,
    ensures
        is_sorted_entries(weights@, entries@, weights@.len() as int),
        entries@.len() + count_weight(weights@, 0) == weights@.len(),
{
    let mut sorted: Vec<SortEntry> = Vec::new();
    let mut symbol: usize = 0;
    proof {
        assert(weights@.take(0) =~= Seq::<usize>::empty());
    }
    while symbol < weights.len()
        invariant
            symbol <= weights@.len() <= MAX_SYMBOLS,
            is_sorted_entries(weights@, sorted@, symbol as int),
            sorted@.len() + count_weight(weights@.take(symbol as int), 0) == symbol,
        decreases weights@.len() - symbol,
    {
        let weight = weights[symbol];
        proof {
            assert(weights@.take(symbol + 1).drop_last() =~= weights@.take(symbol as int));
        }
        if weight > 0 {
            let entry = SortEntry { symbol: symbol as u8, weight };
            let mut pos: usize = 0;
            while pos < sorted.len() && sorted[pos].weight <= weight
                invariant
                    pos <= sorted@.len(),
                    forall|p: int| 0 <= p < pos ==> (#[trigger] sorted@[p]).weight <= weight,
                decreases sorted@.len() - pos,
            {
                pos += 1;
            }
            let ghost before = sorted@;
            sorted.insert(pos, entry);
            proof {
                let after = sorted@;
                assert forall|p: int, q: int| 0 <= p < q < after.len() implies entry_before(
                    #[trigger] after[p],
                    #[trigger] after[q],
                ) by {
                    if q == pos {
                        assert(after[p] == before[p]);
                    } else if p == pos {
                        assert(after[q] == before[q - 1]);
                        if pos < q - 1 {
                            assert(entry_before(before[pos as int], before[q - 1]));
                        }
                    } else {
                        let moved_p = if p < pos {
                            p
                        } else {
                            p - 1
                        };
                        let moved_q = if q < pos {
                            q
                        } else {
                            q - 1
                        };
                        assert(after[p] == before[moved_p]);
                        assert(after[q] == before[moved_q]);
                        assert(entry_before(before[moved_p], before[moved_q]));
                    }
                }
                assert forall|s: int| 0 <= s < symbol + 1 && #[trigger] weights@[s] > 0 implies exists|
                    p: int,
                |
                    0 <= p < after.len() && (#[trigger] after[p]).symbol == s by {
                    if s == symbol {
                        assert(after[pos as int].symbol == s);
                    } else {
                        let moved_p = choose|p: int|
                            0 <= p < before.len() && (#[trigger] before[p]).symbol == s;
                        let shifted_p = if moved_p < pos {
                            moved_p
                        } else {
                            moved_p + 1
                        };
                        assert(after[shifted_p] == before[moved_p]);
                    }
                }
                assert forall|p: int| 0 <= p < after.len() implies (#[trigger] after[p]).symbol
                    < symbol + 1 && after[p].weight > 0 && weights@[after[p].symbol as int]
                    == after[p].weight by {
                    if p < pos {
                        assert(after[p] == before[p]);
                    } else if p > pos {
                        assert(after[p] == before[p - 1]);
                    }
                }
            }
        }
        symbol += 1;
    }
    proof {
        assert(weights@.take(weights@.len() as int) =~= weights@);
    }
    sorted
}

/// With valid weights, the weight sum is 2 to the number of bits of the
/// longest code, and no weight is more than one above that number.
pub proof fn lemma_max_num_bits(weights: Seq<usize>)
    requires
        valid_weights(weights),
    ensures
        weight_sum(weights) == pow2(max_num_bits(weights)),
        max_num_bits(weights) < 64,
        forall|s: int| 0 <= s < weights.len() ==> #[trigger] weights[s] <= max_num_bits(weights) + 1,
{
    let e = choose|e: nat| weight_sum(weights) == pow2(e);
    lemma_bit_length_pow2(e);
    lemma2_to64();
    lemma2_to64_rest();
    lemma_pow2_order(e, 64);
    assert forall|s: int| 0 <= s < weights.len() implies #[trigger] weights[s] <= max_num_bits(
        weights,
    ) + 1 by {
        lemma_weight_sum_prefix(weights, s);
        if weights[s] > 0 {
            lemma_pow2_order((weights[s] - 1) as nat, e);
        }
    }
}

/// The sum of `2^(w-1)` over the weights that are not 0.
pub fn sum_weights(weights: &[usize]) -> (sum: usize)
    requires
        valid_weights(weights@),
    ensures
        sum == weight_sum(weights@),
{
    let mut sum: usize = 0;
    let mut i: usize = 0;
    proof {
        assert(weights@.take(0) =~= Seq::<usize>::empty());
    }
    while i < weights.len()
        invariant
            i <= weights@.len(),
            valid_weights(weights@),
            sum == weight_sum(weights@.take(i as int)),
        decreases weights@.len() - i,
    {
        let weight = weights[i];
        proof {
            lemma_weight_sum_prefix(weights@, i as int);
            lemma_weight_sum_prefix(weights@, i + 1);
            lemma_max_num_bits(weights@);
        }
        if weight > 0 {
            sum = sum + pow2_u64(weight - 1) as usize;
        }
        i += 1;
    }
    proof {
        assert(weights@.take(weights@.len() as int) =~= weights@);
    }
    sum
}

/// How many of the weights are `w`.
pub fn count_of_weight(weights: &[usize], w: usize) -> (count: usize)
    ensures
        count == count_weight(weights@, w),
        count <= weights@.len(),
{
    let mut count: usize = 0;
    let mut i: usize = 0;
    proof {
        assert(weights@.take(0) =~= Seq::<usize>::empty());
    }
    while i < weights.len()
        invariant
            i <= weights@.len(),
            count <= i,
            count == count_weight(weights@.take(i as int), w),
        decreases weights@.len() - i,
    {
        proof {
            lemma_count_step(weights@, i as int, w);
        }
        if weights[i] == w {
            count += 1;
        }
        i += 1;
    }
    proof {
        assert(weights@.take(weights@.len() as int) =~= weights@);
    }
    count
}

/// Whether a table can be built from the weights.
pub fn weights_are_valid(weights: &[usize]) -> (valid: bool)
    ensures
        valid == valid_weights(weights@),
{
    if weights.len() > MAX_SYMBOLS {
        return false;
    }
    let mut sum: usize = 0;
    let mut i: usize = 0;
    proof {
        assert(weights@.take(0) =~= Seq::<usize>::empty());
    }
    while i < weights.len()
        invariant
            i <= weights@.len(),
            sum == weight_sum(weights@.take(i as int)),
        decreases weights@.len() - i,
    {
        let weight = weights[i];
        proof {
            lemma_weight_sum_prefix(weights@, i as int);
            lemma_weight_sum_prefix(weights@, i + 1);
            lemma2_to64();
            lemma2_to64_rest();
        }
        if weight > 0 {
            if weight - 1 >= usize::BITS as usize {
                proof {
                    lemma_pow2_monotone(usize::BITS as nat, (weight - 1) as nat);
                }
                return false;
            }
            proof {
                lemma_pow2_monotone((weight - 1) as nat, (usize::BITS - 1) as nat);
            }
            let term = pow2_u64(weight - 1) as usize;
            match sum.checked_add(term) {
                Some(more) => {
                    sum = more;
                },
                None => {
                    return false;
                },
            }
        }
        i += 1;
    }
    proof {
        assert(weights@.take(weights@.len() as int) =~= weights@);
    }
    if sum == 0 {
        proof {
            if is_power_of_two(0) {
                let e = choose|e: nat| 0 == pow2(e);
                lemma_pow2_pos(e);
            }
        }
        return false;
    }
    let bits = highest_bit_set(sum);
    proof {
        lemma2_to64();
        lemma2_to64_rest();
        lemma_pow2_monotone((bits - 1) as nat, 63);
        if is_power_of_two(sum as nat) {
            let e = choose|e: nat| sum as nat == pow2(e);
            lemma_bit_length_pow2(e);
        }
    }
    pow2_u64(bits - 1) == sum as u64
}

/// Whether a table can be built from the counts.
pub fn counts_are_valid(counts: &[usize]) -> (valid: bool)
    ensures
        valid == valid_counts(counts@),
{
    if counts.len() > MAX_SYMBOLS {
        return false;
    }
    let zeros = count_of_weight(counts, 0);
    counts.len() - zeros >= 2
}

/// A Huffman table: for each symbol its code, in the low bits of the first
/// number, and the number of bits of the code. A symbol that does not occur
/// has no bits.
pub struct HuffmanTable {
    codes: Vec<(u32, u8)>,
}

impl View for HuffmanTable {
    type V = Seq<(u32, u8)>;

    closed spec fn view(&self) -> Seq<(u32, u8)> {
        self.codes@
    }
}

/// Kraft's sum of the code lengths of the first `upto` symbols, scaled by
/// `2^longest`: the sum of `2^(longest - bits)` over the symbols that occur,
/// which is `2^longest` times the sum of `2^-bits`.
pub open spec fn kraft_sum(
    weights: Seq<usize>,
    table: Seq<(u32, u8)>,
    longest: nat,
    upto: int,
) -> nat
    decreases upto,
{
    if upto <= 0 {
        0
    } else {
        kraft_sum(weights, table, longest, upto - 1) + if weights[upto - 1] > 0 {
            pow2((longest - table[upto - 1].1) as nat)
        } else {
            0nat
        }
    }
}

/// Kraft's equality: in the table for valid weights no code has more bits
/// than the longest, and the sum of `2^-bits` over the symbols that occur is
/// exactly 1, which is to say that the sum of `2^(longest - bits)` is
/// `2^longest`.
pub proof fn lemma_kraft_equality(weights: Seq<usize>)
    requires
        valid_weights(weights),
    ensures
        forall|s: int|
            0 <= s < weights.len() ==> (#[trigger] code_table(weights)[s]).1 <= max_num_bits(
                weights,
            ),
        kraft_sum(weights, code_table(weights), max_num_bits(weights), weights.len() as int)
            == pow2(max_num_bits(weights)),
{
    lemma_max_num_bits(weights);
    lemma_kraft_prefix(weights, weights.len() as int);
    assert(weights.take(weights.len() as int) =~= weights);
    assert forall|s: int| 0 <= s < weights.len() implies (#[trigger] code_table(weights)[s]).1
        <= max_num_bits(weights) by {
        assert(weights[s] <= max_num_bits(weights) + 1);
    }
}

/// Whether the code `short` of `short_bits` bits is the beginning of the code
/// `long` of `long_bits` bits: it is no longer, and the first `short_bits`
/// bits of `long` are `short`.
pub open spec fn is_prefix(short: nat, short_bits: nat, long: nat, long_bits: nat) -> bool {
    short_bits <= long_bits && long / pow2((long_bits - short_bits) as nat) == short
}

/// Whether `table` is a prefix code for the symbols that occur, those whose
/// weight is not 0: the code of each is below 2 to the number of its bits,
/// and the code of none is the beginning of the code of another.
pub open spec fn is_prefix_code(weights: Seq<usize>, table: Seq<(u32, u8)>) -> bool {
    &&& table.len() == weights.len()
    &&& forall|s: int|
        0 <= s < weights.len() && weights[s] > 0 ==> (#[trigger] table[s]).0 < pow2(
            table[s].1 as nat,
        )
    &&& forall|s: int, t: int|
        0 <= s < weights.len() && 0 <= t < weights.len() && s != t && weights[s] > 0 && weights[t]
            > 0 ==> !is_prefix(
            (#[trigger] table[s]).0 as nat,
            table[s].1 as nat,
            (#[trigger] table[t]).0 as nat,
            table[t].1 as nat,
        )
}

/// The table for valid weights is a prefix code. So a reader that knows the
/// lengths of the codes alone can rebuild the codes and tell them apart.
pub proof fn lemma_prefix_free(weights: Seq<usize>)
    requires
        valid_weights(weights),
    ensures
        is_prefix_code(weights, code_table(weights)),
{
    let table = code_table(weights);
    lemma_max_num_bits(weights);
    assert forall|s: int| 0 <= s < weights.len() && weights[s] > 0 implies (#[trigger] table[s]).0
        == code_value(weights, s) && table[s].1 == code_bits(weights, s) && code_value(weights, s)
        < pow2(code_bits(weights, s)) by {
        assert(weights[s] <= max_num_bits(weights) + 1);
        lemma_code_in_run(weights, s);
        lemma_run_start_bound(weights, (weights[s] - 1) as nat);
        lemma_count_member(weights, s);
        lemma_code_fits(weights, s);
    }
    assert forall|s: int, t: int|
        0 <= s < weights.len() && 0 <= t < weights.len() && s != t && weights[s] > 0 && weights[t]
            > 0 implies !is_prefix(
        (#[trigger] table[s]).0 as nat,
        table[s].1 as nat,
        (#[trigger] table[t]).0 as nat,
        table[t].1 as nat,
    ) by {
        if code_bits(weights, s) <= code_bits(weights, t) {
            lemma_code_no_prefix(weights, s, t);
        }
    }
}

/// Whether symbol `t` occurs and comes before symbol `s` in the order by
/// count and, where counts are equal, by symbol.
pub open spec fn precedes(counts: Seq<usize>, t: int, s: int) -> bool {
    counts[t] > 0 && (counts[t] < counts[s] || (counts[t] == counts[s] && t < s))
}

/// The number of symbols below `upto` that come before `s`.
pub open spec fn count_before(counts: Seq<usize>, s: int, upto: int) -> nat
    decreases upto,
{
    if upto <= 0 {
        0
    } else {
        count_before(counts, s, upto - 1) + if precedes(counts, upto - 1, s) {
            1nat
        } else {
            0nat
        }
    }
}

/// The rank of symbol `s` by count: the number of symbols that occur and
/// have a smaller count, or the same count and a smaller number.
pub open spec fn count_rank(counts: Seq<usize>, s: int) -> nat {
    count_before(counts, s, counts.len() as int)
}

/// The number of symbols that occur.
pub open spec fn count_nonzero(counts: Seq<usize>) -> nat {
    (counts.len() - count_weight(counts, 0)) as nat
}

/// The weights for `amount` symbols that occur, from the least frequent to
/// the most frequent: the first distribution, corrected for a ceiling of two
/// more than the binary logarithm of `amount`, rounded up.
pub open spec fn ranked_weights(amount: nat) -> Seq<usize> {
    redistributed_weights(distributed_weights(amount), (ceil_log2(amount) + 2) as usize)
}

/// The weight of each symbol by its count: 0 where the symbol does not
/// occur, else the weight of its rank.
pub open spec fn weights_of_counts(counts: Seq<usize>) -> Seq<usize> {
    Seq::new(
        counts.len(),
        |s: int|
            if counts[s] == 0 {
                0
            } else {
                ranked_weights(count_nonzero(counts))[count_rank(counts, s) as int]
            },
    )
}

/// Whether a table can be built from the counts: there are at most
/// [`MAX_SYMBOLS`] of them, and at least two are not 0.
pub open spec fn valid_counts(counts: Seq<usize>) -> bool {
    counts.len() <= MAX_SYMBOLS && count_nonzero(counts) >= 2
}

/// Gives each symbol that occurs the weight of its place among the sorted
/// symbols, and every other symbol the weight 0.
fn assign_weights(counts: &[usize], entries: &Vec<SortEntry>, weights: &Vec<usize>) -> (assigned:
    Vec<usize>)
    requires
        is_sorted_entries(counts@, entries@, counts@.len() as int),
        entries@.len() == weights@.len(),
        all_positive(weights@),
    ensures
        is_assigned(counts@, entries@, weights@, assigned@),
        2 * weight_sum(assigned@) == pow2_sum(weights@),
{
    let amount = entries.len();
    let mut assigned: Vec<usize> = Vec::new();
    let mut filled: usize = 0;
    while filled < counts.len()
        invariant
            filled <= counts@.len(),
            assigned@.len() == filled,
            forall|s: int| 0 <= s < filled ==> #[trigger] assigned@[s] == 0,
        decreases counts@.len() - filled,
    {
        assigned.push(0);
        filled += 1;
    }
    proof {
        lemma_weight_sum_zero(assigned@);
        assert(weights@.take(0) =~= Seq::<usize>::empty());
    }
    let mut rank: usize = 0;
    while rank < amount
        invariant
            rank <= amount,
            amount == entries@.len(),
            amount == weights@.len(),
            all_positive(weights@),
            is_sorted_entries(counts@, entries@, counts@.len() as int),
            assigned@.len() == counts@.len(),
            forall|q: int|
                0 <= q < rank ==> assigned@[(#[trigger] entries@[q]).symbol as int] == weights@[q],
            forall|q: int|
                rank <= q < amount ==> assigned@[(#[trigger] entries@[q]).symbol as int] == 0,
            forall|s: int| 0 <= s < counts@.len() && counts@[s] == 0 ==> #[trigger] assigned@[s] == 0,
            2 * weight_sum(assigned@) == prefix_sum(weights@, rank as int),
        decreases amount - rank,
    {
        let entry = entries[rank];
        let ghost before = assigned@;
        proof {
            assert forall|q: int| 0 <= q < amount && q != rank implies (#[trigger] entries@[q]).symbol
                != entry.symbol by {
                if q < rank {
                    assert(entry_before(entries@[q], entries@[rank as int]));
                } else {
                    assert(entry_before(entries@[rank as int], entries@[q]));
                }
            }
            lemma_weight_sum_update(before, entry.symbol as int, weights@[rank as int]);
            assert(weights@.take(rank + 1).drop_last() =~= weights@.take(rank as int));
            lemma_pow2_unfold(weights@[rank as int] as nat);
        }
        assigned.set(entry.symbol as usize, weights[rank]);
        rank += 1;
    }
    proof {
        assert(weights@.take(amount as int) =~= weights@);
    }
    assigned
}

impl HuffmanTable {
    /// The table, symbol by symbol: the code and the number of its bits.
    pub fn codes(&self) -> (codes: &Vec<(u32, u8)>)
        ensures
            codes@ == self@,
    {
        &self.codes
    }

    /// Builds the table from the weights of the symbols.
    ///
    /// A weight of 0 says that the symbol does not occur: it gets no bits. A
    /// symbol of weight `w` gets a code of `max - w + 1` bits, where `2^max`
    /// is the sum of `2^(w-1)` over the weights. The codes are given out in
    /// runs, one run for each weight from the least up and within a run by
    /// rising symbol: from one weight level to the next the start goes to
    /// half of where the run ended, so that no code is the beginning of
    /// another and the lengths of the codes alone tell the codes
    /// ([`lemma_prefix_free`]).
    pub fn build_from_weights(weights: &[usize]) -> (table: HuffmanTable)
        requires
            valid_weights(weights@),
        ensures
            table@ == code_table(weights@),
            is_prefix_code(weights@, table@),
    {
        proof {
            lemma_prefix_free(weights@);
        }
        let sorted = sorted_entries(weights);
        let mut codes: Vec<(u32, u8)> = Vec::with_capacity(weights.len());
        let mut filled: usize = 0;
        while filled < weights.len()
            invariant
                filled <= weights@.len(),
                codes@.len() == filled,
                forall|s: int| 0 <= s < filled ==> #[trigger] codes@[s] == (0u32, 0u8),
            decreases weights@.len() - filled,
        {
            codes.push((0, 0));
            filled += 1;
        }
        let total = sum_weights(weights);
        proof {
            lemma_max_num_bits(weights@);
            lemma_pow2_pos(max_num_bits(weights@));
        }
        // The sum is a power of two, so this is its exponent.
        let max_bits = highest_bit_set(total) - 1;

        let mut start_value: usize = 0;
        let mut current_value: usize = 0;
        let mut current_weight: usize = 0;
        let mut current_num_bits: usize = 0;
        let mut p: usize = 0;
        while p < sorted.len()
            invariant
                valid_weights(weights@),
                is_sorted_entries(weights@, sorted@, weights@.len() as int),
                max_bits == max_num_bits(weights@),
                walk_inv(
                    weights@,
                    sorted@,
                    codes@,
                    p as int,
                    start_value,
                    current_value,
                    current_weight,
                    current_num_bits,
                ),
            decreases sorted@.len() - p,
        {
            let entry = sorted[p];
            proof {
                lemma_walk_entry(weights@, sorted@, p as int, current_weight);
                lemma_max_num_bits(weights@);
                lemma_run_start_bound(weights@, current_weight as nat);
                lemma_run_start_bound(weights@, (entry.weight - 1) as nat);
                lemma_count_member(weights@, entry.symbol as int);
            }
            if current_weight != entry.weight {
                // Each level between the last weight and this one has an
                // empty run, which halves the start.
                let skipped = entry.weight - current_weight - 1;
                proof {
                    lemma2_to64();
                    lemma2_to64_rest();
                    lemma_pow2_order(max_num_bits(weights@), usize::BITS as nat);
                    vstd::bits::lemma_usize_shr_is_div(start_value, skipped);
                }
                let count = count_of_weight(weights, entry.weight);
                current_value = start_value >> skipped;
                start_value = (current_value + count) / 2;
                current_weight = entry.weight;
                current_num_bits = max_bits + 1 - entry.weight;
            }
            let ghost before = codes@;
            codes.set(entry.symbol as usize, (current_value as u32, current_num_bits as u8));
            current_value += 1;
            proof {
                assert forall|q: int| 0 <= q < p + 1 implies codes@[(#[trigger] sorted@[q]).symbol as int]
                    == code_table(weights@)[sorted@[q].symbol as int] by {
                    if q < p {
                        assert(sorted@[q].symbol != entry.symbol);
                        assert(codes@[sorted@[q].symbol as int] == before[sorted@[q].symbol as int]);
                    }
                }
            }
            p += 1;
        }
        proof {
            assert forall|s: int| 0 <= s < weights@.len() implies codes@[s] == code_table(
                weights@,
            )[s] by {
                if weights@[s] > 0 {
                    let q = choose|q: int|
                        0 <= q < sorted@.len() && (#[trigger] sorted@[q]).symbol == s;
                    assert(codes@[sorted@[q].symbol as int] == code_table(
                        weights@,
                    )[sorted@[q].symbol as int]);
                }
            }
            assert(codes@ =~= code_table(weights@));
        }
        HuffmanTable { codes }
    }

    /// Builds the table from the counts of the symbols.
    ///
    /// A symbol with a count of 0 does not occur and gets no bits. The
    /// symbols that occur get weights by their rank alone: the least
    /// frequent gets the least weight of [`ranked_weights`], and so on up to
    /// the most frequent, where of two symbols with the same count the one
    /// with the smaller number counts as less frequent. So a symbol that
    /// occurs more often never gets a longer code. The table is that of
    /// [`HuffmanTable::build_from_weights`] for these weights, a prefix code
    /// for the symbols that occur.
    pub fn build_from_counts(counts: &[usize]) -> (table: HuffmanTable)
        requires
            valid_counts(counts@),
        ensures
            valid_weights(weights_of_counts(counts@)),
            table@ == code_table(weights_of_counts(counts@)),
            forall|s: int|
                0 <= s < counts@.len() ==> (counts@[s] > 0 <==> #[trigger] weights_of_counts(
                    counts@,
                )[s] > 0),
            is_prefix_code(weights_of_counts(counts@), table@),
            forall|s: int| 0 <= s < counts@.len() && counts@[s] == 0 ==> (#[trigger] table@[s]).1 == 0,
            forall|a: int, b: int|
                0 <= a < counts@.len() && 0 <= b < counts@.len() && counts@[b] > 0 && precedes(
                    counts@,
                    a,
                    b,
                ) ==> (#[trigger] table@[a]).1 >= (#[trigger] table@[b]).1,
    {
        let entries = sorted_entries(counts);
        let amount = entries.len();
        let mut weights = distribute_weights(amount);
        let limit = highest_bit_set(amount - 1) + 2;
        redistribute_weights(&mut weights, limit);
        assert(weights@ == ranked_weights(count_nonzero(counts@)));

        let weights_distributed = assign_weights(counts, &entries, &weights);
        proof {
            assert(weights@.take(amount as int) =~= weights@);
            lemma2_to64();
            lemma_pow2_monotone(1, weights@[0] as nat);
            assert(weights@.take(1).drop_last() =~= Seq::<usize>::empty());
            assert(pow2_sum(weights@.take(1)) >= 2);
            lemma_sum_grows(weights@, 1);
            lemma_assigned_weights(counts@, entries@, weights@, weights_distributed@);
            lemma_half_sum_valid(weights@, weights_distributed@);
        }
        let table = HuffmanTable::build_from_weights(weights_distributed.as_slice());
        proof {
            assert forall|s: int| 0 <= s < counts@.len() implies (counts@[s] > 0
                <==> #[trigger] weights_of_counts(counts@)[s] > 0) by {
                if counts@[s] > 0 {
                    let q = choose|q: int|
                        0 <= q < entries@.len() && (#[trigger] entries@[q]).symbol == s;
                    assert(weights_distributed@[entries@[q].symbol as int] == weights@[q]);
                }
            }
            assert forall|a: int, b: int|
                0 <= a < counts@.len() && 0 <= b < counts@.len() && counts@[b] > 0 && precedes(
                    counts@,
                    a,
                    b,
                ) implies (#[trigger] table@[a]).1 >= (#[trigger] table@[b]).1 by {
                lemma_bits_monotone(counts@, entries@, weights@, weights_distributed@, a, b);
            }
        }
        table
    }
}

} // verus!
