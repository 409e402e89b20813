use zstd_encoder::bits::highest_bit_set;
use zstd_encoder::bits::pow2_u64;
use zstd_encoder::table::count_of_weight;
use zstd_encoder::table::counts_are_valid;
use zstd_encoder::table::weights_are_valid;
use zstd_encoder::table::sorted_entries;
use zstd_encoder::table::sum_weights;
use zstd_encoder::table::HuffmanTable;
use zstd_encoder::weights::distribute_weights;
use zstd_encoder::weights::redistribute_weights;

#[test]
fn huffman() {
    let table = HuffmanTable::build_from_weights(&[2, 2, 2, 1, 1]);
    assert_eq!(table.codes()[0], (1, 2));
    assert_eq!(table.codes()[1], (2, 2));
    assert_eq!(table.codes()[2], (3, 2));
    assert_eq!(table.codes()[3], (0, 3));
    assert_eq!(table.codes()[4], (1, 3));

    let table = HuffmanTable::build_from_weights(&[4, 3, 2, 0, 1, 1]);
    assert_eq!(table.codes()[0], (1, 1));
    assert_eq!(table.codes()[1], (1, 2));
    assert_eq!(table.codes()[2], (1, 3));
    assert_eq!(table.codes()[3], (0, 0));
    assert_eq!(table.codes()[4], (0, 4));
    assert_eq!(table.codes()[5], (1, 4));
}

#[test]
fn weights() {
    // assert_eq!(distribute_weights(5).as_slice(), &[1, 1, 2, 3, 4]);
    for amount in 2..=256 {
        let mut weights = distribute_weights(amount);
        assert_eq!(weights.len(), amount);
        let sum = weights
            .iter()
            .copied()
            .map(|weight| 1 << weight)
            .sum::<usize>();
        assert!(sum.is_power_of_two());

        redistribute_weights(&mut weights, amount.ilog2() as usize + 1);
        let sum = weights
            .iter()
            .copied()
            .map(|weight| 1 << weight)
            .sum::<usize>();
        assert!(sum.is_power_of_two());

        let max_weight = amount.ilog2() as usize + 3;
        assert!(
            *weights.last().unwrap() <= max_weight,
            "{} {weights:?}",
            max_weight
        );
    }
}

#[test]
fn counts() {
    let counts = &[3, 0, 4, 1, 5];
    let table = HuffmanTable::build_from_counts(counts);
    let table = table.codes();

    assert_eq!(table[1].1, 0);
    assert!(table[3].1 >= table[0].1);
    assert!(table[0].1 >= table[2].1);
    assert!(table[2].1 >= table[4].1);

    let counts = &[3, 0, 4, 0, 7, 2, 2, 2, 0, 2, 2, 1, 5];
    let table = HuffmanTable::build_from_counts(counts);
    let table = table.codes();

    assert_eq!(table[1].1, 0);
    assert_eq!(table[3].1, 0);
    assert_eq!(table[8].1, 0);
    assert!(table[11].1 >= table[5].1);
    assert!(table[5].1 >= table[6].1);
    assert!(table[6].1 >= table[7].1);
    assert!(table[7].1 >= table[9].1);
    assert!(table[9].1 >= table[10].1);
    assert!(table[10].1 >= table[0].1);
    assert!(table[0].1 >= table[2].1);
    assert!(table[2].1 >= table[12].1);
    assert!(table[12].1 >= table[4].1);
}

#[test]
fn distribute_weights_exact() {
    assert_eq!(distribute_weights(2), vec![1, 1]);
    assert_eq!(distribute_weights(3), vec![1, 1, 2]);
    assert_eq!(distribute_weights(4), vec![1, 1, 1, 1]);
    assert_eq!(distribute_weights(5), vec![1, 1, 1, 1, 3]);
    assert_eq!(distribute_weights(6), vec![1, 1, 1, 1, 3, 4]);
    assert_eq!(distribute_weights(7), vec![1, 1, 1, 1, 3, 3, 3]);
    assert_eq!(
        distribute_weights(13),
        vec![1, 1, 1, 1, 1, 1, 1, 1, 4, 4, 4, 6, 7]
    );
}

#[test]
fn distribute_weights_are_sorted_and_bounded() {
    let mut largest = 0;
    for amount in 2..=256 {
        let weights = distribute_weights(amount);
        assert!(weights.windows(2).all(|pair| pair[0] <= pair[1]));
        assert!(weights[0] >= 1);
        largest = largest.max(*weights.last().unwrap());
    }
    assert_eq!(largest, 29);
}

#[test]
fn redistribute_weights_exact() {
    // Not above the ceiling: nothing changes.
    let mut weights = vec![1, 1, 1, 1, 3];
    redistribute_weights(&mut weights, 3);
    assert_eq!(weights, vec![1, 1, 1, 1, 3]);

    // Above the ceiling by 1: nothing is below the floor of 1.
    let mut weights = vec![1, 1, 1, 1, 3, 4];
    redistribute_weights(&mut weights, 3);
    assert_eq!(weights, vec![1, 1, 1, 1, 3, 4]);

    // Above the ceiling by 2: the ones are raised to 2, which costs 16; two
    // of the fours repay 8 each; all are lowered by 1.
    let mut weights = vec![1, 1, 1, 1, 1, 1, 1, 1, 4, 4, 4, 6, 7];
    redistribute_weights(&mut weights, 5);
    assert_eq!(weights, vec![1, 1, 1, 1, 1, 1, 1, 1, 2, 2, 3, 5, 6]);

    // Above the ceiling by 3.
    let mut weights = vec![1, 1, 1, 1, 1, 1, 1, 1, 4, 4, 4, 6, 7];
    redistribute_weights(&mut weights, 4);
    assert_eq!(weights, vec![1, 1, 1, 1, 1, 1, 1, 1, 2, 2, 2, 2, 5]);

    // A ceiling of 0 makes the last weight the floor.
    let mut weights = vec![1, 1, 2, 3];
    redistribute_weights(&mut weights, 0);
    assert_eq!(weights, vec![1, 1, 1, 1]);

    let mut weights = vec![1, 1, 1, 1, 3];
    redistribute_weights(&mut weights, 0);
    assert_eq!(weights, vec![1, 1, 2, 2, 2]);
}

#[test]
fn redistribute_weights_keeps_kraft_for_the_table_ceiling() {
    for amount in 2..=256usize {
        let mut weights = distribute_weights(amount);
        let before = weights.clone();
        redistribute_weights(&mut weights, amount.ilog2() as usize + 2);
        assert_eq!(weights.len(), amount);
        assert!(weights.windows(2).all(|pair| pair[0] <= pair[1]));
        assert!(weights[0] >= 1);
        let sum: u64 = weights.iter().map(|w| 1u64 << w).sum();
        assert!(sum.is_power_of_two());
        if *before.last().unwrap() > amount.ilog2() as usize + 2 {
            assert_eq!(weights[0], 1);
        } else {
            assert_eq!(weights, before);
        }
    }
}

#[test]
fn build_from_weights_kraft_equality() {
    let cases: [&[usize]; 5] = [
        &[2, 2, 2, 1, 1],
        &[4, 3, 2, 0, 1, 1],
        &[1, 1],
        &[0, 3, 0],
        &[1, 1, 1, 1, 3, 4],
    ];
    for weights in cases {
        let table = HuffmanTable::build_from_weights(weights);
        let codes = table.codes();
        assert_eq!(codes.len(), weights.len());
        let longest = codes.iter().map(|c| c.1).max().unwrap();
        let mut sum = 0u64;
        for (symbol, weight) in weights.iter().enumerate() {
            if *weight > 0 {
                sum += 1u64 << (longest - codes[symbol].1);
            } else {
                assert_eq!(codes[symbol], (0, 0));
            }
        }
        let present = weights.iter().filter(|w| **w > 0).count();
        if present > 1 {
            assert_eq!(sum, 1u64 << longest);
        } else {
            assert_eq!(sum, 1);
        }
    }
}

#[test]
fn build_from_weights_single_symbol_has_no_bits() {
    let table = HuffmanTable::build_from_weights(&[0, 3, 0]);
    assert_eq!(table.codes(), &vec![(0, 0), (0, 0), (0, 0)]);
    let table = HuffmanTable::build_from_weights(&[1]);
    assert_eq!(table.codes(), &vec![(0, 0)]);
}

#[test]
fn build_from_weights_halves_the_start_at_every_level() {
    // Weights 1, 1, 1, 1 then 3: the run of weight 1 ends at 4, the empty
    // run of weight 2 starts at 2 and ends there, the run of weight 3
    // starts at 1.
    let table = HuffmanTable::build_from_weights(&[1, 1, 1, 1, 3]);
    assert_eq!(
        table.codes(),
        &vec![(0, 3), (1, 3), (2, 3), (3, 3), (1, 1)]
    );
    // With one more run at weight 4, which starts at (1 + 1) / 2.
    let table = HuffmanTable::build_from_weights(&[1, 1, 1, 1, 3, 4]);
    assert_eq!(
        table.codes(),
        &vec![(0, 4), (1, 4), (2, 4), (3, 4), (1, 2), (1, 1)]
    );
    // Symbols of one weight are numbered by rising symbol, whatever lies
    // between them.
    let table = HuffmanTable::build_from_weights(&[1, 2, 1, 0, 2, 2]);
    assert_eq!(
        table.codes(),
        &vec![(0, 3), (1, 2), (1, 3), (0, 0), (2, 2), (3, 2)]
    );
}

/// Whether each code of a symbol that occurs is below 2 to its bits and
/// none is the beginning of another.
fn is_prefix_code(codes: &[(u32, u8)], occurs: &[bool]) -> bool {
    for s in 0..codes.len() {
        if !occurs[s] {
            continue;
        }
        let (code, bits) = codes[s];
        if code as u64 >= 1u64 << bits {
            return false;
        }
        for t in 0..codes.len() {
            if t != s && occurs[t] && bits <= codes[t].1 {
                if codes[t].0 >> (codes[t].1 - bits) == code {
                    return false;
                }
            }
        }
    }
    true
}

#[test]
fn tables_are_prefix_codes() {
    let cases: [&[usize]; 6] = [
        &[2, 2, 2, 1, 1],
        &[4, 3, 2, 0, 1, 1],
        &[1, 1, 1, 1, 3],
        &[1, 1, 1, 1, 3, 4],
        &[0, 3, 0],
        &[2, 2, 0, 2, 2, 4],
    ];
    for weights in cases {
        let table = HuffmanTable::build_from_weights(weights);
        let occurs: Vec<bool> = weights.iter().map(|w| *w > 0).collect();
        assert!(is_prefix_code(table.codes(), &occurs));
    }
    // The tables for counts, whose weights skip levels.
    for amount in 2..=256usize {
        let counts: Vec<usize> = (0..amount).map(|i| (i * 37) % 101 + 1).collect();
        let table = HuffmanTable::build_from_counts(&counts);
        assert!(is_prefix_code(table.codes(), &vec![true; amount]));
    }
    let table = HuffmanTable::build_from_counts(&[1, 2, 3, 4, 5]);
    assert_eq!(
        table.codes(),
        &vec![(0, 3), (1, 3), (2, 3), (3, 3), (1, 1)]
    );
}

#[test]
fn build_from_counts_exact() {
    // Three symbols occur: weights 1, 1, 2 by rising count.
    let table = HuffmanTable::build_from_counts(&[3, 0, 4, 1]);
    assert_eq!(table.codes(), &vec![(0, 2), (0, 0), (1, 1), (1, 2)]);
    // Equal counts: the smaller symbol counts as less frequent.
    let table = HuffmanTable::build_from_counts(&[1, 1, 1]);
    assert_eq!(table.codes(), &vec![(0, 2), (1, 2), (1, 1)]);
    let table = HuffmanTable::build_from_counts(&[9, 2]);
    assert_eq!(table.codes(), &vec![(0, 1), (1, 1)]);
}

#[test]
fn build_from_counts_full_alphabet() {
    let counts: Vec<usize> = (0..256).map(|i| (i * 37) % 101 + 1).collect();
    let table = HuffmanTable::build_from_counts(&counts);
    let codes = table.codes();
    assert_eq!(codes.len(), 256);
    let longest = codes.iter().map(|c| c.1).max().unwrap();
    let sum: u64 = codes.iter().map(|c| 1u64 << (longest - c.1)).sum();
    assert_eq!(sum, 1u64 << longest);
    for a in 0..256 {
        for b in 0..256 {
            if counts[a] < counts[b] {
                assert!(codes[a].1 >= codes[b].1);
            }
        }
    }
}

#[test]
fn sorted_entries_order() {
    let entries = sorted_entries(&[4, 3, 2, 0, 1, 1]);
    let order: Vec<(u8, usize)> = entries.iter().map(|e| (e.symbol, e.weight)).collect();
    assert_eq!(order, vec![(4, 1), (5, 1), (2, 2), (1, 3), (0, 4)]);
    assert!(sorted_entries(&[0, 0]).is_empty());
}

#[test]
fn weight_sums_and_counts() {
    assert_eq!(sum_weights(&[4, 3, 2, 0, 1, 1]), 16);
    assert_eq!(sum_weights(&[2, 2, 2, 1, 1]), 8);
    assert_eq!(count_of_weight(&[4, 3, 2, 0, 1, 1], 1), 2);
    assert_eq!(count_of_weight(&[4, 3, 2, 0, 1, 1], 5), 0);
}

#[test]
fn bit_helpers() {
    assert_eq!(highest_bit_set(1), 1);
    assert_eq!(highest_bit_set(2), 2);
    assert_eq!(highest_bit_set(3), 2);
    assert_eq!(highest_bit_set(16), 5);
    assert_eq!(highest_bit_set(usize::MAX), usize::BITS as usize);
    assert_eq!(pow2_u64(0), 1);
    assert_eq!(pow2_u64(10), 1024);
    assert_eq!(pow2_u64(63), 1 << 63);
}

#[test]
fn validity_of_weights() {
    assert!(weights_are_valid(&[2, 2, 2, 1, 1]));
    assert!(weights_are_valid(&[4, 3, 2, 0, 1, 1]));
    assert!(weights_are_valid(&[1]));
    assert!(weights_are_valid(&[0, 5]));
    // The weight sum is 3, 0 and 6.
    assert!(!weights_are_valid(&[1, 2]));
    assert!(!weights_are_valid(&[]));
    assert!(!weights_are_valid(&[0, 0]));
    assert!(!weights_are_valid(&[1, 1, 3]));
    // A term that does not fit the machine.
    assert!(!weights_are_valid(&[usize::MAX]));
    assert!(!weights_are_valid(&[usize::BITS as usize + 1]));
    assert!(weights_are_valid(&[usize::BITS as usize]));
    assert!(!weights_are_valid(&[usize::BITS as usize, usize::BITS as usize]));
    // Too many symbols.
    let mut long = vec![0; 257];
    long[0] = 1;
    assert!(!weights_are_valid(&long));
    assert!(weights_are_valid(&long[..256]));
}

#[test]
fn validity_of_counts() {
    assert!(counts_are_valid(&[3, 0, 4, 1, 5]));
    assert!(counts_are_valid(&[1, 1]));
    assert!(!counts_are_valid(&[1, 0]));
    assert!(!counts_are_valid(&[]));
    assert!(!counts_are_valid(&[0, 0, 0]));
    assert!(counts_are_valid(&vec![1; 256]));
    assert!(!counts_are_valid(&vec![1; 257]));
}

#[test]
fn build_from_counts_ceiling_is_the_logarithm_rounded_up() {
    // Thirteen symbols: the first distribution ends with the weights 6 and
    // 7; the ceiling is 4 + 2, so that the last weight is above it by 1 and
    // nothing is below that floor.
    let counts: Vec<usize> = (1..=13).collect();
    let table = HuffmanTable::build_from_counts(&counts);
    let bits: Vec<u8> = table.codes().iter().map(|c| c.1).collect();
    assert_eq!(bits, vec![7, 7, 7, 7, 7, 7, 7, 7, 4, 4, 4, 2, 1]);
}

/// The weights as runs: each weight with the number of times it stands in
/// a row.
fn runs(weights: &[usize]) -> Vec<(usize, usize)> {
    let mut out: Vec<(usize, usize)> = Vec::new();
    for weight in weights {
        match out.last_mut() {
            Some(run) if run.0 == *weight => run.1 += 1,
            _ => out.push((*weight, 1)),
        }
    }
    out
}

#[test]
fn distribute_and_redistribute_large_amounts() {
    let weights = distribute_weights(250);
    assert_eq!(
        runs(&weights),
        vec![(1, 128), (8, 63), (14, 31), (19, 15), (23, 7), (26, 3), (28, 3)]
    );
    let mut corrected = weights.clone();
    redistribute_weights(&mut corrected, 8);
    assert_eq!(
        runs(&corrected),
        vec![(1, 2), (2, 235), (4, 1), (5, 6), (7, 1), (8, 3), (10, 2)]
    );
    let mut corrected = weights.clone();
    redistribute_weights(&mut corrected, 9);
    assert_eq!(
        runs(&corrected),
        vec![(1, 2), (2, 235), (4, 1), (5, 2), (6, 4), (8, 3), (11, 3)]
    );

    let weights = distribute_weights(100);
    assert_eq!(runs(&weights), vec![(1, 64), (7, 31), (12, 3), (14, 1), (15, 1)]);
    let mut corrected = weights.clone();
    redistribute_weights(&mut corrected, 7);
    assert_eq!(runs(&corrected), vec![(1, 96), (5, 2), (7, 2)]);
    let mut corrected = weights.clone();
    redistribute_weights(&mut corrected, 8);
    assert_eq!(runs(&corrected), vec![(1, 96), (5, 2), (8, 1), (9, 1)]);

    let weights = distribute_weights(37);
    assert_eq!(runs(&weights), vec![(1, 32), (6, 3), (8, 1), (9, 1)]);
    let mut corrected = weights.clone();
    redistribute_weights(&mut corrected, 6);
    assert_eq!(runs(&corrected), vec![(1, 32), (4, 4), (7, 1)]);
    let mut corrected = weights;
    redistribute_weights(&mut corrected, 7);
    assert_eq!(runs(&corrected), vec![(1, 32), (4, 2), (5, 1), (7, 1), (8, 1)]);
}

#[test]
fn redistribute_weights_digest_over_all_amounts() {
    // A running digest over the corrected weights of every amount, for five
    // ceilings each.
    let mut digest: u64 = 0;
    for amount in 2..=256usize {
        let floor_log = amount.ilog2() as usize;
        let ceil_log = (amount - 1).ilog2() as usize + 1;
        let weights = distribute_weights(amount);
        for ceiling in [floor_log + 1, floor_log + 2, ceil_log + 2, 0, 3] {
            let mut corrected = weights.clone();
            redistribute_weights(&mut corrected, ceiling);
            for (i, weight) in corrected.iter().enumerate() {
                digest = digest
                    .wrapping_mul(1000003)
                    .wrapping_add((*weight * (i + 1) + ceiling) as u64);
            }
        }
    }
    assert_eq!(digest, 858535217952077047);
}

#[test]
fn build_from_weights_digest_over_all_amounts() {
    // A running digest over the tables for the first distribution of every
    // amount, its weights dealt out to the symbols in steps of 7.
    let mut digest: u64 = 0;
    for amount in 2..=256usize {
        let weights = distribute_weights(amount);
        let step = if amount % 7 == 0 { 1 } else { 7 };
        let dealt: Vec<usize> = (0..amount).map(|i| weights[(i * step) % amount]).collect();
        let table = HuffmanTable::build_from_weights(&dealt);
        for (code, bits) in table.codes() {
            digest = digest
                .wrapping_mul(1000003)
                .wrapping_add(*code as u64 * 64 + *bits as u64);
        }
    }
    assert_eq!(digest, 276398388008101649);
}
