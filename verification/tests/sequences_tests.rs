use audion::error::AudionError;
use audion::sequences::{
    array_seq_binary_to_intervals, array_seq_cf_convergent, array_seq_cf_sqrt, array_seq_christoffel,
    array_seq_composition_random, array_seq_composition_random_m_parts, array_seq_compositions,
    array_seq_compositions_allowed, array_seq_compositions_allowed_m_parts, array_seq_compositions_m_parts,
    array_seq_debruijn, array_seq_euclidean, array_seq_intervals_to_binary, array_seq_necklaces,
    array_seq_necklaces_allowed, array_seq_necklaces_allowed_m_ones, array_seq_necklaces_m_ones,
    array_seq_paper_folding, array_seq_partitions, array_seq_partitions_allowed,
    array_seq_partitions_allowed_m_parts, array_seq_partitions_m_parts, array_seq_permutations,
    array_seq_random_correlated,
};
use std::cell::Cell;

fn runtime_msg<T>(r: Result<T, AudionError>) -> String {
    match r {
        Err(AudionError::RuntimeError { msg }) => msg,
        _ => panic!("expected a runtime error"),
    }
}

#[test]
fn binary_to_intervals_example() {
    assert_eq!(array_seq_binary_to_intervals("1010010001001000"), vec![2, 3, 4, 3, 4]);
    assert_eq!(array_seq_binary_to_intervals("0011"), vec![2, 1, 1]);
    assert!(array_seq_binary_to_intervals("").is_empty());
}

#[test]
fn intervals_to_binary_example_and_error() {
    assert_eq!(array_seq_intervals_to_binary(&[2, 3, 4, 3, 4]).unwrap(), "1010010001001000");
    assert_eq!(
        runtime_msg(array_seq_intervals_to_binary(&[2, 0])),
        "array_seq_intervals_to_binary() requires positive intervals"
    );
}

#[test]
fn intervals_and_binary_round_trip() {
    let b = array_seq_intervals_to_binary(&[1, 4, 2]).unwrap();
    assert_eq!(array_seq_binary_to_intervals(&b), vec![1, 4, 2]);
}

#[test]
fn compositions_of_four() {
    assert_eq!(
        array_seq_compositions(4).unwrap(),
        vec![vec![1, 1, 1, 1], vec![1, 1, 2], vec![1, 2, 1], vec![1, 3], vec![2, 1, 1], vec![2, 2], vec![3, 1], vec![4]]
    );
    assert!(array_seq_compositions(0).unwrap().is_empty());
    assert_eq!(runtime_msg(array_seq_compositions(-1)), "array_seq_compositions() requires non-negative n");
}

#[test]
fn compositions_with_constraints() {
    assert_eq!(
        array_seq_compositions_allowed(5, &[1, 3]).unwrap(),
        vec![vec![1, 1, 1, 1, 1], vec![1, 1, 3], vec![1, 3, 1], vec![3, 1, 1]]
    );
    assert_eq!(array_seq_compositions_m_parts(5, 2).unwrap(), vec![vec![1, 4], vec![2, 3], vec![3, 2], vec![4, 1]]);
    assert_eq!(
        array_seq_compositions_allowed_m_parts(8, 3, &[2, 3]).unwrap(),
        vec![vec![2, 3, 3], vec![3, 2, 3], vec![3, 3, 2]]
    );
    assert_eq!(
        runtime_msg(array_seq_compositions_m_parts(5, 0)),
        "array_seq_compositions_m_parts() requires non-negative n and m"
    );
}

#[test]
fn partitions_of_four() {
    assert_eq!(
        array_seq_partitions(4).unwrap(),
        vec![vec![1, 1, 1, 1], vec![1, 1, 2], vec![1, 3], vec![2, 2], vec![4]]
    );
}

#[test]
fn partitions_with_constraints() {
    assert_eq!(array_seq_partitions_allowed(8, &[2, 3]).unwrap(), vec![vec![2, 2, 2, 2], vec![2, 3, 3]]);
    assert_eq!(array_seq_partitions_m_parts(5, 2).unwrap(), vec![vec![1, 4], vec![2, 3]]);
    assert_eq!(array_seq_partitions_allowed_m_parts(8, 3, &[2, 3]).unwrap(), vec![vec![2, 3, 3]]);
    assert_eq!(runtime_msg(array_seq_partitions(-2)), "array_seq_partitions() requires non-negative n");
}

#[test]
fn every_composition_adds_up() {
    for c in array_seq_compositions(6).unwrap() {
        assert_eq!(c.iter().sum::<i32>(), 6);
        assert!(c.iter().all(|&p| p >= 1));
    }
    for p in array_seq_partitions(7).unwrap() {
        assert_eq!(p.iter().sum::<i32>(), 7);
        assert!(p.windows(2).all(|w| w[0] <= w[1]));
    }
}

#[test]
fn necklaces_of_four() {
    assert_eq!(array_seq_necklaces(4).unwrap(), vec!["1111", "1110", "1100", "1010", "1000", "0000"]);
    assert!(array_seq_necklaces(0).unwrap().is_empty());
    assert_eq!(runtime_msg(array_seq_necklaces(31)), "array_seq_necklaces() n too large (max 30)");
}

#[test]
fn necklaces_with_constraints() {
    assert_eq!(array_seq_necklaces_allowed(6, &[2, 3]).unwrap(), vec!["101010", "100100"]);
    assert_eq!(array_seq_necklaces_m_ones(6, 2).unwrap(), vec!["110000", "101000", "100100"]);
    assert_eq!(array_seq_necklaces_allowed_m_ones(8, 3, &[2, 3]).unwrap(), vec!["10100100"]);
}

#[test]
fn debruijn_sequences() {
    assert_eq!(array_seq_debruijn(3).unwrap(), "11101000");
    assert_eq!(array_seq_debruijn(4).unwrap(), "1111011001010000");
    assert_eq!(array_seq_debruijn(0).unwrap(), "");
    assert_eq!(runtime_msg(array_seq_debruijn(21)), "array_seq_debruijn() n too large (max 20)");
}

#[test]
fn debruijn_holds_every_window_once() {
    let s: Vec<char> = array_seq_debruijn(4).unwrap().chars().collect();
    let mut seen = std::collections::HashSet::new();
    for i in 0..s.len() {
        let w: String = (0..4).map(|k| s[(i + k) % s.len()]).collect();
        assert!(seen.insert(w));
    }
    assert_eq!(seen.len(), 16);
}

#[test]
fn euclidean_rhythms() {
    assert_eq!(array_seq_euclidean(5, 8).unwrap(), vec![1, 0, 1, 1, 0, 1, 1, 0]);
    assert_eq!(array_seq_euclidean(2, 5).unwrap(), vec![1, 0, 1, 0, 0]);
    assert_eq!(array_seq_euclidean(3, 4).unwrap(), vec![1, 1, 1, 0]);
    assert_eq!(array_seq_euclidean(7, 12).unwrap(), vec![1, 0, 1, 1, 0, 1, 0, 1, 1, 0, 1, 0]);
    assert_eq!(array_seq_euclidean(3, 8).unwrap(), vec![1, 0, 0, 1, 0, 0, 1, 0]);
    assert_eq!(array_seq_euclidean(0, 4).unwrap(), vec![0, 0, 0, 0]);
    assert_eq!(array_seq_euclidean(4, 4).unwrap(), vec![1, 1, 1, 1]);
    assert!(array_seq_euclidean(0, 0).unwrap().is_empty());
    assert_eq!(runtime_msg(array_seq_euclidean(5, 3)), "array_seq_euclidean() pulses cannot exceed steps");
}

#[test]
fn euclidean_rhythms_are_maximally_even() {
    for steps in 1usize..=32 {
        for pulses in 1..=steps {
            let r = array_seq_euclidean(pulses, steps).unwrap();
            assert_eq!(r.len(), steps);
            let onsets: Vec<usize> = (0..steps).filter(|&i| r[i] == 1).collect();
            assert_eq!(onsets.len(), pulses);
            let gaps: Vec<usize> = (0..pulses).map(|i| (onsets[(i + 1) % pulses] + steps - onsets[i] - 1) % steps + 1).collect();
            for len in 1..=pulses {
                for start in 0..pulses {
                    let sum: usize = (0..len).map(|j| gaps[(start + j) % pulses]).sum();
                    let lo = len * steps / pulses;
                    let hi = (len * steps + pulses - 1) / pulses;
                    assert!(lo <= sum && sum <= hi, "({}, {})", pulses, steps);
                }
            }
        }
    }
}

#[test]
fn christoffel_words() {
    assert_eq!(array_seq_christoffel("upper", 3, 5, 8), "10100100");
    assert_eq!(array_seq_christoffel("lower", 3, 5, 8), "00100101");
    assert_eq!(array_seq_christoffel("lower", 2, 3, 12), "001010010100");
}

#[test]
fn paper_folding_sequences() {
    assert_eq!(array_seq_paper_folding(15, 1, 0).unwrap(), "001001100011011");
    assert_eq!(array_seq_paper_folding(7, 2, 3).unwrap(), "1101100");
    assert_eq!(runtime_msg(array_seq_paper_folding(3, 32, 0)), "array_seq_paper_folding() m too large (max 31)");
}

#[test]
fn continued_fractions() {
    assert_eq!(array_seq_cf_convergent(&[1, 2, 2, 2, 2]), vec![41, 29]);
    assert!(array_seq_cf_convergent(&[]).is_empty());
    assert_eq!(array_seq_cf_sqrt(7), "2 (1 1 1 4)");
    assert_eq!(array_seq_cf_sqrt(13), "3 (1 1 1 1 6)");
    assert_eq!(array_seq_cf_sqrt(2), "1 (2)");
    assert_eq!(array_seq_cf_sqrt(9), "3 ()");
    assert_eq!(array_seq_cf_sqrt(0), "0 ()");
}

#[test]
fn cf_sqrt_period_ends_at_first_twice_the_integer_part() {
    assert_eq!(array_seq_cf_sqrt(19), "4 (2 1 3 1 2 8)");
    assert_eq!(array_seq_cf_sqrt(1_000_001), "1000 (2000)");
    for n in 2u64..2000 {
        let text = array_seq_cf_sqrt(n);
        let (head, rest) = text.split_once(' ').unwrap();
        let a0: u64 = head.parse().unwrap();
        if a0 * a0 == n {
            assert_eq!(rest, "()");
            continue;
        }
        let terms: Vec<u64> = rest[1..rest.len() - 1].split(' ').map(|t| t.parse().unwrap()).collect();
        assert_eq!(*terms.last().unwrap(), 2 * a0, "n = {}", n);
        assert!(terms[..terms.len() - 1].iter().all(|&t| t < 2 * a0), "n = {}", n);
    }
}

#[test]
fn permutations_in_lexicographic_order() {
    assert_eq!(array_seq_permutations(&[2, 1, 2]), vec![vec![1, 2, 2], vec![2, 1, 2], vec![2, 2, 1]]);
    assert_eq!(array_seq_permutations(&[3, 1, 2]).len(), 6);
    assert_eq!(array_seq_permutations(&[3, 1, 2])[0], vec![1, 2, 3]);
    assert!(array_seq_permutations(&[]).is_empty());
}

#[test]
fn random_composition_follows_the_coin() {
    let flips = Cell::new(0u32);
    // heads, tails, heads: parts grow, split, grow
    let coin = || {
        let k = flips.get();
        flips.set(k + 1);
        k % 2 == 0
    };
    let parts = array_seq_composition_random(4, &coin).unwrap();
    assert_eq!(parts, vec![2, 2]);
    assert_eq!(runtime_msg(array_seq_composition_random(-1, &coin)), "array_seq_composition_random() requires non-negative n");
}

#[test]
fn random_composition_in_m_parts_adds_up() {
    let never = |_a: i32, _b: i32| false;
    let parts = array_seq_composition_random_m_parts(7, 3, &never).unwrap();
    assert_eq!(parts.len(), 3);
    assert_eq!(parts.iter().sum::<i32>(), 7);
    assert_eq!(
        runtime_msg(array_seq_composition_random_m_parts(2, 3, &never)),
        "array_seq_composition_random_m_parts() m cannot exceed n"
    );
}

#[test]
fn correlated_numbers_stay_in_range() {
    let always = |_a: i32, _b: i32| true;
    let v = array_seq_random_correlated(5, 2, 0, 4, &always).unwrap();
    assert_eq!(v, vec![2, 2, 2, 2]);
    let w = array_seq_random_correlated(5, 3, 5, 10, &always).unwrap();
    assert_eq!(w.len(), 10);
    assert_eq!(w[0], 3);
    assert!(w.iter().all(|&x| (0..=5).contains(&x)));
    assert_eq!(runtime_msg(array_seq_random_correlated(5, 6, 1, 1, &always)), "array_seq_random_correlated() invalid parameters");
}

#[test]
fn counted_sums_are_the_sums_of_that_length() {
    for n in 1..=9 {
        for m in 1..=9 {
            let all = array_seq_compositions(n).unwrap();
            let want: Vec<Vec<i32>> = all.into_iter().filter(|c| c.len() == m as usize).collect();
            assert_eq!(array_seq_compositions_m_parts(n, m).unwrap(), want);
            let all = array_seq_partitions(n).unwrap();
            let want: Vec<Vec<i32>> = all.into_iter().filter(|c| c.len() == m as usize).collect();
            assert_eq!(array_seq_partitions_m_parts(n, m).unwrap(), want);
            let all = array_seq_partitions_allowed(n, &[2, 3]).unwrap();
            let want: Vec<Vec<i32>> = all.into_iter().filter(|c| c.len() == m as usize).collect();
            assert_eq!(array_seq_partitions_allowed_m_parts(n, m, &[2, 3]).unwrap(), want);
        }
    }
    assert_eq!(array_seq_partitions_allowed_m_parts(8, 3, &[2, 3]).unwrap(), vec![vec![2, 3, 3]]);
    assert_eq!(array_seq_compositions_m_parts(5, 2).unwrap(), vec![vec![1, 4], vec![2, 3], vec![3, 2], vec![4, 1]]);
}

#[test]
fn necklaces_with_ones_are_the_necklaces_with_that_many_ones() {
    for n in 1..=10usize {
        for ones in 0..=n as i32 {
            let all = array_seq_necklaces(n).unwrap();
            let want: Vec<String> = all.into_iter().filter(|s| s.matches('1').count() == ones as usize).collect();
            assert_eq!(array_seq_necklaces_m_ones(n, ones).unwrap(), want);
            let all = array_seq_necklaces_allowed(n, &[2, 3]).unwrap();
            let want: Vec<String> = all.into_iter().filter(|s| s.matches('1').count() == ones as usize).collect();
            assert_eq!(array_seq_necklaces_allowed_m_ones(n, ones, &[2, 3]).unwrap(), want);
        }
    }
}

#[test]
fn binary_patterns_come_back_from_intervals() {
    for pattern in ["1010010001001000", "1", "11", "1000", "10110111010"] {
        let iv: Vec<i32> = array_seq_binary_to_intervals(pattern).iter().map(|&x| x as i32).collect();
        assert_eq!(array_seq_intervals_to_binary(&iv).unwrap(), pattern);
    }
}

#[test]
fn upper_christoffel_word_is_the_lower_one_reversed() {
    fn gcd(a: u64, b: u64) -> u64 {
        if b == 0 { a } else { gcd(b, a % b) }
    }
    assert_eq!(array_seq_christoffel("upper", 3, 5, 8), "10100100");
    assert_eq!(array_seq_christoffel("lower", 3, 5, 8), "00100101");
    for p in 1u64..=12 {
        for q in 1u64..=12 {
            if gcd(p, q) != 1 {
                continue;
            }
            let up = array_seq_christoffel("upper", p, q, p + q);
            let lo = array_seq_christoffel("lower", p, q, p + q);
            assert_eq!(up, lo.chars().rev().collect::<String>(), "p={} q={}", p, q);
            assert_eq!(up.matches('1').count() as u64, p);
            assert_eq!(up.len() as u64, p + q);
        }
    }
}

#[test]
fn permutations_are_distinct_and_increasing() {
    for nums in [vec![2, 1, 2], vec![3, 1, 2, 1], vec![5, 5, 5], vec![4, 3, 2, 1], vec![]] {
        let ps = array_seq_permutations(&nums);
        for w in ps.windows(2) {
            assert!(w[0] < w[1]);
        }
    }
    assert_eq!(array_seq_permutations(&[1, 1, 2]).len(), 3);
    assert_eq!(array_seq_permutations(&[4, 3, 2, 1]).len(), 24);
}
