use audion::error::AudionError;
use audion::melodies::{
    array_mel_automaton, array_mel_debruijn_k, array_mel_lattice_to_melody, array_mel_lattice_walk_square,
    array_mel_lattice_walk_square_no_retrace, array_mel_lattice_walk_square_with_stops,
    array_mel_lattice_walk_tri, array_mel_reverse, array_mel_string_to_indices, array_mel_subset_sample,
};
use std::cell::Cell;

fn runtime_msg<T>(r: Result<T, AudionError>) -> String {
    match r {
        Err(AudionError::RuntimeError { msg }) => msg,
        _ => panic!("expected a runtime error"),
    }
}

#[test]
fn string_to_indices_maps_digits_and_letters() {
    assert_eq!(array_mel_string_to_indices("a1Z", 12).unwrap(), vec![10, 1, 1]);
    assert_eq!(array_mel_string_to_indices("09 b", 100).unwrap(), vec![0, 9, 0, 11]);
    assert_eq!(
        runtime_msg(array_mel_string_to_indices("abc", 0)),
        "array_mel_string_to_indices() num_notes must be >= 1"
    );
}

#[test]
fn reverse_reverses() {
    assert_eq!(array_mel_reverse(&[60, 62, 64]), vec![64, 62, 60]);
    assert!(array_mel_reverse::<i32>(&[]).is_empty());
    assert_eq!(array_mel_reverse(&array_mel_reverse(&[1, 2, 3])), vec![1, 2, 3]);
}

#[test]
fn square_walks() {
    assert_eq!(array_mel_lattice_walk_square(2, 2, 0, 0, 1, 1, 2).unwrap(), vec!["ru", "ur"]);
    assert!(array_mel_lattice_walk_square(2, 2, 0, 0, 1, 1, 1).unwrap().is_empty());
    assert_eq!(
        runtime_msg(array_mel_lattice_walk_square(2, 2, 5, 0, 1, 1, 2)),
        "array_mel_lattice_walk_square() invalid start position (5, 0)"
    );
    assert_eq!(
        runtime_msg(array_mel_lattice_walk_square(2, 2, 0, 0, 1, -1, 2)),
        "array_mel_lattice_walk_square() invalid end position (1, -1)"
    );
    assert_eq!(
        runtime_msg(array_mel_lattice_walk_square(2, 2, 0, 0, 1, 1, 129)),
        "array_mel_lattice_walk_square() path length too long (max 128)"
    );
}

#[test]
fn triangular_walks_use_diagonals() {
    assert_eq!(array_mel_lattice_walk_tri(2, 2, 0, 0, 1, 1, 1).unwrap(), vec!["v"]);
    assert_eq!(array_mel_lattice_walk_tri(2, 2, 0, 0, 1, 1, 2).unwrap(), vec!["ru", "ur"]);
}

#[test]
fn walks_without_retracing() {
    assert_eq!(array_mel_lattice_walk_square_no_retrace(2, 2, 0, 0, 0, 0, 4).unwrap(), vec!["ruld", "urdl"]);
    let all = array_mel_lattice_walk_square(2, 2, 0, 0, 0, 0, 4).unwrap();
    assert!(all.len() > 2);
}

#[test]
fn walks_with_stops() {
    assert_eq!(array_mel_lattice_walk_square_with_stops(2, 1, 0, 0, 1, 0, 1, 3).unwrap(), vec!["srs", "rlr"]);
    assert_eq!(
        runtime_msg(array_mel_lattice_walk_square_with_stops(2, 1, 0, 0, 1, 0, -1, 3)),
        "array_mel_lattice_walk_square_with_stops() max_stops must be >= 0"
    );
}

#[test]
fn every_walk_has_the_requested_length() {
    for w in array_mel_lattice_walk_square(3, 3, 0, 0, 2, 2, 6).unwrap() {
        assert_eq!(w.len(), 6);
    }
}

#[test]
fn lattice_to_melody_wraps_around() {
    let grid = vec![vec![60, 62, 64], vec![65, 67, 69]];
    assert_eq!(array_mel_lattice_to_melody(&grid, "rrru", 0, 0).unwrap(), vec![60, 62, 64, 60, 65]);
    assert_eq!(array_mel_lattice_to_melody(&grid, "ldsx", 0, 0).unwrap(), vec![60, 64, 69, 69, 69]);
    assert_eq!(array_mel_lattice_to_melody(&grid, "ve", 0, 1).unwrap(), vec![65, 62, 65]);
    let empty: Vec<Vec<i32>> = vec![];
    assert_eq!(
        runtime_msg(array_mel_lattice_to_melody(&empty, "r", 0, 0)),
        "array_mel_lattice_to_melody() note_grid cannot be empty"
    );
    assert_eq!(
        runtime_msg(array_mel_lattice_to_melody(&vec![Vec::<i32>::new()], "r", 0, 0)),
        "array_mel_lattice_to_melody() note_grid rows cannot be empty"
    );
    assert_eq!(
        runtime_msg(array_mel_lattice_to_melody(&grid, "r", 3, 0)),
        "array_mel_lattice_to_melody() invalid start position (3, 0)"
    );
}

#[test]
fn subset_sample_keeps_order_and_size() {
    let honest = |mp: usize, np: usize| mp * 2 >= np;
    let s = array_mel_subset_sample(&[1, 2, 3, 4, 5, 6], 3, &honest).unwrap();
    assert_eq!(s.len(), 3);
    assert!(s.windows(2).all(|w| w[0] < w[1]));
    let calls = Cell::new(0);
    let count = |mp: usize, np: usize| {
        calls.set(calls.get() + 1);
        mp == np
    };
    assert_eq!(array_mel_subset_sample(&[7, 8, 9], 2, &count).unwrap(), vec![8, 9]);
    assert!(array_mel_subset_sample(&[7, 8, 9], 0, &count).unwrap().is_empty());
    let never = |_: usize, _: usize| false;
    assert_eq!(array_mel_subset_sample(&[1, 2, 3, 4, 5], 2, &never).unwrap(), vec![4, 5]);
    let always = |_: usize, _: usize| true;
    assert_eq!(array_mel_subset_sample(&[1, 2, 3, 4, 5], 2, &always).unwrap(), vec![1, 2]);
    assert_eq!(
        runtime_msg(array_mel_subset_sample(&[1, 2], 3, &count)),
        "array_mel_subset_sample() subset_size (3) cannot be larger than array size (2)"
    );
}

#[test]
fn automaton_words() {
    // state 0: a -> 0, b -> 1; state 1: c -> 0
    let aut = vec![
        vec![(0usize, "a".to_string()), (1usize, "b".to_string())],
        vec![(0usize, "c".to_string())],
    ];
    assert_eq!(array_mel_automaton(&aut, 0, &[0], 2).unwrap(), vec!["aa", "bc"]);
    assert_eq!(array_mel_automaton(&aut, 0, &[1], 2).unwrap(), vec!["ab"]);
    assert_eq!(array_mel_automaton(&aut, 1, &[0, 1], 0).unwrap(), vec![""]);
    assert_eq!(
        runtime_msg(array_mel_automaton(&aut, 2, &[0], 1)),
        "array_mel_automaton() invalid start_state 2 (automaton has 2 states)"
    );
}

fn is_de_bruijn(s: &str, k: usize, n: usize) -> bool {
    let d: Vec<usize> = s.bytes().map(|b| (b - b'0') as usize).collect();
    let len = d.len();
    if len != k.pow(n as u32) || d.iter().any(|&x| x >= k) {
        return false;
    }
    let mut seen = std::collections::HashSet::new();
    for i in 0..len {
        let w: Vec<usize> = (0..n).map(|t| d[(i + t) % len]).collect();
        if !seen.insert(w) {
            return false;
        }
    }
    true
}

#[test]
fn debruijn_k_known_sequences() {
    assert_eq!(array_mel_debruijn_k(2, 2, 0).unwrap(), "0110");
    assert_eq!(array_mel_debruijn_k(2, 2, 1).unwrap(), "0011");
    assert_eq!(array_mel_debruijn_k(2, 3, 0).unwrap(), "01110100");
    assert_eq!(array_mel_debruijn_k(3, 2, 0).unwrap(), "011220210");
    assert_eq!(array_mel_debruijn_k(3, 2, 2).unwrap(), "001122102");
    assert_eq!(array_mel_debruijn_k(2, 4, 5).unwrap(), "0011110110000101");
    assert_eq!(array_mel_debruijn_k(4, 2, 1).unwrap(), "0213223303112001");
    assert_eq!(array_mel_debruijn_k(2, 1, 0).unwrap(), "01");
    assert_eq!(array_mel_debruijn_k(5, 1, 0).unwrap(), "01234");
}

#[test]
fn debruijn_k_holds_every_window_once() {
    for (k, n) in [(2usize, 1usize), (10, 1), (2, 2), (2, 5), (3, 3), (4, 3), (5, 2), (10, 2), (2, 8), (6, 3), (3, 5), (7, 3)] {
        let nv = k.pow(n as u32 - 1);
        for v in [0, 1, nv / 2, nv - 1].into_iter().filter(|&v| v < nv) {
            let s = array_mel_debruijn_k(k, n, v).unwrap();
            assert!(is_de_bruijn(&s, k, n), "k={} n={} v={}", k, n, v);
        }
    }
}

#[test]
fn debruijn_k_argument_errors() {
    let msg = |r: Result<String, AudionError>| match r {
        Err(AudionError::RuntimeError { msg }) => msg,
        other => panic!("unexpected {:?}", other),
    };
    assert_eq!(msg(array_mel_debruijn_k(1, 3, 0)), "array_mel_debruijn_k() k must be >= 2");
    assert_eq!(msg(array_mel_debruijn_k(2, 0, 0)), "array_mel_debruijn_k() n must be >= 1");
    assert_eq!(msg(array_mel_debruijn_k(2, 9, 0)), "array_mel_debruijn_k() n too large (max 8) or k too large (max 10)");
    assert_eq!(msg(array_mel_debruijn_k(11, 2, 0)), "array_mel_debruijn_k() n too large (max 8) or k too large (max 10)");
    assert_eq!(msg(array_mel_debruijn_k(2, 3, 4)), "array_mel_debruijn_k() v must be < 4 for k=2, n=3");
    assert_eq!(msg(array_mel_debruijn_k(3, 1, 1)), "array_mel_debruijn_k() v must be < 1 for k=3, n=1");
}

#[test]
fn walk_families_filter_one_another() {
    for (nc, nr, x, y, a, b, n) in [(3, 3, 0, 0, 2, 2, 4), (3, 2, 1, 0, 1, 1, 5), (4, 4, 0, 0, 0, 0, 6), (2, 3, 0, 2, 1, 0, 3)] {
        let square = array_mel_lattice_walk_square(nc, nr, x, y, a, b, n).unwrap();
        let tri = array_mel_lattice_walk_tri(nc, nr, x, y, a, b, n).unwrap();
        let plain: Vec<String> = tri.into_iter().filter(|w| !w.contains('v') && !w.contains('e')).collect();
        assert_eq!(plain, square);
        let no_retrace = array_mel_lattice_walk_square_no_retrace(nc, nr, x, y, a, b, n).unwrap();
        let kept: Vec<String> = square
            .into_iter()
            .filter(|w| !["rl", "lr", "ud", "du"].iter().any(|p| w.contains(p)))
            .collect();
        assert_eq!(kept, no_retrace);
    }
}
