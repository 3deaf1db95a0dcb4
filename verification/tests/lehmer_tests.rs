use hdqtsp_lehmer::lehmer::{debug_list, decoder_digits, factoradic_digits, factorial, route_count_fits, LehmerDecoder};
use std::collections::HashSet;

#[test]
fn test_lehmer_new() {
    let decoder = LehmerDecoder::new(4);
    assert_eq!(decoder.n(), 4);
    assert_eq!(decoder.k(), 3);
    assert_eq!(decoder.factorials(), vec![1, 1, 2, 6]);
    assert_eq!(decoder.total_permutations(), 6);
}

#[test]
fn test_lehmer_decode_small() {
    let decoder = LehmerDecoder::new(4);
    assert_eq!(decoder.decode_full_route(0), vec![0, 1, 2, 3]);
    assert_eq!(decoder.decode_full_route(5), vec![0, 3, 2, 1]);
}

#[test]
fn test_lehmer_encode_decode_roundtrip() {
    let decoder = LehmerDecoder::new(5);
    for idx in 0..decoder.total_permutations() {
        let perm = decoder.decode(idx);
        let encoded = decoder.encode(&perm);
        assert_eq!(idx, encoded, "Roundtrip failed: {} → {:?} → {}", idx, perm, encoded);
    }
}

#[test]
fn test_lehmer_modulo_clamp() {
    let decoder = LehmerDecoder::new(4);
    assert_eq!(decoder.decode_full_route(6), vec![0, 1, 2, 3]);
    assert_eq!(decoder.decode_full_route(11), vec![0, 3, 2, 1]);
}

#[test]
fn test_lehmer_decode_large() {
    let decoder = LehmerDecoder::new(8);
    assert_eq!(decoder.total_permutations(), 5040);
    assert!(decoder.required_qubits() >= 13);

    let route = decoder.decode_full_route(1000);
    assert_eq!(route.len(), 8);
    assert_eq!(route[0], 0);

    let mut seen: HashSet<usize> = HashSet::new();
    for &city in &route[1..] {
        assert!(city >= 1 && city < 8);
        assert!(seen.insert(city), "City {} appears twice", city);
    }
    assert_eq!(seen.len(), 7);
}

#[test]
fn lehmer_example_from_docs() {
    // 3 = 1*2! + 1*1! + 0*0!: picks 2, then 3, then 1.
    let decoder = LehmerDecoder::new(4);
    assert_eq!(decoder.decode(3), vec![2, 3, 1]);
    assert_eq!(decoder.decode_full_route(3), vec![0, 2, 3, 1]);
    assert_eq!(decoder.encode(&[2, 3, 1]), 3);
}

#[test]
fn lehmer_decode_encode_all_permutations() {
    // Every permutation of 1..5 has an index below 4! that decodes back to it.
    let decoder = LehmerDecoder::new(5);
    let mut seen: HashSet<Vec<usize>> = HashSet::new();
    for idx in 0..decoder.total_permutations() {
        let perm = decoder.decode(idx);
        assert_eq!(decoder.decode(decoder.encode(&perm)), perm);
        assert!(seen.insert(perm));
    }
    assert_eq!(seen.len(), 24);
}

#[test]
fn lehmer_encode_skips_unknown_and_short_input() {
    let decoder = LehmerDecoder::new(4);
    // 9 is not a city: it is skipped, 1 is then at position 0 of the remaining
    // cities with weight 1!, 2 at position 0 with weight 0!.
    assert_eq!(decoder.encode(&[9, 1, 2]), 0);
    // 3 at position 2 with weight 2! = 4; nothing more is read.
    assert_eq!(decoder.encode(&[3]), 4);
    assert_eq!(decoder.encode(&[]), 0);
    // Only the first n - 1 entries are read.
    assert_eq!(decoder.encode(&[3, 2, 1, 1, 1]), 5);
}

#[test]
fn lehmer_small_sizes() {
    for n in 0..3 {
        let decoder = LehmerDecoder::new(n);
        assert_eq!(decoder.total_permutations(), 1);
        assert_eq!(decoder.required_qubits(), 1);
    }
    assert_eq!(LehmerDecoder::new(0).decode(7), Vec::<usize>::new());
    assert_eq!(LehmerDecoder::new(1).decode_full_route(3), vec![0]);
    assert_eq!(LehmerDecoder::new(2).decode_full_route(1), vec![0, 1]);
    assert_eq!(LehmerDecoder::new(3).decode_full_route(1), vec![0, 2, 1]);
}

#[test]
fn lehmer_required_qubits_values() {
    // ceil(log2(k!)): 2! = 2 -> 1, 3! = 6 -> 3, 4! = 24 -> 5, 7! = 5040 -> 13
    assert_eq!(LehmerDecoder::new(3).required_qubits(), 1);
    assert_eq!(LehmerDecoder::new(4).required_qubits(), 3);
    assert_eq!(LehmerDecoder::new(5).required_qubits(), 5);
    assert_eq!(LehmerDecoder::new(8).required_qubits(), 13);
    assert_eq!(LehmerDecoder::new(21).total_permutations(), 2432902008176640000);
    assert_eq!(LehmerDecoder::new(21).required_qubits(), 62);
}

#[test]
fn factorial_values() {
    assert_eq!(factorial(0), 1);
    assert_eq!(factorial(1), 1);
    assert_eq!(factorial(5), 120);
    assert_eq!(factorial(7), 5040);
}

#[test]
fn decoder_digits_values() {
    assert_eq!(factoradic_digits(5, 3), vec![2, 1, 0]);
    assert_eq!(factoradic_digits(3, 3), vec![1, 1, 0]);
    assert_eq!(factoradic_digits(0, 0), Vec::<usize>::new());
    assert_eq!(decoder_digits(3, 3), "[1, 1, 0]");
    assert_eq!(decoder_digits(4, 3), "[2, 0, 0]");
}

#[test]
fn lehmer_clone_decodes_the_same() {
    let decoder = LehmerDecoder::new(6);
    let copy = decoder.clone();
    assert_eq!(copy.n(), 6);
    for idx in [0usize, 17, 119, 500] {
        assert_eq!(copy.decode(idx), decoder.decode(idx));
    }
}

#[test]
fn route_count_fits_limits() {
    assert!(route_count_fits(0));
    assert!(route_count_fits(1));
    assert!(route_count_fits(21));
    assert!(!route_count_fits(22));
    assert!(!route_count_fits(100));
}

#[test]
fn decode_follows_lexicographic_order() {
    let decoder = LehmerDecoder::new(5);
    let total = decoder.total_permutations();
    assert_eq!(decoder.decode(0), vec![1, 2, 3, 4]);
    assert_eq!(decoder.decode(total - 1), vec![4, 3, 2, 1]);
    for idx in 1..total {
        assert!(decoder.decode(idx - 1) < decoder.decode(idx), "order broken at {}", idx);
    }
}

#[test]
fn debug_list_text_of_integers() {
    assert_eq!(debug_list(&vec![]), "[]");
    assert_eq!(debug_list(&vec![7]), "[7]");
    assert_eq!(debug_list(&vec![10, 0, 305]), "[10, 0, 305]");
    assert_eq!(debug_list(&vec![usize::MAX]), format!("[{}]", usize::MAX));
    assert_eq!(decoder_digits(0, 3), "[0, 0, 0]");
    assert_eq!(decoder_digits(23, 4), "[3, 2, 1, 0]");
}
