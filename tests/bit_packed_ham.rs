use algos_n_stuff::bit_packed_ham::{
    pairwise_distances, slot_ranges, BitHamProcessor, CompactDNA, PopcountPath,
};
use algos_n_stuff::common::DnaError;
use algos_n_stuff::pairs::{pair_slot, slot_pair};

fn naive_distances(seqs: &[Vec<u8>]) -> Vec<usize> {
    let mut out = Vec::new();
    for i in 0..seqs.len() {
        for j in (i + 1)..seqs.len() {
            out.push(seqs[i].iter().zip(seqs[j].iter()).filter(|(a, b)| a != b).count());
        }
    }
    out
}

fn pseudo_random_batch(count: usize, len: usize, seed: u64) -> Vec<Vec<u8>> {
    let bases = b"ACGT";
    let mut state = seed;
    let mut seqs = Vec::new();
    for _ in 0..count {
        let mut s = Vec::new();
        for _ in 0..len {
            state = state.wrapping_mul(6364136223846793005).wrapping_add(1442695040888963407);
            s.push(bases[((state >> 33) % 4) as usize]);
        }
        seqs.push(s);
    }
    seqs
}

#[test]
fn test_bit_ham_small() {
    let sequences = vec![
        b"ATCG".to_vec(),
        b"TAGC".to_vec(),
        b"ATCC".to_vec(),
        b"TACC".to_vec(),
        b"GTCA".to_vec(),
    ];

    println!("Input sequences:");
    for (i, seq) in sequences.iter().enumerate() {
        println!("Sequence {}: {:?}", i, String::from_utf8_lossy(seq));
    }

    let processor = BitHamProcessor::new();
    processor.initialize(&sequences).unwrap();
    let results = processor.process_sequences().unwrap();

    println!("Results: {:?}", results);

    assert_eq!(results.len(), 10, "Expected 10 pairwise comparisons");

    let expected_distances = [4, 1, 3, 2, 3, 1, 4, 2, 2, 3];
    println!("Expected distances: {:?}", expected_distances);
    for (i, &distance) in results.iter().enumerate() {
        assert_eq!(
            distance, expected_distances[i],
            "Pair {}: Expected distance = {}, got = {}",
            i, expected_distances[i], distance
        );
    }
}

#[test]
fn test_bit_ham_long() {
    let sequences = vec![
        b"ATCGATCGATCGATCGATCGA".to_vec(),
        b"TAGCTAGCTAGCTAGCTAGGA".to_vec(),
        b"GCATGCATGCATGCATGCATG".to_vec(),
        b"GCCGATTACGTACGTACGTAC".to_vec(),
    ];

    println!("Input sequences:");
    for (i, seq) in sequences.iter().enumerate() {
        println!("Sequence {}: {:?}", i, String::from_utf8_lossy(seq));
    }

    let processor = BitHamProcessor::new();
    processor.initialize(&sequences).unwrap();
    let results = processor.process_sequences().unwrap();

    println!("Results: {:?}", results);

    assert_eq!(results.len(), 6, "Expected 6 pairwise comparisons");

    let expected_distances = [19, 21, 17, 21, 21, 19];
    for (i, &distance) in results.iter().enumerate() {
        assert_eq!(
            distance, expected_distances[i],
            "Pair {}: Expected distance = {}, got = {}",
            i, expected_distances[i], distance
        );
    }
}

#[test]
fn scalar_path_gives_the_small_example() {
    let sequences = vec![
        b"ATCG".to_vec(),
        b"TAGC".to_vec(),
        b"ATCC".to_vec(),
        b"TACC".to_vec(),
        b"GTCA".to_vec(),
    ];
    let processor = BitHamProcessor::with_path(PopcountPath::Scalar);
    processor.initialize(&sequences).unwrap();
    assert_eq!(processor.process_sequences().unwrap(), vec![4, 1, 3, 2, 3, 1, 4, 2, 2, 3]);
}

#[test]
fn scalar_path_gives_the_long_example() {
    let sequences = vec![
        b"ATCGATCGATCGATCGATCGA".to_vec(),
        b"TAGCTAGCTAGCTAGCTAGGA".to_vec(),
        b"GCATGCATGCATGCATGCATG".to_vec(),
        b"GCCGATTACGTACGTACGTAC".to_vec(),
    ];
    let r = pairwise_distances(&sequences, PopcountPath::Scalar).unwrap();
    assert_eq!(r, vec![19, 21, 17, 21, 21, 19]);
}

#[test]
fn both_paths_agree_on_every_length() {
    for len in 0..200usize {
        let seqs = pseudo_random_batch(6, len, len as u64 + 7);
        let v = pairwise_distances(&seqs, PopcountPath::Vectorized).unwrap();
        let s = pairwise_distances(&seqs, PopcountPath::Scalar).unwrap();
        assert_eq!(v, s, "length {}", len);
        assert_eq!(v, naive_distances(&seqs), "length {}", len);
    }
}

#[test]
fn padding_bits_never_count() {
    // lengths that leave the last word, or the last group of four words, partly empty
    for &len in &[1usize, 20, 22, 41, 43, 63, 64, 85, 100, 167, 169] {
        let seqs = pseudo_random_batch(5, len, 99 + len as u64);
        let r = pairwise_distances(&seqs, PopcountPath::Vectorized).unwrap();
        assert_eq!(r, naive_distances(&seqs), "length {}", len);
    }
    let a = vec![b'A'; 22];
    let mut b = vec![b'A'; 22];
    b[21] = b'T';
    assert_eq!(pairwise_distances(&[a.clone(), b], PopcountPath::Scalar).unwrap(), vec![1]);
    assert_eq!(pairwise_distances(&[a.clone(), a], PopcountPath::Vectorized).unwrap(), vec![0]);
}

#[test]
fn distance_is_symmetric() {
    let seqs = pseudo_random_batch(7, 30, 3);
    let forward = pairwise_distances(&seqs, PopcountPath::Vectorized).unwrap();
    let mut reversed = seqs.clone();
    reversed.reverse();
    let backward = pairwise_distances(&reversed, PopcountPath::Vectorized).unwrap();
    let n = seqs.len();
    for i in 0..n {
        for j in (i + 1)..n {
            let ri = n - 1 - j;
            let rj = n - 1 - i;
            assert_eq!(forward[pair_slot(n, i, j)], backward[pair_slot(n, ri, rj)]);
        }
    }
}

#[test]
fn one_slot_per_pair_and_no_self_pairs() {
    let seqs = pseudo_random_batch(9, 12, 5);
    let r = pairwise_distances(&seqs, PopcountPath::Vectorized).unwrap();
    assert_eq!(r.len(), 9 * 8 / 2);
    for s in 0..r.len() {
        let (i, j) = slot_pair(9, s);
        assert!(i < j && j < 9);
        assert_eq!(pair_slot(9, i, j), s);
    }
}

#[test]
fn slot_mapping_is_a_bijection() {
    let mut check = |n: usize| {
        let total = n * (n - 1) / 2;
        let mut seen = vec![false; total];
        for i in 0..n {
            for j in (i + 1)..n {
                let s = pair_slot(n, i, j);
                assert!(s < total);
                assert!(!seen[s], "slot {} used twice for n = {}", s, n);
                seen[s] = true;
            }
        }
        assert!(seen.iter().all(|&b| b), "a slot left empty for n = {}", n);
    };
    for n in 2..=300 {
        check(n);
    }
    check(1000);
}

#[test]
fn slot_formula_values() {
    assert_eq!(pair_slot(5, 0, 1), 0);
    assert_eq!(pair_slot(5, 0, 4), 3);
    assert_eq!(pair_slot(5, 1, 2), 4);
    assert_eq!(pair_slot(5, 3, 4), 9);
    assert_eq!(slot_pair(5, 7), (2, 3));
}

#[test]
fn refused_batches() {
    assert_eq!(CompactDNA::new(&[]).err(), Some(DnaError::EmptyBatch));
    let uneven = vec![b"ACGT".to_vec(), b"ACG".to_vec()];
    assert_eq!(CompactDNA::new(&uneven).err(), Some(DnaError::LengthMismatch));
    let bad = vec![b"ACGT".to_vec(), b"ACNX".to_vec()];
    assert_eq!(CompactDNA::new(&bad).err(), Some(DnaError::InvalidSymbol(b'N')));
    let bad_first = vec![b"AXGT".to_vec(), b"ACG".to_vec()];
    assert_eq!(
        pairwise_distances(&bad_first, PopcountPath::Scalar),
        Err(DnaError::InvalidSymbol(b'X'))
    );
    let u = vec![b"ACGU".to_vec(), b"ACGT".to_vec(), b"ACGA".to_vec()];
    assert_eq!(pairwise_distances(&u, PopcountPath::Scalar), Ok(vec![0, 1, 1]));
}

#[test]
fn processor_needs_a_batch() {
    let processor = BitHamProcessor::new();
    assert_eq!(processor.process_sequences(), Err(DnaError::NotInitialized));
    assert_eq!(processor.initialize(&[b"AC".to_vec(), b"A".to_vec()]), Err(DnaError::LengthMismatch));
    assert_eq!(processor.process_sequences(), Err(DnaError::NotInitialized));
}

#[test]
fn first_initialization_wins() {
    let processor = BitHamProcessor::new();
    processor.initialize(&[b"AAAA".to_vec(), b"TTTT".to_vec()]).unwrap();
    processor.initialize(&[b"AAAA".to_vec(), b"AAAT".to_vec(), b"CCCC".to_vec()]).unwrap();
    assert_eq!(processor.process_sequences().unwrap(), vec![4]);
    assert_eq!(processor.initialize(&[b"??".to_vec()]), Ok(()));
    assert_eq!(processor.process_sequences().unwrap(), vec![4]);
}

#[test]
fn single_sequence_has_no_pairs() {
    let r = pairwise_distances(&[b"ACGT".to_vec()], PopcountPath::Vectorized).unwrap();
    assert!(r.is_empty());
    let empty_seqs = vec![Vec::new(), Vec::new(), Vec::new()];
    assert_eq!(pairwise_distances(&empty_seqs, PopcountPath::Scalar).unwrap(), vec![0, 0, 0]);
}

#[test]
fn slot_ranges_split_evenly() {
    let r = slot_ranges(10, 3);
    assert_eq!(r, vec![(0, 4), (4, 7), (7, 10)]);
    let r = slot_ranges(2, 4);
    assert_eq!(r, vec![(0, 1), (1, 2), (2, 2), (2, 2)]);
}

#[test]
fn slot_ranges_cover_the_table() {
    let seqs = pseudo_random_batch(11, 50, 17);
    let batch = CompactDNA::new(&seqs).unwrap();
    let full = batch.calculate_hamming_distance(PopcountPath::Vectorized);
    for parts in 1..8 {
        let mut joined = Vec::new();
        for (start, end) in slot_ranges(full.len(), parts) {
            joined.extend(batch.distances_in_slots(PopcountPath::Scalar, start, end));
        }
        assert_eq!(joined, full, "{} parts", parts);
    }
}
