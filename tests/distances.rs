use algos_n_stuff::common::DnaError;
use algos_n_stuff::distances::{
    Distance, HammingDistance, HammingDistanceSimd, LevenshteinDistance, SequenceLevenshteinDistance,
    SequenceLevenshteinDistanceSimd, SequenceLevenshteinDistanceWagner,
};

#[test]
fn test_sequence_levenshtein_simd() {
    let dist = SequenceLevenshteinDistanceSimd::new();

    // Test case
    let read = b"ACGTACGTGGGGGGG";
    let barcode = b"ACGTACGT";
    let expected_matches = vec![(0, 7), (1, 8)];
    let matches = dist.sequence_levenshtein_simd(read, barcode).unwrap();
    assert_eq!(matches, expected_matches);
}

#[test]
fn test_sequence_levenshtein_normal() {
    let dist = SequenceLevenshteinDistance::new();

    // Test case
    let window1 = b"ACGTACGT";
    let barcode = b"ACGTACGT";
    let expected_distance = 0;
    let matches = dist.sequence_levenshtein(window1, 8, barcode, 8);
    assert_eq!(matches, expected_distance);
}

#[test]
fn test_hamming_distance_simd() {
    let dist = HammingDistanceSimd::new();

    // Test case 1: Equal length strings
    let a = b"ACGTACGT";
    let b = b"ACGTATGT";
    assert_eq!(dist.distance(a, b), 1);

    // Test case 2: Different length strings
    let a = b"ACGTACGT";
    let b = b"ACGTATGTAA";
    assert_eq!(dist.distance(a, b), 3);

    // Test case 3: Empty strings
    let a = b"";
    let b = b"";
    assert_eq!(dist.distance(a, b), 0);

    // Test case 4: One empty string
    let a = b"ACGTACGT";
    let b = b"";
    assert_eq!(dist.distance(a, b), 8);

    // Test case 5: Long strings
    let a = b"ACGTACGT".repeat(20);
    let b = b"ACGTATGT".repeat(20);
    assert_eq!(dist.distance(a.as_slice(), b.as_slice()), 20);
}

#[test]
fn identical_window_scores_zero() {
    let dist = SequenceLevenshteinDistance::new();
    for p in [&b"A"[..], b"ACGT", b"GATTACA", b"ACGTACGTACGTACGT"] {
        assert_eq!(dist.sequence_levenshtein(p, p.len(), p, p.len()), 0);
    }
}

#[test]
fn single_substitution_scores_one() {
    let dist = SequenceLevenshteinDistance::new();
    let p = b"ACGTACGTACGTACGT";
    for k in 0..p.len() {
        let mut t = p.to_vec();
        t[k] = if t[k] == b'A' { b'C' } else { b'A' };
        assert_eq!(dist.sequence_levenshtein(p, p.len(), &t, t.len()), 1, "position {}", k);
    }
}

#[test]
fn sequence_levenshtein_takes_the_best_prefix() {
    let dist = SequenceLevenshteinDistance::new();
    // the pattern is the text's prefix: the rest of the text costs nothing
    assert_eq!(dist.sequence_levenshtein(b"ACG", 3, b"ACGTTTT", 7), 0);
    // against an empty text every pattern symbol is deleted
    assert_eq!(dist.sequence_levenshtein(b"ACG", 3, b"", 0), 3);
    assert_eq!(dist.sequence_levenshtein(b"", 0, b"ACG", 3), 0);
    assert_eq!(dist.sequence_levenshtein(b"AAAA", 4, b"TTTT", 4), 4);
    assert_eq!(dist.distance(b"ACGT", b"AGT"), 1);
    // only the first n and m items take part
    assert_eq!(dist.sequence_levenshtein(b"ACGTAA", 4, b"ACGTTT", 4), 0);
    assert_eq!(dist.sequence_levenshtein(b"ACGTAA", 6, b"ACGTTT", 4), 2);
}

#[test]
fn windows_with_other_thresholds() {
    let dist = SequenceLevenshteinDistanceSimd::new();
    let read = b"ACGTACGTGGGGGGG";
    let pattern = b"ACGTACGT";
    assert_eq!(dist.match_windows(read, pattern, 0).unwrap(), vec![(0, 7)]);
    let all = dist.match_windows(read, pattern, 8).unwrap();
    assert_eq!(all.len(), 8);
    assert_eq!(all[7], (7, 14));
}

#[test]
fn windows_beyond_one_group_and_a_tail() {
    let dist = SequenceLevenshteinDistanceSimd::new();
    let pattern = b"GATTACA";
    let mut read = b"CCCCCCCCCCCCCCCCCCCC".to_vec();
    read.extend_from_slice(pattern);
    read.extend_from_slice(b"CCCC");
    // 31 bytes: 25 windows of 7, three groups of eight and one left over
    let m = dist.match_windows(&read, pattern, 0).unwrap();
    assert_eq!(m, vec![(20, 26)]);
    let short = dist.match_windows(b"GATTAC", pattern, 3).unwrap();
    assert!(short.is_empty());
}

#[test]
fn windows_are_slices_of_eight() {
    let dist = SequenceLevenshteinDistanceSimd::new();
    // ACGT sits at 11, but no slice of eight starts there in a read of 15
    let m = dist.match_windows(b"GGGGGGGGGGGACGT", b"ACGT", 1).unwrap();
    assert!(!m.contains(&(11, 14)));
    assert!(m.is_empty());
    let m = dist.match_windows(b"GGGGGGGACGTGGGG", b"ACGT", 0).unwrap();
    assert_eq!(m, vec![(7, 10)]);
    // a read shorter than eight has no window
    assert!(dist.match_windows(b"ACGT", b"ACGT", 0).unwrap().is_empty());
}

#[test]
fn refused_patterns() {
    let dist = SequenceLevenshteinDistanceSimd::new();
    assert_eq!(dist.match_windows(b"ACGT", b"", 1), Err(DnaError::EmptyPattern));
    assert_eq!(
        dist.sequence_levenshtein_simd(b"ACGTACGTACGTACGTACGT", b"ACGTACGTACGTACGTA"),
        Err(DnaError::PatternTooLong)
    );
}

#[test]
fn first_window_start_as_distance() {
    let dist = SequenceLevenshteinDistanceSimd::new();
    assert_eq!(dist.distance(b"ACGTACGTGGGGGGG", b"ACGTACGT"), 0);
    assert_eq!(dist.find_distance(b"GGGGACGTACGT", b"ACGTACGT"), 4);
    assert_eq!(dist.find_distance(b"GGGACGTACGTG", b"ACGTACGT"), 3);
    assert_eq!(dist.distance(b"GGGGGGGGGGGG", b"ACGTACGT"), 12);
}

#[test]
fn wagner_values() {
    let dist = SequenceLevenshteinDistanceWagner::new();
    assert_eq!(dist.wagner_distance(b"ACGT", b"ACGT"), 0);
    assert_eq!(dist.wagner_distance(b"ACGT", b"ACGTTT"), 0);
    assert_eq!(dist.wagner_distance(b"ACGT", b"AGT"), 1);
    assert_eq!(dist.wagner_distance(b"", b"ACGT"), 0);
    assert_eq!(dist.wagner_distance(b"AAAA", b"TTTT"), 4);
    assert_eq!(dist.distance(b"ACGTT", b"ACGT"), 0);
    // the least entry of the last column: the empty prefix of the first
    assert_eq!(dist.wagner_distance(b"AC", b""), 0);
    assert_eq!(dist.wagner_distance(b"ACGTT", b"ACG"), 0);
}

#[test]
fn levenshtein_values() {
    let dist = LevenshteinDistance::new();
    assert_eq!(dist.levenshtein_distance("kitten", "sitting"), 3);
    assert_eq!(dist.levenshtein_distance("", "abc"), 3);
    assert_eq!(dist.levenshtein_distance("abc", ""), 3);
    assert_eq!(dist.levenshtein_distance("flaw", "lawn"), 2);
    assert_eq!(dist.levenshtein_distance("same", "same"), 0);
    // characters, not bytes
    assert_eq!(dist.levenshtein_distance("é", "e"), 1);
    assert_eq!(dist.distance(b"ACGT", b"AGT"), 1);
    assert_eq!(dist.find_distance(b"GATTACA", b"GCATGCT"), 4);
    assert_eq!(dist.distance("é".as_bytes(), b"e"), 1);
}

#[test]
fn hamming_values() {
    let dist = HammingDistance::new();
    assert_eq!(dist.distance(b"ACGT", b"ACCT"), 1);
    assert_eq!(dist.distance(b"ACGTAA", b"TCGT"), 1);
    assert_eq!(dist.find_distance(b"", b"ACGT"), 0);
    // characters, not bytes
    assert_eq!(dist.distance("né".as_bytes(), "ne".as_bytes()), 1);
    assert_eq!(dist.distance("éa".as_bytes(), "éb".as_bytes()), 1);
}

#[test]
fn nucleotide_codes_read_u_as_t() {
    assert_eq!(HammingDistanceSimd::encode_dna(b"ACGTU"), Ok(vec![0b011, 0b110, 0b101, 0, 0]));
    assert_eq!(HammingDistanceSimd::encode_dna(b"ACNU"), Err(DnaError::InvalidSymbol(b'N')));
    let dist = HammingDistanceSimd::new();
    assert_eq!(dist.distance(b"ACGU", b"ACGT"), 0);
    assert_eq!(dist.hamming_distance_simd(b"AAAA", b"CCGG"), Ok(4));
    assert_eq!(dist.hamming_distance_simd(b"ACGT", b"ANGX"), Err(DnaError::InvalidSymbol(b'N')));
    assert_eq!(dist.hamming_distance_simd(b"AXGT", b"ANGT"), Err(DnaError::InvalidSymbol(b'X')));
}

#[test]
fn matcher_scores_identical_and_substituted_windows() {
    let dist = SequenceLevenshteinDistanceSimd::new();
    let pattern = b"TTGACCAGT";
    let mut read = b"GGGGGGGGGG".to_vec();
    read.extend_from_slice(pattern);
    read.extend_from_slice(b"GGGGGGGGGG");
    // the identical window alone scores 0
    assert_eq!(dist.match_windows(&read, pattern, 0).unwrap(), vec![(10, 18)]);
    let mut substituted = read.clone();
    substituted[14] = b'T';
    // one substitution: no window at threshold 0, the same window at threshold 1
    assert!(dist.match_windows(&substituted, pattern, 0).unwrap().is_empty());
    assert!(dist.match_windows(&substituted, pattern, 1).unwrap().contains(&(10, 18)));
}
