use algos_n_stuff::bitword::popcount_software;
use algos_n_stuff::common::{decode_dna, encode_dna, DnaError};
use algos_n_stuff::seq_gen;

#[test]
fn round_trip_every_symbol() {
    for &b in b"ACGT" {
        let code = encode_dna(b).unwrap();
        assert!(code < 8);
        assert_eq!(decode_dna(code), Ok(b));
    }
}

#[test]
fn codes_differ_in_two_bits() {
    let codes: Vec<u8> = b"ACGT".iter().map(|&b| encode_dna(b).unwrap()).collect();
    assert_eq!(codes, vec![0b011, 0b110, 0b101, 0b000]);
    for i in 0..4 {
        for j in 0..4 {
            let bits = (codes[i] ^ codes[j]).count_ones();
            assert_eq!(bits, if i == j { 0 } else { 2 });
        }
    }
}

#[test]
fn invalid_symbols_refused() {
    assert_eq!(encode_dna(b'U'), encode_dna(b'T'));
    assert_eq!(encode_dna(b'U'), Ok(0b000));
    assert_eq!(encode_dna(b'a'), Err(DnaError::InvalidSymbol(b'a')));
    assert_eq!(decode_dna(0b111), Err(DnaError::InvalidSymbol(0b111)));
    assert_eq!(decode_dna(b'A'), Err(DnaError::InvalidSymbol(b'A')));
}

#[test]
fn software_bit_count() {
    let samples = [0u64, 1, 2, 3, 0x8000_0000_0000_0000, u64::MAX, 0x5555_5555_5555_5555, 0x0123_4567_89ab_cdef];
    for &x in &samples {
        assert_eq!(popcount_software(x), x.count_ones());
    }
    let mut state = 12345u64;
    for _ in 0..10_000 {
        state = state.wrapping_mul(6364136223846793005).wrapping_add(1442695040888963407);
        assert_eq!(popcount_software(state), state.count_ones());
    }
    assert_eq!(popcount_software(0xff), 8);
    assert_eq!(popcount_software(0x7fff_ffff_ffff_ffff), 63);
}

#[test]
fn string_codes_round_trip() {
    let codes = seq_gen::encode_dna("GATTACA").unwrap();
    assert_eq!(codes, vec![0b101, 0b011, 0, 0, 0b011, 0b110, 0b011]);
    assert_eq!(seq_gen::decode_dna(&codes).unwrap(), "GATTACA");
    assert_eq!(seq_gen::encode_dna("GAZ"), Err(DnaError::InvalidSymbol(b'Z')));
    assert_eq!(seq_gen::decode_dna(&[0b011, 0b001]), Err(DnaError::InvalidSymbol(0b001)));
    assert_eq!(seq_gen::decode_dna(&[]).unwrap(), "");
}

#[test]
fn xor_score_over_shared_chunks() {
    let a = vec![0b011u8; 32];
    let b = vec![0b110u8; 32];
    // each byte XORs to 0b101, two bits: 32 positions differ
    assert_eq!(seq_gen::hamming_distance_simd(&a, &b), 32);
    assert_eq!(seq_gen::hamming_distance_simd(&a, &a), 0);
    let longer = vec![0b110u8; 70];
    assert_eq!(seq_gen::hamming_distance_simd(&a, &longer), 32);
    let mut one = a.clone();
    one[7] = 0b110;
    assert_eq!(seq_gen::hamming_distance_simd(&a, &one), 1);
}

#[test]
fn neighbours_of_full_chunks_only() {
    let seq = seq_gen::encode_dna(&"ACGT".repeat(8)).unwrap();
    let n = seq_gen::neighbors_simd(&seq);
    assert_eq!(n.len(), 96);
    let mut flipped = seq.clone();
    flipped[5] ^= 0b010;
    assert!(n.contains(&flipped));
    assert!(!n.contains(&seq));
    let short = seq_gen::neighbors_simd(&seq[..31]);
    assert!(short.is_empty());
    let mut longer = seq.clone();
    longer.extend_from_slice(&seq[..10]);
    assert_eq!(seq_gen::neighbors_simd(&longer).len(), 96);
}
