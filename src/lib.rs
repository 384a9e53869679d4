//! Distances between short nucleotide sequences, computed on bit-packed
//! 3-bit codes: the alphabet codec, the packed batch and its all-pairs Hamming
//! table, the triangular slot of each pair, Myers' bit-parallel edit-distance
//! automaton across eight windows, and the classical distances it is checked
//! against.
pub mod bit_packed_ham;
pub mod bitword;
pub mod common;
pub mod distances;
pub mod pairs;
pub mod seq_gen;
