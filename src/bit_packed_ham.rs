//! The packed batch: equal-length nucleotide sequences packed as 3-bit codes
//! into 64-bit words, and the Hamming distance of every unordered pair of them.
//!
//! Layout is lane-major: each sequence owns a run of whole groups of four
//! words, 21 codes to a word, lowest field first; words and fields beyond the
//! sequence's length are zero. A pair's distance is the population count of
//! the masked XOR of its words, halved, since two distinct codes always differ
//! in exactly two bits.
use vstd::prelude::*;

use once_cell::sync::OnceCell;

use crate::bitword::{
    all_codes, codes_in_word, count_ones, lemma_mismatches_append, lemma_mismatches_bound,
    lemma_mismatches_map, lemma_mismatches_symmetric, lemma_or_shift, lemma_packed_chunk,
    lemma_packed_from_chunks, lemma_packed_len, lemma_word_codes_len, lemma_word_codes_push,
    lemma_word_mismatches, low_mask, mismatches, packed_codes, popcount_software, pow8,
    word_codes, words_for,
};
use crate::common::{canonical_base, encode_dna, is_base, is_code, spec_encode, DnaError};
use crate::pairs::{
    is_pair, lemma_row_bounds, lemma_row_step, lemma_slot_bijection, lemma_slot_in_row, pair_count,
    row_start, slot_is_taken, slot_of, slot_pair,
};

verus! {

/// Words of a group: a sequence's words are taken four at a time.
pub const WORDS_PER_GROUP: usize = 4;

/// How the engine counts the bits of a word: the processor's instruction, four
/// words to a group, or a software count one word at a time.
#[derive(Debug, Clone, Copy, PartialEq, Eq, Structural)]
pub enum PopcountPath {
    Vectorized,
    Scalar,
}

/// Relies on `safe_arch::prefetch_t2`: a cache hint that reads no value back
/// and changes none.
pub assume_specification<T>[ safe_arch::prefetch_t2::<T> ](addr: &T);

/// `once_cell::sync::OnceCell`, held opaque: a cell written at most once.
#[verifier::external_type_specification]
#[verifier::external_body]
#[verifier::reject_recursive_types(T)]
pub struct ExOnceCell<T>(OnceCell<T>);

/// Relies on `once_cell::sync::OnceCell::new`: an empty cell.
pub assume_specification<T>[ OnceCell::<T>::new ]() -> OnceCell<T>;

/// Relies on `once_cell::sync::OnceCell::get`: the value, once a `set` has won.
pub assume_specification<T>[ OnceCell::<T>::get ](cell: &OnceCell<T>) -> Option<&T>;

/// Relies on `once_cell::sync::OnceCell::set`: `Ok` when the cell was empty,
/// else the value handed back.
pub assume_specification<T>[ OnceCell::<T>::set ](cell: &OnceCell<T>, value: T) -> (r: Result<
    (),
    T,
>)
    ensures
        r matches Err(v) ==> v == value,
;

/// Codes covered once the first `x` words of a sequence of `len` codes are
/// counted.
pub open spec fn prefix_done(len: int, x: int) -> int {
    if x < words_for(len) {
        21 * x
    } else {
        len
    }
}

/// A word with no bit set above its first `c` code fields.
pub open spec fn fields_only(word: u64, c: int) -> bool {
    word >> ((3 * c) as u64) == 0
}

/// The words of a packed sequence of `len` codes have no bit set outside their
/// code fields: bit 63 of every word, the bits above the last code, and every
/// word past the last are zero.
pub open spec fn padding_clear(words: Seq<u64>, len: nat) -> bool {
    forall|w: int| 0 <= w < words.len() ==> #[trigger] fields_only(words[w], codes_in_word(len as int, w))
}

/// Every byte is a symbol of the alphabet.
pub open spec fn all_bases(s: Seq<u8>) -> bool {
    forall|k: int| 0 <= k < s.len() ==> #[trigger] is_base(s[k])
}

/// Position `k` holds the first byte of `s` outside the alphabet.
pub open spec fn first_bad_at(s: Seq<u8>, k: int) -> bool {
    &&& 0 <= k < s.len()
    &&& !is_base(s[k])
    &&& forall|m: int| 0 <= m < k ==> #[trigger] is_base(s[m])
}

/// The codes of a sequence of symbols.
pub open spec fn encoded(s: Seq<u8>) -> Seq<u8> {
    s.map_values(|b: u8| spec_encode(b))
}

/// A sequence of symbols with the alias `U` read as `T`.
pub open spec fn canonical(s: Seq<u8>) -> Seq<u8> {
    s.map_values(|b: u8| canonical_base(b))
}

/// Why a sequence cannot join a batch of sequences of length `len`: its
/// length first, then its first byte outside the alphabet.
pub open spec fn sequence_error(s: Seq<u8>, len: nat) -> Option<DnaError> {
    if s.len() != len {
        Some(DnaError::LengthMismatch)
    } else if all_bases(s) {
        None
    } else {
        Some(DnaError::InvalidSymbol(s[choose|k: int| first_bad_at(s, k)]))
    }
}

/// The error of the first sequence from `i` on that cannot join the batch.
pub open spec fn batch_error_from(seqs: Seq<Seq<u8>>, len: nat, i: int) -> Option<DnaError>
    decreases seqs.len() - i,
{
    if i < 0 || i >= seqs.len() {
        None
    } else if sequence_error(seqs[i], len) is Some {
        sequence_error(seqs[i], len)
    } else {
        batch_error_from(seqs, len, i + 1)
    }
}

/// Why a list of sequences cannot be packed, if it cannot: it is empty, or
/// the first sequence that is refused, in order, has a length other than the
/// first's or a byte outside the alphabet.
pub open spec fn batch_error(seqs: Seq<Seq<u8>>) -> Option<DnaError> {
    if seqs.len() == 0 {
        Some(DnaError::EmptyBatch)
    } else {
        batch_error_from(seqs, seqs[0].len(), 0)
    }
}

/// The contents of the vectors of a list.
pub open spec fn views(seqs: Seq<Vec<u8>>) -> Seq<Seq<u8>> {
    seqs.map_values(|v: Vec<u8>| v@)
}

/// Distances of a list of sequences, one per unordered pair, at the pair's
/// triangular slot: the positions at which the two differ, `U` being `T`.
pub open spec fn is_pair_table(r: Seq<usize>, seqs: Seq<Seq<u8>>) -> bool {
    &&& r.len() == pair_count(seqs.len() as int)
    &&& forall|i: int, j: int|
        is_pair(seqs.len() as int, i, j) ==> r[#[trigger] slot_of(seqs.len() as int, i, j)]
            == mismatches(canonical(seqs[i]), canonical(seqs[j]))
}

proof fn lemma_first_bad_unique(s: Seq<u8>, k1: int, k2: int)
    requires
        first_bad_at(s, k1),
        first_bad_at(s, k2),
    ensures
        k1 == k2,
{
    if k1 < k2 {
        assert(is_base(s[k1]));
    } else if k2 < k1 {
        assert(is_base(s[k2]));
    }
}

/// Mismatches of codes are those of the symbols, `U` being `T`.
pub proof fn lemma_encoded_mismatches(x: Seq<u8>, y: Seq<u8>)
    requires
        x.len() == y.len(),
        all_bases(x),
        all_bases(y),
    ensures
        mismatches(encoded(x), encoded(y)) == mismatches(canonical(x), canonical(y)),
{
    assert forall|k: int| 0 <= k < x.len() implies (#[trigger] encoded(x)[k] == encoded(y)[k]
        <==> canonical(x)[k] == canonical(y)[k]) by {
        assert(is_base(x[k]) && is_base(y[k]));
    }
    lemma_mismatches_map(canonical(x), canonical(y), encoded(x), encoded(y));
}

/// Packs one sequence as `words_per_sequence` words at the end of `out`.
fn pack_sequence(seq: &Vec<u8>, out: &mut Vec<u64>, words_per_sequence: usize) -> (r: Result<
    (),
    DnaError,
>)
    requires
        words_per_sequence >= words_for(seq@.len() as int),
    ensures
        r is Ok <==> all_bases(seq@),
        r matches Err(e) ==> sequence_error(seq@, seq@.len()) == Some(e),
        r is Ok ==> {
            &&& final(out)@.len() == old(out)@.len() + words_per_sequence
            &&& final(out)@.subrange(0, old(out)@.len() as int) == old(out)@
            &&& packed_codes(
                final(out)@.subrange(
                    old(out)@.len() as int,
                    old(out)@.len() + words_per_sequence,
                ),
                seq@.len(),
            ) == encoded(seq@)
            &&& padding_clear(
                final(out)@.subrange(
                    old(out)@.len() as int,
                    old(out)@.len() + words_per_sequence,
                ),
                seq@.len(),
            )
        },
{
    let len = seq.len();
    let ghost start_len = out@.len();
    let ghost codes = encoded(seq@);
    let nw: usize = len / 21 + if len % 21 != 0 {
        1
    } else {
        0
    };
    assert(nw == words_for(len as int));
    let mut w: usize = 0;
    while w < nw
        invariant
            nw == words_for(len as int),
            len == seq@.len(),
            codes == encoded(seq@),
            w <= nw,
            out@.len() == start_len + w,
            out@.subrange(0, start_len as int) == old(out)@,
            start_len == old(out)@.len(),
            forall|m: int| 0 <= m < 21 * w && m < len ==> #[trigger] is_base(seq@[m]),
            forall|v: int|
                0 <= v < w ==> #[trigger] word_codes(
                    out@[start_len + v],
                    codes_in_word(len as int, v) as nat,
                ) == codes.subrange(21 * v, 21 * v + codes_in_word(len as int, v)),
            forall|v: int|
                0 <= v < w ==> #[trigger] fields_only(out@[start_len + v], codes_in_word(len as int, v)),
        decreases nw - w,
    {
        let start = w * 21;
        let cnt: usize = if len - start >= 21 {
            21
        } else {
            len - start
        };
        assert(cnt == codes_in_word(len as int, w as int));
        let mut word: u64 = 0;
        let mut k: usize = 0;
        assert(pow8(0) == 1);
        assert((1u64 << (3 * 0u64) as u64) == 1) by (bit_vector);
        assert(word_codes(0, 0) =~= codes.subrange(start as int, start as int));
        while k < cnt
            invariant
                cnt <= 21,
                start + cnt <= len,
                len == seq@.len(),
                codes == encoded(seq@),
                start == 21 * w,
                k <= cnt,
                word < (1u64 << (3 * k) as u64),
                pow8(k as nat) == (1u64 << (3 * k) as u64),
                word_codes(word, k as nat) == codes.subrange(start as int, start + k),
                forall|m: int| 0 <= m < start + k ==> #[trigger] is_base(seq@[m]),
            decreases cnt - k,
        {
            let b = seq[start + k];
            let code = match encode_dna(b) {
                Ok(c) => c,
                Err(e) => {
                    proof {
                        assert(first_bad_at(seq@, (start + k) as int));
                        let kk = choose|kk: int| first_bad_at(seq@, kk);
                        lemma_first_bad_unique(seq@, kk, (start + k) as int);
                    }
                    return Err(e);
                },
            };
            proof {
                lemma_or_shift(word, code as u64, k as u64);
                lemma_word_codes_push(word, code as u64, k as nat);
                assert(codes.subrange(start as int, start + k + 1) =~= codes.subrange(
                    start as int,
                    start + k,
                ).push(code));
                assert(pow8((k + 1) as nat) == 8 * pow8(k as nat));
            }
            word = word | ((code as u64) << (3 * k as u64));
            k = k + 1;
        }
        proof {
            let sh = (3 * cnt) as u64;
            assert(word >> sh == 0) by (bit_vector)
                requires
                    word < (1u64 << sh),
                    sh <= 63,
            ;
            assert(fields_only(word, cnt as int));
        }
        let ghost prev = out@;
        out.push(word);
        proof {
            assert forall|v: int| 0 <= v < w + 1 implies #[trigger] fields_only(
                out@[start_len + v],
                codes_in_word(len as int, v),
            ) by {
                if v < w {
                    assert(out@[start_len + v] == prev[start_len + v]);
                }
            }
            assert forall|v: int| 0 <= v < w + 1 implies #[trigger] word_codes(
                out@[start_len + v],
                codes_in_word(len as int, v) as nat,
            ) == codes.subrange(21 * v, 21 * v + codes_in_word(len as int, v)) by {
                if v < w {
                    assert(out@[start_len + v] == prev[start_len + v]);
                }
            }
            assert(out@.subrange(0, start_len as int) =~= prev.subrange(0, start_len as int));
        }
        w = w + 1;
    }
    let mut pad: usize = nw;
    while pad < words_per_sequence
        invariant
            nw <= pad <= words_per_sequence,
            out@.len() == start_len + pad,
            out@.subrange(0, start_len as int) == old(out)@,
            forall|v: int|
                0 <= v < nw ==> #[trigger] word_codes(
                    out@[start_len + v],
                    codes_in_word(len as int, v) as nat,
                ) == codes.subrange(21 * v, 21 * v + codes_in_word(len as int, v)),
            forall|v: int|
                0 <= v < pad ==> #[trigger] fields_only(out@[start_len + v], codes_in_word(len as int, v)),
        decreases words_per_sequence - pad,
    {
        let ghost prev = out@;
        out.push(0);
        proof {
            assert(0u64 >> ((3 * codes_in_word(len as int, pad as int)) as u64) == 0) by {
                let sh = (3 * codes_in_word(len as int, pad as int)) as u64;
                assert(0u64 >> sh == 0) by (bit_vector);
            }
            assert forall|v: int| 0 <= v < pad + 1 implies #[trigger] fields_only(
                out@[start_len + v],
                codes_in_word(len as int, v),
            ) by {
                if v < pad {
                    assert(out@[start_len + v] == prev[start_len + v]);
                }
            }
            assert(out@.subrange(0, start_len as int) =~= prev.subrange(0, start_len as int));
            assert forall|v: int| 0 <= v < nw implies #[trigger] word_codes(
                out@[start_len + v],
                codes_in_word(len as int, v) as nat,
            ) == codes.subrange(21 * v, 21 * v + codes_in_word(len as int, v)) by {
                assert(out@[start_len + v] == prev[start_len + v]);
            }
        }
        pad = pad + 1;
    }
    proof {
        let words = out@.subrange(start_len as int, start_len + words_per_sequence);
        assert forall|v: int| 0 <= v < words_for(codes.len() as int) implies #[trigger] word_codes(
            words[v],
            codes_in_word(codes.len() as int, v) as nat,
        ) == codes.subrange(21 * v, 21 * v + codes_in_word(codes.len() as int, v)) by {
            assert(words[v] == out@[start_len + v]);
        }
        lemma_packed_from_chunks(words, codes);
        assert forall|v: int| 0 <= v < words.len() implies #[trigger] fields_only(
            words[v],
            codes_in_word(len as int, v),
        ) by {
            assert(words[v] == out@[start_len + v]);
        }
        assert(all_bases(seq@));
    }
    Ok(())
}

/// Equal-length nucleotide sequences packed for distance computation.
pub struct CompactDNA {
    packed_data: Vec<u64>,
    word_length: usize,
    num_sequences: usize,
    words_per_sequence: usize,
}

impl CompactDNA {
    /// Number of sequences of the batch.
    pub closed spec fn count(&self) -> nat {
        self.num_sequences as nat
    }

    /// Length of each sequence of the batch.
    pub closed spec fn length(&self) -> nat {
        self.word_length as nat
    }

    /// The words of sequence `s`.
    closed spec fn words_of(&self, s: int) -> Seq<u64> {
        self.packed_data@.subrange(
            s * self.words_per_sequence,
            s * self.words_per_sequence + self.words_per_sequence,
        )
    }

    /// The codes that sequence `s` holds.
    pub closed spec fn codes(&self, s: int) -> Seq<u8> {
        packed_codes(self.words_of(s), self.word_length as nat)
    }

    /// The words of sequence `s` have no bit set outside their code fields.
    pub closed spec fn padding_is_clear(&self, s: int) -> bool {
        padding_clear(self.words_of(s), self.word_length as nat)
    }

    /// Number of positions at which sequences `i` and `j` differ.
    pub open spec fn pair_distance(&self, i: int, j: int) -> nat {
        mismatches(self.codes(i), self.codes(j))
    }

    /// A table of the distance of every unordered pair of the batch, each at
    /// its triangular slot.
    pub open spec fn is_distance_table(&self, r: Seq<usize>) -> bool {
        &&& r.len() == pair_count(self.count() as int)
        &&& forall|i: int, j: int|
            is_pair(self.count() as int, i, j) ==> r[#[trigger] slot_of(self.count() as int, i, j)]
                == self.pair_distance(i, j)
    }

    #[verifier::type_invariant]
    closed spec fn inv(self) -> bool {
        &&& self.num_sequences >= 1
        &&& self.words_per_sequence >= words_for(self.word_length as int)
        &&& self.words_per_sequence % 4 == 0
        &&& self.packed_data@.len() == self.num_sequences * self.words_per_sequence
        &&& forall|s: int| 0 <= s < self.num_sequences ==> all_codes(#[trigger] self.codes(s))
        &&& forall|s: int|
            0 <= s < self.num_sequences ==> padding_clear(
                #[trigger] self.words_of(s),
                self.word_length as nat,
            )
    }

    /// The codes of each sequence have the batch's length.
    pub proof fn lemma_codes_len(&self, s: int)
        ensures
            self.codes(s).len() == self.length(),
    {
        lemma_packed_len(self.words_of(s), self.word_length as nat);
    }

    /// Symmetry: the distance of `(i, j)` is that of `(j, i)`.
    pub proof fn lemma_distance_symmetric(&self, i: int, j: int)
        ensures
            self.pair_distance(i, j) == self.pair_distance(j, i),
    {
        self.lemma_codes_len(i);
        self.lemma_codes_len(j);
        lemma_mismatches_symmetric(self.codes(i), self.codes(j));
    }

    /// The table of a batch is unique: whichever path computed a table, two
    /// tables of one batch are equal.
    pub proof fn lemma_table_unique(&self, r1: Seq<usize>, r2: Seq<usize>)
        requires
            self.is_distance_table(r1),
            self.is_distance_table(r2),
        ensures
            r1 == r2,
    {
        let n = self.count() as int;
        if n < 2 {
            assert(pair_count(n) == 0) by (nonlinear_arith)
                requires
                    n == 0 || n == 1,
            ;
        } else {
            lemma_slot_bijection(n);
            assert forall|s: int| 0 <= s < r1.len() implies r1[s] == r2[s] by {
                assert(slot_is_taken(n, s));
                let (i, j) = choose|i: int, j: int|
                    is_pair(n, i, j) && #[trigger] slot_of(n, i, j) == s;
                assert(r1[slot_of(n, i, j)] == self.pair_distance(i, j));
                assert(r2[slot_of(n, i, j)] == self.pair_distance(i, j));
            }
        }
        assert(r1 =~= r2);
    }

    proof fn lemma_seq_words_in_range(&self, s: int)
        requires
            self.inv(),
            0 <= s < self.num_sequences,
        ensures
            s * self.words_per_sequence + self.words_per_sequence <= self.packed_data@.len(),
            0 <= s * self.words_per_sequence,
    {
        assert(s * self.words_per_sequence + self.words_per_sequence <= self.num_sequences
            * self.words_per_sequence) by (nonlinear_arith)
            requires
                0 <= s < self.num_sequences,
        ;
        assert(0 <= s * self.words_per_sequence) by (nonlinear_arith)
            requires
                0 <= s,
        ;
    }

    /// Packs a batch; refuses an empty list, a sequence whose length differs
    /// from the first's, or a byte outside the alphabet, whichever comes
    /// first.
    pub fn new(sequences: &[Vec<u8>]) -> (r: Result<CompactDNA, DnaError>)
        ensures
            r matches Err(e) ==> batch_error(views(sequences@)) == Some(e),
            r is Ok <==> batch_error(views(sequences@)) is None,
            r matches Ok(b) ==> {
                &&& b.count() == sequences@.len()
                &&& b.length() == sequences@[0]@.len()
                &&& forall|s: int|
                    0 <= s < sequences@.len() ==> #[trigger] b.codes(s) == encoded(
                        sequences@[s]@,
                    )
                &&& forall|s: int| 0 <= s < sequences@.len() ==> #[trigger] b.padding_is_clear(s)
            },
    {
        let ghost seqs = views(sequences@);
        if sequences.len() == 0 {
            return Err(DnaError::EmptyBatch);
        }
        let word_length = sequences[0].len();
        let nw: usize = word_length / 21 + if word_length % 21 != 0 {
            1
        } else {
            0
        };
        let groups: usize = nw / 4 + if nw % 4 != 0 {
            1
        } else {
            0
        };
        let words_per_sequence: usize = groups * 4;
        let mut packed_data: Vec<u64> = Vec::new();
        let mut s: usize = 0;
        while s < sequences.len()
            invariant
                seqs == views(sequences@),
                seqs.len() >= 1,
                word_length == seqs[0].len(),
                words_per_sequence >= words_for(word_length as int),
                words_per_sequence % 4 == 0,
                s <= sequences@.len(),
                packed_data@.len() == s * words_per_sequence,
                batch_error(seqs) == batch_error_from(seqs, word_length as nat, s as int),
                forall|t: int|
                    0 <= t < s ==> #[trigger] packed_codes(
                        packed_data@.subrange(
                            t * words_per_sequence,
                            t * words_per_sequence + words_per_sequence,
                        ),
                        word_length as nat,
                    ) == encoded(seqs[t]),
                forall|t: int| 0 <= t < s ==> all_bases(#[trigger] seqs[t]),
                forall|t: int|
                    0 <= t < s ==> #[trigger] padding_clear(
                        packed_data@.subrange(
                            t * words_per_sequence,
                            t * words_per_sequence + words_per_sequence,
                        ),
                        word_length as nat,
                    ),
            decreases sequences@.len() - s,
        {
            let seq = &sequences[s];
            assert(seqs[s as int] == seq@);
            if seq.len() != word_length {
                return Err(DnaError::LengthMismatch);
            }
            let ghost before = packed_data@;
            match pack_sequence(seq, &mut packed_data, words_per_sequence) {
                Ok(()) => {},
                Err(e) => {
                    return Err(e);
                },
            }
            proof {
                assert((s + 1) * words_per_sequence == s * words_per_sequence + words_per_sequence)
                    by (nonlinear_arith);
                assert forall|t: int| 0 <= t < s + 1 implies #[trigger] padding_clear(
                    packed_data@.subrange(
                        t * words_per_sequence,
                        t * words_per_sequence + words_per_sequence,
                    ),
                    word_length as nat,
                ) by {
                    if t < s {
                        assert(t * words_per_sequence + words_per_sequence <= s
                            * words_per_sequence) by (nonlinear_arith)
                            requires
                                t < s,
                                0 <= t,
                        ;
                        assert(0 <= t * words_per_sequence) by (nonlinear_arith)
                            requires
                                0 <= t,
                        ;
                        assert(packed_data@.subrange(
                            t * words_per_sequence,
                            t * words_per_sequence + words_per_sequence,
                        ) =~= before.subrange(
                            t * words_per_sequence,
                            t * words_per_sequence + words_per_sequence,
                        ));
                    }
                }
                assert forall|t: int| 0 <= t < s + 1 implies #[trigger] packed_codes(
                    packed_data@.subrange(
                        t * words_per_sequence,
                        t * words_per_sequence + words_per_sequence,
                    ),
                    word_length as nat,
                ) == encoded(seqs[t]) by {
                    if t < s {
                        assert(t * words_per_sequence + words_per_sequence <= s
                            * words_per_sequence) by (nonlinear_arith)
                            requires
                                t < s,
                                0 <= t,
                        ;
                        assert(0 <= t * words_per_sequence) by (nonlinear_arith)
                            requires
                                0 <= t,
                        ;
                        assert(packed_data@.subrange(
                            t * words_per_sequence,
                            t * words_per_sequence + words_per_sequence,
                        ) =~= before.subrange(
                            t * words_per_sequence,
                            t * words_per_sequence + words_per_sequence,
                        ));
                    }
                }
            }
            s = s + 1;
        }
        let r = CompactDNA { packed_data, word_length, num_sequences: sequences.len(), words_per_sequence };
        proof {
            assert forall|t: int| 0 <= t < r.num_sequences implies padding_clear(
                #[trigger] r.words_of(t),
                r.word_length as nat,
            ) by {
                assert(r.words_of(t) == r.packed_data@.subrange(
                    t * r.words_per_sequence,
                    t * r.words_per_sequence + r.words_per_sequence,
                ));
            }
            assert forall|t: int| 0 <= t < r.num_sequences implies all_codes(
                #[trigger] r.codes(t),
            ) by {
                assert(r.codes(t) == encoded(seqs[t]));
                assert(all_bases(seqs[t]));
                assert forall|k: int| 0 <= k < r.codes(t).len() implies #[trigger] is_code(
                    r.codes(t)[k],
                ) by {
                    assert(is_base(seqs[t][k]));
                }
            }
        }
        Ok(r)
    }

    /// Bits in which one word of sequences `i` and `j` differ, under the mask
    /// of the codes that the word holds.
    fn word_diff_bits(&self, i: usize, j: usize, w: usize, path: PopcountPath) -> (r: u32)
        requires
            i < self.count(),
            j < self.count(),
            w < words_for(self.length() as int),
        ensures
            r == 2 * mismatches(
                self.codes(i as int).subrange(
                    21 * w,
                    21 * w + codes_in_word(self.length() as int, w as int),
                ),
                self.codes(j as int).subrange(
                    21 * w,
                    21 * w + codes_in_word(self.length() as int, w as int),
                ),
            ),
            r <= 42,
    {
        proof {
            use_type_invariant(self);
            self.lemma_seq_words_in_range(i as int);
            self.lemma_seq_words_in_range(j as int);
        }
        let wps = self.words_per_sequence;
        let len = self.word_length;
        let cnt: usize = if len - w * 21 >= 21 {
            21
        } else {
            len - w * 21
        };
        let total_len = self.packed_data.len();
        assert(i * wps + wps <= total_len);
        assert(j * wps + wps <= total_len);
        assert(w < wps);
        let a = self.packed_data[i * wps + w];
        let b = self.packed_data[j * wps + w];
        let ghost c = codes_in_word(len as int, w as int);
        assert(cnt == c);
        assert(1u64 << (3 * cnt as u64) >= 1) by (bit_vector)
            requires
                cnt <= 21,
        ;
        let mask: u64 = (1u64 << (3 * cnt as u64)) - 1;
        let x = (a ^ b) & mask;
        let bits = match path {
            PopcountPath::Vectorized => count_ones(x),
            PopcountPath::Scalar => popcount_software(x),
        };
        proof {
            let wi = self.words_of(i as int);
            let wj = self.words_of(j as int);
            assert(wi[w as int] == a);
            assert(wj[w as int] == b);
            lemma_packed_chunk(wi, len as nat, w as int);
            lemma_packed_chunk(wj, len as nat, w as int);
            let ci = self.codes(i as int);
            let cj = self.codes(j as int);
            assert(all_codes(ci));
            assert(all_codes(cj));
            let si = ci.subrange(21 * w, 21 * w + c);
            let sj = cj.subrange(21 * w, 21 * w + c);
            assert(all_codes(word_codes(a, c as nat))) by {
                assert forall|k: int| 0 <= k < c implies #[trigger] is_code(
                    word_codes(a, c as nat)[k],
                ) by {
                    assert(si[k] == ci[21 * w + k]);
                }
            }
            assert(all_codes(word_codes(b, c as nat))) by {
                assert forall|k: int| 0 <= k < c implies #[trigger] is_code(
                    word_codes(b, c as nat)[k],
                ) by {
                    assert(sj[k] == cj[21 * w + k]);
                }
            }
            lemma_word_mismatches(a, b, c as nat);
            assert(mask == low_mask(cnt as u64));
            lemma_word_codes_len(a, c as nat);
            lemma_mismatches_bound(word_codes(a, c as nat), word_codes(b, c as nat));
        }
        bits
    }

    proof fn lemma_prefix_step(&self, i: int, j: int, w: int)
        requires
            0 <= w < words_for(self.length() as int),
        ensures
            21 * w + codes_in_word(self.length() as int, w) <= self.length(),
            mismatches(
                self.codes(i).subrange(0, 21 * w + codes_in_word(self.length() as int, w)),
                self.codes(j).subrange(0, 21 * w + codes_in_word(self.length() as int, w)),
            ) == mismatches(self.codes(i).subrange(0, 21 * w), self.codes(j).subrange(0, 21 * w))
                + mismatches(
                self.codes(i).subrange(21 * w, 21 * w + codes_in_word(self.length() as int, w)),
                self.codes(j).subrange(21 * w, 21 * w + codes_in_word(self.length() as int, w)),
            ),
    {
        let len = self.length() as int;
        let c = codes_in_word(len, w);
        let ci = self.codes(i);
        let cj = self.codes(j);
        self.lemma_codes_len(i);
        self.lemma_codes_len(j);
        assert(21 * w + c <= len);
        assert(ci.subrange(0, 21 * w + c) =~= ci.subrange(0, 21 * w) + ci.subrange(
            21 * w,
            21 * w + c,
        ));
        assert(cj.subrange(0, 21 * w + c) =~= cj.subrange(0, 21 * w) + cj.subrange(
            21 * w,
            21 * w + c,
        ));
        lemma_mismatches_append(
            ci.subrange(0, 21 * w),
            ci.subrange(21 * w, 21 * w + c),
            cj.subrange(0, 21 * w),
            cj.subrange(21 * w, 21 * w + c),
        );
    }

    proof fn lemma_prefix_full(&self, i: int, j: int)
        ensures
            words_for(self.length() as int) == 0 || 21 * (words_for(self.length() as int) - 1)
                + codes_in_word(self.length() as int, words_for(self.length() as int) - 1)
                == self.length(),
            self.codes(i).subrange(0, self.length() as int) == self.codes(i),
            self.codes(j).subrange(0, self.length() as int) == self.codes(j),
            self.codes(i).subrange(0, 0) == self.codes(j).subrange(0, 0),
    {
        self.lemma_codes_len(i);
        self.lemma_codes_len(j);
        assert(self.codes(i).subrange(0, self.length() as int) =~= self.codes(i));
        assert(self.codes(j).subrange(0, self.length() as int) =~= self.codes(j));
        assert(self.codes(i).subrange(0, 0) =~= self.codes(j).subrange(0, 0));
    }

    /// Bits counted for word `w` of sequences `i` and `j`: none past the last
    /// word of the sequence.
    fn lane_bits(&self, i: usize, j: usize, w: usize, path: PopcountPath) -> (r: u32)
        requires
            i < self.count(),
            j < self.count(),
        ensures
            r <= 42,
            r == 2 * (mismatches(
                self.codes(i as int).subrange(0, prefix_done(self.length() as int, w + 1)),
                self.codes(j as int).subrange(0, prefix_done(self.length() as int, w + 1)),
            ) - mismatches(
                self.codes(i as int).subrange(0, prefix_done(self.length() as int, w as int)),
                self.codes(j as int).subrange(0, prefix_done(self.length() as int, w as int)),
            )),
    {
        let len = self.word_length;
        let nw: usize = len / 21 + if len % 21 != 0 {
            1
        } else {
            0
        };
        if w < nw {
            let b = self.word_diff_bits(i, j, w, path);
            proof {
                self.lemma_prefix_step(i as int, j as int, w as int);
                if w + 1 == nw {
                    self.lemma_prefix_full(i as int, j as int);
                } else {
                    assert(codes_in_word(len as int, w as int) == 21);
                }
            }
            b
        } else {
            0
        }
    }

    /// Distance of sequences `i` and `j`, four words to a group, each word
    /// counted by the processor's instruction.
    pub fn pair_distance_vectorized(&self, i: usize, j: usize) -> (r: usize)
        requires
            i < self.count(),
            j < self.count(),
        ensures
            r == self.pair_distance(i as int, j as int),
    {
        let len = self.word_length;
        let nw: usize = len / 21 + if len % 21 != 0 {
            1
        } else {
            0
        };
        let groups: usize = nw / 4 + if nw % 4 != 0 {
            1
        } else {
            0
        };
        let ghost ci = self.codes(i as int);
        let ghost cj = self.codes(j as int);
        proof {
            self.lemma_prefix_full(i as int, j as int);
            self.lemma_codes_len(i as int);
        }
        let mut total: usize = 0;
        let mut g: usize = 0;
        while g < groups
            invariant
                nw == words_for(len as int),
                len == self.length(),
                groups == nw / 4 + if nw % 4 != 0 {
                    1int
                } else {
                    0int
                },
                g <= groups,
                i < self.count(),
                j < self.count(),
                ci == self.codes(i as int),
                cj == self.codes(j as int),
                ci.len() == len,
                total == mismatches(
                    ci.subrange(0, prefix_done(len as int, 4 * g)),
                    cj.subrange(0, prefix_done(len as int, 4 * g)),
                ),
                4 * g <= nw || g == groups,
            decreases groups - g,
        {
            let mut bits: u32 = 0;
            let mut lane: usize = 0;
            let ghost base = prefix_done(len as int, 4 * g);
            while lane < WORDS_PER_GROUP
                invariant
                    nw == words_for(len as int),
                    len == self.length(),
                    lane <= WORDS_PER_GROUP,
                    4 * g <= nw,
                    base == prefix_done(len as int, 4 * g),
                    i < self.count(),
                    j < self.count(),
                    ci == self.codes(i as int),
                    cj == self.codes(j as int),
                    ci.len() == len,
                    bits <= 42 * lane,
                    bits == 2 * (mismatches(
                        ci.subrange(0, prefix_done(len as int, 4 * g + lane)),
                        cj.subrange(0, prefix_done(len as int, 4 * g + lane)),
                    ) - mismatches(ci.subrange(0, base), cj.subrange(0, base))),
                decreases WORDS_PER_GROUP - lane,
            {
                let b = self.lane_bits(i, j, 4 * g + lane, PopcountPath::Vectorized);
                bits = bits + b;
                lane = lane + 1;
            }
            proof {
                assert(bits % 2 == 0);
                if 4 * g + 4 > nw {
                    assert(g + 1 == groups);
                }
                let p = prefix_done(len as int, 4 * g + 4);
                assert(0 <= p <= len);
                lemma_mismatches_bound(ci.subrange(0, p), cj.subrange(0, p));
            }
            total = total + (bits / 2) as usize;
            g = g + 1;
        }
        proof {
            self.lemma_prefix_full(i as int, j as int);
        }
        total
    }

    /// Distance of sequences `i` and `j`, one word at a time, each word
    /// counted in software.
    pub fn pair_distance_scalar(&self, i: usize, j: usize) -> (r: usize)
        requires
            i < self.count(),
            j < self.count(),
        ensures
            r == self.pair_distance(i as int, j as int),
    {
        let len = self.word_length;
        let nw: usize = len / 21 + if len % 21 != 0 {
            1
        } else {
            0
        };
        let ghost ci = self.codes(i as int);
        let ghost cj = self.codes(j as int);
        proof {
            self.lemma_prefix_full(i as int, j as int);
            self.lemma_codes_len(i as int);
        }
        let mut total: usize = 0;
        let mut w: usize = 0;
        while w < nw
            invariant
                nw == words_for(len as int),
                len == self.length(),
                w <= nw,
                i < self.count(),
                j < self.count(),
                ci == self.codes(i as int),
                cj == self.codes(j as int),
                ci.len() == len,
                total == mismatches(
                    ci.subrange(0, prefix_done(len as int, w as int)),
                    cj.subrange(0, prefix_done(len as int, w as int)),
                ),
            decreases nw - w,
        {
            let b = self.lane_bits(i, j, w, PopcountPath::Scalar);
            proof {
                let p = prefix_done(len as int, w + 1);
                assert(0 <= p <= len);
                lemma_mismatches_bound(ci.subrange(0, p), cj.subrange(0, p));
            }
            total = total + (b / 2) as usize;
            w = w + 1;
        }
        proof {
            self.lemma_prefix_full(i as int, j as int);
        }
        total
    }

    /// Distance of every unordered pair of the batch, pair `(i, j)` at the
    /// slot `i(n-1) - i(i+1)/2 + j - 1`; no pair of a sequence with itself.
    /// Both paths give the same table (see `lemma_table_unique`).
    pub fn calculate_hamming_distance(&self, path: PopcountPath) -> (r: Vec<usize>)
        ensures
            self.is_distance_table(r@),
    {
        proof {
            use_type_invariant(self);
        }
        let n = self.num_sequences;
        let wps = self.words_per_sequence;
        let mut results: Vec<usize> = Vec::new();
        let mut i: usize = 0;
        proof {
            lemma_row_bounds(n as int, 0);
        }
        while i < n
            invariant
                n == self.count(),
                n >= 1,
                wps == self.words_per_sequence,
                self.inv(),
                i <= n,
                results@.len() == row_start(n as int, i as int),
                forall|a: int, b: int|
                    0 <= a < i && a < b < n ==> #[trigger] slot_of(n as int, a, b) < results@.len()
                        && results@[slot_of(n as int, a, b)] == self.pair_distance(a, b),
            decreases n - i,
        {
            let mut j: usize = i + 1;
            proof {
                lemma_row_step(n as int, i as int);
            }
            while j < n
                invariant
                    n == self.count(),
                    wps == self.words_per_sequence,
                    self.inv(),
                    i < n,
                    i + 1 <= j <= n,
                    results@.len() == row_start(n as int, i as int) + (j - i - 1),
                    forall|a: int, b: int|
                        0 <= a < i && a < b < n ==> #[trigger] slot_of(n as int, a, b)
                            < results@.len() && results@[slot_of(n as int, a, b)]
                            == self.pair_distance(a, b),
                    forall|b: int|
                        i < b < j ==> #[trigger] slot_of(n as int, i as int, b) < results@.len()
                            && results@[slot_of(n as int, i as int, b)] == self.pair_distance(
                            i as int,
                            b,
                        ),
                decreases n - j,
            {
                let d = match path {
                    PopcountPath::Vectorized => self.pair_distance_vectorized(i, j),
                    PopcountPath::Scalar => {
                        if n - j > 2 && wps > 0 {
                            proof {
                                self.lemma_seq_words_in_range((j + 2) as int);
                            }
                            let total_len = self.packed_data.len();
                            assert((j + 2) * wps < total_len);
                            safe_arch::prefetch_t2(&self.packed_data[(j + 2) * wps]);
                        }
                        self.pair_distance_scalar(i, j)
                    },
                };
                proof {
                    lemma_slot_in_row(n as int, i as int, j as int);
                }
                let ghost prev = results@;
                results.push(d);
                proof {
                    assert(results@ == prev.push(d));
                    assert forall|a: int, b: int|
                        0 <= a < i && a < b < n implies #[trigger] slot_of(n as int, a, b)
                        < results@.len() && results@[slot_of(n as int, a, b)]
                        == self.pair_distance(a, b) by {
                        let k = slot_of(n as int, a, b);
                        lemma_row_bounds(n as int, a);
                        lemma_slot_in_row(n as int, a, b);
                        assert(0 <= k < prev.len());
                        assert(prev.push(d)[k] == prev[k]);
                    }
                    assert forall|b: int| i < b < j + 1 implies #[trigger] slot_of(
                        n as int,
                        i as int,
                        b,
                    ) < results@.len() && results@[slot_of(n as int, i as int, b)]
                        == self.pair_distance(i as int, b) by {
                        lemma_slot_in_row(n as int, i as int, b);
                        if b < j {
                            let k = slot_of(n as int, i as int, b);
                            lemma_row_bounds(n as int, i as int);
                            assert(0 <= k < prev.len());
                            assert(prev.push(d)[k] == prev[k]);
                        }
                    }
                }
                j = j + 1;
            }
            i = i + 1;
        }
        proof {
            lemma_row_bounds(n as int, (n - 1) as int);
            lemma_row_step(n as int, (n - 1) as int);
        }
        results
    }
}

impl CompactDNA {
    /// Number of sequences of the batch.
    pub fn num_sequences(&self) -> (r: usize)
        ensures
            r == self.count(),
    {
        self.num_sequences
    }

    /// Distances of the pairs whose slots lie in `[start, end)`, in slot
    /// order. Disjoint ranges can go to separate workers, each writing only
    /// its own part of the table.
    pub fn distances_in_slots(&self, path: PopcountPath, start: usize, end: usize) -> (r: Vec<
        usize,
    >)
        requires
            start <= end <= pair_count(self.count() as int),
        ensures
            r@.len() == end - start,
            forall|i: int, j: int|
                is_pair(self.count() as int, i, j) && start <= #[trigger] slot_of(
                    self.count() as int,
                    i,
                    j,
                ) < end ==> r@[slot_of(self.count() as int, i, j) - start] == self.pair_distance(
                    i,
                    j,
                ),
    {
        proof {
            use_type_invariant(self);
        }
        let n = self.num_sequences;
        let mut out: Vec<usize> = Vec::new();
        if start == end {
            return out;
        }
        proof {
            if n < 2 {
                assert(pair_count(n as int) == 0) by (nonlinear_arith)
                    requires
                        n == 0 || n == 1,
                ;
            }
            lemma_slot_bijection(n as int);
        }
        let (mut i, mut j) = slot_pair(n, start);
        let mut k: usize = start;
        while k < end
            invariant
                n == self.count(),
                n >= 2,
                start <= k <= end,
                end <= pair_count(n as int),
                out@.len() == k - start,
                k < end ==> is_pair(n as int, i as int, j as int) && slot_of(
                    n as int,
                    i as int,
                    j as int,
                ) == k,
                forall|a: int, b: int|
                    is_pair(n as int, a, b) ==> 0 <= #[trigger] slot_of(n as int, a, b) < pair_count(
                        n as int,
                    ),
                forall|a: int, b: int, c: int, d: int|
                    is_pair(n as int, a, b) && is_pair(n as int, c, d) && #[trigger] slot_of(
                        n as int,
                        a,
                        b,
                    ) == #[trigger] slot_of(n as int, c, d) ==> a == c && b == d,
                forall|a: int, b: int|
                    is_pair(n as int, a, b) && start <= #[trigger] slot_of(n as int, a, b) < k
                        ==> out@[slot_of(n as int, a, b) - start] == self.pair_distance(a, b),
            decreases end - k,
        {
            let d = match path {
                PopcountPath::Vectorized => self.pair_distance_vectorized(i, j),
                PopcountPath::Scalar => self.pair_distance_scalar(i, j),
            };
            let ghost prev = out@;
            let ghost (pi, pj) = (i as int, j as int);
            out.push(d);
            proof {
                assert forall|a: int, b: int|
                    is_pair(n as int, a, b) && start <= #[trigger] slot_of(n as int, a, b) < k + 1
                        implies out@[slot_of(n as int, a, b) - start] == self.pair_distance(a, b) by {
                    if slot_of(n as int, a, b) == k {
                        assert(slot_of(n as int, a, b) == slot_of(n as int, pi, pj));
                    } else {
                        assert(prev.push(d)[slot_of(n as int, a, b) - start] == prev[slot_of(
                            n as int,
                            a,
                            b,
                        ) - start]);
                    }
                }
            }
            if k + 1 < end {
                proof {
                    lemma_slot_in_row(n as int, i as int, j as int);
                    lemma_row_step(n as int, i as int);
                }
                if j + 1 < n {
                    j = j + 1;
                } else {
                    proof {
                        assert(slot_of(n as int, (i + 1) as int, (i + 2) as int) == k + 1);
                        if i + 2 >= n {
                            lemma_row_bounds(n as int, n - 1);
                            lemma_row_bounds(n as int, i as int);
                        }
                    }
                    i = i + 1;
                    j = i + 1;
                }
            }
            k = k + 1;
        }
        out
    }
}

/// Splits the slots `[0, total)` into `parts` consecutive ranges whose sizes
/// differ by at most one, the larger ones first.
pub fn slot_ranges(total: usize, parts: usize) -> (r: Vec<(usize, usize)>)
    requires
        parts >= 1,
    ensures
        r@.len() == parts,
        r@[0].0 == 0,
        r@[parts - 1].1 == total,
        forall|k: int| 0 <= k < parts ==> #[trigger] r@[k].0 <= r@[k].1,
        forall|k: int| 0 <= k < parts - 1 ==> #[trigger] r@[k].1 == r@[k + 1].0,
        forall|k: int|
            0 <= k < parts ==> #[trigger] (r@[k].1 - r@[k].0) == total / parts + if k < total
                % parts {
                1int
            } else {
                0int
            },
{
    let base = total / parts;
    let extra = total % parts;
    let mut out: Vec<(usize, usize)> = Vec::new();
    let mut start: usize = 0;
    let mut k: usize = 0;
    while k < parts
        invariant
            parts >= 1,
            base == total / parts,
            extra == total % parts,
            k <= parts,
            out@.len() == k,
            start == k * base + if k <= extra {
                k as int
            } else {
                extra as int
            },
            k == 0 ==> start == 0,
            k > 0 ==> out@[0].0 == 0,
            k > 0 ==> out@[k - 1].1 == start,
            forall|q: int| 0 <= q < k ==> #[trigger] out@[q].0 <= out@[q].1,
            forall|q: int| 0 <= q < k - 1 ==> #[trigger] out@[q].1 == out@[q + 1].0,
            forall|q: int|
                0 <= q < k ==> #[trigger] (out@[q].1 - out@[q].0) == base + if q < extra {
                    1int
                } else {
                    0int
                },
        decreases parts - k,
    {
        proof {
            assert(total == parts * base + extra) by (nonlinear_arith)
                requires
                    base == total / parts,
                    extra == total % parts,
                    parts >= 1,
            ;
            assert((k + 1) * base <= parts * base) by (nonlinear_arith)
                requires
                    k < parts,
                    base >= 0,
            ;
            assert((k + 1) * base == k * base + base) by (nonlinear_arith);
        }
        let size = if k < extra {
            base + 1
        } else {
            base
        };
        let ghost prev = out@;
        out.push((start, start + size));
        proof {
            assert forall|q: int| 0 <= q < k implies #[trigger] out@[q] == prev[q] by {}
        }
        start = start + size;
        k = k + 1;
    }
    proof {
        assert(total == parts * base + extra) by (nonlinear_arith)
            requires
                base == total / parts,
                extra == total % parts,
                parts >= 1,
        ;
    }
    out
}

proof fn lemma_batch_ok(seqs: Seq<Seq<u8>>, len: nat, k: int)
    requires
        0 <= k,
        batch_error_from(seqs, len, k) is None,
    ensures
        forall|t: int| k <= t < seqs.len() ==> (#[trigger] seqs[t]).len() == len && all_bases(seqs[t]),
    decreases seqs.len() - k,
{
    if k < seqs.len() {
        lemma_batch_ok(seqs, len, k + 1);
    }
}

/// Hamming distance of every unordered pair of a list of equal-length
/// sequences, pair `(i, j)` at its triangular slot; the list is refused as
/// `CompactDNA::new` refuses it.
pub fn pairwise_distances(sequences: &[Vec<u8>], path: PopcountPath) -> (r: Result<
    Vec<usize>,
    DnaError,
>)
    ensures
        r is Ok <==> batch_error(views(sequences@)) is None,
        r matches Err(e) ==> batch_error(views(sequences@)) == Some(e),
        r matches Ok(v) ==> is_pair_table(v@, views(sequences@)),
{
    let batch = match CompactDNA::new(sequences) {
        Ok(b) => b,
        Err(e) => {
            return Err(e);
        },
    };
    let v = batch.calculate_hamming_distance(path);
    proof {
        let seqs = views(sequences@);
        lemma_batch_ok(seqs, seqs[0].len(), 0);
        assert forall|i: int, j: int| is_pair(seqs.len() as int, i, j) implies v@[
            #[trigger] slot_of(seqs.len() as int, i, j)
        ] == mismatches(canonical(seqs[i]), canonical(seqs[j])) by {
            assert(v@[slot_of(seqs.len() as int, i, j)] == batch.pair_distance(i, j));
            assert(batch.codes(i) == encoded(sequences@[i]@));
            assert(batch.codes(j) == encoded(sequences@[j]@));
            assert(seqs[i] == sequences@[i]@);
            assert(seqs[j] == sequences@[j]@);
            lemma_encoded_mismatches(seqs[i], seqs[j]);
        }
    }
    Ok(v)
}

/// The table is that of some batch.
pub open spec fn is_batch_table(v: Seq<usize>) -> bool {
    exists|b: CompactDNA| #[trigger] b.is_distance_table(v)
}

/// A long-lived handle that packs one batch, once, and computes its
/// distances as often as asked, on the path chosen when it was made.
pub struct BitHamProcessor {
    compact_dna: OnceCell<CompactDNA>,
    path: PopcountPath,
}

impl BitHamProcessor {
    /// The path the processor computes on.
    pub closed spec fn path(&self) -> PopcountPath {
        self.path
    }

    /// A processor without a batch, on the vectorized path.
    pub fn new() -> (r: Self)
        ensures
            r.path() == PopcountPath::Vectorized,
    {
        BitHamProcessor { compact_dna: OnceCell::new(), path: PopcountPath::Vectorized }
    }

    /// A processor without a batch, on the given path.
    pub fn with_path(path: PopcountPath) -> (r: Self)
        ensures
            r.path() == path,
    {
        BitHamProcessor { compact_dna: OnceCell::new(), path }
    }

    /// Packs the batch if the processor holds none yet; once one is held,
    /// later calls change nothing and succeed. When two calls race, the first
    /// to store its batch wins.
    pub fn initialize(&self, sequences: &[Vec<u8>]) -> (r: Result<(), DnaError>)
        ensures
            batch_error(views(sequences@)) is None ==> r is Ok,
            r matches Err(e) ==> batch_error(views(sequences@)) == Some(e),
    {
        if self.compact_dna.get().is_some() {
            return Ok(());
        }
        let batch = match CompactDNA::new(sequences) {
            Ok(b) => b,
            Err(e) => {
                return Err(e);
            },
        };
        let _ = self.compact_dna.set(batch);
        Ok(())
    }

    /// The distance table of the batch held, or `NotInitialized` before any.
    pub fn process_sequences(&self) -> (r: Result<Vec<usize>, DnaError>)
        ensures
            r matches Err(e) ==> e == DnaError::NotInitialized,
            r matches Ok(v) ==> is_batch_table(v@),
    {
        match self.compact_dna.get() {
            Some(batch) => {
                let v = batch.calculate_hamming_distance(self.path);
                assert(batch.is_distance_table(v@));
                assert(is_batch_table(v@));
                Ok(v)
            },
            None => Err(DnaError::NotInitialized),
        }
    }
}

} // verus!