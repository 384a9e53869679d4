//! Helpers around synthetic sequences: codes of whole strings and back, the
//! bit count of the XOR of two code strings, and the set of single-bit
//! neighbours of a code string.
use vstd::prelude::*;
use vstd::string::StringSliceAdditionalSpecFns;

use fxhash::{FxHashSet, FxHasher};
use std::hash::BuildHasherDefault;

use vstd::arithmetic::power2::lemma2_to64;

use crate::bit_packed_ham::{all_bases, encoded, first_bad_at};
use crate::bitword::{count_ones, lemma_popcount_bound, popcount};
use vstd::utf8::{
    decode_utf8, encode_utf8, encode_utf8_decode_utf8, is_ascii_chars, is_ascii_chars_encode_utf8,
    pop_first_scalar, valid_utf8,
};

use crate::common::{
    decode_dna as decode_code, encode_dna as encode_base, is_base, is_code, lemma_codec_round_trip,
    spec_decode, DnaError, BASE_U,
};

verus! {

/// Bytes taken together by the XOR score.
pub const CHUNK: usize = 32;

/// `fxhash::FxHasher`, held opaque: the hasher of `FxHashSet`.
#[verifier::external_type_specification]
#[verifier::external_body]
pub struct ExFxHasher(FxHasher);

/// `std::hash::BuildHasherDefault`, held opaque: builds the hashers of a set.
#[verifier::external_type_specification]
#[verifier::external_body]
#[verifier::reject_recursive_types(H)]
pub struct ExBuildHasherDefault<H>(BuildHasherDefault<H>);

/// The byte strings that a set of neighbours holds.
pub uninterp spec fn neighbor_contents(s: FxHashSet<Vec<u8>>) -> Set<Seq<u8>>;

/// Relies on `HashSet::default` for `FxHashSet`: a new set is empty.
#[verifier::external_body]
fn new_neighbor_set() -> (r: FxHashSet<Vec<u8>>)
    ensures
        neighbor_contents(r) == Set::<Seq<u8>>::empty(),
{
    FxHashSet::default()
}

/// Relies on `HashSet::insert` for `FxHashSet`: afterwards the set holds the
/// value as well as what it held.
#[verifier::external_body]
fn insert_neighbor(s: &mut FxHashSet<Vec<u8>>, v: Vec<u8>)
    ensures
        neighbor_contents(*final(s)) == neighbor_contents(*old(s)).insert(v@),
{
    s.insert(v);
}

/// Relies on `String::push`: the string grows by the character at its end.
#[verifier::external_body]
fn push_char(s: &mut String, c: char)
    ensures
        final(s)@ == old(s)@.push(c),
{
    s.push(c);
}

/// Codes of the bytes of a string; refuses its first byte outside the
/// alphabet.
pub fn encode_dna(sequence: &str) -> (r: Result<Vec<u8>, DnaError>)
    ensures
        r is Ok <==> all_bases(sequence.spec_bytes()),
        r matches Ok(v) ==> v@ == encoded(sequence.spec_bytes()),
        r matches Err(e) ==> exists|k: int|
            first_bad_at(sequence.spec_bytes(), k) && e == DnaError::InvalidSymbol(
                sequence.spec_bytes()[k],
            ),
{
    let bytes = sequence.as_bytes();
    let mut out: Vec<u8> = Vec::new();
    let mut k: usize = 0;
    while k < bytes.len()
        invariant
            bytes@ == sequence.spec_bytes(),
            k <= bytes@.len(),
            out@ == encoded(bytes@.take(k as int)),
            forall|q: int| 0 <= q < k ==> #[trigger] crate::common::is_base(bytes@[q]),
        decreases bytes@.len() - k,
    {
        let code = match encode_base(bytes[k]) {
            Ok(c) => c,
            Err(e) => {
                assert(first_bad_at(bytes@, k as int));
                return Err(e);
            },
        };
        out.push(code);
        assert(encoded(bytes@.take(k + 1)) =~= encoded(bytes@.take(k as int)).push(code));
        k = k + 1;
    }
    assert(bytes@.take(k as int) =~= bytes@);
    Ok(out)
}

/// The symbols of a code string, as characters.
pub open spec fn decoded_chars(codes: Seq<u8>) -> Seq<char> {
    codes.map_values(|c: u8| spec_decode(c) as char)
}

/// Every byte is a code.
pub open spec fn all_codes_valid(codes: Seq<u8>) -> bool {
    forall|k: int| 0 <= k < codes.len() ==> #[trigger] is_code(codes[k])
}

/// The string of the symbols of a code string; refuses its first byte that is
/// no code.
pub fn decode_dna(encoded: &[u8]) -> (r: Result<String, DnaError>)
    ensures
        r is Ok <==> all_codes_valid(encoded@),
        r matches Ok(s) ==> s@ == decoded_chars(encoded@),
        r matches Err(e) ==> exists|k: int|
            0 <= k < encoded@.len() && !is_code(encoded@[k]) && (forall|q: int|
                0 <= q < k ==> is_code(#[trigger] encoded@[q])) && e == DnaError::InvalidSymbol(
                encoded@[k],
            ),
{
    let mut out = String::new();
    let mut k: usize = 0;
    while k < encoded.len()
        invariant
            k <= encoded@.len(),
            out@ == decoded_chars(encoded@.take(k as int)),
            forall|q: int| 0 <= q < k ==> #[trigger] is_code(encoded@[q]),
        decreases encoded@.len() - k,
    {
        let b = match decode_code(encoded[k]) {
            Ok(b) => b,
            Err(e) => {
                return Err(e);
            },
        };
        push_char(&mut out, b as char);
        assert(decoded_chars(encoded@.take(k + 1)) =~= decoded_chars(encoded@.take(k as int)).push(
            b as char,
        ));
        k = k + 1;
    }
    assert(encoded@.take(k as int) =~= encoded@);
    Ok(out)
}

/// Bytes below 128 are valid UTF-8 and decode to one character each.
proof fn lemma_ascii_decode(bytes: Seq<u8>)
    requires
        forall|k: int| 0 <= k < bytes.len() ==> #[trigger] bytes[k] <= 0x7f,
    ensures
        valid_utf8(bytes),
        decode_utf8(bytes) == bytes.map_values(|b: u8| b as char),
    decreases bytes.len(),
{
    if bytes.len() > 0 {
        let rest = bytes.subrange(1, bytes.len() as int);
        lemma_ascii_decode(rest);
        let b0 = bytes[0];
        assert(b0 <= 0x7f);
        assert(b0 & 0x7f == b0) by (bit_vector)
            requires
                b0 <= 0x7f,
        ;
        assert(pop_first_scalar(bytes) =~= rest);
        assert(bytes.map_values(|b: u8| b as char) =~= seq![b0 as char] + rest.map_values(
            |b: u8| b as char,
        ));
    }
}

/// Decoding the codes of a string of the symbols `A`, `C`, `G` and `T` gives
/// the string back: `decode_dna(&encode_dna(s)?)` holds the characters of `s`.
pub proof fn lemma_string_round_trip(s: &str)
    requires
        forall|k: int|
            0 <= k < s.spec_bytes().len() ==> is_base(#[trigger] s.spec_bytes()[k])
                && s.spec_bytes()[k] != BASE_U,
    ensures
        decoded_chars(encoded(s.spec_bytes())) == s@,
{
    let b = s.spec_bytes();
    assert forall|k: int| 0 <= k < b.len() implies #[trigger] b[k] <= 0x7f by {
        assert(is_base(b[k]));
    }
    lemma_ascii_decode(b);
    encode_utf8_decode_utf8(s@);
    assert forall|k: int| 0 <= k < b.len() implies #[trigger] decoded_chars(encoded(b))[k]
        == b.map_values(|x: u8| x as char)[k] by {
        lemma_codec_round_trip(b[k]);
    }
    assert(decoded_chars(encoded(b)) =~= b.map_values(|x: u8| x as char));
}

/// Encoding the characters of a decoded code string gives the codes back:
/// `encode_dna(&decode_dna(e)?)` holds `e`.
pub proof fn lemma_codes_round_trip(e: Seq<u8>)
    requires
        all_codes_valid(e),
    ensures
        encoded(encode_utf8(decoded_chars(e))) == e,
{
    let c = decoded_chars(e);
    assert(is_ascii_chars(c)) by {
        assert forall|i: int| 0 <= i < c.len() implies '\0' <= #[trigger] c[i] <= '\u{7f}' by {
            assert(is_code(e[i]));
        }
    }
    is_ascii_chars_encode_utf8(c);
    assert forall|i: int| 0 <= i < e.len() implies #[trigger] encoded(encode_utf8(c))[i] == e[i] by {
        assert(is_code(e[i]));
        assert(c[i] as u8 == encode_utf8(c)[i]);
    }
    assert(encoded(encode_utf8(c)) =~= e);
}

/// Bits set in `a[i] ^ b[i]`, added over the first `k` positions.
pub open spec fn xor_bits(a: Seq<u8>, b: Seq<u8>, k: nat) -> nat
    decreases k,
{
    if k == 0 {
        0
    } else {
        xor_bits(a, b, (k - 1) as nat) + popcount((a[k - 1] ^ b[k - 1]) as u64)
    }
}

/// Number of chunks of 32 bytes that both sequences are read in: one for
/// every chunk, full or not, of the one with fewer.
pub open spec fn paired_chunks(la: int, lb: int) -> int {
    let ca = (la + 31) / 32;
    let cb = (lb + 31) / 32;
    if ca <= cb {
        ca
    } else {
        cb
    }
}

/// Half the number of bits set in `a[i] ^ b[i]` over the chunks of 32 bytes
/// the two sequences share; every shared chunk must be full in both. On code
/// strings this is the number of positions at which they differ, since two
/// distinct codes differ in exactly two bits.
pub fn hamming_distance_simd(a: &[u8], b: &[u8]) -> (r: usize)
    requires
        32 * paired_chunks(a@.len() as int, b@.len() as int) <= a@.len(),
        32 * paired_chunks(a@.len() as int, b@.len() as int) <= b@.len(),
        a@.len() <= usize::MAX / 8,
    ensures
        r == xor_bits(a@, b@, (32 * paired_chunks(a@.len() as int, b@.len() as int)) as nat) / 2,
{
    let ca = a.len() / CHUNK + if a.len() % CHUNK != 0 {
        1
    } else {
        0
    };
    let cb = b.len() / CHUNK + if b.len() % CHUNK != 0 {
        1
    } else {
        0
    };
    let chunks = if ca <= cb {
        ca
    } else {
        cb
    };
    let end = chunks * CHUNK;
    let mut bits: usize = 0;
    let mut k: usize = 0;
    while k < end
        invariant
            end == 32 * paired_chunks(a@.len() as int, b@.len() as int),
            end <= a@.len(),
            end <= b@.len(),
            a@.len() <= usize::MAX / 8,
            k <= end,
            bits == xor_bits(a@, b@, k as nat),
            bits <= 8 * k,
        decreases end - k,
    {
        let x = (a[k] ^ b[k]) as u64;
        proof {
            lemma2_to64();
            lemma_popcount_bound(x, 8);
        }
        let c = count_ones(x);
        bits = bits + c as usize;
        k = k + 1;
    }
    bits / 2
}

/// A vector holding the bytes of a slice.
fn copy_bytes(s: &[u8]) -> (r: Vec<u8>)
    ensures
        r@ == s@,
{
    let mut out: Vec<u8> = Vec::new();
    let mut k: usize = 0;
    while k < s.len()
        invariant
            k <= s@.len(),
            out@ == s@.take(k as int),
        decreases s@.len() - k,
    {
        out.push(s[k]);
        assert(s@.take(k + 1) =~= s@.take(k as int).push(s@[k as int]));
        k = k + 1;
    }
    assert(s@.take(k as int) =~= s@);
    out
}

/// `sequence` with bit mask `m` flipped in its byte at `i`.
pub open spec fn flipped(sequence: Seq<u8>, i: int, m: u8) -> Seq<u8> {
    sequence.update(i, sequence[i] ^ m)
}

/// The masks flipped in each byte: one per bit of a 3-bit code.
pub open spec fn is_flip_mask(m: u8) -> bool {
    m == 1 || m == 2 || m == 4
}

/// The neighbours of a code string among its first `upto` bytes: the string
/// with one of the three low bits of one byte flipped, for every byte that
/// lies in a full chunk of 32.
pub open spec fn neighbor_set(sequence: Seq<u8>, upto: int) -> Set<Seq<u8>> {
    Set::new(
        |v: Seq<u8>|
            exists|i: int, m: u8|
                0 <= i < upto && i < 32 * (sequence.len() / 32) && is_flip_mask(m) && v == flipped(
                    sequence,
                    i,
                    m,
                ),
    )
}

/// The single-bit neighbours of a code string: for each byte in a full chunk
/// of 32 bytes, the string with one of its three low bits flipped.
pub fn neighbors_simd(sequence: &[u8]) -> (r: FxHashSet<Vec<u8>>)
    ensures
        neighbor_contents(r) == neighbor_set(sequence@, sequence@.len() as int),
{
    let mut neighbors = new_neighbor_set();
    let len = sequence.len();
    let full = (len / CHUNK) * CHUNK;
    let masks: [u8; 3] = [1, 2, 4];
    proof {
        assert(neighbor_set(sequence@, 0) =~= Set::<Seq<u8>>::empty());
    }
    let mut i: usize = 0;
    while i < len
        invariant
            len == sequence@.len(),
            full == 32 * (sequence@.len() / 32),
            i <= len,
            masks@ == seq![1u8, 2u8, 4u8],
            neighbor_contents(neighbors) == neighbor_set(sequence@, i as int),
        decreases len - i,
    {
        let chunk_start = i - (i % CHUNK);
        let chunk_end = if len - chunk_start >= CHUNK {
            chunk_start + CHUNK
        } else {
            len
        };
        if chunk_end - chunk_start == CHUNK {
            let mut q: usize = 0;
            while q < 3
                invariant
                    len == sequence@.len(),
                    full == 32 * (sequence@.len() / 32),
                    i < len,
                    i < full,
                    q <= 3,
                    masks@ == seq![1u8, 2u8, 4u8],
                    neighbor_contents(neighbors) == neighbor_set(sequence@, i as int).union(
                        Set::new(
                            |v: Seq<u8>|
                                exists|t: int| 0 <= t < q && v == flipped(sequence@, i as int, masks@[t]),
                        ),
                    ),
                decreases 3 - q,
            {
                let mut neighbor = copy_bytes(sequence);
                let old_byte = neighbor[i];
                neighbor.set(i, old_byte ^ masks[q]);
                let ghost before = neighbor_contents(neighbors);
                insert_neighbor(&mut neighbors, neighbor);
                proof {
                    assert(neighbor@ == flipped(sequence@, i as int, masks@[q as int]));
                    assert(neighbor_contents(neighbors) =~= neighbor_set(sequence@, i as int).union(
                        Set::new(
                            |v: Seq<u8>|
                                exists|t: int|
                                    0 <= t < q + 1 && v == flipped(sequence@, i as int, masks@[t]),
                        ),
                    )) by {
                        assert forall|v: Seq<u8>|
                            #![trigger neighbor_contents(neighbors).contains(v)]
                            (exists|t: int|
                                0 <= t < q + 1 && v == flipped(sequence@, i as int, masks@[t]))
                                <==> ((exists|t: int|
                                0 <= t < q && v == flipped(sequence@, i as int, masks@[t])) || v
                                == flipped(sequence@, i as int, masks@[q as int])) by {
                            if exists|t: int|
                                0 <= t < q + 1 && v == flipped(sequence@, i as int, masks@[t]) {
                                let t = choose|t: int|
                                    0 <= t < q + 1 && v == flipped(sequence@, i as int, masks@[t]);
                                if t < q {
                                    assert(exists|t2: int|
                                        0 <= t2 < q && v == flipped(sequence@, i as int, masks@[t2]));
                                }
                            }
                        }
                    }
                }
                q = q + 1;
            }
            proof {
                assert(neighbor_set(sequence@, i + 1) =~= neighbor_set(sequence@, i as int).union(
                    Set::new(
                        |v: Seq<u8>|
                            exists|t: int| 0 <= t < 3 && v == flipped(sequence@, i as int, masks@[t]),
                    ),
                )) by {
                    assert forall|v: Seq<u8>|
                        #[trigger] neighbor_set(sequence@, i + 1).contains(v) <==> neighbor_set(
                            sequence@,
                            i as int,
                        ).union(
                            Set::new(
                                |v: Seq<u8>|
                                    exists|t: int|
                                        0 <= t < 3 && v == flipped(sequence@, i as int, masks@[t]),
                            ),
                        ).contains(v) by {
                        if neighbor_set(sequence@, i + 1).contains(v) {
                            let (j, m) = choose|j: int, m: u8|
                                0 <= j < i + 1 && j < 32 * (sequence@.len() / 32) && is_flip_mask(m)
                                    && v == flipped(sequence@, j, m);
                            if j == i {
                                if m == 1 {
                                    assert(v == flipped(sequence@, i as int, masks@[0]));
                                } else if m == 2 {
                                    assert(v == flipped(sequence@, i as int, masks@[1]));
                                } else {
                                    assert(v == flipped(sequence@, i as int, masks@[2]));
                                }
                            }
                        }
                        if (exists|t: int| 0 <= t < 3 && v == flipped(sequence@, i as int, masks@[t])) {
                            let t = choose|t: int|
                                0 <= t < 3 && v == flipped(sequence@, i as int, masks@[t]);
                            assert(is_flip_mask(masks@[t]));
                        }
                    }
                }
            }
        } else {
            proof {
                assert(i >= full);
                assert(neighbor_set(sequence@, i + 1) =~= neighbor_set(sequence@, i as int));
            }
        }
        i = i + 1;
    }
    neighbors
}

} // verus!
