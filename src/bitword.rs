//! Words of 64 bits that hold up to 21 codes of 3 bits, lowest field first,
//! and what their population counts say about the codes they hold.
use vstd::prelude::*;

use vstd::arithmetic::power2::{lemma2_to64, lemma_pow2_unfold, pow2};

use crate::common::is_code;

verus! {

/// Number of set bits of a word.
pub open spec fn popcount(x: u64) -> nat
    decreases x,
{
    if x == 0 {
        0
    } else {
        (x % 2) as nat + popcount((x / 2) as u64)
    }
}

/// `8` to the power `k`: the place value of field `k` of a word.
pub open spec fn pow8(k: nat) -> nat
    decreases k,
{
    if k == 0 {
        1
    } else {
        8 * pow8((k - 1) as nat)
    }
}

/// The mask of the low `3 * c` bits of a word.
pub open spec fn low_mask(c: u64) -> u64 {
    ((1u64 << (3 * c) as u64) - 1) as u64
}

/// The first `c` fields of a word, lowest first.
pub open spec fn word_codes(w: u64, c: nat) -> Seq<u8>
    decreases c,
{
    if c == 0 {
        Seq::empty()
    } else {
        seq![(w % 8) as u8] + word_codes((w / 8) as u64, (c - 1) as nat)
    }
}

/// Number of positions at which two sequences of one length differ.
pub open spec fn mismatches<A>(x: Seq<A>, y: Seq<A>) -> nat
    decreases x.len(),
{
    if x.len() == 0 {
        0
    } else {
        (if x[0] != y[0] {
            1nat
        } else {
            0nat
        }) + mismatches(x.skip(1), y.skip(1))
    }
}

/// Every element of the sequence is a code of the alphabet.
pub open spec fn all_codes(x: Seq<u8>) -> bool {
    forall|k: int| 0 <= k < x.len() ==> #[trigger] is_code(x[k])
}

/// Fields of a word, given in the word's own order: `L` codes take
/// `ceil(L / 21)` words, each full but the last.
pub open spec fn packed_codes(words: Seq<u64>, len: nat) -> Seq<u8>
    decreases len,
{
    if len <= 21 {
        word_codes(words[0], len)
    } else {
        word_codes(words[0], 21) + packed_codes(words.skip(1), (len - 21) as nat)
    }
}

/// Words that `len` codes take.
pub open spec fn words_for(len: int) -> int {
    (len + 20) / 21
}

/// Codes held by word `w` of a packed sequence of `len` codes.
pub open spec fn codes_in_word(len: int, w: int) -> int {
    if len >= 21 * w + 21 {
        21
    } else if len >= 21 * w {
        len - 21 * w
    } else {
        0
    }
}

/// A word read as `c` fields gives `c` codes.
pub proof fn lemma_word_codes_len(w: u64, c: nat)
    ensures
        word_codes(w, c).len() == c,
    decreases c,
{
    if c > 0 {
        lemma_word_codes_len((w / 8) as u64, (c - 1) as nat);
    }
}

/// The count of a word is its low bit plus the count of the rest.
pub proof fn lemma_popcount_unfold(x: u64)
    ensures
        popcount(x) == (x % 2) as nat + popcount((x / 2) as u64),
{
}

/// The count of a word is the count of its low field plus that of the rest.
pub proof fn lemma_popcount_split(x: u64)
    ensures
        popcount(x) == popcount((x % 8) as u64) + popcount((x / 8) as u64),
{
    let x1 = (x / 2) as u64;
    let x2 = (x1 / 2) as u64;
    let y = (x % 8) as u64;
    let y1 = (y / 2) as u64;
    let y2 = (y1 / 2) as u64;
    lemma_popcount_unfold(x);
    lemma_popcount_unfold(x1);
    lemma_popcount_unfold(x2);
    lemma_popcount_unfold(y);
    lemma_popcount_unfold(y1);
    lemma_popcount_unfold(y2);
    assert(x2 / 2 == x / 8 && y2 / 2 == 0 && y % 2 == x % 2 && y1 % 2 == x1 % 2 && y2 % 2 == x2
        % 2) by (bit_vector)
        requires
            x1 == x / 2,
            x2 == x1 / 2,
            y == x % 8,
            y1 == y / 2,
            y2 == y1 / 2,
    ;
    assert(popcount(0) == 0);
}

/// Two codes differ in no bit when equal and in exactly two bits otherwise.
pub proof fn lemma_code_xor(p: u64, q: u64)
    requires
        p < 8,
        q < 8,
        is_code(p as u8),
        is_code(q as u8),
    ensures
        p == q ==> popcount(p ^ q) == 0,
        p != q ==> popcount(p ^ q) == 2,
{
    let v = p ^ q;
    let v1 = (v / 2) as u64;
    let v2 = (v1 / 2) as u64;
    lemma_popcount_unfold(v);
    lemma_popcount_unfold(v1);
    lemma_popcount_unfold(v2);
    assert(v2 / 2 == 0 && (p == q ==> v % 2 + v1 % 2 + v2 % 2 == 0) && (p != q ==> v % 2 + v1 % 2
        + v2 % 2 == 2)) by (bit_vector)
        requires
            p == 0 || p == 3 || p == 5 || p == 6,
            q == 0 || q == 3 || q == 5 || q == 6,
            v == p ^ q,
            v1 == v / 2,
            v2 == v1 / 2,
    ;
    assert(popcount(0) == 0);
}

proof fn lemma_mask_step(a: u64, b: u64, c: u64)
    requires
        1 <= c <= 21,
    ensures
        ((a ^ b) & low_mask(c)) % 8 == ((a % 8) as u64) ^ ((b % 8) as u64),
        ((a ^ b) & low_mask(c)) / 8 == (((a / 8) as u64) ^ ((b / 8) as u64)) & low_mask(
            (c - 1) as u64,
        ),
{
    assert(((a ^ b) & (((1u64 << (3 * c) as u64) - 1) as u64)) % 8 == ((a % 8) as u64) ^ ((b
        % 8) as u64)) by (bit_vector)
        requires
            1 <= c <= 21,
    ;
    assert(((a ^ b) & (((1u64 << (3 * c) as u64) - 1) as u64)) / 8 == (((a / 8) as u64) ^ ((b
        / 8) as u64)) & (((1u64 << (3 * (c - 1)) as u64) - 1) as u64)) by (bit_vector)
        requires
            1 <= c <= 21,
    ;
}

/// `mismatches` over a concatenation adds up over its parts.
pub proof fn lemma_mismatches_append<A>(x1: Seq<A>, x2: Seq<A>, y1: Seq<A>, y2: Seq<A>)
    requires
        x1.len() == y1.len(),
        x2.len() == y2.len(),
    ensures
        mismatches(x1 + x2, y1 + y2) == mismatches(x1, y1) + mismatches(x2, y2),
    decreases x1.len(),
{
    if x1.len() == 0 {
        assert(x1 + x2 =~= x2);
        assert(y1 + y2 =~= y2);
    } else {
        lemma_mismatches_append(x1.skip(1), x2, y1.skip(1), y2);
        assert((x1 + x2).skip(1) =~= x1.skip(1) + x2);
        assert((y1 + y2).skip(1) =~= y1.skip(1) + y2);
    }
}

/// Two sequences differ at no more positions than the first has.
pub proof fn lemma_mismatches_bound<A>(x: Seq<A>, y: Seq<A>)
    ensures
        mismatches(x, y) <= x.len(),
    decreases x.len(),
{
    if x.len() > 0 {
        lemma_mismatches_bound(x.skip(1), y.skip(1));
    }
}

/// Which of two sequences comes first does not change their mismatches.
pub proof fn lemma_mismatches_symmetric<A>(x: Seq<A>, y: Seq<A>)
    requires
        x.len() == y.len(),
    ensures
        mismatches(x, y) == mismatches(y, x),
    decreases x.len(),
{
    if x.len() > 0 {
        lemma_mismatches_symmetric(x.skip(1), y.skip(1));
    }
}

/// A word pair's masked XOR counts two bits for each field in which the words
/// hold different codes, whatever the bits above the mask hold.
pub proof fn lemma_word_mismatches(a: u64, b: u64, c: nat)
    requires
        c <= 21,
        all_codes(word_codes(a, c)),
        all_codes(word_codes(b, c)),
    ensures
        popcount((a ^ b) & low_mask(c as u64)) == 2 * mismatches(word_codes(a, c), word_codes(b, c)),
    decreases c,
{
    let x = (a ^ b) & low_mask(c as u64);
    if c == 0 {
        assert((a ^ b) & (((1u64 << 0u64) - 1) as u64) == 0) by (bit_vector);
        assert(popcount(0) == 0);
    } else {
        let a1 = (a / 8) as u64;
        let b1 = (b / 8) as u64;
        let wa = word_codes(a, c);
        let wb = word_codes(b, c);
        lemma_word_codes_len(a, c);
        lemma_word_codes_len(b, c);
        assert(wa.skip(1) =~= word_codes(a1, (c - 1) as nat));
        assert(wb.skip(1) =~= word_codes(b1, (c - 1) as nat));
        assert forall|k: int| 0 <= k < c - 1 implies #[trigger] is_code(
            word_codes(a1, (c - 1) as nat)[k],
        ) by {
            assert(is_code(wa[k + 1]));
        }
        assert forall|k: int| 0 <= k < c - 1 implies #[trigger] is_code(
            word_codes(b1, (c - 1) as nat)[k],
        ) by {
            assert(is_code(wb[k + 1]));
        }
        lemma_word_mismatches(a1, b1, (c - 1) as nat);
        lemma_mask_step(a, b, c as u64);
        lemma_popcount_split(x);
        assert(is_code(wa[0]));
        assert(is_code(wb[0]));
        lemma_code_xor((a % 8) as u64, (b % 8) as u64);
    }
}

/// Appending a code of three bits above the `k` fields of a word.
pub proof fn lemma_word_codes_push(w: u64, code: u64, k: nat)
    requires
        w < pow8(k),
        code < 8,
        w + code * pow8(k) <= u64::MAX,
    ensures
        word_codes((w + code * pow8(k)) as u64, k + 1) == word_codes(w, k).push(code as u8),
    decreases k,
{
    let w2 = (w + code * pow8(k)) as u64;
    if k == 0 {
        assert(pow8(0) == 1);
        assert(w == 0);
        assert(code * pow8(0) == code) by (nonlinear_arith)
            requires
                pow8(0) == 1,
        ;
        assert(w2 == code);
        assert(word_codes(0, 0) =~= Seq::<u8>::empty());
        assert(word_codes((w2 / 8) as u64, 0) =~= Seq::<u8>::empty());
        assert(word_codes(w2, 1) =~= seq![(w2 % 8) as u8]);
        assert(word_codes(w2, k + 1) =~= word_codes(w, k).push(code as u8));
    } else {
        let t = code * pow8((k - 1) as nat);
        assert(code * pow8(k) == 8 * t) by (nonlinear_arith)
            requires
                pow8(k) == 8 * pow8((k - 1) as nat),
                t == code * pow8((k - 1) as nat),
        ;
        assert((w + 8 * t) % 8 == w % 8 && (w + 8 * t) / 8 == w / 8 + t) by (nonlinear_arith)
            requires
                t >= 0,
                w >= 0,
        ;
        assert(w2 % 8 == w % 8);
        assert(w2 / 8 == w / 8 + t);
        assert((w / 8) < pow8((k - 1) as nat));
        lemma_word_codes_push((w / 8) as u64, code, (k - 1) as nat);
        assert(word_codes(w2, k + 1) =~= word_codes(w, k).push(code as u8));
    }
}

/// Setting field `k` of a word whose higher fields are clear.
pub proof fn lemma_or_shift(w: u64, code: u64, k: u64)
    requires
        k < 21,
        code < 8,
        w < (1u64 << (3 * k) as u64),
    ensures
        w | (code << (3 * k) as u64) == w + code * (1u64 << (3 * k) as u64),
        w + code * (1u64 << (3 * k) as u64) < (1u64 << (3 * (k + 1)) as u64),
        (1u64 << (3 * (k + 1)) as u64) == 8 * (1u64 << (3 * k) as u64),
{
    assert(w | (code << (3 * k) as u64) == w + code * (1u64 << (3 * k) as u64)) by (bit_vector)
        requires
            k < 21,
            code < 8,
            w < (1u64 << (3 * k) as u64),
    ;
    assert(w + code * (1u64 << (3 * k) as u64) < (1u64 << (3 * (k + 1)) as u64)) by (bit_vector)
        requires
            k < 21,
            code < 8,
            w < (1u64 << (3 * k) as u64),
    ;
    assert((1u64 << (3 * (k + 1)) as u64) == 8 * (1u64 << (3 * k) as u64)) by (bit_vector)
        requires
            k < 21,
    ;
}

/// The codes of a packed sequence are those of its words, one after another.
pub proof fn lemma_packed_chunk(words: Seq<u64>, len: nat, w: int)
    requires
        0 <= w < words_for(len as int),
        words.len() >= words_for(len as int),
    ensures
        21 * w + codes_in_word(len as int, w) <= len,
        codes_in_word(len as int, w) >= 1,
        packed_codes(words, len).len() == len,
        packed_codes(words, len).subrange(21 * w, 21 * w + codes_in_word(len as int, w))
            == word_codes(words[w], codes_in_word(len as int, w) as nat),
    decreases len,
{
    lemma_packed_len(words, len);
    if len <= 21 {
        assert(w == 0);
        lemma_word_codes_len(words[0], len);
        assert(packed_codes(words, len).subrange(0, len as int) =~= packed_codes(words, len));
    } else {
        let rest = packed_codes(words.skip(1), (len - 21) as nat);
        lemma_word_codes_len(words[0], 21);
        lemma_packed_len(words.skip(1), (len - 21) as nat);
        if w == 0 {
            assert(packed_codes(words, len).subrange(0, 21) =~= word_codes(words[0], 21));
        } else {
            lemma_packed_chunk(words.skip(1), (len - 21) as nat, w - 1);
            assert(words.skip(1)[w - 1] == words[w]);
            assert(codes_in_word(len - 21, w - 1) == codes_in_word(len as int, w));
            assert(packed_codes(words, len).subrange(21 * w, 21 * w + codes_in_word(len as int, w))
                =~= rest.subrange(21 * (w - 1), 21 * (w - 1) + codes_in_word(len as int, w)));
        }
    }
}

/// A packed sequence of `len` codes reads back as `len` codes.
pub proof fn lemma_packed_len(words: Seq<u64>, len: nat)
    ensures
        packed_codes(words, len).len() == len,
    decreases len,
{
    if len <= 21 {
        lemma_word_codes_len(words[0], len);
    } else {
        lemma_word_codes_len(words[0], 21);
        lemma_packed_len(words.skip(1), (len - 21) as nat);
    }
}

/// Words whose fields, taken word by word, are the given codes.
pub proof fn lemma_packed_from_chunks(words: Seq<u64>, codes: Seq<u8>)
    requires
        words.len() >= words_for(codes.len() as int),
        forall|w: int|
            0 <= w < words_for(codes.len() as int) ==> #[trigger] word_codes(
                words[w],
                codes_in_word(codes.len() as int, w) as nat,
            ) == codes.subrange(21 * w, 21 * w + codes_in_word(codes.len() as int, w)),
    ensures
        packed_codes(words, codes.len()) == codes,
    decreases codes.len(),
{
    let len = codes.len();
    if len <= 21 {
        if len == 0 {
            assert(word_codes(words[0], 0) =~= codes);
        } else {
            assert(word_codes(words[0], codes_in_word(len as int, 0) as nat) == codes.subrange(
                0,
                len as int,
            ));
            assert(codes.subrange(0, len as int) =~= codes);
        }
    } else {
        let rest = codes.skip(21);
        assert forall|w: int| 0 <= w < words_for(rest.len() as int) implies #[trigger] word_codes(
            words.skip(1)[w],
            codes_in_word(rest.len() as int, w) as nat,
        ) == rest.subrange(21 * w, 21 * w + codes_in_word(rest.len() as int, w)) by {
            assert(word_codes(words[w + 1], codes_in_word(len as int, w + 1) as nat)
                == codes.subrange(21 * (w + 1), 21 * (w + 1) + codes_in_word(len as int, w + 1)));
            assert(codes_in_word(rest.len() as int, w) == codes_in_word(len as int, w + 1));
            assert(rest.subrange(21 * w, 21 * w + codes_in_word(rest.len() as int, w))
                =~= codes.subrange(21 * (w + 1), 21 * (w + 1) + codes_in_word(len as int, w + 1)));
        }
        lemma_packed_from_chunks(words.skip(1), rest);
        assert(word_codes(words[0], codes_in_word(len as int, 0) as nat) == codes.subrange(0, 21));
        assert(codes =~= codes.subrange(0, 21) + rest);
    }
}

/// Reading bytes through an injective code keeps their mismatches.
pub proof fn lemma_mismatches_map(x: Seq<u8>, y: Seq<u8>, cx: Seq<u8>, cy: Seq<u8>)
    requires
        x.len() == y.len(),
        cx.len() == x.len(),
        cy.len() == y.len(),
        forall|k: int| 0 <= k < x.len() ==> (#[trigger] cx[k] == cy[k] <==> x[k] == y[k]),
    ensures
        mismatches(cx, cy) == mismatches(x, y),
    decreases x.len(),
{
    if x.len() > 0 {
        assert(cx[0] == cy[0] <==> x[0] == y[0]);
        assert forall|k: int| 0 <= k < x.len() - 1 implies (#[trigger] cx.skip(1)[k] == cy.skip(
            1,
        )[k] <==> x.skip(1)[k] == y.skip(1)[k]) by {
            assert(cx[k + 1] == cy[k + 1] <==> x[k + 1] == y[k + 1]);
        }
        lemma_mismatches_map(x.skip(1), y.skip(1), cx.skip(1), cy.skip(1));
    }
}

/// A word below `2^k` has at most `k` bits set.
pub proof fn lemma_popcount_bound(x: u64, k: nat)
    requires
        x < pow2(k),
    ensures
        popcount(x) <= k,
    decreases k,
{
    if k == 0 {
        assert(pow2(0) == 1) by {
            lemma2_to64();
        }
        assert(x == 0);
    } else {
        lemma_pow2_unfold(k);
        lemma_popcount_bound((x / 2) as u64, (k - 1) as nat);
    }
}

/// Number of ones of a word, by the processor's own instruction.
///
/// Relies on `u64::count_ones`: the number of ones in the binary
/// representation of the word.
#[verifier::external_body]
pub(crate) fn count_ones(x: u64) -> (r: u32)
    ensures
        r == popcount(x),
{
    x.count_ones()
}

/// Ones of the low byte of a word.
pub open spec fn byte_ones(b: u64) -> int {
    (b & 1) + ((b >> 1u64) & 1) + ((b >> 2u64) & 1) + ((b >> 3u64) & 1) + ((b >> 4u64) & 1) + ((b
        >> 5u64) & 1) + ((b >> 6u64) & 1) + ((b >> 7u64) & 1)
}

/// Ones of each of the eight bytes of a word, added.
pub open spec fn bytes_ones(x: u64) -> int {
    byte_ones(x & 0xff) + byte_ones((x >> 8u64) & 0xff) + byte_ones((x >> 16u64) & 0xff)
        + byte_ones((x >> 24u64) & 0xff) + byte_ones((x >> 32u64) & 0xff) + byte_ones(
        (x >> 40u64) & 0xff,
    ) + byte_ones((x >> 48u64) & 0xff) + byte_ones((x >> 56u64) & 0xff)
}

/// The count of a word is that of its low byte plus that of the rest.
proof fn lemma_popcount_low_byte(y: u64)
    ensures
        popcount(y) == byte_ones(y & 0xff) + popcount(y >> 8u64),
{
    let y1 = (y / 2) as u64;
    let y2 = (y1 / 2) as u64;
    let y3 = (y2 / 2) as u64;
    let y4 = (y3 / 2) as u64;
    let y5 = (y4 / 2) as u64;
    let y6 = (y5 / 2) as u64;
    let y7 = (y6 / 2) as u64;
    lemma_popcount_unfold(y);
    lemma_popcount_unfold(y1);
    lemma_popcount_unfold(y2);
    lemma_popcount_unfold(y3);
    lemma_popcount_unfold(y4);
    lemma_popcount_unfold(y5);
    lemma_popcount_unfold(y6);
    lemma_popcount_unfold(y7);
    assert(y % 2 + y1 % 2 + y2 % 2 + y3 % 2 + y4 % 2 + y5 % 2 + y6 % 2 + y7 % 2 == byte_ones(
        y & 0xff,
    ) && y7 / 2 == y >> 8u64) by (bit_vector)
        requires
            y1 == y / 2,
            y2 == y1 / 2,
            y3 == y2 / 2,
            y4 == y3 / 2,
            y5 == y4 / 2,
            y6 == y5 / 2,
            y7 == y6 / 2,
    ;
}

/// The count of a word is the sum of the counts of its bytes.
proof fn lemma_popcount_bytes(x: u64)
    ensures
        popcount(x) == bytes_ones(x),
{
    lemma_popcount_low_byte(x);
    lemma_popcount_low_byte(x >> 8u64);
    lemma_popcount_low_byte(x >> 16u64);
    lemma_popcount_low_byte(x >> 24u64);
    lemma_popcount_low_byte(x >> 32u64);
    lemma_popcount_low_byte(x >> 40u64);
    lemma_popcount_low_byte(x >> 48u64);
    lemma_popcount_low_byte(x >> 56u64);
    assert((x >> 8u64) >> 8u64 == x >> 16u64 && (x >> 16u64) >> 8u64 == x >> 24u64 && (x
        >> 24u64) >> 8u64 == x >> 32u64 && (x >> 32u64) >> 8u64 == x >> 40u64 && (x >> 40u64)
        >> 8u64 == x >> 48u64 && (x >> 48u64) >> 8u64 == x >> 56u64 && (x >> 56u64) >> 8u64
        == 0) by (bit_vector);
    assert(popcount(0) == 0);
}

/// First step of the parallel count: each pair of bits holds its count.
pub open spec fn swar_pairs(x: u64) -> u64 {
    (x - ((x >> 1u64) & 0x5555_5555_5555_5555)) as u64
}

/// Second step: each nibble holds its count.
pub open spec fn swar_nibbles(x: u64) -> u64 {
    let p = swar_pairs(x);
    ((p & 0x3333_3333_3333_3333) + ((p >> 2u64) & 0x3333_3333_3333_3333)) as u64
}

/// Third step: each byte holds its count.
pub open spec fn swar_bytes(x: u64) -> u64 {
    let q = swar_nibbles(x);
    ((q + (q >> 4u64)) as u64) & 0x0f0f_0f0f_0f0f_0f0f
}

/// Last step: the byte counts folded into the low byte.
pub open spec fn swar_fold(b: u64) -> u64 {
    let f1 = (b + (b >> 8u64)) as u64;
    let f2 = (f1 + (f1 >> 16u64)) as u64;
    ((f2 + (f2 >> 32u64)) as u64) & 0x7f
}

/// No step of the parallel count overflows, and each byte count fits in the
/// byte's low nibble.
proof fn lemma_swar_bounds(x: u64)
    by (bit_vector)
    ensures
        (x >> 1u64) & 0x5555_5555_5555_5555 <= x,
        (swar_pairs(x) & 0x3333_3333_3333_3333) + ((swar_pairs(x) >> 2u64) & 0x3333_3333_3333_3333)
            <= u64::MAX,
        swar_nibbles(x) + (swar_nibbles(x) >> 4u64) <= u64::MAX,
        swar_bytes(x) & 0xf0f0_f0f0_f0f0_f0f0 == 0,
{
}

/// Byte `s / 8` of the third step holds the count of that byte of the word.
proof fn lemma_swar_byte(x: u64, s: u64)
    by (bit_vector)
    requires
        s < 64,
        s % 8 == 0,
    ensures
        (swar_bytes(x) >> s) & 0xff == byte_ones((x >> s) & 0xff),
{
}

/// The last step adds the eight byte counts.
proof fn lemma_swar_fold(b: u64)
    by (bit_vector)
    requires
        b & 0xf0f0_f0f0_f0f0_f0f0 == 0,
    ensures
        b + (b >> 8u64) <= u64::MAX,
        ((b + (b >> 8u64)) as u64) + (((b + (b >> 8u64)) as u64) >> 16u64) <= u64::MAX,
        ({
            let f1 = (b + (b >> 8u64)) as u64;
            let f2 = (f1 + (f1 >> 16u64)) as u64;
            f2 + (f2 >> 32u64) <= u64::MAX
        }),
        swar_fold(b) <= 0x7f,
        swar_fold(b) == (b & 0xff) + ((b >> 8u64) & 0xff) + ((b >> 16u64) & 0xff) + ((b >> 24u64)
            & 0xff) + ((b >> 32u64) & 0xff) + ((b >> 40u64) & 0xff) + ((b >> 48u64) & 0xff) + ((b
            >> 56u64) & 0xff),
{
}

/// Number of ones of a word, by the parallel bit-counting formula: the bits
/// are summed in place by pairs, then by nibbles, then by bytes, and the
/// eight byte counts are folded into the low byte.
pub fn popcount_software(x: u64) -> (r: u32)
    ensures
        r == popcount(x),
{
    proof {
        lemma_swar_bounds(x);
        lemma_swar_fold(swar_bytes(x));
    }
    let x1 = x - ((x >> 1u64) & 0x5555_5555_5555_5555);
    let x2 = (x1 & 0x3333_3333_3333_3333) + ((x1 >> 2u64) & 0x3333_3333_3333_3333);
    let x3 = (x2 + (x2 >> 4u64)) & 0x0f0f_0f0f_0f0f_0f0f;
    assert(x3 == swar_bytes(x));
    let x4 = x3 + (x3 >> 8u64);
    let x5 = x4 + (x4 >> 16u64);
    let x6 = x5 + (x5 >> 32u64);
    assert(x6 & 0x7f == swar_fold(x3));
    let r = (x6 & 0x7f) as u32;
    proof {
        lemma_swar_byte(x, 0);
        lemma_swar_byte(x, 8);
        lemma_swar_byte(x, 16);
        lemma_swar_byte(x, 24);
        lemma_swar_byte(x, 32);
        lemma_swar_byte(x, 40);
        lemma_swar_byte(x, 48);
        lemma_swar_byte(x, 56);
        assert(x3 >> 0u64 == x3 && x >> 0u64 == x) by (bit_vector);
        lemma_popcount_bytes(x);
    }
    r
}

} // verus!
