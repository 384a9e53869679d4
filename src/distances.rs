//! Edit and Hamming distances between sequences: the edit-distance table and
//! its classical row-by-row computations, Myers' bit-parallel automaton, single
//! and batched across eight windows, and character-wise Hamming counts.
use vstd::prelude::*;
use vstd::string::StringSliceAdditionalSpecFns;
use vstd::utf8::{decode_utf8, encode_utf8_decode_utf8, valid_utf8};

use crate::bitword::{count_ones, lemma_code_xor, mismatches};
use crate::common::{is_base, is_code, spec_encode, DnaError, BASE_A, BASE_C, BASE_G, BASE_T, BASE_U, CODE_A, CODE_C, CODE_G, CODE_T};

verus! {

broadcast use vstd::string::axiom_spec_iter;

/// Entries of the per-byte equality table: one per byte value.
pub const PEQ_SIZE: usize = 256;

/// The smaller of two integers.
pub open spec fn min2(x: int, y: int) -> int {
    if x <= y {
        x
    } else {
        y
    }
}

/// Edit distance between the first `i` items of `a` and the first `j` of `b`:
/// the least number of insertions, deletions and substitutions that turn one
/// into the other.
pub open spec fn edit_dp<A>(a: Seq<A>, b: Seq<A>, i: nat, j: nat) -> nat
    decreases i + j,
{
    if i == 0 {
        j
    } else if j == 0 {
        i
    } else {
        let diag = edit_dp(a, b, (i - 1) as nat, (j - 1) as nat) + if a[i - 1] == b[j - 1] {
            0nat
        } else {
            1nat
        };
        let up = edit_dp(a, b, (i - 1) as nat, j) + 1;
        let left = edit_dp(a, b, i, (j - 1) as nat) + 1;
        min2(min2(diag as int, up as int), left as int) as nat
    }
}

/// Edit distance between two sequences.
pub open spec fn levenshtein<A>(a: Seq<A>, b: Seq<A>) -> nat {
    edit_dp(a, b, a.len(), b.len())
}

/// Least edit distance between the first `i` items of `a` and a prefix of the
/// first `j` items of `b`: the minimum of row `i` of the table up to column `j`.
pub open spec fn row_min<A>(a: Seq<A>, b: Seq<A>, i: nat, j: nat) -> nat
    decreases j,
{
    if j == 0 {
        edit_dp(a, b, i, 0)
    } else {
        min2(row_min(a, b, i, (j - 1) as nat) as int, edit_dp(a, b, i, j) as int) as nat
    }
}

/// The sequence-Levenshtein score of a pattern against a text: the least edit
/// distance between the whole pattern and a prefix of the text.
pub open spec fn prefix_score<A>(pattern: Seq<A>, text: Seq<A>) -> nat {
    row_min(pattern, text, pattern.len(), text.len())
}

/// Least edit distance between a prefix of the first `i` items of `a` and
/// the first `j` items of `b`: the minimum of column `j` of the table up to
/// row `i`.
pub open spec fn col_min<A>(a: Seq<A>, b: Seq<A>, i: nat, j: nat) -> nat
    decreases i,
{
    if i == 0 {
        edit_dp(a, b, 0, j)
    } else {
        min2(col_min(a, b, (i - 1) as nat, j) as int, edit_dp(a, b, i, j) as int) as nat
    }
}

/// What the row-by-row computation of the table returns: the least entry of
/// its last row and of its last column.
pub open spec fn wagner_value<A>(a: Seq<A>, b: Seq<A>) -> nat {
    min2(
        row_min(a, b, a.len(), b.len()) as int,
        col_min(a, b, a.len(), b.len()) as int,
    ) as nat
}

/// One step down or right in the table changes an entry by at most one.
pub proof fn lemma_dp_upper<A>(a: Seq<A>, b: Seq<A>, i: nat, j: nat)
    ensures
        edit_dp(a, b, i + 1, j) <= edit_dp(a, b, i, j) + 1,
        edit_dp(a, b, i, j + 1) <= edit_dp(a, b, i, j) + 1,
{
}

/// A step down in the table lowers an entry by at most one.
pub proof fn lemma_dp_lower_down<A>(a: Seq<A>, b: Seq<A>, i: nat, j: nat)
    ensures
        edit_dp(a, b, i, j) <= edit_dp(a, b, i + 1, j) + 1,
    decreases j,
{
    if j > 0 {
        lemma_dp_lower_down(a, b, i, (j - 1) as nat);
        lemma_dp_upper(a, b, i, (j - 1) as nat);
    }
}

/// A step right in the table lowers an entry by at most one.
pub proof fn lemma_dp_lower_right<A>(a: Seq<A>, b: Seq<A>, i: nat, j: nat)
    ensures
        edit_dp(a, b, i, j) <= edit_dp(a, b, i, j + 1) + 1,
    decreases i,
{
    if i > 0 {
        lemma_dp_lower_right(a, b, (i - 1) as nat, j);
        lemma_dp_upper(a, b, (i - 1) as nat, j);
    }
}

/// Equal last items cost nothing: the entry is the one diagonally above.
pub proof fn lemma_dp_match<A>(a: Seq<A>, b: Seq<A>, i: nat, j: nat)
    requires
        i > 0,
        j > 0,
        a[i - 1] == b[j - 1],
    ensures
        edit_dp(a, b, i, j) == edit_dp(a, b, (i - 1) as nat, (j - 1) as nat),
{
    lemma_dp_lower_right(a, b, (i - 1) as nat, (j - 1) as nat);
    lemma_dp_lower_down(a, b, (i - 1) as nat, (j - 1) as nat);
}

/// An entry is at most the larger of its two coordinates.
pub proof fn lemma_dp_bound<A>(a: Seq<A>, b: Seq<A>, i: nat, j: nat)
    ensures
        edit_dp(a, b, i, j) <= if i >= j {
            i
        } else {
            j
        },
    decreases i + j,
{
    if i > 0 && j > 0 {
        lemma_dp_bound(a, b, (i - 1) as nat, (j - 1) as nat);
    }
}

/// The row minimum is at most every entry of the row up to `j`, and is one of
/// them.
pub proof fn lemma_row_min<A>(a: Seq<A>, b: Seq<A>, i: nat, j: nat)
    ensures
        forall|k: nat| k <= j ==> row_min(a, b, i, j) <= #[trigger] edit_dp(a, b, i, k),
        exists|k: nat| k <= j && row_min(a, b, i, j) == #[trigger] edit_dp(a, b, i, k),
    decreases j,
{
    if j > 0 {
        lemma_row_min(a, b, i, (j - 1) as nat);
        let k0 = choose|k: nat|
            k <= (j - 1) as nat && row_min(a, b, i, (j - 1) as nat) == #[trigger] edit_dp(
                a,
                b,
                i,
                k,
            );
        if row_min(a, b, i, (j - 1) as nat) <= edit_dp(a, b, i, j) {
            assert(row_min(a, b, i, j) == edit_dp(a, b, i, k0));
        } else {
            assert(row_min(a, b, i, j) == edit_dp(a, b, i, j));
        }
    } else {
        assert(row_min(a, b, i, 0) == edit_dp(a, b, i, 0));
    }
}

/// Row-by-row edit distance, kept for cross-checking the automata.
#[derive(Debug, Clone)]
pub struct SequenceLevenshteinDistanceWagner;

impl SequenceLevenshteinDistanceWagner {
    /// A new SequenceLevenshteinDistanceWagner.
    pub fn new() -> Self {
        SequenceLevenshteinDistanceWagner
    }

    /// Fills the table row by row, two rows at a time, and returns the least
    /// entry of the last row and of the last column.
    pub fn wagner_distance(&self, s1: &[u8], s2: &[u8]) -> (r: usize)
        requires
            s2@.len() < usize::MAX,
        ensures
            r == wagner_value(s1@, s2@),
    {
        let len1 = s1.len();
        let len2 = s2.len();
        let ghost a = s1@;
        let ghost b = s2@;
        let mut current_row: Vec<usize> = Vec::new();
        let mut previous_row: Vec<usize> = Vec::new();
        let mut k: usize = 0;
        while k < len2 + 1
            invariant
                len2 == b.len(),
                len2 < usize::MAX,
                k <= len2 + 1,
                current_row@.len() == k,
                previous_row@.len() == k,
                forall|m: int| 0 <= m < k ==> #[trigger] current_row@[m] == edit_dp(a, b, 0, m as nat),
            decreases len2 + 1 - k,
        {
            current_row.push(k);
            previous_row.push(0);
            k = k + 1;
        }
        let mut min_last_col: usize = current_row[len2];
        let mut i: usize = 0;
        while i < len1
            invariant
                len1 == a.len(),
                len2 == b.len(),
                len2 < usize::MAX,
                a == s1@,
                b == s2@,
                i <= len1,
                min_last_col == col_min(a, b, i as nat, len2 as nat),
                current_row@.len() == len2 + 1,
                previous_row@.len() == len2 + 1,
                forall|m: int|
                    0 <= m <= len2 ==> #[trigger] current_row@[m] == edit_dp(
                        a,
                        b,
                        i as nat,
                        m as nat,
                    ),
                i >= 1 ==> forall|m: int|
                    0 <= m <= len2 ==> #[trigger] previous_row@[m] == edit_dp(
                        a,
                        b,
                        (i - 1) as nat,
                        m as nat,
                    ),
            decreases len1 - i,
        {
            std::mem::swap(&mut previous_row, &mut current_row);
            current_row.set(0, i + 1);
            let mut j: usize = 1;
            while j < len2 + 1
                invariant
                    len1 == a.len(),
                    len2 == b.len(),
                    len2 < usize::MAX,
                    a == s1@,
                    b == s2@,
                    i < len1,
                    1 <= j <= len2 + 1,
                    current_row@.len() == len2 + 1,
                    previous_row@.len() == len2 + 1,
                    forall|m: int|
                        0 <= m <= len2 ==> #[trigger] previous_row@[m] == edit_dp(
                            a,
                            b,
                            i as nat,
                            m as nat,
                        ),
                    forall|m: int|
                        0 <= m < j ==> #[trigger] current_row@[m] == edit_dp(
                            a,
                            b,
                            (i + 1) as nat,
                            m as nat,
                        ),
                decreases len2 + 1 - j,
            {
                proof {
                    lemma_dp_bound(a, b, (i + 1) as nat, j as nat);
                }
                let v = if s1[i] == s2[j - 1] {
                    proof {
                        lemma_dp_match(a, b, (i + 1) as nat, j as nat);
                    }
                    previous_row[j - 1]
                } else {
                    let up = previous_row[j];
                    let left = current_row[j - 1];
                    let diag = previous_row[j - 1];
                    let m1 = if up <= left {
                        up
                    } else {
                        left
                    };
                    let m2 = if m1 <= diag {
                        m1
                    } else {
                        diag
                    };
                    m2 + 1
                };
                current_row.set(j, v);
                j = j + 1;
            }
            if current_row[len2] < min_last_col {
                min_last_col = current_row[len2];
            }
            i = i + 1;
        }
        let mut min_last_row: usize = current_row[0];
        let mut m: usize = 1;
        while m < len2 + 1
            invariant
                len1 == a.len(),
                len2 == b.len(),
                len2 < usize::MAX,
                1 <= m <= len2 + 1,
                current_row@.len() == len2 + 1,
                forall|q: int|
                    0 <= q <= len2 ==> #[trigger] current_row@[q] == edit_dp(
                        a,
                        b,
                        len1 as nat,
                        q as nat,
                    ),
                min_last_row == row_min(a, b, len1 as nat, (m - 1) as nat),
            decreases len2 + 1 - m,
        {
            if current_row[m] < min_last_row {
                min_last_row = current_row[m];
            }
            m = m + 1;
        }
        if min_last_row <= min_last_col {
            min_last_row
        } else {
            min_last_col
        }
    }
}

/// Width of the automaton's bit-vectors: the longest pattern it takes.
pub const MAX_PATTERN_LEN: usize = 16;

/// Bit `r` of a 16-bit word.
pub open spec fn bit(w: u16, r: int) -> bool {
    (w >> (r as u16)) & 1u16 == 1u16
}

/// The horizontal carry word of one column step: bit `r` is set when row `r`
/// matches or receives a falling horizontal delta from the row above.
pub open spec fn step_xh(eq: u16, pv: u16) -> u16 {
    ((((eq & pv) as int + pv as int) as u16) ^ pv) | eq
}

/// Rows whose horizontal delta rises in the step.
pub open spec fn step_ph(eq: u16, pv: u16, mv: u16) -> u16 {
    mv | !(step_xh(eq, pv) | pv)
}

/// Rows whose horizontal delta falls in the step.
pub open spec fn step_mh(eq: u16, pv: u16) -> u16 {
    pv & step_xh(eq, pv)
}

/// Rising vertical deltas after the step.
pub open spec fn step_pv(eq: u16, pv: u16, mv: u16) -> u16 {
    (step_mh(eq, pv) << 1u16) | !((eq | mv) | ((step_ph(eq, pv, mv) << 1u16) | 1u16))
}

/// Falling vertical deltas after the step.
pub open spec fn step_mv(eq: u16, pv: u16, mv: u16) -> u16 {
    ((step_ph(eq, pv, mv) << 1u16) | 1u16) & (eq | mv)
}

/// What one column step does to bit `r`, in terms of the bits below it.
proof fn lemma_step_bits(eq: u16, pv: u16, mv: u16, r: u16)
    requires
        r < 16,
    ensures
        bit(step_xh(eq, pv), r as int) == (bit(eq, r as int) || (r > 0 && bit(pv, r - 1)
            && bit(step_xh(eq, pv), r - 1))),
        bit(step_ph(eq, pv, mv), r as int) == (bit(mv, r as int) || !(bit(step_xh(eq, pv), r as int)
            || bit(pv, r as int))),
        bit(step_mh(eq, pv), r as int) == (bit(pv, r as int) && bit(step_xh(eq, pv), r as int)),
        bit(step_pv(eq, pv, mv), r as int) == ((r > 0 && bit(step_mh(eq, pv), r - 1)) || !((bit(
            eq,
            r as int,
        ) || bit(mv, r as int)) || (r == 0 || bit(step_ph(eq, pv, mv), r - 1)))),
        bit(step_mv(eq, pv, mv), r as int) == ((r == 0 || bit(step_ph(eq, pv, mv), r - 1)) && (bit(
            eq,
            r as int,
        ) || bit(mv, r as int))),
{
    let xh = step_xh(eq, pv);
    let ph = step_ph(eq, pv, mv);
    let mh = step_mh(eq, pv);
    assert(xh == eq | ((pv & xh) << 1u16)) by (bit_vector)
        requires
            xh == ((((eq & pv) as int + pv as int) as u16) ^ pv) | eq,
    ;
    assert(((xh >> r) & 1u16 == 1u16) == (((eq >> r) & 1u16 == 1u16) || (r > 0 && ((pv >> ((r
        - 1) as u16)) & 1u16 == 1u16) && ((xh >> ((r - 1) as u16)) & 1u16 == 1u16)))) by (bit_vector)
        requires
            xh == eq | ((pv & xh) << 1u16),
            r < 16,
    ;
    assert(((ph >> r) & 1u16 == 1u16) == (((mv >> r) & 1u16 == 1u16) || !(((xh >> r) & 1u16
        == 1u16) || ((pv >> r) & 1u16 == 1u16)))) by (bit_vector)
        requires
            ph == mv | !(xh | pv),
            r < 16,
    ;
    assert(((mh >> r) & 1u16 == 1u16) == (((pv >> r) & 1u16 == 1u16) && ((xh >> r) & 1u16
        == 1u16))) by (bit_vector)
        requires
            mh == pv & xh,
            r < 16,
    ;
    let pv2 = step_pv(eq, pv, mv);
    let mv2 = step_mv(eq, pv, mv);
    assert(((pv2 >> r) & 1u16 == 1u16) == ((r > 0 && ((mh >> ((r - 1) as u16)) & 1u16 == 1u16))
        || !((((eq >> r) & 1u16 == 1u16) || ((mv >> r) & 1u16 == 1u16)) || (r == 0 || ((ph >> ((r
        - 1) as u16)) & 1u16 == 1u16))))) by (bit_vector)
        requires
            pv2 == (mh << 1u16) | !((eq | mv) | ((ph << 1u16) | 1u16)),
            r < 16,
    ;
    assert(((mv2 >> r) & 1u16 == 1u16) == ((r == 0 || ((ph >> ((r - 1) as u16)) & 1u16 == 1u16))
        && (((eq >> r) & 1u16 == 1u16) || ((mv >> r) & 1u16 == 1u16)))) by (bit_vector)
        requires
            mv2 == ((ph << 1u16) | 1u16) & (eq | mv),
            r < 16,
    ;
}

/// Vertical delta of the table: entry `(r + 1, j)` less entry `(r, j)`.
pub open spec fn vdelta<A>(a: Seq<A>, b: Seq<A>, r: nat, j: nat) -> int {
    edit_dp(a, b, r + 1, j) - edit_dp(a, b, r, j)
}

/// Horizontal delta of the table: entry `(r, j + 1)` less entry `(r, j)`.
pub open spec fn hdelta<A>(a: Seq<A>, b: Seq<A>, r: nat, j: nat) -> int {
    edit_dp(a, b, r, j + 1) - edit_dp(a, b, r, j)
}

/// Deltas of the table are -1, 0 or 1, and one cell's outgoing deltas follow
/// from its incoming ones and whether its two items match.
proof fn lemma_cell<A>(a: Seq<A>, b: Seq<A>, r: nat, j: nat)
    requires
        r < a.len(),
        j < b.len(),
    ensures
        -1 <= vdelta(a, b, r, j) <= 1,
        -1 <= hdelta(a, b, r, j) <= 1,
        ({
            let v = vdelta(a, b, r, j);
            let h = hdelta(a, b, r, j);
            let eq = a[r as int] == b[j as int];
            &&& (hdelta(a, b, r + 1, j) == 1) == (v == -1 || !((eq || h == -1) || v == 1))
            &&& (hdelta(a, b, r + 1, j) == -1) == (v == 1 && (eq || h == -1))
            &&& (vdelta(a, b, r, j + 1) == 1) == (h == -1 || !((eq || v == -1) || h == 1))
            &&& (vdelta(a, b, r, j + 1) == -1) == (h == 1 && (eq || v == -1))
        }),
{
    lemma_dp_upper(a, b, r, j);
    lemma_dp_lower_down(a, b, r, j);
    lemma_dp_lower_right(a, b, r, j);
    assert(edit_dp(a, b, r + 1, j + 1) == min2(
        min2(
            (edit_dp(a, b, r, j) + if a[r as int] == b[j as int] {
                0nat
            } else {
                1nat
            }) as int,
            (edit_dp(a, b, r, j + 1) + 1) as int,
        ),
        (edit_dp(a, b, r + 1, j) + 1) as int,
    ));
}

/// Bit `r` of the table's equality word for byte `c`: the pattern's item
/// `r` is `c`.
pub open spec fn eq_word(pattern: Seq<u8>, c: u8, w: u16) -> bool {
    forall|r: int| 0 <= r < 16 ==> (#[trigger] bit(w, r) <==> (r < pattern.len() && pattern[r] == c))
}

/// The automaton's state after `j` columns: bit `r` of `pv` (of `mv`) is set
/// when the table's vertical delta below row `r` is +1 (is -1).
pub open spec fn column_state(pattern: Seq<u8>, text: Seq<u8>, j: nat, pv: u16, mv: u16) -> bool {
    forall|r: int|
        0 <= r < pattern.len() ==> (#[trigger] bit(pv, r) <==> vdelta(pattern, text, r as nat, j) == 1)
            && (bit(mv, r) <==> vdelta(pattern, text, r as nat, j) == -1)
}

/// Rows `0..=r` of one column step: the horizontal words hold the table's
/// horizontal deltas.
proof fn lemma_step_rows(pattern: Seq<u8>, text: Seq<u8>, j: nat, eq: u16, pv: u16, mv: u16, r: int)
    requires
        pattern.len() <= 16,
        0 <= r < pattern.len(),
        j < text.len(),
        column_state(pattern, text, j, pv, mv),
        eq_word(pattern, text[j as int], eq),
    ensures
        bit(step_xh(eq, pv), r) == (pattern[r] == text[j as int] || hdelta(pattern, text, r as nat, j)
            == -1),
        bit(step_ph(eq, pv, mv), r) == (hdelta(pattern, text, (r + 1) as nat, j) == 1),
        bit(step_mh(eq, pv), r) == (hdelta(pattern, text, (r + 1) as nat, j) == -1),
    decreases r,
{
    lemma_step_bits(eq, pv, mv, r as u16);
    lemma_cell(pattern, text, r as nat, j);
    assert(bit(eq, r) == (pattern[r] == text[j as int]));
    assert(bit(pv, r) == (vdelta(pattern, text, r as nat, j) == 1));
    assert(bit(mv, r) == (vdelta(pattern, text, r as nat, j) == -1));
    if r > 0 {
        lemma_step_rows(pattern, text, j, eq, pv, mv, r - 1);
        lemma_step_bits(eq, pv, mv, (r - 1) as u16);
    } else {
        assert(hdelta(pattern, text, 0, j) == 1);
    }
}

/// One column step keeps the automaton's state in step with the table.
proof fn lemma_step_column(pattern: Seq<u8>, text: Seq<u8>, j: nat, eq: u16, pv: u16, mv: u16)
    requires
        1 <= pattern.len() <= 16,
        j < text.len(),
        column_state(pattern, text, j, pv, mv),
        eq_word(pattern, text[j as int], eq),
    ensures
        column_state(pattern, text, j + 1, step_pv(eq, pv, mv), step_mv(eq, pv, mv)),
        bit(step_ph(eq, pv, mv), pattern.len() - 1) == (hdelta(pattern, text, pattern.len(), j) == 1),
        bit(step_mh(eq, pv), pattern.len() - 1) == (hdelta(pattern, text, pattern.len(), j) == -1),
        -1 <= hdelta(pattern, text, pattern.len(), j) <= 1,
{
    let n = pattern.len() as int;
    assert forall|r: int| 0 <= r < n implies (#[trigger] bit(step_pv(eq, pv, mv), r) <==> vdelta(
        pattern,
        text,
        r as nat,
        j + 1,
    ) == 1) && (bit(step_mv(eq, pv, mv), r) <==> vdelta(pattern, text, r as nat, j + 1) == -1) by {
        lemma_step_bits(eq, pv, mv, r as u16);
        lemma_cell(pattern, text, r as nat, j);
        assert(bit(eq, r) == (pattern[r] == text[j as int]));
        assert(bit(mv, r) == (vdelta(pattern, text, r as nat, j) == -1));
        if r > 0 {
            lemma_step_rows(pattern, text, j, eq, pv, mv, r - 1);
        } else {
            assert(hdelta(pattern, text, 0, j) == 1);
        }
    }
    lemma_step_rows(pattern, text, j, eq, pv, mv, n - 1);
    lemma_cell(pattern, text, (n - 1) as nat, j);
}

/// Bits below 16 of `w` are those of the pattern's items `0..i` equal to `c`.
pub open spec fn eq_word_upto(pattern: Seq<u8>, i: int, c: int, w: u16) -> bool {
    forall|r: int| 0 <= r < 16 ==> (#[trigger] bit(w, r) <==> (r < i && pattern[r] == c))
}

/// The table of equality words of a pattern, one per byte value: bit `k` of
/// entry `c` is set when the pattern's item `k` is `c`.
fn build_peq(pattern: &[u8], n: usize) -> (peq: Vec<u16>)
    requires
        n <= pattern@.len(),
        n <= MAX_PATTERN_LEN,
    ensures
        peq@.len() == PEQ_SIZE,
        forall|c: int| 0 <= c < 256 ==> eq_word(pattern@.take(n as int), c as u8, #[trigger] peq@[c]),
{
    let ghost pat = pattern@.take(n as int);
    let mut peq: Vec<u16> = Vec::new();
    let mut c: usize = 0;
    while c < PEQ_SIZE
        invariant
            c <= PEQ_SIZE,
            peq@.len() == c,
            forall|k: int| 0 <= k < c ==> #[trigger] peq@[k] == 0,
        decreases PEQ_SIZE - c,
    {
        peq.push(0);
        c = c + 1;
    }
    assert forall|k: int| 0 <= k < 256 implies eq_word_upto(pat, 0, k, #[trigger] peq@[k]) by {
        assert forall|r: int| 0 <= r < 16 implies !#[trigger] bit(peq@[k], r) by {
            let z = peq@[k];
            let rr = r as u16;
            assert((z >> rr) & 1u16 != 1u16) by (bit_vector)
                requires
                    z == 0,
            ;
        }
    }
    let mut i: usize = 0;
    while i < n
        invariant
            n <= pattern@.len(),
            n <= 16,
            pat == pattern@.take(n as int),
            i <= n,
            peq@.len() == 256,
            forall|k: int| 0 <= k < 256 ==> eq_word_upto(pat, i as int, k, #[trigger] peq@[k]),
        decreases n - i,
    {
        let c = pattern[i] as usize;
        let prev = peq[c];
        let bitmask: u16 = 1u16 << (i as u16);
        let ghost before = peq@;
        peq.set(c, prev | bitmask);
        proof {
            assert forall|k: int| 0 <= k < 256 implies eq_word_upto(
                pat,
                i + 1,
                k,
                #[trigger] peq@[k],
            ) by {
                assert(eq_word_upto(pat, i as int, k, before[k]));
                if k == c {
                    assert forall|r: int| 0 <= r < 16 implies (#[trigger] bit(peq@[k], r) <==> (r < i
                        + 1 && pat[r] == k)) by {
                        let rr = r as u16;
                        let ii = i as u16;
                        assert(((prev | bitmask) >> rr) & 1u16 == 1u16 <==> ((prev >> rr) & 1u16
                            == 1u16 || rr == ii)) by (bit_vector)
                            requires
                                bitmask == 1u16 << ii,
                                ii < 16,
                                rr < 16,
                        ;
                        assert(bit(before[k], r) <==> (r < i && pat[r] == k));
                    }
                } else {
                    assert(peq@[k] == before[k]);
                    assert forall|r: int| 0 <= r < 16 implies (#[trigger] bit(peq@[k], r) <==> (r < i
                        + 1 && pat[r] == k)) by {
                        assert(bit(before[k], r) <==> (r < i && pat[r] == k));
                    }
                }
            }
        }
        i = i + 1;
    }
    proof {
        assert forall|k: int| 0 <= k < 256 implies eq_word(pat, k as u8, #[trigger] peq@[k]) by {
            assert(eq_word_upto(pat, n as int, k, peq@[k]));
        }
    }
    peq
}

/// One column of the automaton: the new vertical words, and whether the
/// horizontal delta of row `k + 1` (the bit of `hb`) rises or falls.
fn automaton_step(eq: u16, pv: u16, mv: u16, hb: u16, Ghost(k): Ghost<u16>) -> (r: (
    u16,
    u16,
    bool,
    bool,
))
    requires
        k < 16,
        hb == 1u16 << k,
    ensures
        r.0 == step_pv(eq, pv, mv),
        r.1 == step_mv(eq, pv, mv),
        r.2 == bit(step_ph(eq, pv, mv), k as int),
        r.3 == bit(step_mh(eq, pv), k as int),
{
    let xv = eq | mv;
    let sum: u32 = (eq & pv) as u32 + pv as u32;
    let xh = ((sum as u16) ^ pv) | eq;
    assert(xh == step_xh(eq, pv));
    let ph = mv | !(xh | pv);
    let mh = pv & xh;
    let rises = ph & hb != 0;
    let falls = mh & hb != 0;
    assert(rises == ((ph >> k) & 1u16 == 1u16)) by (bit_vector)
        requires
            hb == 1u16 << k,
            k < 16,
            rises == (ph & hb != 0),
    ;
    assert(falls == ((mh >> k) & 1u16 == 1u16)) by (bit_vector)
        requires
            hb == 1u16 << k,
            k < 16,
            falls == (mh & hb != 0),
    ;
    let ph_in = (ph << 1u16) | 1u16;
    let mh_in = mh << 1u16;
    (mh_in | !(xv | ph_in), ph_in & xv, rises, falls)
}

/// The automaton's starting state: every vertical delta of column 0 is +1.
proof fn lemma_initial_state(pattern: Seq<u8>, text: Seq<u8>)
    requires
        pattern.len() <= 16,
    ensures
        column_state(pattern, text, 0, 0xffffu16, 0u16),
{
    assert forall|r: int| 0 <= r < pattern.len() implies (#[trigger] bit(0xffffu16, r) <==> vdelta(
        pattern,
        text,
        r as nat,
        0,
    ) == 1) && (bit(0u16, r) <==> vdelta(pattern, text, r as nat, 0) == -1) by {
        let rr = r as u16;
        assert((0xffffu16 >> rr) & 1u16 == 1u16 && (0u16 >> rr) & 1u16 != 1u16) by (bit_vector)
            requires
                rr < 16,
        ;
    }
}

/// An empty pattern matches the empty prefix of any text.
proof fn lemma_empty_pattern_score<A>(pattern: Seq<A>, text: Seq<A>, j: nat)
    requires
        pattern.len() == 0,
    ensures
        row_min(pattern, text, 0, j) == 0,
    decreases j,
{
    if j > 0 {
        lemma_empty_pattern_score(pattern, text, (j - 1) as nat);
    }
}

/// The sequence-Levenshtein score of `pattern` against the window
/// `text[start..start + len]`, by Myers' automaton over a prepared equality
/// table.
fn automaton_score(
    peq: &Vec<u16>,
    pattern: Ghost<Seq<u8>>,
    n: usize,
    text: &[u8],
    start: usize,
    len: usize,
) -> (r: usize)
    requires
        n == pattern@.len(),
        1 <= pattern@.len() <= 16,
        start + len <= text@.len(),
        peq@.len() == 256,
        forall|c: int| 0 <= c < 256 ==> eq_word(pattern@, c as u8, #[trigger] peq@[c]),
    ensures
        r == prefix_score(pattern@, text@.subrange(start as int, start + len)),
{
    let ghost window = text@.subrange(start as int, start + len);
    let k: u16 = (n - 1) as u16;
    let hb: u16 = 1u16 << k;
    let mut pv: u16 = 0xffff;
    let mut mv: u16 = 0;
    let mut score: usize = (k as usize) + 1;
    let mut min_last_col: usize = score;
    proof {
        lemma_initial_state(pattern@, window);
    }
    let text_len = text.len();
    let mut j: usize = 0;
    while j < len
        invariant
            text_len == text@.len(),
            1 <= n <= 16,
            n == pattern@.len(),
            k == n - 1,
            hb == 1u16 << k,
            start + len <= text@.len(),
            window == text@.subrange(start as int, start + len),
            peq@.len() == 256,
            forall|c: int| 0 <= c < 256 ==> eq_word(pattern@, c as u8, #[trigger] peq@[c]),
            j <= len,
            column_state(pattern@, window, j as nat, pv, mv),
            score == edit_dp(pattern@, window, n as nat, j as nat),
            min_last_col == row_min(pattern@, window, n as nat, j as nat),
        decreases len - j,
    {
        let c = text[start + j];
        let eq = peq[c as usize];
        assert(window[j as int] == c);
        proof {
            lemma_step_column(pattern@, window, j as nat, eq, pv, mv);
            lemma_dp_bound(pattern@, window, n as nat, (j + 1) as nat);
        }
        let (pv2, mv2, rises, falls) = automaton_step(eq, pv, mv, hb, Ghost(k));
        if rises {
            score = score + 1;
        }
        if falls {
            score = score - 1;
        }
        pv = pv2;
        mv = mv2;
        if score < min_last_col {
            min_last_col = score;
        }
        j = j + 1;
    }
    min_last_col
}

/// The sequence-Levenshtein distance by Myers' automaton, one window at a
/// time.
#[derive(Debug, Clone)]
pub struct SequenceLevenshteinDistance;

impl SequenceLevenshteinDistance {
    /// A new SequenceLevenshteinDistance.
    pub fn new() -> Self {
        SequenceLevenshteinDistance
    }

    /// The least edit distance between the pattern, the first `n` items of
    /// `t` (at most 16), and a prefix of the text, the first `m` items of `p`.
    pub fn sequence_levenshtein(&self, t: &[u8], n: usize, p: &[u8], m: usize) -> (r: usize)
        requires
            n <= t@.len(),
            m <= p@.len(),
            n <= MAX_PATTERN_LEN,
        ensures
            r == prefix_score(t@.take(n as int), p@.take(m as int)),
    {
        if n == 0 {
            proof {
                lemma_empty_pattern_score(t@.take(0), p@.take(m as int), m as nat);
            }
            return 0;
        }
        let peq = build_peq(t, n);
        assert(p@.subrange(0, m as int) =~= p@.take(m as int));
        automaton_score(&peq, Ghost(t@.take(n as int)), n, p, 0, m)
    }
}

/// Windows processed together, one per lane.
pub const LANES: usize = 8;

/// The match threshold of `sequence_levenshtein_simd`.
pub const DEFAULT_THRESHOLD: usize = 1;

/// The window of `m` items of `read` that starts at `s`.
pub open spec fn window<A>(read: Seq<A>, s: int, m: int) -> Seq<A> {
    read.subrange(s, s + m)
}

/// Length of the windows a pattern of `m` items is matched in: the read's
/// slices of eight items, or of the pattern's own length when it is longer
/// than eight.
pub open spec fn window_span(m: int) -> int {
    if m <= LANES {
        LANES as int
    } else {
        m
    }
}

/// Number of windows for a pattern of `m` items in a read of `len` items: one
/// per start `s` with `s + window_span(m) <= len`.
pub open spec fn window_count(len: int, m: int) -> int {
    if len >= window_span(m) {
        len - window_span(m) + 1
    } else {
        0
    }
}

/// Spans `(s, s + m - 1)` of the first `k` windows whose score against the
/// pattern is at most `threshold`, in order.
pub open spec fn matches_upto(read: Seq<u8>, pattern: Seq<u8>, threshold: nat, k: int) -> Seq<
    (usize, usize),
>
    decreases k,
{
    if k <= 0 {
        Seq::empty()
    } else {
        let prev = matches_upto(read, pattern, threshold, k - 1);
        let s = k - 1;
        if prefix_score(pattern, window(read, s, pattern.len() as int)) <= threshold {
            prev.push((s as usize, (s + pattern.len() - 1) as usize))
        } else {
            prev
        }
    }
}

/// Spans of every window of the read, in order, whose score against the
/// pattern is at most `threshold`.
pub open spec fn window_matches(read: Seq<u8>, pattern: Seq<u8>, threshold: nat) -> Seq<
    (usize, usize),
> {
    matches_upto(read, pattern, threshold, window_count(read.len() as int, pattern.len() as int))
}

/// Lane `l` of a group holds the automaton's state for the window starting
/// at `first + l` after `j` columns.
pub open spec fn lane_state(
    pattern: Seq<u8>,
    read: Seq<u8>,
    first: int,
    l: int,
    j: nat,
    pv: u16,
    mv: u16,
    score: usize,
    min_score: usize,
) -> bool {
    let w = window(read, first + l, pattern.len() as int);
    &&& column_state(pattern, w, j, pv, mv)
    &&& score == edit_dp(pattern, w, pattern.len(), j)
    &&& min_score == row_min(pattern, w, pattern.len(), j)
}

/// Scores of the eight windows starting at `first`, `first + 1`, ...,
/// `first + 7`, run side by side through the automaton, one lane each.
fn group_scores(
    peq: &Vec<u16>,
    pattern: Ghost<Seq<u8>>,
    n: usize,
    read: &[u8],
    first: usize,
) -> (r: Vec<usize>)
    requires
        n == pattern@.len(),
        1 <= n <= 16,
        first + LANES + n - 1 <= read@.len(),
        peq@.len() == 256,
        forall|c: int| 0 <= c < 256 ==> eq_word(pattern@, c as u8, #[trigger] peq@[c]),
    ensures
        r@.len() == LANES,
        forall|l: int|
            0 <= l < LANES ==> #[trigger] r@[l] == prefix_score(
                pattern@,
                window(read@, first + l, n as int),
            ),
{
    let read_len = read.len();
    let k: u16 = (n - 1) as u16;
    let hb: u16 = 1u16 << k;
    let mut pv: Vec<u16> = Vec::new();
    let mut mv: Vec<u16> = Vec::new();
    let mut score: Vec<usize> = Vec::new();
    let mut min_score: Vec<usize> = Vec::new();
    let mut l: usize = 0;
    while l < LANES
        invariant
            n == pattern@.len(),
            1 <= n <= 16,
            l <= LANES,
            pv@.len() == l,
            mv@.len() == l,
            score@.len() == l,
            min_score@.len() == l,
            forall|q: int|
                0 <= q < l ==> lane_state(
                    pattern@,
                    read@,
                    first as int,
                    q,
                    0,
                    #[trigger] pv@[q],
                    mv@[q],
                    score@[q],
                    min_score@[q],
                ),
        decreases LANES - l,
    {
        proof {
            lemma_initial_state(pattern@, window(read@, first + l, n as int));
        }
        pv.push(0xffff);
        mv.push(0);
        score.push(n);
        min_score.push(n);
        l = l + 1;
    }
    let mut j: usize = 0;
    while j < n
        invariant
            read_len == read@.len(),
            n == pattern@.len(),
            1 <= n <= 16,
            k == n - 1,
            hb == 1u16 << k,
            first + LANES + n - 1 <= read@.len(),
            peq@.len() == 256,
            forall|c: int| 0 <= c < 256 ==> eq_word(pattern@, c as u8, #[trigger] peq@[c]),
            j <= n,
            pv@.len() == LANES,
            mv@.len() == LANES,
            score@.len() == LANES,
            min_score@.len() == LANES,
            forall|q: int|
                0 <= q < LANES ==> lane_state(
                    pattern@,
                    read@,
                    first as int,
                    q,
                    j as nat,
                    #[trigger] pv@[q],
                    mv@[q],
                    score@[q],
                    min_score@[q],
                ),
        decreases n - j,
    {
        let mut lane: usize = 0;
        while lane < LANES
            invariant
                read_len == read@.len(),
                n == pattern@.len(),
                1 <= n <= 16,
                k == n - 1,
                hb == 1u16 << k,
                first + LANES + n - 1 <= read@.len(),
                peq@.len() == 256,
                forall|c: int| 0 <= c < 256 ==> eq_word(pattern@, c as u8, #[trigger] peq@[c]),
                j < n,
                lane <= LANES,
                pv@.len() == LANES,
                mv@.len() == LANES,
                score@.len() == LANES,
                min_score@.len() == LANES,
                forall|q: int|
                    0 <= q < lane ==> lane_state(
                        pattern@,
                        read@,
                        first as int,
                        q,
                        (j + 1) as nat,
                        #[trigger] pv@[q],
                        mv@[q],
                        score@[q],
                        min_score@[q],
                    ),
                forall|q: int|
                    lane <= q < LANES ==> lane_state(
                        pattern@,
                        read@,
                        first as int,
                        q,
                        j as nat,
                        #[trigger] pv@[q],
                        mv@[q],
                        score@[q],
                        min_score@[q],
                    ),
            decreases LANES - lane,
        {
            let ghost w = window(read@, first + lane, n as int);
            let c = read[first + lane + j];
            let eq = peq[c as usize];
            assert(w[j as int] == c);
            assert(lane_state(
                pattern@,
                read@,
                first as int,
                lane as int,
                j as nat,
                pv@[lane as int],
                mv@[lane as int],
                score@[lane as int],
                min_score@[lane as int],
            ));
            proof {
                lemma_step_column(pattern@, w, j as nat, eq, pv@[lane as int], mv@[lane as int]);
                lemma_dp_bound(pattern@, w, n as nat, (j + 1) as nat);
            }
            let (pv2, mv2, rises, falls) = automaton_step(eq, pv[lane], mv[lane], hb, Ghost(k));
            let mut sc = score[lane];
            if rises {
                sc = sc + 1;
            }
            if falls {
                sc = sc - 1;
            }
            let mut mn = min_score[lane];
            if sc < mn {
                mn = sc;
            }
            let ghost (p0, m0, s0, n0) = (pv@, mv@, score@, min_score@);
            pv.set(lane, pv2);
            mv.set(lane, mv2);
            score.set(lane, sc);
            min_score.set(lane, mn);
            proof {
                assert forall|q: int| 0 <= q < lane + 1 implies lane_state(
                    pattern@,
                    read@,
                    first as int,
                    q,
                    (j + 1) as nat,
                    #[trigger] pv@[q],
                    mv@[q],
                    score@[q],
                    min_score@[q],
                ) by {
                    if q < lane {
                        assert(pv@[q] == p0[q] && mv@[q] == m0[q] && score@[q] == s0[q]
                            && min_score@[q] == n0[q]);
                    }
                }
                assert forall|q: int| lane + 1 <= q < LANES implies lane_state(
                    pattern@,
                    read@,
                    first as int,
                    q,
                    j as nat,
                    #[trigger] pv@[q],
                    mv@[q],
                    score@[q],
                    min_score@[q],
                ) by {
                    assert(pv@[q] == p0[q] && mv@[q] == m0[q] && score@[q] == s0[q]
                        && min_score@[q] == n0[q]);
                }
            }
            lane = lane + 1;
        }
        j = j + 1;
    }
    proof {
        assert forall|l: int| 0 <= l < LANES implies #[trigger] min_score@[l] == prefix_score(
            pattern@,
            window(read@, first + l, n as int),
        ) by {
            assert(lane_state(
                pattern@,
                read@,
                first as int,
                l,
                n as nat,
                pv@[l],
                mv@[l],
                score@[l],
                min_score@[l],
            ));
            assert(window(read@, first + l, n as int).len() == n);
        }
    }
    min_score
}

/// Approximate matching of a short pattern against every window of a read,
/// eight windows at a time, by Myers' automaton.
pub struct SequenceLevenshteinDistanceSimd;

impl SequenceLevenshteinDistanceSimd {
    /// A new SequenceLevenshteinDistanceSimd.
    pub fn new() -> Self {
        SequenceLevenshteinDistanceSimd
    }

    /// Spans `(s, s + m - 1)`, `m = pattern.len()`, of the windows of the
    /// read whose sequence-Levenshtein score against the pattern is at most
    /// `threshold`, in order. The windows are the slices of eight items of the
    /// read (of `m` items when the pattern is longer than eight), and the
    /// automaton reads the first `m` items of each. Full groups of eight
    /// windows go through the lanes together; the windows left over go one at
    /// a time.
    pub fn match_windows(&self, read: &[u8], pattern: &[u8], threshold: usize) -> (r: Result<
        Vec<(usize, usize)>,
        DnaError,
    >)
        ensures
            pattern@.len() == 0 ==> r == Err::<Vec<(usize, usize)>, DnaError>(
                DnaError::EmptyPattern,
            ),
            pattern@.len() > MAX_PATTERN_LEN ==> r == Err::<Vec<(usize, usize)>, DnaError>(
                DnaError::PatternTooLong,
            ),
            1 <= pattern@.len() <= MAX_PATTERN_LEN ==> (r matches Ok(v) && v@ == window_matches(
                read@,
                pattern@,
                threshold as nat,
            )),
    {
        let n = pattern.len();
        if n == 0 {
            return Err(DnaError::EmptyPattern);
        }
        if n > MAX_PATTERN_LEN {
            return Err(DnaError::PatternTooLong);
        }
        let peq = build_peq(pattern, n);
        assert(pattern@.take(n as int) =~= pattern@);
        let mut out: Vec<(usize, usize)> = Vec::new();
        let read_len = read.len();
        let span: usize = if n <= LANES {
            LANES
        } else {
            n
        };
        if read_len < span {
            return Ok(out);
        }
        let nwin = read_len - span + 1;
        let mut s: usize = 0;
        while nwin - s >= LANES
            invariant
                read_len == read@.len(),
                n == pattern@.len(),
                1 <= n <= 16,
                nwin == window_count(read@.len() as int, n as int),
                span == window_span(n as int),
                n <= span,
                nwin + span - 1 == read_len,
                s <= nwin,
                peq@.len() == 256,
                forall|c: int| 0 <= c < 256 ==> eq_word(pattern@, c as u8, #[trigger] peq@[c]),
                out@ == matches_upto(read@, pattern@, threshold as nat, s as int),
            decreases nwin - s,
        {
            let scores = group_scores(&peq, Ghost(pattern@), n, read, s);
            let mut l: usize = 0;
            while l < LANES
                invariant
                    read_len == read@.len(),
                    n == pattern@.len(),
                    1 <= n <= 16,
                    n <= span,
                    nwin + span - 1 == read_len,
                    s + LANES <= nwin,
                    l <= LANES,
                    scores@.len() == LANES,
                    forall|q: int|
                        0 <= q < LANES ==> #[trigger] scores@[q] == prefix_score(
                            pattern@,
                            window(read@, s + q, n as int),
                        ),
                    out@ == matches_upto(read@, pattern@, threshold as nat, s + l),
                decreases LANES - l,
            {
                if scores[l] <= threshold {
                    out.push((s + l, s + l + n - 1));
                }
                l = l + 1;
            }
            s = s + LANES;
        }
        while s < nwin
            invariant
                read_len == read@.len(),
                n == pattern@.len(),
                1 <= n <= 16,
                nwin == window_count(read@.len() as int, n as int),
                span == window_span(n as int),
                n <= span,
                nwin + span - 1 == read_len,
                s <= nwin,
                peq@.len() == 256,
                forall|c: int| 0 <= c < 256 ==> eq_word(pattern@, c as u8, #[trigger] peq@[c]),
                out@ == matches_upto(read@, pattern@, threshold as nat, s as int),
            decreases nwin - s,
        {
            let score = automaton_score(&peq, Ghost(pattern@), n, read, s, n);
            if score <= threshold {
                out.push((s, s + n - 1));
            }
            s = s + 1;
        }
        Ok(out)
    }

    /// `match_windows` at the default threshold of 1.
    pub fn sequence_levenshtein_simd(&self, read: &[u8], barcode: &[u8]) -> (r: Result<
        Vec<(usize, usize)>,
        DnaError,
    >)
        ensures
            barcode@.len() == 0 ==> r == Err::<Vec<(usize, usize)>, DnaError>(
                DnaError::EmptyPattern,
            ),
            barcode@.len() > MAX_PATTERN_LEN ==> r == Err::<Vec<(usize, usize)>, DnaError>(
                DnaError::PatternTooLong,
            ),
            1 <= barcode@.len() <= MAX_PATTERN_LEN ==> (r matches Ok(v) && v@ == window_matches(
                read@,
                barcode@,
                DEFAULT_THRESHOLD as nat,
            )),
    {
        self.match_windows(read, barcode, DEFAULT_THRESHOLD)
    }
}

/// The table's diagonal between a sequence and itself is all zeros.
proof fn lemma_dp_diagonal_zero<A>(a: Seq<A>, i: nat)
    requires
        i <= a.len(),
    ensures
        edit_dp(a, a, i, i) == 0,
    decreases i,
{
    if i > 0 {
        lemma_dp_diagonal_zero(a, (i - 1) as nat);
        lemma_dp_match(a, a, i, i);
    }
}

/// An entry is zero only on the diagonal, between equal prefixes.
proof fn lemma_dp_zero<A>(a: Seq<A>, b: Seq<A>, i: nat, j: nat)
    requires
        i <= a.len(),
        j <= b.len(),
        edit_dp(a, b, i, j) == 0,
    ensures
        i == j,
        forall|q: int| 0 <= q < i ==> a[q] == b[q],
    decreases i + j,
{
    if i > 0 && j > 0 {
        lemma_dp_zero(a, b, (i - 1) as nat, (j - 1) as nat);
    }
}

/// A pattern scores zero against a window equal to it.
pub proof fn lemma_identical_window_scores_zero(pattern: Seq<u8>)
    ensures
        prefix_score(pattern, pattern) == 0,
{
    lemma_dp_diagonal_zero(pattern, pattern.len());
    lemma_row_min(pattern, pattern, pattern.len(), pattern.len());
}

/// A pattern scores one against a window of its length that differs from it
/// at exactly one position.
pub proof fn lemma_single_substitution_scores_one(pattern: Seq<u8>, text: Seq<u8>, k: int)
    requires
        pattern.len() == text.len(),
        0 <= k < pattern.len(),
        pattern[k] != text[k],
        forall|q: int| 0 <= q < pattern.len() && q != k ==> pattern[q] == text[q],
    ensures
        prefix_score(pattern, text) == 1,
{
    let n = pattern.len();
    lemma_diag_after_substitution(pattern, text, k, n);
    lemma_row_min(pattern, text, n, n);
    let j0 = choose|j: nat| j <= n && row_min(pattern, text, n, n) == #[trigger] edit_dp(
        pattern,
        text,
        n,
        j,
    );
    if row_min(pattern, text, n, n) == 0 {
        lemma_dp_zero(pattern, text, n, j0);
        assert(pattern[k] == text[k]);
    }
}

proof fn lemma_diag_after_substitution(pattern: Seq<u8>, text: Seq<u8>, k: int, i: nat)
    requires
        pattern.len() == text.len(),
        0 <= k < pattern.len(),
        i <= pattern.len(),
        forall|q: int| 0 <= q < pattern.len() && q != k ==> pattern[q] == text[q],
    ensures
        i <= k ==> edit_dp(pattern, text, i, i) == 0,
        i > k ==> edit_dp(pattern, text, i, i) <= 1,
    decreases i,
{
    if i > 0 {
        lemma_diag_after_substitution(pattern, text, k, (i - 1) as nat);
        if i - 1 != k {
            lemma_dp_match(pattern, text, i, i);
        }
    }
}

/// Items counted by a Hamming comparison: the shorter length.
pub open spec fn common_len(a: int, b: int) -> int {
    if a <= b {
        a
    } else {
        b
    }
}

/// Positions of the common prefix at which `a` and `b` differ.
pub open spec fn prefix_mismatches<A>(a: Seq<A>, b: Seq<A>) -> nat {
    let m = common_len(a.len() as int, b.len() as int);
    mismatches(a.take(m), b.take(m))
}

/// Relies on `std::str::from_utf8`: the bytes read as a string exactly when
/// they are valid UTF-8, and the string holds those bytes.
#[verifier::external_body]
fn utf8_str(bytes: &[u8]) -> (r: Option<&str>)
    ensures
        r is Some <==> valid_utf8(bytes@),
        r matches Some(s) ==> s.spec_bytes() == bytes@,
{
    std::str::from_utf8(bytes).ok()
}

/// The characters of valid UTF-8 bytes.
fn utf8_chars(bytes: &[u8]) -> (r: Vec<char>)
    requires
        valid_utf8(bytes@),
    ensures
        r@ == decode_utf8(bytes@),
{
    match utf8_str(bytes) {
        Some(s) => {
            proof {
                encode_utf8_decode_utf8(s@);
            }
            chars_of(s)
        },
        None => {
            proof {
                assert(false);
            }
            Vec::new()
        },
    }
}

/// Character-wise Hamming distance over the common prefix, kept for
/// cross-checking.
#[derive(Debug, Clone)]
pub struct HammingDistance;

impl HammingDistance {
    /// A new HammingDistance.
    pub fn new() -> Self {
        HammingDistance
    }
}

/// Counts the positions of the common prefix of `a` and `b` that differ.
fn count_prefix_mismatches(a: &Vec<char>, b: &Vec<char>) -> (r: usize)
    ensures
        r == prefix_mismatches(a@, b@),
{
    let m = if a.len() <= b.len() {
        a.len()
    } else {
        b.len()
    };
    let ghost x = a@.take(m as int);
    let ghost y = b@.take(m as int);
    let mut k: usize = m;
    let mut count: usize = 0;
    while k > 0
        invariant
            m <= a@.len(),
            m <= b@.len(),
            x == a@.take(m as int),
            y == b@.take(m as int),
            k <= m,
            count <= m - k,
            count == mismatches(x.skip(k as int), y.skip(k as int)),
        decreases k,
    {
        let differ = !(a[k - 1] == b[k - 1]);
        proof {
            assert(x.skip(k - 1).skip(1) =~= x.skip(k as int));
            assert(y.skip(k - 1).skip(1) =~= y.skip(k as int));
            assert(x.skip(k - 1)[0] == a@[k - 1]);
            assert(y.skip(k - 1)[0] == b@[k - 1]);
        }
        if differ {
            count = count + 1;
        }
        k = k - 1;
    }
    assert(x.skip(0) =~= x);
    assert(y.skip(0) =~= y);
    count
}

/// The characters of a string, in order.
fn chars_of(s: &str) -> (r: Vec<char>)
    ensures
        r@ == s@,
{
    let mut v: Vec<char> = Vec::new();
    for c in it: s.chars()
        invariant
            v@ == it.seq().take(it.index() as int),
    {
        v.push(c);
    }
    v
}

/// Edit distance between strings, by characters, with one cached column.
#[derive(Debug, Clone)]
pub struct LevenshteinDistance;

impl LevenshteinDistance {
    /// A new LevenshteinDistance.
    pub fn new() -> Self {
        LevenshteinDistance
    }

    /// The edit distance between the characters of `a` and those of `b`.
    pub fn levenshtein_distance(&self, a: &str, b: &str) -> (r: usize)
        ensures
            r == levenshtein(a@, b@),
    {
        let ca = chars_of(a);
        let cb = chars_of(b);
        let xa = char_codes(&ca);
        let xb = char_codes(&cb);
        proof {
            assert forall|p: int, q: int|
                0 <= p < a@.len() && 0 <= q < b@.len() implies (#[trigger] xa@[p] == #[trigger] xb@[q]
                <==> a@[p] == b@[q]) by {
                assert(ca@[p] == a@[p]);
                assert(cb@[q] == b@[q]);
                assert(xa@[p] == a@[p] as u32);
                assert(xb@[q] == b@[q] as u32);
                lemma_char_code_injective(a@[p], b@[q]);
            }
            lemma_dp_relabel(a@, b@, xa@, xb@, a@.len(), b@.len());
        }
        edit_distance_codes(&xa, &xb)
    }
}

/// Edit distance of two sequences of codes, filling one cached column of the
/// table per item of `bc`.
fn edit_distance_codes(ac: &Vec<u32>, bc: &Vec<u32>) -> (r: usize)
    ensures
        r == levenshtein(ac@, bc@),
{
    let ghost x = ac@;
    let ghost y = bc@;
    let a_len = ac.len();
    let b_len = bc.len();
    if a_len == 0 {
        return b_len;
    }
    if b_len == 0 {
        return a_len;
    }
    let mut cache: Vec<usize> = Vec::new();
    let mut q: usize = 0;
    while q < a_len
        invariant
            x == ac@,
            y == bc@,
            a_len == x.len(),
            q <= a_len,
            cache@.len() == q,
            forall|t: int| 0 <= t < q ==> #[trigger] cache@[t] == edit_dp(x, y, (t + 1) as nat, 0),
        decreases a_len - q,
    {
        cache.push(q + 1);
        q = q + 1;
    }
    let mut res: usize = 0;
    let mut ib: usize = 0;
    while ib < b_len
        invariant
            x == ac@,
            y == bc@,
            a_len == x.len(),
            b_len == y.len(),
            a_len >= 1,
            ib <= b_len,
            cache@.len() == a_len,
            forall|t: int|
                0 <= t < a_len ==> #[trigger] cache@[t] == edit_dp(x, y, (t + 1) as nat, ib as nat),
            ib >= 1 ==> res == edit_dp(x, y, a_len as nat, ib as nat),
        decreases b_len - ib,
    {
        res = ib;
        let mut a_dist: usize = ib;
        let mut ia: usize = 0;
        while ia < a_len
            invariant
                x == ac@,
                y == bc@,
                a_len == x.len(),
                b_len == y.len(),
                ib < b_len,
                ia <= a_len,
                cache@.len() == a_len,
                forall|t: int|
                    0 <= t < ia ==> #[trigger] cache@[t] == edit_dp(
                        x,
                        y,
                        (t + 1) as nat,
                        (ib + 1) as nat,
                    ),
                forall|t: int|
                    ia <= t < a_len ==> #[trigger] cache@[t] == edit_dp(
                        x,
                        y,
                        (t + 1) as nat,
                        ib as nat,
                    ),
                a_dist == edit_dp(x, y, ia as nat, ib as nat),
                ia == 0 ==> res == ib,
                ia > 0 ==> res == edit_dp(x, y, ia as nat, (ib + 1) as nat),
            decreases a_len - ia,
        {
            proof {
                lemma_dp_bound(x, y, ia as nat, ib as nat);
                lemma_dp_bound(x, y, (ia + 1) as nat, (ib + 1) as nat);
                lemma_dp_bound(x, y, (ia + 1) as nat, ib as nat);
                if ia > 0 {
                    lemma_dp_bound(x, y, ia as nat, (ib + 1) as nat);
                }
                assert(edit_dp(x, y, (ia + 1) as nat, (ib + 1) as nat) == min2(
                    min2(
                        (edit_dp(x, y, ia as nat, ib as nat) + if x[ia as int] == y[ib as int] {
                            0nat
                        } else {
                            1nat
                        }) as int,
                        (edit_dp(x, y, ia as nat, (ib + 1) as nat) + 1) as int,
                    ),
                    (edit_dp(x, y, (ia + 1) as nat, ib as nat) + 1) as int,
                ));
            }
            let b_dist = if ac[ia] == bc[ib] {
                a_dist
            } else {
                a_dist + 1
            };
            a_dist = cache[ia];
            res = if a_dist > res {
                if b_dist > res {
                    res + 1
                } else {
                    b_dist
                }
            } else if b_dist > a_dist {
                a_dist + 1
            } else {
                b_dist
            };
            cache.set(ia, res);
            ia = ia + 1;
        }
        ib = ib + 1;
    }
    res
}

/// Relabelling items one-to-one keeps every entry of the table.
proof fn lemma_dp_relabel<A, B>(a: Seq<A>, b: Seq<A>, xa: Seq<B>, xb: Seq<B>, i: nat, j: nat)
    requires
        xa.len() == a.len(),
        xb.len() == b.len(),
        i <= a.len(),
        j <= b.len(),
        forall|p: int, q: int|
            0 <= p < a.len() && 0 <= q < b.len() ==> (#[trigger] xa[p] == #[trigger] xb[q] <==> a[p]
                == b[q]),
    ensures
        edit_dp(xa, xb, i, j) == edit_dp(a, b, i, j),
    decreases i + j,
{
    if i > 0 && j > 0 {
        lemma_dp_relabel(a, b, xa, xb, (i - 1) as nat, (j - 1) as nat);
        lemma_dp_relabel(a, b, xa, xb, (i - 1) as nat, j);
        lemma_dp_relabel(a, b, xa, xb, i, (j - 1) as nat);
        assert(xa[i - 1] == xb[j - 1] <==> a[i - 1] == b[j - 1]);
    }
}

proof fn lemma_char_code_injective(c1: char, c2: char)
    ensures
        (c1 as u32 == c2 as u32) == (c1 == c2),
{
}

/// Character codes of a sequence of characters.
fn char_codes(s: &Vec<char>) -> (r: Vec<u32>)
    ensures
        r@.len() == s@.len(),
        forall|k: int| 0 <= k < s@.len() ==> #[trigger] r@[k] == s@[k] as u32,
{
    let mut out: Vec<u32> = Vec::new();
    let mut k: usize = 0;
    while k < s.len()
        invariant
            k <= s@.len(),
            out@.len() == k,
            forall|q: int| 0 <= q < k ==> #[trigger] out@[q] == s@[q] as u32,
        decreases s@.len() - k,
    {
        out.push(s[k] as u32);
        k = k + 1;
    }
    out
}

/// A nucleotide byte: a symbol of the alphabet, or `U`, read as `T`.
pub open spec fn is_nucleotide(b: u8) -> bool {
    is_base(b)
}

/// The code of a nucleotide byte.
pub open spec fn nucleotide_code(b: u8) -> u8 {
    spec_encode(b)
}

/// `e` refuses the first byte of `s` that is no nucleotide.
pub open spec fn refuses_first(s: Seq<u8>, e: DnaError) -> bool {
    exists|k: int|
        0 <= k < s.len() && !is_nucleotide(s[k]) && (forall|q: int|
            0 <= q < k ==> is_nucleotide(#[trigger] s[q])) && e == DnaError::InvalidSymbol(s[k])
}

/// Every byte is a nucleotide.
pub open spec fn all_nucleotides(s: Seq<u8>) -> bool {
    forall|k: int| 0 <= k < s.len() ==> #[trigger] is_nucleotide(s[k])
}

/// Codes of a sequence of nucleotides.
pub open spec fn nucleotide_codes(s: Seq<u8>) -> Seq<u8> {
    s.map_values(|b: u8| nucleotide_code(b))
}

/// Hamming distance over the codes of two nucleotide sequences: positions of
/// the common prefix that differ, plus the difference in length.
pub open spec fn code_hamming(a: Seq<u8>, b: Seq<u8>) -> nat {
    let m = common_len(a.len() as int, b.len() as int);
    let longer = if a.len() >= b.len() {
        a.len()
    } else {
        b.len()
    };
    prefix_mismatches(nucleotide_codes(a), nucleotide_codes(b)) + (longer - m) as nat
}

/// Hamming distance over 3-bit codes, counting the bits of each XOR.
pub struct HammingDistanceSimd;

impl HammingDistanceSimd {
    /// A new HammingDistanceSimd.
    pub fn new() -> Self {
        HammingDistanceSimd
    }

    /// Codes of a nucleotide sequence (`U` read as `T`); refuses the first
    /// byte that is no nucleotide.
    pub fn encode_dna(sequence: &[u8]) -> (r: Result<Vec<u8>, DnaError>)
        ensures
            r is Ok <==> all_nucleotides(sequence@),
            r matches Ok(v) ==> v@ == nucleotide_codes(sequence@),
            r matches Err(e) ==> refuses_first(sequence@, e),
    {
        let mut out: Vec<u8> = Vec::new();
        let mut k: usize = 0;
        while k < sequence.len()
            invariant
                k <= sequence@.len(),
                out@ == nucleotide_codes(sequence@.take(k as int)),
                forall|q: int| 0 <= q < k ==> is_nucleotide(#[trigger] sequence@[q]),
            decreases sequence@.len() - k,
        {
            let b = sequence[k];
            let code = if b == BASE_A {
                CODE_A
            } else if b == BASE_C {
                CODE_C
            } else if b == BASE_G {
                CODE_G
            } else if b == BASE_T || b == BASE_U {
                CODE_T
            } else {
                assert(!is_nucleotide(sequence@[k as int]));
                assert(!all_nucleotides(sequence@));
                return Err(DnaError::InvalidSymbol(b));
            };
            out.push(code);
            proof {
                assert(nucleotide_codes(sequence@.take(k + 1)) =~= nucleotide_codes(
                    sequence@.take(k as int),
                ).push(code));
            }
            k = k + 1;
        }
        assert(sequence@.take(k as int) =~= sequence@);
        Ok(out)
    }

    /// Half the bits in which the codes of the common prefix differ, plus
    /// the difference in length; refuses the first byte of `a`, then of `b`,
    /// that is no nucleotide.
    pub fn hamming_distance_simd(&self, a: &[u8], b: &[u8]) -> (r: Result<usize, DnaError>)
        ensures
            r is Ok <==> all_nucleotides(a@) && all_nucleotides(b@),
            r matches Ok(d) ==> d == code_hamming(a@, b@),
            r matches Err(e) ==> if all_nucleotides(a@) {
                refuses_first(b@, e)
            } else {
                refuses_first(a@, e)
            },
    {
        let ea = match Self::encode_dna(a) {
            Ok(v) => v,
            Err(e) => {
                return Err(e);
            },
        };
        let eb = match Self::encode_dna(b) {
            Ok(v) => v,
            Err(e) => {
                return Err(e);
            },
        };
        let min_len = if ea.len() <= eb.len() {
            ea.len()
        } else {
            eb.len()
        };
        let max_len = if ea.len() >= eb.len() {
            ea.len()
        } else {
            eb.len()
        };
        let ghost x = ea@.take(min_len as int);
        let ghost y = eb@.take(min_len as int);
        let mut distance: usize = 0;
        let mut k: usize = min_len;
        while k > 0
            invariant
                min_len <= ea@.len(),
                min_len <= eb@.len(),
                ea@ == nucleotide_codes(a@),
                eb@ == nucleotide_codes(b@),
                all_nucleotides(a@),
                all_nucleotides(b@),
                ea@.len() == a@.len(),
                eb@.len() == b@.len(),
                x == ea@.take(min_len as int),
                y == eb@.take(min_len as int),
                k <= min_len,
                distance <= min_len - k,
                distance == mismatches(x.skip(k as int), y.skip(k as int)),
            decreases k,
        {
            let bits = count_ones((ea[k - 1] ^ eb[k - 1]) as u64);
            proof {
                let p = ea@[k - 1];
                let q = eb@[k - 1];
                assert(is_nucleotide(a@[k - 1]));
                assert(is_nucleotide(b@[k - 1]));
                assert(is_code(p) && is_code(q));
                assert(((p ^ q) as u64) == (p as u64) ^ (q as u64)) by (bit_vector);
                lemma_code_xor(p as u64, q as u64);
                assert(x.skip(k - 1).skip(1) =~= x.skip(k as int));
                assert(y.skip(k - 1).skip(1) =~= y.skip(k as int));
                assert(x.skip(k - 1)[0] == p);
                assert(y.skip(k - 1)[0] == q);
            }
            distance = distance + (bits / 2) as usize;
            k = k - 1;
        }
        proof {
            assert(x.skip(0) =~= x);
            assert(y.skip(0) =~= y);
            assert(nucleotide_codes(a@).take(min_len as int) == x);
        }
        Ok(distance + (max_len - min_len))
    }
}

/// A distance between two byte sequences, defined on the pairs that
/// `accepts` admits.
pub trait Distance {
    /// The pairs of inputs the distance is defined on.
    spec fn accepts(&self, a: Seq<u8>, b: Seq<u8>) -> bool;

    /// The distance itself.
    spec fn measure(&self, a: Seq<u8>, b: Seq<u8>) -> nat;

    fn distance(&self, a: &[u8], b: &[u8]) -> (r: usize)
        requires
            self.accepts(a@, b@),
        ensures
            r == self.measure(a@, b@),
    ;

    /// The distance of a text `t` and a pattern `p`.
    fn find_distance(&self, t: &[u8], p: &[u8]) -> (r: usize)
        requires
            self.accepts(t@, p@),
        ensures
            r == self.measure(t@, p@),
    ;
}

/// Start of the first window of `read` that the pattern matches within one
/// edit, or the read's length when none does.
pub open spec fn first_match_start(read: Seq<u8>, pattern: Seq<u8>) -> nat {
    let m = window_matches(read, pattern, DEFAULT_THRESHOLD as nat);
    if m.len() == 0 {
        read.len()
    } else {
        m[0].0 as nat
    }
}

impl SequenceLevenshteinDistanceSimd {
    fn first_match(&self, read: &[u8], barcode: &[u8]) -> (r: usize)
        requires
            1 <= barcode@.len() <= MAX_PATTERN_LEN,
        ensures
            r == first_match_start(read@, barcode@),
    {
        match self.sequence_levenshtein_simd(read, barcode) {
            Ok(matches) => {
                if matches.len() == 0 {
                    read.len()
                } else {
                    matches[0].0
                }
            },
            Err(_) => read.len(),
        }
    }
}

impl Distance for SequenceLevenshteinDistanceSimd {
    open spec fn accepts(&self, a: Seq<u8>, b: Seq<u8>) -> bool {
        1 <= b.len() <= MAX_PATTERN_LEN
    }

    open spec fn measure(&self, a: Seq<u8>, b: Seq<u8>) -> nat {
        first_match_start(a, b)
    }

    fn distance(&self, a: &[u8], b: &[u8]) -> (r: usize) {
        self.first_match(a, b)
    }

    fn find_distance(&self, read: &[u8], barcode: &[u8]) -> (r: usize) {
        self.first_match(read, barcode)
    }
}

impl SequenceLevenshteinDistance {
    fn both_ways(&self, t: &[u8], p: &[u8]) -> (r: usize)
        requires
            t@.len() <= MAX_PATTERN_LEN,
            p@.len() <= MAX_PATTERN_LEN,
        ensures
            r == min2(prefix_score(t@, p@) as int, prefix_score(p@, t@) as int),
    {
        let n = t.len();
        let m = p.len();
        let score_t = self.sequence_levenshtein(t, n, p, m);
        let score_p = self.sequence_levenshtein(p, m, t, n);
        assert(t@.take(n as int) =~= t@);
        assert(p@.take(m as int) =~= p@);
        if score_t <= score_p {
            score_t
        } else {
            score_p
        }
    }
}

impl Distance for SequenceLevenshteinDistance {
    open spec fn accepts(&self, a: Seq<u8>, b: Seq<u8>) -> bool {
        a.len() <= MAX_PATTERN_LEN && b.len() <= MAX_PATTERN_LEN
    }

    open spec fn measure(&self, a: Seq<u8>, b: Seq<u8>) -> nat {
        min2(prefix_score(a, b) as int, prefix_score(b, a) as int) as nat
    }

    fn distance(&self, a: &[u8], b: &[u8]) -> (r: usize) {
        self.both_ways(a, b)
    }

    fn find_distance(&self, t: &[u8], p: &[u8]) -> (r: usize) {
        self.both_ways(t, p)
    }
}

impl HammingDistance {
    fn chars_distance(&self, a: &[u8], b: &[u8]) -> (r: usize)
        requires
            valid_utf8(a@),
            valid_utf8(b@),
        ensures
            r == prefix_mismatches(decode_utf8(a@), decode_utf8(b@)),
    {
        let ca = utf8_chars(a);
        let cb = utf8_chars(b);
        count_prefix_mismatches(&ca, &cb)
    }
}

impl Distance for HammingDistance {
    open spec fn accepts(&self, a: Seq<u8>, b: Seq<u8>) -> bool {
        valid_utf8(a) && valid_utf8(b)
    }

    open spec fn measure(&self, a: Seq<u8>, b: Seq<u8>) -> nat {
        prefix_mismatches(decode_utf8(a), decode_utf8(b))
    }

    fn distance(&self, a: &[u8], b: &[u8]) -> (r: usize) {
        self.chars_distance(a, b)
    }

    fn find_distance(&self, a: &[u8], b: &[u8]) -> (r: usize) {
        self.chars_distance(a, b)
    }
}

impl HammingDistanceSimd {
    fn accepted_distance(&self, a: &[u8], b: &[u8]) -> (r: usize)
        requires
            all_nucleotides(a@),
            all_nucleotides(b@),
        ensures
            r == code_hamming(a@, b@),
    {
        match self.hamming_distance_simd(a, b) {
            Ok(d) => d,
            Err(_) => {
                proof {
                    assert(false);
                }
                0
            },
        }
    }
}

impl Distance for HammingDistanceSimd {
    open spec fn accepts(&self, a: Seq<u8>, b: Seq<u8>) -> bool {
        all_nucleotides(a) && all_nucleotides(b)
    }

    open spec fn measure(&self, a: Seq<u8>, b: Seq<u8>) -> nat {
        code_hamming(a, b)
    }

    fn distance(&self, a: &[u8], b: &[u8]) -> (r: usize) {
        self.accepted_distance(a, b)
    }

    fn find_distance(&self, a: &[u8], b: &[u8]) -> (r: usize) {
        self.accepted_distance(a, b)
    }
}

impl Distance for SequenceLevenshteinDistanceWagner {
    open spec fn accepts(&self, a: Seq<u8>, b: Seq<u8>) -> bool {
        b.len() < usize::MAX
    }

    open spec fn measure(&self, a: Seq<u8>, b: Seq<u8>) -> nat {
        wagner_value(a, b)
    }

    fn distance(&self, a: &[u8], b: &[u8]) -> (r: usize) {
        self.wagner_distance(a, b)
    }

    fn find_distance(&self, s1: &[u8], s2: &[u8]) -> (r: usize) {
        self.wagner_distance(s1, s2)
    }
}

impl LevenshteinDistance {
    fn bytes_distance(&self, a: &[u8], b: &[u8]) -> (r: usize)
        requires
            valid_utf8(a@),
            valid_utf8(b@),
        ensures
            r == levenshtein(decode_utf8(a@), decode_utf8(b@)),
    {
        let ca = utf8_chars(a);
        let cb = utf8_chars(b);
        let xa = char_codes(&ca);
        let xb = char_codes(&cb);
        proof {
            assert forall|p: int, q: int|
                0 <= p < ca@.len() && 0 <= q < cb@.len() implies (#[trigger] xa@[p] == #[trigger] xb@[q]
                <==> ca@[p] == cb@[q]) by {
                lemma_char_code_injective(ca@[p], cb@[q]);
            }
            lemma_dp_relabel(ca@, cb@, xa@, xb@, ca@.len(), cb@.len());
        }
        edit_distance_codes(&xa, &xb)
    }
}

impl Distance for LevenshteinDistance {
    open spec fn accepts(&self, a: Seq<u8>, b: Seq<u8>) -> bool {
        valid_utf8(a) && valid_utf8(b)
    }

    open spec fn measure(&self, a: Seq<u8>, b: Seq<u8>) -> nat {
        levenshtein(decode_utf8(a), decode_utf8(b))
    }

    fn distance(&self, a: &[u8], b: &[u8]) -> (r: usize) {
        self.bytes_distance(a, b)
    }

    fn find_distance(&self, a: &[u8], b: &[u8]) -> (r: usize) {
        self.bytes_distance(a, b)
    }
}

} // verus!
