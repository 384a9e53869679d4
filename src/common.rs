//! The alphabet codec: nucleotide bytes to 3-bit codes and back, and the
//! errors of the library.
use vstd::prelude::*;

verus! {

/// The byte `A`.
pub const BASE_A: u8 = 65;
/// The byte `C`.
pub const BASE_C: u8 = 67;
/// The byte `G`.
pub const BASE_G: u8 = 71;
/// The byte `T`.
pub const BASE_T: u8 = 84;
/// The byte `U`, which some operations read as `T`.
pub const BASE_U: u8 = 85;

/// Code of `A`.
pub const CODE_A: u8 = 0b011;
/// Code of `C`.
pub const CODE_C: u8 = 0b110;
/// Code of `G`.
pub const CODE_G: u8 = 0b101;
/// Code of `T`.
pub const CODE_T: u8 = 0b000;

/// Why an operation of the library refused its input.
#[derive(Debug, Clone, Copy, PartialEq, Eq, Structural)]
pub enum DnaError {
    /// A byte outside the alphabet, or a code that no symbol has.
    InvalidSymbol(u8),
    /// Sequences of a batch that differ in length.
    LengthMismatch,
    /// A batch without any sequence.
    EmptyBatch,
    /// Distances asked of a processor before it holds a batch.
    NotInitialized,
    /// A pattern with no symbol.
    EmptyPattern,
    /// A pattern longer than the automaton's bit-vector width.
    PatternTooLong,
}

/// The symbols of the alphabet: `A`, `C`, `G` and `T`, with `U` an alias
/// of `T`.
pub open spec fn is_base(b: u8) -> bool {
    b == BASE_A || b == BASE_C || b == BASE_G || b == BASE_T || b == BASE_U
}

/// A symbol with the alias `U` read as `T`.
pub open spec fn canonical_base(b: u8) -> u8 {
    if b == BASE_U {
        BASE_T
    } else {
        b
    }
}

/// The codes that symbols are given.
pub open spec fn is_code(c: u8) -> bool {
    c == CODE_A || c == CODE_C || c == CODE_G || c == CODE_T
}

/// The code of a symbol; `U` shares the code of `T`.
pub open spec fn spec_encode(b: u8) -> u8 {
    if b == BASE_A {
        CODE_A
    } else if b == BASE_C {
        CODE_C
    } else if b == BASE_G {
        CODE_G
    } else {
        CODE_T
    }
}

/// The symbol of a code.
pub open spec fn spec_decode(c: u8) -> u8 {
    if c == CODE_A {
        BASE_A
    } else if c == CODE_C {
        BASE_C
    } else if c == CODE_G {
        BASE_G
    } else {
        BASE_T
    }
}

/// Encodes one symbol, `U` as `T`; any byte outside the alphabet is refused.
pub fn encode_dna(base: u8) -> (r: Result<u8, DnaError>)
    ensures
        is_base(base) ==> r == Ok::<u8, DnaError>(spec_encode(base)),
        !is_base(base) ==> r == Err::<u8, DnaError>(DnaError::InvalidSymbol(base)),
{
    match base {
        BASE_A => Ok(CODE_A),
        BASE_C => Ok(CODE_C),
        BASE_G => Ok(CODE_G),
        BASE_T => Ok(CODE_T),
        BASE_U => Ok(CODE_T),
        _ => Err(DnaError::InvalidSymbol(base)),
    }
}

/// Decodes one code; any byte that is not a code is refused.
pub fn decode_dna(base: u8) -> (r: Result<u8, DnaError>)
    ensures
        is_code(base) ==> r == Ok::<u8, DnaError>(spec_decode(base)),
        !is_code(base) ==> r == Err::<u8, DnaError>(DnaError::InvalidSymbol(base)),
{
    match base {
        CODE_A => Ok(BASE_A),
        CODE_C => Ok(BASE_C),
        CODE_G => Ok(BASE_G),
        CODE_T => Ok(BASE_T),
        _ => Err(DnaError::InvalidSymbol(base)),
    }
}

/// Decoding the code of a symbol `A`, `C`, `G` or `T` gives the symbol back,
/// and every symbol has a code of three bits.
pub proof fn lemma_codec_round_trip(b: u8)
    requires
        is_base(b),
        b != BASE_U,
    ensures
        is_code(spec_encode(b)),
        spec_encode(b) < 8,
        spec_decode(spec_encode(b)) == b,
{
}

/// Two symbols have the same code only when they are the same symbol, `U`
/// being `T`.
pub proof fn lemma_encode_injective(a: u8, b: u8)
    requires
        is_base(a),
        is_base(b),
    ensures
        spec_encode(a) == spec_encode(b) <==> canonical_base(a) == canonical_base(b),
        is_code(spec_encode(a)),
        spec_encode(a) < 8,
{
}

} // verus!
