//! The packed 32-bit range record: bits [0,8) hold the run length, bits
//! [8,11) the kind tag, bits [11,32) the start codepoint.
use vstd::prelude::*;
use crate::case_info::CharCaseChanges;

verus! {

pub const RANGE_ENCODING_LEN_BITS: u32 = 8;

pub const RANGE_ENCODING_KIND_BITS: u32 = 3;

pub const RANGE_ENCODING_CHAR_BITS: u32 = 21;

pub const RANGE_ENCODING_CHAR_SHIFT: u32 = 11;

pub const RANGE_ENCODING_KIND_SHIFT: u32 = 8;

/// Runs longer than this are split before encoding.
pub const RANGE_ENCODING_MAX_LEN: usize = 254;

pub const RK_UNIFORM_UPPER: u32 = 0;

pub const RK_UNIFORM_LOWER: u32 = 1;

pub const RK_ALT_UPPER_LOWER: u32 = 2;

pub const RK_ALT_LOWER_UPPER: u32 = 3;

pub const RK_UNIFORM_BOTH: u32 = 4;

/// The run length held by a record.
pub open spec fn rec_len(e: u32) -> u32 {
    e & 0xff
}

/// The kind tag held by a record.
pub open spec fn rec_kind(e: u32) -> u32 {
    (e >> 8u32) & 7
}

/// The start codepoint held by a record.
pub open spec fn rec_start(e: u32) -> u32 {
    e >> 11u32
}

/// Whether the record's half-open interval holds `c`.
pub open spec fn rec_contains(e: u32, c: int) -> bool {
    rec_start(e) <= c < rec_start(e) + rec_len(e)
}

/// The behavior at offset `k` of a run whose record has kind tag `code`.
pub open spec fn code_behavior(code: u32, k: int) -> CharCaseChanges {
    if code == RK_UNIFORM_UPPER {
        CharCaseChanges::UpperOnly
    } else if code == RK_UNIFORM_LOWER {
        CharCaseChanges::LowerOnly
    } else if code == RK_UNIFORM_BOTH {
        CharCaseChanges::Always
    } else if code == RK_ALT_UPPER_LOWER {
        if k % 2 == 0 {
            CharCaseChanges::UpperOnly
        } else {
            CharCaseChanges::LowerOnly
        }
    } else if code == RK_ALT_LOWER_UPPER {
        if k % 2 == 0 {
            CharCaseChanges::LowerOnly
        } else {
            CharCaseChanges::UpperOnly
        }
    } else {
        CharCaseChanges::Never
    }
}

/// The shape of a run of codepoints.
#[derive(Debug, Clone, Copy, PartialEq, Eq, Structural)]
pub enum CharRangeType {
    /// Every codepoint has the same behavior.
    Uniform(CharCaseChanges),
    /// `UpperOnly`, `LowerOnly`, `UpperOnly`, ...
    AlternatingUpperLower,
    /// `LowerOnly`, `UpperOnly`, `LowerOnly`, ...
    AlternatingLowerUpper,
}

/// The behavior at offset `k` of a run of type `t`.
pub open spec fn type_behavior(t: CharRangeType, k: int) -> CharCaseChanges {
    match t {
        CharRangeType::Uniform(b) => b,
        CharRangeType::AlternatingUpperLower => if k % 2 == 0 {
            CharCaseChanges::UpperOnly
        } else {
            CharCaseChanges::LowerOnly
        },
        CharRangeType::AlternatingLowerUpper => if k % 2 == 0 {
            CharCaseChanges::LowerOnly
        } else {
            CharCaseChanges::UpperOnly
        },
    }
}

/// The kind tag of a run type; `Uniform(Never)` has none.
pub open spec fn type_code(t: CharRangeType) -> Option<u32> {
    match t {
        CharRangeType::Uniform(CharCaseChanges::UpperOnly) => Some(RK_UNIFORM_UPPER),
        CharRangeType::Uniform(CharCaseChanges::LowerOnly) => Some(RK_UNIFORM_LOWER),
        CharRangeType::AlternatingUpperLower => Some(RK_ALT_UPPER_LOWER),
        CharRangeType::AlternatingLowerUpper => Some(RK_ALT_LOWER_UPPER),
        CharRangeType::Uniform(CharCaseChanges::Always) => Some(RK_UNIFORM_BOTH),
        CharRangeType::Uniform(CharCaseChanges::Never) => None,
    }
}

/// A kind tag describes the same behaviors as the run type it encodes.
pub proof fn lemma_code_behavior(t: CharRangeType, k: int)
    requires
        type_code(t) is Some,
    ensures
        code_behavior(type_code(t)->0, k) == type_behavior(t, k),
        type_code(t)->0 <= 4,
{
}

impl CharRangeType {
    /// The kind tag of this run type, `None` for `Uniform(Never)`.
    pub fn encode(self) -> (r: Option<u32>)
        ensures
            r == type_code(self),
    {
        match self {
            CharRangeType::Uniform(CharCaseChanges::UpperOnly) => Some(RK_UNIFORM_UPPER),
            CharRangeType::Uniform(CharCaseChanges::LowerOnly) => Some(RK_UNIFORM_LOWER),
            CharRangeType::AlternatingUpperLower => Some(RK_ALT_UPPER_LOWER),
            CharRangeType::AlternatingLowerUpper => Some(RK_ALT_LOWER_UPPER),
            CharRangeType::Uniform(CharCaseChanges::Always) => Some(RK_UNIFORM_BOTH),
            CharRangeType::Uniform(CharCaseChanges::Never) => None,
        }
    }

    /// True for the two alternating run types.
    pub fn is_alt(&self) -> (r: bool)
        ensures
            r <==> (*self == CharRangeType::AlternatingUpperLower || *self
                == CharRangeType::AlternatingLowerUpper),
    {
        match self {
            CharRangeType::AlternatingUpperLower | CharRangeType::AlternatingLowerUpper => true,
            _ => false,
        }
    }
}

/// Decoding a packed record gives back the length, kind tag and start
/// codepoint that were packed, whenever each fits its field.
pub proof fn lemma_round_trip(kind: u32, ch: u32, len: u32)
    requires
        kind < 8,
        ch < 0x200000,
        len < 256,
    ensures
        rec_kind(len | (kind << 8u32) | (ch << 11u32)) == kind,
        rec_start(len | (kind << 8u32) | (ch << 11u32)) == ch,
        rec_len(len | (kind << 8u32) | (ch << 11u32)) == len,
{
    assert((len | (kind << 8u32) | (ch << 11u32)) & 0xff == len) by (bit_vector)
        requires
            len < 256,
            kind < 8,
            ch < 0x200000,
    ;
    assert(((len | (kind << 8u32) | (ch << 11u32)) >> 8u32) & 7 == kind) by (bit_vector)
        requires
            len < 256,
            kind < 8,
            ch < 0x200000,
    ;
    assert((len | (kind << 8u32) | (ch << 11u32)) >> 11u32 == ch) by (bit_vector)
        requires
            len < 256,
            kind < 8,
            ch < 0x200000,
    ;
}

/// Packs a kind tag, a start codepoint and a length into one record.
pub fn encode_direct(kind: u32, ch: u32, len: u32) -> (r: u32)
    requires
        kind <= 4,
        ch < 0x200000,
        len <= RANGE_ENCODING_MAX_LEN,
    ensures
        r == len | (kind << 8u32) | (ch << 11u32),
        rec_kind(r) == kind,
        rec_start(r) == ch,
        rec_len(r) == len,
{
    proof {
        lemma_round_trip(kind, ch, len);
    }
    len | (kind << RANGE_ENCODING_KIND_SHIFT) | (ch << RANGE_ENCODING_CHAR_SHIFT)
}

/// Unpacks a record into its kind tag, start codepoint and length.
pub fn decode_direct(enc: u32) -> (r: (u32, u32, u32))
    ensures
        r == (rec_kind(enc), rec_start(enc), rec_len(enc)),
        r.0 < 8,
        r.1 < 0x200000,
        r.2 < 256,
{
    let len = enc & 0xff;
    let ch = enc >> RANGE_ENCODING_CHAR_SHIFT;
    assert(1u32 << 3u32 == 8) by (bit_vector);
    let kind = (enc >> RANGE_ENCODING_KIND_SHIFT) & ((1u32 << RANGE_ENCODING_KIND_BITS) - 1);
    assert(((enc >> 8u32) & 7) < 8) by (bit_vector);
    assert((enc >> 11u32) < 0x200000) by (bit_vector);
    assert((enc & 0xff) < 256) by (bit_vector);
    (kind, ch, len)
}

} // verus!
