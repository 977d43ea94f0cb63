//! Per-codepoint case facts and the four case behaviors derived from them.
use vstd::prelude::*;

verus! {

/// One past the largest Unicode scalar value.
pub const NUM_CHARS: usize = 0x110000;

/// Whether `v` is a Unicode scalar value (in range and not a surrogate).
pub open spec fn is_scalar_value(v: int) -> bool {
    0 <= v < 0x110000 && !(0xD800 <= v <= 0xDFFF)
}

/// Relies on char::from_u32: it returns a char exactly for scalar values,
/// holding that value.
#[verifier::external_body]
pub(crate) fn char_from_u32(v: u32) -> (r: Option<char>)
    ensures
        r is Some <==> is_scalar_value(v as int),
        r matches Some(c) ==> c as u32 == v,
{
    char::from_u32(v)
}

/// How a codepoint reacts to case mapping.
#[derive(Debug, Clone, Copy, PartialEq, Eq, Structural)]
pub enum CharCaseChanges {
    Never,
    UpperOnly,
    LowerOnly,
    Always,
}

/// The behavior of a codepoint that changes under lowercasing iff `lower`
/// and under uppercasing iff `upper`.
pub open spec fn behavior_of(lower: bool, upper: bool) -> CharCaseChanges {
    if lower && upper {
        CharCaseChanges::Always
    } else if lower {
        CharCaseChanges::LowerOnly
    } else if upper {
        CharCaseChanges::UpperOnly
    } else {
        CharCaseChanges::Never
    }
}

/// Whether a codepoint of behavior `b` changes under lowercasing
/// (`map_lower`) or under uppercasing (`!map_lower`).
pub open spec fn changes_under(b: CharCaseChanges, map_lower: bool) -> bool {
    match b {
        CharCaseChanges::Never => false,
        CharCaseChanges::UpperOnly => !map_lower,
        CharCaseChanges::LowerOnly => map_lower,
        CharCaseChanges::Always => true,
    }
}

/// Whether `a` and `b` are one `UpperOnly` and one `LowerOnly`.
pub open spec fn alternates_spec(a: CharCaseChanges, b: CharCaseChanges) -> bool {
    (a == CharCaseChanges::UpperOnly && b == CharCaseChanges::LowerOnly) || (a
        == CharCaseChanges::LowerOnly && b == CharCaseChanges::UpperOnly)
}

impl CharCaseChanges {
    /// True if the codepoint changes under exactly one of the two mappings.
    pub fn is_simple_cased(self) -> (r: bool)
        ensures
            r <==> (self == CharCaseChanges::UpperOnly || self == CharCaseChanges::LowerOnly),
    {
        match self {
            CharCaseChanges::UpperOnly | CharCaseChanges::LowerOnly => true,
            _ => false,
        }
    }

    /// True if one of `self`, `o` is `UpperOnly` and the other `LowerOnly`.
    pub fn alternates_with(self, o: Self) -> (r: bool)
        ensures
            r == alternates_spec(self, o),
    {
        match (self, o) {
            (CharCaseChanges::UpperOnly, CharCaseChanges::LowerOnly) | (
                CharCaseChanges::LowerOnly,
                CharCaseChanges::UpperOnly,
            ) => true,
            _ => false,
        }
    }
}

/// The case facts of one codepoint.
#[derive(Debug, Clone, Copy, PartialEq, Eq, Structural)]
pub struct CharInfo {
    pub codepoint: u32,
    pub changes_when_upper: bool,
    pub changes_when_lower: bool,
}

impl CharInfo {
    pub open spec fn behavior(self) -> CharCaseChanges {
        behavior_of(self.changes_when_lower, self.changes_when_upper)
    }

    /// The codepoint as a `char`, if it is a scalar value.
    pub fn try_ch(&self) -> (r: Option<char>)
        ensures
            r is Some <==> is_scalar_value(self.codepoint as int),
            r matches Some(c) ==> c as u32 == self.codepoint,
    {
        char_from_u32(self.codepoint)
    }

    /// The codepoint as a `char`; it must be a scalar value.
    pub fn ch(&self) -> (r: char)
        requires
            is_scalar_value(self.codepoint as int),
        ensures
            r as u32 == self.codepoint,
    {
        match char_from_u32(self.codepoint) {
            Some(c) => c,
            None => {
                proof {
                    assert(false);
                }
                '\0'
            },
        }
    }

    /// The behavior given by the two flags.
    pub fn case_enum(self) -> (r: CharCaseChanges)
        ensures
            r == self.behavior(),
    {
        match (self.changes_when_lower, self.changes_when_upper) {
            (false, false) => CharCaseChanges::Never,
            (false, true) => CharCaseChanges::UpperOnly,
            (true, false) => CharCaseChanges::LowerOnly,
            (true, true) => CharCaseChanges::Always,
        }
    }

    /// True if one of the two codepoints changes only under uppercasing and
    /// the other only under lowercasing.
    pub fn alternates_with(&self, o: &Self) -> (r: bool)
        ensures
            r == alternates_spec(self.behavior(), o.behavior()),
    {
        self.case_enum().alternates_with(o.case_enum())
    }
}

} // verus!
