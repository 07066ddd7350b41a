//! The verb half of a path's structure-of-arrays storage.
//!
//! A path is stored as a run of verbs beside a run of points; each verb
//! consumes a fixed number of points, so walking the verbs with a cursor
//! finds every element's points without any per-element bookkeeping.
use vstd::prelude::*;

verus! {

/// One path verb.
#[derive(Debug, Clone, Copy, PartialEq, Eq, Hash, Structural)]
pub enum PathVerb {
    MoveTo,
    LineTo,
    QuadTo,
    CurveTo,
    ClosePath,
}

/// How many points `verb` consumes from the point array.
pub open spec fn verb_points(verb: PathVerb) -> nat {
    match verb {
        PathVerb::MoveTo | PathVerb::LineTo => 1,
        PathVerb::QuadTo => 2,
        PathVerb::CurveTo => 3,
        PathVerb::ClosePath => 0,
    }
}

/// The byte that stores `verb` in a path's verb array.
pub open spec fn verb_code(verb: PathVerb) -> u8 {
    match verb {
        PathVerb::MoveTo => 0,
        PathVerb::LineTo => 1,
        PathVerb::QuadTo => 2,
        PathVerb::CurveTo => 3,
        PathVerb::ClosePath => 4,
    }
}

/// The verb a stored byte names, if it names one.
pub open spec fn verb_named(byte: u8) -> Option<PathVerb> {
    if byte == 0 {
        Some(PathVerb::MoveTo)
    } else if byte == 1 {
        Some(PathVerb::LineTo)
    } else if byte == 2 {
        Some(PathVerb::QuadTo)
    } else if byte == 3 {
        Some(PathVerb::CurveTo)
    } else if byte == 4 {
        Some(PathVerb::ClosePath)
    } else {
        None
    }
}

/// Every verb reads back from the byte it is stored as, and a byte names a
/// verb only if that verb is stored as it.
pub proof fn lemma_verb_code_round_trip(verb: PathVerb, byte: u8)
    ensures
        verb_named(verb_code(verb)) == Some(verb),
        verb_named(byte) == Some(verb) ==> verb_code(verb) == byte,
{
}

impl PathVerb {
    /// How many points this verb consumes from the point array.
    pub fn point_count(self) -> (count: usize)
        ensures
            count == verb_points(self),
    {
        match self {
            PathVerb::MoveTo | PathVerb::LineTo => 1,
            PathVerb::QuadTo => 2,
            PathVerb::CurveTo => 3,
            PathVerb::ClosePath => 0,
        }
    }

    /// The byte this verb is stored as.
    pub fn to_u8(self) -> (byte: u8)
        ensures
            byte == verb_code(self),
    {
        match self {
            PathVerb::MoveTo => 0,
            PathVerb::LineTo => 1,
            PathVerb::QuadTo => 2,
            PathVerb::CurveTo => 3,
            PathVerb::ClosePath => 4,
        }
    }

    /// The verb a stored byte names, or `None` for a byte that names none.
    pub fn from_u8(byte: u8) -> (verb: Option<PathVerb>)
        ensures
            verb == verb_named(byte),
    {
        match byte {
            0 => Some(PathVerb::MoveTo),
            1 => Some(PathVerb::LineTo),
            2 => Some(PathVerb::QuadTo),
            3 => Some(PathVerb::CurveTo),
            4 => Some(PathVerb::ClosePath),
            _ => None,
        }
    }
}

} // verus!
