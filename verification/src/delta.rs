//! The change that is asked for one mark, and what it does to a letter.

use vstd::prelude::*;

verus! {

/// The letter `c` with an ASCII lower-case letter replaced by its upper-case
/// form; every other character is left as it is.
pub open spec fn upper(c: char) -> char {
    if 'a' <= c && c <= 'z' {
        ((c as u32) - 32) as char
    } else {
        c
    }
}

/// The letter `c` with an ASCII upper-case letter replaced by its lower-case
/// form; every other character is left as it is.
pub open spec fn lower(c: char) -> char {
    if 'A' <= c && c <= 'Z' {
        ((c as u32) + 32) as char
    } else {
        c
    }
}

/// Std's `char::to_ascii_uppercase`: as documented, the ASCII letters `a` to
/// `z` become `A` to `Z` and every other character is returned unchanged.
pub assume_specification[ char::to_ascii_uppercase ](c: &char) -> (r: char)
    ensures
        r == upper(*c),
;

/// Std's `char::to_ascii_lowercase`: as documented, the ASCII letters `A` to
/// `Z` become `a` to `z` and every other character is returned unchanged.
pub assume_specification[ char::to_ascii_lowercase ](c: &char) -> (r: char)
    ensures
        r == lower(*c),
;

/// What is asked for one mark.
#[derive(Debug, Copy, Clone, PartialEq, Eq, Structural)]
pub enum Delta {
    /// Switch the mark on.
    Enable,
    /// Switch the mark off.
    Disable,
    /// Leave the mark as it is.
    Keep,
}

impl Delta {
    /// The letter that this change makes of `c`.
    pub open spec fn applied(self, c: char) -> char {
        match self {
            Delta::Enable => upper(c),
            Delta::Disable => lower(c),
            Delta::Keep => c,
        }
    }

    /// The change that a pair of requests stands for: enabling wins over
    /// disabling, and with neither request the mark is kept.
    pub open spec fn requested(enable: bool, disable: bool) -> Delta {
        if enable {
            Delta::Enable
        } else if disable {
            Delta::Disable
        } else {
            Delta::Keep
        }
    }

    /// Builds the change from the two requests for one mark.
    pub fn new(enable: bool, disable: bool) -> (d: Self)
        ensures
            d == Self::requested(enable, disable),
    {
        match (enable, disable) {
            (true, _) => Delta::Enable,
            (_, true) => Delta::Disable,
            _ => Delta::Keep,
        }
    }

    /// Applies the change to one letter.
    pub fn apply(self, c: char) -> (r: char)
        ensures
            r == self.applied(c),
    {
        match self {
            Delta::Enable => c.to_ascii_uppercase(),
            Delta::Disable => c.to_ascii_lowercase(),
            Delta::Keep => c,
        }
    }
}

} // verus!
