//! Which mate of a pair a record is.

use vstd::prelude::*;
use crate::record::Flags;

verus! {

/// The position of a record inside its pair: mate 1 or mate 2.
#[derive(Clone, Copy, Debug, PartialEq, Eq, Structural, Hash)]
pub enum PairPosition {
    First,
    Second,
}

impl PairPosition {
    /// The other mate's position.
    pub open spec fn spec_mate(self) -> PairPosition {
        match self {
            PairPosition::First => PairPosition::Second,
            PairPosition::Second => PairPosition::First,
        }
    }

    /// Which mate a record's flags claim it to be: exactly one of the two
    /// mate bits must be set, else the record is unclassifiable.
    pub open spec fn spec_from_flags(flags: Flags) -> Option<PairPosition> {
        if flags.spec_is_read_1() && !flags.spec_is_read_2() {
            Some(PairPosition::First)
        } else if flags.spec_is_read_2() && !flags.spec_is_read_1() {
            Some(PairPosition::Second)
        } else {
            None
        }
    }

    pub fn mate(self) -> (r: PairPosition)
        ensures
            r == self.spec_mate(),
    {
        match self {
            PairPosition::First => PairPosition::Second,
            PairPosition::Second => PairPosition::First,
        }
    }

    pub fn from_flags(flags: Flags) -> (r: Option<PairPosition>)
        ensures
            r == PairPosition::spec_from_flags(flags),
    {
        let read_1 = flags.is_read_1();
        let read_2 = flags.is_read_2();
        if read_1 && !read_2 {
            Some(PairPosition::First)
        } else if read_2 && !read_1 {
            Some(PairPosition::Second)
        } else {
            None
        }
    }
}

/// Taking the mate of a mate gives the position back: `mate` is an
/// involution.
pub proof fn lemma_mate_involution(p: PairPosition)
    ensures
        p.spec_mate().spec_mate() == p,
{
}

} // verus!
