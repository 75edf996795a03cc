//! Why a game is not taken into the sample.

use vstd::prelude::*;

verus! {

/// Discard reasons, in the order the filters are evaluated. Each rejected game is counted only
/// under the first filter it fails.
#[derive(Clone, Copy, PartialEq, Eq, Structural, Debug)]
pub enum Reject {
    Event,
    TimeControl,
    BannedTitle,
    RequiredTitle,
    InvalidHeaders,
    Delta,
    DifferentBrackets,
    OutOfRange,
    BracketFull,
    PlayerQuota,
    MinPlies,
}

pub const REJECT_COUNT: usize = 11;

impl Reject {
    /// The place of the filter among the filters.
    pub open spec fn rank(self) -> int {
        match self {
            Reject::Event => 0,
            Reject::TimeControl => 1,
            Reject::BannedTitle => 2,
            Reject::RequiredTitle => 3,
            Reject::InvalidHeaders => 4,
            Reject::Delta => 5,
            Reject::DifferentBrackets => 6,
            Reject::OutOfRange => 7,
            Reject::BracketFull => 8,
            Reject::PlayerQuota => 9,
            Reject::MinPlies => 10,
        }
    }

    /// The place of the filter among the filters.
    pub fn index(self) -> (r: usize)
        ensures
            r == self.rank(),
            r < REJECT_COUNT,
    {
        match self {
            Reject::Event => 0,
            Reject::TimeControl => 1,
            Reject::BannedTitle => 2,
            Reject::RequiredTitle => 3,
            Reject::InvalidHeaders => 4,
            Reject::Delta => 5,
            Reject::DifferentBrackets => 6,
            Reject::OutOfRange => 7,
            Reject::BracketFull => 8,
            Reject::PlayerQuota => 9,
            Reject::MinPlies => 10,
        }
    }
}

/// How the summary names the filters, in their order.
pub open spec fn labels() -> Seq<Seq<char>> {
    seq![
        "Event not accepted"@,
        "TimeControl not accepted"@,
        "Banned title (e.g. BOT)"@,
        "Required title missing"@,
        "Missing/invalid player or rating headers"@,
        "Rating difference > delta"@,
        "Players in different brackets"@,
        "Bracket below start"@,
        "Bracket already full"@,
        "Player quota exhausted"@,
        "Too few plies"@,
    ]
}

/// How the summary names filter number `i`.
pub fn label(i: usize) -> (r: &'static str)
    requires
        i < REJECT_COUNT,
    ensures
        r@ == labels()[i as int],
{
    if i == 0 {
        "Event not accepted"
    } else if i == 1 {
        "TimeControl not accepted"
    } else if i == 2 {
        "Banned title (e.g. BOT)"
    } else if i == 3 {
        "Required title missing"
    } else if i == 4 {
        "Missing/invalid player or rating headers"
    } else if i == 5 {
        "Rating difference > delta"
    } else if i == 6 {
        "Players in different brackets"
    } else if i == 7 {
        "Bracket below start"
    } else if i == 8 {
        "Bracket already full"
    } else if i == 9 {
        "Player quota exhausted"
    } else {
        "Too few plies"
    }
}

/// Each filter is named by its own label, and there is no label besides.
pub proof fn labels_name_their_filters()
    ensures
        labels().len() == REJECT_COUNT,
        labels()[Reject::Event.rank()] == "Event not accepted"@,
        labels()[Reject::TimeControl.rank()] == "TimeControl not accepted"@,
        labels()[Reject::BannedTitle.rank()] == "Banned title (e.g. BOT)"@,
        labels()[Reject::RequiredTitle.rank()] == "Required title missing"@,
        labels()[Reject::InvalidHeaders.rank()] == "Missing/invalid player or rating headers"@,
        labels()[Reject::Delta.rank()] == "Rating difference > delta"@,
        labels()[Reject::DifferentBrackets.rank()] == "Players in different brackets"@,
        labels()[Reject::OutOfRange.rank()] == "Bracket below start"@,
        labels()[Reject::BracketFull.rank()] == "Bracket already full"@,
        labels()[Reject::PlayerQuota.rank()] == "Player quota exhausted"@,
        labels()[Reject::MinPlies.rank()] == "Too few plies"@,
{
}

} // verus!
