//! The outcome of a single event between two competitors, and the record
//! that collects those outcomes over a series of events.

use vstd::prelude::*;

verus! {

/// The score slot of a competitor who did not take part in an event.
pub const ABSENT: i32 = -1;

/// What one event contributes to a head-to-head record, seen from one side.
#[derive(Clone, Copy, Debug, PartialEq, Eq, Structural)]
pub enum Outcome {
    /// At least one of the two did not take part.
    Skipped,
    /// This side scored higher.
    Win,
    /// Both scored the same.
    Tie,
    /// The other side scored higher.
    Loss,
}

impl Outcome {
    /// The same event seen from the other side.
    pub open spec fn reversed(self) -> Outcome {
        match self {
            Outcome::Win => Outcome::Loss,
            Outcome::Loss => Outcome::Win,
            Outcome::Tie => Outcome::Tie,
            Outcome::Skipped => Outcome::Skipped,
        }
    }
}

/// The outcome of one event for the side that scored `own` against a side
/// that scored `other`.
pub open spec fn outcome_of(own: i32, other: i32) -> Outcome {
    if own == ABSENT || other == ABSENT {
        Outcome::Skipped
    } else if own > other {
        Outcome::Win
    } else if own < other {
        Outcome::Loss
    } else {
        Outcome::Tie
    }
}

/// Decides one event.
pub fn judge(own: i32, other: i32) -> (outcome: Outcome)
    ensures
        outcome == outcome_of(own, other),
{
    if own == ABSENT || other == ABSENT {
        Outcome::Skipped
    } else if own > other {
        Outcome::Win
    } else if own < other {
        Outcome::Loss
    } else {
        Outcome::Tie
    }
}

/// The number of events both histories cover.
pub open spec fn shared_events(own: Seq<i32>, other: Seq<i32>) -> nat {
    if own.len() <= other.len() {
        own.len()
    } else {
        other.len()
    }
}

/// How many of the first `upto` events ended in `which` for the side whose
/// scores are `own`.
pub open spec fn count_outcomes(own: Seq<i32>, other: Seq<i32>, which: Outcome, upto: int) -> nat
    decreases upto,
{
    if upto <= 0 {
        0
    } else {
        let earlier = count_outcomes(own, other, which, upto - 1);
        if outcome_of(own[upto - 1], other[upto - 1]) == which {
            earlier + 1
        } else {
            earlier
        }
    }
}

/// A head-to-head record: events won, tied and lost by one side.
///
/// A win is worth a full point to the winner's win weight and to the loser's
/// loss weight; a tie is worth half a point to both weights of both sides.
/// To stay in whole numbers the weights are given doubled.
#[derive(Clone, Copy, Debug, PartialEq, Eq, Structural)]
pub struct Tally {
    pub wins: usize,
    pub ties: usize,
    pub losses: usize,
}

impl Tally {
    /// Twice the win weight.
    pub open spec fn doubled_win_weight(self) -> nat {
        (2 * self.wins + self.ties) as nat
    }

    /// Twice the loss weight.
    pub open spec fn doubled_loss_weight(self) -> nat {
        (2 * self.losses + self.ties) as nat
    }

    /// The record of two sides that never met.
    pub fn neutral() -> (tally: Tally)
        ensures
            tally == (Tally { wins: 0, ties: 0, losses: 0 }),
    {
        Tally { wins: 0, ties: 0, losses: 0 }
    }

    /// The same record seen from the other side.
    pub fn swap(self) -> (swapped: Tally)
        ensures
            swapped == (Tally { wins: self.losses, ties: self.ties, losses: self.wins }),
            swapped.doubled_win_weight() == self.doubled_loss_weight(),
            swapped.doubled_loss_weight() == self.doubled_win_weight(),
    {
        Tally { wins: self.losses, ties: self.ties, losses: self.wins }
    }

    /// Whether this side has any win weight at all.
    pub fn has_win_weight(&self) -> (some: bool)
        ensures
            some == (self.doubled_win_weight() > 0),
    {
        self.wins > 0 || self.ties > 0
    }

    /// Whether this side has any loss weight at all.
    pub fn has_loss_weight(&self) -> (some: bool)
        ensures
            some == (self.doubled_loss_weight() > 0),
    {
        self.losses > 0 || self.ties > 0
    }
}

/// Seen from the other side, every win is a loss and every loss a win.
pub proof fn lemma_count_reversed(own: Seq<i32>, other: Seq<i32>, which: Outcome, upto: int)
    ensures
        count_outcomes(other, own, which.reversed(), upto) == count_outcomes(own, other, which, upto),
    decreases upto,
{
    if upto > 0 {
        lemma_count_reversed(own, other, which, upto - 1);
    }
}

/// No more events are counted than were looked at.
pub proof fn lemma_count_bounded(own: Seq<i32>, other: Seq<i32>, which: Outcome, upto: int)
    requires
        0 <= upto,
    ensures
        count_outcomes(own, other, which, upto) <= upto,
    decreases upto,
{
    if upto > 0 {
        lemma_count_bounded(own, other, which, upto - 1);
    }
}

} // verus!
