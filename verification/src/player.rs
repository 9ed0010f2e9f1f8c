//! A competitor, and the head-to-head record of one competitor against
//! another.

use vstd::prelude::*;
use crate::tally::{count_outcomes, judge, lemma_count_bounded, lemma_count_reversed, outcome_of,
    shared_events, Outcome, Tally, ABSENT};

verus! {

/// A competitor: an identity and one score slot per event, in event order.
pub struct Player {
    pub username: String,
    coin_history: Vec<i32>,
}

/// What the model knows of a competitor.
pub struct PlayerView {
    pub username: Seq<char>,
    pub history: Seq<i32>,
}

impl PlayerView {
    /// Two records with one name are one competitor.
    pub open spec fn same_identity(self, opponent: PlayerView) -> bool {
        self.username == opponent.username
    }

    /// The number of shared events that ended in `which` for this side. A
    /// competitor has no events against itself.
    pub open spec fn events_ending(self, opponent: PlayerView, which: Outcome) -> nat {
        if self.same_identity(opponent) {
            0
        } else {
            count_outcomes(
                self.history,
                opponent.history,
                which,
                shared_events(self.history, opponent.history) as int,
            )
        }
    }

    /// Twice the win weight of this side against `opponent`: two for each
    /// event won, one for each event tied.
    pub open spec fn doubled_win_weight(self, opponent: PlayerView) -> nat {
        2 * self.events_ending(opponent, Outcome::Win) + self.events_ending(opponent, Outcome::Tie)
    }

    /// Twice the loss weight of this side against `opponent`.
    pub open spec fn doubled_loss_weight(self, opponent: PlayerView) -> nat {
        2 * self.events_ending(opponent, Outcome::Loss) + self.events_ending(
            opponent,
            Outcome::Tie,
        )
    }

    /// Some slot holds a positive score.
    pub open spec fn played(self) -> bool {
        exists|event: int| 0 <= event < self.history.len() && #[trigger] self.history[event] > 0
    }

    /// In every event that both took part in, both scored the same.
    pub open spec fn level_with(self, opponent: PlayerView) -> bool {
        forall|event: int|
            0 <= event < shared_events(self.history, opponent.history) && self.history[event]
                != ABSENT && opponent.history[event] != ABSENT ==> self.history[event]
                == opponent.history[event]
    }
}

/// The competitors of a field as the model sees them.
pub open spec fn views_of(players: Seq<Player>) -> Seq<PlayerView> {
    Seq::new(players.len(), |position: int| players[position]@)
}

impl View for Player {
    type V = PlayerView;

    closed spec fn view(&self) -> PlayerView {
        PlayerView { username: self.username@, history: self.coin_history@ }
    }
}

impl Player {
    /// A competitor with the given identity and score slots.
    pub fn new(username: String, coin_history: Vec<i32>) -> (player: Player)
        ensures
            player@.username == username@,
            player@.history == coin_history@,
    {
        Player { username, coin_history }
    }

    /// The identity.
    pub fn name(&self) -> (name: &str)
        ensures
            name@ == self@.username,
    {
        self.username.as_str()
    }

    /// The number of score slots.
    pub fn events(&self) -> (count: usize)
        ensures
            count == self@.history.len(),
    {
        self.coin_history.len()
    }

    /// The score in one event, or the absence marker.
    pub fn get_coins_at(&self, mcc_index: usize) -> (coins: i32)
        requires
            mcc_index < self@.history.len(),
        ensures
            coins == self@.history[mcc_index as int],
    {
        self.coin_history[mcc_index]
    }

    /// Whether any slot holds a positive score.
    pub fn has_played(&self) -> (played: bool)
        ensures
            played == self@.played(),
    {
        let mut event: usize = 0;
        while event < self.coin_history.len()
            invariant
                event <= self.coin_history.len(),
                forall|earlier: int| 0 <= earlier < event ==> !(#[trigger] self@.history[earlier] > 0),
            decreases self.coin_history.len() - event,
        {
            if self.coin_history[event] > 0 {
                assert(self@.history[event as int] > 0);
                return true;
            }
            event += 1;
        }
        false
    }

    /// The head-to-head record of this competitor against `opponent`, over
    /// the events both histories cover.
    pub fn get_score_against(&self, opponent: &Player) -> (score: Tally)
        ensures
            score.wins == self@.events_ending(opponent@, Outcome::Win),
            score.ties == self@.events_ending(opponent@, Outcome::Tie),
            score.losses == self@.events_ending(opponent@, Outcome::Loss),
            score.doubled_win_weight() == self@.doubled_win_weight(opponent@),
            score.doubled_loss_weight() == self@.doubled_loss_weight(opponent@),
            self@.same_identity(opponent@) ==> score == (Tally { wins: 0, ties: 0, losses: 0 }),
    {
        let mut score = Tally::neutral();
        if self.username == opponent.username {
            return score;
        }
        let shared: usize = if self.events() <= opponent.events() {
            self.events()
        } else {
            opponent.events()
        };
        let mut event: usize = 0;
        while event < shared
            invariant
                event <= shared,
                shared == shared_events(self@.history, opponent@.history),
                score.wins == count_outcomes(
                    self@.history,
                    opponent@.history,
                    Outcome::Win,
                    event as int,
                ),
                score.ties == count_outcomes(
                    self@.history,
                    opponent@.history,
                    Outcome::Tie,
                    event as int,
                ),
                score.losses == count_outcomes(
                    self@.history,
                    opponent@.history,
                    Outcome::Loss,
                    event as int,
                ),
            decreases shared - event,
        {
            proof {
                lemma_count_bounded(self@.history, opponent@.history, Outcome::Win, event as int);
                lemma_count_bounded(self@.history, opponent@.history, Outcome::Tie, event as int);
                lemma_count_bounded(self@.history, opponent@.history, Outcome::Loss, event as int);
            }
            match judge(self.get_coins_at(event), opponent.get_coins_at(event)) {
                Outcome::Win => {
                    score.wins += 1;
                },
                Outcome::Tie => {
                    score.ties += 1;
                },
                Outcome::Loss => {
                    score.losses += 1;
                },
                Outcome::Skipped => {},
            }
            event += 1;
        }
        score
    }
}

/// The record of B against A is the record of A against B with wins and
/// losses exchanged, and so are the two weights.
pub proof fn lemma_score_symmetric(a: PlayerView, b: PlayerView)
    ensures
        b.events_ending(a, Outcome::Win) == a.events_ending(b, Outcome::Loss),
        b.events_ending(a, Outcome::Tie) == a.events_ending(b, Outcome::Tie),
        b.events_ending(a, Outcome::Loss) == a.events_ending(b, Outcome::Win),
        b.doubled_win_weight(a) == a.doubled_loss_weight(b),
        b.doubled_loss_weight(a) == a.doubled_win_weight(b),
{
    let shared = shared_events(a.history, b.history) as int;
    lemma_count_reversed(a.history, b.history, Outcome::Win, shared);
    lemma_count_reversed(a.history, b.history, Outcome::Tie, shared);
    lemma_count_reversed(a.history, b.history, Outcome::Loss, shared);
}

/// A competitor has no record against itself: no wins, no ties, no losses,
/// and so no weight on either side.
pub proof fn lemma_self_score_neutral(a: PlayerView)
    ensures
        forall|which: Outcome| a.events_ending(a, which) == 0,
        a.doubled_win_weight(a) == 0,
        a.doubled_loss_weight(a) == 0,
{
}

/// Two competitors who scored the same wherever they met have neither won
/// nor lost against each other, so their win and loss weights are equal.
pub proof fn lemma_level_scores_balance(a: PlayerView, b: PlayerView)
    requires
        a.level_with(b),
    ensures
        a.events_ending(b, Outcome::Win) == 0,
        a.events_ending(b, Outcome::Loss) == 0,
        a.doubled_win_weight(b) == a.doubled_loss_weight(b),
{
    let shared = shared_events(a.history, b.history) as int;
    lemma_level_prefix(a, b, shared);
}

proof fn lemma_level_prefix(a: PlayerView, b: PlayerView, upto: int)
    requires
        a.level_with(b),
        0 <= upto <= shared_events(a.history, b.history),
    ensures
        count_outcomes(a.history, b.history, Outcome::Win, upto) == 0,
        count_outcomes(a.history, b.history, Outcome::Loss, upto) == 0,
    decreases upto,
{
    if upto > 0 {
        lemma_level_prefix(a, b, upto - 1);
        assert(outcome_of(a.history[upto - 1], b.history[upto - 1]) != Outcome::Win);
        assert(outcome_of(a.history[upto - 1], b.history[upto - 1]) != Outcome::Loss);
    }
}

} // verus!
