use vstd::prelude::*;

verus! {

/// Where a table stands in the life of one hand.
///
/// The chain is `WaitingForPlayers -> PreFlop -> Flop -> Turn -> River ->
/// Showdown -> HandComplete`, and from `HandComplete` back to `PreFlop` when
/// the next hand is dealt.  `Showdown` is passed through while a betting
/// round that closed on the river is resolved; a table at rest is never in
/// it.
#[derive(Clone, Copy, Debug, PartialEq, Eq, Structural)]
pub enum Stage {
    WaitingForPlayers,
    PreFlop,
    Flop,
    Turn,
    River,
    Showdown,
    HandComplete,
}

/// Whether a betting round can be open at this stage.
pub open spec fn betting_open(s: Stage) -> bool {
    s == Stage::PreFlop || s == Stage::Flop || s == Stage::Turn || s == Stage::River
}

/// Whether a hand's cards are dealt and the pot is still contested.
pub open spec fn hand_live(s: Stage) -> bool {
    betting_open(s) || s == Stage::Showdown
}

/// How many community cards are revealed at this stage of a hand that is
/// still running.  (A hand that ends early by folding keeps only the cards
/// revealed so far.)
pub open spec fn reveal_count(s: Stage) -> int {
    match s {
        Stage::WaitingForPlayers => 0,
        Stage::PreFlop => 0,
        Stage::Flop => 3,
        Stage::Turn => 4,
        Stage::River => 5,
        Stage::Showdown => 5,
        Stage::HandComplete => 5,
    }
}

impl Stage {
    /// Spec mirror of [`Stage::no_more_action`].
    pub open spec fn spec_no_more_action(self) -> bool {
        !betting_open(self)
    }

    /// True when the stage has no open betting round, so every betting
    /// action must be rejected with `HandNotInProgress`.
    pub fn no_more_action(&self) -> (r: bool)
        ensures
            r == self.spec_no_more_action(),
    {
        match self {
            Stage::WaitingForPlayers => true,
            Stage::Showdown => true,
            Stage::HandComplete => true,
            _ => false,
        }
    }

    /// Spec mirror of [`Stage::next_round`].
    pub open spec fn spec_next_round(self) -> Stage {
        match self {
            Stage::PreFlop => Stage::Flop,
            Stage::Flop => Stage::Turn,
            Stage::Turn => Stage::River,
            Stage::River => Stage::Showdown,
            Stage::Showdown => Stage::HandComplete,
            Stage::WaitingForPlayers => Stage::PreFlop,
            Stage::HandComplete => Stage::PreFlop,
        }
    }

    /// True while a hand's cards are dealt and the pot is still contested.
    pub fn is_hand_live(&self) -> (r: bool)
        ensures
            r == hand_live(*self),
    {
        match self {
            Stage::PreFlop => true,
            Stage::Flop => true,
            Stage::Turn => true,
            Stage::River => true,
            Stage::Showdown => true,
            _ => false,
        }
    }

    /// The stage that follows this one in the hand's life: each street to the
    /// next, the river into the showdown, and a finished (or not yet started)
    /// table into the pre-flop of its next hand.
    pub fn next_round(&self) -> (r: Stage)
        ensures
            r == self.spec_next_round(),
    {
        match self {
            Stage::PreFlop => Stage::Flop,
            Stage::Flop => Stage::Turn,
            Stage::Turn => Stage::River,
            Stage::River => Stage::Showdown,
            Stage::Showdown => Stage::HandComplete,
            Stage::WaitingForPlayers => Stage::PreFlop,
            Stage::HandComplete => Stage::PreFlop,
        }
    }

    /// How many community cards this stage reveals.
    pub fn reveal_target(&self) -> (r: usize)
        ensures
            r == reveal_count(*self),
    {
        match self {
            Stage::WaitingForPlayers => 0,
            Stage::PreFlop => 0,
            Stage::Flop => 3,
            Stage::Turn => 4,
            Stage::River => 5,
            Stage::Showdown => 5,
            Stage::HandComplete => 5,
        }
    }

    /// How far the stage still is from `HandComplete`; the measure that shows
    /// the stage machine terminates.
    pub open spec fn distance_to_complete(self) -> int {
        match self {
            Stage::WaitingForPlayers => 7,
            Stage::PreFlop => 5,
            Stage::Flop => 4,
            Stage::Turn => 3,
            Stage::River => 2,
            Stage::Showdown => 1,
            Stage::HandComplete => 0,
        }
    }
}

} // verus!
