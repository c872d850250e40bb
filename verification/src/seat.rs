use vstd::prelude::*;

verus! {

/// One occupied position at the table.
///
/// `identity` is the opaque player handle the host resolved for this seat;
/// it is never shared by two seats.  `secret` is the seat's contribution to
/// the shared shuffle seed; it is kept so that the seat can later prove
/// ownership of its hole cards, and it is never written to any
/// externally-visible view of the table.
#[derive(Clone, Copy, Debug, PartialEq, Eq)]
pub struct Seat {
    /// Opaque player handle, resolved by the host.
    pub identity: u64,
    /// Chips available to bet.  Owned exclusively by this seat.
    pub wallet: u64,
    /// Chips already put towards the current bet on this street.
    pub committed_this_round: u64,
    /// Still contesting the pot of the running hand.
    pub in_hand: bool,
    /// The wallet hit zero mid-hand while the seat was still contesting.
    pub is_all_in: bool,
    /// The seat has acted since the street began (or since the last raise).
    pub acted_this_round: bool,
    /// The two private cards dealt to this seat, as deck card ids below 52.
    pub hole_cards: Option<(u8, u8)>,
    /// The seat's secret contribution to the shuffle seed.
    pub secret: u64,
}

impl Seat {
    /// A freshly joined seat: the deposit in the wallet, sitting out until
    /// the next hand is dealt.
    pub open spec fn spec_join(identity: u64, secret: u64, deposit: u64) -> Seat {
        Seat {
            identity,
            wallet: deposit,
            committed_this_round: 0,
            in_hand: false,
            is_all_in: false,
            acted_this_round: false,
            hole_cards: None,
            secret,
        }
    }

    /// Create the seat a successful `Join` installs.
    pub fn join(identity: u64, secret: u64, deposit: u64) -> (r: Seat)
        ensures
            r == Seat::spec_join(identity, secret, deposit),
    {
        Seat {
            identity,
            wallet: deposit,
            committed_this_round: 0,
            in_hand: false,
            is_all_in: false,
            acted_this_round: false,
            hole_cards: None,
            secret,
        }
    }
}

} // verus!
