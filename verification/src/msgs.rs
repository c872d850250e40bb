use vstd::prelude::*;

use crate::betting::{call_post, check_post, fold_post, raise_post};
use crate::dealing::start_hand_post;
use crate::errors::Error;
use crate::seat::Seat;
use crate::table::{join_post, top_up_post, withdraw_post, Table, BIG_BLIND_LIMIT, NUM_SEATS};

verus! {

/// Configuration of a fresh table.
#[derive(Clone, Copy, Debug, PartialEq, Eq)]
pub struct InitMsg {
    /// The big-blind unit every buy-in bound is derived from.
    pub big_blind: u64,
}

/// One operation submitted to the engine, already authenticated and
/// serialized by the host.
#[derive(Clone, Copy, Debug, PartialEq, Eq)]
pub enum HandleMsg {
    /// Take the given free seat with a deposit and a shuffle-seed secret.
    Join { seat_index: usize, secret: u64, funds: u64 },
    /// Add chips to the caller's wallet.
    TopUp { funds: u64 },
    /// Leave the table and collect the wallet.
    Withdraw,
    /// Lift the outstanding bet by `amount` after paying the call.
    Raise { amount: u64 },
    /// Match the outstanding bet.
    Call,
    /// Pass without betting.
    Check,
    /// Leave the running hand.
    Fold,
    /// Deal the next hand.  Dealing is always explicit: joining never
    /// starts a hand by itself.
    StartHand,
}

/// A read-only question about the table.
#[derive(Clone, Copy, Debug, PartialEq, Eq)]
pub enum QueryMsg {
    /// The caller's hole cards, proven by the secret it contributed.
    GetMyHand { secret: u64 },
    /// The table as everyone may see it.
    GetPublicState,
}

/// An instruction for the host's funds-transfer sink.
#[derive(Clone, Copy, Debug, PartialEq, Eq)]
pub struct Payout {
    /// Whom to pay.
    pub identity: u64,
    /// How many chips to pay out.
    pub amount: u64,
}

/// What a query returns.
#[derive(Debug, PartialEq, Eq)]
pub enum QueryAnswer {
    /// The two hole cards of the proving caller.
    MyHand { cards: (u8, u8) },
    /// A copy of the table with every private field blanked.
    PublicState { table: Table },
}

/// A `handle` result with the payout stripped, for reusing the operations'
/// contracts.
pub open spec fn as_unit(r: Result<Option<Payout>, Error>) -> Result<(), Error> {
    match r {
        Ok(_) => Ok(()),
        Err(e) => Err(e),
    }
}

/// Create the table a fresh contract owns: empty seats, waiting for
/// players.
pub fn init(msg: InitMsg) -> (r: Table)
    requires
        1 <= msg.big_blind <= BIG_BLIND_LIMIT,
    ensures
        r.wf(),
        r.big_blind == msg.big_blind,
        r.hand_number == 0,
        r.stage == crate::stage::Stage::WaitingForPlayers,
        r.seats@.len() == NUM_SEATS,
        forall|i: int| 0 <= i < NUM_SEATS ==> r.seats@[i] is None,
        r.pot == 0,
        r.total_chips() == 0,
{
    Table::new(msg.big_blind)
}

/// Dispatch one authenticated operation against the table.  Exactly the
/// named operation's contract applies; a `Withdraw` alone yields a payout
/// instruction.
pub fn handle(table: &mut Table, sender: u64, msg: HandleMsg) -> (r: Result<
    Option<Payout>,
    Error,
>)
    requires
        old(table).wf(),
        old(table).hand_number < u64::MAX,
    ensures
        final(table).wf(),
        r is Err ==> *final(table) == *old(table),
        (msg matches HandleMsg::Raise { .. } || msg matches HandleMsg::Call || msg
            matches HandleMsg::Check || msg matches HandleMsg::Fold || msg
            matches HandleMsg::StartHand) ==> final(table).total_chips() == old(
            table,
        ).total_chips(),
        match msg {
            HandleMsg::Join { seat_index, secret, funds } => join_post(
                *old(table),
                *final(table),
                sender,
                seat_index,
                secret,
                funds,
                as_unit(r),
            ) && (r matches Ok(p) ==> p is None),
            HandleMsg::TopUp { funds } => top_up_post(
                *old(table),
                *final(table),
                sender,
                funds,
                as_unit(r),
            ) && (r matches Ok(p) ==> p is None),
            HandleMsg::Withdraw => match r {
                Ok(p) => p matches Some(pay) && pay.identity == sender && withdraw_post(
                    *old(table),
                    *final(table),
                    sender,
                    Ok(pay.amount),
                ),
                Err(e) => withdraw_post(*old(table), *final(table), sender, Err(e)),
            },
            HandleMsg::Raise { amount } => raise_post(
                *old(table),
                *final(table),
                sender,
                amount,
                as_unit(r),
            ) && (r matches Ok(p) ==> p is None),
            HandleMsg::Call => call_post(*old(table), *final(table), sender, as_unit(r)) && (
            r matches Ok(p) ==> p is None),
            HandleMsg::Check => check_post(*old(table), *final(table), sender, as_unit(r)) && (
            r matches Ok(p) ==> p is None),
            HandleMsg::Fold => fold_post(*old(table), *final(table), sender, as_unit(r)) && (
            r matches Ok(p) ==> p is None),
            HandleMsg::StartHand => start_hand_post(*old(table), *final(table), as_unit(r)) && (
            r matches Ok(p) ==> p is None),
        },
{
    match msg {
        HandleMsg::Join { seat_index, secret, funds } => {
            match table.join(sender, seat_index, secret, funds) {
                Ok(()) => Ok(None),
                Err(e) => Err(e),
            }
        },
        HandleMsg::TopUp { funds } => {
            match table.top_up(sender, funds) {
                Ok(()) => Ok(None),
                Err(e) => Err(e),
            }
        },
        HandleMsg::Withdraw => {
            match table.withdraw(sender) {
                Ok(amount) => Ok(Some(Payout { identity: sender, amount })),
                Err(e) => Err(e),
            }
        },
        HandleMsg::Raise { amount } => {
            match table.raise(sender, amount) {
                Ok(()) => Ok(None),
                Err(e) => Err(e),
            }
        },
        HandleMsg::Call => {
            match table.call(sender) {
                Ok(()) => Ok(None),
                Err(e) => Err(e),
            }
        },
        HandleMsg::Check => {
            match table.check(sender) {
                Ok(()) => Ok(None),
                Err(e) => Err(e),
            }
        },
        HandleMsg::Fold => {
            match table.fold(sender) {
                Ok(()) => Ok(None),
                Err(e) => Err(e),
            }
        },
        HandleMsg::StartHand => {
            match table.start_hand() {
                Ok(()) => Ok(None),
                Err(e) => Err(e),
            }
        },
    }
}

// ---------------------------------------------------------------------------
// Queries
// ---------------------------------------------------------------------------

/// A seat as the public may see it: the secret and the hole cards blanked.
pub open spec fn scrub_slot(s: Option<Seat>) -> Option<Seat> {
    match s {
        Some(x) => Some(Seat { secret: 0, hole_cards: None, ..x }),
        None => None,
    }
}

/// The lowest seat whose stored secret matches, scanning every seat.
pub open spec fn secret_match_from(t: Table, secret: u64, i: int) -> Option<int>
    decreases 9 - i,
{
    if i < 0 || i >= 9 {
        None
    } else if t.occupied(i) && t.seat_at(i).secret == secret {
        Some(i)
    } else {
        secret_match_from(t, secret, i + 1)
    }
}

impl Table {
    /// The table with every private field blanked: seat secrets and hole
    /// cards zeroed, the pre-dealt board and the seed material omitted, and
    /// only the community cards already revealed by the stage kept.
    pub fn get_public_state(&self) -> (r: Table)
        requires
            self.seats@.len() == NUM_SEATS,
        ensures
            r.seats@.len() == NUM_SEATS,
            forall|i: int|
                0 <= i < NUM_SEATS ==> #[trigger] r.seats@[i] == scrub_slot(self.seats@[i]),
            r.board@.len() == 0,
            r.combined_secret_material@.len() == 0,
            r.community_cards@ == self.community_cards@,
            r.hand_number == self.hand_number,
            r.button == self.button,
            r.to_act == self.to_act,
            r.stage == self.stage,
            r.current_bet == self.current_bet,
            r.pot == self.pot,
            r.big_blind == self.big_blind,
    {
        let mut seats: Vec<Option<Seat>> = Vec::new();
        let mut i: usize = 0;
        while i < NUM_SEATS
            invariant
                self.seats@.len() == NUM_SEATS,
                i <= NUM_SEATS,
                seats@.len() == i,
                forall|j: int| 0 <= j < i ==> #[trigger] seats@[j] == scrub_slot(self.seats@[j]),
            decreases NUM_SEATS - i,
        {
            let slot = match &self.seats[i] {
                Some(s) => Some(Seat { secret: 0, hole_cards: None, ..*s }),
                None => None,
            };
            seats.push(slot);
            i += 1;
        }
        let mut community: Vec<u8> = Vec::new();
        let mut j: usize = 0;
        let n = self.community_cards.len();
        while j < n
            invariant
                n == self.community_cards@.len(),
                j <= n,
                community@ == self.community_cards@.take(j as int),
            decreases n - j,
        {
            let card = self.community_cards[j];
            community.push(card);
            proof {
                assert(community@ =~= self.community_cards@.take(j as int + 1));
            }
            j += 1;
        }
        proof {
            assert(community@ =~= self.community_cards@);
        }
        Table {
            hand_number: self.hand_number,
            seats,
            button: self.button,
            to_act: self.to_act,
            stage: self.stage,
            community_cards: community,
            board: Vec::new(),
            combined_secret_material: Vec::new(),
            current_bet: self.current_bet,
            pot: self.pot,
            big_blind: self.big_blind,
        }
    }

    /// The caller's two hole cards, honored only when the given secret is
    /// exactly the one some seat contributed (checked against every seat).
    /// With no hand dealt to the matching seat, there is nothing to show.
    pub fn get_my_hand(&self, secret: u64) -> (r: Result<(u8, u8), Error>)
        requires
            self.seats@.len() == NUM_SEATS,
        ensures
            r == match secret_match_from(*self, secret, 0) {
                Some(i) => match self.seat_at(i).hole_cards {
                    Some(h) => Ok::<(u8, u8), Error>(h),
                    None => Err::<(u8, u8), Error>(Error::HandNotInProgress),
                },
                None => Err::<(u8, u8), Error>(Error::NotAPlayer),
            },
    {
        self.get_my_hand_from(secret, 0)
    }

    /// Scan seats from `i` upward for the matching secret.
    fn get_my_hand_from(&self, secret: u64, i: usize) -> (r: Result<(u8, u8), Error>)
        requires
            self.seats@.len() == NUM_SEATS,
        ensures
            r == match secret_match_from(*self, secret, i as int) {
                Some(j) => match self.seat_at(j).hole_cards {
                    Some(h) => Ok::<(u8, u8), Error>(h),
                    None => Err::<(u8, u8), Error>(Error::HandNotInProgress),
                },
                None => Err::<(u8, u8), Error>(Error::NotAPlayer),
            },
        decreases 9 - i,
    {
        if i >= 9 {
            return Err(Error::NotAPlayer);
        }
        let found = match &self.seats[i] {
            Some(s) => {
                if s.secret == secret {
                    Some(s.hole_cards)
                } else {
                    None
                }
            },
            None => None,
        };
        match found {
            Some(Some(h)) => Ok(h),
            Some(None) => Err(Error::HandNotInProgress),
            None => self.get_my_hand_from(secret, i + 1),
        }
    }
}

/// Answer one read-only question.  Queries never mutate the table.
pub fn query(table: &Table, msg: QueryMsg) -> (r: Result<QueryAnswer, Error>)
    requires
        table.seats@.len() == NUM_SEATS,
    ensures
        match msg {
            QueryMsg::GetMyHand { secret } => match secret_match_from(*table, secret, 0) {
                Some(i) => match table.seat_at(i).hole_cards {
                    Some(h) => r matches Ok(a) && a matches QueryAnswer::MyHand { cards }
                        && cards == h,
                    None => r == Err::<QueryAnswer, Error>(Error::HandNotInProgress),
                },
                None => r == Err::<QueryAnswer, Error>(Error::NotAPlayer),
            },
            QueryMsg::GetPublicState => r matches Ok(a) && a matches QueryAnswer::PublicState {
                table: t,
            } && {
                &&& t.seats@.len() == NUM_SEATS
                &&& forall|i: int|
                    0 <= i < NUM_SEATS ==> #[trigger] t.seats@[i] == scrub_slot(table.seats@[i])
                &&& t.board@.len() == 0
                &&& t.combined_secret_material@.len() == 0
                &&& t.community_cards@ == table.community_cards@
                &&& t.stage == table.stage
                &&& t.pot == table.pot
            },
        },
{
    match msg {
        QueryMsg::GetMyHand { secret } => {
            match table.get_my_hand(secret) {
                Ok(h) => Ok(QueryAnswer::MyHand { cards: h }),
                Err(e) => Err(e),
            }
        },
        QueryMsg::GetPublicState => {
            Ok(QueryAnswer::PublicState { table: table.get_public_state() })
        },
    }
}

} // verus!
