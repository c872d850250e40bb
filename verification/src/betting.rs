use vstd::prelude::*;

use crate::errors::Error;
use crate::stage::{betting_open, Stage};
use crate::seat::Seat;
use crate::showdown::{close_round_post, fold_won};
use crate::table::{
    chips_of, in_hand_of, lemma_cards_ok_congruent, lemma_count_pos, lemma_count_unique,
    lemma_player_index_unique, lemma_seats_ok_congruent, lemma_slot_le_sum,
    lemma_sum_slots_update, slot_value, Table, NUM_SEATS,
};

verus! {

/// Seat `i` is contesting the hand and can still put chips in.
pub open spec fn active_at(t: Table, i: int) -> bool {
    t.occupied(i) && t.seat_at(i).in_hand && !t.seat_at(i).is_all_in
}

/// Seat `i` still owes a decision this street: it is active and either has
/// not acted since the street began (or since the last raise) or stands
/// below the outstanding bet.
pub open spec fn eligible_at(t: Table, i: int) -> bool {
    active_at(t, i) && (!t.seat_at(i).acted_this_round || t.seat_at(i).committed_this_round
        < t.current_bet)
}

/// The first active seat at cyclic offsets `off..=9` after `from`, scanning
/// in increasing position order.
pub open spec fn first_active_offset(t: Table, from: int, off: int) -> Option<int>
    decreases 10 - off,
{
    if off < 1 || off > 9 {
        None
    } else if active_at(t, (from + off) % 9) {
        Some((from + off) % 9)
    } else {
        first_active_offset(t, from, off + 1)
    }
}

/// The first eligible seat at cyclic offsets `off..=9` after `from`.
pub open spec fn first_eligible_offset(t: Table, from: int, off: int) -> Option<int>
    decreases 10 - off,
{
    if off < 1 || off > 9 {
        None
    } else if eligible_at(t, (from + off) % 9) {
        Some((from + off) % 9)
    } else {
        first_eligible_offset(t, from, off + 1)
    }
}

impl Table {
    /// The next active seat strictly after `from`, cyclically (with `from`
    /// itself considered last).
    pub(crate) fn next_active(&self, from: usize, off: usize) -> (r: Option<usize>)
        requires
            self.seats@.len() == NUM_SEATS,
            from < NUM_SEATS,
            1 <= off,
        ensures
            match r {
                Some(i) => Some(i as int) == first_active_offset(*self, from as int, off as int),
                None => first_active_offset(*self, from as int, off as int) is None,
            },
        decreases 10 - off,
    {
        if off > 9 {
            return None;
        }
        let i = (from + off) % 9;
        let is_active = match &self.seats[i] {
            Some(s) => s.in_hand && !s.is_all_in,
            None => false,
        };
        if is_active {
            Some(i)
        } else {
            self.next_active(from, off + 1)
        }
    }

    /// The next eligible seat strictly after `from`, cyclically (with `from`
    /// itself considered last).
    pub(crate) fn next_eligible(&self, from: usize, off: usize) -> (r: Option<usize>)
        requires
            self.seats@.len() == NUM_SEATS,
            from < NUM_SEATS,
            1 <= off,
        ensures
            match r {
                Some(i) => Some(i as int) == first_eligible_offset(
                    *self,
                    from as int,
                    off as int,
                ),
                None => first_eligible_offset(*self, from as int, off as int) is None,
            },
        decreases 10 - off,
    {
        if off > 9 {
            return None;
        }
        let i = (from + off) % 9;
        let is_eligible = match &self.seats[i] {
            Some(s) => s.in_hand && !s.is_all_in && (!s.acted_this_round
                || s.committed_this_round < self.current_bet),
            None => false,
        };
        if is_eligible {
            Some(i)
        } else {
            self.next_eligible(from, off + 1)
        }
    }
}

/// A failed active-scan means the seat at any remaining offset is not
/// active.
pub proof fn lemma_scan_active_none_at(t: Table, from: int, off: int, o: int)
    requires
        first_active_offset(t, from, off) is None,
        1 <= off <= o <= 9,
    ensures
        !active_at(t, (from + o) % 9),
    decreases 10 - off,
{
    if o > off {
        lemma_scan_active_none_at(t, from, off + 1, o);
    }
}

/// A successful active-scan lands on an active seat.
pub proof fn lemma_scan_active_some(t: Table, from: int, off: int)
    requires
        first_active_offset(t, from, off) is Some,
    ensures
        ({
            let i = first_active_offset(t, from, off).unwrap();
            0 <= i < 9 && active_at(t, i)
        }),
    decreases 10 - off,
{
    if !(off < 1 || off > 9) && !active_at(t, (from + off) % 9) {
        lemma_scan_active_some(t, from, off + 1);
    }
}

/// A successful eligible-scan lands on an eligible seat.
pub proof fn lemma_scan_eligible_some(t: Table, from: int, off: int)
    requires
        first_eligible_offset(t, from, off) is Some,
    ensures
        ({
            let i = first_eligible_offset(t, from, off).unwrap();
            0 <= i < 9 && eligible_at(t, i)
        }),
    decreases 10 - off,
{
    if !(off < 1 || off > 9) && !eligible_at(t, (from + off) % 9) {
        lemma_scan_eligible_some(t, from, off + 1);
    }
}

/// A failed eligible-scan means the seat at any remaining offset is not
/// eligible.
pub proof fn lemma_scan_eligible_none_at(t: Table, from: int, off: int, o: int)
    requires
        first_eligible_offset(t, from, off) is None,
        1 <= off <= o <= 9,
    ensures
        !eligible_at(t, (from + o) % 9),
    decreases 10 - off,
{
    if o > off {
        lemma_scan_eligible_none_at(t, from, off + 1, o);
    }
}

/// Every seat is reached by some offset in `1..=9` from any starting seat.
pub proof fn lemma_offset_reaches(from: int, i: int) -> (o: int)
    requires
        0 <= from < 9,
        0 <= i < 9,
    ensures
        1 <= o <= 9,
        (from + o) % 9 == i,
{
    let o = if i > from {
        i - from
    } else {
        i + 9 - from
    };
    assert((from + o) % 9 == i) by {
        if i > from {
            assert(from + o == i);
        } else {
            assert(from + o == i + 9);
        }
    }
    o
}

/// The active-scan reads only the seat arena: two tables with equal seats
/// scan alike.
pub proof fn lemma_scan_active_congruent(t1: Table, t2: Table, from: int, off: int)
    requires
        t1.seats@ == t2.seats@,
    ensures
        first_active_offset(t1, from, off) == first_active_offset(t2, from, off),
    decreases 10 - off,
{
    if !(off < 1 || off > 9) {
        assert(active_at(t1, (from + off) % 9) == active_at(t2, (from + off) % 9));
        lemma_scan_active_congruent(t1, t2, from, off + 1);
    }
}

/// The eligible-scan reads only the seats and the outstanding bet.
pub proof fn lemma_scan_eligible_congruent(t1: Table, t2: Table, from: int, off: int)
    requires
        t1.seats@ == t2.seats@,
        t1.current_bet == t2.current_bet,
    ensures
        first_eligible_offset(t1, from, off) == first_eligible_offset(t2, from, off),
    decreases 10 - off,
{
    if !(off < 1 || off > 9) {
        assert(eligible_at(t1, (from + off) % 9) == eligible_at(t2, (from + off) % 9));
        lemma_scan_eligible_congruent(t1, t2, from, off + 1);
    }
}

/// If any seat is eligible, the scan from anywhere finds one.
pub proof fn lemma_scan_eligible_complete(t: Table, from: int)
    requires
        0 <= from < 9,
        exists|i: int| 0 <= i < 9 && eligible_at(t, i),
    ensures
        first_eligible_offset(t, from, 1) is Some,
{
    if first_eligible_offset(t, from, 1) is None {
        let i = choose|i: int| 0 <= i < 9 && eligible_at(t, i);
        let o = lemma_offset_reaches(from, i);
        lemma_scan_eligible_none_at(t, from, 1, o);
    }
}

/// If any seat is active, the scan from anywhere finds one.
pub proof fn lemma_scan_active_complete(t: Table, from: int)
    requires
        0 <= from < 9,
        exists|i: int| 0 <= i < 9 && active_at(t, i),
    ensures
        first_active_offset(t, from, 1) is Some,
{
    if first_active_offset(t, from, 1) is None {
        let i = choose|i: int| 0 <= i < 9 && active_at(t, i);
        let o = lemma_offset_reaches(from, i);
        lemma_scan_active_none_at(t, from, 1, o);
    }
}


// ---------------------------------------------------------------------------
// Validating an action
// ---------------------------------------------------------------------------

/// Why a betting action from this caller would be rejected, in order of
/// precedence: no open betting round, then no seat, then out of turn.
pub open spec fn gate_error(t: Table, caller: u64) -> Option<Error> {
    if t.stage.spec_no_more_action() {
        Some(Error::HandNotInProgress)
    } else if !t.has_player(caller) {
        Some(Error::NotAPlayer)
    } else if !(t.to_act matches Some(a) && a as int == t.player_index(caller)) {
        Some(Error::NotYourTurn)
    } else {
        None
    }
}

impl Table {
    /// Validate that the caller may act now, returning its seat.
    fn action_gate(&self, caller: u64) -> (r: Result<usize, Error>)
        requires
            self.wf(),
        ensures
            match r {
                Ok(i) => gate_error(*self, caller) is None && self.seated_with(i as int, caller)
                    && self.to_act == Some(i) && i < NUM_SEATS && i as int == self.player_index(
                    caller,
                ) && betting_open(self.stage),
                Err(e) => gate_error(*self, caller) == Some(e),
            },
    {
        if self.stage.no_more_action() {
            return Err(Error::HandNotInProgress);
        }
        let idx = match self.find_seat(caller) {
            Some(i) => i,
            None => {
                return Err(Error::NotAPlayer);
            },
        };
        proof {
            lemma_player_index_unique(*self, caller, idx as int);
        }
        let a = match self.to_act {
            Some(a) => a,
            None => {
                return Err(Error::NotYourTurn);
            },
        };
        if a != idx {
            return Err(Error::NotYourTurn);
        }
        Ok(idx)
    }
}

// ---------------------------------------------------------------------------
// What each action does to the acting seat
// ---------------------------------------------------------------------------

/// The smaller of two amounts.
pub open spec fn spec_min(a: int, b: int) -> int {
    if a <= b {
        a
    } else {
        b
    }
}

/// A checking seat merely records that it acted.
pub open spec fn checked_seat(s: Seat) -> Seat {
    Seat { acted_this_round: true, ..s }
}

/// A calling seat matches the outstanding bet as far as its wallet allows,
/// and is all-in if that empties the wallet.
pub open spec fn called_seat(s: Seat, current_bet: u64) -> Seat {
    let pay = spec_min(current_bet - s.committed_this_round, s.wallet as int);
    Seat {
        wallet: (s.wallet - pay) as u64,
        committed_this_round: (s.committed_this_round + pay) as u64,
        is_all_in: s.wallet - pay == 0,
        acted_this_round: true,
        ..s
    }
}

/// A raising seat pays the call and `amount` more, lifting the bet.
pub open spec fn raised_seat(s: Seat, current_bet: u64, amount: u64) -> Seat {
    let pay = current_bet - s.committed_this_round + amount;
    Seat {
        wallet: (s.wallet - pay) as u64,
        committed_this_round: (current_bet + amount) as u64,
        is_all_in: s.wallet - pay == 0,
        acted_this_round: true,
        ..s
    }
}

/// A folding seat leaves the hand.
pub open spec fn folded_seat(s: Seat) -> Seat {
    Seat { in_hand: false, is_all_in: false, acted_this_round: true, ..s }
}

/// A raise re-opens action: every other seat's acted flag is cleared.
pub open spec fn reopen_slot(s: Option<Seat>) -> Option<Seat> {
    match s {
        Some(x) => Some(Seat { acted_this_round: false, ..x }),
        None => None,
    }
}

/// Everything an action leaves untouched on the table.
pub open spec fn table_scalars_same(pre: Table, mid: Table) -> bool {
    &&& mid.stage == pre.stage
    &&& mid.community_cards == pre.community_cards
    &&& mid.board == pre.board
    &&& mid.combined_secret_material == pre.combined_secret_material
    &&& mid.button == pre.button
    &&& mid.hand_number == pre.hand_number
    &&& mid.big_blind == pre.big_blind
    &&& mid.pot == pre.pot
}

/// The table just after seat `i` checked, before the turn moves on.
pub open spec fn check_mid(pre: Table, i: int, mid: Table) -> bool {
    &&& mid.seats@ == pre.seats@.update(i, Some(checked_seat(pre.seat_at(i))))
    &&& table_scalars_same(pre, mid)
    &&& mid.current_bet == pre.current_bet
    &&& mid.to_act is None
}

/// The table just after seat `i` called, before the turn moves on.
pub open spec fn call_mid(pre: Table, i: int, mid: Table) -> bool {
    &&& mid.seats@ == pre.seats@.update(i, Some(called_seat(pre.seat_at(i), pre.current_bet)))
    &&& table_scalars_same(pre, mid)
    &&& mid.current_bet == pre.current_bet
    &&& mid.to_act is None
}

/// The table just after seat `i` raised by `amount`, before the turn moves
/// on: the bet is lifted and every other seat owes action again.
pub open spec fn raise_mid(pre: Table, i: int, amount: u64, mid: Table) -> bool {
    &&& mid.seats@.len() == pre.seats@.len()
    &&& forall|j: int|
        0 <= j < pre.seats@.len() ==> #[trigger] mid.seats@[j] == (if j == i {
            Some(raised_seat(pre.seat_at(i), pre.current_bet, amount))
        } else {
            reopen_slot(pre.seats@[j])
        })
    &&& table_scalars_same(pre, mid)
    &&& mid.current_bet == pre.current_bet + amount
    &&& mid.to_act is None
}

/// The table just after seat `i` folded, before the hand's fate is decided.
pub open spec fn fold_mid(pre: Table, i: int, mid: Table) -> bool {
    &&& mid.seats@ == pre.seats@.update(i, Some(folded_seat(pre.seat_at(i))))
    &&& table_scalars_same(pre, mid)
    &&& mid.current_bet == pre.current_bet
    &&& mid.to_act is None
}

/// The sole contesting seat of a table (meaningful when exactly one is).
pub open spec fn survivor_of(mid: Table) -> int {
    choose|j: int| mid.occupied(j) && mid.seat_at(j).in_hand
}

/// After seat `from` acted, the turn either passes to the next seat owing a
/// decision, or - with nobody owing one - the betting round closes.
pub open spec fn progressed(mid: Table, from: int, post: Table) -> bool {
    match first_eligible_offset(mid, from, 1) {
        Some(a) => {
            &&& post.seats == mid.seats
            &&& post.to_act matches Some(x) && x as int == a
            &&& post.stage == mid.stage
            &&& post.pot == mid.pot
            &&& post.current_bet == mid.current_bet
            &&& post.community_cards == mid.community_cards
            &&& post.board == mid.board
            &&& post.button == mid.button
            &&& post.hand_number == mid.hand_number
            &&& post.big_blind == mid.big_blind
            &&& post.combined_secret_material == mid.combined_secret_material
        },
        None => close_round_post(mid, post),
    }
}

// ---------------------------------------------------------------------------
// The actions' full contracts
// ---------------------------------------------------------------------------

/// What `check` does.
pub open spec fn check_post(pre: Table, post: Table, caller: u64, r: Result<(), Error>) -> bool {
    match gate_error(pre, caller) {
        Some(e) => r == Err::<(), Error>(e) && post == pre,
        None => {
            let i = pre.player_index(caller);
            if pre.seat_at(i).committed_this_round != pre.current_bet {
                r == Err::<(), Error>(Error::IllegalAction) && post == pre
            } else {
                r == Ok::<(), Error>(()) && exists|mid: Table|
                    #[trigger] check_mid(pre, i, mid) && progressed(mid, i, post)
            }
        },
    }
}

/// What `call` does.
pub open spec fn call_post(pre: Table, post: Table, caller: u64, r: Result<(), Error>) -> bool {
    match gate_error(pre, caller) {
        Some(e) => r == Err::<(), Error>(e) && post == pre,
        None => {
            let i = pre.player_index(caller);
            r == Ok::<(), Error>(()) && exists|mid: Table|
                #[trigger] call_mid(pre, i, mid) && progressed(mid, i, post)
        },
    }
}

/// What `raise` does.
pub open spec fn raise_post(
    pre: Table,
    post: Table,
    caller: u64,
    amount: u64,
    r: Result<(), Error>,
) -> bool {
    match gate_error(pre, caller) {
        Some(e) => r == Err::<(), Error>(e) && post == pre,
        None => {
            let i = pre.player_index(caller);
            let s = pre.seat_at(i);
            let need = pre.current_bet - s.committed_this_round;
            if s.wallet <= need || s.wallet < need + amount {
                r == Err::<(), Error>(Error::InsufficientFunds) && post == pre
            } else {
                r == Ok::<(), Error>(()) && exists|mid: Table|
                    #[trigger] raise_mid(pre, i, amount, mid) && progressed(mid, i, post)
            }
        },
    }
}

/// What `fold` does.
pub open spec fn fold_post(pre: Table, post: Table, caller: u64, r: Result<(), Error>) -> bool {
    match gate_error(pre, caller) {
        Some(e) => r == Err::<(), Error>(e) && post == pre,
        None => {
            let i = pre.player_index(caller);
            r == Ok::<(), Error>(()) && exists|mid: Table|
                #[trigger] fold_mid(pre, i, mid) && (if mid.in_hand_count() == 1 {
                    fold_won(mid, post, survivor_of(mid))
                } else {
                    progressed(mid, i, post)
                })
        },
    }
}


impl Table {
    /// Pass the action on without betting.  Legal only while the seat
    /// already matches the outstanding bet.
    pub fn check(&mut self, caller: u64) -> (r: Result<(), Error>)
        requires
            old(self).wf(),
        ensures
            final(self).wf(),
            final(self).total_chips() == old(self).total_chips(),
            r is Err ==> *final(self) == *old(self),
            check_post(*old(self), *final(self), caller, r),
    {
        let i = match self.action_gate(caller) {
            Ok(i) => i,
            Err(e) => {
                return Err(e);
            },
        };
        let s = match &self.seats[i] {
            Some(s) => *s,
            None => {
                return Err(Error::IllegalAction);
            },
        };
        if s.committed_this_round != self.current_bet {
            return Err(Error::IllegalAction);
        }
        let ghost pre = *self;
        self.seats[i] = Some(Seat { acted_this_round: true, ..s });
        self.to_act = None;
        proof {
            let k = i as int;
            let snew = checked_seat(pre.seat_at(k));
            assert(self.seats@ =~= pre.seats@.update(k, Some(snew)));
            lemma_sum_slots_update(pre.seats@, k, Some(snew), chips_of());
            lemma_sum_slots_update(pre.seats@, k, Some(snew), crate::table::ind(in_hand_of()));
            assert(slot_value(Some(snew), crate::table::ind(in_hand_of())) == slot_value(
                pre.seats@[k],
                crate::table::ind(in_hand_of()),
            ));
            assert(pre.seat_ok(pre.seat_at(k)));
            crate::table::lemma_seats_ok_after_update(pre, *self, k, Some(snew));
            crate::table::lemma_cards_ok_after_update(pre, *self, k, Some(snew));
            assert forall|j: int| j != k implies !pre.seated_with(j, snew.identity) by {
                if pre.seated_with(j, snew.identity) {
                    lemma_player_index_unique(pre, snew.identity, j);
                    lemma_player_index_unique(pre, snew.identity, k);
                }
            }
            crate::table::lemma_idents_after_update(pre, *self, k, Some(snew));
            assert(check_mid(pre, k, *self));
        }
        let ghost mid = *self;
        let nxt = self.next_eligible(i, 1);
        match nxt {
            Some(a) => {
                self.to_act = Some(a);
                proof {
                    lemma_scan_eligible_some(mid, i as int, 1);
                    lemma_seats_ok_congruent(mid, *self);
                    lemma_cards_ok_congruent(mid, *self);
                    assert(progressed(mid, i as int, *self));
                    assert(check_mid(pre, pre.player_index(caller), mid));
                }
            },
            None => {
                self.close_round();
                proof {
                    assert(progressed(mid, i as int, *self));
                    assert(check_mid(pre, pre.player_index(caller), mid));
                }
            },
        }
        Ok(())
    }
}


impl Table {
    /// Match the outstanding bet, as far as the wallet allows; an emptied
    /// wallet puts the seat all-in.
    pub fn call(&mut self, caller: u64) -> (r: Result<(), Error>)
        requires
            old(self).wf(),
        ensures
            final(self).wf(),
            final(self).total_chips() == old(self).total_chips(),
            r is Err ==> *final(self) == *old(self),
            call_post(*old(self), *final(self), caller, r),
    {
        let i = match self.action_gate(caller) {
            Ok(i) => i,
            Err(e) => {
                return Err(e);
            },
        };
        let s = match &self.seats[i] {
            Some(s) => *s,
            None => {
                return Err(Error::IllegalAction);
            },
        };
        proof {
            assert(self.seat_ok(self.seat_at(i as int)));
        }
        let need = self.current_bet - s.committed_this_round;
        let pay = if need > s.wallet {
            s.wallet
        } else {
            need
        };
        let ghost pre = *self;
        self.seats[i] = Some(
            Seat {
                wallet: s.wallet - pay,
                committed_this_round: s.committed_this_round + pay,
                is_all_in: s.wallet - pay == 0,
                acted_this_round: true,
                ..s
            },
        );
        self.to_act = None;
        proof {
            let k = i as int;
            let snew = called_seat(pre.seat_at(k), pre.current_bet);
            assert(self.seats@ =~= pre.seats@.update(k, Some(snew)));
            lemma_sum_slots_update(pre.seats@, k, Some(snew), chips_of());
            lemma_sum_slots_update(pre.seats@, k, Some(snew), crate::table::ind(in_hand_of()));
            assert(slot_value(Some(snew), crate::table::ind(in_hand_of())) == slot_value(
                pre.seats@[k],
                crate::table::ind(in_hand_of()),
            ));
            crate::table::lemma_seats_ok_after_update(pre, *self, k, Some(snew));
            crate::table::lemma_cards_ok_after_update(pre, *self, k, Some(snew));
            assert forall|j: int| j != k implies !pre.seated_with(j, snew.identity) by {
                if pre.seated_with(j, snew.identity) {
                    lemma_player_index_unique(pre, snew.identity, j);
                    lemma_player_index_unique(pre, snew.identity, k);
                }
            }
            crate::table::lemma_idents_after_update(pre, *self, k, Some(snew));
            assert(call_mid(pre, k, *self));
        }
        let ghost mid = *self;
        let nxt = self.next_eligible(i, 1);
        match nxt {
            Some(a) => {
                self.to_act = Some(a);
                proof {
                    lemma_scan_eligible_some(mid, i as int, 1);
                    lemma_seats_ok_congruent(mid, *self);
                    lemma_cards_ok_congruent(mid, *self);
                    assert(progressed(mid, i as int, *self));
                    assert(call_mid(pre, pre.player_index(caller), mid));
                }
            },
            None => {
                self.close_round();
                proof {
                    assert(progressed(mid, i as int, *self));
                    assert(call_mid(pre, pre.player_index(caller), mid));
                }
            },
        }
        Ok(())
    }

    /// Lift the outstanding bet by `amount` after paying the call, which
    /// re-opens the action for every other seat still able to bet.
    pub fn raise(&mut self, caller: u64, amount: u64) -> (r: Result<(), Error>)
        requires
            old(self).wf(),
        ensures
            final(self).wf(),
            final(self).total_chips() == old(self).total_chips(),
            r is Err ==> *final(self) == *old(self),
            raise_post(*old(self), *final(self), caller, amount, r),
    {
        let i = match self.action_gate(caller) {
            Ok(i) => i,
            Err(e) => {
                return Err(e);
            },
        };
        let s = match &self.seats[i] {
            Some(s) => *s,
            None => {
                return Err(Error::InsufficientFunds);
            },
        };
        proof {
            assert(self.seat_ok(self.seat_at(i as int)));
        }
        let need = self.current_bet - s.committed_this_round;
        if s.wallet <= need {
            return Err(Error::InsufficientFunds);
        }
        if amount > s.wallet - need {
            return Err(Error::InsufficientFunds);
        }
        let ghost pre = *self;
        proof {
            assert(forall|j: int|
                0 <= j < pre.seats@.len() ==> slot_value(#[trigger] pre.seats@[j], chips_of())
                    >= 0);
            lemma_slot_le_sum(pre.seats@, i as int, chips_of());
        }
        let pay = need + amount;
        let snew = Seat {
            wallet: s.wallet - pay,
            committed_this_round: self.current_bet + amount,
            is_all_in: s.wallet - pay == 0,
            acted_this_round: true,
            ..s
        };
        let mut j: usize = 0;
        while j < NUM_SEATS
            invariant
                self.seats@.len() == NUM_SEATS,
                pre.seats@.len() == NUM_SEATS,
                j <= NUM_SEATS,
                i < NUM_SEATS,
                snew == raised_seat(pre.seat_at(i as int), pre.current_bet, amount),
                forall|x: int|
                    0 <= x < j ==> #[trigger] self.seats@[x] == (if x == i as int {
                        Some(raised_seat(pre.seat_at(i as int), pre.current_bet, amount))
                    } else {
                        reopen_slot(pre.seats@[x])
                    }),
                forall|x: int| j <= x < NUM_SEATS ==> #[trigger] self.seats@[x] == pre.seats@[x],
                self.stage == pre.stage,
                self.community_cards == pre.community_cards,
                self.board == pre.board,
                self.combined_secret_material == pre.combined_secret_material,
                self.button == pre.button,
                self.hand_number == pre.hand_number,
                self.big_blind == pre.big_blind,
                self.pot == pre.pot,
                self.current_bet == pre.current_bet,
                self.to_act == pre.to_act,
            decreases NUM_SEATS - j,
        {
            if j == i {
                self.seats[j] = Some(snew);
            } else {
                let upd = match &self.seats[j] {
                    Some(x) => Some(Seat { acted_this_round: false, ..*x }),
                    None => None,
                };
                self.seats[j] = upd;
            }
            j += 1;
        }
        self.current_bet = self.current_bet + amount;
        self.to_act = None;
        proof {
            let k = i as int;
            assert forall|x: int|
                0 <= x < pre.seats@.len() implies slot_value(
                #[trigger] self.seats@[x],
                chips_of(),
            ) == slot_value(#[trigger] pre.seats@[x], chips_of()) by {}
            crate::table::lemma_sum_slots_pointwise_eq(
                self.seats@,
                pre.seats@,
                chips_of(),
                chips_of(),
            );
            assert forall|x: int|
                0 <= x < pre.seats@.len() implies slot_value(
                #[trigger] self.seats@[x],
                crate::table::ind(in_hand_of()),
            ) == slot_value(#[trigger] pre.seats@[x], crate::table::ind(in_hand_of())) by {}
            crate::table::lemma_sum_slots_pointwise_eq(
                self.seats@,
                pre.seats@,
                crate::table::ind(in_hand_of()),
                crate::table::ind(in_hand_of()),
            );
            assert forall|x: int| self.occupied(x) implies self.seat_ok(
                #[trigger] self.seat_at(x),
            ) by {
                assert(pre.occupied(x));
                assert(pre.seat_ok(pre.seat_at(x)));
            }
            assert forall|x: int|
                self.occupied(x) && (#[trigger] self.seat_at(x)).in_hand implies Table::hole_ok(
                self.board@,
                self.seat_at(x).hole_cards.unwrap(),
            ) by {
                assert(pre.occupied(x));
                assert(pre.seat_at(x).in_hand);
            }
            assert forall|x: int, y: int|
                0 <= x < y < self.seats@.len() && self.seats@[x] is Some && self.seats@[y]
                    is Some implies (#[trigger] self.seats@[x]).unwrap().identity != (
            #[trigger] self.seats@[y]).unwrap().identity by {
                assert(pre.seats@[x] is Some && pre.seats@[y] is Some);
                assert(pre.seats@[x].unwrap().identity != pre.seats@[y].unwrap().identity);
            }
            assert(raise_mid(pre, k, amount, *self));
        }
        let ghost mid = *self;
        let nxt = self.next_eligible(i, 1);
        match nxt {
            Some(a) => {
                self.to_act = Some(a);
                proof {
                    lemma_scan_eligible_some(mid, i as int, 1);
                    lemma_seats_ok_congruent(mid, *self);
                    lemma_cards_ok_congruent(mid, *self);
                    assert(progressed(mid, i as int, *self));
                    assert(raise_mid(pre, pre.player_index(caller), amount, mid));
                }
            },
            None => {
                self.close_round();
                proof {
                    assert(progressed(mid, i as int, *self));
                    assert(raise_mid(pre, pre.player_index(caller), amount, mid));
                }
            },
        }
        Ok(())
    }

    /// Leave the hand.  If only one contender remains, the hand ends at
    /// once in that seat's favor, with no showdown.
    pub fn fold(&mut self, caller: u64) -> (r: Result<(), Error>)
        requires
            old(self).wf(),
        ensures
            final(self).wf(),
            final(self).total_chips() == old(self).total_chips(),
            r is Err ==> *final(self) == *old(self),
            fold_post(*old(self), *final(self), caller, r),
    {
        let i = match self.action_gate(caller) {
            Ok(i) => i,
            Err(e) => {
                return Err(e);
            },
        };
        let s = match &self.seats[i] {
            Some(s) => *s,
            None => {
                return Err(Error::IllegalAction);
            },
        };
        let ghost pre = *self;
        self.seats[i] = Some(
            Seat { in_hand: false, is_all_in: false, acted_this_round: true, ..s },
        );
        self.to_act = None;
        proof {
            let k = i as int;
            let snew = folded_seat(pre.seat_at(k));
            assert(self.seats@ =~= pre.seats@.update(k, Some(snew)));
            lemma_sum_slots_update(pre.seats@, k, Some(snew), chips_of());
            lemma_sum_slots_update(pre.seats@, k, Some(snew), crate::table::ind(in_hand_of()));
            assert(pre.seat_ok(pre.seat_at(k)));
            crate::table::lemma_seats_ok_after_update(pre, *self, k, Some(snew));
            crate::table::lemma_cards_ok_after_update(pre, *self, k, Some(snew));
            assert forall|j: int| j != k implies !pre.seated_with(j, snew.identity) by {
                if pre.seated_with(j, snew.identity) {
                    lemma_player_index_unique(pre, snew.identity, j);
                    lemma_player_index_unique(pre, snew.identity, k);
                }
            }
            crate::table::lemma_idents_after_update(pre, *self, k, Some(snew));
            assert(slot_value(Some(snew), crate::table::ind(in_hand_of())) == 0);
            assert(slot_value(pre.seats@[k], crate::table::ind(in_hand_of())) == 1);
            assert(self.in_hand_count() == pre.in_hand_count() - 1);
            assert(fold_mid(pre, k, *self));
        }
        let ghost mid = *self;
        let cnt = self.count_in_hand();
        if cnt == 1 {
            let mut sv: usize = 0;
            let mut found = false;
            let mut j: usize = 0;
            while j < NUM_SEATS
                invariant
                    self.seats@.len() == NUM_SEATS,
                    j <= NUM_SEATS,
                    found ==> sv < NUM_SEATS && self.occupied(sv as int) && self.seat_at(
                        sv as int,
                    ).in_hand,
                    !found ==> forall|x: int|
                        0 <= x < j ==> !(self.occupied(x) && (#[trigger] self.seat_at(
                            x,
                        )).in_hand),
                decreases NUM_SEATS - j,
            {
                if !found {
                    match &self.seats[j] {
                        Some(x) => {
                            if x.in_hand {
                                sv = j;
                                found = true;
                            }
                        },
                        None => {},
                    }
                }
                j += 1;
            }
            proof {
                if !found {
                    lemma_count_pos(mid.seats@, in_hand_of());
                    let w = choose|w: int|
                        0 <= w < mid.seats@.len() && #[trigger] mid.seats@[w] is Some
                            && in_hand_of()(mid.seats@[w].unwrap());
                    assert(mid.occupied(w) && mid.seat_at(w).in_hand);
                    assert(false);
                }
            }
            self.end_hand_fold(sv);
            proof {
                let so = survivor_of(mid);
                assert(mid.occupied(sv as int) && mid.seat_at(sv as int).in_hand);
                assert(mid.occupied(so) && mid.seat_at(so).in_hand);
                lemma_count_unique(mid.seats@, in_hand_of(), sv as int, so);
                assert(fold_won(mid, *self, survivor_of(mid)));
                assert(fold_mid(pre, pre.player_index(caller), mid));
            }
        } else {
            let nxt = self.next_eligible(i, 1);
            match nxt {
                Some(a) => {
                    self.to_act = Some(a);
                    proof {
                        lemma_scan_eligible_some(mid, i as int, 1);
                        lemma_seats_ok_congruent(mid, *self);
                        lemma_cards_ok_congruent(mid, *self);
                        assert(progressed(mid, i as int, *self));
                        assert(fold_mid(pre, pre.player_index(caller), mid));
                    }
                },
                None => {
                    self.close_round();
                    proof {
                        assert(progressed(mid, i as int, *self));
                        assert(fold_mid(pre, pre.player_index(caller), mid));
                    }
                },
            }
        }
        Ok(())
    }
}

} // verus!
