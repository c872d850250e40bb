use vstd::prelude::*;

use crate::ranking::{compare_hands, hand_rank};
use crate::seat::Seat;
use crate::stage::{betting_open, hand_live, Stage};
use crate::table::{
    chips_of, committed_of, in_hand_of, lemma_count_pos, lemma_slot_le_sum, lemma_sum_slots_le,
    lemma_sum_slots_linear, lemma_sum_slots_nonneg, lemma_sum_slots_pointwise_eq,
    lemma_sum_slots_prefix_le, lemma_sum_slots_take_full, lemma_sum_slots_take_step,
    lemma_sum_slots_update, slot_value, sum_slots, wallet_of, Table, BIG_BLIND_LIMIT,
    CHIP_LIMIT, NUM_SEATS,
};

verus! {

/// Every chip still standing in front of the seats this street.
pub open spec fn committed_total(t: Table) -> int {
    sum_slots(t.seats@, committed_of())
}

/// A seat once the street is swept: its commitment in the pot, its action
/// flag cleared, everything else untouched.
pub open spec fn settle_seat(s: Seat) -> Seat {
    Seat { committed_this_round: 0, acted_this_round: false, ..s }
}

/// The sweep applied to a possibly empty slot.
pub open spec fn settle_slot(s: Option<Seat>) -> Option<Seat> {
    match s {
        Some(x) => Some(settle_seat(x)),
        None => None,
    }
}

/// Seat `i` shares the best showdown ranking among all contesting seats.
pub open spec fn is_winner(t: Table, i: int) -> bool {
    &&& t.occupied(i)
    &&& t.seat_at(i).in_hand
    &&& forall|j: int|
        t.occupied(j) && (#[trigger] t.seat_at(j)).in_hand ==> hand_rank(t.seven_of(i))
            >= hand_rank(t.seven_of(j))
}

/// The cyclic offset (in `1..=9`) at which seat `i` stands after the
/// button.
pub open spec fn seat_offset(button: int, i: int) -> int {
    if i > button {
        i - button
    } else {
        i + 9 - button
    }
}

/// How many winners sit at cyclic offsets `1..=c` after the button.
pub open spec fn winners_in_offsets(t: Table, c: int) -> int
    decreases c,
{
    if c <= 0 {
        0
    } else {
        winners_in_offsets(t, c - 1) + if is_winner(t, (t.button + c) % 9) {
            1int
        } else {
            0int
        }
    }
}

/// The number of co-winners of the hand.
pub open spec fn winner_count(t: Table) -> int {
    winners_in_offsets(t, 9)
}

/// How many co-winners stand nearer after the button than seat `i`.
pub open spec fn winners_before(t: Table, i: int) -> int {
    winners_in_offsets(t, seat_offset(t.button as int, i) - 1)
}

/// What the pot split leaves at slot `i`: winners gain the integer share,
/// and the first `rem` of them in after-the-button order gain one odd chip
/// each; every seat's street bookkeeping is left swept.
pub open spec fn award_slot(t: Table, i: int, share: int, rem: int) -> Option<Seat> {
    match t.seats@[i] {
        Some(s) => if is_winner(t, i) {
            Some(
                Seat {
                    wallet: (s.wallet + share + if winners_before(t, i) < rem {
                        1int
                    } else {
                        0int
                    }) as u64,
                    committed_this_round: 0,
                    acted_this_round: false,
                    ..s
                },
            )
        } else {
            Some(settle_seat(s))
        },
        None => None,
    }
}

/// The showdown's full effect on the table, for a hand whose chips
/// (`pot_all`) all stand in one pot: every community card revealed, the pot
/// split among the co-winners, the remainder dealt one chip at a time in
/// after-the-button order, and the table at rest in `HandComplete`.
pub open spec fn hand_resolved(pre: Table, post: Table, pot_all: int) -> bool {
    let n = winner_count(pre);
    let share = pot_all / n;
    let rem = pot_all % n;
    &&& post.stage == Stage::HandComplete
    &&& post.pot == 0
    &&& post.current_bet == 0
    &&& post.to_act is None
    &&& post.seats@.len() == pre.seats@.len()
    &&& forall|i: int|
        0 <= i < pre.seats@.len() ==> #[trigger] post.seats@[i] == award_slot(
            pre,
            i,
            share,
            rem,
        )
    &&& post.community_cards@ == pre.board@
    &&& post.board == pre.board
    &&& post.button == pre.button
    &&& post.hand_number == pre.hand_number
    &&& post.big_blind == pre.big_blind
    &&& post.combined_secret_material == pre.combined_secret_material
}

/// The count of winners over offsets only grows with more offsets.
pub proof fn lemma_winners_nonneg(t: Table, c: int)
    ensures
        winners_in_offsets(t, c) >= 0,
    decreases c,
{
    if c > 0 {
        lemma_winners_nonneg(t, c - 1);
    }
}

/// More offsets never lose winners.
pub proof fn lemma_winners_monotone(t: Table, c1: int, c2: int)
    requires
        c1 <= c2,
    ensures
        winners_in_offsets(t, c1) <= winners_in_offsets(t, c2),
    decreases c2 - c1,
{
    if c1 < c2 {
        lemma_winners_monotone(t, c1, c2 - 1);
    }
}

/// At most one winner per offset.
pub proof fn lemma_winners_le(t: Table, c: int)
    ensures
        winners_in_offsets(t, c) <= if c >= 0 {
            c
        } else {
            0
        },
    decreases c,
{
    if c > 0 {
        lemma_winners_le(t, c - 1);
    }
}

/// A winner at offset `o` is counted by every range reaching `o`.
pub proof fn lemma_winner_between(t: Table, o: int, c: int)
    requires
        1 <= o <= c,
        is_winner(t, (t.button + o) % 9),
    ensures
        winners_in_offsets(t, c) >= winners_in_offsets(t, o - 1) + 1,
    decreases c,
{
    if c == o {
    } else {
        lemma_winner_between(t, o, c - 1);
    }
}

/// A winner seated at offset `o` puts every count over `o` offsets or more
/// at one or above.
pub proof fn lemma_winner_count_pos(t: Table, o: int, c: int)
    requires
        1 <= o <= c,
        is_winner(t, (t.button + o) % 9),
    ensures
        winners_in_offsets(t, c) >= 1,
    decreases c,
{
    if c == o {
        lemma_winners_nonneg(t, c - 1);
    } else {
        lemma_winner_count_pos(t, o, c - 1);
        lemma_winners_nonneg(t, c);
        assert(winners_in_offsets(t, c) >= winners_in_offsets(t, c - 1));
    }
}

/// The offset of a seat is its inverse under stepping from the button.
pub proof fn lemma_seat_offset_inverse(button: int, o: int)
    requires
        0 <= button < 9,
        1 <= o <= 9,
    ensures
        seat_offset(button, (button + o) % 9) == o,
        0 <= (button + o) % 9 < 9,
{
    if button + o < 9 {
        assert((button + o) % 9 == button + o);
    } else {
        assert((button + o) % 9 == button + o - 9);
    }
}

/// Stepping from the button by a seat's offset reaches that seat.
pub proof fn lemma_seat_offset_roundtrip(button: int, i: int)
    requires
        0 <= button < 9,
        0 <= i < 9,
    ensures
        1 <= seat_offset(button, i) <= 9,
        (button + seat_offset(button, i)) % 9 == i,
{
    let o = seat_offset(button, i);
    if i > button {
        assert(button + o == i);
    } else {
        assert(button + o == i + 9);
    }
}

/// The seven cards of every contesting seat are a legal distinct hand.
pub proof fn lemma_seven_ok(t: Table, i: int)
    requires
        t.cards_ok(),
        hand_live(t.stage),
        t.occupied(i),
        t.seat_at(i).in_hand,
    ensures
        t.seven_of(i).len() == 7,
        forall|a: int| 0 <= a < 7 ==> t.seven_of(i)[a] < 52,
        forall|a: int, b: int| 0 <= a < b < 7 ==> t.seven_of(i)[a] != t.seven_of(i)[b],
{
    let s7 = t.seven_of(i);
    let h = t.seat_at(i).hole_cards.unwrap();
    assert(Table::hole_ok(t.board@, h));
    assert forall|a: int, b: int| 0 <= a < b < 7 implies s7[a] != s7[b] by {
        if b < 5 {
            assert(s7[a] == t.board@[a] && s7[b] == t.board@[b]);
        } else if a < 5 {
            assert(s7[a] == t.board@[a]);
            if b == 5 {
                if s7[a] == h.0 {
                    assert(t.board@.contains(h.0));
                }
            } else {
                if s7[a] == h.1 {
                    assert(t.board@.contains(h.1));
                }
            }
        } else {
            assert(s7[a] == h.0 && s7[b] == h.1);
        }
    }
}

impl Table {
    /// The seven cards seat `i` goes to showdown with: the board, then its
    /// hole cards.
    pub(crate) fn seven_cards(&self, i: usize) -> (r: Vec<u8>)
        requires
            self.occupied(i as int),
            self.seat_at(i as int).hole_cards is Some,
            self.board@.len() == 5,
        ensures
            r@ == self.seven_of(i as int),
    {
        let mut v: Vec<u8> = Vec::new();
        let mut j: usize = 0;
        while j < 5
            invariant
                self.board@.len() == 5,
                j <= 5,
                v@ == self.board@.take(j as int),
            decreases 5 - j,
        {
            let c = self.board[j];
            v.push(c);
            proof {
                assert(v@ =~= self.board@.take(j as int + 1));
            }
            j += 1;
        }
        let (h0, h1) = match &self.seats[i] {
            Some(s) => match s.hole_cards {
                Some(h) => h,
                None => (0, 0),
            },
            None => (0, 0),
        };
        v.push(h0);
        v.push(h1);
        proof {
            assert(self.board@.take(5) =~= self.board@);
            assert(v@ =~= self.seven_of(i as int));
        }
        v
    }

    /// Sweep every seat's street commitment into the pot, clear the acted
    /// flags and the outstanding bet, and close the turn.
    pub(crate) fn settle_street(&mut self)
        requires
            old(self).seats@.len() == NUM_SEATS,
            old(self).total_chips() <= CHIP_LIMIT,
        ensures
            final(self).seats@.len() == NUM_SEATS,
            forall|i: int|
                0 <= i < NUM_SEATS ==> #[trigger] final(self).seats@[i] == settle_slot(
                    old(self).seats@[i],
                ),
            final(self).pot == old(self).pot + committed_total(*old(self)),
            final(self).current_bet == 0,
            final(self).to_act is None,
            final(self).total_chips() == old(self).total_chips(),
            final(self).stage == old(self).stage,
            final(self).board == old(self).board,
            final(self).community_cards == old(self).community_cards,
            final(self).button == old(self).button,
            final(self).hand_number == old(self).hand_number,
            final(self).big_blind == old(self).big_blind,
            final(self).combined_secret_material == old(self).combined_secret_material,
    {
        let ghost pre = *self;
        proof {
            assert(forall|j: int|
                0 <= j < pre.seats@.len() ==> slot_value(#[trigger] pre.seats@[j], committed_of())
                    >= 0 && slot_value(#[trigger] pre.seats@[j], committed_of()) <= slot_value(
                    pre.seats@[j],
                    chips_of(),
                ));
            lemma_sum_slots_le(pre.seats@, committed_of(), chips_of());
            lemma_sum_slots_nonneg(pre.seats@, committed_of());
        }
        self.to_act = None;
        self.current_bet = 0;
        let mut i: usize = 0;
        while i < NUM_SEATS
            invariant
                self.seats@.len() == NUM_SEATS,
                pre.seats@.len() == NUM_SEATS,
                i <= NUM_SEATS,
                forall|j: int|
                    0 <= j < i ==> #[trigger] self.seats@[j] == settle_slot(pre.seats@[j]),
                forall|j: int| i <= j < NUM_SEATS ==> #[trigger] self.seats@[j] == pre.seats@[j],
                self.pot == pre.pot + sum_slots(pre.seats@.take(i as int), committed_of()),
                pre.total_chips() <= CHIP_LIMIT,
                sum_slots(pre.seats@, committed_of()) <= sum_slots(pre.seats@, chips_of()),
                forall|j: int|
                    0 <= j < pre.seats@.len() ==> slot_value(
                        #[trigger] pre.seats@[j],
                        committed_of(),
                    ) >= 0,
                self.stage == pre.stage,
                self.board == pre.board,
                self.community_cards == pre.community_cards,
                self.button == pre.button,
                self.hand_number == pre.hand_number,
                self.big_blind == pre.big_blind,
                self.combined_secret_material == pre.combined_secret_material,
                self.current_bet == 0,
                self.to_act is None,
                self.pot == pre.pot + sum_slots(pre.seats@.take(i as int), committed_of()),
            decreases NUM_SEATS - i,
        {
            proof {
                lemma_sum_slots_take_step(pre.seats@, i as int, committed_of());
                lemma_sum_slots_prefix_le(pre.seats@, i as int + 1, committed_of());
                lemma_sum_slots_nonneg(pre.seats@.take(i as int), committed_of());
            }
            let slot = match &self.seats[i] {
                Some(s) => {
                    let c = s.committed_this_round;
                    let snew = Seat { committed_this_round: 0, acted_this_round: false, ..*s };
                    Some((c, snew))
                },
                None => None,
            };
            match slot {
                Some((c, snew)) => {
                    self.pot = self.pot + c;
                    self.seats[i] = Some(snew);
                },
                None => {},
            }
            i += 1;
        }
        proof {
            lemma_sum_slots_take_full(pre.seats@, committed_of());
            assert forall|j: int|
                0 <= j < pre.seats@.len() implies slot_value(
                #[trigger] self.seats@[j],
                chips_of(),
            ) == slot_value(#[trigger] pre.seats@[j], wallet_of()) by {}
            lemma_sum_slots_pointwise_eq(self.seats@, pre.seats@, chips_of(), wallet_of());
            assert(forall|j: int|
                0 <= j < pre.seats@.len() ==> slot_value(#[trigger] pre.seats@[j], chips_of())
                    == slot_value(pre.seats@[j], wallet_of()) + slot_value(
                    pre.seats@[j],
                    committed_of(),
                ));
            lemma_sum_slots_linear(pre.seats@, chips_of(), wallet_of(), committed_of());
        }
    }

    /// Reveal the board up to `n` cards.
    pub(crate) fn reveal_to(&mut self, n: usize)
        requires
            old(self).board@.len() == 5,
            n <= 5,
            old(self).community_cards@ == old(self).board@.take(
                old(self).community_cards@.len() as int,
            ),
            old(self).community_cards@.len() <= n,
        ensures
            final(self).community_cards@ == final(self).board@.take(n as int),
            final(self).seats == old(self).seats,
            final(self).pot == old(self).pot,
            final(self).current_bet == old(self).current_bet,
            final(self).to_act == old(self).to_act,
            final(self).stage == old(self).stage,
            final(self).board == old(self).board,
            final(self).button == old(self).button,
            final(self).hand_number == old(self).hand_number,
            final(self).big_blind == old(self).big_blind,
            final(self).combined_secret_material == old(self).combined_secret_material,
    {
        let ghost pre = *self;
        while self.community_cards.len() < n
            invariant
                self.board@.len() == 5,
                n <= 5,
                self.community_cards@.len() <= n,
                self.community_cards@ == self.board@.take(self.community_cards@.len() as int),
                self.seats == pre.seats,
                self.pot == pre.pot,
                self.current_bet == pre.current_bet,
                self.to_act == pre.to_act,
                self.stage == pre.stage,
                self.board == pre.board,
                self.button == pre.button,
                self.hand_number == pre.hand_number,
                self.big_blind == pre.big_blind,
                self.combined_secret_material == pre.combined_secret_material,
            decreases n - self.community_cards.len(),
        {
            let k = self.community_cards.len();
            let card = self.board[k];
            self.community_cards.push(card);
            proof {
                assert(self.community_cards@ =~= self.board@.take(k as int + 1));
            }
        }
    }
}


impl Table {
    /// Resolve a showdown: rank every contesting seat's best five of seven,
    /// split the pot evenly among the co-winners, hand the remainder out one
    /// chip at a time in after-the-button order, and put the table at rest
    /// in `HandComplete`.
    pub(crate) fn resolve_showdown(&mut self)
        requires
            old(self).seats@.len() == NUM_SEATS,
            old(self).button < NUM_SEATS,
            1 <= old(self).big_blind <= BIG_BLIND_LIMIT,
            old(self).stage == Stage::Showdown,
            old(self).total_chips() <= CHIP_LIMIT,
            old(self).current_bet == 0,
            old(self).to_act is None,
            old(self).seats_ok(),
            old(self).idents_distinct(),
            old(self).cards_ok(),
            old(self).in_hand_count() >= 1,
            old(self).community_cards@ == old(self).board@,
            forall|i: int|
                old(self).occupied(i) ==> !(#[trigger] old(self).seat_at(i)).acted_this_round
                    && old(self).seat_at(i).committed_this_round == 0,
        ensures
            final(self).wf(),
            final(self).total_chips() == old(self).total_chips(),
            hand_resolved(*old(self), *final(self), old(self).pot as int),
    {
        let ghost pre = *self;
        // Find one seat of maximal ranking.
        let mut best: Option<usize> = None;
        let mut i: usize = 0;
        while i < NUM_SEATS
            invariant
                *self == pre,
                pre.seats@.len() == NUM_SEATS,
                pre.stage == Stage::Showdown,
                pre.cards_ok(),
                pre.seats_ok(),
                i <= NUM_SEATS,
                match best {
                    Some(b) => b < NUM_SEATS && pre.occupied(b as int) && pre.seat_at(
                        b as int,
                    ).in_hand && forall|j: int|
                        0 <= j < i && pre.occupied(j) && (#[trigger] pre.seat_at(j)).in_hand
                            ==> hand_rank(pre.seven_of(b as int)) >= hand_rank(pre.seven_of(j)),
                    None => forall|j: int|
                        0 <= j < i ==> !(pre.occupied(j) && (#[trigger] pre.seat_at(j)).in_hand),
                },
            decreases NUM_SEATS - i,
        {
            let in_h = match &self.seats[i] {
                Some(s) => s.in_hand,
                None => false,
            };
            if in_h {
                match best {
                    None => {
                        best = Some(i);
                    },
                    Some(b) => {
                        proof {
                            assert(pre.seat_ok(pre.seat_at(i as int)));
                            assert(pre.seat_ok(pre.seat_at(b as int)));
                            lemma_seven_ok(pre, i as int);
                            lemma_seven_ok(pre, b as int);
                        }
                        let ci = self.seven_cards(i);
                        let cb = self.seven_cards(b);
                        let c = compare_hands(&ci, &cb);
                        if c == 1 {
                            best = Some(i);
                        }
                    },
                }
            }
            i += 1;
        }
        proof {
            if best is None {
                lemma_count_pos(pre.seats@, in_hand_of());
                let j = choose|j: int|
                    0 <= j < pre.seats@.len() && #[trigger] pre.seats@[j] is Some && in_hand_of()(
                        pre.seats@[j].unwrap(),
                    );
                assert(pre.occupied(j) && pre.seat_at(j).in_hand);
                assert(false);
            }
        }
        let b = match best {
            Some(b) => b,
            None => 0,
        };
        let ghost bb = b as int;
        proof {
            assert(is_winner(pre, bb));
        }
        // Mark the co-winners and count them, in after-the-button order.
        let mut flags: Vec<bool> = Vec::new();
        let mut k: usize = 0;
        while k < NUM_SEATS
            invariant
                flags@.len() == k,
                k <= NUM_SEATS,
                forall|idx: int| 0 <= idx < k ==> !(#[trigger] flags@[idx]),
            decreases NUM_SEATS - k,
        {
            flags.push(false);
            k += 1;
        }
        let mut n: usize = 0;
        let mut o: usize = 1;
        while o <= 9
            invariant
                *self == pre,
                pre.seats@.len() == NUM_SEATS,
                pre.button < NUM_SEATS,
                pre.stage == Stage::Showdown,
                pre.cards_ok(),
                pre.seats_ok(),
                flags@.len() == NUM_SEATS,
                1 <= o <= 10,
                n == winners_in_offsets(pre, o as int - 1),
                n < o,
                bb == b as int,
                b < NUM_SEATS && pre.occupied(bb) && pre.seat_at(bb).in_hand,
                forall|j: int|
                    pre.occupied(j) && (#[trigger] pre.seat_at(j)).in_hand ==> hand_rank(
                        pre.seven_of(bb),
                    ) >= hand_rank(pre.seven_of(j)),
                forall|idx: int|
                    0 <= idx < NUM_SEATS ==> (#[trigger] flags@[idx]) == (seat_offset(
                        pre.button as int,
                        idx,
                    ) < o && is_winner(pre, idx)),
            decreases 10 - o,
        {
            let i = (self.button + o) % 9;
            let ghost oldflags = flags@;
            proof {
                lemma_seat_offset_inverse(pre.button as int, o as int);
                assert forall|idx: int| 0 <= idx < NUM_SEATS implies oldflags[idx] == (
                seat_offset(pre.button as int, idx) < o as int && is_winner(pre, idx)) by {
                    assert(flags@[idx] == (seat_offset(pre.button as int, idx) < o as int
                        && is_winner(pre, idx)));
                }
            }
            let in_h = match &self.seats[i] {
                Some(s) => s.in_hand,
                None => false,
            };
            let mut w = false;
            if in_h {
                proof {
                    assert(pre.seat_ok(pre.seat_at(i as int)));
                    assert(pre.seat_ok(pre.seat_at(bb)));
                    lemma_seven_ok(pre, i as int);
                    lemma_seven_ok(pre, bb);
                }
                let ci = self.seven_cards(i);
                let cb = self.seven_cards(b);
                w = compare_hands(&ci, &cb) == 0;
                proof {
                    if w {
                        assert(is_winner(pre, i as int));
                    } else if is_winner(pre, i as int) {
                        assert(hand_rank(pre.seven_of(i as int)) >= hand_rank(pre.seven_of(bb)));
                        assert(hand_rank(pre.seven_of(bb)) >= hand_rank(pre.seven_of(i as int)));
                        assert(hand_rank(ci@) == hand_rank(cb@));
                        assert(false);
                    }
                    assert(w == is_winner(pre, i as int));
                }
            } else {
                proof {
                    assert(!is_winner(pre, i as int));
                }
            }
            flags[i] = w;
            if w {
                n += 1;
            }
            proof {
                assert forall|idx: int| 0 <= idx < NUM_SEATS implies flags@[idx] == (
                seat_offset(pre.button as int, idx) < o as int + 1 && is_winner(pre, idx)) by {
                    if idx == i as int {
                        assert(flags@[idx] == w);
                        assert(seat_offset(pre.button as int, idx) == o as int);
                        assert(w == is_winner(pre, idx));
                    } else {
                        lemma_seat_offset_roundtrip(pre.button as int, idx);
                        assert(flags@[idx] == oldflags[idx]);
                        assert(oldflags[idx] == (seat_offset(pre.button as int, idx) < o as int
                            && is_winner(pre, idx)));
                        assert(seat_offset(pre.button as int, idx) != o as int);
                    }
                }
            }
            o += 1;
        }
        proof {
            lemma_seat_offset_roundtrip(pre.button as int, bb);
            lemma_winner_count_pos(pre, seat_offset(pre.button as int, bb), 9);
            assert(n == winner_count(pre));
        }
        // Split the pot.
        let pot = self.pot;
        let nu = n as u64;
        let share = pot / nu;
        let rem = pot % nu;
        let ghost gshare = share as int;
        let ghost grem = rem as int;
        let ghost gn = n as int;
        let ghost presum = sum_slots(pre.seats@, chips_of());
        proof {
            vstd::arithmetic::div_mod::lemma_fundamental_div_mod(pot as int, gn);
            vstd::arithmetic::div_mod::lemma_mod_division_less_than_divisor(pot as int, gn);
            assert(gshare == pot as int / gn);
            assert(grem == pot as int % gn);
            assert(pot as int == gn * gshare + grem);
            assert(gshare >= 0);
            assert(forall|j: int|
                0 <= j < pre.seats@.len() ==> slot_value(#[trigger] pre.seats@[j], chips_of())
                    >= 0);
        }
        let mut w: usize = 0;
        let mut o: usize = 1;
        while o <= 9
            invariant
                pre.seats@.len() == NUM_SEATS,
                pre.button < NUM_SEATS,
                pre.stage == Stage::Showdown,
                pre.seats_ok(),
                pre.total_chips() <= CHIP_LIMIT,
                self.seats@.len() == NUM_SEATS,
                flags@.len() == NUM_SEATS,
                1 <= o <= 10,
                w == winners_in_offsets(pre, o as int - 1),
                w <= gn,
                gn == n as int,
                n >= 1,
                nu == n as u64,
                gshare == share as int,
                grem == rem as int,
                gn == winner_count(pre),
                pot as int == gshare * gn + grem,
                0 <= grem < gn,
                gshare >= 0,
                pot == pre.pot,
                presum == sum_slots(pre.seats@, chips_of()),
                presum + pre.pot == pre.total_chips(),
                forall|j: int|
                    0 <= j < pre.seats@.len() ==> slot_value(
                        #[trigger] pre.seats@[j],
                        chips_of(),
                    ) >= 0,
                forall|i: int|
                    pre.occupied(i) ==> !(#[trigger] pre.seat_at(i)).acted_this_round
                        && pre.seat_at(i).committed_this_round == 0,
                forall|idx: int|
                    0 <= idx < NUM_SEATS ==> (#[trigger] flags@[idx]) == is_winner(pre, idx),
                forall|idx: int|
                    0 <= idx < NUM_SEATS ==> #[trigger] self.seats@[idx] == (if seat_offset(
                        pre.button as int,
                        idx,
                    ) < o {
                        award_slot(pre, idx, gshare, grem)
                    } else {
                        pre.seats@[idx]
                    }),
                sum_slots(self.seats@, chips_of()) == presum + gshare * w + (if w <= grem {
                    w as int
                } else {
                    grem
                }),
                self.pot == pre.pot,
                self.stage == pre.stage,
                self.board == pre.board,
                self.community_cards == pre.community_cards,
                self.button == pre.button,
                self.hand_number == pre.hand_number,
                self.big_blind == pre.big_blind,
                self.combined_secret_material == pre.combined_secret_material,
                self.current_bet == pre.current_bet,
                self.to_act == pre.to_act,
            decreases 10 - o,
        {
            let i = (self.button + o) % 9;
            proof {
                lemma_seat_offset_inverse(pre.button as int, o as int);
                lemma_winners_monotone(pre, o as int, 9);
                lemma_winners_le(pre, o as int - 1);
            }
            let ghost oldseats = self.seats@;
            let ghost oldsum = sum_slots(self.seats@, chips_of());
            if flags[i] {
                let extra: u64 = if (w as u64) < rem {
                    1
                } else {
                    0
                };
                proof {
                    // The award never exceeds the pot.
                    assert(gshare * gn >= gshare * 1) by (nonlinear_arith)
                        requires
                            gn >= 1,
                            gshare >= 0,
                    ;
                    // The winner's wallet stays under the chip ceiling.
                    lemma_slot_le_sum(pre.seats@, i as int, chips_of());
                }
                let s = match &self.seats[i] {
                    Some(s) => *s,
                    None => Seat {
                        identity: 0,
                        wallet: 0,
                        committed_this_round: 0,
                        in_hand: false,
                        is_all_in: false,
                        acted_this_round: false,
                        hole_cards: None,
                        secret: 0,
                    },
                };
                let snew = Seat {
                    wallet: s.wallet + share + extra,
                    committed_this_round: 0,
                    acted_this_round: false,
                    ..s
                };
                self.seats[i] = Some(snew);
                w += 1;
                proof {
                    lemma_sum_slots_update(oldseats, i as int, Some(snew), chips_of());
                    assert(self.seats@ =~= oldseats.update(i as int, Some(snew)));
                    assert(gshare * (w as int) == gshare * (w as int - 1) + gshare)
                        by (nonlinear_arith);
                    assert(self.seats@[i as int] == award_slot(pre, i as int, gshare, grem));
                    assert forall|idx: int|
                        0 <= idx < NUM_SEATS implies #[trigger] self.seats@[idx] == (
                    if seat_offset(pre.button as int, idx) < o + 1 {
                        award_slot(pre, idx, gshare, grem)
                    } else {
                        pre.seats@[idx]
                    }) by {
                        if idx != i as int {
                            lemma_seat_offset_roundtrip(pre.button as int, idx);
                            assert(self.seats@[idx] == oldseats[idx]);
                        }
                    }
                }
            } else {
                proof {
                    assert(!is_winner(pre, i as int));
                    if pre.seats@[i as int] is Some {
                        assert(award_slot(pre, i as int, gshare, grem) == Some(
                            settle_seat(pre.seat_at(i as int)),
                        ));
                        assert(settle_seat(pre.seat_at(i as int)) == pre.seat_at(i as int));
                    }
                    assert forall|idx: int|
                        0 <= idx < NUM_SEATS implies #[trigger] self.seats@[idx] == (
                    if seat_offset(pre.button as int, idx) < o + 1 {
                        award_slot(pre, idx, gshare, grem)
                    } else {
                        pre.seats@[idx]
                    }) by {
                        if idx != i as int {
                            lemma_seat_offset_roundtrip(pre.button as int, idx);
                        }
                    }
                }
            }
            o += 1;
        }
        self.pot = 0;
        self.stage = Stage::HandComplete;
        proof {
            assert(w == gn);
            assert(sum_slots(self.seats@, chips_of()) == presum + gshare * gn + grem);
            assert(self.total_chips() == pre.total_chips());
            // Every slot carries the awarded value.
            assert forall|idx: int| 0 <= idx < pre.seats@.len() implies #[trigger] self.seats@[idx]
                == award_slot(pre, idx, gshare, grem) by {
                lemma_seat_offset_roundtrip(pre.button as int, idx);
            }
            // Well-formedness of the resting table.
            assert forall|idx: int| self.occupied(idx) implies self.seat_ok(
                #[trigger] self.seat_at(idx),
            ) by {
                assert(pre.occupied(idx));
                assert(pre.seat_ok(pre.seat_at(idx)));
            }
            assert forall|i1: int, j1: int|
                0 <= i1 < j1 < self.seats@.len() && self.seats@[i1] is Some && self.seats@[j1]
                    is Some implies (#[trigger] self.seats@[i1]).unwrap().identity != (
            #[trigger] self.seats@[j1]).unwrap().identity by {
                assert(pre.seats@[i1] is Some && pre.seats@[j1] is Some);
                assert(self.seats@[i1].unwrap().identity == pre.seats@[i1].unwrap().identity);
                assert(self.seats@[j1].unwrap().identity == pre.seats@[j1].unwrap().identity);
            }
        }
    }
}



// ---------------------------------------------------------------------------
// Congruence of the winner structure
// ---------------------------------------------------------------------------

/// Two tables stage the same contest: same board, same button, and every
/// slot equal up to the street bookkeeping that a sweep clears.
pub open spec fn same_contest(t1: Table, t2: Table) -> bool {
    &&& t1.seats@.len() == t2.seats@.len()
    &&& t1.board@ == t2.board@
    &&& t1.button == t2.button
    &&& forall|i: int|
        0 <= i < t1.seats@.len() ==> settle_slot(#[trigger] t1.seats@[i]) == settle_slot(
            #[trigger] t2.seats@[i],
        )
}

/// Winners agree between tables staging the same contest.
pub proof fn lemma_winner_congruent(t1: Table, t2: Table, i: int)
    requires
        same_contest(t1, t2),
    ensures
        is_winner(t1, i) == is_winner(t2, i),
{
    assert forall|x: int| t1.occupied(x) implies t2.occupied(x) && t1.seat_at(x).in_hand
        == t2.seat_at(x).in_hand && t1.seven_of(x) == t2.seven_of(x) by {
        assert(settle_slot(t1.seats@[x]) == settle_slot(t2.seats@[x]));
        assert(t1.seven_of(x) =~= t2.seven_of(x));
    }
    if is_winner(t1, i) {
        assert forall|j: int| t2.occupied(j) && (#[trigger] t2.seat_at(j)).in_hand implies
            hand_rank(t2.seven_of(i)) >= hand_rank(t2.seven_of(j)) by {
            assert(settle_slot(t1.seats@[j]) == settle_slot(t2.seats@[j]));
            assert(t1.occupied(j) && t1.seat_at(j).in_hand);
        }
        assert(is_winner(t2, i));
    }
    if is_winner(t2, i) {
        assert forall|x: int| t2.occupied(x) implies t1.occupied(x) && t2.seat_at(x).in_hand
            == t1.seat_at(x).in_hand && t2.seven_of(x) == t1.seven_of(x) by {
            assert(settle_slot(t1.seats@[x]) == settle_slot(t2.seats@[x]));
            assert(t2.seven_of(x) =~= t1.seven_of(x));
        }
        assert forall|j: int| t1.occupied(j) && (#[trigger] t1.seat_at(j)).in_hand implies
            hand_rank(t1.seven_of(i)) >= hand_rank(t1.seven_of(j)) by {
            assert(settle_slot(t1.seats@[j]) == settle_slot(t2.seats@[j]));
            assert(t2.occupied(j) && t2.seat_at(j).in_hand);
        }
        assert(is_winner(t1, i));
    }
}

/// Winner counts agree between tables staging the same contest.
pub proof fn lemma_winners_offsets_congruent(t1: Table, t2: Table, c: int)
    requires
        same_contest(t1, t2),
    ensures
        winners_in_offsets(t1, c) == winners_in_offsets(t2, c),
    decreases c,
{
    if c > 0 {
        lemma_winners_offsets_congruent(t1, t2, c - 1);
        lemma_winner_congruent(t1, t2, (t1.button + c) % 9);
    }
}

/// Awarded slots agree between tables staging the same contest.
pub proof fn lemma_award_congruent(t1: Table, t2: Table, i: int, share: int, rem: int)
    requires
        same_contest(t1, t2),
        0 <= i < t1.seats@.len(),
    ensures
        award_slot(t1, i, share, rem) == award_slot(t2, i, share, rem),
{
    lemma_winner_congruent(t1, t2, i);
    assert(settle_slot(t1.seats@[i]) == settle_slot(t2.seats@[i]));
    if t1.seats@[i] is Some {
        let s1 = t1.seats@[i].unwrap();
        let s2 = t2.seats@[i].unwrap();
        assert(settle_seat(s1) == settle_seat(s2));
        if is_winner(t1, i) {
            lemma_winners_offsets_congruent(t1, t2, seat_offset(t1.button as int, i) - 1);
        }
    }
}

// ---------------------------------------------------------------------------
// Closing a betting round
// ---------------------------------------------------------------------------

/// What closing a betting round does.  With two or more seats still able to
/// bet and streets left, the committed chips are swept into the pot, the
/// next street's cards are revealed, and the first active seat after the
/// button is put to act.  Otherwise the hand runs out to a resolved
/// showdown, with every chip that was in play standing in the pot.
pub open spec fn close_round_post(pre: Table, post: Table) -> bool {
    if pre.stage != Stage::River && pre.active_count() >= 2 {
        &&& post.stage == pre.stage.spec_next_round()
        &&& post.seats@.len() == pre.seats@.len()
        &&& forall|i: int|
            0 <= i < pre.seats@.len() ==> #[trigger] post.seats@[i] == settle_slot(
                pre.seats@[i],
            )
        &&& post.pot == pre.pot + committed_total(pre)
        &&& post.current_bet == 0
        &&& post.board == pre.board
        &&& post.community_cards@ == pre.board@.take(crate::stage::reveal_count(post.stage))
        &&& post.button == pre.button
        &&& post.hand_number == pre.hand_number
        &&& post.big_blind == pre.big_blind
        &&& post.combined_secret_material == pre.combined_secret_material
        &&& post.to_act is Some
        &&& Some(post.to_act.unwrap() as int) == crate::betting::first_active_offset(
            post,
            post.button as int,
            1,
        )
    } else {
        hand_resolved(pre, post, pre.pot + committed_total(pre))
    }
}

impl Table {
    /// Advance a settled table street by street: resume betting where two
    /// seats can still act, otherwise run the board out to the showdown.
    pub(crate) fn advance_stage_chain(&mut self)
        requires
            old(self).seats@.len() == NUM_SEATS,
            old(self).button < NUM_SEATS,
            1 <= old(self).big_blind <= BIG_BLIND_LIMIT,
            betting_open(old(self).stage),
            old(self).total_chips() <= CHIP_LIMIT,
            old(self).current_bet == 0,
            old(self).to_act is None,
            old(self).seats_ok(),
            old(self).idents_distinct(),
            old(self).cards_ok(),
            old(self).in_hand_count() >= 2,
            forall|i: int|
                old(self).occupied(i) ==> !(#[trigger] old(self).seat_at(i)).acted_this_round
                    && old(self).seat_at(i).committed_this_round == 0,
        ensures
            final(self).wf(),
            final(self).total_chips() == old(self).total_chips(),
            if old(self).stage != Stage::River && old(self).active_count() >= 2 {
                &&& final(self).stage == old(self).stage.spec_next_round()
                &&& final(self).seats@ == old(self).seats@
                &&& final(self).pot == old(self).pot
                &&& final(self).current_bet == 0
                &&& final(self).board == old(self).board
                &&& final(self).community_cards@ == old(self).board@.take(
                    crate::stage::reveal_count(final(self).stage),
                )
                &&& final(self).button == old(self).button
                &&& final(self).hand_number == old(self).hand_number
                &&& final(self).big_blind == old(self).big_blind
                &&& final(self).combined_secret_material == old(
                    self,
                ).combined_secret_material
                &&& final(self).to_act is Some
                &&& Some(final(self).to_act.unwrap() as int)
                    == crate::betting::first_active_offset(
                    *final(self),
                    final(self).button as int,
                    1,
                )
            } else {
                hand_resolved(*old(self), *final(self), old(self).pot as int)
            },
        decreases old(self).stage.distance_to_complete(),
    {
        let ghost pre = *self;
        let next = self.stage.next_round();
        if matches!(next, Stage::Showdown) {
            self.stage = Stage::Showdown;
            self.reveal_to(5);
            proof {
                assert forall|i: int| self.occupied(i) implies self.seat_ok(
                    #[trigger] self.seat_at(i),
                ) by {
                    assert(pre.seat_ok(pre.seat_at(i)));
                }
                assert forall|i: int|
                    self.occupied(i) && (#[trigger] self.seat_at(i)).in_hand implies
                    Table::hole_ok(self.board@, self.seat_at(i).hole_cards.unwrap()) by {
                    assert(pre.seat_at(i).in_hand);
                }
                assert forall|i: int| self.occupied(i) implies !(
                #[trigger] self.seat_at(i)).acted_this_round && self.seat_at(
                    i,
                ).committed_this_round == 0 by {
                    assert(pre.occupied(i));
                    assert(!pre.seat_at(i).acted_this_round && pre.seat_at(
                        i,
                    ).committed_this_round == 0);
                }
                assert(self.community_cards@ =~= self.board@);
                lemma_sum_slots_pointwise_eq(self.seats@, pre.seats@, chips_of(), chips_of());
                assert(self.total_chips() == pre.total_chips());
                lemma_sum_slots_pointwise_eq(
                    self.seats@,
                    pre.seats@,
                    crate::table::ind(in_hand_of()),
                    crate::table::ind(in_hand_of()),
                );
            }
            let ghost mid = *self;
            self.resolve_showdown();
            proof {
                assert(same_contest(mid, pre));
                lemma_winners_offsets_congruent(mid, pre, 9);
                assert forall|i: int| 0 <= i < pre.seats@.len() implies #[trigger] self.seats@[i]
                    == award_slot(
                    pre,
                    i,
                    pre.pot as int / winner_count(pre),
                    pre.pot as int % winner_count(pre),
                ) by {
                    lemma_award_congruent(
                        mid,
                        pre,
                        i,
                        pre.pot as int / winner_count(pre),
                        pre.pot as int % winner_count(pre),
                    );
                }
            }
        } else {
            self.stage = next;
            let target = self.stage.reveal_target();
            self.reveal_to(target);
            proof {
                assert forall|i: int| self.occupied(i) implies self.seat_ok(
                    #[trigger] self.seat_at(i),
                ) by {
                    assert(pre.seat_ok(pre.seat_at(i)));
                }
                assert forall|i: int|
                    self.occupied(i) && (#[trigger] self.seat_at(i)).in_hand implies
                    Table::hole_ok(self.board@, self.seat_at(i).hole_cards.unwrap()) by {
                    assert(pre.seat_at(i).in_hand);
                }
                assert forall|i: int| self.occupied(i) implies !(
                #[trigger] self.seat_at(i)).acted_this_round && self.seat_at(
                    i,
                ).committed_this_round == 0 by {
                    assert(pre.occupied(i));
                    assert(!pre.seat_at(i).acted_this_round && pre.seat_at(
                        i,
                    ).committed_this_round == 0);
                }
                lemma_sum_slots_pointwise_eq(self.seats@, pre.seats@, chips_of(), chips_of());
                lemma_sum_slots_pointwise_eq(
                    self.seats@,
                    pre.seats@,
                    crate::table::ind(in_hand_of()),
                    crate::table::ind(in_hand_of()),
                );
                lemma_sum_slots_pointwise_eq(
                    self.seats@,
                    pre.seats@,
                    crate::table::ind(crate::table::active_of()),
                    crate::table::ind(crate::table::active_of()),
                );
            }
            if self.count_active() >= 2 {
                let a = self.next_active(self.button, 1);
                match a {
                    Some(i) => {
                        let ghost mid = *self;
                        self.to_act = Some(i);
                        proof {
                            crate::betting::lemma_scan_active_some(mid, mid.button as int, 1);
                            crate::betting::lemma_scan_active_congruent(
                                mid,
                                *self,
                                self.button as int,
                                1,
                            );
                            crate::table::lemma_seats_ok_congruent(mid, *self);
                            crate::table::lemma_cards_ok_congruent(mid, *self);
                        }
                    },
                    None => {
                        proof {
                            lemma_count_pos(self.seats@, crate::table::active_of());
                            let wtn = choose|j: int|
                                0 <= j < self.seats@.len() && #[trigger] self.seats@[j] is Some
                                    && crate::table::active_of()(self.seats@[j].unwrap());
                            assert(crate::betting::active_at(*self, wtn));
                            crate::betting::lemma_scan_active_complete(
                                *self,
                                self.button as int,
                            );
                            assert(false);
                        }
                    },
                }
            } else {
                let ghost mid = *self;
                self.advance_stage_chain();
                proof {
                    assert(same_contest(mid, pre));
                    lemma_winners_offsets_congruent(mid, pre, 9);
                    assert forall|i: int| 0 <= i < pre.seats@.len() implies #[trigger] self.seats@[i]
                        == award_slot(
                        pre,
                        i,
                        pre.pot as int / winner_count(pre),
                        pre.pot as int % winner_count(pre),
                    ) by {
                        lemma_award_congruent(
                            mid,
                            pre,
                            i,
                            pre.pot as int / winner_count(pre),
                            pre.pot as int % winner_count(pre),
                        );
                    }
                }
            }
        }
    }
}


/// What a fold that leaves one contender does to slot `i`: the survivor
/// collects the pot and every street commitment; all bookkeeping is swept.
pub open spec fn fold_win_slot(pre: Table, i: int, winner: int) -> Option<Seat> {
    match pre.seats@[i] {
        Some(s) => if i == winner {
            Some(
                Seat {
                    wallet: (s.wallet + pre.pot + committed_total(pre)) as u64,
                    committed_this_round: 0,
                    acted_this_round: false,
                    ..s
                },
            )
        } else {
            Some(settle_seat(s))
        },
        None => None,
    }
}

/// The hand ends in the sole remaining contender's favor, with no showdown
/// and no further card revealed.
pub open spec fn fold_won(pre: Table, post: Table, winner: int) -> bool {
    &&& post.stage == Stage::HandComplete
    &&& post.pot == 0
    &&& post.current_bet == 0
    &&& post.to_act is None
    &&& post.seats@.len() == pre.seats@.len()
    &&& forall|i: int|
        0 <= i < pre.seats@.len() ==> #[trigger] post.seats@[i] == fold_win_slot(
            pre,
            i,
            winner,
        )
    &&& post.community_cards == pre.community_cards
    &&& post.board == pre.board
    &&& post.button == pre.button
    &&& post.hand_number == pre.hand_number
    &&& post.big_blind == pre.big_blind
    &&& post.combined_secret_material == pre.combined_secret_material
}

impl Table {
    /// Close the open betting round: sweep the street, then either resume
    /// betting on the next street or run the hand out to resolution.
    pub(crate) fn close_round(&mut self)
        requires
            old(self).wf_no_turn(),
            betting_open(old(self).stage),
        ensures
            final(self).wf(),
            final(self).total_chips() == old(self).total_chips(),
            close_round_post(*old(self), *final(self)),
    {
        let ghost pre = *self;
        self.settle_street();
        proof {
            lemma_sum_slots_pointwise_eq(
                self.seats@,
                pre.seats@,
                crate::table::ind(in_hand_of()),
                crate::table::ind(in_hand_of()),
            );
            lemma_sum_slots_pointwise_eq(
                self.seats@,
                pre.seats@,
                crate::table::ind(crate::table::active_of()),
                crate::table::ind(crate::table::active_of()),
            );
            assert forall|i: int| self.occupied(i) implies self.seat_ok(
                #[trigger] self.seat_at(i),
            ) by {
                assert(pre.seat_ok(pre.seat_at(i)));
                assert(self.seats@[i] == settle_slot(pre.seats@[i]));
            }
            assert forall|i: int|
                self.occupied(i) && (#[trigger] self.seat_at(i)).in_hand implies Table::hole_ok(
                self.board@,
                self.seat_at(i).hole_cards.unwrap(),
            ) by {
                assert(self.seats@[i] == settle_slot(pre.seats@[i]));
                assert(pre.seat_at(i).in_hand);
            }
            assert forall|i: int, j: int|
                0 <= i < j < self.seats@.len() && self.seats@[i] is Some && self.seats@[j]
                    is Some implies (#[trigger] self.seats@[i]).unwrap().identity != (
            #[trigger] self.seats@[j]).unwrap().identity by {
                assert(self.seats@[i] == settle_slot(pre.seats@[i]));
                assert(self.seats@[j] == settle_slot(pre.seats@[j]));
                assert(pre.seats@[i].unwrap().identity != pre.seats@[j].unwrap().identity);
            }
            assert forall|i: int| self.occupied(i) implies !(
            #[trigger] self.seat_at(i)).acted_this_round && self.seat_at(
                i,
            ).committed_this_round == 0 by {
                assert(self.seats@[i] == settle_slot(pre.seats@[i]));
            }
        }
        let ghost mid = *self;
        self.advance_stage_chain();
        proof {
            if pre.stage != Stage::River && pre.active_count() >= 2 {
                assert forall|i: int| 0 <= i < pre.seats@.len() implies #[trigger] self.seats@[i]
                    == settle_slot(pre.seats@[i]) by {
                    assert(self.seats@[i] == mid.seats@[i]);
                }
            } else {
                assert forall|i: int|
                    0 <= i < mid.seats@.len() implies settle_slot(#[trigger] mid.seats@[i])
                    == settle_slot(#[trigger] pre.seats@[i]) by {
                    assert(mid.seats@[i] == settle_slot(pre.seats@[i]));
                }
                assert(same_contest(mid, pre));
                lemma_winners_offsets_congruent(mid, pre, 9);
                let pot_all = pre.pot + committed_total(pre);
                let n = winner_count(pre);
                assert forall|i: int| 0 <= i < pre.seats@.len() implies #[trigger] self.seats@[i]
                    == award_slot(pre, i, pot_all / n, pot_all % n) by {
                    lemma_award_congruent(mid, pre, i, pot_all / n, pot_all % n);
                }
            }
        }
    }

    /// End the hand at once in favor of the only seat still contesting it:
    /// sweep the street, hand the whole pot over, and rest in
    /// `HandComplete`.
    pub(crate) fn end_hand_fold(&mut self, winner: usize)
        requires
            old(self).seats@.len() == NUM_SEATS,
            old(self).button < NUM_SEATS,
            1 <= old(self).big_blind <= BIG_BLIND_LIMIT,
            betting_open(old(self).stage),
            old(self).total_chips() <= CHIP_LIMIT,
            old(self).seats_ok(),
            old(self).idents_distinct(),
            old(self).cards_ok(),
            winner < NUM_SEATS,
            old(self).occupied(winner as int),
        ensures
            final(self).wf(),
            final(self).total_chips() == old(self).total_chips(),
            fold_won(*old(self), *final(self), winner as int),
    {
        let ghost pre = *self;
        self.settle_street();
        let ghost mid = *self;
        proof {
            assert(mid.seats@[winner as int] == settle_slot(pre.seats@[winner as int]));
            assert(forall|j: int|
                0 <= j < mid.seats@.len() ==> slot_value(#[trigger] mid.seats@[j], chips_of())
                    >= 0) by {
                assert(forall|j: int|
                    0 <= j < mid.seats@.len() ==> #[trigger] mid.seats@[j] == settle_slot(
                        pre.seats@[j],
                    ));
            }
            lemma_slot_le_sum(mid.seats@, winner as int, chips_of());
        }
        let pot = self.pot;
        let s = match &self.seats[winner] {
            Some(s) => *s,
            None => Seat {
                identity: 0,
                wallet: 0,
                committed_this_round: 0,
                in_hand: false,
                is_all_in: false,
                acted_this_round: false,
                hole_cards: None,
                secret: 0,
            },
        };
        let snew = Seat { wallet: s.wallet + pot, ..s };
        self.seats[winner] = Some(snew);
        self.pot = 0;
        self.stage = Stage::HandComplete;
        proof {
            let k = winner as int;
            assert(self.seats@ =~= mid.seats@.update(k, Some(snew)));
            lemma_sum_slots_update(mid.seats@, k, Some(snew), chips_of());
            assert forall|i: int| 0 <= i < pre.seats@.len() implies #[trigger] self.seats@[i]
                == fold_win_slot(pre, i, k) by {
                if i != k {
                    assert(self.seats@[i] == mid.seats@[i]);
                    assert(mid.seats@[i] == settle_slot(pre.seats@[i]));
                } else {
                    assert(mid.seats@[k] == settle_slot(pre.seats@[k]));
                }
            }
            assert forall|i: int| self.occupied(i) implies self.seat_ok(
                #[trigger] self.seat_at(i),
            ) by {
                assert(self.seats@[i] == fold_win_slot(pre, i, k));
                assert(pre.seat_ok(pre.seat_at(i)));
            }
            assert forall|i: int, j: int|
                0 <= i < j < self.seats@.len() && self.seats@[i] is Some && self.seats@[j]
                    is Some implies (#[trigger] self.seats@[i]).unwrap().identity != (
            #[trigger] self.seats@[j]).unwrap().identity by {
                assert(self.seats@[i] == fold_win_slot(pre, i, k));
                assert(self.seats@[j] == fold_win_slot(pre, j, k));
                assert(pre.seats@[i].unwrap().identity != pre.seats@[j].unwrap().identity);
            }
            assert(self.community_cards@.len() <= 5);
        }
    }
}

} // verus!
