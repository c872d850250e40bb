use vstd::prelude::*;

use crate::errors::Error;
use crate::seat::Seat;
use crate::stage::{betting_open, hand_live, reveal_count, Stage};

verus! {

/// Number of physical positions at the table.
pub const NUM_SEATS: usize = 9;

/// The minimum buy-in, in big blinds.
pub const MIN_BUY_IN_BLINDS: u64 = 20;

/// The maximum buy-in, in big blinds.
pub const MAX_BUY_IN_BLINDS: u64 = 100;

/// Largest configurable big blind.  Keeps every buy-in bound well inside
/// `u64`.
pub const BIG_BLIND_LIMIT: u64 = 0x1_0000_0000_0000;

/// Hard ceiling on the chips a table may hold in play at once.  Deposits
/// that would push the table above it are rejected, which keeps every pot
/// and wallet computation free of overflow.
pub const CHIP_LIMIT: u64 = 0x4000_0000_0000_0000;

/// The single mutable aggregate: one table across many hands.
///
/// `seats` always holds exactly [`NUM_SEATS`] entries; `None` marks an empty
/// position.  `board` holds the five community cards pre-dealt for the
/// running hand, of which only the prefix `community_cards` is revealed.
#[derive(Clone, Debug, PartialEq, Eq)]
pub struct Table {
    /// Strictly increasing hand counter, the domain separator of the shuffle
    /// seed.
    pub hand_number: u64,
    /// The indexed seat arena; position = physical seat.
    pub seats: Vec<Option<Seat>>,
    /// Dealer marker; advances among occupied seats each hand.
    pub button: usize,
    /// Whose action is awaited; `None` when no betting round is open.
    pub to_act: Option<usize>,
    /// Where the table stands in the current hand.
    pub stage: Stage,
    /// The community cards revealed so far, in reveal order.
    pub community_cards: Vec<u8>,
    /// All five community cards of the running hand, revealed street by
    /// street.  Hidden from any public view.
    pub board: Vec<u8>,
    /// The concatenated seat secrets and hand number the running hand's deck
    /// seed was derived from.  Hidden from any public view.
    pub combined_secret_material: Vec<u8>,
    /// The largest outstanding per-seat commitment this street.
    pub current_bet: u64,
    /// Chips wagered on earlier streets and not yet distributed.
    pub pot: u64,
    /// The configured big blind unit.
    pub big_blind: u64,
}

// ---------------------------------------------------------------------------
// Sums and counts over the seat arena
// ---------------------------------------------------------------------------

/// The value a measure assigns to a possibly empty seat slot.
pub open spec fn slot_value(s: Option<Seat>, g: spec_fn(Seat) -> int) -> int {
    match s {
        Some(seat) => g(seat),
        None => 0,
    }
}

/// Sum of a per-seat measure over the whole arena; empty slots count zero.
pub open spec fn sum_slots(ss: Seq<Option<Seat>>, g: spec_fn(Seat) -> int) -> int
    decreases ss.len(),
{
    if ss.len() == 0 {
        0
    } else {
        sum_slots(ss.drop_last(), g) + slot_value(ss.last(), g)
    }
}

/// The always-true predicate: counts every occupied seat.
pub open spec fn occupied_of() -> spec_fn(Seat) -> bool {
    |s: Seat| true
}

/// The still-contesting predicate.
pub open spec fn in_hand_of() -> spec_fn(Seat) -> bool {
    |s: Seat| s.in_hand
}

/// The can-still-bet predicate: contesting and not all-in.
pub open spec fn active_of() -> spec_fn(Seat) -> bool {
    |s: Seat| s.in_hand && !s.is_all_in
}

/// The holds-chips predicate.
pub open spec fn funded_of() -> spec_fn(Seat) -> bool {
    |s: Seat| s.wallet > 0
}

/// The 0/1 measure of a seat predicate, for counting.
pub open spec fn ind(f: spec_fn(Seat) -> bool) -> spec_fn(Seat) -> int {
    |s: Seat| if f(s) { 1int } else { 0int }
}

/// Count of occupied seats satisfying a predicate.
pub open spec fn count_slots(ss: Seq<Option<Seat>>, f: spec_fn(Seat) -> bool) -> int {
    sum_slots(ss, ind(f))
}

/// The chips-in-play measure: wallet plus street commitment.
pub open spec fn chips_of() -> spec_fn(Seat) -> int {
    |s: Seat| s.wallet + s.committed_this_round
}

/// The street-commitment measure.
pub open spec fn committed_of() -> spec_fn(Seat) -> int {
    |s: Seat| s.committed_this_round as int
}

/// The wallet measure.
pub open spec fn wallet_of() -> spec_fn(Seat) -> int {
    |s: Seat| s.wallet as int
}

/// A pointwise smaller measure sums to no more.
pub proof fn lemma_sum_slots_le(
    ss: Seq<Option<Seat>>,
    g1: spec_fn(Seat) -> int,
    g2: spec_fn(Seat) -> int,
)
    requires
        forall|i: int|
            0 <= i < ss.len() ==> slot_value(#[trigger] ss[i], g1) <= slot_value(ss[i], g2),
    ensures
        sum_slots(ss, g1) <= sum_slots(ss, g2),
    decreases ss.len(),
{
    if ss.len() > 0 {
        assert(forall|i: int| 0 <= i < ss.drop_last().len() ==> ss.drop_last()[i] == ss[i]);
        lemma_sum_slots_le(ss.drop_last(), g1, g2);
        assert(ss.last() == ss[ss.len() - 1]);
    }
}

/// Two arenas whose slots measure the same, sum the same.
pub proof fn lemma_sum_slots_pointwise_eq(
    ss1: Seq<Option<Seat>>,
    ss2: Seq<Option<Seat>>,
    g1: spec_fn(Seat) -> int,
    g2: spec_fn(Seat) -> int,
)
    requires
        ss1.len() == ss2.len(),
        forall|i: int|
            0 <= i < ss1.len() ==> slot_value(#[trigger] ss1[i], g1) == slot_value(
                #[trigger] ss2[i],
                g2,
            ),
    ensures
        sum_slots(ss1, g1) == sum_slots(ss2, g2),
    decreases ss1.len(),
{
    if ss1.len() > 0 {
        assert(forall|i: int|
            0 <= i < ss1.drop_last().len() ==> ss1.drop_last()[i] == ss1[i]
                && ss2.drop_last()[i] == ss2[i]);
        lemma_sum_slots_pointwise_eq(ss1.drop_last(), ss2.drop_last(), g1, g2);
        assert(ss1.last() == ss1[ss1.len() - 1]);
        assert(ss2.last() == ss2[ss2.len() - 1]);
    }
}

/// A measure that splits pointwise into two sums to their sums' total.
pub proof fn lemma_sum_slots_linear(
    ss: Seq<Option<Seat>>,
    g: spec_fn(Seat) -> int,
    g1: spec_fn(Seat) -> int,
    g2: spec_fn(Seat) -> int,
)
    requires
        forall|i: int|
            0 <= i < ss.len() ==> slot_value(#[trigger] ss[i], g) == slot_value(ss[i], g1)
                + slot_value(ss[i], g2),
    ensures
        sum_slots(ss, g) == sum_slots(ss, g1) + sum_slots(ss, g2),
    decreases ss.len(),
{
    if ss.len() > 0 {
        assert(forall|i: int| 0 <= i < ss.drop_last().len() ==> ss.drop_last()[i] == ss[i]);
        lemma_sum_slots_linear(ss.drop_last(), g, g1, g2);
        assert(ss.last() == ss[ss.len() - 1]);
    }
}

/// Replacing one slot changes a sum by exactly the difference of the two
/// slots' measures.
pub proof fn lemma_sum_slots_update(
    ss: Seq<Option<Seat>>,
    i: int,
    v: Option<Seat>,
    g: spec_fn(Seat) -> int,
)
    requires
        0 <= i < ss.len(),
    ensures
        sum_slots(ss.update(i, v), g) == sum_slots(ss, g) - slot_value(ss[i], g) + slot_value(
            v,
            g,
        ),
    decreases ss.len(),
{
    if i == ss.len() - 1 {
        assert(ss.update(i, v).drop_last() =~= ss.drop_last());
        assert(ss.update(i, v).last() == v);
    } else {
        lemma_sum_slots_update(ss.drop_last(), i, v, g);
        assert(ss.update(i, v).drop_last() =~= ss.drop_last().update(i, v));
        assert(ss.update(i, v).last() == ss.last());
    }
}

/// One more slot extends a prefix sum by that slot's measure.
pub proof fn lemma_sum_slots_take_step(ss: Seq<Option<Seat>>, i: int, g: spec_fn(Seat) -> int)
    requires
        0 <= i < ss.len(),
    ensures
        sum_slots(ss.take(i + 1), g) == sum_slots(ss.take(i), g) + slot_value(ss[i], g),
{
    assert(ss.take(i + 1).drop_last() =~= ss.take(i));
    assert(ss.take(i + 1).last() == ss[i]);
}

/// The prefix of full length is the whole sum.
pub proof fn lemma_sum_slots_take_full(ss: Seq<Option<Seat>>, g: spec_fn(Seat) -> int)
    ensures
        sum_slots(ss.take(ss.len() as int), g) == sum_slots(ss, g),
{
    assert(ss.take(ss.len() as int) =~= ss);
}

/// A sum of nonnegative measures is nonnegative.
pub proof fn lemma_sum_slots_nonneg(ss: Seq<Option<Seat>>, g: spec_fn(Seat) -> int)
    requires
        forall|i: int| 0 <= i < ss.len() ==> slot_value(#[trigger] ss[i], g) >= 0,
    ensures
        sum_slots(ss, g) >= 0,
    decreases ss.len(),
{
    if ss.len() > 0 {
        assert(forall|i: int|
            0 <= i < ss.drop_last().len() ==> slot_value(#[trigger] ss.drop_last()[i], g)
                >= 0) by {
            assert(forall|i: int| 0 <= i < ss.drop_last().len() ==> ss.drop_last()[i] == ss[i]);
        }
        lemma_sum_slots_nonneg(ss.drop_last(), g);
        assert(ss.last() == ss[ss.len() - 1]);
    }
}

/// Under a nonnegative measure, a prefix sum never exceeds the whole sum.
pub proof fn lemma_sum_slots_prefix_le(ss: Seq<Option<Seat>>, i: int, g: spec_fn(Seat) -> int)
    requires
        0 <= i <= ss.len(),
        forall|j: int| 0 <= j < ss.len() ==> slot_value(#[trigger] ss[j], g) >= 0,
    ensures
        sum_slots(ss.take(i), g) <= sum_slots(ss, g),
    decreases ss.len(),
{
    if i == ss.len() {
        lemma_sum_slots_take_full(ss, g);
    } else {
        assert(forall|j: int|
            0 <= j < ss.drop_last().len() ==> slot_value(#[trigger] ss.drop_last()[j], g) >= 0) by {
            assert(forall|j: int| 0 <= j < ss.drop_last().len() ==> ss.drop_last()[j] == ss[j]);
        }
        lemma_sum_slots_prefix_le(ss.drop_last(), i, g);
        assert(ss.drop_last().take(i) =~= ss.take(i));
        assert(ss.last() == ss[ss.len() - 1]);
    }
}

/// Under a nonnegative measure, one slot never exceeds the whole sum.
pub proof fn lemma_slot_le_sum(ss: Seq<Option<Seat>>, i: int, g: spec_fn(Seat) -> int)
    requires
        0 <= i < ss.len(),
        forall|j: int| 0 <= j < ss.len() ==> slot_value(#[trigger] ss[j], g) >= 0,
    ensures
        slot_value(ss[i], g) <= sum_slots(ss, g),
{
    lemma_sum_slots_take_step(ss, i, g);
    lemma_sum_slots_nonneg(ss.take(i), g);
    lemma_sum_slots_prefix_le(ss, i + 1, g);
}

/// A slot that satisfies the predicate puts the count at one or more.
pub proof fn lemma_count_witness(ss: Seq<Option<Seat>>, f: spec_fn(Seat) -> bool, i: int)
    requires
        0 <= i < ss.len(),
        ss[i] is Some,
        f(ss[i].unwrap()),
    ensures
        count_slots(ss, f) >= 1,
{
    lemma_sum_slots_update(ss, i, None, ind(f));
    assert(forall|j: int|
        0 <= j < ss.update(i, None).len() ==> slot_value(
            #[trigger] ss.update(i, None)[j],
            ind(f),
        ) >= 0);
    lemma_sum_slots_nonneg(ss.update(i, None), ind(f));
}

/// A positive count yields a witness slot.
pub proof fn lemma_count_pos(ss: Seq<Option<Seat>>, f: spec_fn(Seat) -> bool)
    requires
        count_slots(ss, f) > 0,
    ensures
        exists|i: int|
            0 <= i < ss.len() && #[trigger] ss[i] is Some && f(ss[i].unwrap()),
    decreases ss.len(),
{
    if ss.len() > 0 {
        let last = ss[ss.len() - 1];
        assert(ss.last() == last);
        if last is Some && f(last.unwrap()) {
        } else {
            assert(slot_value(last, ind(f)) == 0);
            lemma_count_pos(ss.drop_last(), f);
            let w = choose|i: int|
                0 <= i < ss.drop_last().len() && #[trigger] ss.drop_last()[i] is Some && f(
                    ss.drop_last()[i].unwrap(),
                );
            assert(ss[w] == ss.drop_last()[w]);
        }
    }
}

/// A count never exceeds the number of slots.
pub proof fn lemma_count_le_len(ss: Seq<Option<Seat>>, f: spec_fn(Seat) -> bool)
    ensures
        0 <= count_slots(ss, f) <= ss.len(),
    decreases ss.len(),
{
    if ss.len() > 0 {
        lemma_count_le_len(ss.drop_last(), f);
    }
}

/// A count of one admits only one witness slot.
pub proof fn lemma_count_unique(ss: Seq<Option<Seat>>, f: spec_fn(Seat) -> bool, i: int, j: int)
    requires
        count_slots(ss, f) == 1,
        0 <= i < ss.len(),
        0 <= j < ss.len(),
        ss[i] is Some && f(ss[i].unwrap()),
        ss[j] is Some && f(ss[j].unwrap()),
    ensures
        i == j,
{
    if i != j {
        lemma_sum_slots_update(ss, i, None, ind(f));
        let ss2 = ss.update(i, None);
        assert(ss2[j] == ss[j]);
        lemma_count_witness(ss2, f, j);
    }
}

/// A count of two or more admits two distinct witness slots.
pub proof fn lemma_count_two(ss: Seq<Option<Seat>>, f: spec_fn(Seat) -> bool)
    requires
        count_slots(ss, f) >= 2,
    ensures
        exists|i: int, j: int|
            0 <= i < ss.len() && 0 <= j < ss.len() && i != j && #[trigger] ss[i] is Some
                && #[trigger] ss[j] is Some && f(ss[i].unwrap()) && f(ss[j].unwrap()),
{
    lemma_count_pos(ss, f);
    let i = choose|i: int|
        0 <= i < ss.len() && #[trigger] ss[i] is Some && f(ss[i].unwrap());
    lemma_sum_slots_update(ss, i, None, ind(f));
    let ss2 = ss.update(i, None);
    lemma_count_pos(ss2, f);
    let j = choose|j: int|
        0 <= j < ss2.len() && #[trigger] ss2[j] is Some && f(ss2[j].unwrap());
    assert(j != i);
    assert(ss[j] == ss2[j]);
    assert(ss[i] is Some && ss[j] is Some && f(ss[i].unwrap()) && f(ss[j].unwrap()));
}

// ---------------------------------------------------------------------------
// Table-level specification helpers
// ---------------------------------------------------------------------------

impl Table {
    /// Slot `i` holds a seat.
    pub open spec fn occupied(self, i: int) -> bool {
        0 <= i < self.seats@.len() && self.seats@[i] is Some
    }

    /// The seat at slot `i` (meaningful only when occupied).
    pub open spec fn seat_at(self, i: int) -> Seat {
        self.seats@[i].unwrap()
    }

    /// Slot `i` holds the seat of player `id`.
    pub open spec fn seated_with(self, i: int, id: u64) -> bool {
        self.occupied(i) && self.seat_at(i).identity == id
    }

    /// Some seat belongs to player `id`.
    pub open spec fn has_player(self, id: u64) -> bool {
        exists|i: int| self.seated_with(i, id)
    }

    /// The slot of player `id`'s seat (meaningful only when seated; unique
    /// because identities are never reused across seats).
    pub open spec fn player_index(self, id: u64) -> int {
        choose|i: int| self.seated_with(i, id)
    }

    /// Every chip the table is responsible for: all wallets, all street
    /// commitments, and the pot.
    pub open spec fn total_chips(self) -> int {
        sum_slots(self.seats@, chips_of()) + self.pot
    }

    /// Number of occupied seats.
    pub open spec fn occupied_count(self) -> int {
        count_slots(self.seats@, occupied_of())
    }

    /// Number of seats still contesting the running hand.
    pub open spec fn in_hand_count(self) -> int {
        count_slots(self.seats@, in_hand_of())
    }

    /// Number of seats that can still put chips in: contesting and not
    /// all-in.
    pub open spec fn active_count(self) -> int {
        count_slots(self.seats@, active_of())
    }

    /// Number of occupied seats holding at least one chip.
    pub open spec fn funded_count(self) -> int {
        count_slots(self.seats@, funded_of())
    }

    /// Smallest admissible deposit on `Join`.
    pub open spec fn min_buy_in(self) -> int {
        MIN_BUY_IN_BLINDS * self.big_blind
    }

    /// Largest admissible wallet a deposit may establish.
    pub open spec fn max_buy_in(self) -> int {
        MAX_BUY_IN_BLINDS * self.big_blind
    }

    /// A card sequence drawn off one deck: all ids below 52, no repeats.
    pub open spec fn card_seq_ok(s: Seq<u8>) -> bool {
        &&& forall|a: int| 0 <= a < s.len() ==> #[trigger] s[a] < 52
        &&& forall|a: int, b: int| 0 <= a < b < s.len() ==> s[a] != s[b]
    }

    /// A seat's hole cards fit the board: fresh ids that repeat neither each
    /// other nor any board card.
    pub open spec fn hole_ok(board: Seq<u8>, h: (u8, u8)) -> bool {
        &&& h.0 < 52
        &&& h.1 < 52
        &&& h.0 != h.1
        &&& !board.contains(h.0)
        &&& !board.contains(h.1)
    }

    /// The seven cards seat `i` goes to showdown with: the board, then its
    /// two hole cards.
    pub open spec fn seven_of(self, i: int) -> Seq<u8> {
        self.board@ + seq![self.seat_at(i).hole_cards.unwrap().0, self.seat_at(i).hole_cards.unwrap().1]
    }

    /// What every seat must satisfy in this table's stage.
    pub open spec fn seat_ok(self, s: Seat) -> bool {
        &&& s.committed_this_round <= self.current_bet
        &&& (!betting_open(self.stage) ==> s.committed_this_round == 0)
        &&& (s.is_all_in ==> s.in_hand)
        &&& (betting_open(self.stage) && s.is_all_in ==> s.wallet == 0)
        &&& (hand_live(self.stage) && s.in_hand ==> s.hole_cards is Some)
        &&& (self.stage == Stage::WaitingForPlayers ==> !s.in_hand)
    }

    /// Per-seat invariants.
    pub open spec fn seats_ok(self) -> bool {
        forall|i: int| self.occupied(i) ==> self.seat_ok(#[trigger] self.seat_at(i))
    }

    /// No player handle is ever shared by two seats.
    pub open spec fn idents_distinct(self) -> bool {
        forall|i: int, j: int|
            0 <= i < j < self.seats@.len() && self.seats@[i] is Some && self.seats@[j] is Some
                ==> (#[trigger] self.seats@[i]).unwrap().identity != (
            #[trigger] self.seats@[j]).unwrap().identity
    }

    /// The awaited actor exists, contests the hand and is not all-in; and
    /// action is awaited exactly while a betting round is open.
    pub open spec fn turn_ok(self) -> bool {
        match self.to_act {
            Some(i) => betting_open(self.stage) && self.occupied(i as int) && self.seat_at(
                i as int,
            ).in_hand && !self.seat_at(i as int).is_all_in,
            None => !betting_open(self.stage),
        }
    }

    /// Card bookkeeping of a live hand: a full distinct board of which
    /// exactly the stage's prefix is revealed, and coherent hole cards for
    /// every contesting seat.
    pub open spec fn cards_ok(self) -> bool {
        hand_live(self.stage) ==> {
            &&& self.board@.len() == 5
            &&& Self::card_seq_ok(self.board@)
            &&& self.community_cards@ == self.board@.take(reveal_count(self.stage))
            &&& forall|i: int|
                self.occupied(i) && (#[trigger] self.seat_at(i)).in_hand ==> Self::hole_ok(
                    self.board@,
                    self.seat_at(i).hole_cards.unwrap(),
                )
        }
    }

    /// Stage-global invariants.
    pub open spec fn stage_ok(self) -> bool {
        &&& (self.stage == Stage::WaitingForPlayers ==> self.pot == 0
            && self.community_cards@.len() == 0 && self.board@.len() == 0)
        &&& (self.stage == Stage::HandComplete ==> self.pot == 0 && self.community_cards@.len()
            <= 5)
        &&& (!betting_open(self.stage) ==> self.current_bet == 0)
        &&& (betting_open(self.stage) ==> self.in_hand_count() >= 2)
        &&& (self.stage == Stage::Showdown ==> self.in_hand_count() >= 1)
    }

    /// Everything of [`Table::wf`] except the turn tracking; the invariant
    /// of tables passing between the internal phases of one action.
    pub open spec fn wf_no_turn(self) -> bool {
        &&& self.seats@.len() == NUM_SEATS
        &&& self.button < NUM_SEATS
        &&& 1 <= self.big_blind <= BIG_BLIND_LIMIT
        &&& self.total_chips() <= CHIP_LIMIT
        &&& self.current_bet <= CHIP_LIMIT
        &&& self.seats_ok()
        &&& self.idents_distinct()
        &&& self.cards_ok()
        &&& self.stage_ok()
    }

    /// Well-formedness: what holds of the table after every operation.
    pub open spec fn wf(self) -> bool {
        &&& self.wf_no_turn()
        &&& self.turn_ok()
    }

    /// All chips measures are nonnegative; the total bounds each seat.
    pub proof fn lemma_seat_chips_le_total(self, i: int)
        requires
            0 <= i < self.seats@.len(),
        ensures
            slot_value(self.seats@[i], chips_of()) <= self.total_chips() - self.pot,
            sum_slots(self.seats@, chips_of()) >= 0,
    {
        assert(forall|j: int|
            0 <= j < self.seats@.len() ==> slot_value(#[trigger] self.seats@[j], chips_of())
                >= 0);
        lemma_slot_le_sum(self.seats@, i, chips_of());
        lemma_sum_slots_nonneg(self.seats@, chips_of());
    }
}

/// Updating one slot preserves the per-seat invariants when the new slot
/// satisfies them and the stage-side context is unchanged.
pub proof fn lemma_seats_ok_after_update(pre: Table, post: Table, k: int, v: Option<Seat>)
    requires
        pre.seats_ok(),
        0 <= k < pre.seats@.len(),
        post.seats@ == pre.seats@.update(k, v),
        post.current_bet == pre.current_bet,
        post.stage == pre.stage,
        v matches Some(s) ==> post.seat_ok(s),
    ensures
        post.seats_ok(),
{
    assert forall|i: int| post.occupied(i) implies post.seat_ok(#[trigger] post.seat_at(i)) by {
        if i != k {
            assert(post.seats@[i] == pre.seats@[i]);
            assert(pre.occupied(i));
            assert(pre.seat_ok(pre.seat_at(i)));
        }
    }
}

/// The per-seat invariants carry over to any table with the same seats,
/// stage and outstanding bet.
pub proof fn lemma_seats_ok_congruent(t1: Table, t2: Table)
    requires
        t1.seats_ok(),
        t2.seats@ == t1.seats@,
        t2.current_bet == t1.current_bet,
        t2.stage == t1.stage,
    ensures
        t2.seats_ok(),
{
    assert forall|i: int| t2.occupied(i) implies t2.seat_ok(#[trigger] t2.seat_at(i)) by {
        assert(t1.seat_ok(t1.seat_at(i)));
    }
}

/// Card coherence carries over to any table with the same seats, stage and
/// cards.
pub proof fn lemma_cards_ok_congruent(t1: Table, t2: Table)
    requires
        t1.cards_ok(),
        t2.seats@ == t1.seats@,
        t2.stage == t1.stage,
        t2.board == t1.board,
        t2.community_cards == t1.community_cards,
    ensures
        t2.cards_ok(),
{
    if hand_live(t2.stage) {
        assert forall|i: int|
            t2.occupied(i) && (#[trigger] t2.seat_at(i)).in_hand implies Table::hole_ok(
            t2.board@,
            t2.seat_at(i).hole_cards.unwrap(),
        ) by {
            assert(t1.seat_at(i).in_hand);
        }
    }
}

/// Updating one slot preserves card coherence when the new slot's cards fit
/// the unchanged board.
pub proof fn lemma_cards_ok_after_update(pre: Table, post: Table, k: int, v: Option<Seat>)
    requires
        pre.cards_ok(),
        0 <= k < pre.seats@.len(),
        post.seats@ == pre.seats@.update(k, v),
        post.stage == pre.stage,
        post.board == pre.board,
        post.community_cards == pre.community_cards,
        hand_live(post.stage) && v is Some && v.unwrap().in_hand ==> Table::hole_ok(
            post.board@,
            v.unwrap().hole_cards.unwrap(),
        ),
    ensures
        post.cards_ok(),
{
    if hand_live(post.stage) {
        assert forall|i: int|
            post.occupied(i) && (#[trigger] post.seat_at(i)).in_hand implies Table::hole_ok(
            post.board@,
            post.seat_at(i).hole_cards.unwrap(),
        ) by {
            if i != k {
                assert(post.seats@[i] == pre.seats@[i]);
                assert(pre.occupied(i));
                assert(pre.seat_at(i).in_hand);
            }
        }
    }
}

/// Updating one slot preserves identity distinctness when the new seat's
/// identity occurs nowhere else.
pub proof fn lemma_idents_after_update(pre: Table, post: Table, k: int, v: Option<Seat>)
    requires
        pre.idents_distinct(),
        0 <= k < pre.seats@.len(),
        post.seats@ == pre.seats@.update(k, v),
        v matches Some(s) ==> forall|j: int| j != k ==> !pre.seated_with(j, s.identity),
    ensures
        post.idents_distinct(),
{
    assert forall|i: int, j: int|
        0 <= i < j < post.seats@.len() && post.seats@[i] is Some && post.seats@[j]
            is Some implies (#[trigger] post.seats@[i]).unwrap().identity != (
    #[trigger] post.seats@[j]).unwrap().identity by {
        if i != k && j != k {
            assert(post.seats@[i] == pre.seats@[i]);
            assert(post.seats@[j] == pre.seats@[j]);
        } else if i == k {
            assert(post.seats@[j] == pre.seats@[j]);
            assert(!pre.seated_with(j, post.seats@[k].unwrap().identity));
        } else {
            assert(post.seats@[i] == pre.seats@[i]);
            assert(!pre.seated_with(i, post.seats@[k].unwrap().identity));
        }
    }
}

// ---------------------------------------------------------------------------
// Relating two table states
// ---------------------------------------------------------------------------

/// Everything but the seat arena is unchanged.
pub open spec fn same_except_seats(pre: Table, post: Table) -> bool {
    &&& post.hand_number == pre.hand_number
    &&& post.button == pre.button
    &&& post.to_act == pre.to_act
    &&& post.stage == pre.stage
    &&& post.community_cards == pre.community_cards
    &&& post.board == pre.board
    &&& post.combined_secret_material == pre.combined_secret_material
    &&& post.current_bet == pre.current_bet
    &&& post.pot == pre.pot
    &&& post.big_blind == pre.big_blind
}

/// What `join` does, error precedence included.
pub open spec fn join_post(
    pre: Table,
    post: Table,
    identity: u64,
    seat_index: usize,
    secret: u64,
    deposit: u64,
    r: Result<(), Error>,
) -> bool {
    if pre.occupied_count() == NUM_SEATS {
        r == Err::<(), Error>(Error::TableFull) && post == pre
    } else if seat_index >= NUM_SEATS || pre.occupied(seat_index as int) {
        r == Err::<(), Error>(Error::SeatTaken) && post == pre
    } else if pre.has_player(identity) {
        r == Err::<(), Error>(Error::IllegalAction) && post == pre
    } else if deposit < pre.min_buy_in() || deposit > pre.max_buy_in() || pre.total_chips()
        + deposit > CHIP_LIMIT {
        r == Err::<(), Error>(Error::DepositOutOfRange) && post == pre
    } else {
        &&& r == Ok::<(), Error>(())
        &&& post.seats@ == pre.seats@.update(
            seat_index as int,
            Some(Seat::spec_join(identity, secret, deposit)),
        )
        &&& same_except_seats(pre, post)
    }
}

/// What `top_up` does, error precedence included.
pub open spec fn top_up_post(
    pre: Table,
    post: Table,
    identity: u64,
    amount: u64,
    r: Result<(), Error>,
) -> bool {
    if !pre.has_player(identity) {
        r == Err::<(), Error>(Error::NotAPlayer) && post == pre
    } else {
        let i = pre.player_index(identity);
        let s = pre.seat_at(i);
        if s.in_hand && hand_live(pre.stage) {
            r == Err::<(), Error>(Error::IllegalAction) && post == pre
        } else if s.wallet + amount > pre.max_buy_in() || pre.total_chips() + amount
            > CHIP_LIMIT {
            r == Err::<(), Error>(Error::DepositOutOfRange) && post == pre
        } else {
            &&& r == Ok::<(), Error>(())
            &&& post.seats@ == pre.seats@.update(
                i,
                Some(Seat { wallet: (s.wallet + amount) as u64, ..s }),
            )
            &&& same_except_seats(pre, post)
        }
    }
}

// ---------------------------------------------------------------------------
// Executable helpers and operations
// ---------------------------------------------------------------------------

impl Table {
    /// A fresh table: empty seats, waiting for players.
    pub fn new(big_blind: u64) -> (r: Table)
        requires
            1 <= big_blind <= BIG_BLIND_LIMIT,
        ensures
            r.wf(),
            r.big_blind == big_blind,
            r.hand_number == 0,
            r.stage == Stage::WaitingForPlayers,
            r.seats@.len() == NUM_SEATS,
            forall|i: int| 0 <= i < NUM_SEATS ==> r.seats@[i] is None,
            r.pot == 0,
            r.total_chips() == 0,
    {
        let mut seats: Vec<Option<Seat>> = Vec::new();
        let mut i: usize = 0;
        while i < NUM_SEATS
            invariant
                i <= NUM_SEATS,
                seats@.len() == i,
                forall|j: int| 0 <= j < i ==> seats@[j] is None,
            decreases NUM_SEATS - i,
        {
            seats.push(None);
            i += 1;
        }
        let t = Table {
            hand_number: 0,
            seats,
            button: 0,
            to_act: None,
            stage: Stage::WaitingForPlayers,
            community_cards: Vec::new(),
            board: Vec::new(),
            combined_secret_material: Vec::new(),
            current_bet: 0,
            pot: 0,
            big_blind,
        };
        proof {
            lemma_sum_slots_all_none(t.seats@, chips_of());
        }
        t
    }

    /// The slot of the caller's seat, scanning positions in order.
    pub fn find_seat(&self, identity: u64) -> (r: Option<usize>)
        ensures
            match r {
                Some(i) => self.seated_with(i as int, identity),
                None => !self.has_player(identity),
            },
    {
        let n = self.seats.len();
        let mut i: usize = 0;
        while i < n
            invariant
                n == self.seats@.len(),
                i <= n,
                forall|j: int| 0 <= j < i ==> !self.seated_with(j, identity),
            decreases n - i,
        {
            match &self.seats[i] {
                Some(s) => {
                    if s.identity == identity {
                        return Some(i);
                    }
                },
                None => {},
            }
            i += 1;
        }
        None
    }

    /// Number of occupied seats.
    pub fn count_occupied(&self) -> (r: usize)
        ensures
            r == self.occupied_count(),
    {
        let f = Ghost(occupied_of());
        let n = self.seats.len();
        let mut i: usize = 0;
        let mut c: usize = 0;
        while i < n
            invariant
                n == self.seats@.len(),
                i <= n,
                c <= i,
                c == count_slots(self.seats@.take(i as int), f@),
                f@ == occupied_of(),
            decreases n - i,
        {
            proof {
                lemma_sum_slots_take_step(self.seats@, i as int, ind(f@));
            }
            if self.seats[i].is_some() {
                c += 1;
            }
            i += 1;
        }
        proof {
            lemma_sum_slots_take_full(self.seats@, ind(f@));
        }
        c
    }

    /// Number of seats still contesting the hand.
    pub fn count_in_hand(&self) -> (r: usize)
        ensures
            r == self.in_hand_count(),
    {
        let f = Ghost(in_hand_of());
        let n = self.seats.len();
        let mut i: usize = 0;
        let mut c: usize = 0;
        while i < n
            invariant
                n == self.seats@.len(),
                i <= n,
                c <= i,
                c == count_slots(self.seats@.take(i as int), f@),
                f@ == in_hand_of(),
            decreases n - i,
        {
            proof {
                lemma_sum_slots_take_step(self.seats@, i as int, ind(f@));
            }
            match &self.seats[i] {
                Some(s) => {
                    if s.in_hand {
                        c += 1;
                    }
                },
                None => {},
            }
            i += 1;
        }
        proof {
            lemma_sum_slots_take_full(self.seats@, ind(f@));
        }
        c
    }

    /// Number of contesting seats that are not all-in.
    pub fn count_active(&self) -> (r: usize)
        ensures
            r == self.active_count(),
    {
        let f = Ghost(active_of());
        let n = self.seats.len();
        let mut i: usize = 0;
        let mut c: usize = 0;
        while i < n
            invariant
                n == self.seats@.len(),
                i <= n,
                c <= i,
                c == count_slots(self.seats@.take(i as int), f@),
                f@ == active_of(),
            decreases n - i,
        {
            proof {
                lemma_sum_slots_take_step(self.seats@, i as int, ind(f@));
            }
            match &self.seats[i] {
                Some(s) => {
                    if s.in_hand && !s.is_all_in {
                        c += 1;
                    }
                },
                None => {},
            }
            i += 1;
        }
        proof {
            lemma_sum_slots_take_full(self.seats@, ind(f@));
        }
        c
    }

    /// Number of occupied seats holding chips.
    pub fn count_funded(&self) -> (r: usize)
        ensures
            r == self.funded_count(),
    {
        let f = Ghost(funded_of());
        let n = self.seats.len();
        let mut i: usize = 0;
        let mut c: usize = 0;
        while i < n
            invariant
                n == self.seats@.len(),
                i <= n,
                c <= i,
                c == count_slots(self.seats@.take(i as int), f@),
                f@ == funded_of(),
            decreases n - i,
        {
            proof {
                lemma_sum_slots_take_step(self.seats@, i as int, ind(f@));
            }
            match &self.seats[i] {
                Some(s) => {
                    if s.wallet > 0 {
                        c += 1;
                    }
                },
                None => {},
            }
            i += 1;
        }
        proof {
            lemma_sum_slots_take_full(self.seats@, ind(f@));
        }
        c
    }

    /// Every chip in play at the table.
    pub fn total_in_play(&self) -> (r: u64)
        requires
            self.wf(),
        ensures
            r == self.total_chips(),
    {
        let g = Ghost(chips_of());
        let n = self.seats.len();
        let mut i: usize = 0;
        let mut acc: u64 = 0;
        while i < n
            invariant
                self.wf(),
                n == self.seats@.len(),
                i <= n,
                acc == sum_slots(self.seats@.take(i as int), g@),
                g@ == chips_of(),
            decreases n - i,
        {
            proof {
                lemma_sum_slots_take_step(self.seats@, i as int, g@);
                assert(forall|j: int|
                    0 <= j < self.seats@.len() ==> slot_value(#[trigger] self.seats@[j], g@)
                        >= 0);
                lemma_sum_slots_prefix_le(self.seats@, i + 1 as int, g@);
            }
            match &self.seats[i] {
                Some(s) => {
                    acc = acc + s.wallet + s.committed_this_round;
                },
                None => {},
            }
            i += 1;
        }
        proof {
            lemma_sum_slots_take_full(self.seats@, g@);
        }
        acc + self.pot
    }

    /// Seat a new player.  Fails with `TableFull` when every position is
    /// occupied, `SeatTaken` when the chosen position is not free (positions
    /// outside the table are never free), `IllegalAction` when the identity
    /// already holds a seat, and `DepositOutOfRange` when the deposit lies
    /// outside the configured buy-in range or would push the table over its
    /// chip ceiling.
    pub fn join(&mut self, identity: u64, seat_index: usize, secret: u64, deposit: u64) -> (r:
        Result<(), Error>)
        requires
            old(self).wf(),
        ensures
            final(self).wf(),
            join_post(*old(self), *final(self), identity, seat_index, secret, deposit, r),
            final(self).total_chips() == old(self).total_chips() + if r is Ok {
                deposit as int
            } else {
                0
            },
    {
        if self.count_occupied() == NUM_SEATS {
            return Err(Error::TableFull);
        }
        if seat_index >= NUM_SEATS || self.seats[seat_index].is_some() {
            return Err(Error::SeatTaken);
        }
        if self.find_seat(identity).is_some() {
            return Err(Error::IllegalAction);
        }
        let min = MIN_BUY_IN_BLINDS * self.big_blind;
        let max = MAX_BUY_IN_BLINDS * self.big_blind;
        let total = self.total_in_play();
        if deposit < min || deposit > max || deposit > CHIP_LIMIT - total {
            return Err(Error::DepositOutOfRange);
        }
        let seat = Seat::join(identity, secret, deposit);
        let ghost pre = *self;
        self.seats[seat_index] = Some(seat);
        proof {
            let k = seat_index as int;
            let snew = Seat::spec_join(identity, secret, deposit);
            assert(self.seats@ =~= pre.seats@.update(k, Some(snew)));
            lemma_sum_slots_update(pre.seats@, k, Some(snew), chips_of());
            lemma_sum_slots_update(pre.seats@, k, Some(snew), ind(in_hand_of()));
            assert(slot_value(Some(snew), ind(in_hand_of())) == 0);
            assert(self.in_hand_count() == pre.in_hand_count());
            lemma_seats_ok_after_update(pre, *self, k, Some(snew));
            lemma_cards_ok_after_update(pre, *self, k, Some(snew));
            assert(forall|j: int| j != k ==> !pre.seated_with(j, identity));
            lemma_idents_after_update(pre, *self, k, Some(snew));
            if let Some(a) = pre.to_act {
                assert(pre.occupied(a as int));
                assert(self.seats@[a as int] == pre.seats@[a as int]);
            }
        }
        Ok(())
    }

    /// Add chips to an existing seat, outside any hand that seat is
    /// contesting.  The resulting wallet is held to the same ceiling as a
    /// buy-in.
    pub fn top_up(&mut self, identity: u64, amount: u64) -> (r: Result<(), Error>)
        requires
            old(self).wf(),
        ensures
            final(self).wf(),
            top_up_post(*old(self), *final(self), identity, amount, r),
            final(self).total_chips() == old(self).total_chips() + if r is Ok {
                amount as int
            } else {
                0
            },
    {
        let idx = match self.find_seat(identity) {
            Some(i) => i,
            None => {
                return Err(Error::NotAPlayer);
            },
        };
        proof {
            lemma_player_index_unique(*self, identity, idx as int);
        }
        let in_hand = match &self.seats[idx] {
            Some(s) => s.in_hand,
            None => false,
        };
        if in_hand && self.stage.is_hand_live() {
            return Err(Error::IllegalAction);
        }
        let max = MAX_BUY_IN_BLINDS * self.big_blind;
        let total = self.total_in_play();
        let wallet = match &self.seats[idx] {
            Some(s) => s.wallet,
            None => 0,
        };
        proof {
            self.lemma_seat_chips_le_total(idx as int);
        }
        if amount > max || wallet > max - amount || amount > CHIP_LIMIT - total {
            return Err(Error::DepositOutOfRange);
        }
        let ghost pre = *self;
        let s = match &self.seats[idx] {
            Some(s) => Seat { wallet: wallet + amount, ..*s },
            None => {
                return Err(Error::NotAPlayer);
            },
        };
        self.seats[idx] = Some(s);
        proof {
            let k = idx as int;
            let snew = Seat { wallet: (pre.seat_at(k).wallet + amount) as u64, ..pre.seat_at(k) };
            assert(self.seats@ =~= pre.seats@.update(k, Some(snew)));
            lemma_sum_slots_update(pre.seats@, k, Some(snew), chips_of());
            lemma_sum_slots_update(pre.seats@, k, Some(snew), ind(in_hand_of()));
            assert(slot_value(Some(snew), ind(in_hand_of())) == slot_value(
                pre.seats@[k],
                ind(in_hand_of()),
            ));
            assert(self.in_hand_count() == pre.in_hand_count());
            assert(pre.seat_ok(pre.seat_at(k)));
            lemma_seats_ok_after_update(pre, *self, k, Some(snew));
            lemma_cards_ok_after_update(pre, *self, k, Some(snew));
            assert forall|j: int| j != k implies !pre.seated_with(j, snew.identity) by {
                if pre.seated_with(j, snew.identity) {
                    lemma_player_index_unique(pre, snew.identity, j);
                    lemma_player_index_unique(pre, snew.identity, k);
                }
            }
            lemma_idents_after_update(pre, *self, k, Some(snew));
            if let Some(a) = pre.to_act {
                assert(pre.occupied(a as int));
                if a as int != k {
                    assert(self.seats@[a as int] == pre.seats@[a as int]);
                }
            }
        }
        Ok(())
    }
}

/// An arena of empty slots sums to zero under any measure.
pub proof fn lemma_sum_slots_all_none(ss: Seq<Option<Seat>>, g: spec_fn(Seat) -> int)
    requires
        forall|i: int| 0 <= i < ss.len() ==> ss[i] is None,
    ensures
        sum_slots(ss, g) == 0,
    decreases ss.len(),
{
    if ss.len() > 0 {
        assert(forall|i: int| 0 <= i < ss.drop_last().len() ==> ss.drop_last()[i] == ss[i]);
        lemma_sum_slots_all_none(ss.drop_last(), g);
        assert(ss.last() == ss[ss.len() - 1]);
    }
}

/// With distinct identities, any witness slot is the canonical player index.
pub proof fn lemma_player_index_unique(t: Table, id: u64, i: int)
    requires
        t.idents_distinct(),
        t.seated_with(i, id),
    ensures
        t.player_index(id) == i,
{
    let j = t.player_index(id);
    assert(t.seated_with(j, id));
    if i != j {
        if i < j {
            assert(t.seats@[i].unwrap().identity != t.seats@[j].unwrap().identity);
        } else {
            assert(t.seats@[j].unwrap().identity != t.seats@[i].unwrap().identity);
        }
    }
}


// ---------------------------------------------------------------------------
// Leaving the table
// ---------------------------------------------------------------------------

/// The other seat still contesting the hand beside seat `i` (meaningful
/// when exactly two are).
pub open spec fn other_contender(pre: Table, i: int) -> int {
    choose|j: int| pre.occupied(j) && pre.seat_at(j).in_hand && j != i
}

/// What `withdraw` does.  A seat not contesting an open hand is removed and
/// its wallet paid out (chips it had committed this street stay for the
/// pot).  A seat contesting an open hand may only leave when a single
/// opponent remains: an implicit fold first ends the hand in that
/// opponent's favor.
pub open spec fn withdraw_post(pre: Table, post: Table, identity: u64, r: Result<
    u64,
    Error,
>) -> bool {
    if !pre.has_player(identity) {
        r == Err::<u64, Error>(Error::NotAPlayer) && post == pre
    } else {
        let i = pre.player_index(identity);
        let s = pre.seat_at(i);
        if s.in_hand && betting_open(pre.stage) && pre.in_hand_count() > 2 {
            r == Err::<u64, Error>(Error::IllegalAction) && post == pre
        } else if s.in_hand && pre.stage == Stage::Showdown {
            r == Err::<u64, Error>(Error::IllegalAction) && post == pre
        } else if s.in_hand && betting_open(pre.stage) {
            let j = other_contender(pre, i);
            &&& r == Ok::<u64, Error>(s.wallet)
            &&& post.stage == Stage::HandComplete
            &&& post.pot == 0
            &&& post.current_bet == 0
            &&& post.to_act is None
            &&& post.seats@.len() == pre.seats@.len()
            &&& forall|x: int|
                0 <= x < pre.seats@.len() ==> #[trigger] post.seats@[x] == (if x == i {
                    None
                } else if x == j {
                    Some(
                        Seat {
                            wallet: (pre.seat_at(j).wallet + pre.pot + crate::showdown::committed_total(pre)) as u64,
                            committed_this_round: 0,
                            acted_this_round: false,
                            ..pre.seat_at(j)
                        },
                    )
                } else {
                    crate::showdown::settle_slot(pre.seats@[x])
                })
            &&& post.community_cards == pre.community_cards
            &&& post.board == pre.board
            &&& post.button == pre.button
            &&& post.hand_number == pre.hand_number
            &&& post.big_blind == pre.big_blind
            &&& post.combined_secret_material == pre.combined_secret_material
        } else {
            &&& r == Ok::<u64, Error>(s.wallet)
            &&& post.seats@ == pre.seats@.update(i, None)
            &&& post.pot == pre.pot + s.committed_this_round
            &&& post.stage == pre.stage
            &&& post.to_act == pre.to_act
            &&& post.current_bet == pre.current_bet
            &&& post.community_cards == pre.community_cards
            &&& post.board == pre.board
            &&& post.button == pre.button
            &&& post.hand_number == pre.hand_number
            &&& post.big_blind == pre.big_blind
            &&& post.combined_secret_material == pre.combined_secret_material
        }
    }
}

impl Table {
    /// Remove the caller's seat and schedule its whole wallet for payout.
    /// Mid-hand, this is honored only when a single opponent remains, after
    /// an implicit fold in that opponent's favor; otherwise the contesting
    /// seat must fold first.
    pub fn withdraw(&mut self, identity: u64) -> (r: Result<u64, Error>)
        requires
            old(self).wf(),
        ensures
            final(self).wf(),
            final(self).total_chips() == old(self).total_chips() - (if r is Ok {
                r.unwrap() as int
            } else {
                0
            }),
            r is Err ==> *final(self) == *old(self),
            withdraw_post(*old(self), *final(self), identity, r),
    {
        let i = match self.find_seat(identity) {
            Some(i) => i,
            None => {
                return Err(Error::NotAPlayer);
            },
        };
        proof {
            lemma_player_index_unique(*self, identity, i as int);
        }
        let s = match &self.seats[i] {
            Some(s) => *s,
            None => {
                return Err(Error::NotAPlayer);
            },
        };
        let live = !self.stage.no_more_action();
        if s.in_hand && live {
            let cnt = self.count_in_hand();
            if cnt > 2 {
                return Err(Error::IllegalAction);
            }
            let ghost pre = *self;
            // Implicit fold: the seat leaves the hand, the lone opponent
            // collects everything, then the seat is removed.
            self.seats[i] = Some(
                Seat { in_hand: false, is_all_in: false, acted_this_round: true, ..s },
            );
            self.to_act = None;
            proof {
                let k = i as int;
                let snew = crate::betting::folded_seat(pre.seat_at(k));
                assert(self.seats@ =~= pre.seats@.update(k, Some(snew)));
                lemma_sum_slots_update(pre.seats@, k, Some(snew), chips_of());
                lemma_sum_slots_update(pre.seats@, k, Some(snew), ind(in_hand_of()));
                assert(pre.seat_ok(pre.seat_at(k)));
                lemma_seats_ok_after_update(pre, *self, k, Some(snew));
                lemma_cards_ok_after_update(pre, *self, k, Some(snew));
                assert forall|j: int| j != k implies !pre.seated_with(j, snew.identity) by {
                    if pre.seated_with(j, snew.identity) {
                        lemma_player_index_unique(pre, snew.identity, j);
                        lemma_player_index_unique(pre, snew.identity, k);
                    }
                }
                lemma_idents_after_update(pre, *self, k, Some(snew));
                assert(slot_value(Some(snew), ind(in_hand_of())) == 0);
                assert(slot_value(pre.seats@[k], ind(in_hand_of())) == 1);
                assert(self.in_hand_count() == pre.in_hand_count() - 1);
                lemma_sum_slots_pointwise_eq(
                    self.seats@,
                    pre.seats@,
                    committed_of(),
                    committed_of(),
                );
            }
            let ghost mid = *self;
            let mut sv: usize = 0;
            let mut found = false;
            let mut j: usize = 0;
            while j < NUM_SEATS
                invariant
                    self.seats@.len() == NUM_SEATS,
                    j <= NUM_SEATS,
                    found ==> sv < NUM_SEATS && self.occupied(sv as int) && self.seat_at(
                        sv as int,
                    ).in_hand,
                    !found ==> forall|x: int|
                        0 <= x < j ==> !(self.occupied(x) && (#[trigger] self.seat_at(
                            x,
                        )).in_hand),
                decreases NUM_SEATS - j,
            {
                if !found {
                    match &self.seats[j] {
                        Some(x) => {
                            if x.in_hand {
                                sv = j;
                                found = true;
                            }
                        },
                        None => {},
                    }
                }
                j += 1;
            }
            proof {
                if !found {
                    lemma_count_pos(mid.seats@, in_hand_of());
                    let w = choose|w: int|
                        0 <= w < mid.seats@.len() && #[trigger] mid.seats@[w] is Some
                            && in_hand_of()(mid.seats@[w].unwrap());
                    assert(mid.occupied(w) && mid.seat_at(w).in_hand);
                    assert(false);
                }
            }
            self.end_hand_fold(sv);
            let ghost done = *self;
            proof {
                let jj = other_contender(pre, i as int);
                assert(mid.occupied(jj) && mid.seat_at(jj).in_hand) by {
                    assert(pre.occupied(jj) && pre.seat_at(jj).in_hand && jj != i as int) by {
                        assert(mid.occupied(sv as int) && mid.seat_at(sv as int).in_hand);
                        assert(pre.occupied(sv as int) && pre.seat_at(sv as int).in_hand && sv
                            as int != i as int);
                    }
                }
                lemma_count_unique(mid.seats@, in_hand_of(), sv as int, jj);
                assert(sv as int == jj);
            }
            let w = match &self.seats[i] {
                Some(x) => x.wallet,
                None => 0,
            };
            proof {
                assert(done.seats@[i as int] == crate::showdown::fold_win_slot(
                    mid,
                    i as int,
                    sv as int,
                ));
                assert(w == s.wallet);
                lemma_sum_slots_update(done.seats@, i as int, None, chips_of());
            }
            let ghost gone = done.seats@[i as int];
            self.seats[i] = None;
            proof {
                assert(self.seats@ =~= done.seats@.update(i as int, None));
                assert(slot_value(gone, chips_of()) == s.wallet as int);
                assert forall|x: int| self.occupied(x) implies self.seat_ok(
                    #[trigger] self.seat_at(x),
                ) by {
                    assert(done.occupied(x));
                    assert(done.seat_ok(done.seat_at(x)));
                }
                assert forall|x: int, y: int|
                    0 <= x < y < self.seats@.len() && self.seats@[x] is Some && self.seats@[y]
                        is Some implies (#[trigger] self.seats@[x]).unwrap().identity != (
                #[trigger] self.seats@[y]).unwrap().identity by {
                    assert(done.seats@[x] is Some && done.seats@[y] is Some);
                    assert(done.seats@[x].unwrap().identity != done.seats@[
                        y].unwrap().identity);
                }
                assert forall|x: int|
                    0 <= x < pre.seats@.len() implies #[trigger] self.seats@[x] == (if x == i
                    as int {
                    None
                } else if x == sv as int {
                    Some(
                        Seat {
                            wallet: (pre.seat_at(sv as int).wallet + pre.pot
                                + crate::showdown::committed_total(pre)) as u64,
                            committed_this_round: 0,
                            acted_this_round: false,
                            ..pre.seat_at(sv as int)
                        },
                    )
                } else {
                    crate::showdown::settle_slot(pre.seats@[x])
                }) by {
                    if x != i as int {
                        assert(self.seats@[x] == done.seats@[x]);
                        assert(done.seats@[x] == crate::showdown::fold_win_slot(
                            mid,
                            x,
                            sv as int,
                        ));
                        assert(mid.seats@[x] == pre.seats@[x]);
                    }
                }
            }
            return Ok(w);
        }
        if s.in_hand && self.stage.is_hand_live() {
            return Err(Error::IllegalAction);
        }
        let ghost pre = *self;
        proof {
            assert(pre.seat_ok(pre.seat_at(i as int)));
            self.lemma_seat_chips_le_total(i as int);
        }
        self.pot = self.pot + s.committed_this_round;
        self.seats[i] = None;
        proof {
            let k = i as int;
            assert(self.seats@ =~= pre.seats@.update(k, None));
            lemma_sum_slots_update(pre.seats@, k, None, chips_of());
            lemma_sum_slots_update(pre.seats@, k, None, ind(in_hand_of()));
            if betting_open(pre.stage) || pre.stage == Stage::Showdown {
                assert(slot_value(pre.seats@[k], ind(in_hand_of())) == 0);
                assert(self.in_hand_count() == pre.in_hand_count());
            }
            lemma_seats_ok_after_update(pre, *self, k, None);
            lemma_cards_ok_after_update(pre, *self, k, None);
            lemma_idents_after_update(pre, *self, k, None);
            if let Some(a) = pre.to_act {
                assert(pre.occupied(a as int) && pre.seat_at(a as int).in_hand);
                assert(a as int != k);
                assert(self.seats@[a as int] == pre.seats@[a as int]);
            }
        }
        Ok(s.wallet)
    }
}

} // verus!
