use vstd::prelude::*;

use crate::crypto::{sha256, sha256_of, shuffle_deck, shuffle_of};
use crate::errors::Error;
use crate::seat::Seat;
use crate::stage::Stage;
use crate::table::{
    chips_of, count_slots, funded_of, ind, lemma_count_pos, lemma_sum_slots_prefix_le,
    lemma_sum_slots_take_full, lemma_sum_slots_take_step, slot_value, sum_slots, Table,
    NUM_SEATS,
};

verus! {

// ---------------------------------------------------------------------------
// Byte encoding of the seed material
// ---------------------------------------------------------------------------

/// The eight big-endian bytes of a 64-bit value.
pub open spec fn u64_be(x: u64) -> Seq<u8> {
    seq![
        ((x >> 56) & 0xff) as u8,
        ((x >> 48) & 0xff) as u8,
        ((x >> 40) & 0xff) as u8,
        ((x >> 32) & 0xff) as u8,
        ((x >> 24) & 0xff) as u8,
        ((x >> 16) & 0xff) as u8,
        ((x >> 8) & 0xff) as u8,
        (x & 0xff) as u8,
    ]
}

/// Big-endian encoding loses nothing.
pub proof fn lemma_u64_be_injective(x: u64, y: u64)
    requires
        u64_be(x) == u64_be(y),
    ensures
        x == y,
{
    assert(u64_be(x)[0] == u64_be(y)[0] && u64_be(x)[1] == u64_be(y)[1] && u64_be(x)[2]
        == u64_be(y)[2] && u64_be(x)[3] == u64_be(y)[3] && u64_be(x)[4] == u64_be(y)[4]
        && u64_be(x)[5] == u64_be(y)[5] && u64_be(x)[6] == u64_be(y)[6] && u64_be(x)[7]
        == u64_be(y)[7]);
    assert((((x >> 56) & 0xff) as u8 == ((y >> 56) & 0xff) as u8 && ((x >> 48) & 0xff) as u8 == ((
    y >> 48) & 0xff) as u8 && ((x >> 40) & 0xff) as u8 == ((y >> 40) & 0xff) as u8 && ((x >> 32)
        & 0xff) as u8 == ((y >> 32) & 0xff) as u8 && ((x >> 24) & 0xff) as u8 == ((y >> 24)
        & 0xff) as u8 && ((x >> 16) & 0xff) as u8 == ((y >> 16) & 0xff) as u8 && ((x >> 8)
        & 0xff) as u8 == ((y >> 8) & 0xff) as u8 && (x & 0xff) as u8 == (y & 0xff) as u8) ==> x
        == y) by (bit_vector);
}

/// The secrets of a seat list, concatenated as fixed-width blocks in seat
/// order.
pub open spec fn concat_secrets(secrets: Seq<u64>) -> Seq<u8>
    decreases secrets.len(),
{
    if secrets.len() == 0 {
        Seq::empty()
    } else {
        concat_secrets(secrets.drop_last()) + u64_be(secrets.last())
    }
}

/// Eight bytes per secret.
pub proof fn lemma_concat_secrets_len(secrets: Seq<u64>)
    ensures
        concat_secrets(secrets).len() == 8 * secrets.len(),
    decreases secrets.len(),
{
    if secrets.len() > 0 {
        lemma_concat_secrets_len(secrets.drop_last());
    }
}

/// Fixed-width blocks concatenate injectively.
pub proof fn lemma_concat_secrets_injective(s1: Seq<u64>, s2: Seq<u64>)
    requires
        s1.len() == s2.len(),
        concat_secrets(s1) == concat_secrets(s2),
    ensures
        s1 == s2,
    decreases s1.len(),
{
    if s1.len() > 0 {
        let c1 = concat_secrets(s1.drop_last());
        let c2 = concat_secrets(s2.drop_last());
        lemma_concat_secrets_len(s1.drop_last());
        lemma_concat_secrets_len(s2.drop_last());
        assert(concat_secrets(s1) == c1 + u64_be(s1.last()));
        assert(concat_secrets(s2) == c2 + u64_be(s2.last()));
        assert forall|t: int| 0 <= t < c1.len() implies c1[t] == c2[t] by {
            assert(concat_secrets(s1)[t] == c1[t]);
            assert(concat_secrets(s2)[t] == c2[t]);
        }
        assert(c1 =~= c2);
        assert forall|t: int| 0 <= t < 8 implies u64_be(s1.last())[t] == u64_be(
            s2.last(),
        )[t] by {
            assert(concat_secrets(s1)[c1.len() + t] == u64_be(s1.last())[t]);
            assert(concat_secrets(s2)[c2.len() + t] == u64_be(s2.last())[t]);
        }
        assert(u64_be(s1.last()) =~= u64_be(s2.last()));
        lemma_u64_be_injective(s1.last(), s2.last());
        lemma_concat_secrets_injective(s1.drop_last(), s2.drop_last());
        assert forall|i: int| 0 <= i < s1.len() implies s1[i] == s2[i] by {
            if i < s1.len() - 1 {
                assert(s1.drop_last()[i] == s2.drop_last()[i]);
            } else {
                assert(s1.last() == s2.last());
            }
        }
        assert(s1 =~= s2);
    } else {
        assert(s1 =~= s2);
    }
}

/// The seed material of one hand: all participating seats' secrets in seat
/// order, then the hand number as domain separator.
pub open spec fn material_of(secrets: Seq<u64>, hand_number: u64) -> Seq<u8> {
    concat_secrets(secrets) + u64_be(hand_number)
}

/// Different secret lists (of the same table size) can never produce the
/// same seed material, whatever the hand number.
pub proof fn lemma_material_injective(s1: Seq<u64>, s2: Seq<u64>, n1: u64, n2: u64)
    requires
        s1.len() == s2.len(),
        material_of(s1, n1) == material_of(s2, n2),
    ensures
        s1 == s2,
        n1 == n2,
{
    lemma_concat_secrets_len(s1);
    lemma_concat_secrets_len(s2);
    let c1 = concat_secrets(s1);
    let c2 = concat_secrets(s2);
    assert forall|t: int| 0 <= t < c1.len() implies c1[t] == c2[t] by {
        assert(material_of(s1, n1)[t] == c1[t]);
        assert(material_of(s2, n2)[t] == c2[t]);
    }
    assert(c1 =~= c2);
    assert forall|t: int| 0 <= t < 8 implies u64_be(n1)[t] == u64_be(n2)[t] by {
        assert(material_of(s1, n1)[c1.len() + t] == u64_be(n1)[t]);
        assert(material_of(s2, n2)[c2.len() + t] == u64_be(n2)[t]);
    }
    assert(u64_be(n1) =~= u64_be(n2));
    lemma_u64_be_injective(n1, n2);
    lemma_concat_secrets_injective(s1, s2);
}

impl Table {
    /// Append the eight big-endian bytes of `x`.
    pub(crate) fn push_u64_be(out: &mut Vec<u8>, x: u64)
        ensures
            final(out)@ == old(out)@ + u64_be(x),
    {
        out.push(((x >> 56) & 0xff) as u8);
        out.push(((x >> 48) & 0xff) as u8);
        out.push(((x >> 40) & 0xff) as u8);
        out.push(((x >> 32) & 0xff) as u8);
        out.push(((x >> 24) & 0xff) as u8);
        out.push(((x >> 16) & 0xff) as u8);
        out.push(((x >> 8) & 0xff) as u8);
        out.push((x & 0xff) as u8);
        proof {
            assert(out@ =~= old(out)@ + u64_be(x));
        }
    }
}

// ---------------------------------------------------------------------------
// The deck of a hand
// ---------------------------------------------------------------------------

/// The ordered fresh deck: every card id below 52, once.
pub open spec fn base_deck() -> Seq<u8> {
    Seq::new(52, |i: int| i as u8)
}

/// The shuffled deck a hand is dealt from, as a function of the
/// participating seats' secrets and the hand number alone.
pub open spec fn deck_of(secrets: Seq<u64>, hand_number: u64) -> Seq<u8> {
    shuffle_of(base_deck(), sha256_of(material_of(secrets, hand_number)))
}

/// The secrets of the seats that will be dealt in, in seat order: every
/// occupied seat holding chips.
pub open spec fn dealt_secrets(ss: Seq<Option<Seat>>) -> Seq<u64>
    decreases ss.len(),
{
    if ss.len() == 0 {
        Seq::empty()
    } else {
        dealt_secrets(ss.drop_last()) + (match ss.last() {
            Some(s) => if s.wallet > 0 {
                seq![s.secret]
            } else {
                Seq::empty()
            },
            None => Seq::empty(),
        })
    }
}

/// How many funded seats precede seat `i`.
pub open spec fn funded_before(t: Table, i: int) -> int {
    count_slots(t.seats@.take(i), funded_of())
}

/// What dealing leaves at slot `i`: funded seats enter the hand with two
/// hole cards drawn round-robin off the deck, other seats sit the hand out;
/// all street bookkeeping starts clean.
pub open spec fn deal_slot(t: Table, i: int, deck: Seq<u8>, k: int) -> Option<Seat> {
    match t.seats@[i] {
        Some(s) => if s.wallet > 0 {
            Some(
                Seat {
                    in_hand: true,
                    is_all_in: false,
                    acted_this_round: false,
                    committed_this_round: 0,
                    hole_cards: Some(
                        (deck[funded_before(t, i)], deck[k + funded_before(t, i)]),
                    ),
                    ..s
                },
            )
        } else {
            Some(
                Seat {
                    in_hand: false,
                    is_all_in: false,
                    acted_this_round: false,
                    committed_this_round: 0,
                    hole_cards: None,
                    ..s
                },
            )
        },
        None => None,
    }
}

/// The big-blind poster after the blind is taken: `min(big_blind, wallet)`
/// moves to the street commitment, and an emptied wallet is all-in.
pub open spec fn blinded_seat(s: Seat, big_blind: u64) -> Seat {
    let b = crate::betting::spec_min(big_blind as int, s.wallet as int);
    Seat {
        wallet: (s.wallet - b) as u64,
        committed_this_round: b as u64,
        is_all_in: s.wallet - b == 0,
        ..s
    }
}


// ---------------------------------------------------------------------------
// Finding the dealt seats
// ---------------------------------------------------------------------------

/// Seat `i` is occupied and holds chips, so the next hand deals it in.
pub open spec fn funded_at(t: Table, i: int) -> bool {
    t.occupied(i) && t.seat_at(i).wallet > 0
}

/// The first funded seat at cyclic offsets `off..=9` after `from`.
pub open spec fn first_funded_offset(t: Table, from: int, off: int) -> Option<int>
    decreases 10 - off,
{
    if off < 1 || off > 9 {
        None
    } else if funded_at(t, (from + off) % 9) {
        Some((from + off) % 9)
    } else {
        first_funded_offset(t, from, off + 1)
    }
}

/// A failed funded-scan means the seat at any remaining offset holds no
/// chips.
pub proof fn lemma_scan_funded_none_at(t: Table, from: int, off: int, o: int)
    requires
        first_funded_offset(t, from, off) is None,
        1 <= off <= o <= 9,
    ensures
        !funded_at(t, (from + o) % 9),
    decreases 10 - off,
{
    if o > off {
        lemma_scan_funded_none_at(t, from, off + 1, o);
    }
}

/// A successful funded-scan lands on a funded seat.
pub proof fn lemma_scan_funded_some(t: Table, from: int, off: int)
    requires
        first_funded_offset(t, from, off) is Some,
    ensures
        ({
            let i = first_funded_offset(t, from, off).unwrap();
            0 <= i < 9 && funded_at(t, i)
        }),
    decreases 10 - off,
{
    if !(off < 1 || off > 9) && !funded_at(t, (from + off) % 9) {
        lemma_scan_funded_some(t, from, off + 1);
    }
}

/// If any seat is funded, the scan from anywhere finds one.
pub proof fn lemma_scan_funded_complete(t: Table, from: int)
    requires
        0 <= from < 9,
        exists|i: int| 0 <= i < 9 && funded_at(t, i),
    ensures
        first_funded_offset(t, from, 1) is Some,
{
    if first_funded_offset(t, from, 1) is None {
        let i = choose|i: int| 0 <= i < 9 && funded_at(t, i);
        let o = crate::betting::lemma_offset_reaches(from, i);
        lemma_scan_funded_none_at(t, from, 1, o);
    }
}

/// The funded-scan reads only each seat's presence and wallet.
pub proof fn lemma_scan_funded_congruent(t1: Table, t2: Table, from: int, off: int)
    requires
        t1.seats@.len() == t2.seats@.len(),
        forall|i: int|
            0 <= i < t1.seats@.len() ==> ((#[trigger] t1.seats@[i]) is Some <==> (
            #[trigger] t2.seats@[i]) is Some) && (t1.seats@[i] is Some
                ==> t1.seats@[i].unwrap().wallet == t2.seats@[i].unwrap().wallet),
    ensures
        first_funded_offset(t1, from, off) == first_funded_offset(t2, from, off),
    decreases 10 - off,
{
    if !(off < 1 || off > 9) {
        assert(funded_at(t1, (from + off) % 9) == funded_at(t2, (from + off) % 9));
        lemma_scan_funded_congruent(t1, t2, from, off + 1);
    }
}

impl Table {
    /// The next funded seat strictly after `from`, cyclically.
    pub(crate) fn next_funded(&self, from: usize, off: usize) -> (r: Option<usize>)
        requires
            self.seats@.len() == NUM_SEATS,
            from < NUM_SEATS,
            1 <= off,
        ensures
            match r {
                Some(i) => Some(i as int) == first_funded_offset(*self, from as int, off as int),
                None => first_funded_offset(*self, from as int, off as int) is None,
            },
        decreases 10 - off,
    {
        if off > 9 {
            return None;
        }
        let i = (from + off) % 9;
        let ok = match &self.seats[i] {
            Some(s) => s.wallet > 0,
            None => false,
        };
        if ok {
            Some(i)
        } else {
            self.next_funded(from, off + 1)
        }
    }
}

// ---------------------------------------------------------------------------
// Starting a hand
// ---------------------------------------------------------------------------

/// What a successfully started hand looks like: the counter advanced, the
/// deck derived from the combined secrets, hole cards dealt round-robin to
/// the funded seats, the board set aside unrevealed, the button advanced to
/// the next funded seat, the big blind posted by the seat after it, and the
/// first decision awaited (after the blind poster; in two-seat play, after
/// the button).
pub open spec fn dealt(pre: Table, post: Table) -> bool {
    let hn = (pre.hand_number + 1) as u64;
    let secrets = dealt_secrets(pre.seats@);
    let deck = deck_of(secrets, hn);
    let k = pre.funded_count();
    let bb = first_funded_offset(pre, post.button as int, 1).unwrap();
    &&& post.hand_number == hn
    &&& post.stage == Stage::PreFlop
    &&& post.big_blind == pre.big_blind
    &&& post.pot == 0
    &&& post.current_bet == pre.big_blind
    &&& post.combined_secret_material@ == material_of(secrets, hn)
    &&& post.board@ == deck.subrange(2 * k, 2 * k + 5)
    &&& post.community_cards@.len() == 0
    &&& Some(post.button as int) == first_funded_offset(pre, pre.button as int, 1)
    &&& first_funded_offset(pre, post.button as int, 1) is Some
    &&& post.seats@.len() == pre.seats@.len()
    &&& forall|i: int|
        0 <= i < pre.seats@.len() ==> #[trigger] post.seats@[i] == (if i == bb {
            match deal_slot(pre, i, deck, k) {
                Some(s) => Some(blinded_seat(s, pre.big_blind)),
                None => None,
            }
        } else {
            deal_slot(pre, i, deck, k)
        })
    &&& post.to_act matches Some(x) && Some(x as int) == crate::betting::first_eligible_offset(
        post,
        if k == 2 {
            post.button as int
        } else {
            bb
        },
        1,
    )
}

/// What `start_hand` does: it refuses to interrupt a running hand and to
/// deal among fewer than two funded seats, and otherwise deals the next
/// hand.
pub open spec fn start_hand_post(pre: Table, post: Table, r: Result<(), Error>) -> bool {
    if !(pre.stage == Stage::WaitingForPlayers || pre.stage == Stage::HandComplete) {
        r == Err::<(), Error>(Error::IllegalAction) && post == pre
    } else if pre.funded_count() < 2 {
        r == Err::<(), Error>(Error::IllegalAction) && post == pre
    } else {
        r == Ok::<(), Error>(()) && dealt(pre, post)
    }
}


impl Table {
    /// Deal the next hand.  Every funded seat is dealt in; the button moves
    /// to the next funded seat; the seat after it posts the big blind; the
    /// seat after the poster (after the button, in two-seat play) is first
    /// to act.
    #[verifier::rlimit(100)]
    pub fn start_hand(&mut self) -> (r: Result<(), Error>)
        requires
            old(self).wf(),
            old(self).hand_number < u64::MAX,
        ensures
            final(self).wf(),
            final(self).total_chips() == old(self).total_chips(),
            r is Err ==> *final(self) == *old(self),
            start_hand_post(*old(self), *final(self), r),
    {
        let can_deal = match self.stage {
            Stage::WaitingForPlayers => true,
            Stage::HandComplete => true,
            _ => false,
        };
        if !can_deal {
            return Err(Error::IllegalAction);
        }
        let k = self.count_funded();
        if k < 2 {
            return Err(Error::IllegalAction);
        }
        let ghost pre = *self;
        let ghost secrets = dealt_secrets(pre.seats@);
        let ghost gk = pre.funded_count();
        proof {
            assert(pre.seats@.take(NUM_SEATS as int) =~= pre.seats@);
            crate::table::lemma_count_le_len(pre.seats@, funded_of());
        }
        // Gather the seed material: each dealt seat's secret, then the new
        // hand number.
        let mut material: Vec<u8> = Vec::new();
        let mut i: usize = 0;
        while i < NUM_SEATS
            invariant
                *self == pre,
                pre.seats@.len() == NUM_SEATS,
                i <= NUM_SEATS,
                material@ == concat_secrets(dealt_secrets(pre.seats@.take(i as int))),
            decreases NUM_SEATS - i,
        {
            let ghost prefix = dealt_secrets(pre.seats@.take(i as int));
            let sec = match &self.seats[i] {
                Some(s) => {
                    if s.wallet > 0 {
                        Some(s.secret)
                    } else {
                        None
                    }
                },
                None => None,
            };
            match sec {
                Some(x) => {
                    Table::push_u64_be(&mut material, x);
                },
                None => {},
            }
            proof {
                assert(pre.seats@.take(i as int + 1).drop_last() =~= pre.seats@.take(i as int));
                assert(pre.seats@.take(i as int + 1).last() == pre.seats@[i as int]);
                let nxt = dealt_secrets(pre.seats@.take(i as int + 1));
                match sec {
                    Some(x) => {
                        assert(nxt =~= prefix + seq![x]);
                        assert(nxt.drop_last() =~= prefix);
                        assert(concat_secrets(nxt) == concat_secrets(prefix) + u64_be(x));
                    },
                    None => {
                        assert(nxt =~= prefix);
                    },
                }
            }
            i += 1;
        }
        let hn = self.hand_number + 1;
        Table::push_u64_be(&mut material, hn);
        proof {
            assert(material@ == material_of(secrets, hn));
        }
        // Derive the deck.
        let seed = sha256(&material);
        let mut deck: Vec<u8> = Vec::new();
        let mut c: usize = 0;
        while c < 52
            invariant
                c <= 52,
                deck@ == base_deck().take(c as int),
            decreases 52 - c,
        {
            deck.push(c as u8);
            proof {
                assert(deck@ =~= base_deck().take(c as int + 1));
            }
            c += 1;
        }
        proof {
            assert(deck@ =~= base_deck());
        }
        shuffle_deck(&mut deck, &seed);
        let ghost gdeck = deck@;
        proof {
            assert(gdeck == deck_of(secrets, hn));
            assert(gdeck.len() == 52);
            assert forall|a: int| 0 <= a < 52 implies gdeck[a] < 52 by {
                assert(gdeck.contains(gdeck[a]));
                assert(base_deck().contains(gdeck[a]));
                let w = choose|w: int| 0 <= w < base_deck().len() && base_deck()[w] == gdeck[a];
                assert(gdeck[a] == w as u8);
            }
            assert(forall|a: int, b: int| 0 <= a < b < 52 ==> gdeck[a] != gdeck[b]);
        }
        // Deal hole cards round-robin to the funded seats.
        let mut m: usize = 0;
        let mut i: usize = 0;
        while i < NUM_SEATS
            invariant
                self.seats@.len() == NUM_SEATS,
                pre.seats@.len() == NUM_SEATS,
                i <= NUM_SEATS,
                m == count_slots(pre.seats@.take(i as int), funded_of()),
                m <= i,
                gk == pre.funded_count(),
                k == gk,
                2 <= k <= NUM_SEATS,
                deck@ == gdeck,
                gdeck.len() == 52,
                forall|j: int|
                    0 <= j < i ==> #[trigger] self.seats@[j] == deal_slot(pre, j, gdeck, gk),
                forall|j: int| i <= j < NUM_SEATS ==> #[trigger] self.seats@[j] == pre.seats@[j],
                self.stage == pre.stage,
                self.community_cards == pre.community_cards,
                self.board == pre.board,
                self.combined_secret_material == pre.combined_secret_material,
                self.button == pre.button,
                self.hand_number == pre.hand_number,
                self.big_blind == pre.big_blind,
                self.pot == pre.pot,
                self.current_bet == pre.current_bet,
                self.to_act == pre.to_act,
            decreases NUM_SEATS - i,
        {
            proof {
                lemma_sum_slots_take_step(pre.seats@, i as int, ind(funded_of()));
                assert(forall|j: int|
                    0 <= j < pre.seats@.len() ==> slot_value(
                        #[trigger] pre.seats@[j],
                        ind(funded_of()),
                    ) >= 0);
                lemma_sum_slots_prefix_le(pre.seats@, i as int + 1, ind(funded_of()));
                lemma_sum_slots_take_full(pre.seats@, ind(funded_of()));
            }
            let upd = match &self.seats[i] {
                Some(s) => {
                    if s.wallet > 0 {
                        let h0 = deck[m];
                        let h1 = deck[k + m];
                        Some(
                            Seat {
                                in_hand: true,
                                is_all_in: false,
                                acted_this_round: false,
                                committed_this_round: 0,
                                hole_cards: Some((h0, h1)),
                                ..*s
                            },
                        )
                    } else {
                        Some(
                            Seat {
                                in_hand: false,
                                is_all_in: false,
                                acted_this_round: false,
                                committed_this_round: 0,
                                hole_cards: None,
                                ..*s
                            },
                        )
                    }
                },
                None => None,
            };
            let funded = match &self.seats[i] {
                Some(s) => s.wallet > 0,
                None => false,
            };
            self.seats[i] = upd;
            if funded {
                m += 1;
            }
            i += 1;
        }
        // Set the board aside, still unrevealed.
        let mut board: Vec<u8> = Vec::new();
        let mut b: usize = 0;
        while b < 5
            invariant
                b <= 5,
                deck@ == gdeck,
                gdeck.len() == 52,
                2 <= k <= NUM_SEATS,
                board@ == gdeck.subrange(2 * k as int, 2 * k as int + b as int),
            decreases 5 - b,
        {
            let card = deck[2 * k + b];
            board.push(card);
            proof {
                assert(board@ =~= gdeck.subrange(2 * k as int, 2 * k as int + b as int + 1));
            }
            b += 1;
        }
        self.board = board;
        self.community_cards = Vec::new();
        self.combined_secret_material = material;
        self.hand_number = hn;
        self.stage = Stage::PreFlop;
        let ghost afterdeal = *self;
        // Advance the button to the next funded seat.
        let btn = match self.next_funded(self.button, 1) {
            Some(x) => x,
            None => {
                proof {
                    crate::table::lemma_count_pos(pre.seats@, funded_of());
                    let w = choose|w: int|
                        0 <= w < pre.seats@.len() && #[trigger] pre.seats@[w] is Some
                            && funded_of()(pre.seats@[w].unwrap());
                    assert(funded_at(afterdeal, w));
                    lemma_scan_funded_complete(afterdeal, afterdeal.button as int);
                    assert(false);
                }
                0
            },
        };
        self.button = btn;
        proof {
            lemma_scan_funded_congruent(afterdeal, pre, pre.button as int, 1);
            lemma_scan_funded_some(afterdeal, pre.button as int, 1);
        }
        // The seat after the button posts the big blind.
        let ghost beforeblind = *self;
        let bb = match self.next_funded(btn, 1) {
            Some(x) => x,
            None => {
                proof {
                    crate::table::lemma_count_pos(pre.seats@, funded_of());
                    let w = choose|w: int|
                        0 <= w < pre.seats@.len() && #[trigger] pre.seats@[w] is Some
                            && funded_of()(pre.seats@[w].unwrap());
                    assert(funded_at(beforeblind, w));
                    lemma_scan_funded_complete(beforeblind, btn as int);
                    assert(false);
                }
                0
            },
        };
        proof {
            lemma_scan_funded_congruent(beforeblind, pre, btn as int, 1);
            lemma_scan_funded_some(beforeblind, btn as int, 1);
        }
        let sbb = match &self.seats[bb] {
            Some(s) => *s,
            None => Seat {
                identity: 0,
                wallet: 0,
                committed_this_round: 0,
                in_hand: false,
                is_all_in: false,
                acted_this_round: false,
                hole_cards: None,
                secret: 0,
            },
        };
        let blind = if self.big_blind > sbb.wallet {
            sbb.wallet
        } else {
            self.big_blind
        };
        self.seats[bb] = Some(
            Seat {
                wallet: sbb.wallet - blind,
                committed_this_round: blind,
                is_all_in: sbb.wallet - blind == 0,
                ..sbb
            },
        );
        self.current_bet = self.big_blind;
        let ghost afterblind = *self;
        proof {
            assert(afterblind.seats@ =~= beforeblind.seats@.update(
                bb as int,
                Some(blinded_seat(beforeblind.seat_at(bb as int), pre.big_blind)),
            ));
        }
        // First to act: after the poster, or after the button heads-up.
        let start = if k == 2 {
            btn
        } else {
            bb
        };
        let a = match self.next_eligible(start, 1) {
            Some(x) => x,
            None => {
                proof {
                    crate::table::lemma_count_two(pre.seats@, funded_of());
                    let (w1, w2) = choose|w1: int, w2: int|
                        0 <= w1 < pre.seats@.len() && 0 <= w2 < pre.seats@.len() && w1 != w2
                            && #[trigger] pre.seats@[w1] is Some && #[trigger] pre.seats@[w2]
                            is Some && funded_of()(pre.seats@[w1].unwrap()) && funded_of()(
                            pre.seats@[w2].unwrap(),
                        );
                    let w = if w1 != bb as int {
                        w1
                    } else {
                        w2
                    };
                    assert(afterblind.seats@[w] == deal_slot(pre, w, gdeck, gk));
                    assert(crate::betting::eligible_at(afterblind, w));
                    crate::betting::lemma_scan_eligible_complete(afterblind, start as int);
                    assert(false);
                }
                0
            },
        };
        self.to_act = Some(a);
        proof {
            crate::betting::lemma_scan_eligible_some(afterblind, start as int, 1);
            crate::betting::lemma_scan_eligible_congruent(afterblind, *self, start as int, 1);
        }
        proof {
            let post = *self;
            let kk = gk;
            // The final seat arrangement.
            assert forall|j: int| 0 <= j < NUM_SEATS implies #[trigger] post.seats@[j] == (
            if j == bb as int {
                match deal_slot(pre, j, gdeck, kk) {
                    Some(s) => Some(blinded_seat(s, pre.big_blind)),
                    None => None,
                }
            } else {
                deal_slot(pre, j, gdeck, kk)
            }) by {
                if j != bb as int {
                    assert(post.seats@[j] == afterdeal.seats@[j]);
                }
            }
            // Chip conservation: dealing and blinding move no chips in or
            // out of a seat.
            assert forall|j: int|
                0 <= j < NUM_SEATS implies slot_value(#[trigger] post.seats@[j], chips_of())
                == slot_value(#[trigger] pre.seats@[j], chips_of()) by {
                assert(pre.seat_ok(pre.seat_at(j)) || !(pre.seats@[j] is Some));
                if pre.seats@[j] is Some {
                    assert(pre.seat_ok(pre.seat_at(j)));
                }
            }
            crate::table::lemma_sum_slots_pointwise_eq(
                post.seats@,
                pre.seats@,
                chips_of(),
                chips_of(),
            );
            // Contest counts.
            assert forall|j: int|
                0 <= j < NUM_SEATS implies slot_value(
                #[trigger] post.seats@[j],
                ind(crate::table::in_hand_of()),
            ) == slot_value(#[trigger] pre.seats@[j], ind(funded_of())) by {}
            crate::table::lemma_sum_slots_pointwise_eq(
                post.seats@,
                pre.seats@,
                ind(crate::table::in_hand_of()),
                ind(funded_of()),
            );
            // Card coherence.
            assert(post.board@ == gdeck.subrange(2 * kk, 2 * kk + 5));
            assert forall|x: int, y: int|
                0 <= x < y < post.board@.len() implies post.board@[x] != post.board@[y] by {
                assert(post.board@[x] == gdeck[2 * kk + x] && post.board@[y] == gdeck[2 * kk
                    + y]);
            }
            assert forall|x: int| 0 <= x < post.board@.len() implies post.board@[x] < 52 by {
                assert(post.board@[x] == gdeck[2 * kk + x]);
            }
            assert forall|j: int|
                post.occupied(j) && (#[trigger] post.seat_at(j)).in_hand implies
                Table::hole_ok(post.board@, post.seat_at(j).hole_cards.unwrap()) by {
                let mj = funded_before(pre, j);
                assert(forall|x: int|
                    0 <= x < pre.seats@.len() ==> slot_value(
                        #[trigger] pre.seats@[x],
                        ind(funded_of()),
                    ) >= 0);
                lemma_sum_slots_take_step(pre.seats@, j, ind(funded_of()));
                lemma_sum_slots_prefix_le(pre.seats@, j + 1, ind(funded_of()));
                lemma_sum_slots_take_full(pre.seats@, ind(funded_of()));
                crate::table::lemma_sum_slots_nonneg(pre.seats@.take(j), ind(funded_of()));
                assert(0 <= mj && mj + 1 <= kk);
                let h = post.seat_at(j).hole_cards.unwrap();
                assert(h.0 == gdeck[mj] && h.1 == gdeck[kk + mj]);
                assert(h.0 != h.1);
                assert forall|t: int| 0 <= t < post.board@.len() implies post.board@[t] != h.0
                    && post.board@[t] != h.1 by {
                    assert(post.board@[t] == gdeck[2 * kk + t]);
                }
                if post.board@.contains(h.0) {
                    let t = choose|t: int|
                        0 <= t < post.board@.len() && post.board@[t] == h.0;
                    assert(false);
                }
                if post.board@.contains(h.1) {
                    let t = choose|t: int|
                        0 <= t < post.board@.len() && post.board@[t] == h.1;
                    assert(false);
                }
            }
            assert(post.community_cards@ =~= post.board@.take(0));
            // Per-seat invariants.
            assert forall|j: int| post.occupied(j) implies post.seat_ok(
                #[trigger] post.seat_at(j),
            ) by {
                assert(pre.occupied(j));
            }
            // Identities.
            assert forall|x: int, y: int|
                0 <= x < y < post.seats@.len() && post.seats@[x] is Some && post.seats@[y]
                    is Some implies (#[trigger] post.seats@[x]).unwrap().identity != (
            #[trigger] post.seats@[y]).unwrap().identity by {
                assert(pre.seats@[x] is Some && pre.seats@[y] is Some);
                assert(pre.seats@[x].unwrap().identity != pre.seats@[y].unwrap().identity);
            }
            assert(post.wf());
            assert(dealt(pre, post));
        }
        Ok(())
    }
}

} // verus!
