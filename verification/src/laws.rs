use vstd::prelude::*;

use crate::betting::{
    call_mid, check_mid, eligible_at, gate_error, raise_mid, reopen_slot,
};
use crate::dealing::{deck_of, lemma_material_injective, material_of};
use crate::errors::Error;
use crate::showdown::{
    award_slot, committed_total, fold_won, hand_resolved, is_winner, lemma_seat_offset_roundtrip,
    lemma_winner_between, lemma_winners_nonneg, seat_offset, winner_count, winners_before,
};
use crate::seat::Seat;
use crate::stage::Stage;
use crate::table::{Table, CHIP_LIMIT};

verus! {

/// Dealing is deterministic: identical secrets and an identical hand number
/// derive the identical shuffled deck, so both the dealing and any later
/// audit of a completed hand reproduce the same cards.
pub proof fn lemma_dealing_deterministic(s1: Seq<u64>, n1: u64, s2: Seq<u64>, n2: u64)
    requires
        s1 == s2,
        n1 == n2,
    ensures
        deck_of(s1, n1) == deck_of(s2, n2),
{
}

/// Changing any one seat's secret changes the seed material, the input of
/// the hash the shuffle seed is drawn from.  (That a different hash input
/// yields a different permutation is the cryptographic collision-resistance
/// of SHA-256, which is not a provable statement here.)
pub proof fn lemma_secret_changes_material(s1: Seq<u64>, s2: Seq<u64>, n: u64)
    requires
        s1.len() == s2.len(),
        s1 != s2,
    ensures
        material_of(s1, n) != material_of(s2, n),
{
    if material_of(s1, n) == material_of(s2, n) {
        lemma_material_injective(s1, s2, n, n);
    }
}

/// A raise always re-opens the action: the moment it is applied, every
/// other seat still able to bet owes a decision again.
pub proof fn lemma_raise_reopens(pre: Table, i: int, amount: u64, mid: Table)
    requires
        raise_mid(pre, i, amount, mid),
        0 <= i < pre.seats@.len(),
    ensures
        forall|j: int|
            0 <= j < mid.seats@.len() && j != i && mid.occupied(j) && (#[trigger] mid.seat_at(
                j,
            )).in_hand && !mid.seat_at(j).is_all_in ==> eligible_at(mid, j),
{
    assert forall|j: int|
        0 <= j < mid.seats@.len() && j != i && mid.occupied(j) && (#[trigger] mid.seat_at(
            j,
        )).in_hand && !mid.seat_at(j).is_all_in implies eligible_at(mid, j) by {
        assert(mid.seats@[j] == reopen_slot(pre.seats@[j]));
        assert(!mid.seat_at(j).acted_this_round);
    }
}

/// A check never re-opens the action: every other seat's eligibility to
/// act is exactly what it was before.
pub proof fn lemma_check_never_reopens(pre: Table, i: int, mid: Table)
    requires
        check_mid(pre, i, mid),
        0 <= i < pre.seats@.len(),
    ensures
        forall|j: int|
            0 <= j < pre.seats@.len() && j != i ==> #[trigger] eligible_at(mid, j)
                == eligible_at(pre, j),
{
    assert forall|j: int| 0 <= j < pre.seats@.len() && j != i implies eligible_at(mid, j)
        == eligible_at(pre, j) by {
        assert(mid.seats@[j] == pre.seats@[j]);
    }
}

/// A call never re-opens the action either.
pub proof fn lemma_call_never_reopens(pre: Table, i: int, mid: Table)
    requires
        call_mid(pre, i, mid),
        0 <= i < pre.seats@.len(),
    ensures
        forall|j: int|
            0 <= j < pre.seats@.len() && j != i ==> #[trigger] eligible_at(mid, j)
                == eligible_at(pre, j),
{
    assert forall|j: int| 0 <= j < pre.seats@.len() && j != i implies eligible_at(mid, j)
        == eligible_at(pre, j) by {
        assert(mid.seats@[j] == pre.seats@[j]);
    }
}

/// Showdown tie: two co-winners split the pot evenly, and when one odd
/// chip remains it goes to the co-winner standing nearest after the
/// button.
pub proof fn lemma_tie_split(pre: Table, post: Table, pot_all: int, i: int, j: int)
    requires
        hand_resolved(pre, post, pot_all),
        pre.button < pre.seats@.len(),
        pre.seats@.len() == 9,
        winner_count(pre) == 2,
        is_winner(pre, i),
        is_winner(pre, j),
        0 <= i < 9,
        0 <= j < 9,
        i != j,
        seat_offset(pre.button as int, i) < seat_offset(pre.button as int, j),
        pot_all >= 0,
    ensures
        post.seats@[i] == Some(
            Seat {
                wallet: (pre.seat_at(i).wallet + pot_all / 2 + pot_all % 2) as u64,
                committed_this_round: 0,
                acted_this_round: false,
                ..pre.seat_at(i)
            },
        ),
        post.seats@[j] == Some(
            Seat {
                wallet: (pre.seat_at(j).wallet + pot_all / 2) as u64,
                committed_this_round: 0,
                acted_this_round: false,
                ..pre.seat_at(j)
            },
        ),
{
    let oi = seat_offset(pre.button as int, i);
    let oj = seat_offset(pre.button as int, j);
    lemma_seat_offset_roundtrip(pre.button as int, i);
    lemma_seat_offset_roundtrip(pre.button as int, j);
    lemma_winners_nonneg(pre, oi - 1);
    lemma_winner_between(pre, oi, oj - 1);
    lemma_winner_between(pre, oj, 9);
    assert(winners_before(pre, j) >= winners_before(pre, i) + 1);
    assert(winners_before(pre, j) + 1 <= winner_count(pre));
    assert(winners_before(pre, i) == 0);
    assert(winners_before(pre, j) == 1);
    vstd::arithmetic::div_mod::lemma_mod_division_less_than_divisor(pot_all, 2);
    assert(post.seats@[i] == award_slot(pre, i, pot_all / 2, pot_all % 2));
    assert(post.seats@[j] == award_slot(pre, j, pot_all / 2, pot_all % 2));
    if pot_all % 2 == 1 {
        assert(winners_before(pre, i) < pot_all % 2);
        assert(!(winners_before(pre, j) < pot_all % 2));
    } else {
        assert(pot_all % 2 == 0);
    }
}

/// Fold-to-one: when a hand ends because a single contender remains, that
/// seat's wallet grows by exactly the pot plus every street commitment,
/// the stage is `HandComplete`, and no showdown ranking enters the
/// outcome.
pub proof fn lemma_fold_to_one(mid: Table, post: Table, w: int)
    requires
        fold_won(mid, post, w),
        0 <= w < mid.seats@.len(),
        mid.occupied(w),
    ensures
        post.stage == Stage::HandComplete,
        post.pot == 0,
        post.seats@[w] matches Some(s) && s.wallet == (mid.seat_at(w).wallet + mid.pot
            + committed_total(mid)) as u64,
        post.community_cards == mid.community_cards,
{
    assert(post.seats@[w] == crate::showdown::fold_win_slot(mid, w, w));
}

/// All-in run-out: when a betting round closes with fewer than two seats
/// able to bet, the remaining streets are dealt with no further betting
/// prompt and the hand resolves at once.
pub proof fn lemma_all_in_run_out(pre: Table, post: Table)
    requires
        crate::showdown::close_round_post(pre, post),
        pre.active_count() < 2,
    ensures
        post.stage == Stage::HandComplete,
        post.community_cards@ == pre.board@,
        post.pot == 0,
        post.to_act is None,
{
}

/// Illegal-turn rejection: an action submitted out of turn returns
/// `NotYourTurn` and leaves the table exactly as it was.
pub proof fn lemma_out_of_turn_rejected(
    pre: Table,
    post: Table,
    caller: u64,
    r: Result<(), Error>,
)
    requires
        crate::betting::check_post(pre, post, caller, r),
        gate_error(pre, caller) == Some(Error::NotYourTurn),
    ensures
        r == Err::<(), Error>(Error::NotYourTurn),
        post == pre,
{
}

/// The same, for a call submitted out of turn.
pub proof fn lemma_out_of_turn_call_rejected(
    pre: Table,
    post: Table,
    caller: u64,
    r: Result<(), Error>,
)
    requires
        crate::betting::call_post(pre, post, caller, r),
        gate_error(pre, caller) == Some(Error::NotYourTurn),
    ensures
        r == Err::<(), Error>(Error::NotYourTurn),
        post == pre,
{
}

/// The same, for a raise submitted out of turn.
pub proof fn lemma_out_of_turn_raise_rejected(
    pre: Table,
    post: Table,
    caller: u64,
    amount: u64,
    r: Result<(), Error>,
)
    requires
        crate::betting::raise_post(pre, post, caller, amount, r),
        gate_error(pre, caller) == Some(Error::NotYourTurn),
    ensures
        r == Err::<(), Error>(Error::NotYourTurn),
        post == pre,
{
}

/// The same, for a fold submitted out of turn.
pub proof fn lemma_out_of_turn_fold_rejected(
    pre: Table,
    post: Table,
    caller: u64,
    r: Result<(), Error>,
)
    requires
        crate::betting::fold_post(pre, post, caller, r),
        gate_error(pre, caller) == Some(Error::NotYourTurn),
    ensures
        r == Err::<(), Error>(Error::NotYourTurn),
        post == pre,
{
}

/// Buy-in bounds: a deposit below the minimum buy-in is rejected as
/// `DepositOutOfRange`, and a deposit of exactly the maximum buy-in is
/// accepted (seat free, identity fresh, chip ceiling not exceeded).
pub proof fn lemma_buy_in_bounds(
    pre: Table,
    post: Table,
    identity: u64,
    seat_index: usize,
    secret: u64,
    deposit: u64,
    r: Result<(), Error>,
)
    requires
        crate::table::join_post(pre, post, identity, seat_index, secret, deposit, r),
        pre.occupied_count() < crate::table::NUM_SEATS,
        seat_index < crate::table::NUM_SEATS,
        !pre.occupied(seat_index as int),
        !pre.has_player(identity),
        pre.big_blind >= 1,
    ensures
        deposit < pre.min_buy_in() ==> r == Err::<(), Error>(Error::DepositOutOfRange),
        deposit == pre.max_buy_in() && pre.total_chips() + deposit <= CHIP_LIMIT ==> r == Ok::<
            (),
            Error,
        >(()),
{
}

} // verus!
