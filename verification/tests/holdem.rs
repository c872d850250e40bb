use holdem_table::errors::Error;
use holdem_table::msgs::{handle, init, query, HandleMsg, InitMsg, QueryAnswer, QueryMsg};
use holdem_table::stage::Stage;
use holdem_table::table::Table;

const BB: u64 = 10;
const MIN: u64 = 200;
const MAX: u64 = 1000;

fn fresh() -> Table {
    init(InitMsg { big_blind: BB })
}

fn total_chips(t: &Table) -> u128 {
    let mut sum: u128 = t.pot as u128;
    for s in t.seats.iter() {
        if let Some(seat) = s {
            sum += seat.wallet as u128 + seat.committed_this_round as u128;
        }
    }
    sum
}

fn seat_wallet(t: &Table, i: usize) -> u64 {
    t.seats[i].as_ref().unwrap().wallet
}

/// Three players with distinct secrets, hand dealt.
fn three_dealt() -> Table {
    let mut t = fresh();
    t.join(101, 0, 0xA1, 500).unwrap();
    t.join(102, 1, 0xB2, 500).unwrap();
    t.join(103, 2, 0xC3, 500).unwrap();
    t.start_hand().unwrap();
    t
}

#[test]
fn new_table_waits_for_players() {
    let t = fresh();
    assert_eq!(t.stage, Stage::WaitingForPlayers);
    assert_eq!(t.pot, 0);
    assert_eq!(t.hand_number, 0);
    assert!(t.seats.iter().all(|s| s.is_none()));
}

#[test]
fn join_below_min_buy_in_fails() {
    let mut t = fresh();
    assert_eq!(t.join(101, 0, 7, MIN - 1), Err(Error::DepositOutOfRange));
    assert!(t.seats[0].is_none());
}

#[test]
fn join_at_max_buy_in_succeeds() {
    let mut t = fresh();
    assert_eq!(t.join(101, 0, 7, MAX), Ok(()));
    assert_eq!(seat_wallet(&t, 0), MAX);
}

#[test]
fn join_above_max_buy_in_fails() {
    let mut t = fresh();
    assert_eq!(t.join(101, 0, 7, MAX + 1), Err(Error::DepositOutOfRange));
}

#[test]
fn join_taken_seat_fails() {
    let mut t = fresh();
    t.join(101, 0, 7, 500).unwrap();
    assert_eq!(t.join(102, 0, 8, 500), Err(Error::SeatTaken));
}

#[test]
fn join_out_of_range_seat_fails() {
    let mut t = fresh();
    assert_eq!(t.join(101, 9, 7, 500), Err(Error::SeatTaken));
}

#[test]
fn join_full_table_fails() {
    let mut t = fresh();
    for i in 0..9 {
        t.join(100 + i as u64, i, i as u64, 500).unwrap();
    }
    assert_eq!(t.join(200, 0, 99, 500), Err(Error::TableFull));
}

#[test]
fn join_same_identity_twice_fails() {
    let mut t = fresh();
    t.join(101, 0, 7, 500).unwrap();
    assert_eq!(t.join(101, 1, 8, 500), Err(Error::IllegalAction));
}

#[test]
fn top_up_respects_ceiling() {
    let mut t = fresh();
    t.join(101, 0, 7, 500).unwrap();
    assert_eq!(t.top_up(101, MAX), Err(Error::DepositOutOfRange));
    assert_eq!(t.top_up(101, 300), Ok(()));
    assert_eq!(seat_wallet(&t, 0), 800);
    assert_eq!(t.top_up(999, 100), Err(Error::NotAPlayer));
}

#[test]
fn start_hand_needs_two_funded_seats() {
    let mut t = fresh();
    assert_eq!(t.start_hand(), Err(Error::IllegalAction));
    t.join(101, 0, 7, 500).unwrap();
    assert_eq!(t.start_hand(), Err(Error::IllegalAction));
    t.join(102, 1, 8, 500).unwrap();
    assert_eq!(t.start_hand(), Ok(()));
    assert_eq!(t.stage, Stage::PreFlop);
    assert_eq!(t.hand_number, 1);
}

#[test]
fn start_hand_posts_big_blind() {
    let t = three_dealt();
    // Button moved from 0 to seat 1; seat 2 posts the big blind.
    assert_eq!(t.button, 1);
    let bb_seat = t.seats[2].as_ref().unwrap();
    assert_eq!(bb_seat.committed_this_round, BB);
    assert_eq!(bb_seat.wallet, 500 - BB);
    assert_eq!(t.current_bet, BB);
    // Three-handed, first to act is the seat after the poster.
    assert_eq!(t.to_act, Some(0));
}

#[test]
fn dealt_hole_cards_are_valid() {
    let t = three_dealt();
    for i in 0..3 {
        let (a, b) = t.seats[i].as_ref().unwrap().hole_cards.unwrap();
        assert!(a < 52 && b < 52);
        assert_ne!(a, b);
    }
    // No card is dealt twice.
    let mut seen = [false; 52];
    for i in 0..3 {
        let (a, b) = t.seats[i].as_ref().unwrap().hole_cards.unwrap();
        assert!(!seen[a as usize]);
        seen[a as usize] = true;
        assert!(!seen[b as usize]);
        seen[b as usize] = true;
    }
    for &c in t.board.iter() {
        assert!(c < 52);
        assert!(!seen[c as usize]);
        seen[c as usize] = true;
    }
    assert_eq!(t.board.len(), 5);
    assert_eq!(t.community_cards.len(), 0);
}

#[test]
fn dealing_is_deterministic() {
    let t1 = three_dealt();
    let t2 = three_dealt();
    assert_eq!(t1, t2);
}

#[test]
fn changing_a_secret_changes_the_deal() {
    let t1 = three_dealt();
    let mut t2 = fresh();
    t2.join(101, 0, 0xA1, 500).unwrap();
    t2.join(102, 1, 0xFFFF, 500).unwrap();
    t2.join(103, 2, 0xC3, 500).unwrap();
    t2.start_hand().unwrap();
    let cards = |t: &Table| -> Vec<(u8, u8)> {
        (0..3).map(|i| t.seats[i].as_ref().unwrap().hole_cards.unwrap()).collect()
    };
    let mut full1 = cards(&t1);
    full1.extend(t1.board.iter().map(|&c| (c, c)));
    let mut full2 = cards(&t2);
    full2.extend(t2.board.iter().map(|&c| (c, c)));
    assert_ne!(full1, full2);
}

#[test]
fn shuffle_actually_permutes() {
    // With an identity shuffle, the round-robin deal would hand seat 0 the
    // cards (0, 3) and seat 1 (1, 4) off a fresh ordered deck.
    let t = three_dealt();
    let ordered: Vec<(u8, u8)> = vec![(0, 3), (1, 4), (2, 5)];
    let dealt: Vec<(u8, u8)> =
        (0..3).map(|i| t.seats[i].as_ref().unwrap().hole_cards.unwrap()).collect();
    assert_ne!(dealt, ordered);
}

#[test]
fn out_of_turn_action_rejected_and_state_untouched() {
    let mut t = three_dealt();
    let before = t.clone();
    // Seat 1 tries to act although seat 0 is to act.
    assert_eq!(t.check(102), Err(Error::NotYourTurn));
    assert_eq!(t, before);
    assert_eq!(t.call(103), Err(Error::NotYourTurn));
    assert_eq!(t, before);
}

#[test]
fn action_from_stranger_rejected() {
    let mut t = three_dealt();
    assert_eq!(t.call(999), Err(Error::NotAPlayer));
}

#[test]
fn action_before_deal_rejected() {
    let mut t = fresh();
    t.join(101, 0, 7, 500).unwrap();
    assert_eq!(t.check(101), Err(Error::HandNotInProgress));
}

#[test]
fn check_against_outstanding_bet_rejected() {
    let mut t = three_dealt();
    // Seat 0 owes the blind and may not check.
    assert_eq!(t.check(101), Err(Error::IllegalAction));
}

#[test]
fn raise_beyond_wallet_rejected() {
    let mut t = three_dealt();
    assert_eq!(t.raise(101, 500), Err(Error::InsufficientFunds));
    assert_eq!(t.raise(101, 491), Err(Error::InsufficientFunds));
    // Paying the 10-chip call leaves exactly 490 to raise: an all-in.
    assert_eq!(t.raise(101, 490), Ok(()));
    assert!(t.seats[0].as_ref().unwrap().is_all_in);
}

#[test]
fn chips_conserved_across_actions() {
    let mut t = three_dealt();
    let total = total_chips(&t);
    t.call(101).unwrap();
    assert_eq!(total_chips(&t), total);
    t.raise(102, 50).unwrap();
    assert_eq!(total_chips(&t), total);
    t.call(103).unwrap();
    assert_eq!(total_chips(&t), total);
    t.call(101).unwrap();
    assert_eq!(total_chips(&t), total);
    // The round closed: everything swept into the pot.
    assert_eq!(t.stage, Stage::Flop);
    assert_eq!(t.pot, 3 * 60);
    assert_eq!(t.community_cards.len(), 3);
    assert_eq!(total_chips(&t), total);
}

#[test]
fn raise_reopens_action_check_does_not() {
    let mut t = three_dealt();
    t.call(101).unwrap();
    t.call(102).unwrap();
    // The poster may check its option; everyone has then acted and the
    // round closes.
    t.check(103).unwrap();
    assert_eq!(t.stage, Stage::Flop);
    // Post-flop: first active after the button (seat 1) acts first.
    assert_eq!(t.to_act, Some(2));
    t.check(103).unwrap();
    t.check(101).unwrap();
    // A raise by the last seat re-opens the round for the others.
    t.raise(102, 30).unwrap();
    assert_eq!(t.stage, Stage::Flop);
    assert_eq!(t.to_act, Some(2));
    t.call(103).unwrap();
    assert_eq!(t.stage, Stage::Flop);
    t.call(101).unwrap();
    // Now the round closes and the turn card shows.
    assert_eq!(t.stage, Stage::Turn);
    assert_eq!(t.community_cards.len(), 4);
}

#[test]
fn fold_to_one_awards_pot_without_showdown() {
    let mut t = three_dealt();
    t.call(101).unwrap();
    t.call(102).unwrap();
    t.check(103).unwrap();
    assert_eq!(t.stage, Stage::Flop);
    let total = total_chips(&t);
    let w_before = seat_wallet(&t, 1);
    let pot = t.pot;
    // Seats 2 and 0 fold in sequence; seat 1 collects at once.
    t.fold(103).unwrap();
    assert_eq!(t.stage, Stage::Flop);
    t.fold(101).unwrap();
    assert_eq!(t.stage, Stage::HandComplete);
    assert_eq!(t.pot, 0);
    assert_eq!(seat_wallet(&t, 1), w_before + pot);
    assert_eq!(total_chips(&t), total);
    // No further community card was revealed.
    assert_eq!(t.community_cards.len(), 3);
}

#[test]
fn all_in_run_out_reaches_resolution() {
    let mut t = fresh();
    t.join(101, 0, 0xA1, 200).unwrap();
    t.join(102, 1, 0xB2, 800).unwrap();
    t.start_hand().unwrap();
    // Heads-up: button seat 1, seat 0 posts the blind and acts first.
    assert_eq!(t.button, 1);
    assert_eq!(t.to_act, Some(0));
    let total = total_chips(&t);
    // Seat 0 raises all-in (pays nothing to call, raises its whole stack).
    t.raise(101, 190).unwrap();
    assert!(t.seats[0].as_ref().unwrap().is_all_in);
    // Seat 1 calls with chips to spare: the board runs out on its own.
    t.call(102).unwrap();
    assert_eq!(t.stage, Stage::HandComplete);
    assert_eq!(t.community_cards.len(), 5);
    assert_eq!(t.pot, 0);
    assert_eq!(total_chips(&t), total);
    // The whole 400 went to one side or was split evenly.
    let w0 = seat_wallet(&t, 0);
    let w1 = seat_wallet(&t, 1);
    assert!(
        (w0 == 400 && w1 == 600) || (w0 == 0 && w1 == 1000) || (w0 == 200 && w1 == 800),
        "unexpected split: {} / {}",
        w0,
        w1
    );
    // A busted seat is not dealt in: with one funded seat left, no next
    // hand can start.
    if w0 == 0 {
        assert_eq!(t.start_hand(), Err(Error::IllegalAction));
    } else {
        assert_eq!(t.start_hand(), Ok(()));
    }
}

#[test]
fn top_up_mid_hand_rejected_until_folded() {
    let mut t = three_dealt();
    // A seat contesting the hand may not add chips mid-hand.
    assert_eq!(t.top_up(101, 100), Err(Error::IllegalAction));
    t.fold(101).unwrap();
    // Once out of the hand, it may.
    assert_eq!(t.top_up(101, 100), Ok(()));
    assert_eq!(seat_wallet(&t, 0), 600);
}

#[test]
fn showdown_distributes_whole_pot() {
    let mut t = three_dealt();
    t.call(101).unwrap();
    t.call(102).unwrap();
    t.check(103).unwrap();
    for _street in 0..3 {
        // Check every street down: flop, turn, river.
        let order = [103u64, 101, 102];
        for id in order.iter() {
            t.check(*id).unwrap();
        }
    }
    assert_eq!(t.stage, Stage::HandComplete);
    assert_eq!(t.pot, 0);
    assert_eq!(t.community_cards.len(), 5);
    assert_eq!(total_chips(&t), 1500);
}

#[test]
fn withdraw_outside_hand_pays_wallet() {
    let mut t = fresh();
    t.join(101, 0, 7, 500).unwrap();
    t.join(102, 1, 8, 600).unwrap();
    assert_eq!(t.withdraw(101), Ok(500));
    assert!(t.seats[0].is_none());
    assert_eq!(t.withdraw(101), Err(Error::NotAPlayer));
    assert_eq!(total_chips(&t), 600);
}

#[test]
fn withdraw_mid_hand_with_many_contenders_rejected() {
    let mut t = three_dealt();
    assert_eq!(t.withdraw(101), Err(Error::IllegalAction));
}

#[test]
fn withdraw_mid_hand_heads_up_folds_first() {
    let mut t = fresh();
    t.join(101, 0, 0xA1, 500).unwrap();
    t.join(102, 1, 0xB2, 500).unwrap();
    t.start_hand().unwrap();
    // Seat 0 posted the blind; it withdraws mid-hand, seat 1 scoops.
    let r = t.withdraw(101);
    assert_eq!(r, Ok(500 - BB));
    assert!(t.seats[0].is_none());
    assert_eq!(t.stage, Stage::HandComplete);
    assert_eq!(seat_wallet(&t, 1), 500 + BB);
    assert_eq!(t.pot, 0);
}

#[test]
fn folded_seat_may_withdraw_mid_hand() {
    let mut t = three_dealt();
    t.fold(101).unwrap();
    // Seat 0 folded; its blind-free wallet leaves, the hand goes on.
    assert_eq!(t.withdraw(101), Ok(500));
    assert!(t.seats[0].is_none());
    assert_eq!(t.stage, Stage::PreFlop);
}

#[test]
fn public_state_hides_private_data() {
    let t = three_dealt();
    let p = t.get_public_state();
    assert_eq!(p.stage, t.stage);
    assert_eq!(p.pot, t.pot);
    assert!(p.board.is_empty());
    assert!(p.combined_secret_material.is_empty());
    for s in p.seats.iter() {
        if let Some(seat) = s {
            assert_eq!(seat.secret, 0);
            assert!(seat.hole_cards.is_none());
        }
    }
    assert_eq!(p.community_cards, t.community_cards);
}

#[test]
fn my_hand_needs_the_exact_secret() {
    let t = three_dealt();
    let h = t.get_my_hand(0xA1).unwrap();
    assert_eq!(Some(h), t.seats[0].as_ref().unwrap().hole_cards);
    assert_eq!(t.get_my_hand(0xDEAD), Err(Error::NotAPlayer));
}

#[test]
fn my_hand_before_deal_shows_nothing() {
    let mut t = fresh();
    t.join(101, 0, 0xA1, 500).unwrap();
    assert_eq!(t.get_my_hand(0xA1), Err(Error::HandNotInProgress));
    assert_eq!(t.get_my_hand(0xB2), Err(Error::NotAPlayer));
}

#[test]
fn handle_dispatches_and_pays_out() {
    let mut t = fresh();
    assert_eq!(
        handle(&mut t, 101, HandleMsg::Join { seat_index: 0, secret: 0xA1, funds: 500 }),
        Ok(None)
    );
    assert_eq!(
        handle(&mut t, 102, HandleMsg::Join { seat_index: 1, secret: 0xB2, funds: 500 }),
        Ok(None)
    );
    assert_eq!(handle(&mut t, 101, HandleMsg::TopUp { funds: 100 }), Ok(None));
    let r = handle(&mut t, 101, HandleMsg::Withdraw).unwrap().unwrap();
    assert_eq!(r.identity, 101);
    assert_eq!(r.amount, 600);
    assert_eq!(
        handle(&mut t, 101, HandleMsg::Check),
        Err(Error::HandNotInProgress)
    );
}

#[test]
fn handle_runs_a_full_hand() {
    let mut t = fresh();
    handle(&mut t, 101, HandleMsg::Join { seat_index: 0, secret: 1, funds: 300 }).unwrap();
    handle(&mut t, 102, HandleMsg::Join { seat_index: 1, secret: 2, funds: 300 }).unwrap();
    handle(&mut t, 101, HandleMsg::StartHand).unwrap();
    assert_eq!(t.stage, Stage::PreFlop);
    handle(&mut t, 101, HandleMsg::Check).unwrap();
    handle(&mut t, 102, HandleMsg::Call).unwrap();
    assert_eq!(t.stage, Stage::Flop);
    handle(&mut t, 101, HandleMsg::Fold).unwrap();
    assert_eq!(t.stage, Stage::HandComplete);
    // The survivor took the two blinds' worth.
    assert_eq!(seat_wallet(&t, 1), 300 + BB);
}

#[test]
fn query_returns_scrubbed_state_and_hand() {
    let t = three_dealt();
    match query(&t, QueryMsg::GetPublicState).unwrap() {
        QueryAnswer::PublicState { table } => {
            assert!(table.board.is_empty());
            assert_eq!(table.stage, Stage::PreFlop);
        },
        _ => panic!("wrong answer kind"),
    }
    match query(&t, QueryMsg::GetMyHand { secret: 0xB2 }).unwrap() {
        QueryAnswer::MyHand { cards } => {
            assert_eq!(Some(cards), t.seats[1].as_ref().unwrap().hole_cards);
        },
        _ => panic!("wrong answer kind"),
    }
}

#[test]
fn stage_helpers_follow_the_chain() {
    assert!(Stage::WaitingForPlayers.no_more_action());
    assert!(!Stage::PreFlop.no_more_action());
    assert!(!Stage::River.no_more_action());
    assert!(Stage::Showdown.no_more_action());
    assert!(Stage::HandComplete.no_more_action());
    assert_eq!(Stage::PreFlop.next_round(), Stage::Flop);
    assert_eq!(Stage::Flop.next_round(), Stage::Turn);
    assert_eq!(Stage::Turn.next_round(), Stage::River);
    assert_eq!(Stage::River.next_round(), Stage::Showdown);
    assert_eq!(Stage::Showdown.next_round(), Stage::HandComplete);
    assert_eq!(Stage::HandComplete.next_round(), Stage::PreFlop);
    assert_eq!(Stage::WaitingForPlayers.next_round(), Stage::PreFlop);
}

#[test]
fn second_hand_rotates_button_and_reshuffles() {
    let mut t = fresh();
    t.join(101, 0, 0xA1, 500).unwrap();
    t.join(102, 1, 0xB2, 500).unwrap();
    t.start_hand().unwrap();
    let first_holes = t.seats[0].as_ref().unwrap().hole_cards.unwrap();
    let b1 = t.button;
    // Finish the hand quickly.
    t.fold(t.seats[t.to_act.unwrap()].as_ref().unwrap().identity).unwrap();
    assert_eq!(t.stage, Stage::HandComplete);
    t.start_hand().unwrap();
    assert_eq!(t.hand_number, 2);
    assert_ne!(t.button, b1);
    // The domain separator makes the second hand's deal differ.
    let second_holes = t.seats[0].as_ref().unwrap().hole_cards.unwrap();
    assert_ne!(first_holes, second_holes);
}

/// Play one scripted three-way hand to showdown with an odd pot (each of
/// the three seats puts in 11), and report what each seat received back.
fn showdown_receipts(seed: u64) -> (Vec<u64>, Table) {
    let mut t = fresh();
    t.join(101, 0, seed * 3 + 1, 500).unwrap();
    t.join(102, 1, seed * 3 + 2, 500).unwrap();
    t.join(103, 2, seed * 3 + 3, 500).unwrap();
    t.start_hand().unwrap();
    assert_eq!(t.button, 1);
    assert_eq!(t.to_act, Some(0));
    // Pre-flop: a one-chip raise, called around, makes the pot 33.
    t.raise(101, 1).unwrap();
    t.call(102).unwrap();
    t.call(103).unwrap();
    assert_eq!(t.stage, Stage::Flop);
    assert_eq!(t.pot, 33);
    // Check every remaining street down, in after-the-button order.
    for _street in 0..3 {
        for id in [103u64, 101, 102] {
            t.check(id).unwrap();
        }
    }
    assert_eq!(t.stage, Stage::HandComplete);
    assert_eq!(t.pot, 0);
    let received: Vec<u64> =
        (0..3).map(|i| seat_wallet(&t, i) + 11 - 500).collect();
    (received, t)
}

#[test]
fn showdown_splits_are_even_with_odd_chip_after_button() {
    let mut two_way_ties = 0;
    for seed in 0..300u64 {
        let (received, _t) = showdown_receipts(seed);
        // The whole pot is always distributed.
        assert_eq!(received.iter().sum::<u64>(), 33);
        let mut winners: Vec<usize> =
            (0..3).filter(|&i| received[i] > 0).collect();
        match winners.len() {
            1 => assert_eq!(received[winners[0]], 33),
            2 => {
                two_way_ties += 1;
                // After-the-button order from button seat 1 is 2, 0, 1.
                let order = [2usize, 0, 1];
                winners.sort_by_key(|w| order.iter().position(|o| o == w).unwrap());
                // An even split, the odd chip to the winner nearest after
                // the button.
                assert_eq!(received[winners[0]], 17);
                assert_eq!(received[winners[1]], 16);
            },
            3 => {
                assert_eq!(received, vec![11, 11, 11]);
            },
            _ => panic!("no winner received the pot"),
        }
    }
    // The search space is wide enough that two-way ties must occur.
    assert!(two_way_ties >= 1, "no two-way tie in 300 deals");
}
