use vstd::prelude::*;

verus! {

/// The strength of the best five-card hand inside a seven-card hand, named
/// as an abstract integer: rs_poker's `Rank` is a totally ordered finite
/// value (a category with a kicker payload), so its order embeds in `int`.
/// The value depends on the cards alone; it is pinned to the real evaluator
/// only through [`compare_hands`], which exposes nothing but comparisons.
pub uninterp spec fn hand_rank(cards: Seq<u8>) -> int;

/// Relies on rs_poker's `Rankable::rank` for `Vec<Card>` (the best five-card
/// rank of a seven-card hand) and on `Rank`'s derived total order: ranking
/// the same cards always yields the same `Rank`, and comparing two `Rank`s
/// is poker hand comparison.  The cards are given as ids below 52, converted
/// through rs_poker's `Card: From<u8>`; they must be distinct, as one deck
/// deals them.
#[verifier::external_body]
pub(crate) fn compare_hands(a: &Vec<u8>, b: &Vec<u8>) -> (r: i8)
    requires
        a@.len() == 7,
        b@.len() == 7,
        forall|i: int| 0 <= i < 7 ==> a@[i] < 52 && b@[i] < 52,
        forall|i: int, j: int| 0 <= i < j < 7 ==> a@[i] != a@[j] && b@[i] != b@[j],
    ensures
        r == 1i8 <==> hand_rank(a@) > hand_rank(b@),
        r == -1i8 <==> hand_rank(a@) < hand_rank(b@),
        r == 0i8 <==> hand_rank(a@) == hand_rank(b@),
{
    let ca: Vec<rs_poker::core::Card> =
        a.iter().map(|c| rs_poker::core::Card::from(*c)).collect();
    let cb: Vec<rs_poker::core::Card> =
        b.iter().map(|c| rs_poker::core::Card::from(*c)).collect();
    let ra = rs_poker::core::Rankable::rank(&ca);
    let rb = rs_poker::core::Rankable::rank(&cb);
    match ra.cmp(&rb) {
        core::cmp::Ordering::Greater => 1,
        core::cmp::Ordering::Less => -1,
        core::cmp::Ordering::Equal => 0,
    }
}

} // verus!
