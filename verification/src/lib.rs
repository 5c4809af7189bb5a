//! Five-card poker hand evaluation: parse hands given as text, classify each
//! into a poker category, order them, and pick every hand tying for best.
//!
//! The one entry point most callers need is [`winning_hands`], which returns
//! the winning subset of its input, by reference and in input order, or
//! nothing at all if the batch is empty or any hand is malformed.

use vstd::prelude::*;

pub mod card;
pub mod hand;
pub mod order;

use crate::hand::{HandV, PokerHand, parse_hand_spec};
use crate::order::{
    Cmp, cmp_hands, compare, lemma_compare_antisymmetric, lemma_compare_transitive,
};
use vstd::slice::slice_index_get;

verus! {

broadcast use vstd::slice::axiom_spec_len;

/// The views of the hand strings of a batch.
pub open spec fn views_of(hands: Seq<&str>) -> Seq<Seq<char>> {
    hands.map_values(|h: &str| h@)
}

/// Every hand string of the batch parses and classifies.
pub open spec fn all_parse(hs: Seq<Seq<char>>) -> bool {
    forall|i: int| 0 <= i < hs.len() ==> (#[trigger] parse_hand_spec(hs[i])) is Ok
}

/// The classification of one hand string that parses.
pub open spec fn hand_val(h: Seq<char>) -> HandV {
    parse_hand_spec(h)->Ok_0
}

/// The hand loses to no hand of the batch.
pub open spec fn beats_all(h: Seq<char>, hs: Seq<Seq<char>>) -> bool {
    forall|j: int| 0 <= j < hs.len() ==> cmp_hands(hand_val(h), #[trigger] hand_val(hs[j]))
        != Cmp::Lt
}

/// The hands among the first `n` of the batch that lose to none in the
/// whole batch, in input order.
pub open spec fn winners_upto<'a>(hands: Seq<&'a str>, n: int) -> Seq<&'a str> {
    hands.take(n).filter(|h: &str| beats_all(h@, views_of(hands)))
}

/// The winners of a batch: the hands, in input order, that lose to none.
pub open spec fn winners_spec<'a>(hands: Seq<&'a str>) -> Seq<&'a str> {
    winners_upto(hands, hands.len() as int)
}

/// Taking one more hand into account keeps the winners found so far and
/// appends the new hand exactly when it loses to none.
proof fn lemma_winners_step<'a>(hands: Seq<&'a str>, i: int)
    requires
        0 <= i < hands.len(),
    ensures
        winners_upto(hands, i + 1) == (if beats_all(hands[i]@, views_of(hands)) {
            winners_upto(hands, i).push(hands[i])
        } else {
            winners_upto(hands, i)
        }),
{
    reveal_with_fuel(Seq::<_>::filter, 2);
    assert(hands.take(i + 1).drop_last() =~= hands.take(i));
    assert(hands.take(i + 1).last() == hands[i]);
}

/// A hand that loses to none ends up among the winners of the batch.
proof fn lemma_winners_contains<'a>(hands: Seq<&'a str>, m: int, t: int)
    requires
        0 <= m < t <= hands.len(),
        beats_all(hands[m]@, views_of(hands)),
    ensures
        winners_upto(hands, t).contains(hands[m]),
    decreases t,
{
    if t == m + 1 {
        lemma_winners_step(hands, m);
        let w = winners_upto(hands, t);
        assert(w[w.len() - 1] == hands[m]);
    } else {
        lemma_winners_contains(hands, m, t - 1);
        lemma_winners_step(hands, t - 1);
        let w = winners_upto(hands, t - 1);
        let idx = choose|idx: int| 0 <= idx < w.len() && w[idx] == hands[m];
        assert(winners_upto(hands, t)[idx] == hands[m]);
    }
}

/// Law: two hands of one batch whose classifications tie stand or fall
/// together: if one of the two loses to none, so does the other, and both
/// appear among the winners.
pub proof fn lemma_tied_hands_win_together<'a>(hands: Seq<&'a str>, i: int, j: int)
    requires
        0 <= i < hands.len(),
        0 <= j < hands.len(),
        cmp_hands(hand_val(hands[i]@), hand_val(hands[j]@)) == Cmp::Eq,
        beats_all(hands[i]@, views_of(hands)),
    ensures
        beats_all(hands[j]@, views_of(hands)),
        winners_spec(hands).contains(hands[i]),
        winners_spec(hands).contains(hands[j]),
{
    let hs = views_of(hands);
    let vi = hand_val(hands[i]@);
    let vj = hand_val(hands[j]@);
    lemma_compare_antisymmetric(vi, vj);
    assert forall|k: int| 0 <= k < hs.len() implies cmp_hands(vj, #[trigger] hand_val(hs[k]))
        != Cmp::Lt by {
        assert(cmp_hands(vi, hand_val(hs[k])) != Cmp::Lt);
        lemma_compare_transitive(vj, vi, hand_val(hs[k]));
    }
    lemma_winners_contains(hands, i, hands.len() as int);
    lemma_winners_contains(hands, j, hands.len() as int);
}

/// Picks every hand of the batch that ties for best.
///
/// - An empty batch yields no result.
/// - A batch of one yields that hand unchanged, without validating it.
/// - Otherwise, if any hand is malformed the whole batch yields no result;
///   if all parse, the result holds exactly the hands that lose to none,
///   by reference and in input order.
pub fn winning_hands<'a>(hands: &[&'a str]) -> (r: Option<Vec<&'a str>>)
    ensures
        hands@.len() == 0 ==> r is None,
        hands@.len() == 1 ==> (r matches Some(ws) && ws@ == seq![hands@[0]]),
        hands@.len() >= 2 && !all_parse(views_of(hands@)) ==> r is None,
        hands@.len() >= 2 && all_parse(views_of(hands@)) ==> (r matches Some(ws) && ws@
            == winners_spec(hands@) && ws@.len() >= 1),
{
    let n = hands.len();
    if n == 0 {
        return None;
    }
    if n == 1 {
        let mut ws: Vec<&'a str> = Vec::new();
        ws.push(*slice_index_get(hands, 0));
        proof {
            assert(ws@ =~= seq![hands@[0]]);
        }
        return Some(ws);
    }

    let ghost hs = views_of(hands@);
    let mut evals: Vec<PokerHand> = Vec::new();
    let mut i: usize = 0;
    while i < n
        invariant
            n == hands@.len(),
            2 <= n,
            hs == views_of(hands@),
            i <= n,
            evals@.len() == i,
            forall|k: int| 0 <= k < i ==> (#[trigger] parse_hand_spec(hands@[k]@)) is Ok,
            forall|k: int| 0 <= k < i ==> (#[trigger] evals@[k]@) == hand_val(hands@[k]@),
        decreases n - i,
    {
        let h: &str = *slice_index_get(hands, i);
        match PokerHand::from_str(h) {
            Ok(ph) => {
                evals.push(ph);
            },
            Err(_) => {
                proof {
                    assert(hs[i as int] == hands@[i as int]@);
                    assert(!(parse_hand_spec(hs[i as int]) is Ok));
                    assert(!all_parse(hs));
                }
                return None;
            },
        }
        i += 1;
    }
    proof {
        assert forall|k: int| 0 <= k < hs.len() implies (#[trigger] parse_hand_spec(hs[k]))
            is Ok by {
            assert(hs[k] == hands@[k]@);
            assert(parse_hand_spec(hands@[k]@) is Ok);
        }
        assert(all_parse(hs));
    }

    let mut best: usize = 0;
    let mut i: usize = 1;
    proof {
        lemma_compare_antisymmetric(evals@[0]@, evals@[0]@);
    }
    while i < n
        invariant
            n == hands@.len(),
            hs == views_of(hands@),
            evals@.len() == n,
            forall|k: int| 0 <= k < n ==> (#[trigger] evals@[k]@) == hand_val(hands@[k]@),
            best < i <= n,
            forall|k: int| 0 <= k < i ==> cmp_hands(evals@[best as int]@, #[trigger] evals@[k]@)
                != Cmp::Lt,
        decreases n - i,
    {
        let c = compare(&evals[i], &evals[best]);
        if c == Cmp::Gt {
            proof {
                let vi = evals@[i as int]@;
                let vb = evals@[best as int]@;
                assert forall|k: int| 0 <= k < i + 1 implies cmp_hands(
                    vi,
                    #[trigger] evals@[k]@,
                ) != Cmp::Lt by {
                    lemma_compare_antisymmetric(vi, vb);
                    if k < i {
                        lemma_compare_transitive(vi, vb, evals@[k]@);
                    } else {
                        lemma_compare_antisymmetric(vi, vi);
                    }
                }
            }
            best = i;
        } else {
            proof {
                let vi = evals@[i as int]@;
                let vb = evals@[best as int]@;
                lemma_compare_antisymmetric(vb, vi);
            }
        }
        i += 1;
    }

    let mut result: Vec<&'a str> = Vec::new();
    let mut i: usize = 0;
    proof {
        assert(hands@.take(0) =~= Seq::<&'a str>::empty());
        reveal_with_fuel(Seq::<_>::filter, 1);
        assert(result@ == winners_upto(hands@, 0));
    }
    while i < n
        invariant
            n == hands@.len(),
            hs == views_of(hands@),
            evals@.len() == n,
            forall|k: int| 0 <= k < n ==> (#[trigger] evals@[k]@) == hand_val(hands@[k]@),
            best < n,
            forall|k: int| 0 <= k < n ==> cmp_hands(evals@[best as int]@, #[trigger] evals@[k]@)
                != Cmp::Lt,
            i <= n,
            result@ == winners_upto(hands@, i as int),
        decreases n - i,
    {
        let c = compare(&evals[i], &evals[best]);
        proof {
            let vi = evals@[i as int]@;
            let vb = evals@[best as int]@;
            if c == Cmp::Eq {
                assert forall|j: int| 0 <= j < hs.len() implies cmp_hands(
                    hand_val(hands@[i as int]@),
                    #[trigger] hand_val(hs[j]),
                ) != Cmp::Lt by {
                    assert(hs[j] == hands@[j]@);
                    assert(cmp_hands(vb, evals@[j]@) != Cmp::Lt);
                    lemma_compare_transitive(vi, vb, evals@[j]@);
                }
                assert(beats_all(hands@[i as int]@, hs));
            } else {
                lemma_compare_antisymmetric(vb, vi);
                assert(cmp_hands(vb, vi) != Cmp::Lt);
                if c == Cmp::Lt {
                    assert(hs[best as int] == hands@[best as int]@);
                    assert(cmp_hands(hand_val(hands@[i as int]@), hand_val(hs[best as int]))
                        == Cmp::Lt);
                    assert(!beats_all(hands@[i as int]@, hs));
                } else {
                    assert(c == Cmp::Gt);
                    assert(false);
                }
            }
            lemma_winners_step(hands@, i as int);
        }
        if c == Cmp::Eq {
            result.push(*slice_index_get(hands, i));
        }
        i += 1;
    }
    proof {
        assert(hands@.take(n as int) =~= hands@);
        let vb = evals@[best as int]@;
        assert forall|j: int| 0 <= j < hs.len() implies cmp_hands(
            hand_val(hands@[best as int]@),
            #[trigger] hand_val(hs[j]),
        ) != Cmp::Lt by {
            assert(hs[j] == hands@[j]@);
            assert(cmp_hands(vb, evals@[j]@) != Cmp::Lt);
        }
        assert(beats_all(hands@[best as int]@, hs));
        lemma_winners_contains(hands@, best as int, n as int);
        assert(winners_spec(hands@).contains(hands@[best as int]));
    }
    Some(result)
}

} // verus!
