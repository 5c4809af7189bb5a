//! The hand comparator: a total order over classified hands, by category
//! rank first and then by the category's own tie-break data, highest card
//! first. The wheel straight counts its ace as 1 and so loses to every
//! other straight.

use vstd::prelude::*;
use crate::hand::{HandType, HandV, PokerHand, is_wheel};

verus! {

/// Outcome of comparing two hands.
#[derive(Clone, Copy, Debug, PartialEq, Eq, Structural)]
pub enum Cmp {
    Lt,
    Eq,
    Gt,
}

/// The rank of a category, 1 (high card) to 9 (straight flush); a higher
/// category beats a lower one outright.
pub open spec fn category_rank(h: HandV) -> u8 {
    match h {
        HandV::HighCard { .. } => 1u8,
        HandV::OnePair { .. } => 2u8,
        HandV::TwoPairs { .. } => 3u8,
        HandV::ThreeOfAKind { .. } => 4u8,
        HandV::Straight { .. } => 5u8,
        HandV::Flush { .. } => 6u8,
        HandV::FullHouse { .. } => 7u8,
        HandV::FourOfAKind { .. } => 8u8,
        HandV::StraightFlush { .. } => 9u8,
    }
}

/// In a straight the wheel's ace plays low: its ranks compare as 1-2-3-4-5.
/// Every other rank sequence compares as it stands.
pub open spec fn wheel_adjusted(s: Seq<u8>) -> Seq<u8> {
    if is_wheel(s) {
        seq![1u8, 2u8, 3u8, 4u8, 5u8]
    } else {
        s
    }
}

/// The comparison key of a hand: its category rank, then its tie-break
/// ranks from most to least significant.
pub open spec fn spec_key(h: HandV) -> Seq<u8> {
    match h {
        HandV::HighCard { ranks } => seq![1u8] + ranks.reverse(),
        HandV::OnePair { pair, kickers } => seq![2u8, pair] + kickers.reverse(),
        HandV::TwoPairs { high_pair, low_pair, kicker } => seq![3u8, high_pair, low_pair, kicker],
        HandV::ThreeOfAKind { triple, kickers } => seq![4u8, triple] + kickers.reverse(),
        HandV::Straight { ranks } => seq![5u8] + wheel_adjusted(ranks).reverse(),
        HandV::Flush { ranks } => seq![6u8] + ranks.reverse(),
        HandV::FullHouse { triple, pair } => seq![7u8, triple, pair],
        HandV::FourOfAKind { quad, kicker } => seq![8u8, quad, kicker],
        HandV::StraightFlush { ranks } => seq![9u8] + wheel_adjusted(ranks).reverse(),
    }
}

/// Lexicographic comparison of two rank sequences; a proper prefix is less.
pub open spec fn cmp_seq(a: Seq<u8>, b: Seq<u8>) -> Cmp
    decreases a.len(),
{
    if a.len() == 0 && b.len() == 0 {
        Cmp::Eq
    } else if a.len() == 0 {
        Cmp::Lt
    } else if b.len() == 0 {
        Cmp::Gt
    } else if a[0] < b[0] {
        Cmp::Lt
    } else if a[0] > b[0] {
        Cmp::Gt
    } else {
        cmp_seq(a.drop_first(), b.drop_first())
    }
}

/// The order on classified hands.
pub open spec fn cmp_hands(a: HandV, b: HandV) -> Cmp {
    cmp_seq(spec_key(a), spec_key(b))
}

// ---------------------------------------------------------------------------
// The order's laws.
// ---------------------------------------------------------------------------

/// `cmp_seq` reports `Eq` exactly on equal sequences.
pub proof fn lemma_cmp_seq_eq(a: Seq<u8>, b: Seq<u8>)
    ensures
        cmp_seq(a, b) == Cmp::Eq <==> a == b,
    decreases a.len(),
{
    if a.len() == 0 && b.len() == 0 {
        assert(a =~= b);
    } else if a.len() != 0 && b.len() != 0 && a[0] == b[0] {
        lemma_cmp_seq_eq(a.drop_first(), b.drop_first());
        if a.drop_first() == b.drop_first() {
            assert forall|i: int| 0 <= i < a.len() implies a[i] == b[i] by {
                if i > 0 {
                    assert(a.drop_first()[i - 1] == b.drop_first()[i - 1]);
                }
            }
            assert(a =~= b);
        }
        if a == b {
            assert(a.drop_first() =~= b.drop_first());
        }
    }
}

/// Swapping the arguments flips the outcome.
pub proof fn lemma_cmp_seq_flip(a: Seq<u8>, b: Seq<u8>)
    ensures
        cmp_seq(a, b) == Cmp::Lt <==> cmp_seq(b, a) == Cmp::Gt,
        cmp_seq(a, b) == Cmp::Eq <==> cmp_seq(b, a) == Cmp::Eq,
    decreases a.len(),
{
    if a.len() != 0 && b.len() != 0 && a[0] == b[0] {
        lemma_cmp_seq_flip(a.drop_first(), b.drop_first());
    }
}

/// The order is transitive on the side that is not greater.
pub proof fn lemma_cmp_seq_trans_le(a: Seq<u8>, b: Seq<u8>, c: Seq<u8>)
    requires
        cmp_seq(a, b) != Cmp::Gt,
        cmp_seq(b, c) != Cmp::Gt,
    ensures
        cmp_seq(a, c) != Cmp::Gt,
    decreases a.len(),
{
    if a.len() != 0 && b.len() != 0 && c.len() != 0 && a[0] == b[0] && b[0] == c[0] {
        lemma_cmp_seq_trans_le(a.drop_first(), b.drop_first(), c.drop_first());
    }
}

/// Law: comparing two hands yields one verdict, swapping the hands flips
/// it, and a hand — or two hands with identical category and tie-break
/// data — ties with itself.
pub proof fn lemma_compare_antisymmetric(a: HandV, b: HandV)
    ensures
        cmp_hands(a, b) == Cmp::Lt <==> cmp_hands(b, a) == Cmp::Gt,
        cmp_hands(a, b) == Cmp::Eq <==> cmp_hands(b, a) == Cmp::Eq,
        a == b ==> cmp_hands(a, b) == Cmp::Eq,
{
    lemma_cmp_seq_flip(spec_key(a), spec_key(b));
    lemma_cmp_seq_eq(spec_key(a), spec_key(b));
}

/// Law: the order on hands is transitive, ties included.
pub proof fn lemma_compare_transitive(a: HandV, b: HandV, c: HandV)
    requires
        cmp_hands(a, b) != Cmp::Lt,
        cmp_hands(b, c) != Cmp::Lt,
    ensures
        cmp_hands(a, c) != Cmp::Lt,
{
    lemma_cmp_seq_flip(spec_key(a), spec_key(b));
    lemma_cmp_seq_flip(spec_key(b), spec_key(c));
    lemma_cmp_seq_trans_le(spec_key(c), spec_key(b), spec_key(a));
    lemma_cmp_seq_flip(spec_key(a), spec_key(c));
}

/// Law: a hand of a higher category beats one of a lower category,
/// whatever the tie-break data of either.
pub proof fn lemma_category_dominates(a: HandV, b: HandV)
    requires
        category_rank(a) > category_rank(b),
    ensures
        cmp_hands(a, b) == Cmp::Gt,
{
    assert(spec_key(a).len() > 0 && spec_key(a)[0] == category_rank(a));
    assert(spec_key(b).len() > 0 && spec_key(b)[0] == category_rank(b));
}

// ---------------------------------------------------------------------------
// The executable comparator.
// ---------------------------------------------------------------------------

/// Appends the ranks of `v` to `k`, last rank first.
fn push_reversed(k: &mut Vec<u8>, v: &Vec<u8>)
    ensures
        final(k)@ == old(k)@ + v@.reverse(),
{
    let ghost k0 = k@;
    let mut j: usize = v.len();
    while j > 0
        invariant
            j <= v@.len(),
            k@ == k0 + v@.reverse().take(v@.len() - j),
        decreases j,
    {
        let ghost m = v@.len() - j;
        j -= 1;
        k.push(v[j]);
        proof {
            assert(v@.reverse()[m] == v@[j as int]);
            assert(v@.reverse().take(m + 1) =~= v@.reverse().take(m).push(v@.reverse()[m]));
            assert(k@ =~= k0 + v@.reverse().take(m + 1));
        }
    }
    proof {
        assert(v@.reverse().take(v@.len() as int) =~= v@.reverse());
        assert(k@ =~= k0 + v@.reverse());
    }
}

/// Builds the comparison key of a classified hand.
fn key_of(h: &HandType) -> (k: Vec<u8>)
    ensures
        k@ == spec_key(h@),
{
    let mut k: Vec<u8> = Vec::new();
    match h {
        HandType::HighCard(d) => {
            k.push(1);
            push_reversed(&mut k, &d.cards);
            proof {
                assert(k@ =~= seq![1u8] + d.cards@.reverse());
            }
        },
        HandType::OnePair(d) => {
            k.push(2);
            k.push(d.pair_value);
            push_reversed(&mut k, &d.remaining_cards);
            proof {
                assert(k@ =~= seq![2u8, d.pair_value] + d.remaining_cards@.reverse());
            }
        },
        HandType::TwoPairs(d) => {
            k.push(3);
            k.push(d.high_pair_value);
            k.push(d.low_pair_value);
            k.push(d.remaining_card);
            proof {
                assert(k@ =~= seq![3u8, d.high_pair_value, d.low_pair_value, d.remaining_card]);
            }
        },
        HandType::ThreeOfAKind(d) => {
            k.push(4);
            k.push(d.three_of_a_kind_value);
            push_reversed(&mut k, &d.remaining_cards);
            proof {
                assert(k@ =~= seq![4u8, d.three_of_a_kind_value] + d.remaining_cards@.reverse());
            }
        },
        HandType::Straight(d) => {
            k.push(5);
            push_wheel_adjusted(&mut k, &d.cards);
            proof {
                assert(k@ =~= seq![5u8] + wheel_adjusted(d.cards@).reverse());
            }
        },
        HandType::Flush(d) => {
            k.push(6);
            push_reversed(&mut k, &d.cards);
            proof {
                assert(k@ =~= seq![6u8] + d.cards@.reverse());
            }
        },
        HandType::FullHouse(d) => {
            k.push(7);
            k.push(d.three_of_a_kind_value);
            k.push(d.pair_value);
            proof {
                assert(k@ =~= seq![7u8, d.three_of_a_kind_value, d.pair_value]);
            }
        },
        HandType::FourOfAKind(d) => {
            k.push(8);
            k.push(d.four_of_a_kind_value);
            k.push(d.remaining_card);
            proof {
                assert(k@ =~= seq![8u8, d.four_of_a_kind_value, d.remaining_card]);
            }
        },
        HandType::StraightFlush(d) => {
            k.push(9);
            push_wheel_adjusted(&mut k, &d.cards);
            proof {
                assert(k@ =~= seq![9u8] + wheel_adjusted(d.cards@).reverse());
            }
        },
    }
    k
}

/// Appends a straight's ranks to `k`, highest first, the wheel's ace
/// counted as 1.
fn push_wheel_adjusted(k: &mut Vec<u8>, v: &Vec<u8>)
    ensures
        final(k)@ == old(k)@ + wheel_adjusted(v@).reverse(),
{
    let wheel = v.len() == 5 && v[0] == 2 && v[1] == 3 && v[2] == 4 && v[3] == 5 && v[4] == 14;
    if wheel {
        let ghost k0 = k@;
        k.push(5);
        k.push(4);
        k.push(3);
        k.push(2);
        k.push(1);
        proof {
            assert(wheel_adjusted(v@) == seq![1u8, 2u8, 3u8, 4u8, 5u8]);
            assert forall|i: int| 0 <= i < 5 implies #[trigger] wheel_adjusted(v@).reverse()[i]
                == (5 - i) as u8 by {}
            assert(k@ =~= k0 + wheel_adjusted(v@).reverse());
        }
    } else {
        proof {
            assert(!is_wheel(v@));
        }
        push_reversed(k, v);
    }
}

/// Compares two rank sequences lexicographically.
fn cmp_keys(a: &Vec<u8>, b: &Vec<u8>) -> (c: Cmp)
    ensures
        c == cmp_seq(a@, b@),
{
    let mut i: usize = 0;
    proof {
        assert(a@.skip(0) =~= a@);
        assert(b@.skip(0) =~= b@);
    }
    while i < a.len() && i < b.len()
        invariant
            i <= a@.len(),
            i <= b@.len(),
            cmp_seq(a@, b@) == cmp_seq(a@.skip(i as int), b@.skip(i as int)),
        decreases a@.len() - i,
    {
        let x = a[i];
        let y = b[i];
        proof {
            assert(a@.skip(i as int)[0] == x);
            assert(b@.skip(i as int)[0] == y);
        }
        if x < y {
            return Cmp::Lt;
        }
        if x > y {
            return Cmp::Gt;
        }
        proof {
            assert(a@.skip(i as int).drop_first() =~= a@.skip(i + 1));
            assert(b@.skip(i as int).drop_first() =~= b@.skip(i + 1));
        }
        i += 1;
    }
    if i < b.len() {
        Cmp::Lt
    } else if i < a.len() {
        Cmp::Gt
    } else {
        Cmp::Eq
    }
}

/// Compares two classified hands under the order `cmp_hands` describes.
pub fn compare(a: &PokerHand, b: &PokerHand) -> (c: Cmp)
    ensures
        c == cmp_hands(a@, b@),
{
    let ka = key_of(&a.hand_type);
    let kb = key_of(&b.hand_type);
    cmp_keys(&ka, &kb)
}

} // verus!
