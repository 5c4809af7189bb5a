//! The hand classifier: five parsed cards become a `HandType`, the tagged
//! category of the hand together with the numeric data that breaks ties
//! inside that category.

use vstd::prelude::*;
use crate::card::{Card, ParseError, ACE, parse_card_spec};

verus! {

// ---------------------------------------------------------------------------
// Tie-break payloads, one struct per category, as plain rank data.
// ---------------------------------------------------------------------------

/// All five ranks, ascending: the payload of `HighCard` and `Flush`.
#[derive(Debug)]
pub struct HighCardData {
    pub cards: Vec<u8>,
}

/// The rank of the pair, then the other three ranks ascending.
#[derive(Debug)]
pub struct OnePairData {
    pub pair_value: u8,
    pub remaining_cards: Vec<u8>,
}

/// The higher pair, the lower pair, and the fifth card.
#[derive(Debug)]
pub struct TwoPairsData {
    pub high_pair_value: u8,
    pub low_pair_value: u8,
    pub remaining_card: u8,
}

/// The rank of the triple, then the other two ranks ascending.
#[derive(Debug)]
pub struct ThreeOfAKindData {
    pub three_of_a_kind_value: u8,
    pub remaining_cards: Vec<u8>,
}

/// All five ranks ascending; the comparator treats the wheel specially.
#[derive(Debug)]
pub struct StraightData {
    pub cards: Vec<u8>,
}

/// The rank of the triple and the rank of the pair.
#[derive(Debug)]
pub struct FullHouseData {
    pub three_of_a_kind_value: u8,
    pub pair_value: u8,
}

/// The rank of the quad and the fifth card.
#[derive(Debug)]
pub struct FourOfAKindData {
    pub four_of_a_kind_value: u8,
    pub remaining_card: u8,
}

/// A classified hand: one of the nine poker categories, each carrying only
/// the data that breaks ties within it.
#[derive(Debug)]
pub enum HandType {
    HighCard(HighCardData),
    OnePair(OnePairData),
    TwoPairs(TwoPairsData),
    ThreeOfAKind(ThreeOfAKindData),
    Straight(StraightData),
    Flush(HighCardData),
    FullHouse(FullHouseData),
    FourOfAKind(FourOfAKindData),
    StraightFlush(StraightData),
}

/// The mathematical value of a classified hand: the same nine categories
/// over `Seq` and integers.
pub enum HandV {
    HighCard { ranks: Seq<u8> },
    OnePair { pair: u8, kickers: Seq<u8> },
    TwoPairs { high_pair: u8, low_pair: u8, kicker: u8 },
    ThreeOfAKind { triple: u8, kickers: Seq<u8> },
    Straight { ranks: Seq<u8> },
    Flush { ranks: Seq<u8> },
    FullHouse { triple: u8, pair: u8 },
    FourOfAKind { quad: u8, kicker: u8 },
    StraightFlush { ranks: Seq<u8> },
}

impl View for HandType {
    type V = HandV;

    open spec fn view(&self) -> HandV {
        match self {
            HandType::HighCard(d) => HandV::HighCard { ranks: d.cards@ },
            HandType::OnePair(d) => HandV::OnePair {
                pair: d.pair_value,
                kickers: d.remaining_cards@,
            },
            HandType::TwoPairs(d) => HandV::TwoPairs {
                high_pair: d.high_pair_value,
                low_pair: d.low_pair_value,
                kicker: d.remaining_card,
            },
            HandType::ThreeOfAKind(d) => HandV::ThreeOfAKind {
                triple: d.three_of_a_kind_value,
                kickers: d.remaining_cards@,
            },
            HandType::Straight(d) => HandV::Straight { ranks: d.cards@ },
            HandType::Flush(d) => HandV::Flush { ranks: d.cards@ },
            HandType::FullHouse(d) => HandV::FullHouse {
                triple: d.three_of_a_kind_value,
                pair: d.pair_value,
            },
            HandType::FourOfAKind(d) => HandV::FourOfAKind {
                quad: d.four_of_a_kind_value,
                kicker: d.remaining_card,
            },
            HandType::StraightFlush(d) => HandV::StraightFlush { ranks: d.cards@ },
        }
    }
}

/// A whole poker hand, reduced to its classification.
#[derive(Debug)]
pub struct PokerHand {
    pub hand_type: HandType,
}

impl View for PokerHand {
    type V = HandV;

    open spec fn view(&self) -> HandV {
        self.hand_type@
    }
}

// ---------------------------------------------------------------------------
// The classification, as spec functions over the sorted ranks.
// ---------------------------------------------------------------------------

/// Ascending order on ranks, the order every rank sequence here is sorted by.
pub open spec fn rank_le() -> spec_fn(u8, u8) -> bool {
    |a: u8, b: u8| a <= b
}

/// The five ranks of a hand, in input order.
pub open spec fn ranks_of(cards: Seq<Card>) -> Seq<u8> {
    cards.map_values(|c: Card| c.numeric_value)
}

/// The five ranks of a hand, sorted ascending.
pub open spec fn sorted_ranks(cards: Seq<Card>) -> Seq<u8> {
    ranks_of(cards).sort_by(rank_le())
}

/// All cards share one suit.
pub open spec fn is_flush(cards: Seq<Card>) -> bool {
    forall|i: int| 0 <= i < cards.len() ==> #[trigger] cards[i].suit == cards[0].suit
}

/// The ranks form an unbroken run upward.
pub open spec fn is_run(s: Seq<u8>) -> bool {
    forall|i: int| 0 < i < s.len() ==> s[i - 1] + 1 == #[trigger] s[i]
}

/// The sorted ranks of the wheel, the ace-low straight A-2-3-4-5.
pub open spec fn is_wheel(s: Seq<u8>) -> bool {
    s.len() == 5 && s[0] == 2 && s[1] == 3 && s[2] == 4 && s[3] == 5 && s[4] == ACE
}

/// Sorted ranks that make a straight: a run, or the wheel.
pub open spec fn is_straight_ranks(s: Seq<u8>) -> bool {
    is_run(s) || is_wheel(s)
}

/// Positions `i` and `i + 1` of the sorted ranks hold the same rank.
pub open spec fn adj(s: Seq<u8>, i: int) -> bool {
    s[i] == s[i + 1]
}

/// Four cards of one rank. On five sorted ranks the quad fills positions
/// 0..=3 or 1..=4.
pub open spec fn has_four(s: Seq<u8>) -> bool {
    s[0] == s[3] || s[1] == s[4]
}

/// A triple and a pair. Sorted, the triple sits low or high.
pub open spec fn has_full_house(s: Seq<u8>) -> bool {
    (s[0] == s[2] && s[3] == s[4]) || (s[0] == s[1] && s[2] == s[4])
}

/// Three cards of one rank; sorted, the triple always covers position 2.
pub open spec fn has_three(s: Seq<u8>) -> bool {
    s[0] == s[2] || s[1] == s[3] || s[2] == s[4]
}

/// How many adjacent equal positions the sorted ranks hold. Once quads and
/// triples are ruled out, this counts the pairs.
pub open spec fn pair_count(s: Seq<u8>) -> int {
    (if adj(s, 0) { 1int } else { 0int })
    + (if adj(s, 1) { 1int } else { 0int })
    + (if adj(s, 2) { 1int } else { 0int })
    + (if adj(s, 3) { 1int } else { 0int })
}

/// The rank held four times; it always covers position 2.
pub open spec fn quad_rank(s: Seq<u8>) -> u8 {
    s[2]
}

/// The card left over beside a quad.
pub open spec fn quad_kicker(s: Seq<u8>) -> u8 {
    if s[0] == s[1] {
        s[4]
    } else {
        s[0]
    }
}

/// The rank held three times; it always covers position 2.
pub open spec fn triple_rank(s: Seq<u8>) -> u8 {
    s[2]
}

/// The rank of the pair inside a full house.
pub open spec fn full_house_pair(s: Seq<u8>) -> u8 {
    if s[0] == s[2] {
        s[4]
    } else {
        s[0]
    }
}

/// The two cards beside a bare triple, ascending.
pub open spec fn triple_kickers(s: Seq<u8>) -> Seq<u8> {
    if s[0] == s[2] {
        seq![s[3], s[4]]
    } else if s[1] == s[3] {
        seq![s[0], s[4]]
    } else {
        seq![s[0], s[1]]
    }
}

/// The higher of two pairs; sorted, it always covers position 3.
pub open spec fn high_pair(s: Seq<u8>) -> u8 {
    s[3]
}

/// The lower of two pairs; sorted, it always covers position 1.
pub open spec fn low_pair(s: Seq<u8>) -> u8 {
    s[1]
}

/// The fifth card beside two pairs.
pub open spec fn two_pairs_kicker(s: Seq<u8>) -> u8 {
    if !adj(s, 0) {
        s[0]
    } else if adj(s, 2) {
        s[4]
    } else {
        s[2]
    }
}

/// The rank of the only pair.
pub open spec fn one_pair_rank(s: Seq<u8>) -> u8 {
    if adj(s, 0) {
        s[0]
    } else if adj(s, 1) {
        s[1]
    } else if adj(s, 2) {
        s[2]
    } else {
        s[3]
    }
}

/// The three cards beside the only pair, ascending.
pub open spec fn one_pair_kickers(s: Seq<u8>) -> Seq<u8> {
    if adj(s, 0) {
        seq![s[2], s[3], s[4]]
    } else if adj(s, 1) {
        seq![s[0], s[3], s[4]]
    } else if adj(s, 2) {
        seq![s[0], s[1], s[4]]
    } else {
        seq![s[0], s[1], s[2]]
    }
}

/// The category of five sorted ranks together with the flush flag, checked
/// in fixed precedence: straight flush, four of a kind, flush, straight,
/// full house, three of a kind, two pairs, one pair, high card.
pub open spec fn classify_sorted(s: Seq<u8>, flush: bool) -> HandV {
    if flush && is_straight_ranks(s) {
        HandV::StraightFlush { ranks: s }
    } else if has_four(s) {
        HandV::FourOfAKind { quad: quad_rank(s), kicker: quad_kicker(s) }
    } else if flush {
        HandV::Flush { ranks: s }
    } else if is_straight_ranks(s) {
        HandV::Straight { ranks: s }
    } else if has_full_house(s) {
        HandV::FullHouse { triple: triple_rank(s), pair: full_house_pair(s) }
    } else if has_three(s) {
        HandV::ThreeOfAKind { triple: triple_rank(s), kickers: triple_kickers(s) }
    } else if pair_count(s) == 2 {
        HandV::TwoPairs {
            high_pair: high_pair(s),
            low_pair: low_pair(s),
            kicker: two_pairs_kicker(s),
        }
    } else if pair_count(s) == 1 {
        HandV::OnePair { pair: one_pair_rank(s), kickers: one_pair_kickers(s) }
    } else {
        HandV::HighCard { ranks: s }
    }
}

/// What classifying five cards yields, whatever order they arrive in.
pub open spec fn classify_spec(cards: Seq<Card>) -> HandV {
    classify_sorted(sorted_ranks(cards), is_flush(cards))
}

// ---------------------------------------------------------------------------
// The positional shape tests mean what they say about rank counts.
// ---------------------------------------------------------------------------

/// How many entries of `s` hold the rank `r`.
pub open spec fn count_rank(s: Seq<u8>, r: u8) -> int
    decreases s.len(),
{
    if s.len() == 0 {
        0
    } else {
        (if s.last() == r {
            1int
        } else {
            0int
        }) + count_rank(s.drop_last(), r)
    }
}

/// On five ranks the count is the sum of five indicators.
proof fn lemma_count_rank_5(s: Seq<u8>, r: u8)
    requires
        s.len() == 5,
    ensures
        count_rank(s, r) == (if s[0] == r {
            1int
        } else {
            0int
        }) + (if s[1] == r {
            1int
        } else {
            0int
        }) + (if s[2] == r {
            1int
        } else {
            0int
        }) + (if s[3] == r {
            1int
        } else {
            0int
        }) + (if s[4] == r {
            1int
        } else {
            0int
        }),
{
    let s4 = s.drop_last();
    let s3 = s4.drop_last();
    let s2 = s3.drop_last();
    let s1 = s2.drop_last();
    let s0 = s1.drop_last();
    assert(s4.last() == s[3] && s3.last() == s[2] && s2.last() == s[1] && s1.last() == s[0]);
    assert(s0.len() == 0);
    assert(count_rank(s0, r) == 0);
    assert(count_rank(s1, r) == (if s[0] == r {
        1int
    } else {
        0int
    }));
    assert(count_rank(s2, r) == count_rank(s1, r) + (if s[1] == r {
        1int
    } else {
        0int
    }));
    assert(count_rank(s3, r) == count_rank(s2, r) + (if s[2] == r {
        1int
    } else {
        0int
    }));
    assert(count_rank(s4, r) == count_rank(s3, r) + (if s[3] == r {
        1int
    } else {
        0int
    }));
}

/// In a sorted sequence, equal values fill a contiguous block.
proof fn lemma_sorted_equal_block(s: Seq<u8>, i: int, k: int, j: int)
    requires
        vstd::relations::sorted_by(s, rank_le()),
        0 <= i <= k <= j < s.len(),
        s[i] == s[j],
    ensures
        s[k] == s[i],
{
    if i < k {
        assert(rank_le()(s[i], s[k]));
    }
    if k < j {
        assert(rank_le()(s[k], s[j]));
    }
}

/// Law-support: on five sorted ranks the quad test holds exactly when some
/// rank occurs at least four times, and then the quad rank is that rank.
pub proof fn lemma_four_of_a_kind_counts(s: Seq<u8>)
    requires
        s.len() == 5,
        vstd::relations::sorted_by(s, rank_le()),
    ensures
        has_four(s) <==> (exists|r: u8| count_rank(s, r) >= 4),
        has_four(s) ==> count_rank(s, quad_rank(s)) >= 4,
{
    if has_four(s) {
        if s[0] == s[3] {
            lemma_sorted_equal_block(s, 0, 1, 3);
            lemma_sorted_equal_block(s, 0, 2, 3);
            lemma_count_rank_5(s, s[0]);
            assert(count_rank(s, s[0]) >= 4);
            assert(count_rank(s, quad_rank(s)) >= 4);
        } else {
            lemma_sorted_equal_block(s, 1, 2, 4);
            lemma_sorted_equal_block(s, 1, 3, 4);
            lemma_count_rank_5(s, s[1]);
            assert(count_rank(s, s[1]) >= 4);
            assert(count_rank(s, quad_rank(s)) >= 4);
        }
    }
    if exists|r: u8| count_rank(s, r) >= 4 {
        let r = choose|r: u8| count_rank(s, r) >= 4;
        lemma_count_rank_5(s, r);
        if s[0] == r && s[4] == r {
            lemma_sorted_equal_block(s, 0, 3, 4);
        }
        assert(has_four(s));
    }
}

/// Law-support: on five sorted ranks the triple test holds exactly when
/// some rank occurs at least three times, and then the triple rank is that
/// rank.
pub proof fn lemma_three_of_a_kind_counts(s: Seq<u8>)
    requires
        s.len() == 5,
        vstd::relations::sorted_by(s, rank_le()),
    ensures
        has_three(s) <==> (exists|r: u8| count_rank(s, r) >= 3),
        has_three(s) ==> count_rank(s, triple_rank(s)) >= 3,
{
    if has_three(s) {
        if s[0] == s[2] {
            lemma_sorted_equal_block(s, 0, 1, 2);
            lemma_count_rank_5(s, s[0]);
            assert(count_rank(s, s[2]) >= 3);
        } else if s[1] == s[3] {
            lemma_sorted_equal_block(s, 1, 2, 3);
            lemma_count_rank_5(s, s[1]);
            assert(count_rank(s, s[2]) >= 3);
        } else {
            lemma_sorted_equal_block(s, 2, 3, 4);
            lemma_count_rank_5(s, s[2]);
            assert(count_rank(s, s[2]) >= 3);
        }
        assert(count_rank(s, triple_rank(s)) >= 3);
    }
    if exists|r: u8| count_rank(s, r) >= 3 {
        let r = choose|r: u8| count_rank(s, r) >= 3;
        lemma_count_rank_5(s, r);
        if s[0] == r && s[2] == r {
        } else if s[1] == r && s[3] == r {
            lemma_sorted_equal_block(s, 1, 2, 3);
        } else if s[2] == r && s[4] == r {
        } else if s[0] == r && s[3] == r {
            lemma_sorted_equal_block(s, 0, 2, 3);
        } else if s[1] == r && s[4] == r {
            lemma_sorted_equal_block(s, 1, 3, 4);
        } else if s[0] == r && s[4] == r {
            lemma_sorted_equal_block(s, 0, 2, 4);
        }
        assert(has_three(s));
    }
}

/// Law-support: once quads are ruled out, the full-house test on five
/// sorted ranks holds exactly when one rank occurs three times and another
/// twice, and the payload names those two ranks.
pub proof fn lemma_full_house_counts(s: Seq<u8>)
    requires
        s.len() == 5,
        vstd::relations::sorted_by(s, rank_le()),
        !has_four(s),
    ensures
        has_full_house(s) <==> (exists|t: u8, p: u8|
            t != p && count_rank(s, t) == 3 && count_rank(s, p) == 2),
        has_full_house(s) ==> count_rank(s, triple_rank(s)) == 3 && count_rank(
            s,
            full_house_pair(s),
        ) == 2 && triple_rank(s) != full_house_pair(s),
{
    if has_full_house(s) {
        if s[0] == s[2] && s[3] == s[4] {
            lemma_sorted_equal_block(s, 0, 1, 2);
            assert(s[2] != s[3]);
            lemma_count_rank_5(s, s[2]);
            lemma_count_rank_5(s, s[3]);
            assert(count_rank(s, s[2]) == 3 && count_rank(s, s[3]) == 2 && s[2] != s[3]);
        } else {
            lemma_sorted_equal_block(s, 2, 3, 4);
            assert(s[1] != s[2]);
            assert(rank_le()(s[0], s[1]) && rank_le()(s[1], s[2]));
            lemma_count_rank_5(s, s[2]);
            lemma_count_rank_5(s, s[0]);
            assert(count_rank(s, s[2]) == 3 && count_rank(s, s[0]) == 2 && s[2] != s[0]);
        }
    }
    if exists|t: u8, p: u8| t != p && count_rank(s, t) == 3 && count_rank(s, p) == 2 {
        let (t, p) = choose|t: u8, p: u8|
            t != p && count_rank(s, t) == 3 && count_rank(s, p) == 2;
        lemma_count_rank_5(s, t);
        lemma_count_rank_5(s, p);
        if s[0] == t {
            if s[3] == t {
                lemma_sorted_equal_block(s, 0, 1, 3);
                lemma_sorted_equal_block(s, 0, 2, 3);
                assert(false);
            }
            if s[4] == t {
                lemma_sorted_equal_block(s, 0, 3, 4);
                assert(false);
            }
            assert(s[1] == t && s[2] == t);
            assert(s[3] == p && s[4] == p);
        } else if s[4] == t {
            if s[1] == t {
                lemma_sorted_equal_block(s, 1, 2, 4);
                lemma_sorted_equal_block(s, 1, 3, 4);
                assert(false);
            }
            assert(s[2] == t && s[3] == t);
            assert(s[0] == p && s[1] == p);
        } else {
            assert(s[1] == t && s[2] == t && s[3] == t);
            assert(s[0] == p && s[4] == p);
            lemma_sorted_equal_block(s, 0, 2, 4);
            assert(false);
        }
        assert(has_full_house(s));
    }
}

/// Law-support: once triples are ruled out, the adjacency count of five
/// sorted ranks reads off the pairs: with two it names the two pair ranks
/// and the kicker, with one the pair rank, and with none every rank occurs
/// once.
pub proof fn lemma_pair_counts(s: Seq<u8>)
    requires
        s.len() == 5,
        vstd::relations::sorted_by(s, rank_le()),
        !has_three(s),
    ensures
        pair_count(s) == 2 ==> high_pair(s) != low_pair(s) && count_rank(s, high_pair(s)) == 2
            && count_rank(s, low_pair(s)) == 2 && count_rank(s, two_pairs_kicker(s)) == 1,
        pair_count(s) == 1 ==> count_rank(s, one_pair_rank(s)) == 2,
        pair_count(s) == 0 ==> (forall|r: u8| count_rank(s, r) <= 1),
{
    assert(rank_le()(s[0], s[1]) && rank_le()(s[1], s[2]) && rank_le()(s[2], s[3]) && rank_le()(
        s[3],
        s[4],
    ));
    if pair_count(s) == 2 {
        if adj(s, 0) && adj(s, 2) {
            lemma_count_rank_5(s, s[1]);
            lemma_count_rank_5(s, s[3]);
            lemma_count_rank_5(s, s[4]);
        } else if adj(s, 0) && adj(s, 3) {
            lemma_count_rank_5(s, s[1]);
            lemma_count_rank_5(s, s[3]);
            lemma_count_rank_5(s, s[2]);
        } else {
            assert(adj(s, 1) && adj(s, 3));
            lemma_count_rank_5(s, s[1]);
            lemma_count_rank_5(s, s[3]);
            lemma_count_rank_5(s, s[0]);
        }
    }
    if pair_count(s) == 1 {
        if adj(s, 0) {
            lemma_count_rank_5(s, s[0]);
        } else if adj(s, 1) {
            lemma_count_rank_5(s, s[1]);
        } else if adj(s, 2) {
            lemma_count_rank_5(s, s[2]);
        } else {
            assert(adj(s, 3));
            lemma_count_rank_5(s, s[3]);
        }
    }
    if pair_count(s) == 0 {
        assert forall|r: u8| count_rank(s, r) <= 1 by {
            lemma_count_rank_5(s, r);
        }
    }
}

// ---------------------------------------------------------------------------
// Classification depends only on which cards are held, not on their order.
// ---------------------------------------------------------------------------

/// Rearranging cards rearranges their ranks: the rank multisets agree.
proof fn lemma_ranks_multiset(a: Seq<Card>, b: Seq<Card>)
    requires
        a.to_multiset() == b.to_multiset(),
    ensures
        ranks_of(a).to_multiset() == ranks_of(b).to_multiset(),
    decreases a.len(),
{
    broadcast use vstd::seq_lib::group_to_multiset_ensures;
    broadcast use vstd::multiset::group_multiset_axioms;

    if a.len() == 0 {
        vstd::seq_lib::to_multiset_len(a);
        vstd::seq_lib::to_multiset_len(b);
        assert(b.len() == 0);
        assert(ranks_of(a) =~= ranks_of(b));
    } else {
        let x = a[0];
        assert(a.contains(x));
        assert(b.to_multiset().count(x) > 0);
        assert(b.contains(x));
        let j = choose|j: int| 0 <= j < b.len() && b[j] == x;
        assert(a.remove(0).to_multiset() == a.to_multiset().remove(x));
        assert(b.remove(j).to_multiset() == b.to_multiset().remove(x));
        lemma_ranks_multiset(a.remove(0), b.remove(j));
        assert(ranks_of(a).remove(0) =~= ranks_of(a.remove(0)));
        assert(ranks_of(b).remove(j) =~= ranks_of(b.remove(j)));
        let xv = x.numeric_value;
        assert(ranks_of(a)[0] == xv);
        assert(ranks_of(b)[j] == xv);
        let ma = ranks_of(a).to_multiset();
        let mb = ranks_of(b).to_multiset();
        assert(ranks_of(a).remove(0).to_multiset() == ma.remove(xv));
        assert(ranks_of(b).remove(j).to_multiset() == mb.remove(xv));
        assert(ma.remove(xv) == mb.remove(xv));
        assert(ranks_of(a).contains(xv));
        assert(ranks_of(b).contains(xv));
        assert(ma.count(xv) > 0);
        assert(mb.count(xv) > 0);
        assert forall|z: u8| #[trigger] ma.count(z) == mb.count(z) by {
            if z == xv {
                assert(ma.remove(xv).count(xv) == ma.count(xv) - 1);
                assert(mb.remove(xv).count(xv) == mb.count(xv) - 1);
            } else {
                assert(ma.remove(xv).count(z) == ma.count(z));
                assert(mb.remove(xv).count(z) == mb.count(z));
            }
        }
        assert(ma =~= mb);
    }
}

/// Whether a hand is a flush depends only on which cards it holds.
proof fn lemma_flush_permutation(a: Seq<Card>, b: Seq<Card>)
    requires
        a.to_multiset() == b.to_multiset(),
        is_flush(a),
        b.len() > 0,
        a.len() > 0,
    ensures
        is_flush(b),
{
    broadcast use vstd::seq_lib::group_to_multiset_ensures;

    assert forall|k: int| 0 <= k < b.len() implies #[trigger] b[k].suit == b[0].suit by {
        assert(b.contains(b[k]));
        assert(a.to_multiset().count(b[k]) > 0);
        assert(a.contains(b[k]));
        let m = choose|m: int| 0 <= m < a.len() && a[m] == b[k];
        assert(a[m].suit == a[0].suit);
        assert(b.contains(b[0]));
        assert(b.to_multiset().count(b[0]) > 0);
        assert(a.to_multiset().count(b[0]) > 0);
        assert(a.contains(b[0]));
        let m0 = choose|m0: int| 0 <= m0 < a.len() && a[m0] == b[0];
        assert(a[m0].suit == a[0].suit);
    }
}

/// Law: classification assigns one category to a hand, and the assignment
/// does not depend on the order the five cards are given in: any two
/// arrangements of one multiset of cards classify alike.
pub proof fn lemma_classify_permutation_invariant(a: Seq<Card>, b: Seq<Card>)
    requires
        a.len() == 5,
        b.len() == 5,
        a.to_multiset() == b.to_multiset(),
    ensures
        classify_spec(a) == classify_spec(b),
{
    if is_flush(a) {
        lemma_flush_permutation(a, b);
    }
    if is_flush(b) {
        lemma_flush_permutation(b, a);
    }
    assert(is_flush(a) == is_flush(b));
    lemma_ranks_multiset(a, b);
    lemma_rank_le_total();
    ranks_of(a).lemma_sort_by_ensures(rank_le());
    ranks_of(b).lemma_sort_by_ensures(rank_le());
    vstd::seq_lib::lemma_sorted_unique(sorted_ranks(a), sorted_ranks(b), rank_le());
    assert(sorted_ranks(a) =~= sorted_ranks(b));
}

// ---------------------------------------------------------------------------
// Splitting a hand string into card tokens, and parsing it whole.
// ---------------------------------------------------------------------------

/// How splitting on single spaces cuts a string: a space ends the token
/// before it and opens a new one, so consecutive spaces yield empty tokens
/// and the empty string yields one empty token.
pub open spec fn split_spaces(s: Seq<char>) -> Seq<Seq<char>>
    decreases s.len(),
{
    if s.len() == 0 {
        seq![Seq::empty()]
    } else if s.last() == ' ' {
        split_spaces(s.drop_last()).push(Seq::empty())
    } else {
        let r = split_spaces(s.drop_last());
        r.update(r.len() - 1, r.last().push(s.last()))
    }
}

/// Splitting always yields at least one token.
pub proof fn lemma_split_spaces_nonempty(s: Seq<char>)
    ensures
        split_spaces(s).len() >= 1,
    decreases s.len(),
{
    if s.len() > 0 {
        lemma_split_spaces_nonempty(s.drop_last());
    }
}

/// What parsing a whole hand string yields: the string must split into
/// exactly five tokens, each token must parse as a card (the first failure
/// is reported), and the five cards are classified.
pub open spec fn parse_hand_spec(s: Seq<char>) -> Result<HandV, ParseError> {
    let toks = split_spaces(s);
    if toks.len() != 5 {
        Err(ParseError::MalformedHand)
    } else {
        match parse_card_spec(toks[0]) {
            Err(e) => Err(e),
            Ok(c0) => match parse_card_spec(toks[1]) {
                Err(e) => Err(e),
                Ok(c1) => match parse_card_spec(toks[2]) {
                    Err(e) => Err(e),
                    Ok(c2) => match parse_card_spec(toks[3]) {
                        Err(e) => Err(e),
                        Ok(c3) => match parse_card_spec(toks[4]) {
                            Err(e) => Err(e),
                            Ok(c4) => Ok(classify_spec(seq![c0, c1, c2, c3, c4])),
                        },
                    },
                },
            },
        }
    }
}

/// Cuts a hand string at its spaces, exactly as `split_spaces` describes.
fn split_hand<'a>(s: &'a str) -> (tokens: Vec<&'a str>)
    ensures
        tokens@.len() == split_spaces(s@).len(),
        forall|k: int| 0 <= k < tokens@.len() ==> #[trigger] tokens@[k]@ == split_spaces(s@)[k],
{
    let n = s.unicode_len();
    let mut tokens: Vec<&str> = Vec::new();
    let mut start: usize = 0;
    let mut i: usize = 0;
    proof {
        assert(s@.subrange(0, 0) =~= Seq::<char>::empty());
        assert(split_spaces(s@.subrange(0, 0)) =~= seq![Seq::<char>::empty()]);
    }
    while i < n
        invariant
            start <= i <= n,
            n == s@.len(),
            split_spaces(s@.subrange(0, i as int)).len() == tokens@.len() + 1,
            forall|k: int| 0 <= k < tokens@.len() ==> #[trigger] tokens@[k]@ == split_spaces(
                s@.subrange(0, i as int),
            )[k],
            split_spaces(s@.subrange(0, i as int)).last() == s@.subrange(
                start as int,
                i as int,
            ),
        decreases n - i,
    {
        let ghost pre = s@.subrange(0, i as int);
        let ghost pre1 = s@.subrange(0, i + 1);
        proof {
            assert(pre1.drop_last() =~= pre);
            assert(pre1.last() == s@[i as int]);
            lemma_split_spaces_nonempty(pre);
        }
        let c = s.get_char(i);
        if c == ' ' {
            let tok = s.substring_char(start, i);
            proof {
                assert(split_spaces(pre1) == split_spaces(pre).push(Seq::<char>::empty()));
            }
            tokens.push(tok);
            start = i + 1;
            proof {
                assert(s@.subrange(start as int, i + 1) =~= Seq::<char>::empty());
                assert(split_spaces(pre1).last() == s@.subrange(start as int, i + 1));
                assert(tokens@.last()@ == split_spaces(pre).last());
            }
        } else {
            proof {
                let r = split_spaces(pre);
                assert(split_spaces(pre1) == r.update(r.len() - 1, r.last().push(s@[i as int])));
                assert(s@.subrange(start as int, i as int).push(s@[i as int]) =~= s@.subrange(
                    start as int,
                    i + 1,
                ));
                assert(split_spaces(pre1).last() == s@.subrange(start as int, i + 1));
                assert forall|k: int| 0 <= k < tokens@.len() implies #[trigger] tokens@[k]@
                    == split_spaces(pre1)[k] by {
                    assert(tokens@[k]@ == split_spaces(pre)[k]);
                }
            }
        }
        i += 1;
    }
    proof {
        assert(s@.subrange(0, n as int) =~= s@);
    }
    let tok = s.substring_char(start, n);
    tokens.push(tok);
    proof {
        assert(tokens@.last()@ == split_spaces(s@).last());
        assert forall|k: int| 0 <= k < tokens@.len() implies #[trigger] tokens@[k]@ == split_spaces(
            s@,
        )[k] by {
            if k < tokens@.len() - 1 {
                assert(tokens@[k] == tokens@.drop_last()[k]);
            }
        }
    }
    tokens
}

impl PokerHand {
    /// Parses a whole hand string: five space-separated card tokens,
    /// classified into their category. Fails exactly as `parse_hand_spec`
    /// describes.
    pub fn from_str(s: &str) -> (r: Result<PokerHand, ParseError>)
        ensures
            (match (r, parse_hand_spec(s@)) {
                (Ok(h), Ok(v)) => h@ == v,
                (Err(e), Err(f)) => e == f,
                _ => false,
            }),
    {
        let tokens = split_hand(s);
        if tokens.len() != 5 {
            return Err(ParseError::MalformedHand);
        }
        let c0 = match Card::from_str(tokens[0]) {
            Ok(c) => c,
            Err(e) => {
                return Err(e);
            },
        };
        let c1 = match Card::from_str(tokens[1]) {
            Ok(c) => c,
            Err(e) => {
                return Err(e);
            },
        };
        let c2 = match Card::from_str(tokens[2]) {
            Ok(c) => c,
            Err(e) => {
                return Err(e);
            },
        };
        let c3 = match Card::from_str(tokens[3]) {
            Ok(c) => c,
            Err(e) => {
                return Err(e);
            },
        };
        let c4 = match Card::from_str(tokens[4]) {
            Ok(c) => c,
            Err(e) => {
                return Err(e);
            },
        };
        let mut cards: Vec<Card> = Vec::new();
        cards.push(c0);
        cards.push(c1);
        cards.push(c2);
        cards.push(c3);
        cards.push(c4);
        proof {
            assert(cards@ =~= seq![c0, c1, c2, c3, c4]);
        }
        Ok(PokerHand::classify(&cards))
    }
}

// ---------------------------------------------------------------------------
// Constructors, kept as plain builders.
// ---------------------------------------------------------------------------

// ---------------------------------------------------------------------------
// Sorting the ranks.
// ---------------------------------------------------------------------------

/// `rank_le()` is a total order on ranks.
pub proof fn lemma_rank_le_total()
    ensures
        vstd::relations::total_ordering(rank_le()),
{
    assert(vstd::relations::reflexive(rank_le()));
    assert(vstd::relations::antisymmetric(rank_le()));
    assert(vstd::relations::transitive(rank_le()));
    assert(vstd::relations::strongly_connected(rank_le()));
}

/// Sorts ranks ascending by inserting each into a sorted prefix; the result
/// is exactly the mathematical sort of the input.
fn sort_ranks(v: &Vec<u8>) -> (out: Vec<u8>)
    ensures
        out@ == v@.sort_by(rank_le()),
        out@.len() == v@.len(),
{
    broadcast use vstd::seq_lib::group_to_multiset_ensures;

    let mut out: Vec<u8> = Vec::new();
    let mut i: usize = 0;
    while i < v.len()
        invariant
            i <= v@.len(),
            vstd::relations::sorted_by(out@, rank_le()),
            out@.to_multiset() == v@.subrange(0, i as int).to_multiset(),
        decreases v@.len() - i,
    {
        let x = v[i];
        let mut j: usize = 0;
        while j < out.len() && out[j] <= x
            invariant
                j <= out@.len(),
                forall|k: int| 0 <= k < j ==> out@[k] <= x,
            decreases out@.len() - j,
        {
            j += 1;
        }
        let ghost prev = out@;
        out.insert(j, x);
        proof {
            let ghost jj = j as int;
            assert forall|p: int, q: int| 0 <= p < q < out@.len() implies rank_le()(
                out@[p],
                out@[q],
            ) by {
                assert(out@ == prev.insert(jj, x));
                if q < jj {
                    assert(rank_le()(prev[p], prev[q]));
                } else if jj < p {
                    assert(rank_le()(prev[p - 1], prev[q - 1]));
                } else {
                    if jj < prev.len() {
                        assert(x < prev[jj]);
                    }
                    if p < jj {
                        assert(prev[p] <= x);
                        assert(out@[p] == prev[p]);
                    }
                    if jj < q {
                        if jj < q - 1 {
                            assert(rank_le()(prev[jj], prev[q - 1]));
                        }
                        assert(x <= prev[q - 1]);
                        assert(out@[q] == prev[q - 1]);
                    }
                }
            }
            vstd::seq_lib::to_multiset_insert(prev, jj, x);
            vstd::seq_lib::to_multiset_build(v@.subrange(0, i as int), x);
            assert(v@.subrange(0, i + 1) =~= v@.subrange(0, i as int).push(x));
            assert(out@.to_multiset() == v@.subrange(0, i + 1).to_multiset());
        }
        i += 1;
    }
    proof {
        assert(v@.subrange(0, v@.len() as int) =~= v@);
        v@.lemma_sort_by_ensures(rank_le());
        lemma_rank_le_total();
        vstd::seq_lib::lemma_sorted_unique(out@, v@.sort_by(rank_le()), rank_le());
        assert(out@ =~= v@.sort_by(rank_le()));
        vstd::seq_lib::to_multiset_len(out@);
        vstd::seq_lib::to_multiset_len(v@);
    }
    out
}

impl HighCardData {
    pub fn new(cards: Vec<u8>) -> (d: HighCardData)
        ensures
            d.cards@ == cards@,
    {
        HighCardData { cards }
    }
}

impl OnePairData {
    pub fn new(pair_value: u8, remaining_cards: Vec<u8>) -> (d: OnePairData)
        ensures
            d.pair_value == pair_value,
            d.remaining_cards@ == remaining_cards@,
    {
        OnePairData { pair_value, remaining_cards }
    }
}

impl TwoPairsData {
    pub fn new(high_pair_value: u8, low_pair_value: u8, remaining_card: u8) -> (d: TwoPairsData)
        ensures
            d.high_pair_value == high_pair_value,
            d.low_pair_value == low_pair_value,
            d.remaining_card == remaining_card,
    {
        TwoPairsData { high_pair_value, low_pair_value, remaining_card }
    }
}

impl ThreeOfAKindData {
    pub fn new(three_of_a_kind_value: u8, remaining_cards: Vec<u8>) -> (d: ThreeOfAKindData)
        ensures
            d.three_of_a_kind_value == three_of_a_kind_value,
            d.remaining_cards@ == remaining_cards@,
    {
        ThreeOfAKindData { three_of_a_kind_value, remaining_cards }
    }
}

impl StraightData {
    pub fn new(cards: Vec<u8>) -> (d: StraightData)
        ensures
            d.cards@ == cards@,
    {
        StraightData { cards }
    }
}

impl FullHouseData {
    pub fn new(three_of_a_kind_value: u8, pair_value: u8) -> (d: FullHouseData)
        ensures
            d.three_of_a_kind_value == three_of_a_kind_value,
            d.pair_value == pair_value,
    {
        FullHouseData { three_of_a_kind_value, pair_value }
    }
}

impl FourOfAKindData {
    pub fn new(four_of_a_kind_value: u8, remaining_card: u8) -> (d: FourOfAKindData)
        ensures
            d.four_of_a_kind_value == four_of_a_kind_value,
            d.remaining_card == remaining_card,
    {
        FourOfAKindData { four_of_a_kind_value, remaining_card }
    }
}

/// Builds a two-element rank vector.
fn vec2(a: u8, b: u8) -> (v: Vec<u8>)
    ensures
        v@ == seq![a, b],
{
    let mut v: Vec<u8> = Vec::new();
    v.push(a);
    v.push(b);
    proof {
        assert(v@ =~= seq![a, b]);
    }
    v
}

/// Builds a three-element rank vector.
fn vec3(a: u8, b: u8, c: u8) -> (v: Vec<u8>)
    ensures
        v@ == seq![a, b, c],
{
    let mut v: Vec<u8> = Vec::new();
    v.push(a);
    v.push(b);
    v.push(c);
    proof {
        assert(v@ =~= seq![a, b, c]);
    }
    v
}

impl PokerHand {
    pub fn new(hand_type: HandType) -> (h: PokerHand)
        ensures
            h@ == hand_type@,
    {
        PokerHand { hand_type }
    }

    /// Do five sorted ranks form a straight: an unbroken run, or the wheel?
    pub fn is_straight(sorted: &Vec<u8>) -> (r: bool)
        requires
            sorted@.len() == 5,
        ensures
            r == is_straight_ranks(sorted@),
    {
        let s0 = sorted[0];
        let s1 = sorted[1];
        let s2 = sorted[2];
        let s3 = sorted[3];
        let s4 = sorted[4];
        let run = (s1 as u16 == s0 as u16 + 1) && (s2 as u16 == s1 as u16 + 1)
            && (s3 as u16 == s2 as u16 + 1) && (s4 as u16 == s3 as u16 + 1);
        proof {
            let ss = sorted@;
            if run {
                assert forall|k: int| 0 < k < ss.len() implies ss[k - 1] + 1 == #[trigger] ss[k] by {
                    assert(ss[0] + 1 == ss[1]);
                    assert(ss[1] + 1 == ss[2]);
                    assert(ss[2] + 1 == ss[3]);
                    assert(ss[3] + 1 == ss[4]);
                }
                assert(is_run(ss));
            } else {
                if is_run(ss) {
                    assert(ss[0] + 1 == ss[1]);
                    assert(ss[1] + 1 == ss[2]);
                    assert(ss[2] + 1 == ss[3]);
                    assert(ss[3] + 1 == ss[4]);
                }
                assert(!is_run(ss));
            }
        }
        run || PokerHand::is_straight_starting_with_ace(sorted)
    }

    /// Are five sorted ranks the wheel, the straight whose ace plays low?
    pub fn is_straight_starting_with_ace(sorted: &Vec<u8>) -> (r: bool)
        requires
            sorted@.len() == 5,
        ensures
            r == is_wheel(sorted@),
    {
        sorted[0] == 2 && sorted[1] == 3 && sorted[2] == 4 && sorted[3] == 5 && sorted[4] == 14
    }

    /// Classifies five cards, in any order, into their poker category.
    pub fn classify(cards: &Vec<Card>) -> (h: PokerHand)
        requires
            cards@.len() == 5,
        ensures
            h@ == classify_spec(cards@),
    {
        let mut ranks: Vec<u8> = Vec::new();
        let mut i: usize = 0;
        while i < 5
            invariant
                cards@.len() == 5,
                i <= 5,
                ranks@.len() == i,
                forall|k: int| 0 <= k < i ==> ranks@[k] == cards@[k].numeric_value,
            decreases 5 - i,
        {
            ranks.push(cards[i].numeric_value);
            i += 1;
        }
        proof {
            assert(ranks@ =~= ranks_of(cards@));
        }
        let sorted = sort_ranks(&ranks);
        let ghost ss = sorted@;
        proof {
            assert(ss == sorted_ranks(cards@));
        }

        let flush = cards[0].suit == cards[1].suit && cards[1].suit == cards[2].suit
            && cards[2].suit == cards[3].suit && cards[3].suit == cards[4].suit;
        proof {
            if flush {
                assert forall|k: int| 0 <= k < cards@.len() implies #[trigger] cards@[k].suit
                    == cards@[0].suit by {
                    assert(cards@[1].suit == cards@[0].suit);
                    assert(cards@[2].suit == cards@[1].suit);
                    assert(cards@[3].suit == cards@[2].suit);
                    assert(cards@[4].suit == cards@[3].suit);
                }
                assert(is_flush(cards@));
            } else {
                if is_flush(cards@) {
                    assert(cards@[1].suit == cards@[0].suit);
                    assert(cards@[2].suit == cards@[0].suit);
                    assert(cards@[3].suit == cards@[0].suit);
                    assert(cards@[4].suit == cards@[0].suit);
                }
                assert(!is_flush(cards@));
            }
        }

        let s0 = sorted[0];
        let s1 = sorted[1];
        let s2 = sorted[2];
        let s3 = sorted[3];
        let s4 = sorted[4];
        let straight = PokerHand::is_straight(&sorted);

        let hand_type: HandType;
        if flush && straight {
            hand_type = HandType::StraightFlush(StraightData::new(sorted));
        } else if s0 == s3 || s1 == s4 {
            let kicker = if s0 == s1 {
                s4
            } else {
                s0
            };
            hand_type = HandType::FourOfAKind(FourOfAKindData::new(s2, kicker));
        } else if flush {
            hand_type = HandType::Flush(HighCardData::new(sorted));
        } else if straight {
            hand_type = HandType::Straight(StraightData::new(sorted));
        } else if (s0 == s2 && s3 == s4) || (s0 == s1 && s2 == s4) {
            let pair = if s0 == s2 {
                s4
            } else {
                s0
            };
            hand_type = HandType::FullHouse(FullHouseData::new(s2, pair));
        } else if s0 == s2 || s1 == s3 || s2 == s4 {
            let kickers = if s0 == s2 {
                vec2(s3, s4)
            } else if s1 == s3 {
                vec2(s0, s4)
            } else {
                vec2(s0, s1)
            };
            proof {
                assert(kickers@ == triple_kickers(ss));
            }
            hand_type = HandType::ThreeOfAKind(ThreeOfAKindData::new(s2, kickers));
        } else {
            let e0 = s0 == s1;
            let e1 = s1 == s2;
            let e2 = s2 == s3;
            let e3 = s3 == s4;
            let mut pc: u8 = 0;
            if e0 {
                pc += 1;
            }
            if e1 {
                pc += 1;
            }
            if e2 {
                pc += 1;
            }
            if e3 {
                pc += 1;
            }
            proof {
                assert(pc as int == pair_count(ss));
            }
            if pc == 2 {
                let kicker = if !e0 {
                    s0
                } else if e2 {
                    s4
                } else {
                    s2
                };
                hand_type = HandType::TwoPairs(TwoPairsData::new(s3, s1, kicker));
            } else if pc == 1 {
                if e0 {
                    hand_type = HandType::OnePair(OnePairData::new(s0, vec3(s2, s3, s4)));
                } else if e1 {
                    hand_type = HandType::OnePair(OnePairData::new(s1, vec3(s0, s3, s4)));
                } else if e2 {
                    hand_type = HandType::OnePair(OnePairData::new(s2, vec3(s0, s1, s4)));
                } else {
                    hand_type = HandType::OnePair(OnePairData::new(s3, vec3(s0, s1, s2)));
                }
                proof {
                    assert(hand_type@ == (HandV::OnePair {
                        pair: one_pair_rank(ss),
                        kickers: one_pair_kickers(ss),
                    }));
                }
            } else {
                hand_type = HandType::HighCard(HighCardData::new(sorted));
            }
        }
        proof {
            assert(hand_type@ == classify_sorted(ss, is_flush(cards@)));
        }
        PokerHand::new(hand_type)
    }
}

} // verus!
