//! Draw poker with one exchange: building and shuffling a deck, dealing
//! a hand, exchanging chosen cards, and judging the hand.

use vstd::prelude::*;
use rand::seq::SliceRandom;

verus! {

/// The four suits.
#[derive(Clone, Copy, Debug, PartialEq, Eq, Structural)]
pub enum Suit {
    Club,
    Diamond,
    Heart,
    Spade,
}

/// A card: a suit and a rank from 1 to 13.
#[derive(Clone, Copy, Debug, PartialEq, Eq, Structural)]
pub struct Card {
    pub suit: Suit,
    pub rank: i32,
}

/// The suit of the `k`-th block of 13 cards in a fresh deck.
pub open spec fn suit_at(k: int) -> Suit {
    if k == 0 {
        Suit::Club
    } else if k == 1 {
        Suit::Diamond
    } else if k == 2 {
        Suit::Heart
    } else {
        Suit::Spade
    }
}

/// The `i`-th card of a fresh deck: clubs 1 to 13, then diamonds,
/// hearts and spades.
pub open spec fn fresh_card(i: int) -> Card {
    Card { suit: suit_at(i / 13), rank: (i % 13 + 1) as i32 }
}

/// A fresh deck of 52 cards.
pub open spec fn fresh_deck() -> Seq<Card> {
    Seq::new(52, |i: int| fresh_card(i))
}

/// Builds a fresh deck: for each suit in the order club, diamond,
/// heart, spade, the ranks 1 to 13.
pub fn new_deck() -> (deck: Vec<Card>)
    ensures
        deck@ == fresh_deck(),
{
    let suits = [Suit::Club, Suit::Diamond, Suit::Heart, Suit::Spade];
    let mut deck: Vec<Card> = Vec::new();
    for s in 0..4usize
        invariant
            suits@ == seq![Suit::Club, Suit::Diamond, Suit::Heart, Suit::Spade],
            deck@.len() == 13 * s,
            forall|i: int| 0 <= i < deck@.len() ==> #[trigger] deck@[i] == fresh_card(i),
    {
        let suit = suits[s];
        for rank in 1..14i32
            invariant
                0 <= s < 4,
                suit == suit_at(s as int),
                1 <= rank <= 14,
                deck@.len() == 13 * s + rank - 1,
                forall|i: int| 0 <= i < deck@.len() ==> #[trigger] deck@[i] == fresh_card(i),
        {
            let ghost idx = deck@.len() as int;
            deck.push(Card { suit, rank });
            assert(idx / 13 == s && idx % 13 + 1 == rank) by (nonlinear_arith)
                requires
                    idx == 13 * s + rank - 1,
                    1 <= rank <= 13,
            ;
        }
    }
    assert(deck@ =~= fresh_deck());
    deck
}

/// Law: a fresh deck holds each of the 52 cards once.
pub proof fn law_fresh_deck_distinct()
    ensures
        fresh_deck().no_duplicates(),
        forall|i: int| 0 <= i < 52 ==> 1 <= (#[trigger] fresh_deck()[i]).rank <= 13,
{
    assert forall|i: int, j: int| 0 <= i < 52 && 0 <= j < 52 && i != j implies fresh_deck()[i]
        != fresh_deck()[j] by {
        if fresh_card(i) == fresh_card(j) {
            assert(i / 13 == j / 13);
            assert(i % 13 == j % 13);
            assert(i == 13 * (i / 13) + i % 13);
            assert(j == 13 * (j / 13) + j % 13);
        }
    }
}

/// Shuffles `cards` with `rand::seq::SliceRandom::shuffle` and the
/// thread's random number generator. Trusted: the cards are the same,
/// each as often, in some order; which order is left open.
#[verifier::external_body]
fn shuffle_cards(cards: &mut Vec<Card>)
    ensures
        final(cards)@.to_multiset() == old(cards)@.to_multiset(),
{
    let mut rng = rand::rng();
    cards.shuffle(&mut rng);
}

/// A fresh deck in a random order.
pub fn new_shuffled_deck() -> (deck: Vec<Card>)
    ensures
        deck@.to_multiset() == fresh_deck().to_multiset(),
        deck@.len() == 52,
{
    let mut deck = new_deck();
    shuffle_cards(&mut deck);
    proof {
        deck@.to_multiset_ensures();
        fresh_deck().to_multiset_ensures();
    }
    deck
}

/// The cards of `s` are ordered by rank, lowest first.
pub open spec fn rank_ordered(s: Seq<Card>) -> bool {
    forall|i: int, j: int| 0 <= i < j < s.len() ==> s[i].rank <= s[j].rank
}

/// Where `c` goes into `s`: after the last card whose rank is at most
/// that of `c`, or at the front.
pub open spec fn insert_position(s: Seq<Card>, c: Card) -> int
    decreases s.len(),
{
    if s.len() == 0 {
        0
    } else if s.last().rank > c.rank {
        insert_position(s.drop_last(), c)
    } else {
        s.len() as int
    }
}

/// `s` ordered by rank, lowest first, cards of one rank in the order
/// they came in: each card in turn is put after the last card already
/// placed whose rank is at most its own.
pub open spec fn ordered_by_rank(s: Seq<Card>) -> Seq<Card>
    decreases s.len(),
{
    if s.len() == 0 {
        s
    } else {
        let placed = ordered_by_rank(s.drop_last());
        placed.insert(insert_position(placed, s.last()), s.last())
    }
}

proof fn lemma_insert_position(s: Seq<Card>, c: Card)
    ensures
        0 <= insert_position(s, c) <= s.len(),
        forall|k: int| insert_position(s, c) <= k < s.len() ==> (#[trigger] s[k]).rank > c.rank,
        insert_position(s, c) > 0 ==> s[insert_position(s, c) - 1].rank <= c.rank,
    decreases s.len(),
{
    if s.len() > 0 && s.last().rank > c.rank {
        lemma_insert_position(s.drop_last(), c);
        assert forall|k: int| insert_position(s, c) <= k < s.len() implies (#[trigger] s[k]).rank > c.rank by {
            if k < s.len() - 1 {
                assert(s[k] == s.drop_last()[k]);
            }
        }
    }
}

proof fn lemma_ordered_by_rank(s: Seq<Card>)
    ensures
        ordered_by_rank(s).to_multiset() == s.to_multiset(),
        rank_ordered(ordered_by_rank(s)),
    decreases s.len(),
{
    broadcast use vstd::seq_lib::group_to_multiset_ensures;

    if s.len() == 0 {
    } else {
        let placed = ordered_by_rank(s.drop_last());
        let c = s.last();
        lemma_ordered_by_rank(s.drop_last());
        lemma_insert_position(placed, c);
        let j = insert_position(placed, c);
        let r = placed.insert(j, c);
        assert(s.drop_last().push(c) =~= s);
        assert(r.to_multiset() == placed.to_multiset().insert(c));
        assert forall|a: int, b: int| 0 <= a < b < r.len() implies r[a].rank <= r[b].rank by {
            if b < j {
                assert(r[a] == placed[a] && r[b] == placed[b]);
            } else if b == j {
                assert(r[a] == placed[a]);
                assert(placed[a].rank <= placed[j - 1].rank);
            } else if a < j {
                assert(r[a] == placed[a] && r[b] == placed[b - 1]);
                assert(placed[a].rank <= placed[j - 1].rank);
            } else if a == j {
                assert(r[b] == placed[b - 1]);
            } else {
                assert(r[a] == placed[a - 1] && r[b] == placed[b - 1]);
            }
        }
    }
}

/// Orders `cards` by rank, lowest first, keeping cards of one rank in
/// the order they had (a stable sort, as `slice::sort_by_key` does).
pub fn sort_by_rank(cards: &mut Vec<Card>)
    ensures
        final(cards)@ == ordered_by_rank(old(cards)@),
        final(cards)@.to_multiset() == old(cards)@.to_multiset(),
        rank_ordered(final(cards)@),
{
    let n = cards.len();
    let mut sorted: Vec<Card> = Vec::new();
    assert(cards@.take(0) =~= Seq::<Card>::empty());
    for i in 0..n
        invariant
            n == cards@.len(),
            sorted@ == ordered_by_rank(cards@.take(i as int)),
    {
        let c = cards[i];
        proof {
            lemma_insert_position(sorted@, c);
            assert(cards@.take(i + 1).drop_last() =~= cards@.take(i as int));
            assert(cards@.take(i + 1).last() == c);
        }
        let mut j = sorted.len();
        while j > 0 && sorted[j - 1].rank > c.rank
            invariant
                j <= sorted@.len(),
                forall|k: int| j <= k < sorted@.len() ==> (#[trigger] sorted@[k]).rank > c.rank,
                insert_position(sorted@, c) <= j,
                insert_position(sorted@, c) > 0 ==> sorted@[insert_position(sorted@, c) - 1].rank <= c.rank,
            decreases j,
        {
            j -= 1;
        }
        proof {
            if j > insert_position(sorted@, c) {
                assert(sorted@[j - 1].rank > c.rank);
            }
            if j < insert_position(sorted@, c) {
                assert(false);
            }
        }
        sorted.insert(j, c);
    }
    assert(cards@.take(n as int) =~= cards@);
    proof {
        lemma_ordered_by_rank(cards@);
    }
    *cards = sorted;
}

/// Deals `count` cards from the top (the end) of `deck` into a new
/// hand, which is then ordered by rank.
pub fn deal_hand(deck: &mut Vec<Card>, count: usize) -> (hand: Vec<Card>)
    requires
        count <= old(deck)@.len(),
    ensures
        final(deck)@ == old(deck)@.take(old(deck)@.len() - count),
        hand@ == ordered_by_rank(old(deck)@.skip(old(deck)@.len() - count).reverse()),
        hand@.to_multiset() == old(deck)@.skip(old(deck)@.len() - count).to_multiset(),
        rank_ordered(hand@),
{
    let ghost start = deck@;
    let ghost n = deck@.len();
    let mut hand: Vec<Card> = Vec::new();
    for k in 0..count
        invariant
            count <= n,
            n == start.len(),
            deck@ == start.take(n - k),
            hand@ == start.skip(n - k).reverse(),
    {
        let ghost before = deck@;
        let card = deck.pop().unwrap();
        hand.push(card);
        proof {
            assert(deck@ =~= start.take(n - k - 1));
            assert(start.skip(n - k - 1).reverse() =~= start.skip(n - k).reverse().push(card));
        }
    }
    proof {
        start.skip(n - count).lemma_reverse_to_multiset();
    }
    sort_by_rank(&mut hand);
    hand
}

/// The hand and the deck after replacing, one number after the other,
/// the card at position `number - 1` of the hand by the card on top of
/// the deck.
pub open spec fn exchanged(hand: Seq<Card>, deck: Seq<Card>, numbers: Seq<usize>) -> (Seq<Card>, Seq<Card>)
    decreases numbers.len(),
{
    if numbers.len() == 0 {
        (hand, deck)
    } else {
        exchanged(hand.update(numbers[0] - 1, deck.last()), deck.drop_last(), numbers.drop_first())
    }
}

/// Replaces, for each number in turn, the card at that position of the
/// hand (counting from 1) by a card from the top of the deck, then
/// orders the hand by rank.
pub fn exchange_cards(hand: &mut Vec<Card>, deck: &mut Vec<Card>, numbers: &Vec<usize>)
    requires
        forall|i: int| 0 <= i < numbers@.len() ==> 1 <= #[trigger] numbers@[i] <= old(hand)@.len(),
        numbers@.len() <= old(deck)@.len(),
    ensures
        final(deck)@ == exchanged(old(hand)@, old(deck)@, numbers@).1,
        final(hand)@ == ordered_by_rank(exchanged(old(hand)@, old(deck)@, numbers@).0),
        final(hand)@.to_multiset() == exchanged(old(hand)@, old(deck)@, numbers@).0.to_multiset(),
        rank_ordered(final(hand)@),
        numbers@.len() == 1 ==> final(hand)@.to_multiset() == old(hand)@.remove(numbers@[0] - 1).to_multiset().insert(
            old(deck)@.last(),
        ),
{
    let ghost h0 = hand@;
    let ghost d0 = deck@;
    let m = numbers.len();
    assert(numbers@.skip(0) =~= numbers@);
    for k in 0..m
        invariant
            m == numbers@.len(),
            forall|i: int| 0 <= i < numbers@.len() ==> 1 <= #[trigger] numbers@[i] <= h0.len(),
            hand@.len() == h0.len(),
            deck@.len() == d0.len() - k,
            m <= d0.len(),
            exchanged(h0, d0, numbers@) == exchanged(hand@, deck@, numbers@.skip(k as int)),
    {
        let number = numbers[k];
        let ghost (h, d) = (hand@, deck@);
        let card = deck.pop().unwrap();
        hand.set(number - 1, card);
        assert(numbers@.skip(k as int).drop_first() =~= numbers@.skip(k + 1));
        assert(numbers@.skip(k as int)[0] == number);
    }
    let ghost (h1, d1) = exchanged(hand@, deck@, numbers@.skip(m as int));
    assert(numbers@.skip(m as int).len() == 0);
    proof {
        if m == 1 {
            assert(numbers@ =~= seq![numbers@[0]]);
            law_exchange_one(h0, d0, numbers@[0]);
        }
    }
    sort_by_rank(hand);
}

/// All cards of `s` have the suit of its first card.
pub open spec fn all_one_suit(s: Seq<Card>) -> bool {
    forall|i: int| 0 <= i < s.len() ==> (#[trigger] s[i]).suit == s[0].suit
}

/// The cards in `s` of rank `r`.
pub open spec fn rank_count(s: Seq<Card>, r: i32) -> nat
    decreases s.len(),
{
    if s.len() == 0 {
        0
    } else {
        rank_count(s.drop_last(), r) + if s.last().rank == r {
            1nat
        } else {
            0nat
        }
    }
}

/// The pairs of positions `i < j` in `s` whose cards have one rank.
pub open spec fn pair_count(s: Seq<Card>) -> nat
    decreases s.len(),
{
    if s.len() == 0 {
        0
    } else {
        rank_count(s.drop_first(), s[0].rank) + pair_count(s.drop_first())
    }
}

proof fn lemma_rank_count_bound(s: Seq<Card>, r: i32)
    ensures
        rank_count(s, r) <= s.len(),
    decreases s.len(),
{
    if s.len() > 0 {
        lemma_rank_count_bound(s.drop_last(), r);
    }
}

proof fn lemma_pair_count_bound(s: Seq<Card>)
    ensures
        pair_count(s) <= s.len() * s.len(),
    decreases s.len(),
{
    if s.len() > 0 {
        lemma_pair_count_bound(s.drop_first());
        lemma_rank_count_bound(s.drop_first(), s[0].rank);
        let n = s.len() as int;
        assert((n - 1) + (n - 1) * (n - 1) <= n * n) by (nonlinear_arith)
            requires
                n >= 1,
        ;
    }
}

/// How a hand is judged, best first.
#[derive(Clone, Copy, Debug, PartialEq, Eq)]
pub enum HandRank {
    Flush,
    ThreeCard,
    TwoPair,
    OnePair,
    NoPair,
}

/// The judgement of a hand: a flush when all cards share a suit; else
/// by the number of equal-rank pairs: three or more, two, one, none.
pub open spec fn judgement(s: Seq<Card>) -> HandRank {
    if all_one_suit(s) {
        HandRank::Flush
    } else if pair_count(s) >= 3 {
        HandRank::ThreeCard
    } else if pair_count(s) == 2 {
        HandRank::TwoPair
    } else if pair_count(s) == 1 {
        HandRank::OnePair
    } else {
        HandRank::NoPair
    }
}

/// Tells whether all cards of the hand have the suit of its first.
pub fn is_flush(hand: &Vec<Card>) -> (flush: bool)
    requires
        hand@.len() >= 1,
    ensures
        flush == all_one_suit(hand@),
{
    let suit = hand[0].suit;
    let n = hand.len();
    for i in 0..n
        invariant
            n == hand@.len(),
            suit == hand@[0].suit,
            forall|j: int| 0 <= j < i ==> hand@[j].suit == suit,
    {
        if hand[i].suit != suit {
            return false;
        }
    }
    true
}

/// Counts the pairs of cards of equal rank.
pub fn count_pairs(hand: &Vec<Card>) -> (count: usize)
    requires
        hand@.len() <= 0xffff,
    ensures
        count == pair_count(hand@),
{
    let n = hand.len();
    let mut count: usize = 0;
    assert(hand@.skip(0) =~= hand@);
    for i in 0..n
        invariant
            n == hand@.len(),
            n <= 0xffff,
            count + pair_count(hand@.skip(i as int)) == pair_count(hand@),
    {
        let ghost rest = hand@.skip(i as int);
        assert(rest.drop_first() =~= hand@.skip(i + 1));
        proof {
            lemma_pair_count_bound(hand@);
        }
        let r = hand[i].rank;
        let mut matches: usize = 0;
        assert(hand@.skip(i + 1).take(0) =~= Seq::<Card>::empty());
        for j in i + 1..n
            invariant
                n == hand@.len(),
                n <= 0xffff,
                i < n,
                r == hand@[i as int].rank,
                matches == rank_count(hand@.skip(i + 1).take(j - i - 1), r),
                count + pair_count(hand@.skip(i as int)) == pair_count(hand@),
        {
            let ghost pre = hand@.skip(i + 1).take(j - i - 1);
            assert(hand@.skip(i + 1).take(j - i).drop_last() =~= pre);
            proof {
                lemma_rank_count_bound(pre, r);
            }
            if hand[j].rank == r {
                matches += 1;
            }
        }
        assert(hand@.skip(i + 1).take(n - i - 1) =~= hand@.skip(i + 1));
        proof {
            lemma_pair_count_bound(hand@.skip(i as int));
            lemma_rank_count_bound(hand@.skip(i + 1), r);
            lemma_pair_count_bound(hand@);
            assert(rest[0] == hand@[i as int]);
            assert(pair_count(rest) == rank_count(hand@.skip(i + 1), r) + pair_count(hand@.skip(i + 1)));
            let nn = n as int;
            assert(nn * nn <= 0xffff * 0xffff) by (nonlinear_arith)
                requires
                    0 <= nn <= 0xffff,
            ;
        }
        count += matches;
    }
    assert(hand@.skip(n as int).len() == 0);
    count
}

/// Judges the hand: flush, three of a kind or better, two pairs, one
/// pair, or nothing.
pub fn judge_hand(hand: &Vec<Card>) -> (rank: HandRank)
    requires
        1 <= hand@.len() <= 0xffff,
    ensures
        rank == judgement(hand@),
{
    let flush = is_flush(hand);
    let count = count_pairs(hand);
    if flush {
        HandRank::Flush
    } else if count >= 3 {
        HandRank::ThreeCard
    } else if count == 2 {
        HandRank::TwoPair
    } else if count == 1 {
        HandRank::OnePair
    } else {
        HandRank::NoPair
    }
}

proof fn lemma_rank_count_prepend(x: Card, t: Seq<Card>, r: i32)
    ensures
        rank_count(seq![x] + t, r) == rank_count(t, r) + if x.rank == r {
            1nat
        } else {
            0nat
        },
    decreases t.len(),
{
    if t.len() == 0 {
        assert(seq![x] + t =~= seq![x]);
        assert(seq![x].drop_last() =~= Seq::<Card>::empty());
        assert(rank_count(Seq::<Card>::empty(), r) == 0);
        assert(rank_count(t, r) == 0);
        assert(seq![x].last() == x);
    } else {
        assert((seq![x] + t).drop_last() =~= seq![x] + t.drop_last());
        assert((seq![x] + t).last() == t.last());
        lemma_rank_count_prepend(x, t.drop_last(), r);
    }
}

proof fn lemma_rank_count_remove(s: Seq<Card>, k: int, r: i32)
    requires
        0 <= k < s.len(),
    ensures
        rank_count(s, r) == rank_count(s.remove(k), r) + if s[k].rank == r {
            1nat
        } else {
            0nat
        },
    decreases s.len(),
{
    if k == s.len() - 1 {
        assert(s.remove(k) =~= s.drop_last());
    } else {
        assert(s.remove(k).drop_last() =~= s.drop_last().remove(k));
        assert(s.remove(k).last() == s.last());
        lemma_rank_count_remove(s.drop_last(), k, r);
    }
}

proof fn lemma_permutation_facts(s1: Seq<Card>, s2: Seq<Card>, x: Card)
    requires
        s1.to_multiset() == s2.to_multiset(),
    ensures
        s1.len() == s2.len(),
        s1.contains(x) <==> s2.contains(x),
{
    broadcast use vstd::seq_lib::group_to_multiset_ensures;

    assert(s1.len() == s1.to_multiset().len());
    assert(s2.len() == s2.to_multiset().len());
    assert(s1.contains(x) <==> s1.to_multiset().count(x) > 0);
    assert(s2.contains(x) <==> s2.to_multiset().count(x) > 0);
}

proof fn lemma_rank_count_permutation(s1: Seq<Card>, s2: Seq<Card>, r: i32)
    requires
        s1.to_multiset() == s2.to_multiset(),
    ensures
        rank_count(s1, r) == rank_count(s2, r),
    decreases s1.len(),
{
    broadcast use vstd::seq_lib::group_to_multiset_ensures;

    if s1.len() == 0 {
        lemma_permutation_facts(s1, s2, s1[0]);
    } else {
        let x = s1.last();
        assert(s1[s1.len() - 1] == x);
        lemma_permutation_facts(s1, s2, x);
        let k = choose|k: int| 0 <= k < s2.len() && s2[k] == x;
        assert(s1.drop_last() =~= s1.remove(s1.len() - 1));
        assert(s1.drop_last().to_multiset() == s2.remove(k).to_multiset());
        lemma_rank_count_permutation(s1.drop_last(), s2.remove(k), r);
        lemma_rank_count_remove(s2, k, r);
    }
}

proof fn lemma_pair_count_remove(s: Seq<Card>, k: int)
    requires
        0 <= k < s.len(),
    ensures
        pair_count(s) == pair_count(s.remove(k)) + rank_count(s.remove(k), s[k].rank),
    decreases s.len(),
{
    if k == 0 {
        assert(s.remove(0) =~= s.drop_first());
    } else {
        let df = s.drop_first();
        assert(s.remove(k) =~= seq![s[0]] + df.remove(k - 1));
        assert(s.remove(k).drop_first() =~= df.remove(k - 1));
        assert(s.remove(k)[0] == s[0]);
        assert(df[k - 1] == s[k]);
        lemma_pair_count_remove(df, k - 1);
        lemma_rank_count_remove(df, k - 1, s[0].rank);
        lemma_rank_count_prepend(s[0], df.remove(k - 1), s[k].rank);
    }
}

proof fn lemma_pair_count_permutation(s1: Seq<Card>, s2: Seq<Card>)
    requires
        s1.to_multiset() == s2.to_multiset(),
    ensures
        pair_count(s1) == pair_count(s2),
    decreases s1.len(),
{
    broadcast use vstd::seq_lib::group_to_multiset_ensures;

    if s1.len() == 0 {
        lemma_permutation_facts(s1, s2, s1[0]);
    } else {
        let x = s1[0];
        assert(s1[0] == x);
        lemma_permutation_facts(s1, s2, x);
        let k = choose|k: int| 0 <= k < s2.len() && s2[k] == x;
        assert(s1.drop_first() =~= s1.remove(0));
        assert(s1.drop_first().to_multiset() == s2.remove(k).to_multiset());
        lemma_pair_count_permutation(s1.drop_first(), s2.remove(k));
        lemma_rank_count_permutation(s1.drop_first(), s2.remove(k), x.rank);
        lemma_pair_count_remove(s2, k);
    }
}

proof fn lemma_one_suit_permutation(s1: Seq<Card>, s2: Seq<Card>)
    requires
        s1.to_multiset() == s2.to_multiset(),
        all_one_suit(s1),
    ensures
        all_one_suit(s2),
{
    broadcast use vstd::seq_lib::group_to_multiset_ensures;

    assert forall|i: int| 0 <= i < s2.len() implies (#[trigger] s2[i]).suit == s2[0].suit by {
        lemma_permutation_facts(s2, s1, s2[i]);
        lemma_permutation_facts(s2, s1, s2[0]);
        assert(s2.contains(s2[i]));
        assert(s2.contains(s2[0]));
        let a = choose|a: int| 0 <= a < s1.len() && s1[a] == s2[i];
        let b = choose|b: int| 0 <= b < s1.len() && s1[b] == s2[0];
        assert(s1[a].suit == s1[0].suit);
        assert(s1[b].suit == s1[0].suit);
    }
}

/// Law: the judgement of a hand does not depend on the order of its
/// cards, so ordering the hand by rank before judging changes nothing.
pub proof fn law_judgement_ignores_order(s1: Seq<Card>, s2: Seq<Card>)
    requires
        s1.to_multiset() == s2.to_multiset(),
    ensures
        judgement(s1) == judgement(s2),
{
    lemma_pair_count_permutation(s1, s2);
    if all_one_suit(s1) {
        lemma_one_suit_permutation(s1, s2);
    }
    if all_one_suit(s2) {
        lemma_one_suit_permutation(s2, s1);
    }
}

/// Law: dealing moves cards and loses none: the hand and what is left
/// of the deck together hold exactly the cards of the deck before.
pub proof fn law_deal_keeps_cards(before: Seq<Card>, count: int, rest: Seq<Card>, hand: Seq<Card>)
    requires
        0 <= count <= before.len(),
        rest == before.take(before.len() - count),
        hand.to_multiset() == before.skip(before.len() - count).to_multiset(),
    ensures
        rest.to_multiset().add(hand.to_multiset()) == before.to_multiset(),
{
    let cut = before.len() - count;
    assert(before =~= before.take(cut) + before.skip(cut));
    vstd::seq_lib::lemma_multiset_commutative(before.take(cut), before.skip(cut));
}

/// How strong a judgement is: a flush is strongest, no pair weakest.
pub open spec fn strength(r: HandRank) -> int {
    match r {
        HandRank::Flush => 4,
        HandRank::ThreeCard => 3,
        HandRank::TwoPair => 2,
        HandRank::OnePair => 1,
        HandRank::NoPair => 0,
    }
}

/// Law: a hand of one suit is a flush; a hand of mixed suits with three
/// or more pairs of equal rank (three of a kind, a full house, four of
/// a kind) is judged three of a kind; with exactly two pairs two pair,
/// with one one pair, with none no pair. Among hands of mixed suits,
/// more pairs never give a weaker judgement.
pub proof fn law_judgement_by_pairs(s1: Seq<Card>, s2: Seq<Card>)
    ensures
        all_one_suit(s1) ==> judgement(s1) == HandRank::Flush,
        !all_one_suit(s1) && pair_count(s1) >= 3 ==> judgement(s1) == HandRank::ThreeCard,
        !all_one_suit(s1) && pair_count(s1) == 2 ==> judgement(s1) == HandRank::TwoPair,
        !all_one_suit(s1) && pair_count(s1) == 1 ==> judgement(s1) == HandRank::OnePair,
        !all_one_suit(s1) && pair_count(s1) == 0 ==> judgement(s1) == HandRank::NoPair,
        !all_one_suit(s1) && !all_one_suit(s2) && pair_count(s1) <= pair_count(s2) ==> strength(
            judgement(s1),
        ) <= strength(judgement(s2)),
{
}

proof fn lemma_rank_count_at_least(s: Seq<Card>, r: i32, x: int, y: int)
    requires
        0 <= x < s.len(),
        s[x].rank == r,
        x < y < s.len() ==> s[y].rank == r,
    ensures
        rank_count(s, r) >= 1,
        x < y < s.len() ==> rank_count(s, r) >= 2,
    decreases s.len(),
{
    let last = s.len() - 1;
    if x < y < s.len() {
        if y == last {
            lemma_rank_count_at_least(s.drop_last(), r, x, x);
        } else {
            assert(s.drop_last()[x] == s[x] && s.drop_last()[y] == s[y]);
            lemma_rank_count_at_least(s.drop_last(), r, x, y);
        }
    } else if x < last {
        assert(s.drop_last()[x] == s[x]);
        lemma_rank_count_at_least(s.drop_last(), r, x, x);
    }
}

proof fn lemma_pair_count_two(s: Seq<Card>, x: int, y: int)
    requires
        0 <= x < y < s.len(),
        s[x].rank == s[y].rank,
    ensures
        pair_count(s) >= 1,
    decreases s.len(),
{
    let d = s.drop_first();
    if x == 0 {
        assert(d[y - 1] == s[y]);
        lemma_rank_count_at_least(d, s[0].rank, y - 1, y - 1);
    } else {
        assert(d[x - 1] == s[x] && d[y - 1] == s[y]);
        lemma_pair_count_two(d, x - 1, y - 1);
    }
}

proof fn lemma_pair_count_three(s: Seq<Card>, x: int, y: int, z: int)
    requires
        0 <= x < y < z < s.len(),
        s[x].rank == s[y].rank,
        s[y].rank == s[z].rank,
    ensures
        pair_count(s) >= 3,
    decreases s.len(),
{
    let d = s.drop_first();
    assert(d[y - 1] == s[y] && d[z - 1] == s[z]);
    if x == 0 {
        lemma_rank_count_at_least(d, s[0].rank, y - 1, z - 1);
        lemma_pair_count_two(d, y - 1, z - 1);
    } else {
        assert(d[x - 1] == s[x]);
        lemma_pair_count_three(d, x - 1, y - 1, z - 1);
    }
}

/// Law: a hand of mixed suits in which three cards share a rank (three
/// of a kind, and so also a full house or four of a kind) is judged
/// three of a kind; one in which two cards share a rank is judged at
/// least one pair.
pub proof fn law_equal_ranks_judged(s: Seq<Card>, x: int, y: int, z: int)
    requires
        !all_one_suit(s),
        0 <= x < y < s.len(),
        s[x].rank == s[y].rank,
    ensures
        strength(judgement(s)) >= strength(HandRank::OnePair),
        y < z < s.len() && s[z].rank == s[y].rank ==> judgement(s) == HandRank::ThreeCard,
{
    lemma_pair_count_two(s, x, y);
    if y < z < s.len() && s[z].rank == s[y].rank {
        lemma_pair_count_three(s, x, y, z);
    }
}

/// Law: exchanging with one number `k` takes out of the hand the card
/// numbered `k` counting from 1 (the one at index `k - 1`) and puts in
/// its place the card on top of the deck, which leaves the deck.
pub proof fn law_exchange_one(hand: Seq<Card>, deck: Seq<Card>, k: usize)
    requires
        1 <= k <= hand.len(),
        deck.len() >= 1,
    ensures
        exchanged(hand, deck, seq![k]).0.to_multiset() == hand.remove(k - 1).to_multiset().insert(deck.last()),
        exchanged(hand, deck, seq![k]).0[k - 1] == deck.last(),
        exchanged(hand, deck, seq![k]).1 == deck.drop_last(),
{
    let i = k - 1;
    let h1 = hand.update(i, deck.last());
    assert(seq![k].drop_first() =~= Seq::<usize>::empty());
    assert(exchanged(hand, deck, seq![k]) == exchanged(h1, deck.drop_last(), Seq::<usize>::empty()));
    assert(h1 =~= hand.remove(i).insert(i, deck.last()));
    vstd::seq_lib::to_multiset_insert(hand.remove(i), i, deck.last());
}

/// Law: with numbers that are all different, each card numbered in
/// `numbers` (counting from 1) is replaced by a card from the top of
/// the deck, the first number getting the top card, the second the one
/// below it, and so on; every other card stays where it was, and the
/// deck loses as many cards from its top as there are numbers.
pub proof fn law_exchange_positions(hand: Seq<Card>, deck: Seq<Card>, numbers: Seq<usize>)
    requires
        forall|i: int| 0 <= i < numbers.len() ==> 1 <= #[trigger] numbers[i] <= hand.len(),
        numbers.len() <= deck.len(),
        forall|i: int, j: int| 0 <= i < j < numbers.len() ==> numbers[i] != numbers[j],
    ensures
        exchanged(hand, deck, numbers).0.len() == hand.len(),
        forall|j: int|
            0 <= j < numbers.len() ==> #[trigger] exchanged(hand, deck, numbers).0[numbers[j] - 1] == deck[deck.len()
                - 1 - j],
        forall|i: int|
            0 <= i < hand.len() && !numbers.contains((i + 1) as usize) ==> #[trigger] exchanged(
                hand,
                deck,
                numbers,
            ).0[i] == hand[i],
        exchanged(hand, deck, numbers).1 == deck.take(deck.len() - numbers.len()),
    decreases numbers.len(),
{
    if numbers.len() == 0 {
        assert(deck.take(deck.len() as int) =~= deck);
    } else {
        let h1 = hand.update(numbers[0] - 1, deck.last());
        let d1 = deck.drop_last();
        let n1 = numbers.drop_first();
        law_exchange_positions(h1, d1, n1);
        let r = exchanged(hand, deck, numbers);
        assert(r == exchanged(h1, d1, n1));
        assert(d1.take(d1.len() - n1.len()) =~= deck.take(deck.len() - numbers.len()));
        assert forall|j: int| 0 <= j < numbers.len() implies #[trigger] r.0[numbers[j] - 1] == deck[deck.len() - 1
            - j] by {
            if j == 0 {
                assert(!n1.contains(numbers[0])) by {
                    if n1.contains(numbers[0]) {
                        let t = choose|t: int| 0 <= t < n1.len() && n1[t] == numbers[0];
                        assert(numbers[t + 1] == numbers[0]);
                    }
                }
                assert(((numbers[0] - 1) + 1) as usize == numbers[0]);
            } else {
                assert(n1[j - 1] == numbers[j]);
            }
        }
        assert forall|i: int|
            0 <= i < hand.len() && !numbers.contains((i + 1) as usize) implies #[trigger] r.0[i] == hand[i] by {
            if n1.contains((i + 1) as usize) {
                let t = choose|t: int| 0 <= t < n1.len() && n1[t] == (i + 1) as usize;
                assert(numbers[t + 1] == (i + 1) as usize);
            }
            assert(numbers[0] != (i + 1) as usize);
        }
    }
}

} // verus!
