use rust_insight::poker::{
    count_pairs, deal_hand, exchange_cards, is_flush, judge_hand, new_deck, new_shuffled_deck, sort_by_rank, Card, HandRank,
    Suit,
};

fn card(suit: Suit, rank: i32) -> Card {
    Card { suit, rank }
}

#[test]
fn fresh_deck_order() {
    let deck = new_deck();
    assert_eq!(deck.len(), 52);
    assert_eq!(deck[0], card(Suit::Club, 1));
    assert_eq!(deck[12], card(Suit::Club, 13));
    assert_eq!(deck[13], card(Suit::Diamond, 1));
    assert_eq!(deck[51], card(Suit::Spade, 13));
}

#[test]
fn shuffled_deck_holds_every_card_once() {
    let mut deck = new_shuffled_deck();
    assert_eq!(deck.len(), 52);
    deck.sort_by_key(|c| (c.suit as u8, c.rank));
    assert_eq!(deck, new_deck());
}

#[test]
fn deal_takes_from_the_top_and_sorts() {
    let mut deck = new_deck();
    let hand = deal_hand(&mut deck, 5);
    assert_eq!(deck.len(), 47);
    assert_eq!(hand, vec![card(Suit::Spade, 9), card(Suit::Spade, 10), card(Suit::Spade, 11), card(Suit::Spade, 12), card(Suit::Spade, 13)]);
}

#[test]
fn exchange_replaces_chosen_positions() {
    let mut deck = vec![card(Suit::Heart, 2), card(Suit::Club, 7)];
    let mut hand = vec![card(Suit::Spade, 1), card(Suit::Spade, 5), card(Suit::Spade, 9)];
    exchange_cards(&mut hand, &mut deck, &vec![1, 3]);
    assert!(deck.is_empty());
    assert_eq!(hand, vec![card(Suit::Heart, 2), card(Suit::Spade, 5), card(Suit::Club, 7)]);
}

#[test]
fn judge_flush() {
    let hand = vec![card(Suit::Heart, 1), card(Suit::Heart, 1), card(Suit::Heart, 3), card(Suit::Heart, 8), card(Suit::Heart, 13)];
    assert!(is_flush(&hand));
    assert_eq!(judge_hand(&hand), HandRank::Flush);
}

#[test]
fn judge_by_pairs() {
    let three = vec![card(Suit::Club, 4), card(Suit::Heart, 4), card(Suit::Spade, 4), card(Suit::Club, 8), card(Suit::Club, 9)];
    assert_eq!(count_pairs(&three), 3);
    assert_eq!(judge_hand(&three), HandRank::ThreeCard);
    let two = vec![card(Suit::Club, 4), card(Suit::Heart, 4), card(Suit::Spade, 8), card(Suit::Club, 8), card(Suit::Club, 9)];
    assert_eq!(count_pairs(&two), 2);
    assert_eq!(judge_hand(&two), HandRank::TwoPair);
    let one = vec![card(Suit::Club, 4), card(Suit::Heart, 4), card(Suit::Spade, 7), card(Suit::Club, 8), card(Suit::Club, 9)];
    assert_eq!(judge_hand(&one), HandRank::OnePair);
    let none = vec![card(Suit::Club, 1), card(Suit::Heart, 4), card(Suit::Spade, 7), card(Suit::Club, 8), card(Suit::Club, 9)];
    assert_eq!(count_pairs(&none), 0);
    assert_eq!(judge_hand(&none), HandRank::NoPair);
    let four = vec![card(Suit::Club, 4), card(Suit::Heart, 4), card(Suit::Spade, 4), card(Suit::Diamond, 4), card(Suit::Club, 9)];
    assert_eq!(count_pairs(&four), 6);
    assert_eq!(judge_hand(&four), HandRank::ThreeCard);
}

#[test]
fn judge_ignores_order() {
    let a = vec![card(Suit::Club, 4), card(Suit::Heart, 9), card(Suit::Spade, 4), card(Suit::Club, 8), card(Suit::Club, 9)];
    let b = vec![card(Suit::Club, 9), card(Suit::Club, 8), card(Suit::Spade, 4), card(Suit::Heart, 9), card(Suit::Club, 4)];
    assert_eq!(judge_hand(&a), judge_hand(&b));
}

#[test]
fn sort_by_rank_is_stable() {
    let mut cards = vec![card(Suit::Spade, 5), card(Suit::Club, 2), card(Suit::Heart, 5), card(Suit::Diamond, 2), card(Suit::Club, 1)];
    sort_by_rank(&mut cards);
    assert_eq!(
        cards,
        vec![card(Suit::Club, 1), card(Suit::Club, 2), card(Suit::Diamond, 2), card(Suit::Spade, 5), card(Suit::Heart, 5)]
    );
}
