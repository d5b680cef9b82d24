use sueca_logic::deck::Card;
use sueca_logic::deck::Deck;
use sueca_logic::deck::Suit;
use sueca_logic::deck::Symbol;
use sueca_logic::game::SuecaError;

#[test]
fn test_new_deck() {
    println!("{:#?}", Deck::new());
}

#[test]
fn test_generate_hand() {
    let mut deck = Deck::new();
    let hand = deck.generate_hand(10);
    assert!(hand.len() == 10);

    assert!(
        hand.iter()
            .zip(deck.generate_hand(10))
            .filter(|&(c1, c2)| { *c1 == c2 })
            .count()
            == 0
    );
}

#[test]
fn new_deck_has_canonical_order_and_40_cards() {
    let mut deck = Deck::new();
    assert_eq!(deck.remaining(), 40);
    let cards = deck.generate_hand(40);
    assert_eq!(cards.len(), 40);
    assert_eq!(
        cards[0],
        Card { suit: Suit::Club, symbol: Symbol::Two }
    );
    assert_eq!(
        cards[9],
        Card { suit: Suit::Club, symbol: Symbol::Ace }
    );
    assert_eq!(
        cards[10],
        Card { suit: Suit::Heart, symbol: Symbol::Two }
    );
    assert_eq!(
        cards[39],
        Card { suit: Suit::Spade, symbol: Symbol::Ace }
    );
    // each of the 40 (suit, symbol) pairs occurs exactly once
    for i in 0..40 {
        for j in 0..40 {
            if i != j {
                assert_ne!(cards[i], cards[j]);
            }
        }
    }
}

#[test]
fn shuffled_deck_holds_the_same_40_cards() {
    let mut base = Deck::new();
    let reference = base.generate_hand(40);
    let mut shuffled = Deck::new_shuffled();
    assert_eq!(shuffled.remaining(), 40);
    let cards = shuffled.generate_hand(40);
    for c in reference.iter() {
        let count = cards.iter().filter(|x| *x == c).count();
        assert_eq!(count, 1);
    }
}

#[test]
fn rank_order_is_the_sueca_order() {
    let order = [
        Symbol::Two,
        Symbol::Three,
        Symbol::Four,
        Symbol::Five,
        Symbol::Six,
        Symbol::Queen,
        Symbol::Knight,
        Symbol::King,
        Symbol::Seven,
        Symbol::Ace,
    ];
    for i in 0..10 {
        for j in 0..10 {
            assert_eq!(order[i].rank_index() < order[j].rank_index(), i < j);
            // the derived comparison agrees with the rank order
            assert_eq!(order[i] < order[j], i < j);
        }
        assert!(order[i].rank_index() <= Symbol::Ace.rank_index());
    }
}

#[test]
fn point_values_follow_the_rules() {
    let cases = [
        (Symbol::Two, 0),
        (Symbol::Three, 0),
        (Symbol::Four, 0),
        (Symbol::Five, 0),
        (Symbol::Six, 0),
        (Symbol::Queen, 2),
        (Symbol::Knight, 3),
        (Symbol::King, 4),
        (Symbol::Seven, 10),
        (Symbol::Ace, 11),
    ];
    for (symbol, points) in cases.iter() {
        let card = Card { suit: Suit::Diamond, symbol: *symbol };
        assert_eq!(card.points(), *points);
    }
}

#[test]
fn whole_deck_is_worth_120_points() {
    let mut deck = Deck::new();
    let cards = deck.generate_hand(40);
    let total: u32 = cards.iter().map(|c| c.points()).sum();
    assert_eq!(total, 120);
}

#[test]
fn deal_rejects_more_cards_than_remain() {
    let mut deck = Deck::new();
    assert_eq!(deck.deal(41), Err(SuecaError::DeckExhausted));
    assert_eq!(deck.remaining(), 40);
    let hand = deck.deal(15).unwrap();
    assert_eq!(hand.len(), 15);
    assert_eq!(deck.remaining(), 25);
    assert_eq!(deck.deal(26), Err(SuecaError::DeckExhausted));
    assert_eq!(deck.remaining(), 25);
}
