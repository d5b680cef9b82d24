use sueca_logic::deck::Card;
use sueca_logic::deck::Suit;
use sueca_logic::deck::Symbol;
use sueca_logic::deck::Deck;
use sueca_logic::game::Player;
use sueca_logic::game::PlayerId;
use sueca_logic::game::Team;
use sueca_logic::game::SuecaError;
use sueca_logic::game::SuecaGame;
use sueca_logic::game::Table;
use sueca_logic::game::TeamId;
use sueca_logic::game::TrickOutcome;

fn card(suit: Suit, symbol: Symbol) -> Card {
    Card { suit, symbol }
}

#[test]
fn player_take_card_removes_only_held_cards() {
    let mut deck = Deck::new();
    let hand = deck.generate_hand(3);
    let mut player = Player::new(PlayerId::new(7), hand);
    assert_eq!(player.id(), PlayerId::new(7));
    let held = card(Suit::Club, Symbol::Three);
    assert_eq!(player.take_card(held), Some(held));
    assert!(!player.hand().contains(&held));
    assert_eq!(player.take_card(held), None);
    assert_eq!(player.hand().len(), 2);
    let foreign = card(Suit::Spade, Symbol::Ace);
    assert_eq!(player.take_card(foreign), None);
    assert_eq!(player.hand().len(), 2);
}

#[test]
fn team_deals_two_hands_from_the_deck() {
    let mut deck = Deck::new();
    let a = PlayerId::new(1);
    let b = PlayerId::new(2);
    let team = Team::new(a, b, &mut deck);
    assert_eq!(deck.remaining(), 20);
    assert!(team.contains_player(a));
    assert!(team.contains_player(b));
    assert!(!team.contains_player(PlayerId::new(3)));
    assert_eq!(team.points(), 0);
}

#[test]
fn fresh_hands_are_disjoint_and_cover_the_deck() {
    let game = SuecaGame::new();
    let players = game.players();
    assert_eq!(players.len(), 4);
    let hands: Vec<Vec<Card>> = players
        .iter()
        .map(|p| game.hand_of(*p).unwrap())
        .collect();
    for h in hands.iter() {
        assert_eq!(h.len(), 10);
    }
    for i in 0..4 {
        for j in 0..4 {
            if i != j {
                for c in hands[i].iter() {
                    assert!(!hands[j].contains(c));
                }
            }
        }
    }
    // the union is the whole 40-card deck
    let mut all: Vec<Card> = Vec::new();
    for h in hands.iter() {
        for c in h.iter() {
            all.push(*c);
        }
    }
    assert_eq!(all.len(), 40);
    let mut reference = sueca_logic::deck::Deck::new();
    for c in reference.generate_hand(40).iter() {
        assert!(all.contains(c));
    }
}

#[test]
fn caller_supplied_identities_are_seated_in_order() {
    let ids = vec![
        PlayerId::new(10),
        PlayerId::new(20),
        PlayerId::new(30),
        PlayerId::new(40),
    ];
    let game = SuecaGame::new_with_players(ids[0], ids[1], ids[2], ids[3]);
    assert_eq!(game.players(), ids);
    assert_eq!(game.get_current_player(), ids[0]);
    for id in ids.iter() {
        assert_eq!(game.hand_of(*id).unwrap().len(), 10);
    }
}

#[test]
fn lone_trump_beats_ace_of_led_suit() {
    let p1 = PlayerId::new(1);
    let p2 = PlayerId::new(2);
    let p3 = PlayerId::new(3);
    let p4 = PlayerId::new(4);
    let mut table = Table::empty();
    table.add_card(p1, card(Suit::Heart, Symbol::King));
    table.add_card(p2, card(Suit::Club, Symbol::Two));
    table.add_card(p3, card(Suit::Spade, Symbol::Two));
    table.add_card(p4, card(Suit::Heart, Symbol::Ace));
    assert_eq!(table.winner(Suit::Spade), Some(p3));
}

#[test]
fn no_trump_highest_led_suit_wins() {
    let p1 = PlayerId::new(1);
    let p2 = PlayerId::new(2);
    let p3 = PlayerId::new(3);
    let p4 = PlayerId::new(4);
    let mut table = Table::empty();
    table.add_card(p1, card(Suit::Heart, Symbol::Six));
    table.add_card(p2, card(Suit::Club, Symbol::Ace));
    table.add_card(p3, card(Suit::Diamond, Symbol::King));
    table.add_card(p4, card(Suit::Heart, Symbol::Queen));
    // no spade was played: the queen of hearts outranks the six of hearts,
    // and the off-suit ace and king are never winning candidates
    assert_eq!(table.winner(Suit::Spade), Some(p4));
}

#[test]
fn unresolved_table_has_no_winner() {
    let p1 = PlayerId::new(1);
    let mut table = Table::empty();
    assert_eq!(table.winner(Suit::Spade), None);
    table.add_card(p1, card(Suit::Heart, Symbol::Ace));
    assert_eq!(table.winner(Suit::Spade), None);
    assert_eq!(table.play_number(), 1);
}

#[test]
fn table_points_sums_the_played_cards() {
    let p1 = PlayerId::new(1);
    let p2 = PlayerId::new(2);
    let mut table = Table::empty();
    assert_eq!(table.table_points(), 0);
    table.add_card(p1, card(Suit::Heart, Symbol::Ace));
    table.add_card(p2, card(Suit::Heart, Symbol::Seven));
    assert_eq!(table.table_points(), 21);
}

#[test]
fn trump_is_last_dealt_card_suit() {
    let game = SuecaGame::new();
    let players = game.players();
    let last_hand = game.hand_of(players[3]).unwrap();
    assert_eq!(game.trump(), last_hand[9].suit);
}

#[test]
fn completed_trick_awards_points_to_winner_team() {
    let mut game = SuecaGame::new();
    let players = game.players();
    let mut played: Vec<Card> = Vec::new();
    for i in 0..4 {
        let p = game.get_current_player();
        let c = game.hand_of(p).unwrap()[0];
        played.push(c);
        let outcome = game.make_play(p, c).unwrap();
        if i < 3 {
            assert_eq!(outcome, TrickOutcome::Continues);
        } else {
            let expected: u32 = played.iter().map(|x| x.points()).sum();
            match outcome {
                TrickOutcome::Completed { winner, points, team } => {
                    assert_eq!(points, expected);
                    let seat = players.iter().position(|x| *x == winner).unwrap();
                    let expected_team = if seat % 2 == 0 {
                        TeamId::First
                    } else {
                        TeamId::Second
                    };
                    assert_eq!(team, expected_team);
                    // the winner leads the next trick
                    assert_eq!(game.get_current_player(), winner);
                    let (s0, s1) = game.scores();
                    assert_eq!(s0 + s1, expected);
                },
                TrickOutcome::Continues => panic!("fourth play must complete the trick"),
            }
        }
    }
    assert_eq!(game.tricks_played(), 1);
}

#[test]
fn full_hand_scores_sum_to_120() {
    let mut game = SuecaGame::new();
    for _ in 0..10 {
        for _ in 0..4 {
            let p = game.get_current_player();
            let c = game.hand_of(p).unwrap()[0];
            assert!(game.make_play(p, c).is_ok());
        }
    }
    assert_eq!(game.tricks_played(), 10);
    let (s0, s1) = game.scores();
    assert_eq!(s0 + s1, 120);
    // every hand has been emptied
    for p in game.players().iter() {
        assert_eq!(game.hand_of(*p).unwrap().len(), 0);
    }
}

#[test]
fn played_card_can_never_be_played_again() {
    let mut game = SuecaGame::new();
    let p = game.get_current_player();
    let c = game.hand_of(p).unwrap()[0];
    assert!(game.make_play(p, c).is_ok());
    assert!(!game.hand_of(p).unwrap().contains(&c));
    // the next player never held it either: hands are disjoint
    let q = game.get_current_player();
    assert_eq!(game.make_play(q, c), Err(SuecaError::CardNotHeld));
}

#[test]
fn card_not_held_is_rejected_without_any_change() {
    let mut game = SuecaGame::new();
    let players = game.players();
    let p = game.get_current_player();
    assert_eq!(p, players[0]);
    let foreign = game.hand_of(players[1]).unwrap()[0];
    let hand_before = game.hand_of(p).unwrap();
    let scores_before = game.scores();
    assert_eq!(game.make_play(p, foreign), Err(SuecaError::CardNotHeld));
    assert_eq!(game.get_current_player(), p);
    assert_eq!(game.hand_of(p).unwrap(), hand_before);
    assert_eq!(game.hand_of(players[1]).unwrap().len(), 10);
    assert_eq!(game.scores(), scores_before);
    assert_eq!(game.tricks_played(), 0);
}

#[test]
fn out_of_turn_play_is_rejected_without_any_change() {
    let mut game = SuecaGame::new();
    let players = game.players();
    let waiting = players[2];
    let c = game.hand_of(waiting).unwrap()[0];
    let scores_before = game.scores();
    assert_eq!(game.make_play(waiting, c), Err(SuecaError::OutOfTurn));
    assert_eq!(game.get_current_player(), players[0]);
    assert_eq!(game.hand_of(waiting).unwrap().len(), 10);
    assert_eq!(game.scores(), scores_before);
    assert_eq!(game.tricks_played(), 0);
}

#[test]
fn unknown_player_is_rejected() {
    let mut game = SuecaGame::new();
    let players = game.players();
    let mut stranger = None;
    for v in 0..5u128 {
        let candidate = PlayerId::new(v);
        if !players.contains(&candidate) {
            stranger = Some(candidate);
            break;
        }
    }
    let stranger = stranger.unwrap();
    let c = game.hand_of(players[0]).unwrap()[0];
    assert_eq!(game.make_play(stranger, c), Err(SuecaError::UnknownPlayer));
    assert_eq!(game.get_current_player(), players[0]);
    assert_eq!(game.tricks_played(), 0);
}
