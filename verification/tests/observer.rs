use fish_core::observer::{
    absolute_to_relative, relative_to_absolute, Deck, Event, GameError, GameObserver, Player,
    DECK_SIZE, STARTING_CARDS,
};
use fish_core::probability::{Probability, FRAC_UNIT};

fn hand(counts: &[(usize, usize)]) -> [usize; DECK_SIZE] {
    let mut h = [0usize; DECK_SIZE];
    for &(rank, n) in counts {
        h[rank] = n;
    }
    h
}

fn assert_same_observer(a: &GameObserver, b: &GameObserver) {
    assert_eq!(a.id, b.id);
    assert_eq!(a.own_deck, b.own_deck);
    assert_eq!(a.deck.size, b.deck.size);
    for r in 0..DECK_SIZE {
        assert_eq!(a.deck.cards[r], b.deck.cards[r]);
    }
    assert_eq!(a.other_players.len(), b.other_players.len());
    for j in 0..a.other_players.len() {
        assert_eq!(a.other_players[j].cards.size, b.other_players[j].cards.size);
        for r in 0..DECK_SIZE {
            assert_eq!(a.other_players[j].cards.cards[r], b.other_players[j].cards.cards[r]);
        }
    }
}

#[test]
fn relative_index_round_trip() {
    // Seat 2's opponent list elides seat 2: seats 0,1,3,4 sit at slots
    // 0,1,2,3, and the translation inverts exactly.
    assert_eq!(absolute_to_relative(2, 0), 0);
    assert_eq!(absolute_to_relative(2, 1), 1);
    assert_eq!(absolute_to_relative(2, 3), 2);
    assert_eq!(absolute_to_relative(2, 4), 3);
    assert_eq!(relative_to_absolute(2, 0), 0);
    assert_eq!(relative_to_absolute(2, 1), 1);
    assert_eq!(relative_to_absolute(2, 2), 3);
    assert_eq!(relative_to_absolute(2, 3), 4);
    for id in 0..5usize {
        for a in 0..5usize {
            if a != id {
                assert_eq!(relative_to_absolute(id, absolute_to_relative(id, a)), a);
            }
        }
        for rel in 0..4usize {
            let a = relative_to_absolute(id, rel);
            assert_ne!(a, id);
            assert_eq!(absolute_to_relative(id, a), rel);
        }
    }
}

#[test]
fn new_observer_accounts_for_its_own_hand() {
    let own = hand(&[(0, 3), (1, 3), (3, 1)]);
    let o = GameObserver::new(3, Some(own), 0);

    assert_eq!(o.id, 0);
    assert_eq!(o.own_deck, Some(own));
    assert_eq!(o.other_players.len(), 3);
    // 52 cards minus the seven in its own hand.
    assert_eq!(o.deck.size, 45);
    // Each opponent is believed to hold its starting cards.
    for j in 0..3 {
        assert_eq!(o.other_players[j].cards.size, STARTING_CARDS);
    }
}

#[test]
fn spectator_observer_has_no_hand() {
    let o = GameObserver::new(4, None, 0);
    assert_eq!(o.own_deck, None);
    assert_eq!(o.deck.size, 52);
    assert_eq!(o.other_players.len(), 4);
}

#[test]
fn self_pickup_places_the_fourth_copy() {
    let own = hand(&[(5, 3), (0, 2), (1, 2)]);
    let mut o = GameObserver::new(0, Some(own), 0);
    let pool_size = o.deck.size;

    o.self_pickup(5);

    // The fourth copy completes the book, which leaves the hand at once.
    assert_eq!(o.own_deck.unwrap()[5], 0);
    assert_eq!(o.deck.size, pool_size - 1);

    o.self_pickup(0);
    assert_eq!(o.own_deck.unwrap()[0], 3);
}

#[test]
fn self_query_takes_the_cards_and_updates_the_target() {
    let own = hand(&[(3, 1), (0, 3), (1, 3)]);
    let mut o = GameObserver::new(2, Some(own), 0);

    o.self_query(0, 3, 2);

    assert_eq!(o.own_deck.unwrap()[3], 3);
    // The asked seat handed over everything it held, so it is now known
    // empty for the rank, and its believed hand is two cards lighter.
    assert_eq!(o.other_players[0].cards.cards[3], Probability::Known(0));
    assert_eq!(o.other_players[0].cards.size, STARTING_CARDS - 2);

    // A miss records the same knowledge with nothing transferred.
    let mut o = GameObserver::new(2, Some(hand(&[(3, 1), (0, 3), (1, 3)])), 0);
    o.self_query(1, 6, 0);
    assert_eq!(o.own_deck.unwrap()[6], 0);
    assert_eq!(o.other_players[1].cards.cards[6], Probability::Known(0));
    assert_eq!(o.other_players[1].cards.size, STARTING_CARDS);
}

#[test]
fn self_give_all_tells_the_asker_what_it_now_holds() {
    // Handing over 2 copies means the asker provably holds 3.
    let mut o = GameObserver::new(2, Some(hand(&[(4, 2), (0, 3), (1, 2)])), 1);
    assert!(o.self_give_all(0, 4).is_ok());
    assert_eq!(o.own_deck.unwrap()[4], 0);
    assert_eq!(o.other_players[0].cards.cards[4], Probability::Known(3));

    // Handing over 1 leaves only a lower bound.
    let mut o = GameObserver::new(2, Some(hand(&[(4, 1), (0, 3), (1, 3)])), 1);
    assert!(o.self_give_all(0, 4).is_ok());
    assert_eq!(o.other_players[0].cards.cards[4], Probability::MoreThan(2));

    // Handing over 3 completes the asker's book, which leaves play.
    let mut o = GameObserver::new(2, Some(hand(&[(4, 3), (0, 3), (1, 1)])), 1);
    assert!(o.self_give_all(0, 4).is_ok());
    assert_eq!(o.other_players[0].cards.cards[4], Probability::Known(0));

    // A hand with no copy of the rank cannot be asked to give them.
    let mut o = GameObserver::new(2, Some(hand(&[(0, 3), (1, 3), (2, 1)])), 1);
    assert_eq!(o.self_give_all(0, 4), Err(GameError::InvalidTransferAmount));
}

#[test]
fn query_marks_the_target_empty_and_the_asker_knowing() {
    let mut o = GameObserver::new(3, None, 0);

    assert!(o.query(0, 1, 6, 2, false).is_ok());
    assert_eq!(o.other_players[1].cards.cards[6], Probability::Known(0));
    assert_eq!(o.other_players[0].cards.cards[6], Probability::Known(3));
    // The asker is believed two cards richer.
    assert_eq!(o.other_players[0].cards.size, STARTING_CARDS + 2);

    let mut o = GameObserver::new(3, None, 0);
    assert!(o.query(0, 1, 6, 1, false).is_ok());
    assert_eq!(o.other_players[0].cards.cards[6], Probability::MoreThan(2));
}

#[test]
fn query_with_impossible_amount_is_a_protocol_violation() {
    let mut o = GameObserver::new(3, None, 0);
    assert_eq!(o.query(0, 1, 6, 3, false), Err(GameError::InvalidTransferAmount));
    assert_eq!(o.query(0, 1, 6, 0, false), Err(GameError::InvalidTransferAmount));
}

#[test]
fn placed_book_clears_the_rank_everywhere() {
    let mut o = GameObserver::new(3, None, 0);
    assert!(o.query(0, 1, 6, 2, true).is_ok());

    for j in 0..3 {
        assert_eq!(o.other_players[j].cards.cards[6], Probability::Known(0));
    }
    assert_eq!(o.deck.cards[6], Probability::Known(0));
    // Four cards left circulation for good.
    assert_eq!(o.deck.size, 48);
}

#[test]
fn place_removes_the_book_from_the_pool() {
    let mut o = GameObserver::new(2, None, 0);
    let pool_size = o.deck.size;
    o.place(9);
    assert_eq!(o.deck.cards[9], Probability::Known(0));
    assert_eq!(o.deck.size, pool_size - 4);
    assert_eq!(o.other_players[0].cards.cards[9], Probability::Known(0));
}

#[test]
fn observe_draw_never_sharpens_a_cell() {
    // Watching a draw moves estimate mass around but can never turn an
    // Unknown cell into exact knowledge.
    let mut o = GameObserver::new(3, None, 2);
    o.pickup(1);
    for r in 0..DECK_SIZE {
        assert!(matches!(o.other_players[1].cards.cards[r], Probability::Unknown(_)));
        assert!(matches!(o.deck.cards[r], Probability::Unknown(_)));
    }
    assert_eq!(o.other_players[1].cards.size, STARTING_CARDS + 1);
}

#[test]
fn replaying_the_same_log_is_bit_identical() {
    let own = hand(&[(0, 2), (1, 2), (2, 3)]);
    let log = vec![
        Event::SelfDraw { rank: 4 },
        Event::ObserveDraw { opponent: 1 },
        Event::ObserveAsk { asker: 0, target: 2, rank: 7, amount: 1, placed: false },
        Event::SelfAsk { target: 0, rank: 2, amount: 1 },
        Event::ObserveDraw { opponent: 0 },
        Event::SelfGiveAll { asker: 1, rank: 1 },
        Event::ObserveAsk { asker: 2, target: 0, rank: 3, amount: 2, placed: true },
    ];

    let mut a = GameObserver::new(3, Some(own), 1);
    let mut b = GameObserver::new(3, Some(own), 1);
    assert!(a.replay(&log).is_ok());
    assert!(b.replay(&log).is_ok());

    assert_same_observer(&a, &b);

    // Applying the same events one by one lands on the same state too.
    let mut c = GameObserver::new(3, Some(own), 1);
    for e in &log {
        assert!(c.apply_event(e).is_ok());
    }
    assert_same_observer(&a, &c);
}

#[test]
fn replay_stops_at_a_protocol_violation() {
    let log = vec![
        Event::ObserveDraw { opponent: 0 },
        Event::ObserveAsk { asker: 0, target: 1, rank: 7, amount: 3, placed: false },
    ];
    let mut o = GameObserver::new(2, None, 2);
    assert_eq!(o.replay(&log), Err(GameError::InvalidTransferAmount));
}

#[test]
fn default_player_holds_an_empty_deck() {
    let p = Player::default();
    assert_eq!(p.cards.size, 0);
    assert_eq!(p.cards.total(), 0);
}

#[test]
fn with_starting_cards_drains_the_pool_estimate() {
    let mut pool = Deck::new_full();
    let p = Player::with_starting_cards(&mut pool, STARTING_CARDS);
    assert_eq!(p.cards.size, STARTING_CARDS);
    // Each rank's share of seven unseen cards out of 52:
    // 40000 * 7 * 10000 / 520000 = 5384 mass units.
    for r in 0..DECK_SIZE {
        assert_eq!(p.cards.cards[r], Probability::Unknown(5384));
        assert_eq!(pool.cards[r], Probability::Unknown(4 * FRAC_UNIT - 5384));
    }
}
