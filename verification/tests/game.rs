use fish_core::game::{rand_card_from_deck, weighted_pick, BotGame, Move, Query};
use fish_core::observer::{GameError, GameObserver, DECK_SIZE};
use fish_core::probability::Probability;

fn hand(counts: &[(usize, usize)]) -> [usize; DECK_SIZE] {
    let mut h = [0usize; DECK_SIZE];
    for &(rank, n) in counts {
        h[rank] = n;
    }
    h
}

fn conservation_total(game: &BotGame) -> usize {
    let pool: usize = game.deck.iter().sum();
    let hands: usize = game
        .players
        .iter()
        .map(|p| p.own_deck.map(|h| h.iter().sum::<usize>()).unwrap_or(0))
        .sum();
    let placed: usize = game.number_placed.iter().sum();
    pool + hands + 4 * placed
}

#[test]
fn from_id_decodes_asks_then_draws() {
    // With 3 opponents the first 3 × 13 + 1 identifiers are asks.
    let m = Move::from_id(3, 5);
    assert!(matches!(m, Move::Query(Query { player: 0, card: 5 })));
    let m = Move::from_id(3, 16);
    assert!(matches!(m, Move::Query(Query { player: 1, card: 3 })));
    let m = Move::from_id(3, 39);
    assert!(matches!(m, Move::Query(Query { player: 3, card: 0 })));
    let m = Move::from_id(3, 40);
    assert!(matches!(m, Move::Pickup));
}

#[test]
fn weighted_pick_walks_the_ranks_in_order() {
    let deck = [4usize; DECK_SIZE];
    assert_eq!(weighted_pick(&deck, 1), 0);
    assert_eq!(weighted_pick(&deck, 4), 0);
    assert_eq!(weighted_pick(&deck, 5), 1);
    assert_eq!(weighted_pick(&deck, 52), 12);

    let mut sparse = [0usize; DECK_SIZE];
    sparse[2] = 1;
    sparse[11] = 3;
    assert_eq!(weighted_pick(&sparse, 1), 2);
    assert_eq!(weighted_pick(&sparse, 2), 11);
    assert_eq!(weighted_pick(&sparse, 4), 11);
}

#[test]
fn drawing_from_an_empty_pool_errs() {
    let deck = [0usize; DECK_SIZE];
    assert_eq!(rand_card_from_deck(&deck), Err(GameError::EmptyPoolDraw));
}

#[test]
fn drawing_lands_on_a_rank_with_cards() {
    // Only one rank holds cards, so whatever the dice said, the draw must
    // name that rank.
    let mut deck = [0usize; DECK_SIZE];
    deck[5] = 3;
    assert_eq!(rand_card_from_deck(&deck), Ok(5));

    let full = [4usize; DECK_SIZE];
    for _ in 0..20 {
        let c = rand_card_from_deck(&full).unwrap();
        assert!(c < DECK_SIZE);
    }
}

#[test]
fn new_rand_deals_a_conserved_match() {
    let game = BotGame::new_rand(4);
    assert_eq!(game.players.len(), 4);
    assert_eq!(game.current_player, 0);
    assert!(!game.over);
    assert_eq!(conservation_total(&game), 52);
    for (i, p) in game.players.iter().enumerate() {
        assert_eq!(p.id, i);
        assert_eq!(p.other_players.len(), 3);
        let own = p.own_deck.unwrap();
        for r in 0..DECK_SIZE {
            // No seat starts with a completed book.
            assert!(own[r] < 4);
        }
        assert_eq!(game.number_placed[i], 0);
    }
}

/// Ground truth for a four-seat match in which seat 1 holds two copies of
/// rank 3 and seat 0 may ask for it.
fn four_seat_match() -> BotGame {
    let hands = [
        hand(&[(3, 1), (0, 3), (1, 3)]),
        hand(&[(3, 2), (2, 3), (4, 2)]),
        hand(&[(5, 3), (6, 3), (7, 1)]),
        hand(&[(8, 3), (9, 3), (10, 1)]),
    ];
    let deck: [usize; DECK_SIZE] = [1, 1, 1, 1, 2, 1, 1, 3, 1, 1, 3, 4, 4];
    let players = (0..4)
        .map(|i| GameObserver::new(3, Some(hands[i]), i))
        .collect();
    BotGame { players, number_placed: vec![0; 4], deck, current_player: 0, over: false }
}

#[test]
fn ask_with_a_hit_settles_the_transfer() {
    let mut game = four_seat_match();
    assert_eq!(conservation_total(&game), 52);

    // Identifier 16 decodes to: ask seat 1 for rank 3.
    assert!(game.step(&vec![16]).is_ok());

    // Seat 0 received both copies, seat 1 has none left.
    assert_eq!(game.players[0].own_deck.unwrap()[3], 3);
    assert_eq!(game.players[1].own_deck.unwrap()[3], 0);

    // Every bystander now knows seat 1 is empty for rank 3 and that seat 0
    // provably holds three copies.
    for by in [2usize, 3] {
        let of_seat1 = &game.players[by].other_players[1].cards;
        assert_eq!(of_seat1.cards[3], Probability::Known(0));
        let of_seat0 = &game.players[by].other_players[0].cards;
        assert_eq!(of_seat0.cards[3], Probability::Known(3));
    }

    // The target learned what the asker now provably holds.
    assert_eq!(game.players[1].other_players[0].cards.cards[3], Probability::Known(3));

    // The asker watched seat 1 hand over everything, so it too knows seat 1
    // is empty for the rank.
    assert_eq!(game.players[0].other_players[0].cards.cards[3], Probability::Known(0));

    assert_eq!(game.current_player, 1);
    assert!(!game.over);
    assert_eq!(game.number_placed, vec![0; 4]);
    assert_eq!(conservation_total(&game), 52);
}

#[test]
fn ask_with_a_miss_stays_private() {
    let mut game = four_seat_match();

    // Identifier 2 * 13 + 3 = 29 decodes to: ask seat 2 for rank 3, which
    // seat 2 does not hold.
    assert!(game.step(&vec![29]).is_ok());

    assert_eq!(game.players[0].own_deck.unwrap()[3], 1);
    assert_eq!(game.players[2].own_deck.unwrap()[3], 0);
    // The asker itself still learned that seat 2 is empty for the rank.
    assert_eq!(game.players[0].other_players[1].cards.cards[3], Probability::Known(0));
    // No broadcast: bystanders still hold plain estimates about seat 2.
    for r in 0..DECK_SIZE {
        assert!(matches!(
            game.players[3].other_players[1].cards.cards[r],
            Probability::Unknown(_)
        ));
    }
    assert_eq!(game.current_player, 1);
    assert_eq!(conservation_total(&game), 52);
}

#[test]
fn ask_that_completes_a_book_broadcasts_placed() {
    // Seat 0 holds two copies of rank 3 and seat 1 the other two: the ask
    // completes the book, which every seat then writes off.
    let hands = [
        hand(&[(3, 2), (0, 3), (1, 2)]),
        hand(&[(3, 2), (2, 3), (4, 2)]),
        hand(&[(5, 3), (6, 3), (7, 1)]),
        hand(&[(8, 3), (9, 3), (10, 1)]),
    ];
    let deck: [usize; DECK_SIZE] = [1, 2, 1, 0, 2, 1, 1, 3, 1, 1, 3, 4, 4];
    let players: Vec<GameObserver> =
        (0..4).map(|i| GameObserver::new(3, Some(hands[i]), i)).collect();
    let mut game =
        BotGame { players, number_placed: vec![0; 4], deck, current_player: 0, over: false };
    assert_eq!(conservation_total(&game), 52);

    assert!(game.step(&vec![16]).is_ok());

    // The book left seat 0's hand the moment it was completed.
    assert_eq!(game.players[0].own_deck.unwrap()[3], 0);
    assert_eq!(game.number_placed, vec![1, 0, 0, 0]);
    assert_eq!(conservation_total(&game), 52);

    // Bystanders write the rank off for every seat and for the pool.
    for by in [2usize, 3] {
        for j in 0..3 {
            assert_eq!(
                game.players[by].other_players[j].cards.cards[3],
                Probability::Known(0)
            );
        }
        assert_eq!(game.players[by].deck.cards[3], Probability::Known(0));
        assert_eq!(game.players[by].deck.size, 45 - 4);
    }
}

#[test]
fn an_illegal_ranking_ends_the_match() {
    let mut game = four_seat_match();
    // Asking oneself (seat 0) is never legal, and asking seat 1 for rank 12,
    // which seat 0 does not hold, is not either.
    let ranking = vec![3, 13 + 12];
    assert!(game.step(&ranking).is_ok());
    assert!(game.over);
    assert_eq!(game.current_player, 0);
}

#[test]
fn a_draw_moves_one_card_and_keeps_conservation() {
    let mut game = four_seat_match();
    // Identifiers beyond 3 * 13 decode to a draw.
    assert!(game.step(&vec![40]).is_ok());

    let pool: usize = game.deck.iter().sum();
    assert_eq!(pool, 23);
    assert_eq!(conservation_total(&game), 52);
    assert_eq!(game.current_player, 1);
}

#[test]
fn a_seven_seat_match_still_deals_cleanly() {
    // Seven seats draw the deal down to its last three cards.
    let game = BotGame::new_rand(7);
    assert_eq!(game.players.len(), 7);
    assert_eq!(conservation_total(&game), 52);
    let pool: usize = game.deck.iter().sum();
    assert_eq!(pool, 3);
    for p in &game.players {
        assert_eq!(p.own_deck.unwrap().iter().sum::<usize>(), 7);
    }
}

#[test]
fn conservation_holds_across_a_whole_match() {
    let mut game = BotGame::new_rand(4);
    // A simple fixed policy: prefer the lowest ask identifier, fall back to
    // a draw; the engine keeps only legal candidates.
    let ranking: Vec<usize> = (0..=40).collect();
    for _ in 0..200 {
        if game.over {
            break;
        }
        match game.step(&ranking) {
            Ok(()) => {}
            Err(GameError::EmptyPoolDraw) => break,
            Err(e) => panic!("unexpected engine error: {:?}", e),
        }
        assert_eq!(conservation_total(&game), 52);
        // Every rank is either fully in play or fully placed.
        for r in 0..DECK_SIZE {
            let in_play: usize = game.deck[r]
                + game
                    .players
                    .iter()
                    .map(|p| p.own_deck.unwrap()[r])
                    .sum::<usize>();
            assert!(in_play == 0 || in_play == 4);
        }
    }
}
