use fish_core::observer::{Deck, DECK_SIZE, SUITS};
use fish_core::probability::{Probability, FRAC_UNIT};

#[test]
fn new_full() {
    let deck = Deck::new_full();

    assert_eq!(deck.size as u64 * FRAC_UNIT, deck.total());
}

#[test]
fn new_empty() {
    let deck = Deck::new_empty();

    assert_eq!(deck.size, 0);
    assert_eq!(deck.total(), 0);
}

#[test]
fn from_known_is_exact() {
    let mut hand = [0usize; DECK_SIZE];
    hand[0] = 3;
    hand[7] = 2;
    let deck = Deck::from_known(hand);

    assert_eq!(deck.size, 5);
    assert_eq!(deck.cards[0], Probability::Known(3));
    assert_eq!(deck.cards[7], Probability::Known(2));
    assert_eq!(deck.cards[1], Probability::Known(0));
    assert_eq!(deck.total(), 5 * FRAC_UNIT);
}

#[test]
fn remove_known_cards_lowers_one_rank() {
    let mut deck = Deck::new_full();
    deck.remove_known_cards(3, 2);

    assert_eq!(deck.cards[3], Probability::Unknown(2 * FRAC_UNIT));
    assert_eq!(deck.cards[4], Probability::Unknown(4 * FRAC_UNIT));
    assert_eq!(deck.size, SUITS * DECK_SIZE - 2);
}

#[test]
fn remove_subtracts_a_whole_deck() {
    let mut pool = Deck::new_full();
    let mut hand = [0usize; DECK_SIZE];
    hand[2] = 3;
    hand[9] = 4;
    pool.remove(&Deck::from_known(hand));

    assert_eq!(pool.cards[2], Probability::Unknown(1 * FRAC_UNIT));
    assert_eq!(pool.cards[9], Probability::Unknown(0));
    assert_eq!(pool.cards[0], Probability::Unknown(4 * FRAC_UNIT));
    assert_eq!(pool.size, 52 - 7);
}

#[test]
fn transfer_moves_proportional_mass() {
    // One unseen card drawn from a fresh 52-card pool: every rank moves
    // 40000 * 1 * 10000 / 520000 = 769 mass units, and what one deck gains
    // the other loses exactly.
    let mut pool = Deck::new_full();
    let mut hand = Deck::new_empty();
    hand.add_unknown_from_other(&mut pool, 1);

    for r in 0..DECK_SIZE {
        assert_eq!(hand.cards[r], Probability::Unknown(769));
        assert_eq!(pool.cards[r], Probability::Unknown(4 * FRAC_UNIT - 769));
    }
    assert_eq!(hand.size, 1);
    assert_eq!(pool.size, 52);
}

#[test]
fn transfer_moves_proportional_shares_even_from_known_cells() {
    // Each rank moves value / total × amount of mass.  A source holding
    // exactly two known cards of rank 4 has all its value there, so one
    // drawn card moves a whole card's worth of mass, while the known cell
    // itself keeps its count: subtracting an estimate from exact knowledge
    // leaves the knowledge.
    let mut hand = [0usize; DECK_SIZE];
    hand[4] = 2;
    let mut src = Deck::from_known(hand);
    let mut dst = Deck::new_empty();
    dst.add_unknown_from_other(&mut src, 1);

    assert_eq!(dst.cards[4], Probability::Unknown(FRAC_UNIT));
    assert_eq!(src.cards[4], Probability::Known(2));
    for r in 0..DECK_SIZE {
        if r != 4 {
            assert_eq!(dst.cards[r], Probability::Unknown(0));
            assert_eq!(src.cards[r], Probability::Known(0));
        }
    }
    assert_eq!(dst.size, 1);
    assert_eq!(src.size, 2);
}

#[test]
fn transfer_from_empty_pool_moves_nothing() {
    let mut src = Deck::new_empty();
    let mut dst = Deck::new_empty();
    dst.add_unknown_from_other(&mut src, 2);

    for r in 0..DECK_SIZE {
        assert_eq!(dst.cards[r], Probability::Unknown(0));
        assert_eq!(src.cards[r], Probability::Unknown(0));
    }
    assert_eq!(dst.size, 2);
}
