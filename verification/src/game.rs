//! Ground truth and the turn-resolution engine.

use vstd::prelude::*;

use crate::observer::{
    absolute_to_relative, counts_view, observer_new_spec, obs_wf, pickup_spec, query_spec,
    self_give_all_spec, self_pickup_spec, self_query_spec, spec_abs_to_rel, spec_move_is_legal,
    sum_ints, GameError, GameObserver, KnownDeck, ObserverView, DECK_SIZE, STARTING_CARDS, SUITS,
};
use crate::rng::rand_range;
use vstd::assert_by_contradiction;

verus! {

/// A candidate action for the active seat.
#[derive(Clone, Copy, Debug, PartialEq, Eq, Structural)]
pub enum Move {
    /// Draw one card from the face-down pool.
    Pickup,
    /// Ask a seat for every copy of a rank it holds.
    Query(Query),
}

/// An ask: which absolute seat to address, and for which rank.
#[derive(Clone, Copy, Debug, PartialEq, Eq, Structural)]
pub struct Query {
    /// The absolute index of the seat being asked.
    pub player: usize,
    /// The rank being asked for.
    pub card: usize,
}

/// The move a policy's output identifier stands for: the low identifiers
/// encode asks, everything above them a draw.
pub open spec fn spec_move_from_id(players: int, id: int) -> Move {
    if id <= players * DECK_SIZE {
        Move::Query(
            Query {
                player: (id / (DECK_SIZE as int)) as usize,
                card: (id % (DECK_SIZE as int)) as usize,
            },
        )
    } else {
        Move::Pickup
    }
}

impl Move {
    /// Decodes a policy move identifier for a game of `players` opponents.
    pub fn from_id(players: usize, id: usize) -> (m: Move)
        requires
            players <= usize::MAX / DECK_SIZE,
        ensures
            m == spec_move_from_id(players as int, id as int),
    {
        if id <= players * DECK_SIZE {
            return Move::Query(Query { player: id / DECK_SIZE, card: id % DECK_SIZE });
        }
        Move::Pickup
    }
}

/// The mathematical model of a whole match.
#[verifier::ext_equal]
pub ghost struct GameView {
    /// One belief per seat; each seat's `own` hand is its ground truth.
    pub players: Seq<ObserverView>,
    /// Books placed so far, per seat.
    pub placed: Seq<int>,
    /// The ground-truth face-down pool, counts per rank.
    pub deck: Seq<int>,
    /// The seat whose turn it is.
    pub current: int,
    /// Whether the match has ended.
    pub over: bool,
}

/// The exact hands of all seats, in seat order.
pub open spec fn owns_seq(players: Seq<ObserverView>) -> Seq<Seq<int>> {
    Seq::new(players.len(), |i: int| players[i].own->0)
}

/// Total cards held across a run of hands.
pub open spec fn totals_sum(hs: Seq<Seq<int>>) -> int
    decreases hs.len(),
{
    if hs.len() == 0 {
        0
    } else {
        totals_sum(hs.drop_last()) + sum_ints(hs.last())
    }
}

/// Copies of rank `r` held across a run of hands.
pub open spec fn rank_sum(hs: Seq<Seq<int>>, r: int) -> int
    decreases hs.len(),
{
    if hs.len() == 0 {
        0
    } else {
        rank_sum(hs.drop_last(), r) + hs.last()[r]
    }
}

/// How many copies of rank `r` are still in play: in the pool or in a hand.
pub open spec fn rank_count(g: GameView, r: int) -> int {
    g.deck[r] + rank_sum(owns_seq(g.players), r)
}

/// Well-formedness of a match: every seat's belief well-formed and keyed by
/// its index, a hand behind every seat, and every rank either fully in play
/// or fully placed.
pub open spec fn game_wf(g: GameView) -> bool {
    let n = g.players.len() as int;
    &&& 2 <= n <= SUITS * DECK_SIZE
    &&& g.placed.len() == n
    &&& g.deck.len() == DECK_SIZE
    &&& 0 <= g.current < n
    &&& forall|i: int|
        0 <= i < n ==> {
            &&& (#[trigger] g.players[i]).id == i
            &&& g.players[i].own is Some
            &&& g.players[i].others.len() == n - 1
            &&& obs_wf(g.players[i])
        }
    &&& forall|i: int| 0 <= i < n ==> 0 <= #[trigger] g.placed[i]
    &&& forall|r: int| 0 <= r < DECK_SIZE ==> 0 <= #[trigger] g.deck[r]
    &&& forall|r: int|
        0 <= r < DECK_SIZE ==> (#[trigger] rank_count(g, r) == 0 || rank_count(g, r) == SUITS)
}

/// Conservation: the pool, every hand, and four cards per placed book add up
/// to the whole 52-card deck, whatever moves were played.
pub open spec fn conserved(g: GameView) -> bool {
    sum_ints(g.deck) + totals_sum(owns_seq(g.players)) + (SUITS as int) * sum_ints(g.placed) == (
    SUITS * DECK_SIZE) as int
}

pub proof fn lemma_totals_sum_nonneg(hs: Seq<Seq<int>>)
    requires
        forall|k: int|
            0 <= k < hs.len() ==> forall|r: int|
                0 <= r < (#[trigger] hs[k]).len() ==> 0 <= #[trigger] hs[k][r],
        forall|k: int| 0 <= k < hs.len() ==> (#[trigger] hs[k]).len() == DECK_SIZE,
    ensures
        0 <= totals_sum(hs),
    decreases hs.len(),
{
    if hs.len() > 0 {
        lemma_totals_sum_nonneg(hs.drop_last());
        crate::observer::lemma_sum_ints_nonneg(hs.last());
    }
}

pub proof fn lemma_totals_sum_update(hs: Seq<Seq<int>>, k: int, h: Seq<int>)
    requires
        0 <= k < hs.len(),
    ensures
        totals_sum(hs.update(k, h)) == totals_sum(hs) + sum_ints(h) - sum_ints(hs[k]),
    decreases hs.len(),
{
    if k == hs.len() - 1 {
        assert(hs.update(k, h).drop_last() =~= hs.drop_last());
    } else {
        assert(hs.update(k, h).drop_last() =~= hs.drop_last().update(k, h));
        lemma_totals_sum_update(hs.drop_last(), k, h);
    }
}

pub proof fn lemma_rank_sum_nonneg(hs: Seq<Seq<int>>, r: int)
    requires
        forall|k: int| 0 <= k < hs.len() ==> 0 <= #[trigger] hs[k][r],
    ensures
        0 <= rank_sum(hs, r),
    decreases hs.len(),
{
    if hs.len() > 0 {
        lemma_rank_sum_nonneg(hs.drop_last(), r);
    }
}

pub proof fn lemma_rank_sum_update(hs: Seq<Seq<int>>, k: int, h: Seq<int>, r: int)
    requires
        0 <= k < hs.len(),
    ensures
        rank_sum(hs.update(k, h), r) == rank_sum(hs, r) + h[r] - hs[k][r],
    decreases hs.len(),
{
    if k == hs.len() - 1 {
        assert(hs.update(k, h).drop_last() =~= hs.drop_last());
    } else {
        assert(hs.update(k, h).drop_last() =~= hs.drop_last().update(k, h));
        lemma_rank_sum_update(hs.drop_last(), k, h, r);
    }
}

pub proof fn lemma_rank_sum_push(hs: Seq<Seq<int>>, h: Seq<int>, r: int)
    ensures
        rank_sum(hs.push(h), r) == rank_sum(hs, r) + h[r],
        totals_sum(hs.push(h)) == totals_sum(hs) + sum_ints(h),
{
    assert(hs.push(h).drop_last() =~= hs);
    assert(hs.push(h).last() == h);
}

/// One hand's copies of `r` are at most the total in all hands.
pub proof fn lemma_rank_sum_elem(hs: Seq<Seq<int>>, k: int, r: int)
    requires
        0 <= k < hs.len(),
        forall|j: int| 0 <= j < hs.len() ==> 0 <= #[trigger] hs[j][r],
    ensures
        hs[k][r] <= rank_sum(hs, r),
    decreases hs.len(),
{
    if k == hs.len() - 1 {
        lemma_rank_sum_nonneg(hs.drop_last(), r);
    } else {
        lemma_rank_sum_elem(hs.drop_last(), k, r);
    }
}

/// Two distinct hands together hold at most the total of all hands.
pub proof fn lemma_rank_sum_pair(hs: Seq<Seq<int>>, k1: int, k2: int, r: int)
    requires
        0 <= k1 < hs.len(),
        0 <= k2 < hs.len(),
        k1 != k2,
        forall|j: int| 0 <= j < hs.len() ==> 0 <= #[trigger] hs[j][r],
    ensures
        hs[k1][r] + hs[k2][r] <= rank_sum(hs, r),
    decreases hs.len(),
{
    if k1 == hs.len() - 1 {
        lemma_rank_sum_elem(hs.drop_last(), k2, r);
    } else if k2 == hs.len() - 1 {
        lemma_rank_sum_elem(hs.drop_last(), k1, r);
    } else {
        lemma_rank_sum_pair(hs.drop_last(), k1, k2, r);
    }
}

/// Draws a uniformly random card from the pool, weighted by each rank's
/// remaining physical copies; errs exactly when the pool is empty.
pub fn rand_card_from_deck(deck: &KnownDeck) -> (r: Result<usize, GameError>)
    requires
        forall|i: int| 0 <= i < DECK_SIZE ==> #[trigger] deck@[i] <= SUITS,
    ensures
        r is Ok <==> sum_ints(counts_view(*deck)) > 0,
        r matches Ok(c) ==> c < DECK_SIZE && deck@[c as int] > 0,
        r is Err ==> r == Err::<usize, GameError>(GameError::EmptyPoolDraw),
{
    let mut total: usize = 0;
    for i in 0..DECK_SIZE
        invariant
            total == sum_ints(counts_view(*deck).take(i as int)),
            total <= i * SUITS,
            forall|j: int| 0 <= j < DECK_SIZE ==> #[trigger] deck@[j] <= SUITS,
    {
        proof {
            crate::observer::lemma_sum_ints_take(counts_view(*deck), i as int);
        }
        total = total + deck[i];
    }
    proof {
        assert(counts_view(*deck).take(DECK_SIZE as int) =~= counts_view(*deck));
    }
    if total == 0 {
        return Err(GameError::EmptyPoolDraw);
    }
    let pick = rand_range(1, total as u64 + 1) as usize;
    Ok(weighted_pick(deck, pick))
}

/// The rank a 1-based pick lands on when the pool's remaining cards are laid
/// out in rank order: the first rank whose cumulative count reaches the
/// pick.  This is where a draw's randomness turns into a rank, and it is
/// exact: any pick within the pool maps to a rank that still has cards.
pub fn weighted_pick(deck: &KnownDeck, pick: usize) -> (c: usize)
    requires
        forall|i: int| 0 <= i < DECK_SIZE ==> #[trigger] deck@[i] <= SUITS,
        1 <= pick <= sum_ints(counts_view(*deck)),
    ensures
        c < DECK_SIZE,
        deck@[c as int] > 0,
        sum_ints(counts_view(*deck).take(c as int)) < pick,
        pick <= sum_ints(counts_view(*deck).take(c as int + 1)),
{
    let mut sum: usize = 0;
    let mut i: usize = 0;
    while i < DECK_SIZE - 1
        invariant
            i < DECK_SIZE,
            sum == sum_ints(counts_view(*deck).take(i as int)),
            sum < pick,
            sum <= i * SUITS,
            1 <= pick <= sum_ints(counts_view(*deck)),
            forall|j: int| 0 <= j < DECK_SIZE ==> #[trigger] deck@[j] <= SUITS,
        decreases DECK_SIZE - i,
    {
        proof {
            crate::observer::lemma_sum_ints_take(counts_view(*deck), i as int);
        }
        let next = sum + deck[i];
        if pick <= next {
            return i;
        }
        sum = next;
        i = i + 1;
    }
    proof {
        crate::observer::lemma_sum_ints_take(counts_view(*deck), i as int);
        assert(counts_view(*deck).take(DECK_SIZE as int) =~= counts_view(*deck));
    }
    i
}

/// A zero-filled sequence sums to zero.
pub proof fn lemma_sum_ints_zero(s: Seq<int>)
    requires
        forall|i: int| 0 <= i < s.len() ==> #[trigger] s[i] == 0,
    ensures
        sum_ints(s) == 0,
    decreases s.len(),
{
    if s.len() > 0 {
        lemma_sum_ints_zero(s.drop_last());
    }
}

/// The exact hand counts of a run of dealt hands.
pub open spec fn hands_views(hs: Seq<KnownDeck>) -> Seq<Seq<int>> {
    Seq::new(hs.len(), |k: int| counts_view(hs[k]))
}

/// How many fresh deals are tried before the starting hands are rebalanced
/// by hand instead.
const DEAL_RETRIES: usize = 64;

/// Deals `player_count` starting hands at random out of a fresh 52-card
/// pool, uniformly over the remaining physical cards.
fn deal_hands(player_count: usize) -> (out: (Vec<KnownDeck>, KnownDeck))
    requires
        2 <= player_count,
        player_count * STARTING_CARDS <= SUITS * DECK_SIZE,
    ensures
        out.0@.len() == player_count,
        forall|r: int| 0 <= r < DECK_SIZE ==> #[trigger] out.1@[r] <= SUITS,
        forall|r: int|
            0 <= r < DECK_SIZE ==> counts_view(out.1)[r] + rank_sum(hands_views(out.0@), r)
                == SUITS as int,
        forall|k: int|
            0 <= k < player_count ==> sum_ints(#[trigger] hands_views(out.0@)[k])
                == STARTING_CARDS as int,
        totals_sum(hands_views(out.0@)) == (player_count * STARTING_CARDS) as int,
        sum_ints(counts_view(out.1)) + totals_sum(hands_views(out.0@)) == (SUITS * DECK_SIZE) as int,
{
    let mut deck: KnownDeck = [SUITS; DECK_SIZE];
    let mut hands: Vec<KnownDeck> = Vec::new();
    proof {
        crate::observer::lemma_sum_uniform_ints(counts_view(deck), SUITS as int);
        assert(hands_views(hands@) =~= Seq::<Seq<int>>::empty());
    }
    for p in 0..player_count
        invariant
            hands@.len() == p,
            player_count * STARTING_CARDS <= SUITS * DECK_SIZE,
            p <= player_count,
            forall|r: int| 0 <= r < DECK_SIZE ==> #[trigger] deck@[r] <= SUITS,
            forall|r: int|
                0 <= r < DECK_SIZE ==> counts_view(deck)[r] + rank_sum(hands_views(hands@), r)
                    == SUITS as int,
            forall|k: int|
                0 <= k < p ==> sum_ints(#[trigger] hands_views(hands@)[k])
                    == STARTING_CARDS as int,
            totals_sum(hands_views(hands@)) == p * STARTING_CARDS,
            sum_ints(counts_view(deck)) + totals_sum(hands_views(hands@)) == (SUITS
                * DECK_SIZE) as int,
    {
        let mut hand: KnownDeck = [0; DECK_SIZE];
        proof {
            assert(counts_view(hand) =~= Seq::new(DECK_SIZE as nat, |i: int| 0));
            lemma_sum_ints_zero(counts_view(hand));
        }
        for c in 0..STARTING_CARDS
            invariant
                player_count * STARTING_CARDS <= SUITS * DECK_SIZE,
                p < player_count,
                c <= STARTING_CARDS,
                hands@.len() == p,
                forall|r: int| 0 <= r < DECK_SIZE ==> #[trigger] deck@[r] <= SUITS,
                forall|r: int|
                    0 <= r < DECK_SIZE ==> counts_view(deck)[r] + rank_sum(
                        hands_views(hands@),
                        r,
                    ) + counts_view(hand)[r] == SUITS as int,
                forall|k: int|
                    0 <= k < p ==> sum_ints(#[trigger] hands_views(hands@)[k])
                        == STARTING_CARDS as int,
                totals_sum(hands_views(hands@)) == p * STARTING_CARDS,
                sum_ints(counts_view(hand)) == c,
                sum_ints(counts_view(deck)) + totals_sum(hands_views(hands@)) + sum_ints(
                    counts_view(hand),
                ) == (SUITS * DECK_SIZE) as int,
        {
            proof {
                assert(p * STARTING_CARDS + STARTING_CARDS <= player_count * STARTING_CARDS)
                    by (nonlinear_arith)
                    requires
                        p < player_count,
                        p >= 0,
                ;
            }
            let card = match rand_card_from_deck(&deck) {
                Ok(cd) => cd,
                Err(_) => {
                    proof {
                        assert(false);
                    }
                    0
                },
            };
            let ghost hand0 = counts_view(hand);
            let ghost deck0 = counts_view(deck);
            proof {
                assert forall|k2: int|
                    0 <= k2 < hands_views(hands@).len() implies 0 <= #[trigger] hands_views(
                    hands@,
                )[k2][card as int] by {}
                lemma_rank_sum_nonneg(hands_views(hands@), card as int);
                assert(hand0[card as int] < SUITS);
                crate::observer::lemma_sum_ints_nonneg(hand0);
                crate::observer::lemma_sum_ints_update(hand0, card as int, hand0[card as int] + 1);
                crate::observer::lemma_sum_ints_update(deck0, card as int, deck0[card as int] - 1);
            }
            hand[card] = hand[card] + 1;
            deck[card] = deck[card] - 1;
            proof {
                assert(counts_view(hand) =~= hand0.update(card as int, hand0[card as int] + 1));
                assert(counts_view(deck) =~= deck0.update(card as int, deck0[card as int] - 1));
            }
        }
        let ghost views0 = hands_views(hands@);
        hands.push(hand);
        proof {
            assert(hands_views(hands@) =~= views0.push(counts_view(hand)));
            lemma_rank_sum_push(views0, counts_view(hand), 0);
            assert forall|r: int| 0 <= r < DECK_SIZE implies rank_sum(
                hands_views(hands@),
                r,
            ) == rank_sum(views0, r) + counts_view(hand)[r] by {
                lemma_rank_sum_push(views0, counts_view(hand), r);
            }
            assert((p + 1) * STARTING_CARDS == p * STARTING_CARDS + STARTING_CARDS)
                by (nonlinear_arith);
        }
    }
    (hands, deck)
}

/// Does any dealt hand already hold all four copies of some rank?
pub open spec fn spec_has_book(hs: Seq<KnownDeck>) -> bool {
    exists|k: int, r: int| 0 <= k < hs.len() && 0 <= r < DECK_SIZE && (hs[k])@[r] >= SUITS
}

fn has_starting_book(hands: &Vec<KnownDeck>) -> (b: bool)
    ensures
        b == spec_has_book(hands@),
{
    let n = hands.len();
    let mut k: usize = 0;
    while k < n
        invariant
            k <= n,
            n == hands@.len(),
            forall|k2: int, r2: int|
                0 <= k2 < k && 0 <= r2 < DECK_SIZE ==> (#[trigger] hands@[k2]@[r2]) < SUITS,
        decreases n - k,
    {
        let mut r: usize = 0;
        while r < DECK_SIZE
            invariant
                k < n,
                n == hands@.len(),
                r <= DECK_SIZE,
                forall|r2: int| 0 <= r2 < r ==> (#[trigger] hands@[k as int]@[r2]) < SUITS,
            decreases DECK_SIZE - r,
        {
            let h: KnownDeck = hands[k];
            if h[r] >= SUITS {
                return true;
            }
            r = r + 1;
        }
        k = k + 1;
    }
    false
}

/// Bounds how much of the pool a hand that kept a whole book can block: at
/// most one pool card can sit in each rank the hand already holds three of,
/// and the booked rank has none, so a hand of `STARTING_CARDS` cards cannot
/// cover two or more pool cards.
proof fn lemma_swap_prefix(deck: Seq<int>, hand: Seq<int>, r: int, m: int)
    requires
        deck.len() == DECK_SIZE,
        hand.len() == DECK_SIZE,
        0 <= m <= DECK_SIZE,
        0 <= r < DECK_SIZE,
        forall|s: int| 0 <= s < DECK_SIZE ==> 0 <= #[trigger] deck[s] <= 1,
        forall|s: int| 0 <= s < DECK_SIZE ==> 0 <= #[trigger] hand[s],
        forall|s: int| 0 <= s < DECK_SIZE ==> ((#[trigger] deck[s]) >= 1 ==> hand[s] >= 3),
        hand[r] == SUITS as int,
        deck[r] == 0,
    ensures
        3 * sum_ints(deck.take(m)) + (if r < m {
            SUITS as int
        } else {
            0
        }) <= sum_ints(hand.take(m)),
    decreases m,
{
    if m > 0 {
        lemma_swap_prefix(deck, hand, r, m - 1);
        crate::observer::lemma_sum_ints_take(deck, m - 1);
        crate::observer::lemma_sum_ints_take(hand, m - 1);
    }
}

/// When a dealt hand still holds a whole book of `r` and the pool has two or
/// more cards, some rank the hand can still absorb has pool cards left:
/// otherwise the hand would need more than its `STARTING_CARDS` cards.
proof fn lemma_swap_rank_exists(deck: Seq<int>, hs: Seq<Seq<int>>, k: int, r: int)
    requires
        deck.len() == DECK_SIZE,
        0 <= k < hs.len(),
        hs[k].len() == DECK_SIZE,
        forall|s: int| 0 <= s < DECK_SIZE ==> 0 <= #[trigger] deck[s],
        forall|j: int, s: int| 0 <= j < hs.len() && 0 <= s < DECK_SIZE ==> 0 <= #[trigger] hs[j][s],
        forall|s: int| 0 <= s < DECK_SIZE ==> deck[s] + #[trigger] rank_sum(hs, s) == SUITS as int,
        sum_ints(hs[k]) == STARTING_CARDS as int,
        0 <= r < DECK_SIZE,
        hs[k][r] == SUITS as int,
        sum_ints(deck) >= 2,
    ensures
        exists|s: int| 0 <= s < DECK_SIZE && deck[s] >= 1 && hs[k][s] + 2 <= SUITS,
{
    let hand = hs[k];
    assert_by_contradiction!(exists|s: int|
        0 <= s < DECK_SIZE && deck[s] >= 1 && hs[k][s] + 2 <= SUITS, {
        assert forall|s: int| 0 <= s < DECK_SIZE implies 0 <= #[trigger] deck[s] <= 1 by {
            if deck[s] >= 1 {
                assert(!(0 <= s < DECK_SIZE && deck[s] >= 1 && hs[k][s] + 2 <= SUITS));
                assert(hand[s] >= 3);
                assert forall|j: int| 0 <= j < hs.len() implies 0 <= #[trigger] hs[j][s] by {}
                lemma_rank_sum_elem(hs, k, s);
            }
        }
        assert forall|s: int|
            0 <= s < DECK_SIZE implies ((#[trigger] deck[s]) >= 1 ==> hand[s] >= 3) by {
            if deck[s] >= 1 {
                assert(!(0 <= s < DECK_SIZE && deck[s] >= 1 && hs[k][s] + 2 <= SUITS));
            }
        }
        assert forall|j: int| 0 <= j < hs.len() implies 0 <= #[trigger] hs[j][r] by {}
        lemma_rank_sum_elem(hs, k, r);
        assert(deck[r] == 0);
        lemma_swap_prefix(deck, hand, r, DECK_SIZE as int);
        assert(deck.take(DECK_SIZE as int) =~= deck);
        assert(hand.take(DECK_SIZE as int) =~= hand);
    });
}

/// Swaps one card of every completed starting book for a pool card of a rank
/// the hand can still absorb, so that no starting hand keeps a finished book
/// while every hand keeps its size and the pool its count.  Reached only
/// when repeated re-deals kept producing a book.
fn rebalance(hands: &mut Vec<KnownDeck>, deck: &mut KnownDeck)
    requires
        forall|r: int| 0 <= r < DECK_SIZE ==> #[trigger] old(deck)@[r] <= SUITS,
        forall|r: int|
            0 <= r < DECK_SIZE ==> counts_view(*old(deck))[r] + rank_sum(
                hands_views(old(hands)@),
                r,
            ) == SUITS as int,
        forall|k: int|
            0 <= k < old(hands)@.len() ==> sum_ints(#[trigger] hands_views(old(hands)@)[k])
                == STARTING_CARDS as int,
        sum_ints(counts_view(*old(deck))) >= 2,
    ensures
        final(hands)@.len() == old(hands)@.len(),
        forall|r: int| 0 <= r < DECK_SIZE ==> #[trigger] final(deck)@[r] <= SUITS,
        forall|r: int|
            0 <= r < DECK_SIZE ==> counts_view(*final(deck))[r] + rank_sum(
                hands_views(final(hands)@),
                r,
            ) == SUITS as int,
        forall|k: int, r: int|
            0 <= k < final(hands)@.len() && 0 <= r < DECK_SIZE
                ==> (#[trigger] final(hands)@[k]@[r]) < SUITS,
        forall|k: int|
            0 <= k < final(hands)@.len() ==> sum_ints(#[trigger] hands_views(final(hands)@)[k])
                == STARTING_CARDS as int,
        sum_ints(counts_view(*final(deck))) == sum_ints(counts_view(*old(deck))),
        totals_sum(hands_views(final(hands)@)) == totals_sum(hands_views(old(hands)@)),
{
    let n = hands.len();
    let mut k: usize = 0;
    while k < n
        invariant
            k <= n,
            n == hands@.len(),
            forall|r: int| 0 <= r < DECK_SIZE ==> #[trigger] deck@[r] <= SUITS,
            forall|r: int|
                0 <= r < DECK_SIZE ==> counts_view(*deck)[r] + rank_sum(hands_views(hands@), r)
                    == SUITS as int,
            forall|k2: int|
                0 <= k2 < n ==> sum_ints(#[trigger] hands_views(hands@)[k2])
                    == STARTING_CARDS as int,
            forall|k2: int, r2: int|
                0 <= k2 < k && 0 <= r2 < DECK_SIZE ==> (#[trigger] hands@[k2]@[r2]) < SUITS,
            sum_ints(counts_view(*deck)) == sum_ints(counts_view(*old(deck))),
            sum_ints(counts_view(*old(deck))) >= 2,
            totals_sum(hands_views(hands@)) == totals_sum(hands_views(old(hands)@)),
        decreases n - k,
    {
        let mut r: usize = 0;
        while r < DECK_SIZE
            invariant
                k < n,
                n == hands@.len(),
                r <= DECK_SIZE,
                forall|r2: int| 0 <= r2 < DECK_SIZE ==> #[trigger] deck@[r2] <= SUITS,
                forall|r2: int|
                    0 <= r2 < DECK_SIZE ==> counts_view(*deck)[r2] + rank_sum(
                        hands_views(hands@),
                        r2,
                    ) == SUITS as int,
                forall|k2: int|
                    0 <= k2 < n ==> sum_ints(#[trigger] hands_views(hands@)[k2])
                        == STARTING_CARDS as int,
                forall|k2: int, r2: int|
                    0 <= k2 < k && 0 <= r2 < DECK_SIZE ==> (#[trigger] hands@[k2]@[r2]) < SUITS,
                forall|r2: int| 0 <= r2 < r ==> (#[trigger] hands@[k as int]@[r2]) < SUITS,
                sum_ints(counts_view(*deck)) == sum_ints(counts_view(*old(deck))),
                sum_ints(counts_view(*old(deck))) >= 2,
                totals_sum(hands_views(hands@)) == totals_sum(hands_views(old(hands)@)),
            decreases DECK_SIZE - r,
        {
            let h: KnownDeck = hands[k];
            if h[r] >= SUITS {
                let ghost views0 = hands_views(hands@);
                let ghost deck0 = counts_view(*deck);
                let ghost h0 = counts_view(h);
                proof {
                    assert forall|j: int, s: int|
                        0 <= j < views0.len() && 0 <= s < DECK_SIZE implies 0 <= #[trigger] views0[j][s] by {}
                    lemma_rank_sum_elem(views0, k as int, r as int);
                    assert(deck0[r as int] == 0);
                }
                // find a rank with pool cards left that this hand can absorb
                let mut s: usize = 0;
                let mut swap_rank: usize = 0;
                let mut have: bool = false;
                while s < DECK_SIZE
                    invariant
                        s <= DECK_SIZE,
                        k < n,
                        n == hands@.len(),
                        !have ==> forall|s2: int|
                            0 <= s2 < s ==> !((#[trigger] deck@[s2]) >= 1
                                && hands@[k as int]@[s2] + 2 <= SUITS),
                        have ==> swap_rank < DECK_SIZE && deck@[swap_rank as int] >= 1
                            && hands@[k as int]@[swap_rank as int] + 2 <= SUITS,
                    decreases DECK_SIZE - s,
                {
                    let hk: KnownDeck = hands[k];
                    if !have && deck[s] >= 1 && hk[s] <= SUITS - 2 {
                        swap_rank = s;
                        have = true;
                    }
                    s = s + 1;
                }
                proof {
                    if !have {
                        lemma_swap_rank_exists(deck0, views0, k as int, r as int);
                    }
                }
                let mut h2 = h;
                h2[r] = h2[r] - 1;
                h2[swap_rank] = h2[swap_rank] + 1;
                hands[k] = h2;
                deck[r] = deck[r] + 1;
                deck[swap_rank] = deck[swap_rank] - 1;
                proof {
                    let h2v = counts_view(h2);
                    let ri = r as int;
                    let si = swap_rank as int;
                    assert(si != ri);
                    assert(h2v =~= h0.update(ri, h0[ri] - 1).update(si, h0[si] + 1));
                    assert(hands_views(hands@) =~= views0.update(k as int, h2v));
                    assert(counts_view(*deck) =~= deck0.update(ri, deck0[ri] + 1).update(
                        si,
                        deck0[si] - 1,
                    ));
                    crate::observer::lemma_sum_ints_update(deck0, ri, deck0[ri] + 1);
                    crate::observer::lemma_sum_ints_update(
                        deck0.update(ri, deck0[ri] + 1),
                        si,
                        deck0[si] - 1,
                    );
                    crate::observer::lemma_sum_ints_update(h0, ri, h0[ri] - 1);
                    crate::observer::lemma_sum_ints_update(
                        h0.update(ri, h0[ri] - 1),
                        si,
                        h0[si] + 1,
                    );
                    lemma_totals_sum_update(views0, k as int, h2v);
                    assert forall|r2: int| 0 <= r2 < DECK_SIZE implies counts_view(*deck)[r2]
                        + rank_sum(hands_views(hands@), r2) == SUITS as int by {
                        lemma_rank_sum_update(views0, k as int, h2v, r2);
                    }
                }
            }
            r = r + 1;
        }
        k = k + 1;
    }
}

/// Is `m` resolvable for the active seat: within bounds, and legal by that
/// seat's own belief?
pub open spec fn applicable(g: GameView, m: Move) -> bool {
    match m {
        Move::Pickup => spec_move_is_legal(g.players[g.current], m),
        Move::Query(q) => q.card < DECK_SIZE && q.player < g.players.len() && spec_move_is_legal(
            g.players[g.current],
            m,
        ),
    }
}

/// The first candidate of the policy's ranking that the active seat may
/// play, or `None` when the whole ranking is illegal.
pub open spec fn chosen_move(g: GameView, ids: Seq<usize>) -> Option<Move>
    decreases ids.len(),
{
    if ids.len() == 0 {
        None
    } else {
        let m = spec_move_from_id(g.players.len() - 1, ids[0] as int);
        if applicable(g, m) {
            Some(m)
        } else {
            chosen_move(g, ids.drop_first())
        }
    }
}

/// The match, ended: nothing changed but the flag.
pub open spec fn finish_spec(g: GameView) -> GameView {
    GameView { players: g.players, placed: g.placed, deck: g.deck, current: g.current, over: true }
}

/// The match after the active seat draws `card` from the pool: the drawer
/// learns the rank, every other seat sees only that one card left the pool,
/// and the turn advances.
pub open spec fn resolve_draw_spec(g: GameView, card: int) -> GameView {
    let n = g.players.len() as int;
    let c = g.current;
    let placed_now = g.players[c].own->0[card] == (SUITS - 1) as int;
    GameView {
        players: Seq::new(
            n as nat,
            |i: int|
                if i == c {
                    self_pickup_spec(g.players[i], card)
                } else {
                    pickup_spec(g.players[i], spec_abs_to_rel(i, c))
                },
        ),
        placed: if placed_now {
            g.placed.update(c, g.placed[c] + 1)
        } else {
            g.placed
        },
        deck: g.deck.update(card, g.deck[card] - 1),
        current: (c + 1) % n,
        over: g.over,
    }
}

/// The match after the active seat asks `target` for `card`: the actor and
/// the target settle the transfer exactly; bystanders hear of the exchange
/// only when cards actually moved; the turn advances.
pub open spec fn resolve_ask_spec(g: GameView, target: int, card: int) -> GameView {
    let n = g.players.len() as int;
    let c = g.current;
    let amount = g.players[target].own->0[card];
    let placed = g.players[c].own->0[card] + amount == SUITS as int;
    GameView {
        players: Seq::new(
            n as nat,
            |i: int|
                if i == c {
                    self_query_spec(g.players[i], spec_abs_to_rel(c, target), card, amount)
                } else if amount > 0 && i == target {
                    self_give_all_spec(g.players[i], spec_abs_to_rel(i, c), card).0
                } else if amount > 0 {
                    query_spec(
                        g.players[i],
                        spec_abs_to_rel(i, c),
                        spec_abs_to_rel(i, target),
                        card,
                        amount,
                        placed,
                    ).0
                } else {
                    g.players[i]
                },
        ),
        placed: if placed {
            g.placed.update(c, g.placed[c] + 1)
        } else {
            g.placed
        },
        deck: g.deck,
        current: (c + 1) % n,
        over: g.over,
    }
}

/// A match: the ground truth and one honest observer per seat.
#[derive(Debug)]
pub struct BotGame {
    /// One belief-tracking observer per seat; `players[i].own_deck` is seat
    /// `i`'s ground-truth hand.
    pub players: Vec<GameObserver>,
    /// Books placed so far, per seat; the fitness the training collaborator
    /// reads after a match.
    pub number_placed: Vec<usize>,
    /// The ground-truth face-down pool.
    pub deck: KnownDeck,
    /// The seat whose turn it is.
    pub current_player: usize,
    /// Set once the active seat had no legal candidate move.
    pub over: bool,
}

impl View for BotGame {
    type V = GameView;

    open spec fn view(&self) -> GameView {
        GameView {
            players: Seq::new(self.players@.len(), |i: int| self.players@[i]@),
            placed: Seq::new(self.number_placed@.len(), |i: int| self.number_placed@[i] as int),
            deck: counts_view(self.deck),
            current: self.current_player as int,
            over: self.over,
        }
    }
}

impl BotGame {
    /// Creates a match of `player_count` seats with randomly dealt starting
    /// hands; a deal that hands any seat a finished book is retried whole.
    pub fn new_rand(player_count: usize) -> (g: BotGame)
        requires
            2 <= player_count,
            player_count * STARTING_CARDS <= SUITS * DECK_SIZE,
        ensures
            game_wf(g@),
            conserved(g@),
            g@.players.len() == player_count,
            g@.current == 0,
            !g@.over,
            forall|i: int| 0 <= i < player_count ==> #[trigger] g@.placed[i] == 0,
            forall|i: int|
                0 <= i < player_count ==> sum_ints((#[trigger] g@.players[i]).own->0)
                    == STARTING_CARDS as int,
            sum_ints(g@.deck) == (SUITS * DECK_SIZE) as int - (player_count
                * STARTING_CARDS) as int,
            forall|i: int|
                0 <= i < player_count ==> #[trigger] g@.players[i] == observer_new_spec(
                    (player_count - 1) as int,
                    g@.players[i].own,
                    i,
                ),
    {
        let dealt = deal_hands(player_count);
        let mut hands = dealt.0;
        let mut deck = dealt.1;
        let mut clean = !has_starting_book(&hands);
        let mut tries: usize = 0;
        while !clean && tries < DEAL_RETRIES
            invariant
                hands@.len() == player_count,
                2 <= player_count,
                player_count * STARTING_CARDS <= SUITS * DECK_SIZE,
                clean <==> !spec_has_book(hands@),
                forall|r: int| 0 <= r < DECK_SIZE ==> #[trigger] deck@[r] <= SUITS,
                forall|r: int|
                    0 <= r < DECK_SIZE ==> counts_view(deck)[r] + rank_sum(hands_views(hands@), r)
                        == SUITS as int,
                forall|k: int|
                    0 <= k < player_count ==> sum_ints(#[trigger] hands_views(hands@)[k])
                        == STARTING_CARDS as int,
                totals_sum(hands_views(hands@)) == (player_count * STARTING_CARDS) as int,
                sum_ints(counts_view(deck)) + totals_sum(hands_views(hands@)) == (SUITS
                    * DECK_SIZE) as int,
            decreases DEAL_RETRIES - tries,
        {
            let fresh = deal_hands(player_count);
            hands = fresh.0;
            deck = fresh.1;
            clean = !has_starting_book(&hands);
            tries = tries + 1;
        }
        proof {
            assert(player_count <= 7);
            assert(sum_ints(counts_view(deck)) == (SUITS * DECK_SIZE) as int - (
            player_count * STARTING_CARDS) as int);
            assert(sum_ints(counts_view(deck)) >= 3);
        }
        if !clean {
            rebalance(&mut hands, &mut deck);
        }
        proof {
            assert forall|k: int, r: int|
                0 <= k < hands@.len() && 0 <= r < DECK_SIZE implies (#[trigger] hands@[k]@[r])
                < SUITS by {}
        }
        let mut players: Vec<GameObserver> = Vec::new();
        let mut number_placed: Vec<usize> = Vec::new();
        let mut i: usize = 0;
        while i < player_count
            invariant
                i <= player_count,
                2 <= player_count <= SUITS * DECK_SIZE,
                hands@.len() == player_count,
                players@.len() == i,
                number_placed@.len() == i,
                forall|k: int, r: int|
                    0 <= k < player_count && 0 <= r < DECK_SIZE ==> (#[trigger] hands@[k]@[r])
                        < SUITS,
                forall|j: int|
                    0 <= j < i ==> {
                        &&& (#[trigger] players@[j]@).id == j
                        &&& players@[j]@.own == Some(counts_view(hands@[j]))
                        &&& players@[j]@.others.len() == player_count - 1
                        &&& obs_wf(players@[j]@)
                        &&& players@[j]@ == observer_new_spec(
                            (player_count - 1) as int,
                            players@[j]@.own,
                            j,
                        )
                    },
                forall|k: int|
                    0 <= k < player_count ==> sum_ints(#[trigger] hands_views(hands@)[k])
                        == STARTING_CARDS as int,
                forall|j: int| 0 <= j < i ==> #[trigger] number_placed@[j] == 0,
            decreases player_count - i,
        {
            let h: KnownDeck = hands[i];
            let ob = GameObserver::new(player_count - 1, Some(h), i);
            players.push(ob);
            number_placed.push(0);
            i = i + 1;
        }
        let g = BotGame { players, number_placed, deck, current_player: 0, over: false };
        proof {
            assert(owns_seq(g@.players) =~= hands_views(hands@));
            assert forall|r: int|
                0 <= r < DECK_SIZE implies #[trigger] rank_count(g@, r) == SUITS by {}
            lemma_sum_ints_zero(g@.placed);
            assert forall|i: int|
                0 <= i < player_count implies sum_ints((#[trigger] g@.players[i]).own->0)
                    == STARTING_CARDS as int by {
                assert(g@.players[i].own == Some(counts_view(hands@[i])));
                assert(hands_views(hands@)[i] == counts_view(hands@[i]));
                assert(sum_ints(hands_views(hands@)[i]) == STARTING_CARDS as int);
            }
        }
        g
    }

    /// Walks the policy's ranking in order and returns the first move the
    /// active seat may play, or `None` when no candidate is legal.
    fn pick_move(&self, ranking: &Vec<usize>) -> (m: Option<Move>)
        requires
            game_wf(self@),
        ensures
            m == chosen_move(self@, ranking@),
    {
        let n_others = self.players.len() - 1;
        let mut idx: usize = 0;
        proof {
            assert(ranking@.skip(0) =~= ranking@);
        }
        while idx < ranking.len()
            invariant
                idx <= ranking@.len(),
                game_wf(self@),
                n_others == self@.players.len() - 1,
                chosen_move(self@, ranking@) == chosen_move(self@, ranking@.skip(idx as int)),
            decreases ranking@.len() - idx,
        {
            let ghost rest = ranking@.skip(idx as int);
            proof {
                assert(rest[0] == ranking@[idx as int]);
            }
            let mv = Move::from_id(n_others, ranking[idx]);
            let app = match mv {
                Move::Pickup => self.players[self.current_player].move_is_legal(&mv),
                Move::Query(q) => {
                    if q.card < DECK_SIZE && q.player < self.players.len() {
                        self.players[self.current_player].move_is_legal(&mv)
                    } else {
                        false
                    }
                },
            };
            proof {
                assert(app == applicable(self@, mv));
            }
            if app {
                return Some(mv);
            }
            idx = idx + 1;
            proof {
                assert(rest.drop_first() =~= ranking@.skip(idx as int));
            }
        }
        proof {
            assert(ranking@.skip(ranking@.len() as int) =~= Seq::<usize>::empty());
        }
        None
    }

    /// Resolves a draw for the active seat: samples a rank uniformly over the
    /// physical cards left, moves it into the drawer's hand, and tells every
    /// other seat that one unseen card left the pool.  Errs exactly when the
    /// ground-truth pool is empty, leaving the match untouched.
    fn resolve_draw(&mut self) -> (r: Result<(), GameError>)
        requires
            game_wf(old(self)@),
            conserved(old(self)@),
        ensures
            r is Ok <==> sum_ints(old(self)@.deck) > 0,
            r is Err ==> r == Err::<(), GameError>(GameError::EmptyPoolDraw) && final(self)@
                == old(self)@,
            r is Ok ==> exists|card: int|
                0 <= card < DECK_SIZE && old(self)@.deck[card] > 0 && final(self)@
                    == resolve_draw_spec(old(self)@, card),
            game_wf(final(self)@),
            conserved(final(self)@),
    {
        let ghost g0 = self@;
        let n = self.players.len();
        let cur = self.current_player;
        proof {
            assert forall|i: int| 0 <= i < DECK_SIZE implies #[trigger] self.deck@[i] <= SUITS by {
                assert forall|k: int|
                    0 <= k < owns_seq(g0.players).len() implies 0 <= #[trigger] owns_seq(
                    g0.players,
                )[k][i] by {}
                lemma_rank_sum_nonneg(owns_seq(g0.players), i);
                assert(rank_count(g0, i) == 0 || rank_count(g0, i) == SUITS);
            }
            crate::observer::lemma_sum_ints_nonneg(counts_view(self.deck));
        }
        let card = match rand_card_from_deck(&self.deck) {
            Ok(c) => c,
            Err(e) => {
                return Err(e);
            },
        };
        let ghost deck0 = counts_view(self.deck);
        let ghost own0 = g0.players[cur as int].own->0;
        self.deck[card] = self.deck[card] - 1;
        proof {
            assert(counts_view(self.deck) =~= deck0.update(card as int, deck0[card as int] - 1));
            crate::observer::lemma_sum_ints_update(deck0, card as int, deck0[card as int] - 1);
        }
        proof {
            assert(obs_wf(g0.players[cur as int]));
            assert(g0.players[cur as int].own is Some);
            assert(0 <= own0[card as int] < SUITS);
        }
        self.players[cur].self_pickup(card);
        let ghost actor1 = self_pickup_spec(g0.players[cur as int], card as int);
        proof {
            assert(self.players@[cur as int]@ == actor1);
            assert forall|j: int|
                0 <= j < n implies obs_wf(#[trigger] self.players@[j]@)
                    && self.players@[j]@.others.len() == n - 1 by {
                if j != cur {
                    assert(self.players@[j]@ == g0.players[j]);
                    assert(obs_wf(g0.players[j]));
                }
            }
        }
        let placed_now = match self.players[cur].own_deck {
            Some(h) => h[card] == 0,
            None => false,
        };
        let ghost placed_spec = own0[card as int] == (SUITS - 1) as int;
        proof {
            assert(actor1.own->0[card as int] == 0 <==> own0[card as int] + 1 == SUITS);
            assert(placed_now == placed_spec);
        }
        if placed_now {
            proof {
                assert forall|k: int|
                    0 <= k < g0.placed.len() implies 0 <= #[trigger] g0.placed[k] by {}
                crate::observer::lemma_sum_ints_elem(g0.placed, cur as int);
                assert forall|k: int|
                    0 <= k < owns_seq(g0.players).len() implies forall|r2: int|
                        0 <= r2 < (#[trigger] owns_seq(g0.players)[k]).len() ==> 0 <= #[trigger] owns_seq(
                            g0.players,
                        )[k][r2] by {}
                lemma_totals_sum_nonneg(owns_seq(g0.players));
                crate::observer::lemma_sum_ints_nonneg(g0.placed);
            }
            let p = self.number_placed[cur];
            self.number_placed[cur] = p + 1;
        }
        let ghost placed1 = if placed_spec {
            g0.placed.update(cur as int, g0.placed[cur as int] + 1)
        } else {
            g0.placed
        };
        proof {
            assert(Seq::new(
                self.number_placed@.len(),
                |i: int| self.number_placed@[i] as int,
            ) =~= placed1);
        }
        let mut i: usize = 0;
        while i < n
            invariant
                i <= n,
                n == g0.players.len(),
                cur == g0.current,
                0 <= cur < n,
                card < DECK_SIZE,
                game_wf(g0),
                self.players@.len() == n,
                counts_view(self.deck) == deck0.update(card as int, deck0[card as int] - 1),
                Seq::new(self.number_placed@.len(), |k: int| self.number_placed@[k] as int)
                    == placed1,
                self.current_player == cur,
                self.over == g0.over,
                self.players@[cur as int]@ == actor1,
                obs_wf(actor1),
                actor1.others.len() == n - 1,
                forall|j: int|
                    0 <= j < n && j != cur && j < i ==> #[trigger] self.players@[j]@
                        == pickup_spec(g0.players[j], spec_abs_to_rel(j, cur as int)),
                forall|j: int|
                    0 <= j < n && j != cur && j >= i ==> #[trigger] self.players@[j]@
                        == g0.players[j],
                forall|j: int|
                    0 <= j < n ==> obs_wf(#[trigger] self.players@[j]@) && self.players@[j]@.others.len()
                        == n - 1,
            decreases n - i,
        {
            if i != cur {
                let rel = absolute_to_relative(i, cur);
                self.players[i].pickup(rel);
            }
            i = i + 1;
        }
        self.current_player = (cur + 1) % n;
        proof {
            let gd = resolve_draw_spec(g0, card as int);
            assert(self@.players =~= gd.players);
            assert(self@.placed =~= gd.placed);
            assert(self@.deck =~= gd.deck);
            assert(self@ =~= gd);
            lemma_draw_keeps_invariants(g0, card as int);
            assert forall|j: int|
                0 <= j < n implies {
                    &&& (#[trigger] gd.players[j]).id == j
                    &&& gd.players[j].own is Some
                    &&& gd.players[j].others.len() == n - 1
                    &&& obs_wf(gd.players[j])
                } by {
                assert(gd.players[j] == self@.players[j]);
            }
        }
        Ok(())
    }

    /// Resolves an ask by the active seat against ground truth: the actor and
    /// the target settle the transfer exactly — a miss still tells the actor
    /// the target is empty for that rank — while bystanders hear of the
    /// exchange only when cards actually moved; the turn advances.
    fn resolve_ask(&mut self, target: usize, card: usize)
        requires
            game_wf(old(self)@),
            conserved(old(self)@),
            target < old(self)@.players.len(),
            card < DECK_SIZE,
            target != old(self)@.current,
            old(self)@.players[old(self)@.current].own->0[card as int] > 0,
        ensures
            final(self)@ == resolve_ask_spec(old(self)@, target as int, card as int),
            game_wf(final(self)@),
            conserved(final(self)@),
    {
        let ghost g0 = self@;
        let n = self.players.len();
        let cur = self.current_player;
        let ghost owns0 = owns_seq(g0.players);
        let ghost own_c0 = g0.players[cur as int].own->0;
        let ghost own_t0 = g0.players[target as int].own->0;
        proof {
            assert(obs_wf(g0.players[target as int]));
            assert(obs_wf(g0.players[cur as int]));
            assert(g0.players[target as int].own is Some);
            assert(g0.players[cur as int].own is Some);
            assert(0 <= own_t0[card as int] < SUITS);
            assert(0 <= own_c0[card as int] < SUITS);
            assert forall|k: int|
                0 <= k < owns0.len() implies 0 <= #[trigger] owns0[k][card as int] by {}
            lemma_rank_sum_pair(owns0, cur as int, target as int, card as int);
            lemma_rank_sum_nonneg(owns0, card as int);
            if own_t0[card as int] > 0 {
                assert(rank_count(g0, card as int) == SUITS);
            }
            assert(own_c0[card as int] + own_t0[card as int] <= SUITS);
        }
        let amount = match self.players[target].own_deck {
            Some(h) => h[card],
            None => 0,
        };
        proof {
            assert(amount == own_t0[card as int]);
        }
        let rel_t = absolute_to_relative(cur, target);
        self.players[cur].self_query(rel_t, card, amount);
        let ghost actor1 = self_query_spec(
            g0.players[cur as int],
            spec_abs_to_rel(cur as int, target as int),
            card as int,
            amount as int,
        );
        proof {
            assert(self.players@[cur as int]@ == actor1);
            assert forall|j: int|
                0 <= j < n implies obs_wf(#[trigger] self.players@[j]@)
                    && self.players@[j]@.others.len() == n - 1 by {
                if j != cur {
                    assert(self.players@[j]@ == g0.players[j]);
                    assert(obs_wf(g0.players[j]));
                }
            }
        }
        let placed = match self.players[cur].own_deck {
            Some(h) => h[card] == 0,
            None => false,
        };
        let ghost placed_spec = own_c0[card as int] + amount == SUITS as int;
        proof {
            assert(actor1.own->0[card as int] == 0 <==> placed_spec);
            assert(placed == placed_spec);
        }
        if placed {
            proof {
                assert forall|k: int|
                    0 <= k < g0.placed.len() implies 0 <= #[trigger] g0.placed[k] by {}
                crate::observer::lemma_sum_ints_elem(g0.placed, cur as int);
                assert forall|k: int|
                    0 <= k < owns0.len() implies forall|r2: int|
                        0 <= r2 < (#[trigger] owns0[k]).len() ==> 0 <= #[trigger] owns0[k][r2] by {}
                lemma_totals_sum_nonneg(owns0);
                crate::observer::lemma_sum_ints_nonneg(g0.placed);
                crate::observer::lemma_sum_ints_nonneg(g0.deck);
            }
            let p = self.number_placed[cur];
            self.number_placed[cur] = p + 1;
        }
        let ghost placed1 = if placed_spec {
            g0.placed.update(cur as int, g0.placed[cur as int] + 1)
        } else {
            g0.placed
        };
        proof {
            assert(Seq::new(
                self.number_placed@.len(),
                |i: int| self.number_placed@[i] as int,
            ) =~= placed1);
        }
        let ghost target1 = self_give_all_spec(
            g0.players[target as int],
            spec_abs_to_rel(target as int, cur as int),
            card as int,
        ).0;
        if amount > 0 {
            let rel_c = absolute_to_relative(target, cur);
            proof {
                assert(self.players@[target as int]@ == g0.players[target as int]);
                assert(self_give_all_spec(
                    g0.players[target as int],
                    spec_abs_to_rel(target as int, cur as int),
                    card as int,
                ).1);
            }
            let res = self.players[target].self_give_all(rel_c, card);
            match res {
                Ok(()) => {},
                Err(_) => {
                    proof {
                        assert(false);
                    }
                },
            }
            proof {
                assert(self.players@[target as int]@ == target1);
            }
            let mut i: usize = 0;
            while i < n
                invariant
                    i <= n,
                    n == g0.players.len(),
                    cur == g0.current,
                    0 <= cur < n,
                    target < n,
                    target != cur,
                    card < DECK_SIZE,
                    game_wf(g0),
                    1 <= amount <= 3,
                    amount == own_t0[card as int],
                    own_t0 == g0.players[target as int].own->0,
                    own_c0 == g0.players[cur as int].own->0,
                    1 <= own_c0[card as int],
                    own_c0[card as int] + amount <= SUITS,
                    placed == placed_spec,
                    placed_spec == (own_c0[card as int] + amount == SUITS as int),
                    self.players@.len() == n,
                    counts_view(self.deck) == g0.deck,
                    Seq::new(self.number_placed@.len(), |k: int| self.number_placed@[k] as int)
                        == placed1,
                    self.current_player == cur,
                    self.over == g0.over,
                    self.players@[cur as int]@ == actor1,
                    self.players@[target as int]@ == target1,
                    forall|j: int|
                        0 <= j < n && j != cur && j != target && j < i ==> #[trigger] self.players@[j]@
                            == query_spec(
                            g0.players[j],
                            spec_abs_to_rel(j, cur as int),
                            spec_abs_to_rel(j, target as int),
                            card as int,
                            amount as int,
                            placed_spec,
                        ).0,
                    forall|j: int|
                        0 <= j < n && j != cur && j != target && j >= i
                            ==> #[trigger] self.players@[j]@ == g0.players[j],
                    forall|j: int|
                        0 <= j < n ==> obs_wf(#[trigger] self.players@[j]@)
                            && self.players@[j]@.others.len() == n - 1,
                decreases n - i,
            {
                if i != cur && i != target {
                    let rc = absolute_to_relative(i, cur);
                    let rt = absolute_to_relative(i, target);
                    proof {
                        if amount == 3 {
                            assert(own_c0[card as int] == 1);
                            assert(placed_spec);
                        }
                        assert(query_spec(
                            g0.players[i as int],
                            spec_abs_to_rel(i as int, cur as int),
                            spec_abs_to_rel(i as int, target as int),
                            card as int,
                            amount as int,
                            placed_spec,
                        ).1);
                    }
                    let qr = self.players[i].query(rc, rt, card, amount, placed);
                    match qr {
                        Ok(()) => {},
                        Err(_) => {
                            proof {
                                assert(false);
                            }
                        },
                    }
                }
                i = i + 1;
            }
        }
        self.current_player = (cur + 1) % n;
        proof {
            let ga = resolve_ask_spec(g0, target as int, card as int);
            if amount == 0 {
                let h1 = own_c0.update(card as int, own_c0[card as int] + 0);
                assert(h1 =~= own_c0);
                assert(actor1.own =~= g0.players[cur as int].own);
            }
            assert(self@.players =~= ga.players);
            assert(self@.placed =~= ga.placed);
            assert(self@.deck =~= ga.deck);
            assert(self@ =~= ga);
            lemma_ask_keeps_invariants(g0, target as int, card as int);
            assert forall|j: int|
                0 <= j < n implies {
                    &&& (#[trigger] ga.players[j]).id == j
                    &&& ga.players[j].own is Some
                    &&& ga.players[j].others.len() == n - 1
                    &&& obs_wf(ga.players[j])
                } by {
                assert(ga.players[j] == self@.players[j]);
            }
        }
    }

    /// Plays one turn: walks the policy's ranking for the first legal
    /// candidate, resolves it against ground truth, pushes one event to every
    /// seat's belief, and advances the turn; when no candidate is legal the
    /// match ends instead.  Errs exactly when the chosen move was a draw and
    /// the ground-truth pool is empty, leaving the match untouched.
    pub fn step(&mut self, ranking: &Vec<usize>) -> (r: Result<(), GameError>)
        requires
            game_wf(old(self)@),
            conserved(old(self)@),
        ensures
            game_wf(final(self)@),
            conserved(final(self)@),
            r is Ok <==> !(chosen_move(old(self)@, ranking@) == Some(Move::Pickup) && sum_ints(
                old(self)@.deck,
            ) == 0),
            r is Err ==> r == Err::<(), GameError>(GameError::EmptyPoolDraw) && final(self)@ == old(
                self,
            )@,
            chosen_move(old(self)@, ranking@) is None ==> final(self)@ == finish_spec(old(self)@),
            (match chosen_move(old(self)@, ranking@) {
                Some(Move::Query(q)) => final(self)@ == resolve_ask_spec(
                    old(self)@,
                    q.player as int,
                    q.card as int,
                ),
                Some(Move::Pickup) => r is Ok ==> exists|card: int|
                    0 <= card < DECK_SIZE && old(self)@.deck[card] > 0 && final(self)@
                        == resolve_draw_spec(old(self)@, card),
                None => true,
            }),
    {
        let ghost g0 = self@;
        let chosen = self.pick_move(ranking);
        match chosen {
            None => {
                self.over = true;
                proof {
                    assert(self@ =~= finish_spec(g0));
                    assert forall|r2: int|
                        0 <= r2 < DECK_SIZE implies #[trigger] rank_count(self@, r2) == rank_count(
                        g0,
                        r2,
                    ) by {
                        assert(owns_seq(self@.players) =~= owns_seq(g0.players));
                    }
                    assert(owns_seq(self@.players) =~= owns_seq(g0.players));
                }
                Ok(())
            },
            Some(m) => match m {
                Move::Pickup => {
                    proof {
                        crate::observer::lemma_sum_ints_nonneg(g0.deck);
                    }
                    self.resolve_draw()
                },
                Move::Query(q) => {
                    proof {
                        lemma_chosen_applicable(g0, ranking@);
                        assert(applicable(g0, m));
                        assert(g0.players[g0.current].id == g0.current);
                    }
                    self.resolve_ask(q.player, q.card);
                    Ok(())
                },
            },
        }
    }
}

/// The move the candidate walk settles on is always one the active seat may
/// resolve.
proof fn lemma_chosen_applicable(g: GameView, ids: Seq<usize>)
    requires
        chosen_move(g, ids) is Some,
    ensures
        applicable(g, chosen_move(g, ids)->0),
    decreases ids.len(),
{
    if ids.len() > 0 {
        let m = spec_move_from_id(g.players.len() - 1, ids[0] as int);
        if !applicable(g, m) {
            lemma_chosen_applicable(g, ids.drop_first());
        }
    }
}

/// A draw keeps the counting invariants: the card that leaves the pool lands
/// in the drawer's hand, and a completed book converts four held cards into
/// one placed book.
proof fn lemma_draw_keeps_invariants(g: GameView, card: int)
    requires
        game_wf(g),
        conserved(g),
        0 <= card < DECK_SIZE,
        g.deck[card] > 0,
    ensures
        forall|r: int|
            0 <= r < DECK_SIZE ==> (#[trigger] rank_count(resolve_draw_spec(g, card), r) == 0
                || rank_count(resolve_draw_spec(g, card), r) == SUITS),
        forall|r: int| 0 <= r < DECK_SIZE ==> 0 <= #[trigger] resolve_draw_spec(g, card).deck[r],
        forall|i: int|
            0 <= i < g.placed.len() ==> 0 <= #[trigger] resolve_draw_spec(g, card).placed[i],
        conserved(resolve_draw_spec(g, card)),
{
    let gd = resolve_draw_spec(g, card);
    let n = g.players.len() as int;
    let c = g.current;
    let owns0 = owns_seq(g.players);
    let own0 = g.players[c].own->0;
    let actor1 = self_pickup_spec(g.players[c], card);
    let own1 = actor1.own->0;
    let owns1 = owns_seq(gd.players);
    assert forall|k: int|
        0 <= k < owns0.len() implies forall|r2: int|
            0 <= r2 < (#[trigger] owns0[k]).len() ==> 0 <= #[trigger] owns0[k][r2] by {}
    assert(owns1 =~= owns0.update(c, own1));
    // hand sums at every rank
    let h1 = own0.update(card, own0[card] + 1);
    crate::observer::lemma_sum_ints_update(own0, card, own0[card] + 1);
    if own0[card] + 1 == SUITS as int {
        crate::observer::lemma_sum_ints_update(h1, card, 0);
        assert(own1 == h1.update(card, 0));
    } else {
        assert(own1 == h1);
    }
    lemma_totals_sum_update(owns0, c, own1);
    assert forall|r: int|
        0 <= r < DECK_SIZE && r != card implies #[trigger] rank_count(gd, r) == rank_count(
        g,
        r,
    ) by {
        lemma_rank_sum_update(owns0, c, own1, r);
        assert(own1[r] == own0[r]);
    }
    lemma_rank_sum_update(owns0, c, own1, card);
    assert forall|k: int| 0 <= k < owns0.len() implies 0 <= #[trigger] owns0[k][card] by {}
    lemma_rank_sum_elem(owns0, c, card);
    lemma_rank_sum_nonneg(owns0, card);
    assert(rank_count(g, card) == SUITS);
    if own0[card] + 1 == SUITS as int {
        assert(rank_count(gd, card) == 0);
        crate::observer::lemma_sum_ints_update(g.placed, c, g.placed[c] + 1);
        assert((SUITS as int) * (sum_ints(g.placed) + 1) == (SUITS as int) * sum_ints(g.placed)
            + SUITS as int) by (nonlinear_arith);
    } else {
        assert(rank_count(gd, card) == SUITS);
    }
    crate::observer::lemma_sum_ints_update(g.deck, card, g.deck[card] - 1);
}

/// An ask keeps the counting invariants: cards move between the two hands,
/// and a completed book converts four held cards into one placed book.
proof fn lemma_ask_keeps_invariants(g: GameView, target: int, card: int)
    requires
        game_wf(g),
        conserved(g),
        0 <= card < DECK_SIZE,
        0 <= target < g.players.len(),
        target != g.current,
        g.players[g.current].own->0[card] > 0,
    ensures
        forall|r: int|
            0 <= r < DECK_SIZE ==> (#[trigger] rank_count(resolve_ask_spec(g, target, card), r)
                == 0 || rank_count(resolve_ask_spec(g, target, card), r) == SUITS),
        forall|i: int|
            0 <= i < g.placed.len() ==> 0 <= #[trigger] resolve_ask_spec(g, target, card).placed[i],
        conserved(resolve_ask_spec(g, target, card)),
{
    let ga = resolve_ask_spec(g, target, card);
    let n = g.players.len() as int;
    let c = g.current;
    let owns0 = owns_seq(g.players);
    let own_c0 = g.players[c].own->0;
    let own_t0 = g.players[target].own->0;
    let amount = own_t0[card];
    let placed = own_c0[card] + amount == SUITS as int;
    let actor1 = self_query_spec(g.players[c], spec_abs_to_rel(c, target), card, amount);
    let own_c1 = actor1.own->0;
    let owns1 = owns_seq(ga.players);
    assert forall|k: int|
        0 <= k < owns0.len() implies forall|r2: int|
            0 <= r2 < (#[trigger] owns0[k]).len() ==> 0 <= #[trigger] owns0[k][r2] by {}
    assert(obs_wf(g.players[c]));
    assert(obs_wf(g.players[target]));
    assert(0 <= own_c0[card] < SUITS);
    assert(0 <= own_t0[card] < SUITS);
    if amount == 0 {
        let h1 = own_c0.update(card, own_c0[card] + 0);
        assert(h1 =~= own_c0);
        assert(own_c1 == own_c0);
        assert(owns1 =~= owns0.update(c, own_c1));
        assert(owns1 =~= owns0);
        assert(!placed);
        assert forall|r: int|
            0 <= r < DECK_SIZE implies #[trigger] rank_count(ga, r) == rank_count(g, r) by {}
    } else {
        let target1 = self_give_all_spec(g.players[target], spec_abs_to_rel(target, c), card).0;
        let own_t1 = target1.own->0;
        assert(own_t1 == own_t0.update(card, 0));
        assert(owns1 =~= owns0.update(c, own_c1).update(target, own_t1));
        let h1 = own_c0.update(card, own_c0[card] + amount);
        crate::observer::lemma_sum_ints_update(own_c0, card, own_c0[card] + amount);
        if own_c0[card] + amount == SUITS as int {
            crate::observer::lemma_sum_ints_update(h1, card, 0);
            assert(own_c1 == h1.update(card, 0));
        } else {
            assert(own_c1 == h1);
        }
        crate::observer::lemma_sum_ints_update(own_t0, card, 0);
        lemma_totals_sum_update(owns0, c, own_c1);
        lemma_totals_sum_update(owns0.update(c, own_c1), target, own_t1);
        // the four copies in existence bound the two hands together
        lemma_rank_sum_pair(owns0, c, target, card);
        lemma_rank_sum_nonneg(owns0, card);
        lemma_rank_sum_elem(owns0, target, card);
        assert(rank_count(g, card) == SUITS);
        assert forall|r: int|
            0 <= r < DECK_SIZE && r != card implies #[trigger] rank_count(ga, r) == rank_count(
            g,
            r,
        ) by {
            lemma_rank_sum_update(owns0, c, own_c1, r);
            lemma_rank_sum_update(owns0.update(c, own_c1), target, own_t1, r);
        }
        lemma_rank_sum_update(owns0, c, own_c1, card);
        lemma_rank_sum_update(owns0.update(c, own_c1), target, own_t1, card);
        if placed {
            assert(rank_count(ga, card) == 0);
            crate::observer::lemma_sum_ints_update(g.placed, c, g.placed[c] + 1);
            assert((SUITS as int) * (sum_ints(g.placed) + 1) == (SUITS as int) * sum_ints(g.placed)
                + SUITS as int) by (nonlinear_arith);
        } else {
            assert(rank_count(ga, card) == SUITS);
        }
    }
}

} // verus!
