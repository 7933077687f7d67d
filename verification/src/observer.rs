//! Belief decks and the per-seat observer.

use vstd::prelude::*;

use vstd::arithmetic::div_mod::{lemma_div_is_ordered, lemma_div_multiples_vanish};
use vstd::math::min;

use crate::game::Move;

use crate::probability::{
    add_fits, p_wf, sat_sub, spec_combine_add, spec_combine_sub, spec_umass, spec_value,
    Probability, FRAC_UNIT, MASS_CAP,
};

verus! {

/// The number of different card ranks; suits carry no identity.
pub const DECK_SIZE: usize = 13;

/// The number of copies of each rank.
pub const SUITS: usize = 4;

/// The number of cards a player is dealt at the start.
pub const STARTING_CARDS: usize = 7;

/// A pile whose exact per-rank counts are visible, unlike a belief [`Deck`].
pub type KnownDeck = [usize; DECK_SIZE];

/// Mass of a full 52-card deck, in `FRAC_UNIT` units.
pub open spec fn full_mass() -> int {
    (SUITS as int) * (DECK_SIZE as int) * (FRAC_UNIT as int)
}

/// The exact hand counts of a `KnownDeck`, as mathematical integers.
pub open spec fn counts_view(a: KnownDeck) -> Seq<int> {
    Seq::new(DECK_SIZE as nat, |i: int| a@[i] as int)
}

/// Sum of a sequence of integers.
pub open spec fn sum_ints(s: Seq<int>) -> int
    decreases s.len(),
{
    if s.len() == 0 {
        0
    } else {
        sum_ints(s.drop_last()) + s.last()
    }
}

/// Sum of the point estimates of a sequence of cells.
pub open spec fn sum_values(s: Seq<Probability>) -> int
    decreases s.len(),
{
    if s.len() == 0 {
        0
    } else {
        sum_values(s.drop_last()) + spec_value(s.last())
    }
}

/// Sum of the fractional mass of a sequence of cells.
pub open spec fn sum_umass(s: Seq<Probability>) -> int
    decreases s.len(),
{
    if s.len() == 0 {
        0
    } else {
        sum_umass(s.drop_last()) + spec_umass(s.last())
    }
}

pub proof fn lemma_sum_ints_take(s: Seq<int>, i: int)
    requires
        0 <= i < s.len(),
    ensures
        sum_ints(s.take(i + 1)) == sum_ints(s.take(i)) + s[i],
{
    assert(s.take(i + 1).drop_last() =~= s.take(i));
    assert(s.take(i + 1).last() == s[i]);
}

pub proof fn lemma_sum_ints_nonneg(s: Seq<int>)
    requires
        forall|i: int| 0 <= i < s.len() ==> 0 <= #[trigger] s[i],
    ensures
        0 <= sum_ints(s),
    decreases s.len(),
{
    if s.len() > 0 {
        lemma_sum_ints_nonneg(s.drop_last());
    }
}

pub proof fn lemma_sum_ints_update(s: Seq<int>, i: int, v: int)
    requires
        0 <= i < s.len(),
    ensures
        sum_ints(s.update(i, v)) == sum_ints(s) + v - s[i],
    decreases s.len(),
{
    if i == s.len() - 1 {
        assert(s.update(i, v).drop_last() =~= s.drop_last());
    } else {
        assert(s.update(i, v).drop_last() =~= s.drop_last().update(i, v));
        lemma_sum_ints_update(s.drop_last(), i, v);
    }
}

/// One element of a non-negative sequence is at most the whole sum.
pub proof fn lemma_sum_ints_elem(s: Seq<int>, i: int)
    requires
        0 <= i < s.len(),
        forall|j: int| 0 <= j < s.len() ==> 0 <= #[trigger] s[j],
    ensures
        s[i] <= sum_ints(s),
    decreases s.len(),
{
    if i == s.len() - 1 {
        lemma_sum_ints_nonneg(s.drop_last());
    } else {
        lemma_sum_ints_elem(s.drop_last(), i);
    }
}

/// Summing a constant integer sequence multiplies the constant out.
pub proof fn lemma_sum_uniform_ints(s: Seq<int>, v: int)
    requires
        forall|i: int| 0 <= i < s.len() ==> #[trigger] s[i] == v,
    ensures
        sum_ints(s) == s.len() * v,
    decreases s.len(),
{
    let n = s.len() as int;
    if s.len() == 0 {
        assert(n * v == 0) by (nonlinear_arith)
            requires
                n == 0,
        ;
    } else {
        assert forall|i: int| 0 <= i < s.drop_last().len() implies #[trigger] s.drop_last()[i]
            == v by {
            assert(s[i] == v);
        }
        lemma_sum_uniform_ints(s.drop_last(), v);
        assert(s.last() == v);
        assert(s.drop_last().len() as int == n - 1);
        assert(sum_ints(s) == (n - 1) * v + v);
        assert(sum_ints(s) == n * v) by (nonlinear_arith)
            requires
                sum_ints(s) == (n - 1) * v + v,
        ;
    }
}

pub proof fn lemma_sum_values_take(s: Seq<Probability>, i: int)
    requires
        0 <= i < s.len(),
    ensures
        sum_values(s.take(i + 1)) == sum_values(s.take(i)) + spec_value(s[i]),
        sum_umass(s.take(i + 1)) == sum_umass(s.take(i)) + spec_umass(s[i]),
{
    assert(s.take(i + 1).drop_last() =~= s.take(i));
    assert(s.take(i + 1).last() == s[i]);
}

pub proof fn lemma_sum_values_nonneg(s: Seq<Probability>)
    ensures
        0 <= sum_umass(s),
        sum_umass(s) <= sum_values(s),
    decreases s.len(),
{
    if s.len() > 0 {
        lemma_sum_values_nonneg(s.drop_last());
    }
}

pub proof fn lemma_sum_values_update(s: Seq<Probability>, i: int, v: Probability)
    requires
        0 <= i < s.len(),
    ensures
        sum_values(s.update(i, v)) == sum_values(s) + spec_value(v) - spec_value(s[i]),
        sum_umass(s.update(i, v)) == sum_umass(s) + spec_umass(v) - spec_umass(s[i]),
    decreases s.len(),
{
    if i == s.len() - 1 {
        assert(s.update(i, v).drop_last() =~= s.drop_last());
    } else {
        assert(s.update(i, v).drop_last() =~= s.drop_last().update(i, v));
        lemma_sum_values_update(s.drop_last(), i, v);
    }
}

/// One cell's estimate, or fractional mass, is at most the deck-wide sum.
pub proof fn lemma_sum_values_elem(s: Seq<Probability>, i: int)
    requires
        0 <= i < s.len(),
    ensures
        spec_value(s[i]) <= sum_values(s),
        spec_umass(s[i]) <= sum_umass(s),
    decreases s.len(),
{
    if i == s.len() - 1 {
        lemma_sum_values_nonneg(s.drop_last());
    } else {
        lemma_sum_values_elem(s.drop_last(), i);
    }
}

/// Summing a constant sequence multiplies the constant out.
pub proof fn lemma_sum_uniform(s: Seq<Probability>, p: Probability)
    requires
        forall|i: int| 0 <= i < s.len() ==> #[trigger] s[i] == p,
    ensures
        sum_values(s) == s.len() * spec_value(p),
        sum_umass(s) == s.len() * spec_umass(p),
    decreases s.len(),
{
    let n = s.len() as int;
    let v = spec_value(p);
    let u = spec_umass(p);
    if s.len() == 0 {
        assert(n * v == 0) by (nonlinear_arith)
            requires
                n == 0,
        ;
        assert(n * u == 0) by (nonlinear_arith)
            requires
                n == 0,
        ;
    } else {
        assert forall|i: int| 0 <= i < s.drop_last().len() implies #[trigger] s.drop_last()[i]
            == p by {
            assert(s[i] == p);
        }
        lemma_sum_uniform(s.drop_last(), p);
        assert(s.last() == p);
        assert(s.drop_last().len() as int == n - 1);
        assert(sum_values(s) == (n - 1) * v + v);
        assert(sum_umass(s) == (n - 1) * u + u);
        assert(sum_values(s) == n * v) by (nonlinear_arith)
            requires
                sum_values(s) == (n - 1) * v + v,
        ;
        assert(sum_umass(s) == n * u) by (nonlinear_arith)
            requires
                sum_umass(s) == (n - 1) * u + u,
        ;
    }
}

/// Pairwise bounds on fractional mass carry over to the sums.
pub proof fn lemma_sum_umass_pairwise(
    s1: Seq<Probability>,
    s2: Seq<Probability>,
    t1: Seq<Probability>,
    t2: Seq<Probability>,
)
    requires
        s1.len() == s2.len() && s2.len() == t1.len() && t1.len() == t2.len(),
        forall|i: int|
            0 <= i < s1.len() ==> spec_umass(#[trigger] s1[i]) + spec_umass(s2[i]) <= spec_umass(
                t1[i],
            ) + spec_umass(t2[i]),
    ensures
        sum_umass(s1) + sum_umass(s2) <= sum_umass(t1) + sum_umass(t2),
    decreases s1.len(),
{
    if s1.len() > 0 {
        lemma_sum_umass_pairwise(s1.drop_last(), s2.drop_last(), t1.drop_last(), t2.drop_last());
        assert(spec_umass(s1.last()) + spec_umass(s2.last()) <= spec_umass(t1.last()) + spec_umass(
            t2.last(),
        ));
    }
}

/// Pointwise smaller fractional mass gives a smaller sum.
pub proof fn lemma_sum_umass_pointwise(s1: Seq<Probability>, s2: Seq<Probability>)
    requires
        s1.len() == s2.len(),
        forall|i: int| 0 <= i < s1.len() ==> spec_umass(#[trigger] s1[i]) <= spec_umass(s2[i]),
    ensures
        sum_umass(s1) <= sum_umass(s2),
    decreases s1.len(),
{
    if s1.len() > 0 {
        lemma_sum_umass_pointwise(s1.drop_last(), s2.drop_last());
        assert(spec_umass(s1.last()) <= spec_umass(s2.last()));
    }
}

/// The mathematical model of a belief deck.
#[verifier::ext_equal]
pub ghost struct DeckView {
    pub cards: Seq<Probability>,
    pub size: int,
}

/// Well-formedness of a belief deck: thirteen cells, each within its caps.
pub open spec fn deck_wf(d: DeckView) -> bool {
    &&& d.cards.len() == DECK_SIZE
    &&& forall|i: int| 0 <= i < d.cards.len() ==> p_wf(#[trigger] d.cards[i])
    &&& 0 <= d.size
}

/// Total estimated mass of a deck, in `FRAC_UNIT` units.
pub open spec fn deck_total(d: DeckView) -> int {
    sum_values(d.cards)
}

/// Total fractional (not yet pinned) mass of a deck.
pub open spec fn deck_umass(d: DeckView) -> int {
    sum_umass(d.cards)
}

/// The model of a deck with no mass at all.
pub open spec fn empty_deck() -> DeckView {
    DeckView { cards: Seq::new(DECK_SIZE as nat, |i: int| Probability::Unknown(0)), size: 0 }
}

/// The model of an untouched 52-card deck.
pub open spec fn full_deck() -> DeckView {
    DeckView {
        cards: Seq::new(DECK_SIZE as nat, |i: int| Probability::Unknown((4 * FRAC_UNIT) as u64)),
        size: (SUITS * DECK_SIZE) as int,
    }
}

/// One rank of a deck replaced, the size lowered by `amount` (stopping at 0).
pub open spec fn remove_known_spec(d: DeckView, card: int, amount: int) -> DeckView {
    DeckView {
        cards: d.cards.update(
            card,
            spec_combine_sub(d.cards[card], Probability::Known(amount as u64)),
        ),
        size: sat_sub(d.size, amount),
    }
}

/// The share of `src`'s mass at rank `i` that moves when `amount` unseen
/// cards leave it: the plain proportional share `value / total × amount`,
/// floored in fixed-point units, or nothing when the source carries no mass
/// at all.
pub open spec fn share_of(src: DeckView, i: int, amount: int) -> int {
    let t = deck_total(src);
    if t > 0 {
        spec_value(src.cards[i]) * amount * (FRAC_UNIT as int) / t
    } else {
        0
    }
}

/// Both sides of moving `amount` unseen cards from `src` to `dst`: first the
/// deck that receives the mass, then the source it left.
pub open spec fn transfer_spec(dst: DeckView, src: DeckView, amount: int) -> (DeckView, DeckView) {
    (
        DeckView {
            cards: Seq::new(
                dst.cards.len(),
                |i: int|
                    spec_combine_add(
                        dst.cards[i],
                        Probability::Unknown(share_of(src, i, amount) as u64),
                    ),
            ),
            size: min(dst.size + amount, usize::MAX as int),
        },
        DeckView {
            cards: Seq::new(
                src.cards.len(),
                |i: int|
                    spec_combine_sub(
                        src.cards[i],
                        Probability::Unknown(share_of(src, i, amount) as u64),
                    ),
            ),
            size: src.size,
        },
    )
}

/// A deck whose cells carry only fractional mass: whatever is exactly known
/// or bounded there is zero.  Every pool the engine produces has this shape;
/// its cells are estimates until a rank is written off to zero.
pub open spec fn estimate_only(d: DeckView) -> bool {
    forall|i: int|
        0 <= i < d.cards.len() ==> spec_value(#[trigger] d.cards[i]) == spec_umass(d.cards[i])
}

/// How much extra fractional mass a belief can briefly come to carry beyond
/// one full deck: the single transfer that drains a nearly-empty source may
/// round each rank's share up to `amount` cards of mass, and the largest
/// transfer deals one starting hand.
pub open spec fn umass_slack() -> int {
    (DECK_SIZE as int) * (STARTING_CARDS as int) * (FRAC_UNIT as int)
}

/// A moved share is never negative and never exceeds `amount` whole cards'
/// worth of mass.  While the source holds at least the transferred amount,
/// an estimate-only cell's share fits in its own fractional mass; once the
/// source holds less, the share covers whatever fractional mass the cell
/// still has.
pub proof fn lemma_share_bounds(src: DeckView, i: int, amount: int)
    requires
        deck_wf(src),
        0 <= i < DECK_SIZE,
        0 <= amount,
    ensures
        0 <= share_of(src, i, amount) <= amount * (FRAC_UNIT as int),
        deck_total(src) >= amount * (FRAC_UNIT as int) && spec_value(src.cards[i]) == spec_umass(
            src.cards[i],
        ) ==> share_of(src, i, amount) <= spec_umass(src.cards[i]),
        0 < deck_total(src) <= amount * (FRAC_UNIT as int) ==> share_of(src, i, amount)
            >= spec_umass(src.cards[i]),
{
    lemma_sum_values_nonneg(src.cards);
    lemma_value_nonneg_umass(src.cards[i]);
    let t = deck_total(src);
    let af = amount * (FRAC_UNIT as int);
    if t > 0 {
        let v = spec_value(src.cards[i]);
        lemma_sum_values_elem(src.cards, i);
        assert(0 <= v <= t);
        assert(v * amount * (FRAC_UNIT as int) <= t * amount * (FRAC_UNIT as int))
            by (nonlinear_arith)
            requires
                0 <= v <= t,
                0 <= amount,
        ;
        lemma_div_is_ordered(
            v * amount * (FRAC_UNIT as int),
            t * amount * (FRAC_UNIT as int),
            t,
        );
        lemma_div_multiples_vanish(af, t);
        assert(t * amount * (FRAC_UNIT as int) == t * af) by (nonlinear_arith)
            requires
                af == amount * (FRAC_UNIT as int),
        ;
        assert(v * amount * (FRAC_UNIT as int) / t >= 0) by (nonlinear_arith)
            requires
                0 <= v,
                0 <= amount,
                0 < t,
        ;
        assert(v * amount * (FRAC_UNIT as int) == v * af) by (nonlinear_arith)
            requires
                af == amount * (FRAC_UNIT as int),
        ;
        if t >= af {
            // in regime: the proportional share stays within the cell's value
            assert(v * af <= t * v) by (nonlinear_arith)
                requires
                    0 <= v,
                    af <= t,
            ;
            lemma_div_is_ordered(v * amount * (FRAC_UNIT as int), t * v, t);
            lemma_div_multiples_vanish(v, t);
        }
        if t <= af {
            // drain: the share covers the whole cell
            assert(t * v <= v * af) by (nonlinear_arith)
                requires
                    0 <= v,
                    t <= af,
            ;
            lemma_div_is_ordered(t * v, v * amount * (FRAC_UNIT as int), t);
            lemma_div_multiples_vanish(v, t);
        }
    }
}

proof fn lemma_value_nonneg_umass(p: Probability)
    ensures
        0 <= spec_umass(p) <= spec_value(p),
{
}

/// How one cell pair changes when a share of mass moves: well-formedness
/// survives, the destination gains at most the share, the source's
/// fractional mass never grows, and when the share fits in the source
/// cell's fractional mass, the pair's joint mass does not grow either.
pub proof fn lemma_transfer_cell(a: Probability, b: Probability, s: int)
    requires
        p_wf(a),
        p_wf(b),
        0 <= s <= MASS_CAP,
        spec_umass(a) + s <= MASS_CAP,
    ensures
        p_wf(spec_combine_add(a, Probability::Unknown(s as u64))),
        p_wf(spec_combine_sub(b, Probability::Unknown(s as u64))),
        add_fits(a, Probability::Unknown(s as u64)),
        spec_umass(spec_combine_add(a, Probability::Unknown(s as u64))) <= spec_umass(a) + s,
        spec_umass(spec_combine_sub(b, Probability::Unknown(s as u64))) <= spec_umass(b),
        s <= spec_umass(b) ==> spec_umass(spec_combine_add(a, Probability::Unknown(s as u64)))
            + spec_umass(spec_combine_sub(b, Probability::Unknown(s as u64))) <= spec_umass(a)
            + spec_umass(b),
        s >= spec_umass(b) ==> spec_umass(spec_combine_sub(b, Probability::Unknown(s as u64)))
            == 0,
        spec_value(b) == spec_umass(b) ==> spec_value(
            spec_combine_sub(b, Probability::Unknown(s as u64)),
        ) == spec_umass(spec_combine_sub(b, Probability::Unknown(s as u64))),
{
}

/// Subtracting an exactly-known count keeps an estimate-only cell
/// estimate-only.
pub proof fn lemma_sub_known_keeps_estimate(c: Probability, n: u64)
    requires
        spec_value(c) == spec_umass(c),
    ensures
        spec_value(spec_combine_sub(c, Probability::Known(n))) == spec_umass(
            spec_combine_sub(c, Probability::Known(n)),
        ),
{
}

/// Sums of estimates and of fractional mass agree on estimate-only cells.
pub proof fn lemma_sum_values_eq_umass(s: Seq<Probability>)
    requires
        forall|i: int| 0 <= i < s.len() ==> spec_value(#[trigger] s[i]) == spec_umass(s[i]),
    ensures
        sum_values(s) == sum_umass(s),
    decreases s.len(),
{
    if s.len() > 0 {
        lemma_sum_values_eq_umass(s.drop_last());
        assert(spec_value(s.last()) == spec_umass(s.last()));
    }
}

/// A uniform per-cell gain bounds the summed gain.
pub proof fn lemma_sum_umass_gain(s1: Seq<Probability>, s2: Seq<Probability>, b: int)
    requires
        s1.len() == s2.len(),
        0 <= b,
        forall|i: int|
            0 <= i < s1.len() ==> spec_umass(#[trigger] s1[i]) <= spec_umass(s2[i]) + b,
    ensures
        sum_umass(s1) <= sum_umass(s2) + s1.len() * b,
    decreases s1.len(),
{
    let n = s1.len() as int;
    if s1.len() == 0 {
        assert(n * b == 0) by (nonlinear_arith)
            requires
                n == 0,
        ;
    } else {
        lemma_sum_umass_gain(s1.drop_last(), s2.drop_last(), b);
        assert(spec_umass(s1.last()) <= spec_umass(s2.last()) + b);
        assert((n - 1) * b + b == n * b) by (nonlinear_arith);
    }
}

/// A belief deck: a fixed-point estimate per rank, plus a running size.
#[derive(Clone, Debug)]
pub struct Deck {
    pub cards: [Probability; DECK_SIZE],
    pub size: usize,
}

impl View for Deck {
    type V = DeckView;

    open spec fn view(&self) -> DeckView {
        DeckView { cards: self.cards@, size: self.size as int }
    }
}

impl Deck {
    /// Constructs a new empty `Deck`: every rank `Unknown(0)`.
    pub fn new_empty() -> (d: Deck)
        ensures
            d@ == empty_deck(),
            deck_wf(d@),
            deck_total(d@) == 0,
            deck_umass(d@) == 0,
    {
        let d = Deck { cards: [Probability::Unknown(0); DECK_SIZE], size: 0 };
        proof {
            assert(d@.cards =~= empty_deck().cards);
            assert(d@ =~= empty_deck());
            lemma_sum_uniform(d@.cards, Probability::Unknown(0));
        }
        d
    }

    /// Constructs a new full `Deck`: four unseen copies of every rank.
    pub fn new_full() -> (d: Deck)
        ensures
            d@ == full_deck(),
            deck_wf(d@),
            deck_total(d@) == full_mass(),
            deck_umass(d@) == full_mass(),
            d@.size == SUITS * DECK_SIZE,
    {
        let d = Deck {
            cards: [Probability::Unknown(4 * FRAC_UNIT); DECK_SIZE],
            size: SUITS * DECK_SIZE,
        };
        proof {
            assert(d@.cards =~= full_deck().cards);
            assert(d@ =~= full_deck());
            lemma_sum_uniform(d@.cards, Probability::Unknown((4 * FRAC_UNIT) as u64));
        }
        d
    }

    /// Constructs a `Deck` whose every rank is exactly known.
    pub fn from_known(known: KnownDeck) -> (d: Deck)
        requires
            forall|i: int| 0 <= i < DECK_SIZE ==> #[trigger] known@[i] <= SUITS,
        ensures
            d@.cards.len() == DECK_SIZE,
            forall|i: int|
                0 <= i < DECK_SIZE ==> d@.cards[i] == Probability::Known(known@[i] as u64),
            d@.size == sum_ints(counts_view(known)),
            d@.size <= SUITS * DECK_SIZE,
            deck_wf(d@),
            deck_umass(d@) == 0,
    {
        let mut cards = [Probability::Known(0); DECK_SIZE];
        let mut size: usize = 0;
        for i in 0..DECK_SIZE
            invariant
                forall|j: int| 0 <= j < i ==> cards@[j] == Probability::Known(known@[j] as u64),
                size == sum_ints(counts_view(known).take(i as int)),
                size <= i * SUITS,
                forall|j: int| 0 <= j < DECK_SIZE ==> #[trigger] known@[j] <= SUITS,
        {
            proof {
                lemma_sum_ints_take(counts_view(known), i as int);
            }
            cards[i] = Probability::Known(known[i] as u64);
            size = size + known[i];
        }
        let d = Deck { cards, size };
        proof {
            assert(counts_view(known).take(DECK_SIZE as int) =~= counts_view(known));
            lemma_sum_umass_zero(d@.cards);
        }
        d
    }

    /// Removes all cards of an other deck from this `Deck`, rank by rank.
    pub fn remove(&mut self, other: &Deck)
        requires
            deck_wf(old(self)@),
            deck_wf(other@),
        ensures
            final(self)@.cards.len() == DECK_SIZE,
            forall|i: int|
                0 <= i < DECK_SIZE ==> final(self)@.cards[i] == spec_combine_sub(
                    old(self)@.cards[i],
                    other@.cards[i],
                ),
            final(self)@.size == sat_sub(old(self)@.size, other@.size),
            deck_wf(final(self)@),
            deck_umass(final(self)@) <= deck_umass(old(self)@),
    {
        let ghost d0 = self@;
        for i in 0..DECK_SIZE
            invariant
                self.cards@.len() == DECK_SIZE,
                deck_wf(d0),
                deck_wf(other@),
                forall|j: int|
                    0 <= j < i ==> self.cards@[j] == spec_combine_sub(
                        d0.cards[j],
                        other@.cards[j],
                    ),
                forall|j: int| i <= j < DECK_SIZE ==> self.cards@[j] == d0.cards[j],
                self.size == d0.size,
        {
            proof {
                crate::probability::lemma_sub_wf(self.cards@[i as int], other@.cards[i as int]);
            }
            let c = self.cards[i].combine_sub(other.cards[i]);
            self.cards[i] = c;
        }
        self.size = if self.size >= other.size {
            self.size - other.size
        } else {
            0
        };
        proof {
            assert forall|i: int| 0 <= i < DECK_SIZE implies p_wf(#[trigger] self.cards@[i]) by {
                crate::probability::lemma_sub_wf(d0.cards[i], other@.cards[i]);
            }
            assert forall|i: int|
                0 <= i < DECK_SIZE implies spec_umass(#[trigger] self.cards@[i]) <= spec_umass(
                d0.cards[i],
            ) by {
                lemma_sub_umass(d0.cards[i], other@.cards[i]);
            }
            lemma_sum_umass_pointwise(self.cards@, d0.cards);
        }
    }

    /// Removes an amount of a certain card from this `Deck`.
    pub fn remove_known_cards(&mut self, card: usize, amount: usize)
        requires
            card < DECK_SIZE,
            amount <= SUITS,
            deck_wf(old(self)@),
        ensures
            final(self)@ == remove_known_spec(old(self)@, card as int, amount as int),
            deck_wf(final(self)@),
            deck_umass(final(self)@) <= deck_umass(old(self)@),
    {
        let ghost d0 = self@;
        let c = self.cards[card].combine_sub(Probability::Known(amount as u64));
        self.cards[card] = c;
        self.size = if self.size >= amount {
            self.size - amount
        } else {
            0
        };
        proof {
            crate::probability::lemma_sub_wf(
                d0.cards[card as int],
                Probability::Known(amount as u64),
            );
            lemma_sub_umass(d0.cards[card as int], Probability::Known(amount as u64));
            lemma_sum_values_update(d0.cards, card as int, c);
            assert(final(self)@ =~= remove_known_spec(d0, card as int, amount as int));
        }
    }

    /// Overwrites one rank's cell, leaving the size untouched.
    pub fn set_card(&mut self, card: usize, cell: Probability)
        requires
            card < DECK_SIZE,
        ensures
            final(self)@ == set_card_spec(old(self)@, card as int, cell),
    {
        self.cards[card] = cell;
        proof {
            assert(final(self)@ =~= set_card_spec(old(self)@, card as int, cell));
        }
    }

    /// Returns the total estimated mass of all ranks, in `FRAC_UNIT` units.
    pub fn total(&self) -> (t: u64)
        requires
            deck_wf(self@),
        ensures
            t == deck_total(self@),
    {
        let mut t: u64 = 0;
        for i in 0..DECK_SIZE
            invariant
                deck_wf(self@),
                t == sum_values(self.cards@.take(i as int)),
                t <= (i as int) * (MASS_CAP as int),
        {
            proof {
                lemma_sum_values_take(self.cards@, i as int);
            }
            let v = self.cards[i].value();
            proof {
                assert(t + v <= (i as int) * (MASS_CAP as int) + (MASS_CAP as int));
                assert((i as int) * (MASS_CAP as int) + (MASS_CAP as int) == ((i + 1) as int) * (
                MASS_CAP as int)) by (nonlinear_arith);
            }
            t = t + v;
        }
        proof {
            assert(self.cards@.take(DECK_SIZE as int) =~= self.cards@);
        }
        t
    }

    /// Adds `amount` cards of unseen rank to this `Deck` out of an other
    /// `Deck`, moving estimate mass in proportion to the source's cells.
    /// Each rank's share follows [`share_of`]: the plain proportional rule,
    /// with the source cell saturating at zero through the subtraction
    /// table.  While the source still holds at least `amount` cards' worth
    /// of estimate mass — the regime every well-stocked pool is in — the
    /// move conserves fractional mass; the one transfer that drains a source
    /// below that can round its shares up, by at most `amount` cards of mass
    /// per rank, and leaves the source with no fractional mass to lose
    /// again.
    pub fn add_unknown_from_other(&mut self, other: &mut Deck, amount: usize)
        requires
            deck_wf(old(self)@),
            deck_wf(old(other)@),
            amount <= SUITS * DECK_SIZE,
            deck_umass(old(self)@) + (amount as int) * (FRAC_UNIT as int) <= MASS_CAP,
        ensures
            final(self)@ == transfer_spec(old(self)@, old(other)@, amount as int).0,
            final(other)@ == transfer_spec(old(self)@, old(other)@, amount as int).1,
            deck_wf(final(self)@),
            deck_wf(final(other)@),
            deck_umass(final(other)@) <= deck_umass(old(other)@),
            deck_umass(final(self)@) <= deck_umass(old(self)@) + (DECK_SIZE as int) * ((
            amount as int) * (FRAC_UNIT as int)),
            estimate_only(old(other)@) ==> estimate_only(final(other)@),
            estimate_only(old(other)@) && (deck_total(old(other)@) == 0 || deck_total(old(other)@)
                >= (amount as int) * (FRAC_UNIT as int)) ==> deck_umass(final(self)@)
                + deck_umass(final(other)@) <= deck_umass(old(self)@) + deck_umass(old(other)@),
            0 < deck_total(old(other)@) <= (amount as int) * (FRAC_UNIT as int) ==> deck_umass(
                final(other)@,
            ) == 0,
    {
        let ghost d0 = self@;
        let ghost o0 = other@;
        let t = other.total();
        let mut shares: [u64; DECK_SIZE] = [0; DECK_SIZE];
        if t > 0 {
            for i in 0..DECK_SIZE
                invariant
                    deck_wf(o0),
                    other@ == o0,
                    t == deck_total(o0),
                    t > 0,
                    amount <= SUITS * DECK_SIZE,
                    forall|j: int|
                        0 <= j < i ==> shares@[j] == share_of(o0, j, amount as int) as u64,
            {
                let v = other.cards[i].value();
                proof {
                    assert(v * amount <= MASS_CAP * (SUITS * DECK_SIZE)) by (nonlinear_arith)
                        requires
                            v <= MASS_CAP,
                            amount <= SUITS * DECK_SIZE,
                            0 <= v,
                    ;
                    lemma_share_bounds(o0, i as int, amount as int);
                }
                shares[i] = v * (amount as u64) * FRAC_UNIT / t;
            }
        }
        proof {
            assert forall|j: int|
                0 <= j < DECK_SIZE implies shares@[j] == share_of(o0, j, amount as int) as u64 by {
                if deck_total(o0) <= 0 {
                    assert(share_of(o0, j, amount as int) == 0);
                }
            }
        }
        for i in 0..DECK_SIZE
            invariant
                self.cards@.len() == DECK_SIZE,
                other.cards@.len() == DECK_SIZE,
                deck_wf(d0),
                deck_wf(o0),
                amount <= SUITS * DECK_SIZE,
                deck_umass(d0) + (amount as int) * (FRAC_UNIT as int) <= MASS_CAP,
                self.size == d0.size,
                other.size == o0.size,
                forall|j: int| 0 <= j < DECK_SIZE ==> shares@[j] == share_of(o0, j, amount as int) as u64,
                forall|j: int|
                    0 <= j < i ==> self.cards@[j] == spec_combine_add(
                        d0.cards[j],
                        Probability::Unknown(share_of(o0, j, amount as int) as u64),
                    ),
                forall|j: int|
                    0 <= j < i ==> other.cards@[j] == spec_combine_sub(
                        o0.cards[j],
                        Probability::Unknown(share_of(o0, j, amount as int) as u64),
                    ),
                forall|j: int| i <= j < DECK_SIZE ==> self.cards@[j] == d0.cards[j],
                forall|j: int| i <= j < DECK_SIZE ==> other.cards@[j] == o0.cards[j],
        {
            proof {
                lemma_share_bounds(o0, i as int, amount as int);
                lemma_sum_values_elem(d0.cards, i as int);
                lemma_sum_values_nonneg(d0.cards);
                lemma_transfer_cell(
                    d0.cards[i as int],
                    o0.cards[i as int],
                    share_of(o0, i as int, amount as int),
                );
            }
            let share = Probability::Unknown(shares[i]);
            let a = self.cards[i].combine_add(share);
            self.cards[i] = a;
            let b = other.cards[i].combine_sub(share);
            other.cards[i] = b;
        }
        self.size = if self.size <= usize::MAX - amount {
            self.size + amount
        } else {
            usize::MAX
        };
        proof {
            let spec_pair = transfer_spec(d0, o0, amount as int);
            let af = (amount as int) * (FRAC_UNIT as int);
            assert forall|i: int| 0 <= i < DECK_SIZE implies {
                &&& p_wf(#[trigger] self.cards@[i])
                &&& p_wf(other.cards@[i])
                &&& spec_umass(self.cards@[i]) <= spec_umass(d0.cards[i]) + af
                &&& spec_umass(other.cards@[i]) <= spec_umass(o0.cards[i])
            } by {
                lemma_share_bounds(o0, i, amount as int);
                lemma_sum_values_elem(d0.cards, i);
                lemma_sum_values_nonneg(d0.cards);
                lemma_transfer_cell(d0.cards[i], o0.cards[i], share_of(o0, i, amount as int));
            }
            lemma_sum_umass_gain(self.cards@, d0.cards, af);
            lemma_sum_umass_pointwise(other.cards@, o0.cards);
            if estimate_only(o0) && (deck_total(o0) == 0 || deck_total(o0) >= af) {
                assert forall|i: int|
                    0 <= i < DECK_SIZE implies spec_umass(#[trigger] self.cards@[i]) + spec_umass(
                    other.cards@[i],
                ) <= spec_umass(d0.cards[i]) + spec_umass(o0.cards[i]) by {
                    assert(spec_value(o0.cards[i]) == spec_umass(o0.cards[i]));
                    lemma_share_bounds(o0, i, amount as int);
                    lemma_sum_values_elem(d0.cards, i);
                    lemma_sum_values_nonneg(d0.cards);
                    lemma_transfer_cell(d0.cards[i], o0.cards[i], share_of(o0, i, amount as int));
                }
                lemma_sum_umass_pairwise(self.cards@, other.cards@, d0.cards, o0.cards);
            }
            if 0 < deck_total(o0) <= af {
                assert forall|i: int|
                    0 <= i < DECK_SIZE implies spec_umass(#[trigger] other.cards@[i]) == 0 by {
                    lemma_share_bounds(o0, i, amount as int);
                    lemma_sum_values_elem(d0.cards, i);
                    lemma_sum_values_nonneg(d0.cards);
                    lemma_transfer_cell(d0.cards[i], o0.cards[i], share_of(o0, i, amount as int));
                }
                lemma_sum_umass_zero(other.cards@);
            }
            if estimate_only(o0) {
                assert forall|i: int|
                    0 <= i < other.cards@.len() implies spec_value(#[trigger] other.cards@[i])
                    == spec_umass(other.cards@[i]) by {
                    assert(spec_value(o0.cards[i]) == spec_umass(o0.cards[i]));
                    lemma_share_bounds(o0, i, amount as int);
                    lemma_sum_values_elem(d0.cards, i);
                    lemma_sum_values_nonneg(d0.cards);
                    lemma_transfer_cell(d0.cards[i], o0.cards[i], share_of(o0, i, amount as int));
                }
            }
            assert(final(self)@ =~= spec_pair.0);
            assert(final(other)@ =~= spec_pair.1);
        }
    }
}

/// Fractional mass never grows under subtraction.
pub proof fn lemma_sub_umass(a: Probability, b: Probability)
    ensures
        spec_umass(spec_combine_sub(a, b)) <= spec_umass(a),
{
}

/// A sequence of exactly-known cells holds no fractional mass.
pub proof fn lemma_sum_umass_zero(s: Seq<Probability>)
    requires
        forall|i: int| 0 <= i < s.len() ==> spec_umass(#[trigger] s[i]) == 0,
    ensures
        sum_umass(s) == 0,
    decreases s.len(),
{
    if s.len() > 0 {
        lemma_sum_umass_zero(s.drop_last());
    }
}

/// The errors the engine can surface.  A policy returning no legal move is
/// not an error: it simply ends the match.
#[derive(Clone, Copy, Debug, PartialEq, Eq, Structural)]
pub enum GameError {
    /// A draw was resolved against a pool that holds no cards; legality
    /// checking is meant to prevent this.
    EmptyPoolDraw,
    /// An ask resolution produced a transfer amount the rules cannot yield.
    InvalidTransferAmount,
}

/// Translates an absolute seat index into a slot of the observing seat's
/// opponent list: the seat's own index is elided and everything above it
/// shifts down by one.
pub open spec fn spec_abs_to_rel(self_id: int, absolute: int) -> int {
    if absolute > self_id {
        absolute - 1
    } else {
        absolute
    }
}

/// The inverse translation, from an opponent-list slot back to an absolute
/// seat index.
pub open spec fn spec_rel_to_abs(self_id: int, rel: int) -> int {
    if rel >= self_id {
        rel + 1
    } else {
        rel
    }
}

/// Where seat `absolute` sits in the opponent list of seat `self_id`.
pub fn absolute_to_relative(self_id: usize, absolute: usize) -> (rel: usize)
    requires
        absolute != self_id,
    ensures
        rel == spec_abs_to_rel(self_id as int, absolute as int),
{
    if absolute > self_id {
        absolute - 1
    } else {
        absolute
    }
}

/// Which absolute seat occupies slot `rel` of seat `self_id`'s opponent list.
pub fn relative_to_absolute(self_id: usize, rel: usize) -> (absolute: usize)
    requires
        rel < usize::MAX,
    ensures
        absolute == spec_rel_to_abs(self_id as int, rel as int),
{
    if rel >= self_id {
        rel + 1
    } else {
        rel
    }
}

/// The mathematical model of one seat's belief state.
#[verifier::ext_equal]
pub ghost struct ObserverView {
    /// The believed contents of the face-down pool.
    pub pool: DeckView,
    /// One believed deck per opponent, in relative-slot order.
    pub others: Seq<DeckView>,
    /// The seat's own exact hand, if it participates.
    pub own: Option<Seq<int>>,
    /// The seat's absolute index.
    pub id: int,
}

/// Sum of the fractional mass of a run of belief decks.
pub open spec fn others_umass(s: Seq<DeckView>) -> int
    decreases s.len(),
{
    if s.len() == 0 {
        0
    } else {
        others_umass(s.drop_last()) + deck_umass(s.last())
    }
}

/// All the fractional mass a seat's belief spreads over pool and opponents.
pub open spec fn obs_umass(o: ObserverView) -> int {
    deck_umass(o.pool) + others_umass(o.others)
}

/// Well-formedness of a seat's belief: every deck well-formed, the pool an
/// estimate-only deck, no more fractional mass in circulation than one full
/// deck carries — except that the one transfer that drains the pool may
/// round up, after which the drained pool can fund no further rounding —
/// and an own hand (when present) of thirteen ranks with at most three
/// copies each, a fourth copy being placed immediately.
pub open spec fn obs_wf(o: ObserverView) -> bool {
    &&& deck_wf(o.pool)
    &&& estimate_only(o.pool)
    &&& forall|j: int| 0 <= j < o.others.len() ==> deck_wf(#[trigger] o.others[j])
    &&& (obs_umass(o) <= full_mass() || (deck_umass(o.pool) == 0 && obs_umass(o) <= full_mass()
        + umass_slack()))
    &&& match o.own {
        Some(h) => h.len() == DECK_SIZE && forall|r: int|
            0 <= r < DECK_SIZE ==> 0 <= #[trigger] h[r] < SUITS,
        None => true,
    }
    &&& 0 <= o.id
}

pub proof fn lemma_others_umass_nonneg(s: Seq<DeckView>)
    ensures
        0 <= others_umass(s),
    decreases s.len(),
{
    if s.len() > 0 {
        lemma_others_umass_nonneg(s.drop_last());
        lemma_sum_values_nonneg(s.last().cards);
    }
}

pub proof fn lemma_others_umass_elem(s: Seq<DeckView>, j: int)
    requires
        0 <= j < s.len(),
    ensures
        deck_umass(s[j]) <= others_umass(s),
    decreases s.len(),
{
    if j == s.len() - 1 {
        lemma_others_umass_nonneg(s.drop_last());
    } else {
        lemma_others_umass_elem(s.drop_last(), j);
        lemma_sum_values_nonneg(s.last().cards);
    }
}

pub proof fn lemma_others_umass_update(s: Seq<DeckView>, j: int, d: DeckView)
    requires
        0 <= j < s.len(),
    ensures
        others_umass(s.update(j, d)) == others_umass(s) + deck_umass(d) - deck_umass(s[j]),
    decreases s.len(),
{
    if j == s.len() - 1 {
        assert(s.update(j, d).drop_last() =~= s.drop_last());
    } else {
        assert(s.update(j, d).drop_last() =~= s.drop_last().update(j, d));
        lemma_others_umass_update(s.drop_last(), j, d);
    }
}

pub proof fn lemma_others_umass_push(s: Seq<DeckView>, d: DeckView)
    ensures
        others_umass(s.push(d)) == others_umass(s) + deck_umass(d),
{
    assert(s.push(d).drop_last() =~= s);
    assert(s.push(d).last() == d);
}

pub proof fn lemma_others_umass_pointwise(s1: Seq<DeckView>, s2: Seq<DeckView>)
    requires
        s1.len() == s2.len(),
        forall|j: int| 0 <= j < s1.len() ==> deck_umass(#[trigger] s1[j]) <= deck_umass(s2[j]),
    ensures
        others_umass(s1) <= others_umass(s2),
    decreases s1.len(),
{
    if s1.len() > 0 {
        lemma_others_umass_pointwise(s1.drop_last(), s2.drop_last());
        assert(deck_umass(s1.last()) <= deck_umass(s2.last()));
    }
}

/// One rank's cell of a deck replaced; the size is untouched.
pub open spec fn set_card_spec(d: DeckView, card: int, cell: Probability) -> DeckView {
    DeckView { cards: d.cards.update(card, cell), size: d.size }
}

/// A deck whose every rank is exactly the given hand.
pub open spec fn known_cells(h: Seq<int>) -> DeckView {
    DeckView {
        cards: Seq::new(DECK_SIZE as nat, |i: int| Probability::Known(h[i] as u64)),
        size: sum_ints(h),
    }
}

/// Elementwise subtraction of one deck from another.
pub open spec fn sub_deck_spec(a: DeckView, b: DeckView) -> DeckView {
    DeckView {
        cards: Seq::new(a.cards.len(), |i: int| spec_combine_sub(a.cards[i], b.cards[i])),
        size: sat_sub(a.size, b.size),
    }
}

/// The opponents dealt so far and the pool they were dealt from: `k` players,
/// each drawing `STARTING_CARDS` unseen cards in turn.
pub open spec fn deal_spec(pool: DeckView, k: int) -> (Seq<DeckView>, DeckView)
    decreases k,
{
    if k <= 0 {
        (Seq::empty(), pool)
    } else {
        let prev = deal_spec(pool, k - 1);
        let pair = transfer_spec(empty_deck(), prev.1, STARTING_CARDS as int);
        (prev.0.push(pair.0), pair.1)
    }
}

/// The belief state a fresh observer starts from: a full pool, minus its own
/// hand when it has one, with every opponent dealt `STARTING_CARDS` unseen
/// cards.
pub open spec fn observer_new_spec(other_players: int, own: Option<Seq<int>>, id: int)
    -> ObserverView {
    let pool0 = full_deck();
    let pool1 = match own {
        Some(h) => sub_deck_spec(pool0, known_cells(h)),
        None => pool0,
    };
    let dealt = deal_spec(pool1, other_players);
    ObserverView { pool: dealt.1, others: dealt.0, own, id }
}

/// Effect of watching an opponent draw one unseen card from the pool.
pub open spec fn pickup_spec(o: ObserverView, player: int) -> ObserverView {
    let pair = transfer_spec(o.others[player], o.pool, 1);
    ObserverView { pool: pair.1, others: o.others.update(player, pair.0), own: o.own, id: o.id }
}

/// Effect of this seat itself drawing `rank`: the pool loses one known card,
/// the hand gains one, and a completed book leaves the hand at once.
pub open spec fn self_pickup_spec(o: ObserverView, card: int) -> ObserverView {
    match o.own {
        None => o,
        Some(h) => {
            let pool = remove_known_spec(o.pool, card, 1);
            let h1 = h.update(card, h[card] + 1);
            let h2 = if h1[card] == SUITS {
                h1.update(card, 0)
            } else {
                h1
            };
            ObserverView { pool, others: o.others, own: Some(h2), id: o.id }
        },
    }
}

/// Effect of this seat asking opponent `player` for `card` and receiving
/// `amount` copies: the hand grows, a completed book leaves the hand at
/// once, and the asked seat is now known empty for that rank — it handed
/// over every copy it held, or held none.  The known-empty record is this
/// seat's own observation and is made on a hit and on a miss alike; a miss
/// is still never broadcast to bystanders.
pub open spec fn self_query_spec(o: ObserverView, player: int, card: int, amount: int)
    -> ObserverView {
    match o.own {
        None => o,
        Some(h) => {
            let h1 = h.update(card, h[card] + amount);
            let others = o.others.update(
                player,
                DeckView {
                    cards: o.others[player].cards.update(card, Probability::Known(0)),
                    size: sat_sub(o.others[player].size, amount),
                },
            );
            let h2 = if h1[card] == SUITS {
                h1.update(card, 0)
            } else {
                h1
            };
            ObserverView { pool: o.pool, others, own: Some(h2), id: o.id }
        },
    }
}

/// Effect of this seat handing all its copies of `card` to the asker, and
/// what that asker now provably holds; `false` marks a transfer amount the
/// rules cannot yield.
pub open spec fn self_give_all_spec(o: ObserverView, player: int, card: int) -> (
    ObserverView,
    bool,
) {
    match o.own {
        None => (o, true),
        Some(h) => {
            if h[card] == 1 || h[card] == 2 || h[card] == 3 {
                let cell = if h[card] == 1 {
                    Probability::MoreThan(2)
                } else if h[card] == 2 {
                    Probability::Known(3)
                } else {
                    Probability::Known(0)
                };
                let others = o.others.update(player, set_card_spec(o.others[player], card, cell));
                (
                    ObserverView { pool: o.pool, others, own: Some(h.update(card, 0)), id: o.id },
                    true,
                )
            } else {
                (o, false)
            }
        },
    }
}

/// Every tracked opponent and the pool lose all claim to `card`: a completed
/// book leaves circulation for good.
pub open spec fn clear_rank_spec(o: ObserverView, card: int) -> ObserverView {
    ObserverView {
        pool: set_card_spec(o.pool, card, Probability::Known(0)),
        others: Seq::new(
            o.others.len(),
            |j: int| set_card_spec(o.others[j], card, Probability::Known(0)),
        ),
        own: o.own,
        id: o.id,
    }
}

/// A deck whose believed size grew by `amount` cards, stopping at the
/// machine limit.
pub open spec fn grow_size_spec(d: DeckView, amount: int) -> DeckView {
    DeckView { cards: d.cards, size: min(d.size + amount, usize::MAX as int) }
}

/// Effect of watching seat `current_player` ask seat `player` for `card` and
/// receive `amount` copies; `false` marks a transfer amount the rules cannot
/// yield.  The target is known empty for that rank afterwards; a placed book
/// clears the rank everywhere and leaves the believed pool four cards
/// smaller; otherwise the asker's believed hand grows by what it received.
pub open spec fn query_spec(
    o: ObserverView,
    current_player: int,
    player: int,
    card: int,
    amount: int,
    placed: bool,
) -> (ObserverView, bool) {
    let o1 = ObserverView {
        pool: o.pool,
        others: o.others.update(
            player,
            set_card_spec(o.others[player], card, Probability::Known(0)),
        ),
        own: o.own,
        id: o.id,
    };
    if placed {
        let o2 = clear_rank_spec(o1, card);
        (
            ObserverView {
                pool: DeckView { cards: o2.pool.cards, size: sat_sub(o2.pool.size, SUITS as int) },
                others: o2.others,
                own: o2.own,
                id: o2.id,
            },
            true,
        )
    } else {
        let o2 = ObserverView {
            pool: o1.pool,
            others: o1.others.update(
                current_player,
                grow_size_spec(o1.others[current_player], amount),
            ),
            own: o1.own,
            id: o1.id,
        };
        if amount == 2 {
            (
                ObserverView {
                    pool: o2.pool,
                    others: o2.others.update(
                        current_player,
                        set_card_spec(o2.others[current_player], card, Probability::Known(3)),
                    ),
                    own: o2.own,
                    id: o2.id,
                },
                true,
            )
        } else if amount == 1 {
            (
                ObserverView {
                    pool: o2.pool,
                    others: o2.others.update(
                        current_player,
                        set_card_spec(o2.others[current_player], card, Probability::MoreThan(2)),
                    ),
                    own: o2.own,
                    id: o2.id,
                },
                true,
            )
        } else {
            (o2, false)
        }
    }
}

/// Effect of observing a book of `card` being placed openly.
pub open spec fn place_spec(o: ObserverView, card: int) -> ObserverView {
    let o1 = clear_rank_spec(o, card);
    ObserverView {
        pool: remove_known_spec(o1.pool, card, SUITS as int),
        others: o1.others,
        own: o1.own,
        id: o1.id,
    }
}

/// A collection of cards a seat cannot see exactly, estimated rank by rank.
#[derive(Clone, Debug)]
pub struct Player {
    pub cards: Deck,
}

impl Player {
    /// Deals `amount` unseen starting cards to a fresh player out of `deck`.
    pub fn with_starting_cards(deck: &mut Deck, amount: usize) -> (p: Player)
        requires
            deck_wf(old(deck)@),
            amount <= SUITS * DECK_SIZE,
        ensures
            p.cards@ == transfer_spec(empty_deck(), old(deck)@, amount as int).0,
            final(deck)@ == transfer_spec(empty_deck(), old(deck)@, amount as int).1,
            deck_wf(p.cards@),
            deck_wf(final(deck)@),
            deck_umass(final(deck)@) <= deck_umass(old(deck)@),
            deck_umass(p.cards@) <= (DECK_SIZE as int) * ((amount as int) * (FRAC_UNIT as int)),
            estimate_only(old(deck)@) ==> estimate_only(final(deck)@),
            estimate_only(old(deck)@) && (deck_total(old(deck)@) == 0 || deck_total(old(deck)@)
                >= (amount as int) * (FRAC_UNIT as int)) ==> deck_umass(p.cards@) + deck_umass(
                final(deck)@,
            ) <= deck_umass(old(deck)@),
            0 < deck_total(old(deck)@) <= (amount as int) * (FRAC_UNIT as int) ==> deck_umass(
                final(deck)@,
            ) == 0,
    {
        let mut cards = Deck::new_empty();
        cards.add_unknown_from_other(deck, amount);
        Player { cards }
    }
}

impl Default for Player {
    /// A player holding an empty belief deck.
    fn default() -> (p: Player)
        ensures
            p.cards@ == empty_deck(),
    {
        Player { cards: Deck::new_empty() }
    }
}

/// Estimates what the pool and the other players could hold, using only what
/// the observing seat could legitimately see.
#[derive(Clone, Debug)]
pub struct GameObserver {
    /// The believed contents of the face-down pool.
    pub deck: Deck,
    /// One believed deck per opponent, in relative-slot order.
    pub other_players: Vec<Player>,
    /// This seat's exact hand; `None` for a pure spectator.
    pub own_deck: Option<KnownDeck>,
    /// This seat's absolute index.
    pub id: usize,
}

impl View for GameObserver {
    type V = ObserverView;

    open spec fn view(&self) -> ObserverView {
        ObserverView {
            pool: self.deck@,
            others: Seq::new(self.other_players@.len(), |j: int| self.other_players@[j].cards@),
            own: match self.own_deck {
                Some(h) => Some(counts_view(h)),
                None => None,
            },
            id: self.id as int,
        }
    }
}

impl GameObserver {
    /// Creates a new game observer.
    ///
    /// Pass `own_deck: None` for a seat that watches without holding a hand.
    /// A participant's hand never starts with a completed book: the match
    /// setup re-deals those.
    pub fn new(other_players: usize, own_deck: Option<KnownDeck>, id: usize) -> (o: GameObserver)
        requires
            match own_deck {
                Some(h) => forall|r: int| 0 <= r < DECK_SIZE ==> #[trigger] h@[r] < SUITS,
                None => true,
            },
        ensures
            o@ == observer_new_spec(
                other_players as int,
                match own_deck {
                    Some(h) => Some(counts_view(h)),
                    None => None,
                },
                id as int,
            ),
            obs_wf(o@),
            o@.others.len() == other_players,
            o.own_deck == own_deck,
            o.id == id,
    {
        let mut deck = Deck::new_full();
        match own_deck {
            Some(h) => {
                let kd = Deck::from_known(h);
                deck.remove(&kd);
                proof {
                    assert(deck@.cards =~= sub_deck_spec(full_deck(), known_cells(counts_view(h))).cards);
                    assert(deck@ =~= sub_deck_spec(full_deck(), known_cells(counts_view(h))));
                }
            },
            None => {},
        }
        let ghost pool1 = deck@;
        proof {
            assert forall|i: int|
                0 <= i < pool1.cards.len() implies spec_value(#[trigger] pool1.cards[i])
                == spec_umass(pool1.cards[i]) by {}
            assert(estimate_only(pool1));
        }
        let ghost own_v: Option<Seq<int>> = match own_deck {
            Some(h) => Some(counts_view(h)),
            None => None,
        };
        let mut players: Vec<Player> = Vec::new();
        let mut k: usize = 0;
        while k < other_players
            invariant
                players@.len() == k,
                k <= other_players,
                deck_wf(pool1),
                deck_umass(pool1) <= full_mass(),
                deck@ == deal_spec(pool1, k as int).1,
                Seq::new(players@.len(), |j: int| players@[j].cards@) =~= deal_spec(
                    pool1,
                    k as int,
                ).0,
                deck_wf(deck@),
                estimate_only(deck@),
                forall|j: int| 0 <= j < players@.len() ==> deck_wf(#[trigger] players@[j].cards@),
                others_umass(Seq::new(players@.len(), |j: int| players@[j].cards@)) + deck_umass(
                    deck@,
                ) <= deck_umass(pool1) || (deck_umass(deck@) == 0 && others_umass(
                    Seq::new(players@.len(), |j: int| players@[j].cards@),
                ) + deck_umass(deck@) <= deck_umass(pool1) + umass_slack()),
            decreases other_players - k,
        {
            let ghost views_before = Seq::new(players@.len(), |j: int| players@[j].cards@);
            let ghost pool_before = deck@;
            proof {
                lemma_others_umass_nonneg(views_before);
                lemma_sum_values_nonneg(pool_before.cards);
                lemma_sum_values_eq_umass(pool_before.cards);
            }
            let p = Player::with_starting_cards(&mut deck, STARTING_CARDS);
            players.push(p);
            k = k + 1;
            proof {
                let views_after = Seq::new(players@.len(), |j: int| players@[j].cards@);
                assert(views_after =~= views_before.push(p.cards@));
                lemma_others_umass_push(views_before, p.cards@);
                assert(views_after =~= deal_spec(pool1, k as int).0);
                lemma_sum_values_nonneg(p.cards@.cards);
                lemma_sum_values_nonneg(deck@.cards);
                let af = (STARTING_CARDS as int) * (FRAC_UNIT as int);
                assert((DECK_SIZE as int) * af == umass_slack()) by (nonlinear_arith)
                    requires
                        af == (STARTING_CARDS as int) * (FRAC_UNIT as int),
                ;
            }
        }
        let o = GameObserver { deck, other_players: players, own_deck, id };
        proof {
            assert(o@.others =~= deal_spec(pool1, other_players as int).0);
            assert(o@ =~= observer_new_spec(other_players as int, own_v, id as int));
            lemma_sum_values_nonneg(o@.pool.cards);
            lemma_others_umass_nonneg(o@.others);
        }
        o
    }

    /// Observes opponent slot `player` picking up a card from the pool.
    pub fn pickup(&mut self, player: usize)
        requires
            obs_wf(old(self)@),
            player < old(self)@.others.len(),
        ensures
            final(self)@ == pickup_spec(old(self)@, player as int),
            obs_wf(final(self)@),
            final(self)@.others.len() == old(self)@.others.len(),
    {
        let ghost o0 = self@;
        proof {
            lemma_others_umass_elem(o0.others, player as int);
            lemma_sum_values_nonneg(o0.pool.cards);
        }
        proof {
            lemma_others_umass_nonneg(o0.others);
            lemma_sum_values_eq_umass(o0.pool.cards);
        }
        self.other_players[player].cards.add_unknown_from_other(&mut self.deck, 1);
        proof {
            let pair = transfer_spec(o0.others[player as int], o0.pool, 1);
            assert(self@.others =~= o0.others.update(player as int, pair.0));
            assert(self@ =~= pickup_spec(o0, player as int));
            lemma_others_umass_update(o0.others, player as int, pair.0);
            lemma_sum_values_nonneg(self@.pool.cards);
            lemma_sum_values_nonneg(pair.0.cards);
            assert((DECK_SIZE as int) * (1 * (FRAC_UNIT as int)) <= umass_slack());
        }
    }

    /// Observes this seat itself picking up `card` from the pool.
    pub fn self_pickup(&mut self, card: usize)
        requires
            obs_wf(old(self)@),
            card < DECK_SIZE,
        ensures
            final(self)@ == self_pickup_spec(old(self)@, card as int),
            obs_wf(final(self)@),
            final(self)@.others.len() == old(self)@.others.len(),
    {
        let ghost o0 = self@;
        match self.own_deck {
            None => {},
            Some(h) => {
                self.deck.remove_known_cards(card, 1);
                let mut h2 = h;
                h2[card] = h2[card] + 1;
                if h2[card] == SUITS {
                    h2[card] = 0;
                }
                self.own_deck = Some(h2);
                proof {
                    let sp = self_pickup_spec(o0, card as int);
                    assert(counts_view(h2) =~= sp.own->0);
                    assert(self@ =~= sp);
                    lemma_sum_values_nonneg(self@.pool.cards);
                    assert forall|i: int|
                        0 <= i < self@.pool.cards.len() implies spec_value(
                        #[trigger] self@.pool.cards[i],
                    ) == spec_umass(self@.pool.cards[i]) by {
                        assert(spec_value(o0.pool.cards[i]) == spec_umass(o0.pool.cards[i]));
                        lemma_sub_known_keeps_estimate(o0.pool.cards[i], 1);
                    }
                }
            },
        }
    }

    /// Observes this seat asking opponent slot `player` for `card` and
    /// receiving `amount` copies; `amount` may be zero on a miss, and either
    /// way the asked seat is afterwards known empty for that rank, since it
    /// had to hand over everything it held.  The four copies in existence
    /// bound what the hand can come to hold.
    pub fn self_query(&mut self, player: usize, card: usize, amount: usize)
        requires
            obs_wf(old(self)@),
            player < old(self)@.others.len(),
            card < DECK_SIZE,
            amount <= SUITS,
            match old(self)@.own {
                Some(h) => h[card as int] + amount <= SUITS,
                None => true,
            },
        ensures
            final(self)@ == self_query_spec(old(self)@, player as int, card as int, amount as int),
            obs_wf(final(self)@),
            final(self)@.others.len() == old(self)@.others.len(),
    {
        let ghost o0 = self@;
        match self.own_deck {
            None => {},
            Some(h) => {
                let mut h2 = h;
                h2[card] = h2[card] + amount;
                self.other_players[player].cards.set_card(card, Probability::Known(0));
                let s = self.other_players[player].cards.size;
                self.other_players[player].cards.size = if s >= amount {
                    s - amount
                } else {
                    0
                };
                if h2[card] == SUITS {
                    h2[card] = 0;
                }
                self.own_deck = Some(h2);
                proof {
                    let sp = self_query_spec(o0, player as int, card as int, amount as int);
                    assert(counts_view(h2) =~= sp.own->0);
                    assert(self@.others =~= sp.others);
                    assert(self@ =~= sp);
                    lemma_others_umass_update(
                        o0.others,
                        player as int,
                        sp.others[player as int],
                    );
                    lemma_others_umass_elem(o0.others, player as int);
                    lemma_sum_values_update(
                        o0.others[player as int].cards,
                        card as int,
                        Probability::Known(0),
                    );
                }
            },
        }
    }

    /// Observes this seat handing every copy of `card` it holds to the seat
    /// at opponent slot `player`; errs when the hand holds an amount the
    /// rules cannot yield.
    pub fn self_give_all(&mut self, player: usize, card: usize) -> (r: Result<(), GameError>)
        requires
            obs_wf(old(self)@),
            player < old(self)@.others.len(),
            card < DECK_SIZE,
        ensures
            final(self)@ == self_give_all_spec(old(self)@, player as int, card as int).0,
            r is Ok <==> self_give_all_spec(old(self)@, player as int, card as int).1,
            r is Err ==> r == Err::<(), GameError>(GameError::InvalidTransferAmount),
            obs_wf(final(self)@),
            final(self)@.others.len() == old(self)@.others.len(),
    {
        let ghost o0 = self@;
        match self.own_deck {
            None => Ok(()),
            Some(h) => {
                let n = h[card];
                if n == 0 || n > 3 {
                    return Err(GameError::InvalidTransferAmount);
                }
                let cell = if n == 1 {
                    Probability::MoreThan(2)
                } else if n == 2 {
                    Probability::Known(3)
                } else {
                    Probability::Known(0)
                };
                self.other_players[player].cards.set_card(card, cell);
                let mut h2 = h;
                h2[card] = 0;
                self.own_deck = Some(h2);
                proof {
                    let sp = self_give_all_spec(o0, player as int, card as int).0;
                    assert(counts_view(h2) =~= sp.own->0);
                    assert(self@.others =~= sp.others);
                    assert(self@ =~= sp);
                    lemma_others_umass_update(
                        o0.others,
                        player as int,
                        set_card_spec(o0.others[player as int], card as int, cell),
                    );
                    lemma_others_umass_elem(o0.others, player as int);
                    lemma_sum_values_update(
                        o0.others[player as int].cards,
                        card as int,
                        cell,
                    );
                }
                Ok(())
            },
        }
    }

    /// Observes seat slot `current_player` asking seat slot `player` for
    /// `card` and receiving `amount` copies; `placed` reports that the asker
    /// completed the book.  Errs when the amount is outside what an observed
    /// exchange can carry.
    pub fn query(
        &mut self,
        current_player: usize,
        player: usize,
        card: usize,
        amount_received: usize,
        placed: bool,
    ) -> (r: Result<(), GameError>)
        requires
            obs_wf(old(self)@),
            current_player < old(self)@.others.len(),
            player < old(self)@.others.len(),
            card < DECK_SIZE,
        ensures
            final(self)@ == query_spec(
                old(self)@,
                current_player as int,
                player as int,
                card as int,
                amount_received as int,
                placed,
            ).0,
            r is Ok <==> query_spec(
                old(self)@,
                current_player as int,
                player as int,
                card as int,
                amount_received as int,
                placed,
            ).1,
            r is Err ==> r == Err::<(), GameError>(GameError::InvalidTransferAmount),
            obs_wf(final(self)@),
            final(self)@.others.len() == old(self)@.others.len(),
    {
        let ghost o0 = self@;
        self.other_players[player].cards.set_card(card, Probability::Known(0));
        let ghost o1 = query_first_step(o0, player as int, card as int);
        proof {
            assert(self@.others =~= o1.others);
            assert(self@ =~= o1);
            lemma_others_umass_update(
                o0.others,
                player as int,
                set_card_spec(o0.others[player as int], card as int, Probability::Known(0)),
            );
            lemma_others_umass_elem(o0.others, player as int);
            lemma_sum_values_update(
                o0.others[player as int].cards,
                card as int,
                Probability::Known(0),
            );
        }
        if placed {
            self.remove_all_cards_with_id(card);
            let s = self.deck.size;
            self.deck.size = if s >= SUITS {
                s - SUITS
            } else {
                0
            };
            proof {
                let sp = query_spec(
                    o0,
                    current_player as int,
                    player as int,
                    card as int,
                    amount_received as int,
                    placed,
                ).0;
                assert(self@.others =~= sp.others);
                assert(self@ =~= sp);
            }
            return Ok(());
        }
        let s = self.other_players[current_player].cards.size;
        let grown = if s <= usize::MAX - amount_received {
            s + amount_received
        } else {
            usize::MAX
        };
        self.other_players[current_player].cards.size = grown;
        let ghost g1 = grow_size_spec(o1.others[current_player as int], amount_received as int);
        let ghost o2 = ObserverView {
            pool: o1.pool,
            others: o1.others.update(current_player as int, g1),
            own: o1.own,
            id: o1.id,
        };
        proof {
            assert(self@.others =~= o2.others);
            assert(self@ =~= o2);
            lemma_others_umass_update(o1.others, current_player as int, g1);
            lemma_others_umass_elem(o1.others, current_player as int);
        }
        if amount_received == 2 {
            self.other_players[current_player].cards.set_card(card, Probability::Known(3));
        } else if amount_received == 1 {
            self.other_players[current_player].cards.set_card(card, Probability::MoreThan(2));
        } else {
            return Err(GameError::InvalidTransferAmount);
        }
        proof {
            let cell = if amount_received == 2 {
                Probability::Known(3)
            } else {
                Probability::MoreThan(2)
            };
            let sp = query_spec(
                o0,
                current_player as int,
                player as int,
                card as int,
                amount_received as int,
                placed,
            ).0;
            assert(self@.others =~= sp.others);
            assert(self@ =~= sp);
            lemma_others_umass_update(
                o2.others,
                current_player as int,
                set_card_spec(o2.others[current_player as int], card as int, cell),
            );
            lemma_others_umass_elem(o2.others, current_player as int);
            lemma_sum_values_update(
                o2.others[current_player as int].cards,
                card as int,
                cell,
            );
        }
        Ok(())
    }

    /// Observes a book of `card` being placed openly, outside an ask.
    pub fn place(&mut self, card: usize)
        requires
            obs_wf(old(self)@),
            card < DECK_SIZE,
        ensures
            final(self)@ == place_spec(old(self)@, card as int),
            obs_wf(final(self)@),
            final(self)@.others.len() == old(self)@.others.len(),
    {
        let ghost o0 = self@;
        self.remove_all_cards_with_id(card);
        let ghost o1 = self@;
        self.deck.remove_known_cards(card, SUITS);
        proof {
            assert(self@ =~= place_spec(o0, card as int));
            lemma_sum_values_nonneg(self@.pool.cards);
            assert forall|i: int|
                0 <= i < self@.pool.cards.len() implies spec_value(#[trigger] self@.pool.cards[i])
                == spec_umass(self@.pool.cards[i]) by {
                assert(spec_value(o1.pool.cards[i]) == spec_umass(o1.pool.cards[i]));
                lemma_sub_known_keeps_estimate(o1.pool.cards[i], SUITS as u64);
            }
        }
    }

    /// Is `m` a move this seat may legally make?  Drawing needs a pool with
    /// mass left; asking needs another seat as target and at least one copy
    /// of the rank in this seat's own hand.
    pub fn move_is_legal(&self, m: &Move) -> (r: bool)
        requires
            deck_wf(self@.pool),
            match *m {
                Move::Query(q) => q.card < DECK_SIZE,
                Move::Pickup => true,
            },
        ensures
            r == spec_move_is_legal(self@, *m),
    {
        match m {
            Move::Pickup => self.deck.total() > 0,
            Move::Query(q) => {
                if q.player != self.id {
                    match self.own_deck {
                        Some(h) => h[q.card] > 0,
                        None => false,
                    }
                } else {
                    false
                }
            },
        }
    }

    /// Clears every belief about `id`: all tracked opponents and the pool.
    fn remove_all_cards_with_id(&mut self, id: usize)
        requires
            obs_wf(old(self)@),
            id < DECK_SIZE,
        ensures
            final(self)@ == clear_rank_spec(old(self)@, id as int),
            obs_wf(final(self)@),
            final(self)@.others.len() == old(self)@.others.len(),
    {
        let ghost o0 = self@;
        let n = self.other_players.len();
        let mut i: usize = 0;
        while i < n
            invariant
                n == o0.others.len(),
                i <= n,
                id < DECK_SIZE,
                self.other_players@.len() == n,
                self.deck@ == o0.pool,
                self.own_deck == old(self).own_deck,
                self.id == old(self).id,
                obs_wf(o0),
                forall|j: int|
                    0 <= j < i ==> #[trigger] self.other_players@[j].cards@ == set_card_spec(
                        o0.others[j],
                        id as int,
                        Probability::Known(0),
                    ),
                forall|j: int|
                    i <= j < n ==> #[trigger] self.other_players@[j].cards@ == o0.others[j],
            decreases n - i,
        {
            self.other_players[i].cards.set_card(id, Probability::Known(0));
            i = i + 1;
        }
        self.deck.set_card(id, Probability::Known(0));
        proof {
            let sp = clear_rank_spec(o0, id as int);
            assert(self@.others =~= sp.others);
            assert(self@ =~= sp);
            lemma_sum_values_update(o0.pool.cards, id as int, Probability::Known(0));
            assert forall|j: int|
                0 <= j < sp.others.len() implies deck_umass(#[trigger] sp.others[j]) <= deck_umass(
                o0.others[j],
            ) by {
                lemma_sum_values_update(o0.others[j].cards, id as int, Probability::Known(0));
            }
            lemma_others_umass_pointwise(sp.others, o0.others);
            lemma_sum_values_nonneg(o0.pool.cards);
            lemma_sum_values_nonneg(self@.pool.cards);
            assert forall|i: int|
                0 <= i < self@.pool.cards.len() implies spec_value(#[trigger] self@.pool.cards[i])
                == spec_umass(self@.pool.cards[i]) by {
                assert(spec_value(o0.pool.cards[i]) == spec_umass(o0.pool.cards[i]));
            }
        }
    }
}

/// The target's rank set to known-empty: the first thing every watcher of an
/// ask records.
pub open spec fn query_first_step(o: ObserverView, player: int, card: int) -> ObserverView {
    ObserverView {
        pool: o.pool,
        others: o.others.update(
            player,
            set_card_spec(o.others[player], card, Probability::Known(0)),
        ),
        own: o.own,
        id: o.id,
    }
}

/// Is `m` legal for the seat whose belief is `o`?
pub open spec fn spec_move_is_legal(o: ObserverView, m: Move) -> bool {
    match m {
        Move::Pickup => deck_total(o.pool) > 0,
        Move::Query(q) => q.player != o.id && (match o.own {
            Some(h) => h[q.card as int] > 0,
            None => false,
        }),
    }
}

/// One observable game fact, addressed to a single seat's belief.  Opponent
/// indices are slots of that seat's own opponent list.
#[derive(Clone, Copy, Debug, PartialEq, Eq, Structural)]
pub enum Event {
    /// The opponent at this slot drew one unseen card from the pool.
    ObserveDraw { opponent: usize },
    /// This seat itself drew the given rank.
    SelfDraw { rank: usize },
    /// A watched exchange: `asker` asked `target` for `rank` and received
    /// `amount` copies; `placed` reports a completed book.
    ObserveAsk { asker: usize, target: usize, rank: usize, amount: usize, placed: bool },
    /// This seat asked `target` for `rank` and received `amount` copies.
    SelfAsk { target: usize, rank: usize, amount: usize },
    /// This seat was asked and handed every copy of `rank` to `asker`.
    SelfGiveAll { asker: usize, rank: usize },
}

/// The conditions under which an event addresses `o` meaningfully: slots in
/// range, ranks in range, amounts within the four copies in existence.
pub open spec fn event_ok(o: ObserverView, e: Event) -> bool {
    match e {
        Event::ObserveDraw { opponent } => opponent < o.others.len(),
        Event::SelfDraw { rank } => rank < DECK_SIZE,
        Event::ObserveAsk { asker, target, rank, amount, placed } => asker < o.others.len()
            && target < o.others.len() && rank < DECK_SIZE,
        Event::SelfAsk { target, rank, amount } => target < o.others.len() && rank < DECK_SIZE
            && amount <= SUITS && (match o.own {
            Some(h) => h[rank as int] + amount <= SUITS,
            None => true,
        }),
        Event::SelfGiveAll { asker, rank } => asker < o.others.len() && rank < DECK_SIZE,
    }
}

/// The belief state after one event, and whether the event was within the
/// rules (`false` marks a protocol violation).
pub open spec fn apply_event_spec(o: ObserverView, e: Event) -> (ObserverView, bool) {
    match e {
        Event::ObserveDraw { opponent } => (pickup_spec(o, opponent as int), true),
        Event::SelfDraw { rank } => (self_pickup_spec(o, rank as int), true),
        Event::ObserveAsk { asker, target, rank, amount, placed } => query_spec(
            o,
            asker as int,
            target as int,
            rank as int,
            amount as int,
            placed,
        ),
        Event::SelfAsk { target, rank, amount } => (
            self_query_spec(o, target as int, rank as int, amount as int),
            true,
        ),
        Event::SelfGiveAll { asker, rank } => self_give_all_spec(o, asker as int, rank as int),
    }
}

/// Every event of the log addresses the belief it reaches meaningfully.
pub open spec fn log_ok(o: ObserverView, log: Seq<Event>) -> bool
    decreases log.len(),
{
    log.len() == 0 || (event_ok(o, log[0]) && log_ok(apply_event_spec(o, log[0]).0, log.drop_first()))
}

/// The belief state after replaying a whole log, and whether every event was
/// within the rules; a violation stops the replay where it happened.
pub open spec fn replay_spec(o: ObserverView, log: Seq<Event>) -> (ObserverView, bool)
    decreases log.len(),
{
    if log.len() == 0 {
        (o, true)
    } else {
        let head = apply_event_spec(o, log[0]);
        if head.1 {
            replay_spec(head.0, log.drop_first())
        } else {
            (head.0, false)
        }
    }
}

impl GameObserver {
    /// Applies one observed event to this belief.
    pub fn apply_event(&mut self, e: &Event) -> (r: Result<(), GameError>)
        requires
            obs_wf(old(self)@),
            event_ok(old(self)@, *e),
        ensures
            final(self)@ == apply_event_spec(old(self)@, *e).0,
            r is Ok <==> apply_event_spec(old(self)@, *e).1,
            r is Err ==> r == Err::<(), GameError>(GameError::InvalidTransferAmount),
            obs_wf(final(self)@),
            final(self)@.others.len() == old(self)@.others.len(),
    {
        match e {
            Event::ObserveDraw { opponent } => {
                self.pickup(*opponent);
                Ok(())
            },
            Event::SelfDraw { rank } => {
                self.self_pickup(*rank);
                Ok(())
            },
            Event::ObserveAsk { asker, target, rank, amount, placed } => self.query(
                *asker,
                *target,
                *rank,
                *amount,
                *placed,
            ),
            Event::SelfAsk { target, rank, amount } => {
                self.self_query(*target, *rank, *amount);
                Ok(())
            },
            Event::SelfGiveAll { asker, rank } => self.self_give_all(*asker, *rank),
        }
    }
}

impl GameObserver {
    /// Replays an ordered event log into this belief, event by event; stops
    /// with the error where an event breaks the rules.  The outcome is a
    /// pure function of the starting belief and the log.
    pub fn replay(&mut self, log: &Vec<Event>) -> (r: Result<(), GameError>)
        requires
            obs_wf(old(self)@),
            log_ok(old(self)@, log@),
        ensures
            replay_spec(old(self)@, log@).1 <==> r is Ok,
            final(self)@ == replay_spec(old(self)@, log@).0,
            r is Err ==> r == Err::<(), GameError>(GameError::InvalidTransferAmount),
            obs_wf(final(self)@),
    {
        let ghost o0 = self@;
        let n = log.len();
        let mut i: usize = 0;
        proof {
            assert(log@.skip(0) =~= log@);
        }
        while i < n
            invariant
                i <= n,
                n == log@.len(),
                o0 == old(self)@,
                obs_wf(self@),
                log_ok(self@, log@.skip(i as int)),
                replay_spec(o0, log@) == replay_spec(self@, log@.skip(i as int)),
            decreases n - i,
        {
            let ghost before = self@;
            let ghost rest = log@.skip(i as int);
            proof {
                assert(rest[0] == log@[i as int]);
            }
            let r = self.apply_event(&log[i]);
            match r {
                Ok(()) => {},
                Err(e) => {
                    proof {
                        assert(rest.len() > 0);
                        assert(!apply_event_spec(before, rest[0]).1);
                        assert(replay_spec(before, rest) == (
                            apply_event_spec(before, rest[0]).0,
                            false,
                        ));
                        assert(!replay_spec(o0, log@).1);
                    }
                    return Err(e);
                },
            }
            i = i + 1;
            proof {
                assert(rest.drop_first() =~= log@.skip(i as int));
                assert(replay_spec(before, rest) == replay_spec(self@, log@.skip(i as int)));
            }
        }
        proof {
            assert(log@.skip(n as int) =~= Seq::<Event>::empty());
        }
        Ok(())
    }
}

} // verus!
