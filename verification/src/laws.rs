//! The algebraic and protocol laws the library guarantees, stated as proofs.

use vstd::prelude::*;

use crate::observer::{
    apply_event_spec, event_ok, obs_wf, replay_spec, spec_abs_to_rel, spec_rel_to_abs, Event,
    ObserverView, DECK_SIZE,
};
use crate::probability::{
    spec_combine_add, spec_combine_sub, spec_umass, spec_value, Probability,
};

verus! {

/// Adding two exactly-known counts stays exactly known: `Known(a) + Known(b)`
/// is `Known(a + b)`.
pub proof fn lemma_add_known(a: u64, b: u64)
    requires
        a + b <= u64::MAX,
    ensures
        spec_combine_add(Probability::Known(a), Probability::Known(b)) == Probability::Known(
            (a + b) as u64,
        ),
{
}

/// Combining never loses certainty: the sum of two cells is an `Unknown`
/// estimate only when both operands already were.
pub proof fn lemma_add_keeps_certainty(a: Probability, b: Probability)
    ensures
        !(a is Unknown) || !(b is Unknown) ==> !(spec_combine_add(a, b) is Unknown),
{
}

/// Subtraction saturates at zero: no combination ever yields a negative
/// count or a negative estimate.
pub proof fn lemma_sub_never_negative(a: Probability, b: Probability)
    ensures
        spec_value(spec_combine_sub(a, b)) >= 0,
        spec_umass(spec_combine_sub(a, b)) >= 0,
{
}

/// Which opponent-rank cells one event may speak about: the event must name
/// that rank, for that opponent — a watched draw names no rank at all, and a
/// watched placed book names its rank for everyone.
pub open spec fn event_mentions(e: Event, j: int, k: int) -> bool {
    match e {
        Event::ObserveDraw { opponent } => false,
        Event::SelfDraw { rank } => false,
        Event::ObserveAsk { asker, target, rank, amount, placed } => k == rank && (j == target
            || j == asker || placed),
        Event::SelfAsk { target, rank, amount } => k == rank && j == target,
        Event::SelfGiveAll { asker, rank } => k == rank && j == asker,
    }
}

/// No peeking: a seat's belief cell about an opponent leaves the `Unknown`
/// state — becomes `Known` or `MoreThan` — only through an observed event
/// that mentions that rank for that opponent.  Nothing a seat merely infers
/// can sharpen its belief beyond what it has seen.
pub proof fn lemma_no_peek(o: ObserverView, e: Event, j: int, k: int)
    requires
        event_ok(o, e),
        0 <= j < o.others.len(),
        0 <= k < DECK_SIZE,
        o.others[j].cards.len() == DECK_SIZE,
        o.others[j].cards[k] is Unknown,
        !(apply_event_spec(o, e).0.others[j].cards[k] is Unknown),
    ensures
        event_mentions(e, j, k),
{
}

/// Re-derivation is deterministic: replaying one ordered event log into two
/// equal fresh beliefs yields bit-identical belief states.  A belief is a
/// pure function of its starting state and the events it has seen, nothing
/// else.
pub proof fn lemma_replay_deterministic(o1: ObserverView, o2: ObserverView, log: Seq<Event>)
    requires
        o1 == o2,
    ensures
        replay_spec(o1, log) == replay_spec(o2, log),
{
}

/// The two seat-index translations invert each other: every opponent slot
/// names a distinct seat, and every seat other than the observer has exactly
/// one slot.
pub proof fn lemma_relative_index_inverse(self_id: int, absolute: int, rel: int)
    requires
        0 <= self_id,
        0 <= absolute,
        absolute != self_id,
        0 <= rel,
    ensures
        spec_rel_to_abs(self_id, spec_abs_to_rel(self_id, absolute)) == absolute,
        spec_abs_to_rel(self_id, spec_rel_to_abs(self_id, rel)) == rel,
        spec_rel_to_abs(self_id, rel) != self_id,
{
}

} // verus!
