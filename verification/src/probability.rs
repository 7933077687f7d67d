//! The tri-state per-rank estimate and its combination algebra.

use vstd::prelude::*;

verus! {

/// Fixed-point mass scale: one physical card weighs `FRAC_UNIT` units in the
/// fractional leg of an estimate.
pub const FRAC_UNIT: u64 = 10_000;

/// Largest exact count a well-formed cell carries.
pub const COUNT_CAP: u64 = 100_000_000;

/// Largest fractional mass a well-formed cell carries.
pub const MASS_CAP: u64 = COUNT_CAP * FRAC_UNIT;

/// One seat's estimate of how many copies of a single rank a hidden pile holds.
///
/// The three states are ordered by informativeness: an `Unknown` estimate says
/// the least, a `MoreThan` bound more, a `Known` count everything.  Combining
/// two cells never regresses below the more certain operand.
#[derive(Clone, Copy, Debug, PartialEq, Eq, Structural)]
pub enum Probability {
    /// Accumulated fractional mass, in `FRAC_UNIT` units per card; an expected
    /// count not yet pinned to an integer.
    Unknown(u64),
    /// An exactly observed count of cards.
    Known(u64),
    /// A proven lower bound on the count.
    MoreThan(u64),
}

/// Well-formedness: both kinds of leg stay far below overflow territory.
pub open spec fn p_wf(p: Probability) -> bool {
    match p {
        Probability::Unknown(x) => x <= MASS_CAP,
        Probability::Known(n) => n <= COUNT_CAP,
        Probability::MoreThan(n) => n <= COUNT_CAP,
    }
}

/// Point estimate of a cell, in `FRAC_UNIT` units per card.
pub open spec fn spec_value(p: Probability) -> int {
    match p {
        Probability::Unknown(x) => x as int,
        Probability::Known(n) => n * FRAC_UNIT,
        Probability::MoreThan(n) => n * FRAC_UNIT,
    }
}

/// The fractional (not yet pinned) share of a cell's mass.
pub open spec fn spec_umass(p: Probability) -> int {
    match p {
        Probability::Unknown(x) => x as int,
        Probability::Known(_) => 0,
        Probability::MoreThan(_) => 0,
    }
}

/// Subtraction that stops at zero instead of going negative.
pub open spec fn sat_sub(x: int, y: int) -> int {
    if x >= y {
        x - y
    } else {
        0
    }
}

/// The addition table.  Once either operand is `Known` or `MoreThan` the
/// result keeps at least that certainty; only two `Unknown` estimates add as
/// plain mass.
pub open spec fn spec_combine_add(a: Probability, b: Probability) -> Probability {
    match (a, b) {
        (Probability::Unknown(x), Probability::Unknown(y)) => Probability::Unknown((x + y) as u64),
        (Probability::Unknown(_), Probability::Known(y)) => Probability::MoreThan(y),
        (Probability::Unknown(_), Probability::MoreThan(y)) => Probability::MoreThan(y),
        (Probability::Known(x), Probability::Unknown(_)) => Probability::MoreThan(x),
        (Probability::Known(x), Probability::Known(y)) => Probability::Known((x + y) as u64),
        (Probability::Known(x), Probability::MoreThan(y)) => Probability::MoreThan((x + y) as u64),
        (Probability::MoreThan(x), Probability::Unknown(_)) => Probability::MoreThan(x),
        (Probability::MoreThan(x), Probability::Known(y)) => Probability::MoreThan((x + y) as u64),
        (Probability::MoreThan(x), Probability::MoreThan(y)) => Probability::MoreThan(
            (x + y) as u64,
        ),
    }
}

/// The machine limit under which the addition table is exact.
pub open spec fn add_fits(a: Probability, b: Probability) -> bool {
    match (a, b) {
        (Probability::Unknown(x), Probability::Unknown(y)) => x + y <= u64::MAX,
        (Probability::Known(x), Probability::Known(y)) => x + y <= u64::MAX,
        (Probability::Known(x), Probability::MoreThan(y)) => x + y <= u64::MAX,
        (Probability::MoreThan(x), Probability::Known(y)) => x + y <= u64::MAX,
        (Probability::MoreThan(x), Probability::MoreThan(y)) => x + y <= u64::MAX,
        _ => true,
    }
}

/// The subtraction table.  Integer legs saturate at zero; subtracting a bound
/// from an estimate snaps conservatively to that bound.
pub open spec fn spec_combine_sub(a: Probability, b: Probability) -> Probability {
    match (a, b) {
        (Probability::Unknown(x), Probability::Unknown(y)) => Probability::Unknown(
            sat_sub(x as int, y as int) as u64,
        ),
        (Probability::Unknown(x), Probability::Known(y)) => Probability::Unknown(
            sat_sub(x as int, y * FRAC_UNIT) as u64,
        ),
        (Probability::Unknown(_), Probability::MoreThan(y)) => Probability::MoreThan(y),
        (Probability::Known(x), Probability::Unknown(_)) => Probability::Known(x),
        (Probability::Known(x), Probability::Known(y)) => Probability::Known(
            sat_sub(x as int, y as int) as u64,
        ),
        (Probability::Known(x), Probability::MoreThan(y)) => Probability::MoreThan(
            sat_sub(x as int, y as int) as u64,
        ),
        (Probability::MoreThan(x), Probability::Unknown(_)) => Probability::MoreThan(x),
        (Probability::MoreThan(x), Probability::Known(y)) => Probability::MoreThan(
            sat_sub(x as int, y as int) as u64,
        ),
        (Probability::MoreThan(x), Probability::MoreThan(y)) => Probability::MoreThan(
            sat_sub(x as int, y as int) as u64,
        ),
    }
}

/// The machine limit under which the subtraction table is exact: only the
/// estimate-minus-count arm rescales a count into mass units.
pub open spec fn sub_fits(a: Probability, b: Probability) -> bool {
    match (a, b) {
        (Probability::Unknown(_), Probability::Known(y)) => y * FRAC_UNIT <= u64::MAX,
        _ => true,
    }
}

impl Probability {
    /// Point estimate usable whatever the variant, in `FRAC_UNIT` units per
    /// card.
    pub fn value(&self) -> (v: u64)
        requires
            p_wf(*self),
        ensures
            v == spec_value(*self),
            v <= MASS_CAP,
    {
        match self {
            Probability::Unknown(x) => *x,
            Probability::Known(n) => *n * FRAC_UNIT,
            Probability::MoreThan(n) => *n * FRAC_UNIT,
        }
    }

    /// Named combination rule for `self + other`; not ordinary addition once
    /// the variants differ.
    pub fn combine_add(self, rhs: Probability) -> (r: Probability)
        requires
            add_fits(self, rhs),
        ensures
            r == spec_combine_add(self, rhs),
    {
        match (self, rhs) {
            (Probability::Unknown(x), Probability::Unknown(y)) => Probability::Unknown(x + y),
            (Probability::Unknown(_), Probability::Known(y)) => Probability::MoreThan(y),
            (Probability::Unknown(_), Probability::MoreThan(y)) => Probability::MoreThan(y),
            (Probability::Known(x), Probability::Unknown(_)) => Probability::MoreThan(x),
            (Probability::Known(x), Probability::Known(y)) => Probability::Known(x + y),
            (Probability::Known(x), Probability::MoreThan(y)) => Probability::MoreThan(x + y),
            (Probability::MoreThan(x), Probability::Unknown(_)) => Probability::MoreThan(x),
            (Probability::MoreThan(x), Probability::Known(y)) => Probability::MoreThan(x + y),
            (Probability::MoreThan(x), Probability::MoreThan(y)) => Probability::MoreThan(x + y),
        }
    }

    /// Named combination rule for `self - other`, saturating at zero.
    pub fn combine_sub(self, rhs: Probability) -> (r: Probability)
        requires
            sub_fits(self, rhs),
        ensures
            r == spec_combine_sub(self, rhs),
    {
        match (self, rhs) {
            (Probability::Unknown(x), Probability::Unknown(y)) => Probability::Unknown(
                if x >= y {
                    x - y
                } else {
                    0
                },
            ),
            (Probability::Unknown(x), Probability::Known(y)) => {
                let m = y * FRAC_UNIT;
                Probability::Unknown(
                    if x >= m {
                        x - m
                    } else {
                        0
                    },
                )
            },
            (Probability::Unknown(_), Probability::MoreThan(y)) => Probability::MoreThan(y),
            (Probability::Known(x), Probability::Unknown(_)) => Probability::Known(x),
            (Probability::Known(x), Probability::Known(y)) => Probability::Known(
                if x >= y {
                    x - y
                } else {
                    0
                },
            ),
            (Probability::Known(x), Probability::MoreThan(y)) => Probability::MoreThan(
                if x >= y {
                    x - y
                } else {
                    0
                },
            ),
            (Probability::MoreThan(x), Probability::Unknown(_)) => Probability::MoreThan(x),
            (Probability::MoreThan(x), Probability::Known(y)) => Probability::MoreThan(
                if x >= y {
                    x - y
                } else {
                    0
                },
            ),
            (Probability::MoreThan(x), Probability::MoreThan(y)) => Probability::MoreThan(
                if x >= y {
                    x - y
                } else {
                    0
                },
            ),
        }
    }
}

/// Well-formedness survives subtraction.
pub proof fn lemma_sub_wf(a: Probability, b: Probability)
    requires
        p_wf(a),
        p_wf(b),
    ensures
        p_wf(spec_combine_sub(a, b)),
{
}

} // verus!
