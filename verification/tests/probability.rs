use fish_core::probability::{Probability, FRAC_UNIT};

#[test]
fn known_plus_known_adds_counts() {
    let r = Probability::Known(2).combine_add(Probability::Known(3));
    assert_eq!(r, Probability::Known(5));
}

#[test]
fn addition_never_loses_certainty() {
    // Once either operand is Known or MoreThan, the result is never an
    // Unknown estimate again.
    let cases = [
        (Probability::Unknown(7), Probability::Known(2), Probability::MoreThan(2)),
        (Probability::Unknown(7), Probability::MoreThan(2), Probability::MoreThan(2)),
        (Probability::Known(2), Probability::Unknown(7), Probability::MoreThan(2)),
        (Probability::MoreThan(2), Probability::Unknown(7), Probability::MoreThan(2)),
        (Probability::Known(1), Probability::MoreThan(2), Probability::MoreThan(3)),
        (Probability::MoreThan(2), Probability::Known(1), Probability::MoreThan(3)),
        (Probability::MoreThan(2), Probability::MoreThan(1), Probability::MoreThan(3)),
    ];
    for (a, b, want) in cases {
        let got = a.combine_add(b);
        assert_eq!(got, want);
        assert!(!matches!(got, Probability::Unknown(_)));
    }
}

#[test]
fn unknown_plus_unknown_adds_mass() {
    let r = Probability::Unknown(10).combine_add(Probability::Unknown(5));
    assert_eq!(r, Probability::Unknown(15));
}

#[test]
fn subtraction_saturates_at_zero() {
    let r = Probability::Known(2).combine_sub(Probability::Known(5));
    assert_eq!(r, Probability::Known(0));

    let r = Probability::MoreThan(3).combine_sub(Probability::Known(1));
    assert_eq!(r, Probability::MoreThan(2));

    let r = Probability::Unknown(FRAC_UNIT).combine_sub(Probability::Known(3));
    assert_eq!(r, Probability::Unknown(0));
}

#[test]
fn subtracting_an_estimate_keeps_the_exact_legs() {
    let r = Probability::Known(3).combine_sub(Probability::Unknown(999));
    assert_eq!(r, Probability::Known(3));

    let r = Probability::MoreThan(2).combine_sub(Probability::Unknown(999));
    assert_eq!(r, Probability::MoreThan(2));
}

#[test]
fn subtracting_a_bound_snaps_to_the_bound() {
    let r = Probability::Unknown(3 * FRAC_UNIT).combine_sub(Probability::MoreThan(2));
    assert_eq!(r, Probability::MoreThan(2));
}

#[test]
fn value_scales_counts_into_mass_units() {
    assert_eq!(Probability::Known(2).value(), 2 * FRAC_UNIT);
    assert_eq!(Probability::MoreThan(3).value(), 3 * FRAC_UNIT);
    assert_eq!(Probability::Unknown(123).value(), 123);
}
