use vstd::prelude::*;

verus! {

/// A 1-based external leg index.
#[derive(Copy, Clone, Debug, PartialEq, Eq, Structural, PartialOrd, Ord, Hash)]
pub struct LegIndex(pub u8);

/// Kind of scalar factor: momentum-momentum, momentum-polarization, or
/// polarization-polarization.
#[derive(Copy, Clone, Debug, PartialEq, Eq, Structural, PartialOrd, Ord, Hash)]
pub enum ScalarKind {
    PP,
    PE,
    EE,
}

/// Transversality rule for momentum-polarization factors.
#[derive(Copy, Clone, Debug, PartialEq, Eq, Structural)]
pub enum Transversality {
    NoConstraint,
    ForbidPiDotEi,
}

/// How polarizations are allowed to appear per leg.
#[derive(Copy, Clone, Debug, PartialEq, Eq, Structural)]
pub enum PolarizationPattern {
    Unrestricted,
    OnePerLeg,
}

/// Position of a kind in the canonical order PP < PE < EE.
pub open spec fn kind_rank(k: ScalarKind) -> int {
    match k {
        ScalarKind::PP => 0,
        ScalarKind::PE => 1,
        ScalarKind::EE => 2,
    }
}

} // verus!
