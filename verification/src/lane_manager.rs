//! Lane sides, departure warnings and road types, with the names under
//! which warnings are reported.
use vstd::prelude::*;

verus! {

/// Side of the ego lane a lane line lies on.
#[derive(Clone, Copy, Debug, PartialEq, Eq, Structural)]
pub enum LaneSide {
    Left,
    Right,
}

/// Lane-departure state of the vehicle.
#[derive(Clone, Copy, Debug, PartialEq, Eq, Structural)]
pub enum DepartureWarning {
    NoWarning,
    DriftingLeft,
    DriftingRight,
    DepartedLeft,
    DepartedRight,
}

/// Kind of road the vehicle is on.
#[derive(Clone, Copy, Debug, PartialEq, Eq, Structural)]
pub enum RoadTYpe {
    Highway,
    Twoway,
}

/// The name under which each warning is reported.
pub open spec fn warning_label(w: DepartureWarning) -> Seq<char> {
    match w {
        DepartureWarning::NoWarning => "NONE"@,
        DepartureWarning::DriftingLeft => "DRIFTING_LEFT"@,
        DepartureWarning::DriftingRight => "DRIFTING_RIGHT"@,
        DepartureWarning::DepartedLeft => "DEPARTED_LEFT"@,
        DepartureWarning::DepartedRight => "DEPARTED_RIGHT"@,
    }
}

impl DepartureWarning {
    /// The reported name: "NONE", "DRIFTING_LEFT", "DRIFTING_RIGHT",
    /// "DEPARTED_LEFT" or "DEPARTED_RIGHT".
    pub fn label(&self) -> (s: &'static str)
        ensures
            s@ == warning_label(*self),
    {
        match self {
            DepartureWarning::NoWarning => "NONE",
            DepartureWarning::DriftingLeft => "DRIFTING_LEFT",
            DepartureWarning::DriftingRight => "DRIFTING_RIGHT",
            DepartureWarning::DepartedLeft => "DEPARTED_LEFT",
            DepartureWarning::DepartedRight => "DEPARTED_RIGHT",
        }
    }
}

} // verus!
