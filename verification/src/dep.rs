//! The dependency record: one outdated package, identified by its name and
//! its requested, resolved and latest version strings.

use vstd::prelude::*;

verus! {

/// Mathematical image of a [`Dependency`]: its four fields as character
/// sequences. Two dependencies are the same record exactly when their views
/// are equal.
pub struct DepView {
    pub name: Seq<char>,
    pub requested: Seq<char>,
    pub resolved: Seq<char>,
    pub latest: Seq<char>,
}

/// One outdated package as reported by the external tool. Immutable once
/// constructed; equality compares all four fields.
#[derive(Debug)]
pub struct Dependency {
    pub name: String,
    pub requested: String,
    pub resolved: String,
    pub latest: String,
}

impl View for Dependency {
    type V = DepView;

    open spec fn view(&self) -> DepView {
        DepView {
            name: self.name@,
            requested: self.requested@,
            resolved: self.resolved@,
            latest: self.latest@,
        }
    }
}

/// Every field of a dependency parsed from a report line is non-empty.
pub open spec fn dep_wf(d: DepView) -> bool {
    d.name.len() > 0 && d.requested.len() > 0 && d.resolved.len() > 0 && d.latest.len() > 0
}

impl PartialEq for Dependency {
    fn eq(&self, other: &Self) -> (r: bool) {
        self.name == other.name && self.requested == other.requested && self.resolved
            == other.resolved && self.latest == other.latest
    }
}

impl vstd::std_specs::cmp::PartialEqSpecImpl for Dependency {
    open spec fn obeys_eq_spec() -> bool {
        true
    }

    open spec fn eq_spec(&self, other: &Self) -> bool {
        self@ == other@
    }
}

impl Dependency {
    /// Copies the record field by field.
    pub fn duplicate(&self) -> (r: Dependency)
        ensures
            r@ == self@,
    {
        Dependency {
            name: self.name.clone(),
            requested: self.requested.clone(),
            resolved: self.resolved.clone(),
            latest: self.latest.clone(),
        }
    }
}

} // verus!
