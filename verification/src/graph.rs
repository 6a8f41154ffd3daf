//! Road classification of the road graph.

use vstd::prelude::*;
use crate::cost;

verus! {

/// Classification of road segments, matching OSM `highway` tag values
/// that are imported for the HCMC District 1 simulation.
#[derive(Debug, Clone, Copy, PartialEq, Eq, Structural, Hash)]
pub enum RoadClass {
    Primary,
    Secondary,
    Tertiary,
    Residential,
}

impl RoadClass {
    /// The class the cost model uses for roads of this class (the one of
    /// the same name).
    pub fn cost_class(self) -> (r: cost::RoadClass)
        ensures
            r == match self {
                RoadClass::Primary => cost::RoadClass::Primary,
                RoadClass::Secondary => cost::RoadClass::Secondary,
                RoadClass::Tertiary => cost::RoadClass::Tertiary,
                RoadClass::Residential => cost::RoadClass::Residential,
            },
    {
        match self {
            RoadClass::Primary => cost::RoadClass::Primary,
            RoadClass::Secondary => cost::RoadClass::Secondary,
            RoadClass::Tertiary => cost::RoadClass::Tertiary,
            RoadClass::Residential => cost::RoadClass::Residential,
        }
    }
}

} // verus!
