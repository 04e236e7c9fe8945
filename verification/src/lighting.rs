//! Whether a light reaches a shaded point.

use vstd::prelude::*;
use crate::scene::Intersection;

verus! {

/// The kinds of light.
#[derive(Clone, Copy, Debug, PartialEq, Eq)]
pub enum Light {
    /// A light at infinity that shines in one direction.
    Global,
    /// A light at a point in the scene.
    Spherical,
}

impl Light {
    /// Whether the light reaches the point from which the shadow ray was
    /// cast. `reach` is the key of the distance from that point to the light.
    ///
    /// A global light is hidden by any hit of the shadow ray. A light at a
    /// point is hidden by a hit that is not farther away than the light.
    pub open spec fn lit(self, shadow: Option<Intersection>, reach: u32) -> bool {
        match self {
            Light::Global => shadow is None,
            Light::Spherical => shadow is None || shadow.unwrap().dist > reach,
        }
    }

    /// Decides from the shadow ray's trace whether the light is visible.
    pub fn visible(&self, shadow: &Option<Intersection>, reach: u32) -> (visible: bool)
        ensures
            visible == self.lit(*shadow, reach),
    {
        match shadow {
            None => true,
            Some(hit) => match self {
                Light::Global => false,
                Light::Spherical => hit.dist > reach,
            },
        }
    }
}

} // verus!
