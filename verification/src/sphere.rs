//! The one shape there is: a sphere of radius one, centred on the origin.

use vstd::prelude::*;

verus! {

/// A unit sphere at the origin. It has no state of its own: a scene moves a
/// ray into the sphere's space instead of moving the sphere.
#[derive(Clone, Copy, Debug)]
pub struct Sphere {}

impl Sphere {
    /// Makes a unit sphere.
    pub fn new() -> (s: Sphere)
        ensures
            s == (Sphere {}),
    {
        Sphere {}
    }
}

} // verus!
