use vstd::prelude::*;

verus! {

/// The closed set of body kinds of the orbital hierarchy.
#[derive(Clone, Copy, Debug, PartialEq, Eq, Structural)]
pub enum BodyKind {
    Star,
    Planet,
    Moon,
}

impl BodyKind {
    /// Whether a body of this kind advances along its orbit (stars stay put).
    pub fn orbits(&self) -> (r: bool)
        ensures
            r == !(*self is Star),
    {
        match self {
            BodyKind::Star => false,
            BodyKind::Planet | BodyKind::Moon => true,
        }
    }
}

} // verus!
