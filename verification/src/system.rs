//! The systems of a jump network.

use vstd::prelude::*;

verus! {

/// One traversable location: a stable identifier and a display name.
#[derive(Clone, Debug)]
pub struct System {
    pub id: u32,
    pub name: String,
}

/// A location together with the positions at which a route visits it.
#[derive(Clone)]
pub struct SystemWithJump {
    pub id: u32,
    pub name: String,
    pub jumps: Vec<usize>,
}

} // verus!
