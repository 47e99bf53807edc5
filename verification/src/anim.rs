//! Markers for the poses of spawned figures. The pose arithmetic itself is
//! floating-point skeletal math and lives with the renderer, outside this
//! library; the library only names the poses it can ask for.

use vstd::prelude::*;

verus! {

/// The summoning gesture of a large humanoid figure.
#[derive(Clone, Copy, PartialEq, Eq, Structural, Debug)]
pub struct SummonAnimation;

} // verus!
