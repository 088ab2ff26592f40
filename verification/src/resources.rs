use vstd::prelude::*;

verus! {

/// Marker naming the resource bundle that serves the PhotonVision-compatible NetworkTables
/// topics.
pub struct PhonyVisionBundle;

} // verus!
