//! Mnemos's provenance marker for emitted facts.

use vstd::prelude::*;

verus! {

/// Marker type identifying mnemos-emitted facts.
#[derive(Debug, Clone, Copy, PartialEq, Eq, Hash, Structural)]
pub struct Mnemos;

impl Mnemos {
    /// The canonical provenance string.
    pub fn as_str(&self) -> (s: &'static str)
        ensures
            s@ == "mnemos"@,
    {
        "mnemos"
    }
}

/// Canonical provenance constant for mnemos.
pub const MNEMOS_PROVENANCE: Mnemos = Mnemos;

} // verus!
