//! Plain identifiers shared by layouts, schedules and interaction graphs.

use vstd::prelude::*;

verus! {

/// A physical atom.
#[derive(Clone, Copy, Debug, PartialEq, Eq, PartialOrd, Ord, Hash, Structural)]
pub struct AtomId(pub u32);

/// A trap site of the layout.
#[derive(Clone, Copy, Debug, PartialEq, Eq, PartialOrd, Ord, Hash, Structural)]
pub struct SiteId(pub u32);

/// An AOD trap: AOD index plus row / column within it.
#[derive(Clone, Copy, Debug, PartialEq, Eq, Hash, Structural)]
pub struct AodTrapRef {
    pub aod_id: u32,
    pub row: u32,
    pub col: u32,
}

/// Where an atom is held: a static SLM site or an AOD trap over a site.
#[derive(Clone, Copy, Debug, PartialEq, Eq, Structural)]
pub enum TrapBinding {
    Slm { site: SiteId },
    Aod { site: SiteId, aod: AodTrapRef },
}

/// Initial binding of an atom to a trap.
#[derive(Clone, Copy, Debug, PartialEq, Eq, Structural)]
pub struct AtomBinding {
    pub atom: AtomId,
    pub trap: TrapBinding,
}

/// Backend-only logical qubit (future code-block scheduling unit).
#[derive(Clone, Copy, Debug, PartialEq, Eq, PartialOrd, Ord, Hash, Structural)]
pub struct LogicalQubitId(pub u32);

/// Dense identifier for one multi-qubit entangling interaction.
#[derive(Clone, Copy, Debug, PartialEq, Eq, PartialOrd, Ord, Hash, Structural)]
pub struct InteractionId(pub u32);

impl TrapBinding {
    /// The site a binding holds its atom over, whatever the trap kind.
    pub open spec fn site_of(self) -> SiteId {
        match self {
            TrapBinding::Slm { site } => site,
            TrapBinding::Aod { site, .. } => site,
        }
    }

    pub fn site(&self) -> (s: SiteId)
        ensures
            s == self.site_of(),
    {
        match self {
            TrapBinding::Slm { site } => *site,
            TrapBinding::Aod { site, .. } => *site,
        }
    }
}

} // verus!
