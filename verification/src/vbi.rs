//! Vertical blanking interval conventions.
//!
//! Pulse shapes and counts follow the broadcast standards. Where active
//! video begins is a convention of this crate: the generator lays fields out
//! against it and the reconstruction reads them back against it, so the two
//! agree by construction.

pub mod consts;

use vstd::prelude::*;

verus! {

/// Which of the two interlaced fields a slice belongs to. The vertical sync
/// of the second starts half a line out of phase with the line grid, which
/// is what makes the two interleave.
#[derive(Debug, Clone, Copy, PartialEq, Eq, Structural)]
pub enum FieldParity {
    /// Vertical sync starts in phase with the line grid.
    First,
    /// Vertical sync starts half a line out of phase with the line grid.
    Second,
}

impl FieldParity {
    /// The parity of the field that follows.
    pub open spec fn flip(self) -> FieldParity {
        match self {
            FieldParity::First => FieldParity::Second,
            FieldParity::Second => FieldParity::First,
        }
    }

    /// The parity of the field that follows.
    pub fn next(self) -> (p: FieldParity)
        ensures
            p == self.flip(),
    {
        match self {
            FieldParity::First => FieldParity::Second,
            FieldParity::Second => FieldParity::First,
        }
    }
}

/// A vertical sync group that was found in a record. Positions are millionths
/// of a sample.
#[derive(Debug, Clone, Copy, PartialEq, Eq, Structural)]
pub struct VerticalSync {
    /// Broad pulses, and equalizing pulses before and after them.
    pub n_broad: usize,
    pub n_eq_pre: usize,
    pub n_eq_post: usize,
    /// Which field follows, where the pulses tell.
    pub parity: Option<FieldParity>,
    /// First broad pulse.
    pub broad_start: i64,
    /// Sync tip of the first active line.
    pub field_active_start: i64,
}

/// What a search for vertical sync found in a slice.
#[derive(Debug, Clone, Copy, PartialEq, Eq, Structural)]
pub struct FieldSyncEvidence {
    /// Confirmed vertical sync groups.
    pub groups: usize,
    /// Whether the groups are a field period apart.
    pub spacing_ok: bool,
    /// Length of the slice in thousandths of a field period.
    pub slice_field_periods: u64,
}

} // verus!
