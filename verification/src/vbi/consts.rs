//! Vertical sync timing: pulse counts, pulse widths in nanoseconds, and
//! distances in half-lines.

use vstd::prelude::*;

verus! {

/// Pulses in each NTSC group; every pulse takes one half-line slot.
pub const NTSC_EQ_PULSES: usize = 6;

pub const NTSC_BROAD_PULSES: usize = 6;

pub const NTSC_POSTEQ_PULSES: usize = 6;

/// Pulses in each PAL group.
pub const PAL_EQ_PULSES: usize = 5;

pub const PAL_BROAD_PULSES: usize = 5;

pub const PAL_POSTEQ_PULSES: usize = 5;

/// Equalizing pulse width: brief, at twice line rate.
pub const NTSC_EQ_WIDTH_NS: u32 = 2_300;

pub const PAL_EQ_WIDTH_NS: u32 = 2_350;

/// How long a serrated broad pulse stays at sync level; it returns to
/// blanking for the rest of its half-line slot.
pub const NTSC_BROAD_LOW_NS: u32 = 27_100;

pub const PAL_BROAD_LOW_NS: u32 = 27_300;

/// Ordinary horizontal sync pulse width.
pub const H_SYNC_WIDTH_NS: u32 = 4_700;

/// Blanking between a horizontal sync pulse and the picture.
pub const BACK_PORCH_NS: u32 = 5_800;

/// Half-lines from the first pre-equalizing pulse to active video in a
/// first field; a second field starts one half-line later.
pub const NTSC_BASE_ACTIVE_START_HALF_LINES: u32 = 42;

pub const PAL_BASE_ACTIVE_START_HALF_LINES: u32 = 47;

/// Half-lines from the first broad pulse to active video in a first field.
pub const NTSC_BROAD_TO_ACTIVE_HALF_LINES: u32 = 36;

pub const PAL_BROAD_TO_ACTIVE_HALF_LINES: u32 = 42;

} // verus!
