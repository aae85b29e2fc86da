//! The Brother backend: eSCL discovery and acquisition, and the scan-key panel.
//!
//! A scan goes over eSCL, through `sane-airscan`; the panel protocol is spoken here. A
//! vendor SANE sighting is evidence that a device exists and nothing else. Nothing is ever
//! installed: what is missing is named, with the command that brings it.
use vstd::prelude::*;

pub mod acquisition;
pub mod backend;
pub mod discovery;
pub mod listener;
pub mod registrar;
pub mod sightings;

verus! {

/// Backend identifier.
pub const ID: &'static str = "brother-skey";

} // verus!
