//! Growth engine for a nanoscale crystalline flake on a face-centered-cubic
//! lattice: exact fixed-point lattice geometry with stacking faults, a
//! bit-packed volumetric site store, a coordination-number vacancy index, and
//! the weighted-random single-site growth step built on those.

pub mod params;
pub mod coords;
pub mod rng;
pub mod stacking;
pub mod lattice;
pub mod storage;
pub mod crystal;
