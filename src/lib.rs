//! Facility location and coreset summaries over points with `u32` coordinates.
//!
//! - `distance`: integer metrics (L1, L2 rounded down, L-infinity).
//! - `facility`: facilities and their registry: nearest-facility search, dispatch of points
//!   with exact weight and cost accounting, label histograms.
//! - `bmor`: single-pass streaming facility location with phase restarts.
//! - `mp`: batch facility location after Mettu and Plaxton.
//! - `coreset1`: two-pass coreset built on the streaming engine.
//! - `scale`: samples of pairwise and neighbourhood distances.
//! - `rng`: the seeded generator the randomised steps draw from.

pub mod distance;
pub mod facility;
pub mod rng;
pub mod bmor;
pub mod scale;
pub mod mp;
pub mod coreset1;
