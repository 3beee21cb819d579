//! Depression filling for digital elevation models by the two-queue
//! Planchon-Darboux flood.
//!
//! Elevations are integers: a caller picks the unit (millimetres, say) and
//! every level, the gradient step `epsilon` included, is a whole number of
//! those units.

pub mod engine;
pub mod excess;
pub mod grid;
pub mod laws;
pub mod safety;
pub mod model;
pub mod surface;
pub mod topology;
