//! Procedural settlement generation: a sparse tile grid carved into organic
//! plots by a jittered-grid partition, with bounded graph search, bounded
//! flood-fill region growth, and collision-checked structure placement.

pub mod anim;
pub mod coord;
pub mod land;
pub mod noise;
pub mod partition;
pub mod plot;
pub mod spiral;
pub mod rng;
pub mod settlement;

pub use coord::Coord;
pub use rng::GenRng;
