//! Effects for an audio bus, with their sample arithmetic.
pub mod binary32;
pub mod effects;
pub mod rounding;
pub mod settings;
