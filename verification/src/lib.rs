//! Colour temperature and gamma ramps for Wayland outputs.

pub mod arith;
pub mod closeness;
pub mod colours;
pub mod config;
pub mod contrasts;
pub mod count;
pub mod curves;
pub mod direction;
pub mod double;
pub mod gamma;
pub mod laws;
pub mod options;
pub mod order;
pub mod powers;
pub mod protocol;
pub mod ramps;
pub mod rounding;
pub mod state;
pub mod steps;
pub mod symmetry;
pub mod tables;
pub mod text;
pub mod upload;
