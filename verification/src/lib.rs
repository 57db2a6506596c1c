//! Derivation of a thalweg — the path of maximum navigable depth through an
//! inlet — from a cloud of bathymetric depth soundings and a set of waypoints.
//!
//! Coordinates are held in fixed-point form: latitude and longitude in units
//! of 1e-7 degree, depth in millimetres. All geometry is integer arithmetic
//! over these units, with a planar (equirectangular) distance model.

pub mod bathymetry;
pub mod generator;
pub mod geometry;
pub mod format;
pub mod numfmt;
pub mod reach;
pub mod search;
