//! Geodesic distance on the WGS-84 ellipsoid: the text and control layer.
//!
//! The crate reads a coordinate pair written as `"<latitude>,<longitude>"`,
//! decides which texts are number literals, and drives the bounded iteration
//! of Vincenty's inverse formula. Everything here is integer and text logic,
//! so every function carries a proved contract. The trigonometry itself runs
//! on machine floats in the caller, which reports each pass of the iteration
//! back as a [`solver::Observation`].
pub mod coordinate;
pub mod number;
pub mod solver;
pub mod text;
