//! Track generation for a grid racing game, together with the pure
//! state and formatting logic of its screens.

pub mod geom;
pub mod corridor;
pub mod points;
pub mod order;
pub mod raster;
pub mod flood;
pub mod components;
pub mod random;
pub mod skeleton;
pub mod fallback;
pub mod widening;
pub mod topology;
pub mod params;
pub mod track;
pub mod checks;
pub mod kinematics;
pub mod reach;
pub mod repair;
pub mod arms;
pub mod centerline;
pub mod pipeline;
pub mod decimal;
pub mod screens;
