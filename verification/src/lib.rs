//! A building-evacuation simulation: fire and smoke spreading over the grid of
//! each storey, and a crowd that walks to the exits while the smoke wears it
//! down.
//!
//! Every quantity is an integer. Times are milliseconds, densities and
//! coefficients are thousandths, health is counted in millionths and
//! positions in millionths of a pixel, so that the products the rules ask for
//! are exact.

pub mod building;
pub mod conservation;
pub mod crowd;
pub mod evacuate;
pub mod fire;
pub mod frontier;
pub mod human;
pub mod journey;
pub mod paper;
pub mod pass;
pub mod plan;
pub mod random;
pub mod route;
pub mod rules;
pub mod smoke;
pub mod storey;
mod sweep;
pub mod tile;
pub mod timer;
