//! Headless city simulation with exact, replayable arithmetic.

pub mod scalar;
pub mod scene;
pub mod sim;
pub mod text;
pub mod ui;
pub mod viewport;
