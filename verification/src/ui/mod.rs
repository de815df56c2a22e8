//! What the user sees and does, apart from drawing it.

pub mod figures;
pub mod labels;
pub mod outline;
pub mod show;
pub mod state;
pub mod deeds;
pub mod direct;
pub mod zoning;
pub mod plan;
pub mod game;
pub mod keys;
pub mod canvas;
pub mod panel;
