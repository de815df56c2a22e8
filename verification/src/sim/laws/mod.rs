//! What holds of the city as a whole.

pub mod autonomy;
pub mod claims;
pub mod day;
pub mod distance;
pub mod errands;
pub mod gain;
pub mod homes;
pub mod lattice;
pub mod needs;
pub mod play;
pub mod record;
pub mod roads;
pub mod rooms;
pub mod score;
pub mod segments;
pub mod shape;
pub mod walking;
pub mod work;
