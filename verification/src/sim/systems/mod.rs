//! What happens in one tick.

pub mod autonomy;
pub mod needs;
pub mod night;
pub mod orders;
pub mod social;
pub mod walk;
pub mod work;
