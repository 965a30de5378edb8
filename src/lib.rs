pub mod align;
pub mod diff;
pub mod laws;
pub mod model;
pub mod render;
pub mod value;

pub use crate::diff::JsonDiff;
pub use crate::render::{colorize, colorize_to_array};
pub use crate::value::Value;
