pub mod text;
pub mod event;
pub mod model;
pub mod bounds;
pub mod lanes;
pub mod grid;
pub mod attrs;
pub mod render;
pub mod codec;

pub use crate::codec::load;
