//! Rendering of positions and values for human readers.

pub mod decimal;
pub mod location;
pub mod text;
