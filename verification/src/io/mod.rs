pub mod bits;
pub mod buffer;
pub mod uper;
pub mod model;
pub mod binary;
pub mod laws;
