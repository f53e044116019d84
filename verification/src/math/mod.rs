pub mod field_laws;
pub mod galois_field;
pub mod gf;
pub mod lagrange;
pub mod poly;

pub use gf::{InverseLut, GF};
pub use poly::GfPoly;
