pub mod base64;
pub mod util;

pub use base64::{base64_decode, base64_encode};
