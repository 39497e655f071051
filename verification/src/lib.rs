pub mod decode;
pub mod viewport;
