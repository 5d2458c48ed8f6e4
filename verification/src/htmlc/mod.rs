pub mod compiler;
pub mod error;
pub mod token;
