pub mod collection;
pub mod decode;
pub mod encode;
pub mod error;
pub mod format;
pub mod util;
pub mod store;
