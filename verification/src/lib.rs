pub mod app;
pub mod bytes;
pub mod constant;
pub mod error;
pub mod html;
pub mod htmlc;
pub mod http;
pub mod request;
pub mod sha256;
pub mod storage;
pub mod templates;
pub mod text;
pub mod util;
