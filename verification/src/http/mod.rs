pub mod cookie;
pub mod error;
pub mod framing;
pub mod head;
pub mod request;
pub mod response;
pub mod router;
pub mod state;
pub mod static_files;
