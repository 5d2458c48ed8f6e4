pub mod login;
pub mod resource;
