pub mod model;
pub mod controller;
