pub mod config;
pub mod sam;
pub mod dot;
pub mod draw;
