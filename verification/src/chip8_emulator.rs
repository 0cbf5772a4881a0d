pub mod app;
pub mod cpu;
pub mod error;
pub mod quirks;
pub mod state;
