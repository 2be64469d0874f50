//! The monitor: what it derives from the snapshots, what it keeps between
//! them, and what it makes of them for the screen.

pub mod data;
pub mod fetch;
pub mod session;
pub mod state;
pub mod terminal;
pub mod ui;
