//! Core logic of the firmware software-in-the-loop runtime: CAN frame
//! handling, DBC bit layouts, flash image parsing, signal catalogs and the
//! validation rules applied to what a loaded project reports.

pub mod text;
pub mod paths;
pub mod name;
pub mod sim;
pub mod can;
pub mod load;
pub mod signal_selectors;
pub mod cli;
pub mod ipc;
pub mod connection;
pub mod envd;
pub mod protocol;
pub mod daemon;
pub mod shared;
pub mod trace;
pub mod config;
