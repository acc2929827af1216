//! Verified core of a folder scanner and a small tour of thread workloads.
//!
//! The library holds every decision and computation; the program around it
//! lists directories, deletes folders, spawns threads, measures time and prints.

pub mod console;
pub mod decimal;
pub mod numbers;
pub mod passes;
pub mod scanner;
pub mod scan_model;
pub mod turns;
