//! The verified core of a real-time drone detection pipeline: capture, inference,
//! multi-object tracking and GPS-anchored output.
//!
//! Everything here works on plain values. Binary floating point numbers are carried by
//! their bit patterns (see [`number`]): the library compares them, and leaves sums,
//! products and roots to the program around it.

pub mod assign;
pub mod capture;
pub mod cli;
pub mod cli_laws;
pub mod detect;
pub mod detect_laws;
pub mod gps;
pub mod gps_laws;
pub mod letterbox;
pub mod net;
pub mod number;
pub mod queue;
pub mod rank;
pub mod report;
pub mod report_laws;
pub mod text;
pub mod text_laws;
pub mod track;
pub mod track_laws;
pub mod types;
pub mod vote;

