//! Session capture and command-segmentation logic for a terminal wrapper that
//! records a shell session and hands the recorded commands to a diagnosis
//! service.

pub mod cli;
pub mod context;
pub mod escape;
pub mod helpers;
pub mod parser;
pub mod text;
pub mod fix;
