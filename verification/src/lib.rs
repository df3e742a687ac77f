//! Country-agent diplomacy simulation: boards, actions, resolution and metrics.

pub mod text;
pub mod board;
pub mod config;
pub mod world;
pub mod mechanisms;
pub mod partition;
pub mod metrics;
pub mod prompts;
pub mod simulation;
pub mod record;
pub mod commands;
pub mod replay;
