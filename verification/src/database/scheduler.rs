//! Durable registration, dependency-ready interpretation, serial installation,
//! then prefix checkpoints and receipts. No worker publishes tentative state.

pub mod coordinator;
pub mod prepare;
pub mod receipts;
pub mod register;
pub mod schedule;
pub mod serial;
pub mod status;
