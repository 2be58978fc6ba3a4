//! Data-plane core of a delayed TCP proxy: timer wheel, connection store,
//! packet classification, frame rewriting, sequence translation and the
//! half-proxy state machine.

pub mod classifier;
pub mod cmanager;
pub mod config;
pub mod connection;
pub mod frame;
pub mod pipeline;
pub mod setup;
pub mod tcp;
pub mod timer_wheel;
