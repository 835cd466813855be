//! Reconstruction logic of Vestra: window schedules, evidence formats, gates
//! and scene bookkeeping, each with a machine-checked contract.
//!
//! Floating-point evidence crosses this crate as raw IEEE 754 bit patterns:
//! a binary32 value is a `u32`, a binary64 value a `u64`. The `ieee` module
//! gives those patterns their order and classification.

pub mod architecture;
pub mod cells;
pub mod commands;
pub mod comparison;
pub mod da3;
pub mod digest;
pub mod emission;
pub mod export;
pub mod fixture;
pub mod geometry;
pub mod global_fusion;
pub mod icp;
pub mod ieee;
pub mod json;
pub mod lock;
pub mod mvs;
pub mod oracle;
pub mod order;
pub mod pose;
pub mod pose_graph;
pub mod ppm;
pub mod quality;
pub mod ratio;
pub mod reconstruction;
pub mod revisit;
pub mod scene;
pub mod schedule;
pub mod semantics;
pub mod stitch;
pub mod stream_output;
pub mod text;
pub mod trajectory;
pub mod tsdf;
pub mod video;
pub mod wire;
pub mod world;

pub use schedule::{plan_windows, FrameWindow, ScheduleError, WindowSettings};
