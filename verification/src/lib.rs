//! Metering and analysis of audio input channels.

pub mod analysis;
pub mod circular_buffer;
pub mod connection;
pub mod double;
pub mod fft;
pub mod hz;
pub mod time;
pub mod ui;

pub use crate::hz::{Hz, HzExt};
