//! Thread-count controllers and the letterboxes through which instrumented
//! programs exchange measurements for thread-count demands.

pub mod direction;
pub mod corridor;
pub mod chromosome;
pub mod ranking;
pub mod genetic;
pub mod letterbox;
pub mod controller;
pub mod demand;
pub mod selection;
pub mod incoming;
