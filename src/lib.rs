//! Segmented time-series store, GPU bundle bookkeeping and axis ticks for
//! a browser plotting front end.
//!
//! Everything here works on exact values: x coordinates are integers, y
//! samples are integers or the raw bit patterns of IEEE-754 numbers. The
//! host turns those into device floats when it draws.
pub mod error;
pub mod types;
pub mod segment;
pub mod trace;
pub mod store;
pub mod ticks;
pub mod bundle;
pub mod stream;
pub mod render_job;
pub mod frame;
