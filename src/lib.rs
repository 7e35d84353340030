//! A fixed-cycle traffic signal driving three output lines (green, yellow,
//! red) through a declarative pattern of (color, seconds) entries.
pub mod led;
pub mod schedule;
pub mod traffic_signal;
