//! Layout, history and selection logic of a terminal packet-loss monitor.
pub mod partition;
pub mod packet;
pub mod history;
pub mod selection;
pub mod schedule;
pub mod args;
