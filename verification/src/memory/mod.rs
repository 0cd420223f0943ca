//! Memory that is not part of the log.

pub mod working;
