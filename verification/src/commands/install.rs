//! The install command.

pub mod options;
