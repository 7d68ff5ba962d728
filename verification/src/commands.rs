//! What each command decides before it acts.

pub mod install;
pub mod run;
