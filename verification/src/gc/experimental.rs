//! Checks for experimental features of the collectors.
pub mod sanity_checks;
