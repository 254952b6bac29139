//! Card records of the input format.
pub mod keyword;
