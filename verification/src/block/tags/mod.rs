//! Tags: named regions of the source with parameters and raw content.

pub mod infirm;
pub mod verbatim;
