//! A reordering buffer that turns an out-of-order, possibly duplicated stream of
//! numbered packets into a strictly ordered, duplicate-free one.

pub mod model;
pub mod sequence_buffer;
