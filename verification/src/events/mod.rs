//! Tags that name the variables events may read or change.

pub mod vars;
