//! Reading historical game records.

pub mod wthor;
