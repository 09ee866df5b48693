//! Helpers for rendering boards: the index-tracking vector that
//! illustrates bit shifts. The drawing itself lives outside the library.

pub mod vecint64;
