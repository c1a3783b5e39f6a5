//! An in-memory employee directory: validates birth dates and the legal age
//! of new employees, assigns each record an identifier, and serves records by
//! identifier or as pages.

pub mod date;
pub mod directory;
pub mod laws;
