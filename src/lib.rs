//! Finding `node_modules` directories below a root, sizing them, and
//! keeping recent scans in a cache with a fixed time-to-live.
pub mod cache;
pub mod format;
pub mod paths;
pub mod scan;
pub mod size;
