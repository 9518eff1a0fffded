//! Turns a triangle mesh whose corners are stored independently into an
//! indexed mesh: one entry per distinct vertex, and one index per corner.
//!
//! Two corners are the same vertex exactly when their twelve bytes agree.

pub mod words;
pub mod order;
pub mod key;
pub mod mesh;
pub mod stl;
mod table;
pub mod loader;
