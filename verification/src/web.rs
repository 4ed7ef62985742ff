//! What the store hands to a web interface.

pub mod api;
