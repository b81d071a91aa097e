//! What the library knows of the Apple Music catalog.
pub mod catalog;
pub mod exchange;
pub mod lookup;
pub mod token;
