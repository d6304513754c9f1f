//! The catalog and prefix index of a quick launcher: a radix tree over
//! lowercase names, and the rules that build, look up and index the catalog
//! of launchable applications.

pub mod discovery;
pub mod loader;
pub mod search;
