//! Short names for URLs: the alias table, its editing operations, the
//! reconciliation of an imported table with the current one, and the choice
//! of the command that opens a URL in a browser.

pub mod browser;
pub mod complete;
pub mod error;
pub mod import;
pub mod listing;
pub mod names;
pub mod order;
pub mod store;
pub mod summary;
