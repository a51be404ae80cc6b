//! A disk-usage browser's logic: paths, the scanned tree and its sizes, the
//! flat search index, the scan generation that cancels background scans,
//! and the application state as a step function from state and message to
//! new state and the work to do next.

pub mod path;
pub mod text;
pub mod entry;
pub mod pathset;
pub mod index;
pub mod format;
pub mod saved;
pub mod app;
pub mod rows;
pub mod view;
pub mod roots;
pub mod status;
pub mod driver;
pub mod walk;
mod order;
