//! Keeping the clipboard histories of two machines in step.

pub mod db_observer;
pub mod protocol;
pub mod reconcile;
pub mod transport;
