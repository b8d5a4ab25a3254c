//! The clipboard history.

pub mod db;
