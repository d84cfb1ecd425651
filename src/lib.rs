//! An in-memory key-value server's core: the codec of its wire protocol and
//! its store of expiring keys.

pub mod commands;
pub mod db;
pub mod decimal;
pub mod frame;
