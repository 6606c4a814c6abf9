//! Serverless file synchronisation: the store file format, change detection,
//! synchronisation planning and the line-ordering helper, with their contracts.

pub mod text;
pub mod sort_helper;
pub mod path_order;
pub mod decimal;
pub mod store;
pub mod update;
pub mod sync;
pub mod remote;
pub mod config;
pub mod commands;
pub mod digest;
pub mod logging;
