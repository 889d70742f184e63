pub mod actions;
pub mod applier;
pub mod bytes;
pub mod config;
pub mod context;
pub mod engine;
pub mod region;
pub mod registry;
pub mod review;
pub mod thread;
pub mod tool_use;
