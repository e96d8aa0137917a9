pub mod agent;
pub mod app;
pub mod attach;
pub mod call_tree;
pub mod event;
pub mod format;
pub mod jvm;
pub mod memory;
pub mod model;
pub mod order;
pub mod protocol;
pub mod session;
pub mod text;
