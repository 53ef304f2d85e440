pub mod command;
pub mod key;
pub mod listener;
pub mod protocol;
pub mod registry;
pub mod shell;
