//! The logic of an interactive command shell.
pub mod builtins;
pub mod complete;
pub mod format;
pub mod history;
pub mod jobs;
pub mod order;
pub mod paths;
pub mod pipeline;
pub mod prefix;
pub mod press;
pub mod redirect;
pub mod shell;
pub mod split;
pub mod tab;
pub mod text;
pub mod words;
