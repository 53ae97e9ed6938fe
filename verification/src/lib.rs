//! Membership-driven bind mounts.
pub mod app;
pub mod check;
pub mod cli;
pub mod command;
pub mod config;
pub mod daemon;
pub mod discover;
pub mod document;
pub mod fsops;
pub mod identity;
pub mod json;
pub mod load;
pub mod logging;
pub mod membership;
pub mod mount;
pub mod mountinfo;
pub mod name;
pub mod notify;
pub mod object;
pub mod order;
pub mod parse;
pub mod path;
pub mod privileges;
pub mod printed;
pub mod probe;
pub mod raw;
pub mod reconcile;
pub mod render;
pub mod report;
pub mod sets;
pub mod settings;
pub mod shown;
pub mod sources;
pub mod state;
pub mod store;
pub mod sys;
pub mod template;
pub mod text;
pub mod timestamp;
pub mod users;
pub mod watcher;
