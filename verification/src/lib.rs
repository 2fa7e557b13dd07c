//! Bounds a browser's memory use by tracking its tabs and choosing which of
//! them to terminate.
//!
//! The browser extension reports the tabs, the operating system reports the
//! processes; this library joins the two into a [`status::Status`], derives
//! how long each tab has been in the background and idle on the CPU, and
//! selects the tabs that the configured strategies would terminate.
pub mod config;
pub mod keys;
pub mod laws;
pub mod output_tab_data_server;
pub mod policy_engine;
pub mod process;
pub mod process_identifier;
pub mod status;
pub mod tab_data_requester;
pub mod tab_killer;
pub mod whitelist;
