//! Verified core of `cidrwall`, a firewall that drops traffic to and from
//! blocklisted address ranges.

pub mod acceptance;
pub mod classifier;
pub mod cleanup;
pub mod config;
pub mod control;
pub mod error;
pub mod handover;
pub mod interfaces;
pub mod link_steps;
pub mod links;
pub mod load;
pub mod manager;
pub mod path;
pub mod pins;
pub mod reload;
pub mod reload_steps;
pub mod resolve;
pub mod table;
pub mod text;
pub mod validate;
pub mod zones;
