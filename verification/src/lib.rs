//! Peer-to-peer file sharing over a local network: the verified core.
//!
//! The daemon and the command-line client exchange small JSON messages;
//! this crate holds the data they exchange and every decision they take
//! on it, each stated by a contract and proved.

pub mod config;
pub mod helpers;
pub mod net;
pub mod name_map;
pub mod entities;
pub mod transfer;
pub mod io_error;
pub mod fsizes;
pub mod blocks;
pub mod plans;
pub mod text;
pub mod paths;
pub mod daemon;
pub mod download;
pub mod multicast;
pub mod logger;
pub mod cli;
pub mod classic;
