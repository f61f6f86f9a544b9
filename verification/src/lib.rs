//! Peer-protocol bridge between N1MM+ logging stations and a contact database.

pub mod text;
pub mod rounding;
pub mod number;
pub mod band;
pub mod clock;
pub mod config;
pub mod message;
pub mod contact;
pub mod reader;
pub mod xml;
pub mod discovery;
pub mod store;
pub mod watcher;
pub mod session;
