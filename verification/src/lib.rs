//! A small key-value service core: the wire protocol codec and the
//! log-structured store behind it, with their behaviour stated in contracts.

pub mod error;
pub mod proto;
pub mod session;
pub mod store;
