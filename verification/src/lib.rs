//! A recursive DNS resolver as a verified state machine.
//!
//! The library holds the decisions of the resolver: which name server to ask
//! next, when a walk through the hierarchy ends, what is cached and what is
//! sent back to the client. Sockets stay with the caller, which performs the
//! queries that the library asks for and hands the replies back.

pub mod address;
pub mod budget;
pub mod cache;
pub mod codec;
pub mod message;
pub mod name;
pub mod question;
pub mod random;
pub mod referral;
pub mod reply;
pub mod resolver;
pub mod server;
