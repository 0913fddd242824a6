//! A caching DNS forwarder's core: the wire codec with name compression,
//! the positive answer cache, and the decisions of the query dispatcher,
//! each with its contract proved.
//!
//! - `name`: reading and writing compressed domain names.
//! - `message`: the message model and the parser.
//! - `writer`: the serializer; what it writes reads back as the message.
//! - `cache`: name to address entries with lazy expiry.
//! - `dispatch`: what to do with each query and each upstream answer.
//! - `dns`: record types, classes and data.
//! - `wire`: big-endian integers and random bytes.
//! - `tokengen`, `evloop`: token allocators.
use vstd::prelude::*;

pub mod cache;
pub mod dispatch;
pub mod dns;
pub mod evloop;
pub mod message;
pub mod name;
pub mod tokengen;
pub mod wire;
pub mod writer;

verus! {

} // verus!
