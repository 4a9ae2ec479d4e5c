//! A small peer-to-peer node: the wire format of its messages, the parsing of
//! the addresses that peers share, and the bookkeeping of the connections a
//! node keeps.  Sockets, timers and tasks live with the program that drives
//! the node; this crate holds the decisions and the data.
use vstd::prelude::*;

pub mod byte_order;
pub mod connections;
pub mod errors;
pub mod message;
pub mod node;
pub mod text;
