//! Traffic capture core: TLS ClientHello reading, HTTP message handling,
//! scope and filter rules, capture bookkeeping and command-line reading.
pub mod browser;
pub mod ca;
pub mod cli;
pub mod config;
pub mod csv;
pub mod filter;
pub mod hello_wire;
pub mod http_message;
pub mod http_raw;
pub mod json;
pub mod models;
pub mod number;
pub mod offer;
pub mod paths;
pub mod peek;
pub mod proxy;
pub mod queues;
pub mod storage;
pub mod text;
pub mod tls_hello;
pub mod tls_mimic;
pub mod websocket;
pub mod weburl;

use vstd::prelude::*;

verus! {

} // verus!
