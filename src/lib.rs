//! A small HTTP/1.1 server core: request-head parsing, response assembly and
//! wire encoding, and the fixed route table with its handlers.
//!
//! The library never touches a socket or the filesystem. The caller reads
//! lines and body bytes, performs file reads and writes, and hands the
//! results back; every decision in between is made here.
pub mod error;
pub mod text;
pub mod scan;
pub mod response;
pub mod request;
pub mod route;
