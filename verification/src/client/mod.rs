//! A client that opens a connection for each request.

pub mod factory;
pub mod laws;
pub mod unary;
