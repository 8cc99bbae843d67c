//! A service that listens, connects and keeps one session with each node.

pub mod conflict;
pub mod handler;
pub mod laws;
pub mod lifecycle;
pub mod listener;
pub mod outcomes;
pub mod state;

pub use handler::Service;
pub use state::{Callback, Metrics, SessionEvent};
