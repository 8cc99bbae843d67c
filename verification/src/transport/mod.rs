//! Frames, the bytes that carry them, and the remotes that send them.

pub mod cursor;
pub mod frame;
pub mod laws;
pub mod remotes;

pub use cursor::CursorDeque;
pub use frame::{Frame, Marshaller};
