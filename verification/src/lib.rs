//! One-sided message transport: typed windows over remotely writable memory,
//! scatter layouts, and fixed-slot message rings.
//!
//! The crate holds the rules of the transport. It decides which ranges of a
//! window an operation may touch, which bytes a slot image consists of, which
//! slot a sequence number occupies, when a sender has to wait for an
//! acknowledgement, and what a receiver may deliver from the memory that it
//! finds. The communication calls themselves are made by the caller, who hands
//! their outcomes back as plain values.

pub mod allocate;
pub mod config;
pub mod decimal;
pub mod element;
pub mod error;
pub mod frame;
pub mod lane;
pub mod layout;
pub mod link;
pub mod receive;
pub mod recovery;
pub mod ring;
mod sealed;
pub mod sort;
pub mod transport;
pub mod window;

pub use element::{Element, RmaElement};
pub use error::{Error, Threading};
pub use layout::Indexed;
pub use receive::Message;
pub use ring::Ring;
pub use window::{MemoryModel, Transfer, Window};
