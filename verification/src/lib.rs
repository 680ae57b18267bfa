//! A byte-order adapter over an in-memory buffer.
//!
//! `ReversedWords` lets a caller read, write and seek a buffer as an ordinary
//! sequential byte stream while the buffer itself stores every fixed-size
//! word with its bytes reversed.  The layout module holds the index map and
//! its proofs, the stream module the stateful adapter, and the laws module
//! the properties that hold of the adapter as a whole.

pub mod layout;
pub mod laws;
pub mod stream;

pub use stream::ReversedWords;
pub use stream::SeekFrom;
pub use stream::StreamError;
