//! Fixed-capacity containers.
//!
//! - [`Array`]: a sequence of at most `C` elements with a `Vec`-like
//!   interface; pushing onto a full sequence hands the value back.
//! - [`RingBuffer`]: a ring of `C` slots (a nonzero power of two) driven by
//!   two monotonic cursors; `push` evicts the oldest element when full,
//!   `try_push` refuses instead.
//!
//! The cursor protocol of the ring is also offered on its own
//! ([`ring::claim_slot`], [`ring::filled_slot`]), for a producer and a
//! consumer that share slots from two threads.
pub mod array;
pub mod ring;

pub use array::{Array, ArrayConsumer, CapacityOverflow};
pub use ring::RingBuffer;
