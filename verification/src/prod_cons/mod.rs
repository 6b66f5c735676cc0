//! Producer and Consumer interfaces
//!
//! BBQueues can be used with one of two kinds of producer/consumer pairs:
//!
//! * **Framed**, where the consumer sees the exact chunks that were inserted by the
//!   producer. This uses a small length header to note the length of the inserted frame.
//! * **Stream**, where the consumer may potentially see multiple pushed chunks at once, with
//!   no separation.
//!
//! You should NOT "mix and match" framed/stream consumers and producers. This will not cause
//! memory safety issues, but will not work properly.
pub mod framed;
pub mod stream;
