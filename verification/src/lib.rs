//! Process-exec tracing, from the system-call entry point to the list on
//! the screen.
//!
//! A probe looks at every system call, and for each `execve` writes one
//! fixed-layout record into a bounded channel. A poller drains the channel
//! and decodes the records. The probe never waits for the poller: when the
//! channel is full, events are lost, never mangled.
//!
//! - [`record`]: the record and its 88-byte wire format.
//! - [`render`]: the record as text.
//! - [`text`]: numerals and padding for the text forms.
//! - [`ring`]: the channel as a mathematical value, and what holds of it.
//! - [`channel`]: the channel itself, a circular buffer of bytes.
//! - [`probe`]: the producer.
//! - [`poller`]: the consumer.
//! - [`state`]: what the owner of the poller keeps.

pub mod record;
pub mod text;
pub mod render;
pub mod ring;
pub mod channel;
pub mod probe;
pub mod poller;
pub mod state;
