//! Framing of messages over a byte stream, and a queue of events.
//!
//! A message travels behind a header of four bytes that holds the length of both, least
//! significant byte first. [`stream`] says what a stream of bytes means in those terms, and proves
//! that what is sent is what comes out. [`decoder`] takes the frames off a stream that arrives in
//! pieces, and [`transfer`] decides what a connection does between two calls into its socket.
//! [`reading`] proves what a series of reads comes to. [`event_queue`], [`channel`] and [`timer`]
//! hold the events that a program waits for.

pub mod channel;
pub mod command;
pub mod config;
pub mod connection;
pub mod decoder;
pub mod event_queue;
pub mod reading;
pub mod size;
pub mod stream;
pub mod timer;
pub mod transfer;
