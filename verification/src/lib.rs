//! A framed request/response protocol for a key-value server and its
//! clients, with its rules proved.
//!
//! * [`frame`] holds the wire unit, [`wire`] says as mathematics how a frame
//!   is written and read, and [`codec`] does both on bytes; [`decimal`] writes
//!   and reads the numerals of the headers.
//! * [`connection`] turns the pieces in which a stream delivers its bytes
//!   into whole frames.
//! * [`command`] and [`reply`] translate between frames and what they mean
//!   to a server and to a client.
//! * [`store`] is the mapping that a server keeps, and [`server`] decides what
//!   a connection handler does with each frame.
//! * [`manager`] decides for the one task that owns a client's connection and
//!   serves many producers through it.
//! * [`exchange`] states what holds of a request and its answer from end to
//!   end.
//! * [`delay`] is a deadline that is waited for on a timer.
//!
//! The library does no input or output. Its callers own the streams, the
//! queues, the locks and the timers; they hand over what has happened and do
//! what is decided.
//!
//! Two things are trusted and not proved: what [`buffer`] says of the read
//! buffer of the `bytes` crate, and what [`text`] says of the standard
//! library's test for UTF-8.

pub mod buffer;
pub mod codec;
pub mod command;
pub mod connection;
pub mod decimal;
pub mod delay;
pub mod exchange;
pub mod frame;
pub mod manager;
pub mod reply;
pub mod server;
pub mod store;
pub mod text;
pub mod wire;
