//! Incremental demultiplexer for MPEG-2 transport streams (ISO/IEC 13818-1).
//!
//! Bytes are pushed in arbitrary chunks; events are polled. In between, the
//! layers of [`mp2t`] recover the 188-byte packets, decode their headers,
//! check the continuity of each PID, reassemble PSI sections, and decode the
//! program association table and the program map tables. The demultiplexer
//! tracks the programs that the association table lists and listens for the
//! map of each program that was enabled.
//!
//! Every layer is specified over sequences of bytes and plain records: each
//! type has a view, and each function says in its contract what it returns
//! and how it changes what it was given. No input makes a function of this
//! crate panic; what is wrong with the input is counted in [`stats::Stats`].
//!
//! Integers and bit ranges are read with the crates `bytes` and `twiddle`.
//! The functions of [`internal::cursor`] and [`internal::bitfield`] that call
//! them are trusted to do what their contracts say.

pub mod context;
pub mod crc;
pub mod error;
pub mod internal;
pub mod mp2t;
pub mod stats;
