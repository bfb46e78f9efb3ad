//! Core logic for an addressable-LED tracker device: a bounded-memory
//! line-framing codec that turns a byte stream into delimiter-terminated
//! frames, and a deterministic translator from logical polar coordinates
//! on an annular grid to physical output indices.

pub mod codec;
pub mod mapper;
pub mod ring_buffer;

pub use codec::{ByteSource, ChunkedSource, Error, ReadLine, DELIMITER};
pub use mapper::{devirtualize_led_index, index_of, make_table, virtual_index_of, Coordinate};
pub use mapper::{NUM_LEDS, RING_COUNT, STEP_COUNT};
