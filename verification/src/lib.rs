//! Bit-level buffers: a growable bit store with two sequential cursors, for
//! packing and unpacking fields of 1 to 128 bits that need not align to
//! bytes. Bits are kept most significant first, within a byte and within a
//! field.
//!
//! - [`BitBuffer`] stores the bits and does the bit arithmetic: a read or a
//!   write that crosses byte boundaries is split into the part that fits
//!   the first byte, the bytes covered whole, and the part at the top of
//!   the last byte.
//! - [`BitWriter`] builds a buffer from nothing and hands out copies of it.
//! - [`BitReader`] walks a buffer from its first bit on.
//!
//! Each type has a view that says what it holds, and every operation is
//! stated as a function on views. The laws that connect the operations,
//! such as that a field pushed is the field read back, are proof functions
//! beside the views.

pub mod bit_buffer;
pub mod bit_reader;
pub mod bit_writer;
pub mod bits;
mod pack;

pub use self::bit_buffer::BitBuffer;
pub use self::bit_reader::BitReader;
pub use self::bit_writer::BitWriter;
