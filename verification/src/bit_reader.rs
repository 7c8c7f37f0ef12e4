//! The reading cursor: walks a buffer forward, bit by bit or field by field.

use vstd::prelude::*;
use crate::bit_buffer::{BitBuffer, BufferView};

verus! {

/// What a reader is: a buffer and the position of the next bit to read.
pub struct ReaderView {
    pub position: nat,
    pub buffer: BufferView,
}

impl ReaderView {
    /// The buffer is well formed and the position lies within it, or just
    /// behind its last bit.
    pub open spec fn wf(self) -> bool {
        self.buffer.wf() && self.position <= self.buffer.count()
    }

    /// The reader with its position moved on by `n`.
    pub open spec fn advance(self, n: int) -> ReaderView {
        ReaderView { position: (self.position + n) as nat, buffer: self.buffer }
    }

    /// Reading one bit: the bit at the position and the reader moved on by
    /// one, or nothing and the reader as it is where no bit is left.
    pub open spec fn read_bit(self) -> (Option<u8>, ReaderView) {
        if self.position < self.buffer.count() {
            (Some(self.buffer.get_bit(self.position as int)), self.advance(1))
        } else {
            (None, self)
        }
    }

    /// Reading `n` bits: the number they spell and the reader moved on by
    /// `n`, or nothing and the reader as it is where the buffer gives
    /// nothing for that width at the position.
    pub open spec fn read_bits(self, n: int) -> (Option<nat>, ReaderView) {
        match self.buffer.get_bits(self.position as int, n) {
            Some(v) => (Some(v), self.advance(n)),
            None => (None, self),
        }
    }
}

/// Reading keeps a reader valid and never moves it back: the buffer stays
/// as it is, and the position moves on exactly when something was read, by
/// the number of bits read.
pub proof fn reads_move_forward(r: ReaderView, n: int)
    requires
        r.wf(),
    ensures
        r.read_bit().1.wf(),
        r.read_bit().1.buffer == r.buffer,
        r.read_bit().1.position == r.position + (if r.read_bit().0 is Some { 1int } else { 0 }),
        r.read_bits(n).1.wf(),
        r.read_bits(n).1.buffer == r.buffer,
        r.read_bits(n).1.position == r.position + (if r.read_bits(n).0 is Some { n } else { 0 }),
{
}

/// A reader that stands at the last bit reads that bit and moves behind
/// it; there it reads nothing, and stays.
pub proof fn exhaustion(r: ReaderView)
    requires
        r.wf(),
        r.position + 1 == r.buffer.count(),
    ensures
        r.read_bit() == (Some(r.buffer.get_bit(r.position as int)), r.advance(1)),
        r.advance(1).wf(),
        r.advance(1).read_bit() == (None::<u8>, r.advance(1)),
{
}

/// A reader that is asked for more bits than are left gives nothing and
/// stays where it is.
pub proof fn overreach(r: ReaderView, n: int)
    requires
        r.wf(),
        n > r.buffer.count() - r.position,
    ensures
        r.read_bits(n) == (None::<nat>, r),
{
}

/// A cursor that reads a buffer from its first bit on.
pub struct BitReader {
    position: u128,
    buffer: BitBuffer,
}

impl View for BitReader {
    type V = ReaderView;

    closed spec fn view(&self) -> ReaderView {
        ReaderView { position: self.position as nat, buffer: self.buffer@ }
    }
}

impl Default for BitReader {
    /// A reader over the buffer that holds nothing.
    fn default() -> (res: BitReader)
        ensures
            res.wf(),
            res@ == (ReaderView { position: 0, buffer: BufferView::empty() }),
    {
        BitReader { position: 0, buffer: BitBuffer::default() }
    }
}

impl BitReader {
    /// The buffer inside is valid.
    pub closed spec fn backed(&self) -> bool {
        self.buffer.wf()
    }

    /// The reader is valid: its buffer is, and its position lies within it.
    pub open spec fn wf(&self) -> bool {
        self.backed() && self@.wf()
    }

    /// A reader at the first bit of `buffer`.
    pub fn new(buffer: BitBuffer) -> (res: BitReader)
        requires
            buffer.wf(),
        ensures
            res.wf(),
            res@ == (ReaderView { position: 0, buffer: buffer@ }),
    {
        BitReader { position: 0, buffer }
    }

    /// Reads the bit at the position and moves on by one; gives nothing,
    /// and changes nothing, where every bit has been read.
    pub fn read_bit(&mut self) -> (res: Option<u8>)
        requires
            old(self).wf(),
        ensures
            final(self).wf(),
            res == old(self)@.read_bit().0,
            final(self)@ == old(self)@.read_bit().1,
    {
        if self.position >= self.buffer.get_count() {
            return None;
        }
        let bit = self.buffer.get_bit(self.position);
        self.position += 1;
        Some(bit)
    }

    /// Reads the `len` bits at the position as one number, first bit
    /// leading, and moves on by `len`; gives nothing, and changes nothing,
    /// where `len` is 0 or above 128 or more than the bits that are left.
    pub fn read_bits(&mut self, len: u8) -> (res: Option<u128>)
        requires
            old(self).wf(),
        ensures
            final(self).wf(),
            match res {
                Some(v) => old(self)@.read_bits(len as int).0 == Some(v as nat),
                None => old(self)@.read_bits(len as int).0 is None,
            },
            final(self)@ == old(self)@.read_bits(len as int).1,
    {
        if self.position >= self.buffer.get_count() {
            return None;
        }
        let bits = self.buffer.get_bits(self.position, len);
        if bits.is_some() {
            self.position += len as u128;
        }
        bits
    }
}

} // verus!
