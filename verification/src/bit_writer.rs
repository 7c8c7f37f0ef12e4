//! The writing cursor: builds a buffer by appending bits and fields, and
//! hands out copies of what it has built.

use vstd::prelude::*;
use vstd::arithmetic::power2::pow2;
use crate::bit_buffer::{push_keeps_bits, push_on_clean, round_trip, BitBuffer, BufferView};
use crate::bit_reader::ReaderView;
use crate::bits::field_bits;

verus! {

/// What a writer is: the buffer it builds and the count of bits written.
pub struct WriterView {
    pub position: nat,
    pub buffer: BufferView,
}

impl WriterView {
    /// The buffer is well formed, holds no stray slack bit, and holds as
    /// many bits as the position says.
    pub open spec fn wf(self) -> bool {
        self.buffer.wf() && self.buffer.clean() && self.position == self.buffer.count()
    }

    /// The writer that has written nothing.
    pub open spec fn empty() -> WriterView {
        WriterView { position: 0, buffer: BufferView::empty() }
    }

    /// The writer after one bit is written.
    pub open spec fn write_bit(self, bit: u8) -> WriterView {
        WriterView { position: self.position + 1, buffer: self.buffer.push_bit(bit) }
    }

    /// The writer after the `n`-bit field of `v` is written: for a width of
    /// 1 to 128 the buffer takes the field and the position moves on by
    /// `n`; for any other width nothing changes.
    pub open spec fn write_bits(self, v: u128, n: int) -> WriterView {
        if 1 <= n <= 128 {
            WriterView { position: (self.position + n) as nat, buffer: self.buffer.push_bits(v, n) }
        } else {
            self
        }
    }

    /// Taking a snapshot: the buffer as it stands, and the writer as it is.
    pub open spec fn get_buffer(self) -> (BufferView, WriterView) {
        (self.buffer, self)
    }
}

/// Writing keeps a writer valid: whatever is written, the position stays
/// the buffer's bit count and the buffer stays free of stray slack bits.
pub proof fn writes_keep_step(w: WriterView, bit: u8, v: u128, n: int)
    requires
        w.wf(),
    ensures
        w.write_bit(bit).wf(),
        w.write_bits(v, n).wf(),
{
    push_on_clean(w.buffer, seq![bit == 1]);
    push_on_clean(w.buffer, field_bits(v, n));
}

/// A field that a writer writes is read back, by a reader that stands
/// where the writer stood, as the low `n` bits of the value; the reader
/// then stands where the writer stands.
pub proof fn write_then_read(w: WriterView, v: u128, n: int)
    requires
        w.wf(),
        1 <= n <= 128,
    ensures
        w.write_bits(v, n).wf(),
        ({
            let reader = ReaderView { position: w.position, buffer: w.write_bits(v, n).buffer };
            &&& reader.wf()
            &&& reader.read_bits(n).0 == Some((v as nat) % pow2(n as nat))
            &&& reader.read_bits(n).1.position == w.write_bits(v, n).position
        }),
{
    push_on_clean(w.buffer, field_bits(v, n));
    round_trip(w.buffer, v, n);
}

/// A snapshot is the writer's buffer as it stood when it was taken, and
/// taking it leaves the writer as it was. What the writer writes later
/// does not reach the snapshot: the writer's buffer grows behind the bits
/// that the snapshot holds.
pub proof fn snapshot_is_independent(w: WriterView, v: u128, n: int)
    requires
        w.wf(),
    ensures
        ({
            let (snapshot, writer) = w.get_buffer();
            let later = writer.write_bits(v, n);
            &&& snapshot == w.buffer
            &&& writer == w
            &&& later.wf()
            &&& later.buffer.count() >= snapshot.count()
            &&& later.buffer.bits.take(snapshot.count() as int) == snapshot.bits
        }),
{
    if 1 <= n <= 128 {
        push_on_clean(w.buffer, field_bits(v, n));
        push_keeps_bits(w.buffer, field_bits(v, n));
    } else {
        assert(w.buffer.bits.take(w.buffer.count() as int) =~= w.buffer.bits);
    }
}

/// A cursor that builds a buffer from nothing.
pub struct BitWriter {
    position: u128,
    buffer: BitBuffer,
}

impl View for BitWriter {
    type V = WriterView;

    closed spec fn view(&self) -> WriterView {
        WriterView { position: self.position as nat, buffer: self.buffer@ }
    }
}

impl Default for BitWriter {
    /// The writer that has written nothing.
    fn default() -> (res: BitWriter)
        ensures
            res.wf(),
            res@ == WriterView::empty(),
    {
        BitWriter::new()
    }
}

impl BitWriter {
    /// The buffer inside is valid.
    pub closed spec fn backed(&self) -> bool {
        self.buffer.wf()
    }

    /// The writer is valid: its buffer is, and its position is the
    /// buffer's bit count.
    pub open spec fn wf(&self) -> bool {
        self.backed() && self@.wf()
    }

    /// A writer that has written nothing.
    pub fn new() -> (res: BitWriter)
        ensures
            res.wf(),
            res@ == WriterView::empty(),
    {
        BitWriter { position: 0, buffer: BitBuffer::default() }
    }

    /// Appends one bit, a set bit for 1 and a clear bit for every other
    /// value, and moves the position on by one.
    pub fn write_bit(&mut self, bit: u8)
        requires
            old(self).wf(),
        ensures
            final(self).wf(),
            final(self)@ == old(self)@.write_bit(bit),
    {
        proof {
            push_on_clean(self.buffer@, seq![bit == 1]);
        }
        self.buffer.push_bit(bit);
        self.position += 1;
    }

    /// Appends the low `len` bits of `bits`, most significant first, and
    /// moves the position on by `len`; does nothing where `len` is 0 or
    /// above 128.
    pub fn write_bits(&mut self, bits: u128, len: u8)
        requires
            old(self).wf(),
        ensures
            final(self).wf(),
            final(self)@ == old(self)@.write_bits(bits, len as int),
    {
        if len == 0 || len > 128 {
            return ;
        }
        proof {
            push_on_clean(self.buffer@, field_bits(bits, len as int));
        }
        self.buffer.push_bits(bits, len);
        self.position += len as u128;
    }

    /// A copy of the buffer as it stands. The copy is a buffer of its own:
    /// nothing that the writer does later reaches it.
    pub fn get_buffer(&mut self) -> (res: BitBuffer)
        requires
            old(self).wf(),
        ensures
            final(self).wf(),
            res.wf(),
            res@ == old(self)@.get_buffer().0,
            final(self)@ == old(self)@.get_buffer().1,
    {
        self.buffer.clone()
    }
}

} // verus!
