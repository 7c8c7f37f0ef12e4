//! The bit store: a growable run of bits kept in whole bytes.

use vstd::prelude::*;
use vstd::arithmetic::power2::pow2;
use crate::bits::{
    byte_bit, field_bits, lemma_value_of_field, lemma_value_of_injective, lemma_value_of_own_bits,
    slack_len, unpack, value_of,
};
use crate::pack::{chunk, extract, merge, shift_in};

verus! {

/// What a buffer holds.
///
/// `bits` are the bits that count, in the order in which they were pushed.
/// `slack` are the positions of the last byte that lie behind them. Pushing
/// only ever sets bits, so a slack bit that is set stays set when a later
/// push lands on it.
pub struct BufferView {
    pub bits: Seq<bool>,
    pub slack: Seq<bool>,
}

impl BufferView {
    /// The number of bits held.
    pub open spec fn count(self) -> nat {
        self.bits.len()
    }

    /// The slack is what is left of the last byte, no more and no less.
    pub open spec fn wf(self) -> bool {
        self.slack.len() == slack_len(self.bits.len())
    }

    /// No slack bit is set.
    pub open spec fn clean(self) -> bool {
        forall|i: int| 0 <= i < self.slack.len() ==> !self.slack[i]
    }

    /// The buffer that holds nothing.
    pub open spec fn empty() -> BufferView {
        BufferView { bits: Seq::empty(), slack: Seq::empty() }
    }

    /// The buffer after a flush: the one that holds nothing.
    pub open spec fn flush(self) -> BufferView {
        BufferView::empty()
    }

    /// The buffer that counts the first `count` bits of `bytes`.
    pub open spec fn of(count: nat, bytes: Seq<u8>) -> BufferView {
        BufferView {
            bits: unpack(bytes).take(count as int),
            slack: unpack(bytes).skip(count as int),
        }
    }

    /// Whether the slack has a set bit at its position `i`.
    pub open spec fn slack_bit(self, i: int) -> bool {
        0 <= i < self.slack.len() && self.slack[i]
    }

    /// The bit at `index`, as 0 or 1.
    pub open spec fn get_bit(self, index: int) -> u8 {
        if self.bits[index] {
            1
        } else {
            0
        }
    }

    /// The number spelled by the `n` bits from `index` on, for a width of 1
    /// to 128 that lies within the bits held; nothing otherwise.
    pub open spec fn get_bits(self, index: int, n: int) -> Option<nat> {
        if 1 <= n <= 128 && 0 <= index && index + n <= self.bits.len() {
            Some(value_of(self.bits.subrange(index, index + n)))
        } else {
            None
        }
    }

    /// The buffer after a run of bits is pushed. Each new bit is the run's
    /// bit or the slack bit that it lands on. Slack that the run does not
    /// reach stays; a byte that the run opens has clear slack.
    pub open spec fn push(self, run: Seq<bool>) -> BufferView {
        BufferView {
            bits: self.bits + Seq::new(run.len(), |i: int| run[i] || self.slack_bit(i)),
            slack: if run.len() <= self.slack.len() {
                self.slack.skip(run.len() as int)
            } else {
                Seq::new(slack_len(self.bits.len() + run.len()), |i: int| false)
            },
        }
    }

    /// Whether a run lands on no stray bit: every slack bit that the run
    /// reaches and that is set is set in the run too.
    pub open spec fn admits(self, run: Seq<bool>) -> bool {
        forall|i: int| 0 <= i < run.len() && #[trigger] self.slack_bit(i) ==> run[i]
    }

    /// The buffer after the `n`-bit field of `v` is pushed, for a width of
    /// 1 to 128; the buffer itself for any other width.
    pub open spec fn push_bits(self, v: u128, n: int) -> BufferView {
        if 1 <= n <= 128 {
            self.push(field_bits(v, n))
        } else {
            self
        }
    }

    /// The buffer after one bit is pushed: a set bit for 1, a clear bit for
    /// every other value.
    pub open spec fn push_bit(self, bit: u8) -> BufferView {
        self.push(seq![bit == 1])
    }
}

/// A push keeps what the buffer holds: the buffer stays well formed, grows
/// by the length of the run, and its earlier bits are still its first bits.
pub proof fn push_keeps_bits(b: BufferView, run: Seq<bool>)
    requires
        b.wf(),
    ensures
        b.push(run).wf(),
        b.push(run).count() == b.count() + run.len(),
        b.push(run).bits.take(b.count() as int) == b.bits,
{
    assert(b.push(run).bits.take(b.count() as int) =~= b.bits);
}

/// On a buffer without stray slack bits a push appends the run as it is,
/// and leaves a buffer without stray slack bits.
pub proof fn push_on_clean(b: BufferView, run: Seq<bool>)
    requires
        b.wf(),
        b.clean(),
    ensures
        b.push(run).wf(),
        b.push(run).clean(),
        b.push(run).bits == b.bits + run,
        b.admits(run),
{
    assert(b.push(run).bits =~= b.bits + run);
}

/// A field that is pushed and then read from the position at which it was
/// pushed comes back as the low `n` bits of the value, and it does so
/// exactly where the field lands on no stray slack bit.
pub proof fn round_trip(b: BufferView, v: u128, n: int)
    requires
        b.wf(),
        1 <= n <= 128,
    ensures
        b.push_bits(v, n).get_bits(b.count() as int, n) == Some((v as nat) % pow2(n as nat))
            <==> b.admits(field_bits(v, n)),
{
    let at = b.count() as int;
    let run = field_bits(v, n);
    let landed = b.push_bits(v, n).bits.subrange(at, at + n);
    let mixed = Seq::new(n as nat, |i: int| run[i] || b.slack_bit(i));
    assert(landed =~= mixed);
    lemma_value_of_field(v, n);
    if b.admits(run) {
        assert(mixed =~= run);
    }
    if value_of(landed) == (v as nat) % pow2(n as nat) {
        lemma_value_of_injective(landed, run);
        assert forall|i: int| 0 <= i < run.len() && #[trigger] b.slack_bit(i) implies run[i] by {
            assert(mixed[i] == run[i]);
        }
    }
}

/// What could be read before a push is read after it with the same result.
pub proof fn push_keeps_reads(b: BufferView, run: Seq<bool>, index: int, n: int)
    requires
        b.wf(),
        b.get_bits(index, n) is Some,
    ensures
        b.push(run).get_bits(index, n) == b.get_bits(index, n),
{
    assert(b.push(run).bits.subrange(index, index + n) =~= b.bits.subrange(index, index + n));
}

/// A flushed buffer is the buffer that `new` gives when nothing is
/// supplied: it holds no bits, and what is pushed next gives what the same
/// push gives there.
pub proof fn flush_is_fresh(b: BufferView, v: u128, n: int)
    ensures
        b.flush().count() == 0,
        b.flush().wf(),
        b.flush().clean(),
        b.flush() == BufferView::of(count_or_zero(None), bytes_or_none(None)),
        b.flush().push_bits(v, n) == BufferView::of(
            count_or_zero(None),
            bytes_or_none(None),
        ).push_bits(v, n),
{
    let fresh = BufferView::of(count_or_zero(None), bytes_or_none(None));
    assert(fresh.bits =~= b.flush().bits);
    assert(fresh.slack =~= b.flush().slack);
}

/// A growable run of bits, stored eight to a byte from each byte's top bit
/// down.
#[derive(Debug)]
pub struct BitBuffer {
    count: u128,
    buffer: Vec<u8>,
}

impl View for BitBuffer {
    type V = BufferView;

    closed spec fn view(&self) -> BufferView {
        BufferView::of(self.count as nat, self.buffer@)
    }
}

impl Clone for BitBuffer {
    /// A copy of its own: the same bits in storage that nothing else holds.
    fn clone(&self) -> (res: BitBuffer)
        ensures
            res@ == self@,
            self.wf() ==> res.wf(),
    {
        BitBuffer { count: self.count, buffer: self.buffer.clone() }
    }
}

impl Default for BitBuffer {
    /// The buffer that holds nothing.
    fn default() -> (res: BitBuffer)
        ensures
            res.wf(),
            res@ == BufferView::empty(),
    {
        let res = BitBuffer { count: 0, buffer: Vec::new() };
        assert(res@.bits =~= Seq::empty());
        assert(res@.slack =~= Seq::empty());
        res
    }
}

/// The count that `BitBuffer::new` takes for an optional count.
pub open spec fn count_or_zero(count: Option<u128>) -> nat {
    match count {
        Some(c) => c as nat,
        None => 0,
    }
}

/// The bytes that `BitBuffer::new` takes for an optional vector.
pub open spec fn bytes_or_none(buffer: Option<Vec<u8>>) -> Seq<u8> {
    match buffer {
        Some(b) => b@,
        None => Seq::empty(),
    }
}

impl BitBuffer {
    /// The byte vector is exactly as long as the bit count needs.
    pub closed spec fn sized(&self) -> bool {
        self.buffer@.len() == (self.count + 7) / 8
    }

    /// The buffer is valid: its storage has the right length, so its view
    /// is well formed and its count is one that the counter can hold.
    pub open spec fn wf(&self) -> bool {
        self.sized() && self@.wf() && self@.count() <= u128::MAX
    }

    /// A buffer of `count` bits stored in `buffer`, or of no bits in no
    /// bytes where they are omitted. The bytes must be as many as the count
    /// needs.
    pub fn new(count: Option<u128>, buffer: Option<Vec<u8>>) -> (res: BitBuffer)
        requires
            bytes_or_none(buffer).len() == (count_or_zero(count) + 7) / 8,
        ensures
            res.wf(),
            res@ == BufferView::of(count_or_zero(count), bytes_or_none(buffer)),
    {
        let count = match count {
            Some(c) => c,
            None => 0,
        };
        let buffer = match buffer {
            Some(b) => b,
            None => Vec::new(),
        };
        BitBuffer { count, buffer }
    }

    /// Empties the buffer; the allocation is kept.
    pub fn flush(&mut self)
        ensures
            final(self).wf(),
            final(self)@ == old(self)@.flush(),
    {
        self.count = 0;
        self.buffer.clear();
        assert(self@.bits =~= Seq::empty());
        assert(self@.slack =~= Seq::empty());
    }

    /// The number of bits held.
    pub fn get_count(&self) -> (count: u128)
        requires
            self.wf(),
        ensures
            count == self@.count(),
    {
        self.count
    }

    /// The bit at `index`, as 0 or 1.
    ///
    /// The index must lie within the bits held; for an index that may lie
    /// outside them, `get_bits` with a width of 1 gives nothing instead.
    pub fn get_bit(&self, index: u128) -> (bit: u8)
        requires
            self.wf(),
            index < self@.count(),
        ensures
            bit == self@.get_bit(index as int),
    {
        proof {
            self.lemma_part(index as int, 1);
        }
        let byte_index = (index / 8) as usize;
        let bit_index = (index % 8) as u8;
        let piece = extract(self.buffer[byte_index], bit_index, 1);
        proof {
            lemma_one_bit(piece);
            let part = self@.bits.subrange(index as int, index + 1);
            assert(part[0] == field_bits(piece as u128, 1)[0]);
        }
        piece
    }

    /// The number spelled by the `len` bits from `index` on, first bit
    /// leading; nothing where `len` is 0 or above 128, or where the run
    /// does not lie within the bits held.
    ///
    /// The run is gathered in up to three parts: what is left of the byte
    /// that `index` falls into, then each byte that the run covers whole,
    /// then the top of the byte in which the run ends.
    pub fn get_bits(&self, index: u128, len: u8) -> (res: Option<u128>)
        requires
            self.wf(),
        ensures
            match res {
                Some(v) => self@.get_bits(index as int, len as int) == Some(v as nat),
                None => self@.get_bits(index as int, len as int) is None,
            },
    {
        proof {
            self.lemma_layout();
        }
        if len == 0 || len > 128 || index > self.count || self.count - index < len as u128 {
            return None;
        }
        let bit_index = (index % 8) as u8;
        let mut held: u8 = 0;
        let mut acc: u128 = 0;
        proof {
            assert(0u128 >> 0u8 == 0) by (bit_vector);
            assert(field_bits(acc, 0) =~= self@.bits.subrange(index as int, index as int));
        }
        if bit_index != 0 {
            let room = 8 - bit_index;
            let width = if len < room { len } else { room };
            acc = self.gather(acc, held, index, width);
            held = width;
        }
        assert(held < len ==> (index + held) % 8 == 0);
        let rest = (len - held) % 8;
        let mut whole = (len - held) / 8;
        while whole > 0
            invariant
                self.wf(),
                index + len <= self@.count(),
                held + 8 * whole + rest == len <= 128,
                held < len ==> (index + held) % 8 == 0,
                held < 128 ==> acc >> held == 0,
                field_bits(acc, held as int) == self@.bits.subrange(index as int, index + held),
            decreases whole,
        {
            acc = self.gather(acc, held, index + held as u128, 8);
            held += 8;
            whole -= 1;
        }
        if rest != 0 {
            acc = self.gather(acc, held, index + held as u128, rest);
            held += rest;
        }
        proof {
            lemma_value_of_own_bits(acc, len as int);
        }
        Some(acc)
    }

    /// Joins the `width` bits from position `at` on, which all lie in one
    /// byte, to an accumulator that holds the `held` bits before them.
    fn gather(&self, acc: u128, held: u8, at: u128, width: u8) -> (out: u128)
        requires
            self.wf(),
            1 <= width,
            at % 8 + width <= 8,
            held <= at,
            at + width <= self@.count(),
            held + width <= 128,
            held < 128 ==> acc >> held == 0,
            field_bits(acc, held as int) == self@.bits.subrange(at - held, at as int),
        ensures
            held + width < 128 ==> out >> ((held + width) as u8) == 0,
            field_bits(out, held + width) == self@.bits.subrange(at - held, at + width),
    {
        proof {
            self.lemma_part(at as int, width as int);
        }
        let byte = self.buffer[(at / 8) as usize];
        let piece = extract(byte, (at % 8) as u8, width);
        let out = shift_in(acc, held, piece, width);
        proof {
            let part = self@.bits.subrange(at as int, at + width);
            assert(self@.bits.subrange(at - held, at + width) =~= self@.bits.subrange(
                at - held,
                at as int,
            ) + part);
        }
        out
    }

    /// A run of held bits that lies within one byte is a run of that
    /// byte's bits.
    proof fn lemma_part(&self, at: int, width: int)
        requires
            self.sized(),
            0 <= at,
            1 <= width,
            at % 8 + width <= 8,
            at + width <= self@.count(),
        ensures
            at / 8 < self.buffer.len(),
            self@.bits.subrange(at, at + width) == Seq::new(
                width as nat,
                |i: int| byte_bit(self.buffer@[at / 8], at % 8 + i),
            ),
    {
        self.lemma_layout();
        let byte = self.buffer@[at / 8];
        let part = self@.bits.subrange(at, at + width);
        assert forall|i: int| 0 <= i < width implies #[trigger] part[i] == byte_bit(
            byte,
            at % 8 + i,
        ) by {
            assert((at + i) / 8 == at / 8 && (at + i) % 8 == at % 8 + i);
        }
        assert(part =~= Seq::new(width as nat, |i: int| byte_bit(byte, at % 8 + i)));
    }

    /// Appends one bit: a set bit for 1, a clear bit for every other value.
    /// A byte boundary opens a new zero byte first; a set bit is then ORed
    /// into the last byte, so nothing that the byte holds is cleared.
    pub fn push_bit(&mut self, bit: u8)
        requires
            old(self).wf(),
        ensures
            final(self).wf(),
            final(self)@ == old(self)@.push_bit(bit),
    {
        let ghost before = unpack(self.buffer@);
        let ghost run = seq![bit == 1];
        proof {
            self.lemma_layout();
            lemma_lowest_bit(1);
            assert(field_bits(1, 1) =~= seq![true]);
            assert(before =~= stamped(before, self.count as int, run, 0, before.len()));
        }
        if self.count % 8 == 0 {
            proof {
                lemma_stamp_grow(self.buffer@, before, self.count as int, run);
            }
            self.buffer.push(0);
        }
        if bit == 1 {
            lay(&mut self.buffer, Ghost(before), self.count, 1, 1, 0, 1);
        } else {
            assert(stamped(before, self.count as int, run, 0, 8 * self.buffer@.len()) =~= stamped(
                before,
                self.count as int,
                run,
                1,
                8 * self.buffer@.len(),
            ));
        }
        self.count += 1;
        proof {
            lemma_rounding(self.count - 1, before.len() as int / 8);
            lemma_rounding(self.count as int, self.buffer@.len() as int);
            lemma_stamp_done(self.count - 1, before, unpack(self.buffer@), run);
            self.lemma_layout();
        }
    }

    /// Appends the low `len` bits of `bits`, most significant first; does
    /// nothing where `len` is 0 or above 128.
    ///
    /// The storage first grows by exactly the zero bytes that the new bits
    /// need. The field is then laid down in up to three parts: what fits
    /// into the last byte held, each byte that the field covers whole, and
    /// what is left, at the top of a last byte. Every part is ORed into its
    /// byte; in a byte that was just added this writes the part as it
    /// stands.
    pub fn push_bits(&mut self, bits: u128, len: u8)
        requires
            old(self).wf(),
        ensures
            final(self).wf(),
            final(self)@ == old(self)@.push_bits(bits, len as int),
    {
        if len == 0 || len > 128 {
            return ;
        }
        if len == 1 {
            proof {
                lemma_lowest_bit(bits);
                assert(field_bits(bits, 1) =~= seq![(bits & 1) as u8 == 1]);
            }
            self.push_bit((bits & 1) as u8);
            return ;
        }
        let ghost before = unpack(self.buffer@);
        let ghost run = field_bits(bits, len as int);
        proof {
            self.lemma_layout();
            assert(before =~= stamped(before, self.count as int, run, 0, before.len()));
        }
        let at = self.count;
        let total: u128 = at + len as u128;
        let mut missing: u128 = (total + 7) / 8 - self.buffer.len() as u128;
        while missing > 0
            invariant
                before.len() <= 8 * self.buffer@.len(),
                self.buffer@.len() + missing == (total + 7) / 8,
                unpack(self.buffer@) == stamped(before, at as int, run, 0, 8 * self.buffer@.len()),
            decreases missing,
        {
            proof {
                lemma_stamp_grow(self.buffer@, before, at as int, run);
            }
            self.buffer.push(0);
            missing -= 1;
        }
        let bit_index = (at % 8) as u8;
        let mut done: u8 = 0;
        if bit_index != 0 {
            let room = 8 - bit_index;
            let width = if len < room { len } else { room };
            lay(&mut self.buffer, Ghost(before), at, bits, len, done, width);
            done = width;
        }
        let rest = (len - done) % 8;
        let mut whole = (len - done) / 8;
        while whole > 0
            invariant
                total == at + len,
                self.buffer@.len() == (total + 7) / 8,
                done + 8 * whole + rest == len <= 128,
                done < len ==> (at + done) % 8 == 0,
                run == field_bits(bits, len as int),
                unpack(self.buffer@) == stamped(
                    before,
                    at as int,
                    run,
                    done as int,
                    8 * self.buffer@.len(),
                ),
            decreases whole,
        {
            lay(&mut self.buffer, Ghost(before), at, bits, len, done, 8);
            done += 8;
            whole -= 1;
        }
        if rest != 0 {
            lay(&mut self.buffer, Ghost(before), at, bits, len, done, rest);
        }
        self.count = total;
        proof {
            lemma_rounding(at as int, before.len() as int / 8);
            lemma_rounding(total as int, self.buffer@.len() as int);
            lemma_stamp_done(at as int, before, unpack(self.buffer@), run);
            self.lemma_layout();
        }
    }

    /// Where the storage has the right length, the view's bits are the
    /// first `count` stored bits and its slack is the rest.
    proof fn lemma_layout(&self)
        requires
            self.sized(),
        ensures
            self.count <= 8 * self.buffer.len(),
            self@.bits.len() == self.count,
            self@.slack.len() == 8 * self.buffer@.len() - self.count,
            self@.wf(),
    {
    }
}

/// The stored bits while a run is being written: storage of `len`
/// positions that began as `before`, in which the first `done` bits of
/// `run` have been set from position `at` on.
spec fn stamped(before: Seq<bool>, at: int, run: Seq<bool>, done: int, len: nat) -> Seq<bool> {
    Seq::new(
        len,
        |j: int| (j < before.len() && before[j]) || (at <= j < at + done && run[j - at]),
    )
}

/// The zero byte has no bit set.
proof fn lemma_clear_byte(j: u8)
    by (bit_vector)
    requires
        j < 8,
    ensures
        (0u8 >> j) & 1 == 0,
{
}

/// A zero byte added to the storage adds eight clear positions.
proof fn lemma_stamp_grow(bytes: Seq<u8>, before: Seq<bool>, at: int, run: Seq<bool>)
    requires
        unpack(bytes) == stamped(before, at, run, 0, 8 * bytes.len()),
        before.len() <= 8 * bytes.len(),
    ensures
        unpack(bytes.push(0)) == stamped(before, at, run, 0, 8 * (bytes.len() + 1)),
{
    let grown = bytes.push(0);
    let goal = stamped(before, at, run, 0, 8 * grown.len());
    assert forall|j: int| 0 <= j < 8 * grown.len() implies unpack(grown)[j] == goal[j] by {
        if j < 8 * bytes.len() {
            assert(unpack(grown)[j] == unpack(bytes)[j]);
        } else {
            lemma_clear_byte((7 - j % 8) as u8);
        }
    }
    assert(unpack(grown) =~= goal);
}

/// Setting `width` more bits of the run in byte `k`, on top of what the
/// byte holds, moves the writing on by `width`.
proof fn lemma_stamp_step(
    bytes: Seq<u8>,
    k: int,
    x: u8,
    before: Seq<bool>,
    at: int,
    run: Seq<bool>,
    done: int,
    width: int,
    from: int,
)
    requires
        0 <= k < bytes.len(),
        unpack(bytes) == stamped(before, at, run, done, 8 * bytes.len()),
        at + done == 8 * k + from,
        0 <= from,
        0 <= width,
        from + width <= 8,
        0 <= done,
        forall|m: int|
            0 <= m < 8 ==> #[trigger] byte_bit(x, m) == (byte_bit(bytes[k], m) || (from <= m < from
                + width && run[done + m - from])),
    ensures
        unpack(bytes.update(k, x)) == stamped(before, at, run, done + width, 8 * bytes.len()),
{
    let after = bytes.update(k, x);
    let goal = stamped(before, at, run, done + width, 8 * bytes.len());
    assert forall|j: int| 0 <= j < 8 * bytes.len() implies unpack(after)[j] == goal[j] by {
        assert(unpack(bytes)[j] == stamped(before, at, run, done, 8 * bytes.len())[j]);
        if j / 8 == k {
            let m = j % 8;
            assert(unpack(after)[j] == byte_bit(x, m));
            assert(unpack(bytes)[j] == byte_bit(bytes[k], m));
            assert(j - at == done + m - from);
        } else {
            assert(unpack(after)[j] == unpack(bytes)[j]);
        }
    }
    assert(unpack(after) =~= goal);
}

/// Lays `width` bits of the `len`-bit field of `bits`, from the field's
/// position `done` on, into the one byte that they fall into when the
/// field starts at position `at`: the bits are ORed into the byte.
fn lay(
    buffer: &mut Vec<u8>,
    Ghost(before): Ghost<Seq<bool>>,
    at: u128,
    bits: u128,
    len: u8,
    done: u8,
    width: u8,
)
    requires
        1 <= width,
        done + width <= len <= 128,
        (at + done) % 8 + width <= 8,
        at + done + width <= 8 * old(buffer)@.len(),
        unpack(old(buffer)@) == stamped(
            before,
            at as int,
            field_bits(bits, len as int),
            done as int,
            8 * old(buffer)@.len(),
        ),
    ensures
        final(buffer)@.len() == old(buffer)@.len(),
        unpack(final(buffer)@) == stamped(
            before,
            at as int,
            field_bits(bits, len as int),
            done + width,
            8 * old(buffer)@.len(),
        ),
{
    proof {
        assert(at + done + width <= 8 * buffer.len());
    }
    let start = at + done as u128;
    let byte_index = (start / 8) as usize;
    let from = (start % 8) as u8;
    let piece = chunk(bits, len, done, width, from);
    let merged = merge(buffer[byte_index], piece);
    proof {
        lemma_stamp_step(
            buffer@,
            byte_index as int,
            merged,
            before,
            at as int,
            field_bits(bits, len as int),
            done as int,
            width as int,
            from as int,
        );
    }
    buffer.set(byte_index, merged);
}

/// How the storage's length follows the bit count: the least number of
/// whole bytes, which leaves `slack_len` positions over.
proof fn lemma_rounding(count: int, bytes: int)
    requires
        0 <= count,
        bytes == (count + 7) / 8,
    ensures
        count <= 8 * bytes < count + 8,
        8 * bytes - count == slack_len(count as nat),
{
}

/// Bits that go into the slack use it up one position each.
proof fn lemma_slack_shrinks(count: nat, n: nat)
    requires
        n <= slack_len(count),
    ensures
        slack_len(count + n) == slack_len(count) - n,
{
}

/// Storage in which a whole run has been written on top of what a buffer
/// of `count` bits stored is the storage of that buffer with the run
/// pushed.
proof fn lemma_stamp_done(count: int, raw0: Seq<bool>, raw1: Seq<bool>, run: Seq<bool>)
    requires
        0 <= count <= raw0.len(),
        raw0.len() - count == slack_len(count as nat),
        count + run.len() <= raw1.len(),
        raw1.len() - count - run.len() == slack_len((count + run.len()) as nat),
        raw1 == stamped(raw0, count, run, run.len() as int, raw1.len()),
    ensures
        (BufferView { bits: raw1.take(count + run.len()), slack: raw1.skip(count + run.len()) })
            == (BufferView { bits: raw0.take(count), slack: raw0.skip(count) }).push(run),
{
    let n = run.len() as int;
    let old_view = BufferView { bits: raw0.take(count), slack: raw0.skip(count) };
    let goal = old_view.push(run);
    assert(raw1.take(count + n) =~= goal.bits) by {
        assert forall|j: int| 0 <= j < count + n implies raw1[j] == goal.bits[j] by {
            if count <= j < raw0.len() {
                assert(old_view.slack[j - count] == raw0[j]);
            }
        }
    }
    assert(raw1.skip(count + n) =~= goal.slack) by {
        if n <= old_view.slack.len() {
            lemma_slack_shrinks(count as nat, n as nat);
        }
        assert(raw1.len() - count - n == goal.slack.len());
        assert forall|i: int| 0 <= i < goal.slack.len() implies raw1[count + n + i]
            == goal.slack[i] by {
            if n <= old_view.slack.len() {
                assert(old_view.slack[n + i] == raw0[count + n + i]);
            }
        }
    }
}

/// The lowest bit of an integer is the only bit of its one-bit field.
proof fn lemma_lowest_bit(v: u128)
    by (bit_vector)
    ensures
        v & 1 == 0 || v & 1 == 1,
        ((v >> 0u8) & 1 == 1) == (v & 1 == 1),
        (1u128 >> 0u8) & 1 == 1,
        (0u128 >> 0u8) & 1 == 0,
{
}

/// A byte with nothing above its lowest bit is 0 or 1.
proof fn lemma_one_bit(piece: u8)
    by (bit_vector)
    requires
        (piece as u128) >> 1u8 == 0,
    ensures
        piece == 0 || piece == 1,
        ((piece as u128 >> 0u8) & 1 == 1) == (piece == 1),
{
}

} // verus!
