//! The byte-sized steps of reading and writing: cutting a run of bits out of
//! a byte, joining it to an accumulator, and laying part of a field into a
//! byte.

use vstd::prelude::*;
use crate::bits::{byte_bit, field_bit, field_bits};

verus! {

/// Bit `j` of a run cut out of a byte is bit `shift + j` of the byte.
proof fn lemma_extract(byte: u8, shift: u8, width: u8, j: u8)
    by (bit_vector)
    requires
        1 <= width,
        width + shift <= 8,
        j < width,
    ensures
        (((((byte >> shift) & (0xFFu8 >> ((8 - width) as u8))) as u128) >> j) & 1 == 1) == ((byte
            >> ((shift + j) as u8)) & 1 == 1),
        (((byte >> shift) & (0xFFu8 >> ((8 - width) as u8))) as u128) >> width == 0,
{
}

/// The `width` bits of `byte` from position `from` on, as a number: the run
/// moved down to the low end, with nothing above it.
pub(crate) fn extract(byte: u8, from: u8, width: u8) -> (piece: u8)
    requires
        1 <= width,
        from + width <= 8,
    ensures
        (piece as u128) >> width == 0,
        field_bits(piece as u128, width as int) == Seq::new(
            width as nat,
            |i: int| byte_bit(byte, from + i),
        ),
{
    let shift: u8 = 8 - from - width;
    let piece: u8 = (byte >> shift) & (0xFFu8 >> (8 - width));
    proof {
        lemma_extract(byte, shift, width, 0);
        assert forall|i: int| 0 <= i < width implies #[trigger] field_bit(
            piece as u128,
            width as int,
            i,
        ) == byte_bit(byte, from + i) by {
            lemma_extract(byte, shift, width, (width - 1 - i) as u8);
        }
    }
    piece
}

/// Below `width` the joined integer has the number's bits; from `width` up
/// it has the accumulator's.
proof fn lemma_shift_in(acc: u128, piece: u8, width: u8, j: u8)
    by (bit_vector)
    requires
        1 <= width <= 8,
        j < 128,
        (piece as u128) >> width == 0,
    ensures
        ((((acc << width) | (piece as u128)) >> j) & 1 == 1) == (if j < width {
            ((piece as u128) >> j) & 1 == 1
        } else {
            (acc >> ((j - width) as u8)) & 1 == 1
        }),
{
}

/// Joining `width` bits to `held` bits leaves nothing above `held + width`.
proof fn lemma_shift_in_bound(acc: u128, piece: u8, width: u8, held: u8)
    by (bit_vector)
    requires
        1 <= width <= 8,
        held + width < 128,
        acc >> held == 0,
        (piece as u128) >> width == 0,
    ensures
        ((acc << width) | (piece as u128)) >> ((held + width) as u8) == 0,
{
}

/// Joins a `width`-bit number to an accumulator that holds `held` bits: the
/// accumulator's bits move up and the number's bits follow them.
pub(crate) fn shift_in(acc: u128, held: u8, piece: u8, width: u8) -> (out: u128)
    requires
        1 <= width <= 8,
        held + width <= 128,
        held < 128 ==> acc >> held == 0,
        (piece as u128) >> width == 0,
    ensures
        held + width < 128 ==> out >> ((held + width) as u8) == 0,
        field_bits(out, held + width) == field_bits(acc, held as int) + field_bits(
            piece as u128,
            width as int,
        ),
{
    let out = (acc << width) | (piece as u128);
    proof {
        if held + width < 128 {
            lemma_shift_in_bound(acc, piece, width, held);
        }
        let total = held + width;
        assert forall|i: int| 0 <= i < total implies #[trigger] field_bit(out, total, i) == (if i
            < held {
            field_bit(acc, held as int, i)
        } else {
            field_bit(piece as u128, width as int, i - held)
        }) by {
            lemma_shift_in(acc, piece, width, (total - 1 - i) as u8);
        }
        assert(field_bits(out, total) =~= field_bits(acc, held as int) + field_bits(
            piece as u128,
            width as int,
        ));
    }
    out
}

/// Bit `j` of a laid-out byte is set only within the part, where it is bit
/// `skip + j - shift` of the integer.
proof fn lemma_chunk(bits: u128, skip: u8, width: u8, shift: u8, j: u8)
    by (bit_vector)
    requires
        1 <= width,
        width + shift <= 8,
        skip + width <= 128,
        j < 8,
    ensures
        ((((((bits >> skip) as u8) & (0xFFu8 >> ((8 - width) as u8))) << shift) >> j) & 1 == 1)
            == (shift <= j && j < shift + width && (bits >> ((skip + j - shift) as u8)) & 1 == 1),
{
}

/// The byte that carries `width` bits of the `n`-bit field of `bits`, from
/// the field's position `done` on, at the byte's positions `from` and up;
/// every other position of the byte is clear.
pub(crate) fn chunk(bits: u128, n: u8, done: u8, width: u8, from: u8) -> (piece: u8)
    requires
        1 <= width,
        from + width <= 8,
        done + width <= n <= 128,
    ensures
        forall|k: int|
            0 <= k < 8 ==> #[trigger] byte_bit(piece, k) == (from <= k < from + width && field_bit(
                bits,
                n as int,
                done + k - from,
            )),
{
    let skip: u8 = n - done - width;
    let shift: u8 = 8 - from - width;
    let low: u8 = #[verifier::truncate]
    ((bits >> skip) as u8);
    let piece: u8 = (low & (0xFFu8 >> (8 - width))) << shift;
    proof {
        assert forall|k: int| 0 <= k < 8 implies #[trigger] byte_bit(piece, k) == (from <= k < from
            + width && field_bit(bits, n as int, done + k - from)) by {
            lemma_chunk(bits, skip, width, shift, (7 - k) as u8);
        }
    }
    piece
}

/// A bit of the OR of two bytes is set where it is set in either.
proof fn lemma_merge(a: u8, b: u8, j: u8)
    by (bit_vector)
    requires
        j < 8,
    ensures
        (((a | b) >> j) & 1 == 1) == (((a >> j) & 1 == 1) || ((b >> j) & 1 == 1)),
{
}

/// The byte that has every bit set that either byte has set.
pub(crate) fn merge(a: u8, b: u8) -> (both: u8)
    ensures
        forall|k: int|
            0 <= k < 8 ==> #[trigger] byte_bit(both, k) == (byte_bit(a, k) || byte_bit(b, k)),
{
    let both = a | b;
    proof {
        assert forall|k: int| 0 <= k < 8 implies #[trigger] byte_bit(both, k) == (byte_bit(a, k)
            || byte_bit(b, k)) by {
            lemma_merge(a, b, (7 - k) as u8);
        }
    }
    both
}

} // verus!
