//! Bit positions and the numbers they spell.
//!
//! Everything in this crate is most-significant-bit first: position 0 of a
//! byte is its top bit, position 0 of an `n`-bit field is bit `n - 1` of the
//! integer that carries it, and a run of bits read as a number has its first
//! bit as the leading binary digit.

use vstd::prelude::*;
use vstd::arithmetic::div_mod::{lemma_fundamental_div_mod, lemma_mod_breakdown, lemma_small_mod};
use vstd::arithmetic::power2::{
    lemma2_to64, lemma_pow2_adds, lemma_pow2_pos, lemma_pow2_unfold, pow2,
};
use vstd::bits::lemma_u128_shr_is_div;

verus! {

/// Bit `k` of a byte, where bit 0 is the most significant and bit 7 the least.
pub open spec fn byte_bit(b: u8, k: int) -> bool {
    (b >> (7 - k)) & 1 == 1
}

/// Bit `i` of the `n`-bit field that `v` carries in its low bits, where bit 0
/// is the field's most significant bit.
pub open spec fn field_bit(v: u128, n: int, i: int) -> bool {
    (v >> (n - 1 - i)) & 1 == 1
}

/// The `n` bits of the field that `v` carries, most significant first.
pub open spec fn field_bits(v: u128, n: int) -> Seq<bool> {
    Seq::new(n as nat, |i: int| field_bit(v, n, i))
}

/// The bits of a run of bytes: byte after byte, each from its top bit down.
pub open spec fn unpack(bytes: Seq<u8>) -> Seq<bool> {
    Seq::new(8 * bytes.len(), |j: int| byte_bit(bytes[j / 8], j % 8))
}

/// The number that a run of bits spells when the first bit is the leading
/// binary digit.
pub open spec fn value_of(s: Seq<bool>) -> nat
    decreases s.len(),
{
    if s.len() == 0 {
        0
    } else {
        2 * value_of(s.drop_last()) + if s.last() { 1nat } else { 0nat }
    }
}

/// How many positions of the last byte stay unused when `count` bits are
/// stored in whole bytes.
pub open spec fn slack_len(count: nat) -> nat {
    ((8 - count % 8) % 8) as nat
}

/// Bit `j` of half an integer is bit `j + 1` of the integer.
proof fn lemma_shr_step(v: u128, j: u8)
    by (bit_vector)
    requires
        j < 127,
    ensures
        (((v >> 1) >> j) & 1 == 1) == ((v >> ((j + 1) as u8)) & 1 == 1),
{
}

/// Shifting down by one halves, and the lowest bit tells odd from even.
proof fn lemma_halve(v: u128)
    by (bit_vector)
    ensures
        v >> 1 == v / 2,
        ((v >> 0) & 1 == 1) == (v % 2 == 1),
{
}

/// The bits of an `n`-bit field spell the carrying integer modulo `2^n`:
/// whatever `v` holds above the field does not count.
pub proof fn lemma_value_of_field(v: u128, n: int)
    requires
        0 <= n <= 128,
    ensures
        value_of(field_bits(v, n)) == (v as nat) % pow2(n as nat),
    decreases n,
{
    if n == 0 {
        lemma2_to64();
    } else {
        let s = field_bits(v, n);
        let h = v >> 1;
        lemma_value_of_field(h, n - 1);
        assert(s.drop_last() =~= field_bits(h, n - 1)) by {
            assert forall|i: int| 0 <= i < n - 1 implies #[trigger] field_bit(v, n, i)
                == field_bit(h, n - 1, i) by {
                lemma_shr_step(v, (n - 2 - i) as u8);
            }
        }
        lemma_halve(v);
        assert(s.last() == (v % 2 == 1));
        lemma_pow2_unfold(n as nat);
        lemma_pow2_pos((n - 1) as nat);
        lemma_mod_breakdown(v as int, 2, pow2((n - 1) as nat) as int);
    }
}

/// Two runs of the same length that spell the same number are the same run.
pub proof fn lemma_value_of_injective(s: Seq<bool>, t: Seq<bool>)
    requires
        s.len() == t.len(),
        value_of(s) == value_of(t),
    ensures
        s == t,
    decreases s.len(),
{
    if s.len() > 0 {
        lemma_value_of_injective(s.drop_last(), t.drop_last());
        assert(s =~= s.drop_last().push(s.last()));
        assert(t =~= t.drop_last().push(t.last()));
    } else {
        assert(s =~= t);
    }
}

/// An integer with nothing above its low `n` bits is the number that those
/// bits spell.
pub proof fn lemma_value_of_own_bits(v: u128, n: int)
    requires
        0 <= n <= 128,
        n < 128 ==> v >> n == 0,
    ensures
        value_of(field_bits(v, n)) == v,
{
    lemma_value_of_field(v, n);
    lemma_pow2_pos(n as nat);
    if n < 128 {
        lemma_u128_shr_is_div(v, n as u128);
        let d = pow2(n as nat) as int;
        assert(v as int == d * (v as int / d) + v as int % d) by {
            lemma_fundamental_div_mod(v as int, d);
        }
        assert(v as int / d == 0);
    } else {
        lemma2_to64();
        lemma_pow2_adds(64, 64);
        assert(pow2(128) == 0x1_0000_0000_0000_0000_0000_0000_0000_0000nat) by (nonlinear_arith)
            requires
                pow2(128) == pow2(64) * pow2(64),
                pow2(64) == 0x1_0000_0000_0000_0000nat,
        ;
    }
    lemma_small_mod(v as nat, pow2(n as nat));
}

} // verus!
