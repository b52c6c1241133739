//! Little-endian integers as they stand in a snapshot.

use vstd::prelude::*;

verus! {

/// The `width` low bytes of `value`, lowest first.
pub open spec fn le_bytes(value: nat, width: nat) -> Seq<u8>
    decreases width,
{
    if width == 0 {
        Seq::empty()
    } else {
        seq![(value % 256) as u8] + le_bytes(value / 256, (width - 1) as nat)
    }
}

/// The number whose bytes, lowest first, are `bytes`.
pub open spec fn le_value(bytes: Seq<u8>) -> nat
    decreases bytes.len(),
{
    if bytes.len() == 0 {
        0
    } else {
        bytes[0] as nat + 256 * le_value(bytes.drop_first())
    }
}

/// The number of values that `width` bytes can hold.
pub open spec fn span(width: nat) -> nat
    decreases width,
{
    if width == 0 {
        1
    } else {
        256 * span((width - 1) as nat)
    }
}

/// `width` bytes are written, whatever the value.
pub proof fn lemma_le_bytes_len(value: nat, width: nat)
    ensures
        le_bytes(value, width).len() == width,
    decreases width,
{
    if width > 0 {
        lemma_le_bytes_len(value / 256, (width - 1) as nat);
    }
}

/// A value that fits in `width` bytes is read back from them.
pub proof fn lemma_le_round_trip(value: nat, width: nat)
    requires
        value < span(width),
    ensures
        le_value(le_bytes(value, width)) == value,
    decreases width,
{
    if width > 0 {
        let rest = le_bytes(value / 256, (width - 1) as nat);
        lemma_le_round_trip(value / 256, (width - 1) as nat);
        assert(le_bytes(value, width).drop_first() =~= rest);
    }
}

/// Two bytes hold the 16-bit numbers and eight bytes the 64-bit numbers.
pub proof fn lemma_spans()
    ensures
        span(2) == 0x1_0000,
        span(8) == 0x1_0000_0000_0000_0000,
{
    reveal_with_fuel(span, 9);
}

/// Appends the two bytes of `value`.
pub fn put_u16(out: &mut Vec<u8>, value: u16)
    ensures
        final(out)@ == old(out)@ + le_bytes(value as nat, 2),
{
    out.push((value % 256) as u8);
    out.push((value / 256) as u8);
    proof {
        reveal_with_fuel(le_bytes, 3);
        assert(out@ =~= old(out)@ + le_bytes(value as nat, 2));
    }
}

/// Appends the eight bytes of `value`.
pub fn put_u64(out: &mut Vec<u8>, value: u64)
    ensures
        final(out)@ == old(out)@ + le_bytes(value as nat, 8),
{
    let q1 = value / 256;
    let q2 = q1 / 256;
    let q3 = q2 / 256;
    let q4 = q3 / 256;
    let q5 = q4 / 256;
    let q6 = q5 / 256;
    let q7 = q6 / 256;
    out.push((value % 256) as u8);
    out.push((q1 % 256) as u8);
    out.push((q2 % 256) as u8);
    out.push((q3 % 256) as u8);
    out.push((q4 % 256) as u8);
    out.push((q5 % 256) as u8);
    out.push((q6 % 256) as u8);
    out.push((q7 % 256) as u8);
    proof {
        reveal_with_fuel(le_bytes, 9);
        assert(out@ =~= old(out)@ + le_bytes(value as nat, 8));
    }
}

/// The 16-bit number in the two bytes at `at`.
pub fn get_u16(bytes: &[u8], at: usize) -> (value: u16)
    requires
        at + 2 <= bytes@.len(),
    ensures
        value == le_value(bytes@.subrange(at as int, at + 2)),
{
    let b0 = bytes[at] as u16;
    let b1 = bytes[at + 1] as u16;
    proof {
        let field = bytes@.subrange(at as int, at + 2);
        reveal_with_fuel(le_value, 3);
        assert(field[0] == bytes@[at as int]);
        assert(field.drop_first()[0] == bytes@[at + 1]);
        assert(field.drop_first().drop_first().len() == 0);
    }
    b0 + 256 * b1
}

/// The 64-bit number in the eight bytes at `at`.
pub fn get_u64(bytes: &[u8], at: usize) -> (value: u64)
    requires
        at + 8 <= bytes@.len(),
    ensures
        value == le_value(bytes@.subrange(at as int, at + 8)),
{
    assert(bytes@.len() <= usize::MAX) by {
        let _ = bytes.len();
    }
    let v7 = bytes[at + 7] as u64;
    let v6 = bytes[at + 6] as u64 + 256 * v7;
    let v5 = bytes[at + 5] as u64 + 256 * v6;
    let v4 = bytes[at + 4] as u64 + 256 * v5;
    let v3 = bytes[at + 3] as u64 + 256 * v4;
    let v2 = bytes[at + 2] as u64 + 256 * v3;
    let v1 = bytes[at + 1] as u64 + 256 * v2;
    let v0 = bytes[at] as u64 + 256 * v1;
    proof {
        let f0 = bytes@.subrange(at as int, at + 8);
        let f1 = f0.drop_first();
        let f2 = f1.drop_first();
        let f3 = f2.drop_first();
        let f4 = f3.drop_first();
        let f5 = f4.drop_first();
        let f6 = f5.drop_first();
        let f7 = f6.drop_first();
        assert(f7.drop_first().len() == 0);
        assert(le_value(f7) == v7) by {
            reveal_with_fuel(le_value, 2);
        }
        assert(le_value(f6) == v6);
        assert(le_value(f5) == v5);
        assert(le_value(f4) == v4);
        assert(le_value(f3) == v3);
        assert(le_value(f2) == v2);
        assert(le_value(f1) == v1);
        assert(le_value(f0) == v0);
    }
    v0
}

} // verus!
