//! Numbers as bytes, the most significant byte first.

use vstd::prelude::*;

verus! {

/// The lowest `width` bytes of `value`, the most significant byte first.
pub open spec fn big_endian(value: int, width: nat) -> Seq<u8>
    decreases width,
{
    if width == 0 {
        Seq::empty()
    } else {
        big_endian(value / 256, (width - 1) as nat).push((value % 256) as u8)
    }
}

/// The number that the bytes stand for, the most significant byte first.
pub open spec fn from_big_endian(bytes: Seq<u8>) -> int
    decreases bytes.len(),
{
    if bytes.len() == 0 {
        0
    } else {
        from_big_endian(bytes.drop_last()) * 256 + bytes.last()
    }
}

/// How many numbers `width` bytes can hold.
pub open spec fn capacity(width: nat) -> int
    decreases width,
{
    if width == 0 {
        1
    } else {
        capacity((width - 1) as nat) * 256
    }
}

/// A number that fits is read back from its bytes.
pub proof fn law_big_endian_round_trip(value: int, width: nat)
    requires
        0 <= value < capacity(width),
    ensures
        big_endian(value, width).len() == width,
        from_big_endian(big_endian(value, width)) == value,
    decreases width,
{
    if width > 0 {
        law_big_endian_round_trip(value / 256, (width - 1) as nat);
        let high = big_endian(value / 256, (width - 1) as nat);
        assert(high.push((value % 256) as u8).drop_last() =~= high);
    }
}

/// Different numbers that fit have different bytes.
pub proof fn law_big_endian_is_injective(a: int, b: int, width: nat)
    requires
        0 <= a < capacity(width),
        0 <= b < capacity(width),
        big_endian(a, width) == big_endian(b, width),
    ensures
        a == b,
{
    law_big_endian_round_trip(a, width);
    law_big_endian_round_trip(b, width);
}

/// There are as many bytes as asked for.
pub proof fn lemma_big_endian_len(value: int, width: nat)
    ensures
        big_endian(value, width).len() == width,
    decreases width,
{
    if width > 0 {
        lemma_big_endian_len(value / 256, (width - 1) as nat);
    }
}

/// Four and eight bytes hold what their integer types hold.
pub proof fn lemma_capacity()
    ensures
        capacity(4) == 0x1_0000_0000,
        capacity(8) == 0x1_0000_0000_0000_0000,
{
    reveal_with_fuel(capacity, 9);
}

/// The bytes stand for a number that as many bytes can hold.
pub proof fn lemma_from_big_endian_bound(bytes: Seq<u8>)
    ensures
        0 <= from_big_endian(bytes) < capacity(bytes.len()),
    decreases bytes.len(),
{
    if bytes.len() > 0 {
        lemma_from_big_endian_bound(bytes.drop_last());
    }
}

/// The lowest `width` bytes of `value`, the most significant byte first.
pub fn to_big_endian(value: u64, width: usize) -> (bytes: Vec<u8>)
    ensures
        bytes@ == big_endian(value as int, width as nat),
    decreases width,
{
    if width == 0 {
        Vec::new()
    } else {
        let mut bytes = to_big_endian(value / 256, width - 1);
        bytes.push((value % 256) as u8);
        bytes
    }
}

/// The number that at most eight bytes stand for, the most significant byte first.
pub fn read_big_endian(bytes: &[u8]) -> (value: u64)
    requires
        bytes@.len() <= 8,
    ensures
        value == from_big_endian(bytes@),
{
    let mut value: u64 = 0;
    let mut i: usize = 0;
    while i < bytes.len()
        invariant
            i <= bytes@.len() <= 8,
            value == from_big_endian(bytes@.take(i as int)),
        decreases bytes@.len() - i,
    {
        proof {
            assert(bytes@.take(i + 1).drop_last() =~= bytes@.take(i as int));
            lemma_from_big_endian_bound(bytes@.take(i + 1));
            assert(capacity((i + 1) as nat) <= capacity(8)) by {
                reveal_with_fuel(capacity, 9);
            }
            lemma_capacity();
        }
        value = value * 256 + bytes[i] as u64;
        i = i + 1;
    }
    proof {
        assert(bytes@.take(i as int) =~= bytes@);
    }
    value
}

} // verus!
