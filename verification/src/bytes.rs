//! Little-endian byte strings as integers, and back.

use vstd::prelude::*;

verus! {

/// The integer that `b` spells in base 256, least significant byte first.
pub open spec fn le_nat(b: Seq<u8>) -> int
    decreases b.len(),
{
    if b.len() == 0 {
        0
    } else {
        b[0] + 256 * le_nat(b.drop_first())
    }
}

/// The `len` lowest base-256 digits of `v`, least significant first.
pub open spec fn le_bytes(v: int, len: nat) -> Seq<u8>
    decreases len,
{
    if len == 0 {
        Seq::empty()
    } else {
        seq![(v % 256) as u8] + le_bytes(v / 256, (len - 1) as nat)
    }
}

/// 256 to the power `len`: one more than the largest integer that `len`
/// bytes can spell.
pub open spec fn byte_range(len: nat) -> int
    decreases len,
{
    if len == 0 {
        1
    } else {
        256 * byte_range((len - 1) as nat)
    }
}

/// `le_bytes(v, len)` has `len` bytes.
pub proof fn lemma_le_bytes_len(v: int, len: nat)
    ensures
        le_bytes(v, len).len() == len,
    decreases len,
{
    if len > 0 {
        lemma_le_bytes_len(v / 256, (len - 1) as nat);
    }
}

/// A byte string spells an integer below `byte_range` of its length.
pub proof fn lemma_le_nat_range(b: Seq<u8>)
    ensures
        0 <= le_nat(b) < byte_range(b.len()),
    decreases b.len(),
{
    if b.len() > 0 {
        lemma_le_nat_range(b.drop_first());
    }
}

/// Spelling `v` in `len` bytes and reading it back gives `v`, when `v` fits.
pub proof fn lemma_le_nat_of_le_bytes(v: int, len: nat)
    requires
        0 <= v < byte_range(len),
    ensures
        le_nat(le_bytes(v, len)) == v,
    decreases len,
{
    if len > 0 {
        let rest = le_bytes(v / 256, (len - 1) as nat);
        lemma_le_nat_of_le_bytes(v / 256, (len - 1) as nat);
        assert(le_bytes(v, len).drop_first() =~= rest);
    }
}

/// Reading a byte string and spelling the result in as many bytes gives the
/// string back.
pub proof fn lemma_le_bytes_of_le_nat(b: Seq<u8>)
    ensures
        le_bytes(le_nat(b), b.len()) == b,
    decreases b.len(),
{
    if b.len() > 0 {
        lemma_le_bytes_of_le_nat(b.drop_first());
        lemma_le_nat_range(b.drop_first());
        let v = le_nat(b);
        assert(v / 256 == le_nat(b.drop_first()));
        assert(v % 256 == b[0]);
        assert(le_bytes(v, b.len()) =~= b);
    } else {
        assert(le_bytes(le_nat(b), b.len()) =~= b);
    }
}

/// Eight bytes spell exactly the 64-bit integers.
pub proof fn lemma_byte_range_8()
    ensures
        byte_range(8) == 0x1_0000_0000_0000_0000,
{
    assert(byte_range(0) == 1);
    assert(byte_range(1) == 0x100);
    assert(byte_range(2) == 0x1_0000);
    assert(byte_range(3) == 0x100_0000);
    assert(byte_range(4) == 0x1_0000_0000);
    assert(byte_range(5) == 0x100_0000_0000);
    assert(byte_range(6) == 0x1_0000_0000_0000);
    assert(byte_range(7) == 0x100_0000_0000_0000);
}

/// `byte_range` turns sums of lengths into products.
pub proof fn lemma_byte_range_adds(a: nat, b: nat)
    ensures
        byte_range(a + b) == byte_range(a) * byte_range(b),
    decreases a,
{
    if a > 0 {
        lemma_byte_range_adds((a - 1) as nat, b);
        assert(byte_range(a + b) == 256 * byte_range((a - 1 + b) as nat));
        assert(256 * (byte_range((a - 1) as nat) * byte_range(b)) == (256 * byte_range(
            (a - 1) as nat,
        )) * byte_range(b)) by (nonlinear_arith);
    }
}

/// Thirty-two bytes spell exactly the integers below 2^256.
pub proof fn lemma_byte_range_32()
    ensures
        byte_range(32)
            == 0x1_0000_0000_0000_0000_0000_0000_0000_0000_0000_0000_0000_0000_0000_0000_0000_0000int,
{
    lemma_byte_range_8();
    lemma_byte_range_adds(8, 8);
    assert(byte_range(16) == 0x1_0000_0000_0000_0000int * 0x1_0000_0000_0000_0000int);
    lemma_byte_range_adds(16, 16);
    assert(byte_range(32) == 0x1_0000_0000_0000_0000_0000_0000_0000_0000int
        * 0x1_0000_0000_0000_0000_0000_0000_0000_0000int);
}

/// The eight bytes of `x`, least significant first.
pub fn u64_to_le_bytes(x: u64) -> (r: [u8; 8])
    ensures
        r@ == le_bytes(x as int, 8),
{
    let b0: u8 = (x % 256) as u8;
    let x1: u64 = x / 256;
    let b1: u8 = (x1 % 256) as u8;
    let x2: u64 = x1 / 256;
    let b2: u8 = (x2 % 256) as u8;
    let x3: u64 = x2 / 256;
    let b3: u8 = (x3 % 256) as u8;
    let x4: u64 = x3 / 256;
    let b4: u8 = (x4 % 256) as u8;
    let x5: u64 = x4 / 256;
    let b5: u8 = (x5 % 256) as u8;
    let x6: u64 = x5 / 256;
    let b6: u8 = (x6 % 256) as u8;
    let x7: u64 = x6 / 256;
    let b7: u8 = (x7 % 256) as u8;
    let r = [b0, b1, b2, b3, b4, b5, b6, b7];
    proof {
        reveal_with_fuel(le_bytes, 9);
        assert(r@ =~= le_bytes(x as int, 8));
    }
    r
}

/// The integer that eight bytes spell, least significant first.
pub fn u64_from_le_bytes(b: &[u8]) -> (r: u64)
    requires
        b@.len() == 8,
    ensures
        r == le_nat(b@),
{
    let mut r: u64 = 0;
    let mut i: usize = 8;
    proof {
        lemma_byte_range_8();
        assert(b@.subrange(8, 8) =~= Seq::<u8>::empty());
    }
    while i > 0
        invariant
            i <= 8,
            b@.len() == 8,
            r == le_nat(b@.subrange(i as int, 8)),
            r < byte_range((8 - i) as nat),
            byte_range(8) == 0x1_0000_0000_0000_0000,
        decreases i,
    {
        i = i - 1;
        proof {
            let tail = b@.subrange(i as int, 8);
            assert(tail.drop_first() =~= b@.subrange(i + 1, 8));
            assert(byte_range((8 - i) as nat) == 256 * byte_range((8 - i - 1) as nat));
            lemma_byte_range_adds((8 - i) as nat, i as nat);
            assert(byte_range(i as nat) >= 1) by {
                lemma_le_nat_range(Seq::new(i as nat, |k: int| 0u8));
            }
            assert(byte_range((8 - i) as nat) <= byte_range(8)) by (nonlinear_arith)
                requires
                    byte_range(8) == byte_range((8 - i) as nat) * byte_range(i as nat),
                    byte_range(i as nat) >= 1,
                    byte_range((8 - i) as nat) >= 0,
            ;
        }
        r = r * 256 + b[i] as u64;
    }
    proof {
        assert(b@.subrange(0, 8) =~= b@);
    }
    r
}

} // verus!
