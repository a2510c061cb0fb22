//! Unsigned 64-bit integers as eight bytes, most significant byte first.

use vstd::prelude::*;

verus! {

/// The eight bytes of `x`, most significant first.
pub open spec fn be_bytes(x: u64) -> Seq<u8> {
    seq![
        (x / 0x100_0000_0000_0000) as u8,
        ((x / 0x1_0000_0000_0000) % 256) as u8,
        ((x / 0x100_0000_0000) % 256) as u8,
        ((x / 0x1_0000_0000) % 256) as u8,
        ((x / 0x100_0000) % 256) as u8,
        ((x / 0x1_0000) % 256) as u8,
        ((x / 0x100) % 256) as u8,
        (x % 256) as u8,
    ]
}

/// The integer that eight bytes stand for, most significant first.
pub open spec fn be_value(b: Seq<u8>) -> u64 {
    (b[0] as int * 0x100_0000_0000_0000 + b[1] as int * 0x1_0000_0000_0000 + b[2] as int
        * 0x100_0000_0000 + b[3] as int * 0x1_0000_0000 + b[4] as int * 0x100_0000 + b[5] as int
        * 0x1_0000 + b[6] as int * 0x100 + b[7] as int) as u64
}

/// Dividing by 256 and then by `d` is dividing by `256 * d`.
proof fn lemma_shift_byte(x: int, d: int)
    requires
        0 <= x,
        0 < d,
    ensures
        (x / d) / 256 == x / (d * 256),
        x / d == 256 * ((x / d) / 256) + (x / d) % 256,
        0 <= x / d,
{
    vstd::arithmetic::div_mod::lemma_div_denominator(x, d, 256);
    vstd::arithmetic::div_mod::lemma_fundamental_div_mod(x / d, 256);
    vstd::arithmetic::div_mod::lemma_div_pos_is_pos(x, d);
}

/// Reading the bytes of an integer gives the integer back.
pub proof fn lemma_be_round_trip(x: u64)
    ensures
        be_bytes(x).len() == 8,
        be_value(be_bytes(x)) == x,
{
    let xi = x as int;
    let q1 = xi / 0x100;
    let q2 = xi / 0x1_0000;
    let q3 = xi / 0x100_0000;
    let q4 = xi / 0x1_0000_0000;
    let q5 = xi / 0x100_0000_0000;
    let q6 = xi / 0x1_0000_0000_0000;
    let q7 = xi / 0x100_0000_0000_0000;
    lemma_shift_byte(xi, 1);
    lemma_shift_byte(xi, 0x100);
    lemma_shift_byte(xi, 0x1_0000);
    lemma_shift_byte(xi, 0x100_0000);
    lemma_shift_byte(xi, 0x1_0000_0000);
    lemma_shift_byte(xi, 0x100_0000_0000);
    lemma_shift_byte(xi, 0x1_0000_0000_0000);
    assert(xi == 256 * q1 + xi % 256);
    assert(q1 == 256 * q2 + q1 % 256);
    assert(q2 == 256 * q3 + q2 % 256);
    assert(q3 == 256 * q4 + q3 % 256);
    assert(q4 == 256 * q5 + q4 % 256);
    assert(q5 == 256 * q6 + q5 % 256);
    assert(q6 == 256 * q7 + q6 % 256);
    assert(0 <= q7 < 256);
    let b = be_bytes(x);
    assert(b.len() == 8);
    assert(b[0] as int == q7);
    assert(b[1] as int == q6 % 256);
    assert(b[2] as int == q5 % 256);
    assert(b[3] as int == q4 % 256);
    assert(b[4] as int == q3 % 256);
    assert(b[5] as int == q2 % 256);
    assert(b[6] as int == q1 % 256);
    assert(b[7] as int == xi % 256);
}

/// Appends the eight bytes of `x` to `out`.
pub fn push_be(out: &mut Vec<u8>, x: u64)
    ensures
        final(out)@ == old(out)@ + be_bytes(x),
{
    out.push((x / 0x100_0000_0000_0000) as u8);
    out.push(((x / 0x1_0000_0000_0000) % 256) as u8);
    out.push(((x / 0x100_0000_0000) % 256) as u8);
    out.push(((x / 0x1_0000_0000) % 256) as u8);
    out.push(((x / 0x100_0000) % 256) as u8);
    out.push(((x / 0x1_0000) % 256) as u8);
    out.push(((x / 0x100) % 256) as u8);
    out.push((x % 256) as u8);
    proof {
        assert(out@ =~= old(out)@ + be_bytes(x));
    }
}

/// Reads the integer that stands in the eight bytes from index `at` on.
pub fn read_be(bytes: &[u8], at: usize) -> (r: u64)
    requires
        at + 8 <= bytes@.len(),
    ensures
        r == be_value(bytes@.subrange(at as int, at + 8)),
{
    let b0: u64 = bytes[at] as u64;
    let b1: u64 = bytes[at + 1] as u64;
    let b2: u64 = bytes[at + 2] as u64;
    let b3: u64 = bytes[at + 3] as u64;
    let b4: u64 = bytes[at + 4] as u64;
    let b5: u64 = bytes[at + 5] as u64;
    let b6: u64 = bytes[at + 6] as u64;
    let b7: u64 = bytes[at + 7] as u64;
    let r: u64 = b0 * 0x100_0000_0000_0000 + b1 * 0x1_0000_0000_0000 + b2 * 0x100_0000_0000 + b3
        * 0x1_0000_0000 + b4 * 0x100_0000 + b5 * 0x1_0000 + b6 * 0x100 + b7;
    proof {
        let s = bytes@.subrange(at as int, at + 8);
        assert(s[0] == bytes@[at as int]);
        assert(s[1] == bytes@[at + 1]);
        assert(s[2] == bytes@[at + 2]);
        assert(s[3] == bytes@[at + 3]);
        assert(s[4] == bytes@[at + 4]);
        assert(s[5] == bytes@[at + 5]);
        assert(s[6] == bytes@[at + 6]);
        assert(s[7] == bytes@[at + 7]);
    }
    r
}

} // verus!
