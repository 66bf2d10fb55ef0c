//! Fixed-width little-endian integers, as every file of the store writes them.
use vstd::prelude::*;

verus! {

/// The `width` low-order base-256 digits of `x`, least significant first.
pub open spec fn le_bytes(x: nat, width: nat) -> Seq<u8>
    decreases width,
{
    if width == 0 {
        Seq::empty()
    } else {
        seq![(x % 256) as u8] + le_bytes(x / 256, (width - 1) as nat)
    }
}

/// The number whose base-256 digits, least significant first, are `s`.
pub open spec fn le_value(s: Seq<u8>) -> nat
    decreases s.len(),
{
    if s.len() == 0 {
        0
    } else {
        s[0] as nat + 256 * le_value(s.drop_first())
    }
}

/// 256 to the power `n`.
pub open spec fn pow256(n: nat) -> nat
    decreases n,
{
    if n == 0 {
        1
    } else {
        256 * pow256((n - 1) as nat)
    }
}

/// An encoding has exactly the width asked for.
pub proof fn lemma_le_bytes_len(x: nat, width: nat)
    ensures
        le_bytes(x, width).len() == width,
    decreases width,
{
    if width > 0 {
        lemma_le_bytes_len(x / 256, (width - 1) as nat);
    }
}

/// Decoding an encoding gives the number back when it fits the width.
pub proof fn lemma_le_value_of_bytes(x: nat, width: nat)
    requires
        x < pow256(width),
    ensures
        le_value(le_bytes(x, width)) == x,
    decreases width,
{
    lemma_le_bytes_len(x, width);
    if width > 0 {
        let rest = le_bytes(x / 256, (width - 1) as nat);
        let whole = le_bytes(x, width);
        assert(whole.drop_first() =~= rest);
        lemma_le_value_of_bytes(x / 256, (width - 1) as nat);
    }
}

/// A decoded number fits the width of what was decoded, and encodes back
/// to the same bytes.
pub proof fn lemma_le_bytes_of_value(s: Seq<u8>)
    ensures
        le_value(s) < pow256(s.len()),
        le_bytes(le_value(s), s.len()) == s,
    decreases s.len(),
{
    if s.len() > 0 {
        let tail = s.drop_first();
        lemma_le_bytes_of_value(tail);
        let v = le_value(s);
        assert(v == s[0] as nat + 256 * le_value(tail));
        assert(v % 256 == s[0] as nat);
        assert(v / 256 == le_value(tail));
        assert(le_bytes(v, s.len()) =~= s);
    } else {
        assert(le_bytes(0, 0) =~= s);
    }
}

/// The widths in use: four and eight bytes hold exactly the `u32` and `u64`.
pub proof fn lemma_pow256_widths()
    ensures
        pow256(4) == 0x1_0000_0000,
        pow256(8) == 0x1_0000_0000_0000_0000,
{
    reveal_with_fuel(pow256, 9);
}

/// Appends the four-byte encoding of `x`.
pub fn put_u32(buf: &mut Vec<u8>, x: u32)
    ensures
        final(buf)@ == old(buf)@ + le_bytes(x as nat, 4),
{
    let b0: u8 = (x % 256) as u8;
    let x1: u32 = x / 256;
    let b1: u8 = (x1 % 256) as u8;
    let x2: u32 = x1 / 256;
    let b2: u8 = (x2 % 256) as u8;
    let x3: u32 = x2 / 256;
    let b3: u8 = (x3 % 256) as u8;
    buf.push(b0);
    buf.push(b1);
    buf.push(b2);
    buf.push(b3);
    proof {
        reveal_with_fuel(le_bytes, 5);
        assert(le_bytes(x as nat, 4) =~= seq![b0, b1, b2, b3]);
        assert(buf@ =~= old(buf)@ + seq![b0, b1, b2, b3]);
    }
}

/// Appends the eight-byte encoding of `x`.
pub fn put_u64(buf: &mut Vec<u8>, x: u64)
    ensures
        final(buf)@ == old(buf)@ + le_bytes(x as nat, 8),
{
    let b0: u8 = (x % 256) as u8;
    let x1: u64 = x / 256;
    let b1: u8 = (x1 % 256) as u8;
    let x2: u64 = x1 / 256;
    let b2: u8 = (x2 % 256) as u8;
    let x3: u64 = x2 / 256;
    let b3: u8 = (x3 % 256) as u8;
    let x4: u64 = x3 / 256;
    let b4: u8 = (x4 % 256) as u8;
    let x5: u64 = x4 / 256;
    let b5: u8 = (x5 % 256) as u8;
    let x6: u64 = x5 / 256;
    let b6: u8 = (x6 % 256) as u8;
    let x7: u64 = x6 / 256;
    let b7: u8 = (x7 % 256) as u8;
    buf.push(b0);
    buf.push(b1);
    buf.push(b2);
    buf.push(b3);
    buf.push(b4);
    buf.push(b5);
    buf.push(b6);
    buf.push(b7);
    proof {
        reveal_with_fuel(le_bytes, 9);
        assert(le_bytes(x as nat, 8) =~= seq![b0, b1, b2, b3, b4, b5, b6, b7]);
        assert(buf@ =~= old(buf)@ + seq![b0, b1, b2, b3, b4, b5, b6, b7]);
    }
}

/// Reads the four bytes at `pos` as a number.
pub fn read_u32(data: &[u8], pos: usize) -> (r: u32)
    requires
        pos + 4 <= data.len(),
    ensures
        r as nat == le_value(data@.subrange(pos as int, pos + 4)),
{
    let b0: u32 = data[pos] as u32;
    let b1: u32 = data[pos + 1] as u32;
    let b2: u32 = data[pos + 2] as u32;
    let b3: u32 = data[pos + 3] as u32;
    proof {
        reveal_with_fuel(le_value, 5);
        let s = data@.subrange(pos as int, pos + 4);
        assert(s[0] == data@[pos as int]);
        assert(s.drop_first()[0] == data@[pos + 1]);
        assert(s.drop_first().drop_first()[0] == data@[pos + 2]);
        assert(s.drop_first().drop_first().drop_first()[0] == data@[pos + 3]);
        assert(s.drop_first().drop_first().drop_first().drop_first().len() == 0);
    }
    b0 + 256 * (b1 + 256 * (b2 + 256 * b3))
}

/// Reads the eight bytes at `pos` as a number.
pub fn read_u64(data: &[u8], pos: usize) -> (r: u64)
    requires
        pos + 8 <= data.len(),
    ensures
        r as nat == le_value(data@.subrange(pos as int, pos + 8)),
{
    let b0: u64 = data[pos] as u64;
    let b1: u64 = data[pos + 1] as u64;
    let b2: u64 = data[pos + 2] as u64;
    let b3: u64 = data[pos + 3] as u64;
    let b4: u64 = data[pos + 4] as u64;
    let b5: u64 = data[pos + 5] as u64;
    let b6: u64 = data[pos + 6] as u64;
    let b7: u64 = data[pos + 7] as u64;
    proof {
        reveal_with_fuel(le_value, 9);
        let s0 = data@.subrange(pos as int, pos + 8);
        let s1 = s0.drop_first();
        let s2 = s1.drop_first();
        let s3 = s2.drop_first();
        let s4 = s3.drop_first();
        let s5 = s4.drop_first();
        let s6 = s5.drop_first();
        let s7 = s6.drop_first();
        assert(s0[0] == data@[pos as int]);
        assert(s1[0] == data@[pos + 1]);
        assert(s2[0] == data@[pos + 2]);
        assert(s3[0] == data@[pos + 3]);
        assert(s4[0] == data@[pos + 4]);
        assert(s5[0] == data@[pos + 5]);
        assert(s6[0] == data@[pos + 6]);
        assert(s7[0] == data@[pos + 7]);
        assert(s7.drop_first().len() == 0);
    }
    b0 + 256 * (b1 + 256 * (b2 + 256 * (b3 + 256 * (b4 + 256 * (b5 + 256 * (b6 + 256 * b7))))))
}

} // verus!
