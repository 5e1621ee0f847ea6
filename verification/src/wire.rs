//! Big-endian 32-bit integers and the 7-bit character set, as sequences of bytes.

use vstd::prelude::*;

verus! {

/// Width in bytes of every integer on the wire.
pub const WORD: usize = 4;

/// The value of four bytes read as a big-endian unsigned integer.
pub open spec fn be_u32(b: Seq<u8>) -> nat
    recommends
        b.len() == 4,
{
    (b[0] as nat) * 0x100_0000 + (b[1] as nat) * 0x1_0000 + (b[2] as nat) * 0x100 + (b[3] as nat)
}

/// The four bytes that stand for `n` in big-endian order.
pub open spec fn be_bytes(n: u32) -> Seq<u8> {
    seq![
        (n / 0x100_0000) as u8,
        ((n / 0x1_0000) % 0x100) as u8,
        ((n / 0x100) % 0x100) as u8,
        (n % 0x100) as u8,
    ]
}

/// The integer that starts at offset `pos` of `buf`.
pub open spec fn be_u32_at(buf: Seq<u8>, pos: int) -> nat
    recommends
        0 <= pos,
        pos + 4 <= buf.len(),
{
    be_u32(buf.subrange(pos, pos + 4))
}

/// Every byte is below 128.
pub open spec fn is_ascii(s: Seq<u8>) -> bool {
    forall|i: int| 0 <= i < s.len() ==> s[i] < 128
}

/// Reading the bytes of `n` gives `n` back.
pub proof fn lemma_be_bytes_value(n: u32)
    ensures
        be_bytes(n).len() == 4,
        be_u32(be_bytes(n)) == n,
{
}

/// Four bytes stand for a number that a `u32` holds, and writing that number
/// gives the same four bytes.
pub proof fn lemma_be_u32_bytes(b: Seq<u8>)
    requires
        b.len() == 4,
    ensures
        be_u32(b) <= u32::MAX,
        be_bytes(be_u32(b) as u32) == b,
{
    let v: int = be_u32(b) as int;
    let b0: int = b[0] as int;
    let b1: int = b[1] as int;
    let b2: int = b[2] as int;
    let b3: int = b[3] as int;
    assert(v == b0 * 0x100_0000 + b1 * 0x1_0000 + b2 * 0x100 + b3);
    assert(v / 0x100_0000 == b0);
    assert(v / 0x1_0000 == b0 * 0x100 + b1);
    assert(v / 0x100 == b0 * 0x1_0000 + b1 * 0x100 + b2);
    assert((v / 0x1_0000) % 0x100 == b1);
    assert((v / 0x100) % 0x100 == b2);
    assert(v % 0x100 == b3);
    assert(be_bytes(v as u32) =~= b);
}

/// Reads the big-endian integer that starts at `pos`.
pub fn read_u32_be(view: &[u8], pos: usize) -> (n: u32)
    requires
        pos + 4 <= view@.len(),
    ensures
        n == be_u32_at(view@, pos as int),
{
    let b0: u32 = view[pos] as u32;
    let b1: u32 = view[pos + 1] as u32;
    let b2: u32 = view[pos + 2] as u32;
    let b3: u32 = view[pos + 3] as u32;
    b0 * 0x100_0000 + b1 * 0x1_0000 + b2 * 0x100 + b3
}

} // verus!
