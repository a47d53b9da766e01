//! Little-endian integers as they stand in frames and in the footer.

use vstd::prelude::*;

verus! {

/// The two bytes of `x`, least significant first.
pub open spec fn le16(x: u16) -> Seq<u8> {
    seq![(x % 256) as u8, (x / 256) as u8]
}

/// The four bytes of `x`, least significant first.
pub open spec fn le32(x: u32) -> Seq<u8> {
    seq![
        (x % 256) as u8,
        (x / 0x100 % 256) as u8,
        (x / 0x1_0000 % 256) as u8,
        (x / 0x100_0000) as u8,
    ]
}

/// The number that two bytes stand for.
pub open spec fn from_le16(b: Seq<u8>) -> u16 {
    (b[0] + 0x100 * b[1]) as u16
}

/// The number that four bytes stand for.
pub open spec fn from_le32(b: Seq<u8>) -> u32 {
    (b[0] + 0x100 * b[1] + 0x1_0000 * b[2] + 0x100_0000 * b[3]) as u32
}

/// Reading gives back what was written.
pub proof fn law_le_round_trip(x: u16, y: u32)
    ensures
        from_le16(le16(x)) == x,
        from_le32(le32(y)) == y,
{
}

/// The two bytes of `x`, least significant first.
pub(crate) fn to_le16(x: u16) -> (r: [u8; 2])
    ensures
        r@ == le16(x),
{
    let r: [u8; 2] = [(x % 256) as u8, (x / 256) as u8];
    proof {
        assert(r@ =~= le16(x));
    }
    r
}

/// The four bytes of `x`, least significant first.
pub(crate) fn to_le32(x: u32) -> (r: [u8; 4])
    ensures
        r@ == le32(x),
{
    let r: [u8; 4] = [
        (x % 256) as u8,
        (x / 0x100 % 256) as u8,
        (x / 0x1_0000 % 256) as u8,
        (x / 0x100_0000) as u8,
    ];
    proof {
        assert(r@ =~= le32(x));
    }
    r
}

/// The number that two bytes stand for.
pub(crate) fn read_le16(lo: u8, hi: u8) -> (r: u16)
    ensures
        r == from_le16(seq![lo, hi]),
{
    lo as u16 + 0x100 * hi as u16
}

/// The number that four bytes stand for.
pub(crate) fn read_le32(b0: u8, b1: u8, b2: u8, b3: u8) -> (r: u32)
    ensures
        r == from_le32(seq![b0, b1, b2, b3]),
{
    b0 as u32 + 0x100 * b1 as u32 + 0x1_0000 * b2 as u32 + 0x100_0000 * b3 as u32
}

/// Which byte is which: the first is the number's remainder by 256, and each
/// further one counts for 256 times the one before it. This holds of every
/// number and of every row of bytes.
pub proof fn law_little_end_first(x: u16, y: u32, b: Seq<u8>)
    ensures
        le16(x).len() == 2,
        le16(x)[0] == x % 256,
        le16(x)[1] == x / 256,
        le16(x)[0] + 256 * le16(x)[1] == x,
        le32(y).len() == 4,
        le32(y)[0] == y % 256,
        le32(y)[1] == y / 256 % 256,
        le32(y)[2] == y / 65536 % 256,
        le32(y)[3] == y / 16777216,
        le32(y)[0] + 256 * le32(y)[1] + 65536 * le32(y)[2] + 16777216 * le32(y)[3] == y,
        from_le16(b) == b[0] + 256 * b[1],
        from_le32(b) == b[0] + 256 * b[1] + 65536 * b[2] + 16777216 * b[3],
{
}

} // verus!
