//! Big-endian 32-bit integers, the only multi-byte numbers of the format.

use vstd::prelude::*;

verus! {

/// The number that four bytes spell, most significant byte first.
pub open spec fn be_u32(b0: u8, b1: u8, b2: u8, b3: u8) -> u32 {
    (b0 * 0x100_0000 + b1 * 0x1_0000 + b2 * 0x100 + b3) as u32
}

/// The big-endian number in the four bytes of `bytes` that start at `at`.
pub open spec fn be_u32_at(bytes: Seq<u8>, at: int) -> u32 {
    be_u32(bytes[at], bytes[at + 1], bytes[at + 2], bytes[at + 3])
}

/// The four bytes that spell a number, most significant byte first.
pub open spec fn be_bytes(n: u32) -> Seq<u8> {
    seq![
        (n / 0x100_0000) as u8,
        (n / 0x1_0000 % 0x100) as u8,
        (n / 0x100 % 0x100) as u8,
        (n % 0x100) as u8,
    ]
}

/// Spelling a number and reading the bytes gives the number.
pub proof fn law_be_read_write(n: u32)
    ensures
        be_bytes(n).len() == 4,
        be_u32_at(be_bytes(n), 0) == n,
{
    let (b0, b1, b2, b3) = (n / 0x100_0000, n / 0x1_0000 % 0x100, n / 0x100 % 0x100, n % 0x100);
    assert(b0 * 0x100_0000 + b1 * 0x1_0000 + b2 * 0x100 + b3 == n && b0 < 0x100)
        by (nonlinear_arith)
        requires
            b0 == n / 0x100_0000,
            b1 == n / 0x1_0000 % 0x100,
            b2 == n / 0x100 % 0x100,
            b3 == n % 0x100,
            n <= 0xffff_ffff,
    ;
}

/// Reading four bytes and spelling the number gives the bytes.
pub proof fn law_be_write_read(b0: u8, b1: u8, b2: u8, b3: u8)
    ensures
        be_bytes(be_u32(b0, b1, b2, b3)) == seq![b0, b1, b2, b3],
{
    let v: int = b0 * 0x100_0000 + b1 * 0x1_0000 + b2 * 0x100 + b3;
    assert(v / 0x100_0000 == b0 && v / 0x1_0000 % 0x100 == b1 && v / 0x100 % 0x100 == b2 && v
        % 0x100 == b3) by (nonlinear_arith)
        requires
            v == b0 * 0x100_0000 + b1 * 0x1_0000 + b2 * 0x100 + b3,
    ;
    assert(be_bytes(be_u32(b0, b1, b2, b3)) =~= seq![b0, b1, b2, b3]);
}

/// Four bytes in big-endian order.
#[derive(Debug, Clone, Copy)]
pub struct BigEndian4(pub [u8; 4]);

impl BigEndian4 {
    /// The number that the bytes spell.
    pub open spec fn value(&self) -> u32 {
        be_u32(self.0[0], self.0[1], self.0[2], self.0[3])
    }

    /// The number that the bytes spell.
    pub fn get(&self) -> (value: u32)
        ensures
            value == self.value(),
    {
        self.0[0] as u32 * 0x100_0000 + self.0[1] as u32 * 0x1_0000 + self.0[2] as u32 * 0x100
            + self.0[3] as u32
    }

    /// Reads the four bytes of `data` that start at `at`.
    pub fn read(data: &[u8], at: usize) -> (bytes: Self)
        requires
            at + 4 <= data.len(),
        ensures
            bytes.value() == be_u32_at(data@, at as int),
            bytes.0@ == data@.subrange(at as int, at + 4),
    {
        let bytes = BigEndian4([data[at], data[at + 1], data[at + 2], data[at + 3]]);
        assert(bytes.0@ =~= data@.subrange(at as int, at + 4));
        bytes
    }
}

} // verus!
