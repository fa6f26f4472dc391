//! CRC-32 (ISO-HDLC), the checksum that guards every PNG chunk.

use vstd::prelude::*;

verus! {

/// The generator polynomial in bit-reversed form.
pub const POLYNOMIAL: u32 = 0xedb8_8320;

/// Value of the register before any byte has been absorbed; also the mask
/// applied to the register to obtain the checksum.
pub const ALL_ONES: u32 = 0xffff_ffff;

/// One division step: shift right, and fold the polynomial in when the bit
/// shifted out was set.
pub open spec fn crc_round(c: u32) -> u32 {
    if c & 1 == 1 {
        POLYNOMIAL ^ (c >> 1)
    } else {
        c >> 1
    }
}

/// `n` division steps in a row.
pub open spec fn crc_rounds(c: u32, n: nat) -> u32
    decreases n,
{
    if n == 0 {
        c
    } else {
        crc_round(crc_rounds(c, (n - 1) as nat))
    }
}

/// The register after one more message byte: the byte is XORed into the low
/// byte of the register, followed by eight division steps.
pub open spec fn crc_absorb(register: u32, byte: u8) -> u32 {
    crc_rounds(register ^ (byte as u32), 8)
}

/// The register after a run of message bytes, taken in order.
pub open spec fn crc_fold(register: u32, bytes: Seq<u8>) -> u32
    decreases bytes.len(),
{
    if bytes.len() == 0 {
        register
    } else {
        crc_absorb(crc_fold(register, bytes.drop_last()), bytes.last())
    }
}

/// The CRC-32 of a whole message.
pub open spec fn crc32(bytes: Seq<u8>) -> u32 {
    crc_fold(ALL_ONES, bytes) ^ ALL_ONES
}

/// Entry `index` of the byte-at-a-time lookup table.
pub open spec fn crc_table_entry(index: u8) -> u32 {
    crc_rounds(index as u32, 8)
}

/// Eight division steps written out, the form the bit-vector solver takes.
spec fn rounds8(c: u32) -> u32 {
    crc_round(crc_round(crc_round(crc_round(crc_round(crc_round(crc_round(crc_round(c))))))))
}

proof fn lemma_rounds8(c: u32)
    ensures
        crc_rounds(c, 8) == rounds8(c),
{
    reveal_with_fuel(crc_rounds, 9);
}

/// The table-driven step agrees with the eight division steps: the high 24
/// bits of the register only move down, the low byte selects the table entry.
pub proof fn law_table_driven_step(register: u32, byte: u8)
    ensures
        crc_absorb(register, byte) == crc_table_entry((register as u8) ^ byte) ^ (register >> 8),
{
    let index: u8 = (register as u8) ^ byte;
    lemma_rounds8(register ^ (byte as u32));
    lemma_rounds8(index as u32);
    assert(rounds8(register ^ (byte as u32)) == rounds8(((register as u8) ^ byte) as u32) ^ (register
        >> 8)) by (bit_vector);
}

/// Bit `index` of a byte, counted from the least significant bit.
pub open spec fn bit_of(byte: u8, index: u8) -> bool {
    (byte >> index) & 1 == 1
}

/// The register after one more message bit: the bit is XORed into the
/// lowest bit of the register, followed by one division step.
pub open spec fn crc_absorb_bit(register: u32, bit: bool) -> u32 {
    crc_round(
        register ^ (if bit {
            1u32
        } else {
            0u32
        }),
    )
}

/// The register after the eight bits of a byte, taken one at a time from
/// the least significant to the most significant.
pub open spec fn crc_absorb_bitwise(register: u32, byte: u8) -> u32 {
    let r0 = crc_absorb_bit(register, bit_of(byte, 0));
    let r1 = crc_absorb_bit(r0, bit_of(byte, 1));
    let r2 = crc_absorb_bit(r1, bit_of(byte, 2));
    let r3 = crc_absorb_bit(r2, bit_of(byte, 3));
    let r4 = crc_absorb_bit(r3, bit_of(byte, 4));
    let r5 = crc_absorb_bit(r4, bit_of(byte, 5));
    let r6 = crc_absorb_bit(r5, bit_of(byte, 6));
    crc_absorb_bit(r6, bit_of(byte, 7))
}

/// Absorbing a byte at once is absorbing its bits one by one: the checksum
/// is that of the bit-serial shift register that defines CRC-32.
pub proof fn law_absorb_is_bit_serial(register: u32, byte: u8)
    ensures
        crc_absorb(register, byte) == crc_absorb_bitwise(register, byte),
{
    lemma_rounds8(register ^ (byte as u32));
    assert(rounds8(register ^ (byte as u32)) == crc_absorb_bitwise(register, byte))
        by (bit_vector);
}

/// A division step loses nothing: two registers that agree after it agreed
/// before it.
proof fn lemma_round_injective(x: u32, y: u32)
    requires
        crc_round(x) == crc_round(y),
    ensures
        x == y,
{
    assert(crc_round(x) == crc_round(y) ==> x == y) by (bit_vector);
}

/// Absorbing a byte is one-to-one in the XOR of register and byte.
proof fn lemma_absorb_injective(r1: u32, b1: u8, r2: u32, b2: u8)
    requires
        crc_absorb(r1, b1) == crc_absorb(r2, b2),
    ensures
        r1 ^ (b1 as u32) == r2 ^ (b2 as u32),
{
    let x = r1 ^ (b1 as u32);
    let y = r2 ^ (b2 as u32);
    reveal_with_fuel(crc_rounds, 9);
    lemma_round_injective(crc_rounds(x, 7), crc_rounds(y, 7));
    lemma_round_injective(crc_rounds(x, 6), crc_rounds(y, 6));
    lemma_round_injective(crc_rounds(x, 5), crc_rounds(y, 5));
    lemma_round_injective(crc_rounds(x, 4), crc_rounds(y, 4));
    lemma_round_injective(crc_rounds(x, 3), crc_rounds(y, 3));
    lemma_round_injective(crc_rounds(x, 2), crc_rounds(y, 2));
    lemma_round_injective(crc_rounds(x, 1), crc_rounds(y, 1));
    lemma_round_injective(crc_rounds(x, 0), crc_rounds(y, 0));
}

/// Two runs of equal length that differ in exactly one byte leave different
/// registers behind, whatever the register they started from.
proof fn lemma_fold_single_byte(register: u32, a: Seq<u8>, b: Seq<u8>, k: int)
    requires
        a.len() == b.len(),
        0 <= k < a.len(),
        a[k] != b[k],
        forall|i: int| 0 <= i < a.len() && i != k ==> a[i] == b[i],
    ensures
        crc_fold(register, a) != crc_fold(register, b),
    decreases a.len(),
{
    let last = a.len() - 1;
    let ra = crc_fold(register, a.drop_last());
    let rb = crc_fold(register, b.drop_last());
    if crc_fold(register, a) == crc_fold(register, b) {
        lemma_absorb_injective(ra, a.last(), rb, b.last());
        if k == last {
            assert(a.drop_last() =~= b.drop_last());
            let (x, y) = (a.last(), b.last());
            assert(ra ^ (x as u32) == ra ^ (y as u32) ==> x == y) by (bit_vector);
        } else {
            lemma_fold_single_byte(register, a.drop_last(), b.drop_last(), k);
            let x = a.last();
            assert(ra ^ (x as u32) == rb ^ (x as u32) ==> ra == rb) by (bit_vector);
        }
    }
}

/// Absorbing a message piece by piece gives the register that absorbing it
/// in one go gives.
pub proof fn law_fold_concat(register: u32, head: Seq<u8>, tail: Seq<u8>)
    ensures
        crc_fold(crc_fold(register, head), tail) == crc_fold(register, head + tail),
    decreases tail.len(),
{
    if tail.len() == 0 {
        assert(head + tail =~= head);
    } else {
        law_fold_concat(register, head, tail.drop_last());
        assert((head + tail).drop_last() =~= head + tail.drop_last());
    }
}

/// The checksum of the empty message is zero.
pub proof fn law_crc32_empty()
    ensures
        crc32(Seq::<u8>::empty()) == 0,
{
    assert(ALL_ONES ^ ALL_ONES == 0) by (bit_vector);
}

/// Every change that is confined to one byte of a message, a single flipped
/// bit among them, changes the checksum of the message.
pub proof fn law_single_byte_change_detected(a: Seq<u8>, b: Seq<u8>, k: int)
    requires
        a.len() == b.len(),
        0 <= k < a.len(),
        a[k] != b[k],
        forall|i: int| 0 <= i < a.len() && i != k ==> a[i] == b[i],
    ensures
        crc32(a) != crc32(b),
{
    lemma_fold_single_byte(ALL_ONES, a, b, k);
    let (x, y) = (crc_fold(ALL_ONES, a), crc_fold(ALL_ONES, b));
    assert(x ^ 0xffff_ffffu32 == y ^ 0xffff_ffffu32 ==> x == y) by (bit_vector);
}

/// A running CRC-32 computation.
pub struct CrcCalculator {
    crc: u32,
}

impl CrcCalculator {
    /// The current content of the shift register.
    pub closed spec fn register(&self) -> u32 {
        self.crc
    }

    /// A calculator that has absorbed nothing yet.
    pub fn new() -> (calc: Self)
        ensures
            calc.register() == ALL_ONES,
    {
        Self { crc: 0xffff_ffff }
    }

    /// The checksum of everything absorbed so far.
    pub fn get_crc(self) -> (sum: u32)
        ensures
            sum == self.register() ^ ALL_ONES,
    {
        self.crc ^ 0xffff_ffff
    }

    /// Absorbs `data`, byte by byte, in order.
    pub fn update(&mut self, data: &[u8])
        ensures
            final(self).register() == crc_fold(old(self).register(), data@),
    {
        let mut i: usize = 0;
        while i < data.len()
            invariant
                i <= data.len(),
                self.register() == crc_fold(old(self).register(), data@.take(i as int)),
            decreases data.len() - i,
        {
            proof {
                assert(data@.take(i + 1).drop_last() =~= data@.take(i as int));
            }
            self.update_byte(data[i]);
            i += 1;
        }
        proof {
            assert(data@.take(i as int) =~= data@);
        }
    }

    /// Absorbs one byte through the lookup table.
    pub fn update_byte(&mut self, data: u8)
        ensures
            final(self).register() == crc_absorb(old(self).register(), data),
    {
        proof {
            law_table_driven_step(self.crc, data);
        }
        self.crc = Self::lookup((self.crc as u8) ^ data) ^ (self.crc >> 8);
    }

    /// Computes one entry of the lookup table.
    pub fn lookup(data: u8) -> (entry: u32)
        ensures
            entry == crc_table_entry(data),
    {
        let mut c: u32 = data as u32;
        let mut round: u8 = 0;
        while round < 8
            invariant
                round <= 8,
                c == crc_rounds(data as u32, round as nat),
            decreases 8 - round,
        {
            if (c & 1) > 0 {
                assert((c & 1) > 0 ==> c & 1 == 1) by (bit_vector);
                c = 0xedb8_8320 ^ (c >> 1);
            } else {
                assert(!((c & 1) > 0) ==> c & 1 != 1) by (bit_vector);
                c = c >> 1;
            }
            round += 1;
        }
        c
    }
}

/// A calculator that was new when it took in a message yields the CRC-32 of
/// the message.
pub proof fn law_calculator_yields_crc32(fresh: CrcCalculator, fed: CrcCalculator, bytes: Seq<u8>)
    requires
        fresh.register() == ALL_ONES,
        fed.register() == crc_fold(fresh.register(), bytes),
    ensures
        fed.register() ^ ALL_ONES == crc32(bytes),
{
}

} // verus!
