use crate::object::bytes::{spec_u32_to_le, write_u32_le};
use vstd::prelude::*;

verus! {

/// Start value of the hash.
pub const HASH_BASIS: u64 = 0xcbf2_9ce4_8422_2325;

/// Multiplier of the hash.
pub const HASH_PRIME: u64 = 0x0000_0100_0000_01b3;

/// One round of 64-bit FNV-1a: fold the byte in, then multiply, keeping the
/// low 64 bits.
pub open spec fn hash_step(state: u64, byte: u8) -> u64 {
    (((state ^ (byte as u64)) as int * HASH_PRIME as int) % 0x1_0000_0000_0000_0000) as u64
}

/// The state after hashing `bytes`, first to last, starting from `state`.
pub open spec fn hash_from(state: u64, bytes: Seq<u8>) -> u64
    decreases bytes.len(),
{
    if bytes.len() == 0 {
        state
    } else {
        hash_step(hash_from(state, bytes.drop_last()), bytes.last())
    }
}

/// The 64-bit FNV-1a hash of `bytes`. It depends on the bytes alone, so it
/// is the same in every process.
pub open spec fn spec_hash(bytes: Seq<u8>) -> u64 {
    hash_from(HASH_BASIS, bytes)
}

/// Hashing a concatenation is hashing its parts in turn.
pub proof fn lemma_hash_concat(state: u64, a: Seq<u8>, b: Seq<u8>)
    ensures
        hash_from(state, a + b) == hash_from(hash_from(state, a), b),
    decreases b.len(),
{
    if b.len() == 0 {
        assert(a + b =~= a);
    } else {
        assert((a + b).drop_last() =~= a + b.drop_last());
        assert((a + b).last() == b.last());
        lemma_hash_concat(state, a, b.drop_last());
    }
}

/// A running 64-bit FNV-1a hash.
pub struct Hasher64 {
    state: u64,
}

impl Hasher64 {
    /// The hash of everything written so far.
    pub closed spec fn value(&self) -> u64 {
        self.state
    }

    pub fn new() -> (h: Hasher64)
        ensures
            h.value() == HASH_BASIS,
    {
        Hasher64 { state: HASH_BASIS }
    }

    pub fn write_byte(&mut self, byte: u8)
        ensures
            final(self).value() == hash_step(old(self).value(), byte),
    {
        let mixed: u128 = (self.state ^ (byte as u64)) as u128;
        let product: u128 = mixed * (HASH_PRIME as u128);
        self.state = (product % 0x1_0000_0000_0000_0000u128) as u64;
    }

    pub fn write(&mut self, bytes: &[u8])
        ensures
            final(self).value() == hash_from(old(self).value(), bytes@),
    {
        let mut i: usize = 0;
        while i < bytes.len()
            invariant
                i <= bytes@.len(),
                self.value() == hash_from(old(self).value(), bytes@.subrange(0, i as int)),
            decreases bytes@.len() - i,
        {
            self.write_byte(bytes[i]);
            assert(bytes@.subrange(0, i + 1).drop_last() =~= bytes@.subrange(0, i as int));
            i += 1;
        }
        assert(bytes@.subrange(0, i as int) =~= bytes@);
    }

    /// Writes the four little-endian bytes of `v`.
    pub fn write_u32(&mut self, v: u32)
        ensures
            final(self).value() == hash_from(old(self).value(), spec_u32_to_le(v as int)),
    {
        let mut buffer: Vec<u8> = Vec::new();
        write_u32_le(&mut buffer, v);
        assert(buffer@ =~= spec_u32_to_le(v as int));
        self.write(buffer.as_slice());
    }

    pub fn finish(&self) -> (h: u64)
        ensures
            h == self.value(),
    {
        self.state
    }
}

/// The 64-bit hash of `bytes`.
pub fn hash_bytes(bytes: &[u8]) -> (h: u64)
    ensures
        h == spec_hash(bytes@),
{
    let mut hasher = Hasher64::new();
    hasher.write(bytes);
    hasher.finish()
}

} // verus!
