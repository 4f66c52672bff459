use vstd::prelude::*;

verus! {

/// The unsigned 32-bit number stored little-endian at `at`.
pub open spec fn spec_u32_le(s: Seq<u8>, at: int) -> int {
    s[at] as int + s[at + 1] as int * 0x100 + s[at + 2] as int * 0x1_0000 + s[at + 3] as int
        * 0x100_0000
}

/// The unsigned 64-bit number stored little-endian at `at`.
pub open spec fn spec_u64_le(s: Seq<u8>, at: int) -> int {
    spec_u32_le(s, at) + spec_u32_le(s, at + 4) * 0x1_0000_0000
}

/// The two's-complement reading of an unsigned 32-bit number.
pub open spec fn as_signed32(u: int) -> int {
    if u >= 0x8000_0000 {
        u - 0x1_0000_0000
    } else {
        u
    }
}

/// The two's-complement reading of an unsigned 64-bit number.
pub open spec fn as_signed64(u: int) -> int {
    if u >= 0x8000_0000_0000_0000 {
        u - 0x1_0000_0000_0000_0000
    } else {
        u
    }
}

/// The unsigned number that has the same 32 bits as `i`.
pub open spec fn as_unsigned32(i: int) -> int {
    if i < 0 {
        i + 0x1_0000_0000
    } else {
        i
    }
}

/// The unsigned number that has the same 64 bits as `i`.
pub open spec fn as_unsigned64(i: int) -> int {
    if i < 0 {
        i + 0x1_0000_0000_0000_0000
    } else {
        i
    }
}

/// The four little-endian bytes of an unsigned 32-bit number.
pub open spec fn spec_u32_to_le(u: int) -> Seq<u8> {
    seq![
        (u % 0x100) as u8,
        ((u / 0x100) % 0x100) as u8,
        ((u / 0x1_0000) % 0x100) as u8,
        ((u / 0x100_0000) % 0x100) as u8,
    ]
}

/// The eight little-endian bytes of an unsigned 64-bit number.
pub open spec fn spec_u64_to_le(u: int) -> Seq<u8> {
    spec_u32_to_le(u % 0x1_0000_0000) + spec_u32_to_le(u / 0x1_0000_0000)
}

pub fn read_u32_le(object: &[u8], at: usize) -> (r: u32)
    requires
        at + 4 <= object@.len(),
    ensures
        r == spec_u32_le(object@, at as int),
{
    let b0: u32 = object[at] as u32;
    let b1: u32 = object[at + 1] as u32;
    let b2: u32 = object[at + 2] as u32;
    let b3: u32 = object[at + 3] as u32;
    b0 + b1 * 0x100 + b2 * 0x1_0000 + b3 * 0x100_0000
}

pub fn read_u64_le(object: &[u8], at: usize) -> (r: u64)
    requires
        at + 8 <= object@.len(),
    ensures
        r == spec_u64_le(object@, at as int),
{
    let total: usize = object.len();
    let lo: u64 = read_u32_le(object, at) as u64;
    let hi: u64 = read_u32_le(object, at + 4) as u64;
    lo + hi * 0x1_0000_0000
}

pub fn to_signed32(u: u32) -> (r: i32)
    ensures
        r == as_signed32(u as int),
{
    if u >= 0x8000_0000 {
        let low: i32 = (u - 0x8000_0000) as i32;
        low + i32::MIN
    } else {
        u as i32
    }
}

pub fn to_signed64(u: u64) -> (r: i64)
    ensures
        r == as_signed64(u as int),
{
    if u >= 0x8000_0000_0000_0000 {
        let low: i64 = (u - 0x8000_0000_0000_0000) as i64;
        low + i64::MIN
    } else {
        u as i64
    }
}

pub fn to_unsigned32(i: i32) -> (r: u32)
    ensures
        r == as_unsigned32(i as int),
{
    if i < 0 {
        let low: u32 = (i - i32::MIN) as u32;
        low + 0x8000_0000
    } else {
        i as u32
    }
}

pub fn to_unsigned64(i: i64) -> (r: u64)
    ensures
        r == as_unsigned64(i as int),
{
    if i < 0 {
        let low: u64 = (i - i64::MIN) as u64;
        low + 0x8000_0000_0000_0000
    } else {
        i as u64
    }
}

pub fn read_i32_le(object: &[u8], at: usize) -> (r: i32)
    requires
        at + 4 <= object@.len(),
    ensures
        r == as_signed32(spec_u32_le(object@, at as int)),
{
    to_signed32(read_u32_le(object, at))
}

pub fn read_i64_le(object: &[u8], at: usize) -> (r: i64)
    requires
        at + 8 <= object@.len(),
    ensures
        r == as_signed64(spec_u64_le(object@, at as int)),
{
    to_signed64(read_u64_le(object, at))
}

/// Appends the little-endian bytes of `u` to `out`.
pub fn write_u32_le(out: &mut Vec<u8>, u: u32)
    ensures
        final(out)@ == old(out)@ + spec_u32_to_le(u as int),
{
    out.push((u % 0x100) as u8);
    out.push(((u / 0x100) % 0x100) as u8);
    out.push(((u / 0x1_0000) % 0x100) as u8);
    out.push(((u / 0x100_0000) % 0x100) as u8);
    assert(out@ =~= old(out)@ + spec_u32_to_le(u as int));
}

/// Appends the little-endian bytes of `u` to `out`.
pub fn write_u64_le(out: &mut Vec<u8>, u: u64)
    ensures
        final(out)@ == old(out)@ + spec_u64_to_le(u as int),
{
    write_u32_le(out, (u % 0x1_0000_0000) as u32);
    write_u32_le(out, (u / 0x1_0000_0000) as u32);
    assert(out@ =~= old(out)@ + spec_u64_to_le(u as int));
}

/// Reading back what `spec_u32_to_le` wrote gives the number again.
pub proof fn lemma_u32_le_round_trip(s: Seq<u8>, at: int, u: int)
    requires
        0 <= u < 0x1_0000_0000,
        0 <= at,
        at + 4 <= s.len(),
        s.subrange(at, at + 4) == spec_u32_to_le(u),
    ensures
        spec_u32_le(s, at) == u,
{
    let w = spec_u32_to_le(u);
    assert(s[at] == s.subrange(at, at + 4)[0]);
    assert(s[at + 1] == s.subrange(at, at + 4)[1]);
    assert(s[at + 2] == s.subrange(at, at + 4)[2]);
    assert(s[at + 3] == s.subrange(at, at + 4)[3]);
}

/// Reading back what `spec_u64_to_le` wrote gives the number again.
pub proof fn lemma_u64_le_round_trip(s: Seq<u8>, at: int, u: int)
    requires
        0 <= u < 0x1_0000_0000_0000_0000,
        0 <= at,
        at + 8 <= s.len(),
        s.subrange(at, at + 8) == spec_u64_to_le(u),
    ensures
        spec_u64_le(s, at) == u,
{
    let lo = u % 0x1_0000_0000;
    let hi = u / 0x1_0000_0000;
    let w = spec_u64_to_le(u);
    assert(s.subrange(at, at + 4) =~= spec_u32_to_le(lo)) by {
        assert forall|i: int| 0 <= i < 4 implies s.subrange(at, at + 4)[i] == spec_u32_to_le(lo)[i] by {
            assert(s.subrange(at, at + 8)[i] == w[i]);
        }
    }
    assert(s.subrange(at + 4, at + 8) =~= spec_u32_to_le(hi)) by {
        assert forall|i: int| 0 <= i < 4 implies s.subrange(at + 4, at + 8)[i] == spec_u32_to_le(
            hi,
        )[i] by {
            assert(s.subrange(at, at + 8)[i + 4] == w[i + 4]);
        }
    }
    lemma_u32_le_round_trip(s, at, lo);
    lemma_u32_le_round_trip(s, at + 4, hi);
}

} // verus!
