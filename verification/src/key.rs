use crate::order::{lemma_lex_concat, lex_lt, lex_lt_at};
use vstd::prelude::*;

verus! {

/// 256 to the power `n`.
pub open spec fn pow256(n: nat) -> int
    decreases n,
{
    if n == 0 {
        1
    } else {
        256 * pow256((n - 1) as nat)
    }
}

/// The `width` big-endian bytes of `u`.
pub open spec fn spec_be(width: nat, u: int) -> Seq<u8>
    decreases width,
{
    if width == 0 {
        Seq::empty()
    } else {
        spec_be((width - 1) as nat, u / 256).push((u % 256) as u8)
    }
}

/// The number that the bytes spell, most significant byte first.
pub open spec fn spec_from_be(s: Seq<u8>) -> int
    decreases s.len(),
{
    if s.len() == 0 {
        0
    } else {
        spec_from_be(s.drop_last()) * 256 + s.last() as int
    }
}

pub proof fn lemma_pow256_grows(a: nat, b: nat)
    requires
        a <= b,
    ensures
        0 < pow256(a) <= pow256(b),
    decreases b,
{
    if b == 0 {
    } else if a == b {
        lemma_pow256_grows((a - 1) as nat, (b - 1) as nat);
    } else {
        lemma_pow256_grows(a, (b - 1) as nat);
    }
}

pub proof fn lemma_pow256_values()
    ensures
        pow256(1) == 0x100,
        pow256(2) == 0x1_0000,
        pow256(4) == 0x1_0000_0000,
        pow256(7) == 0x100_0000_0000_0000,
        pow256(8) == 0x1_0000_0000_0000_0000,
{
    reveal_with_fuel(pow256, 10);
}

pub proof fn lemma_be_len(width: nat, u: int)
    ensures
        spec_be(width, u).len() == width,
    decreases width,
{
    if width > 0 {
        lemma_be_len((width - 1) as nat, u / 256);
    }
}

/// Decoding the big-endian bytes of a number gives the number.
pub proof fn lemma_be_round_trip(width: nat, u: int)
    requires
        0 <= u < pow256(width),
    ensures
        spec_from_be(spec_be(width, u)) == u,
    decreases width,
{
    if width > 0 {
        let s = spec_be(width, u);
        assert(s.drop_last() =~= spec_be((width - 1) as nat, u / 256));
        lemma_be_round_trip((width - 1) as nat, u / 256);
    }
}

/// Big-endian bytes of equal width sort as the numbers do.
pub proof fn lemma_be_order(width: nat, a: int, b: int)
    requires
        0 <= a < pow256(width),
        0 <= b < pow256(width),
    ensures
        lex_lt(spec_be(width, a), spec_be(width, b)) == (a < b),
        (spec_be(width, a) == spec_be(width, b)) == (a == b),
    decreases width,
{
    if width == 0 {
        if lex_lt(spec_be(width, a), spec_be(width, b)) {
            let k = choose|k: int| lex_lt_at(spec_be(width, a), spec_be(width, b), k);
        }
    } else {
        let w = (width - 1) as nat;
        let pa = spec_be(w, a / 256);
        let pb = spec_be(w, b / 256);
        let sa = seq![(a % 256) as u8];
        let sb = seq![(b % 256) as u8];
        lemma_be_order(w, a / 256, b / 256);
        lemma_be_len(w, a / 256);
        lemma_be_len(w, b / 256);
        assert(spec_be(width, a) =~= pa + sa);
        assert(spec_be(width, b) =~= pb + sb);
        lemma_lex_concat(pa, sa, pb, sb);
        assert(lex_lt(sa, sb) == (a % 256 < b % 256)) by {
            if a % 256 < b % 256 {
                assert(lex_lt_at(sa, sb, 0));
            }
            if lex_lt(sa, sb) {
                let k = choose|k: int| lex_lt_at(sa, sb, k);
                assert(k == 0);
            }
        }
        assert((sa == sb) == (a % 256 == b % 256)) by {
            if sa == sb {
                assert(sa[0] == sb[0]);
            }
        }
    }
}

/// Appends the `width` big-endian bytes of `u`.
pub fn push_be(out: &mut Vec<u8>, width: usize, u: u64)
    requires
        width <= 8,
    ensures
        final(out)@ == old(out)@ + spec_be(width as nat, u as int),
    decreases width,
{
    if width > 0 {
        push_be(out, width - 1, u / 256);
        out.push((u % 256) as u8);
        assert(out@ =~= old(out)@ + spec_be(width as nat, u as int));
    } else {
        assert(out@ =~= old(out)@ + spec_be(width as nat, u as int));
    }
}

/// Reads the `width` big-endian bytes that start at `start`.
pub fn read_be(bytes: &[u8], start: usize, width: usize) -> (r: u64)
    requires
        width <= 8,
        start + width <= bytes@.len(),
    ensures
        r == spec_from_be(bytes@.subrange(start as int, start + width)),
        r < pow256(width as nat),
    decreases width,
{
    let total: usize = bytes.len();
    if width == 0 {
        0
    } else {
        let hi = read_be(bytes, start, width - 1);
        let ghost s = bytes@.subrange(start as int, start + width);
        proof {
            assert(s.drop_last() =~= bytes@.subrange(start as int, start + width - 1));
            lemma_pow256_grows((width - 1) as nat, 7);
            lemma_pow256_values();
        }
        hi * 256 + bytes[start + width - 1] as u64
    }
}

/// The value of a signed 64-bit number with its sign bit flipped: the
/// smallest number becomes 0, the largest becomes all ones.
pub open spec fn flip64(v: i64) -> int {
    v as int + 0x8000_0000_0000_0000
}

/// The value of a signed 32-bit number with its sign bit flipped.
pub open spec fn flip32(v: i32) -> int {
    v as int + 0x8000_0000
}

pub fn flipped64(v: i64) -> (r: u64)
    ensures
        r == flip64(v),
{
    if v < 0 {
        (v - i64::MIN) as u64
    } else {
        v as u64 + 0x8000_0000_0000_0000
    }
}

pub fn flipped32(v: i32) -> (r: u32)
    ensures
        r == flip32(v),
{
    if v < 0 {
        (v - i32::MIN) as u32
    } else {
        v as u32 + 0x8000_0000
    }
}

pub fn unflipped64(u: u64) -> (v: i64)
    ensures
        flip64(v) == u,
{
    if u >= 0x8000_0000_0000_0000 {
        (u - 0x8000_0000_0000_0000) as i64
    } else {
        let low: i64 = u as i64;
        low + i64::MIN
    }
}

/// The bytes of the key for `id` under `prefix`: the prefix big-endian,
/// then the id big-endian with its sign bit flipped.
pub open spec fn spec_int_key(prefix: u16, id: i64) -> Seq<u8> {
    spec_be(2, prefix as int) + spec_be(8, flip64(id))
}

/// The two bytes that start every key under `prefix`.
pub open spec fn spec_prefix(prefix: u16) -> Seq<u8> {
    spec_be(2, prefix as int)
}

/// Keys sort by prefix, then by id; equal keys have equal prefix and id.
pub proof fn lemma_int_key_order(p1: u16, id1: i64, p2: u16, id2: i64)
    ensures
        lex_lt(spec_int_key(p1, id1), spec_int_key(p2, id2)) == (p1 < p2 || (p1 == p2 && id1
            < id2)),
        (spec_int_key(p1, id1) == spec_int_key(p2, id2)) == (p1 == p2 && id1 == id2),
        spec_int_key(p1, id1).len() == 10,
{
    lemma_pow256_values();
    lemma_be_order(2, p1 as int, p2 as int);
    lemma_be_order(8, flip64(id1), flip64(id2));
    lemma_be_len(2, p1 as int);
    lemma_be_len(2, p2 as int);
    lemma_be_len(8, flip64(id1));
    lemma_lex_concat(
        spec_be(2, p1 as int),
        spec_be(8, flip64(id1)),
        spec_be(2, p2 as int),
        spec_be(8, flip64(id2)),
    );
}

/// An object id, or a link end, under a 16-bit prefix: the key under which
/// objects and links are stored.
#[derive(Clone, Copy, Debug, PartialEq, Eq, Structural)]
pub struct IntKey {
    pub prefix: u16,
    pub id: i64,
}

pub type IdKey = IntKey;

impl IntKey {
    pub open spec fn spec_bytes(self) -> Seq<u8> {
        spec_int_key(self.prefix, self.id)
    }

    pub fn new(prefix: u16, id: i64) -> (k: IntKey)
        ensures
            k.prefix == prefix,
            k.id == id,
    {
        IntKey { prefix, id }
    }

    pub fn get_prefix(&self) -> (p: u16)
        ensures
            p == self.prefix,
    {
        self.prefix
    }

    pub fn get_id(&self) -> (id: i64)
        ensures
            id == self.id,
    {
        self.id
    }

    pub fn as_bytes(&self) -> (b: Vec<u8>)
        ensures
            b@ == self.spec_bytes(),
    {
        let mut out: Vec<u8> = Vec::new();
        push_be(&mut out, 2, self.prefix as u64);
        push_be(&mut out, 8, flipped64(self.id));
        assert(out@ =~= self.spec_bytes());
        out
    }

    /// The key that the ten bytes spell; `None` for any other length.
    pub fn from_bytes(bytes: &[u8]) -> (r: Option<IntKey>)
        ensures
            r is Some <==> bytes@.len() == 10,
            r matches Some(k) ==> k.spec_bytes() == bytes@,
            forall|k: IntKey| k.spec_bytes() == bytes@ ==> r == Some(k),
    {
        if bytes.len() != 10 {
            proof {
                assert forall|k: IntKey| k.spec_bytes() == bytes@ implies false by {
                    lemma_int_key_order(k.prefix, k.id, k.prefix, k.id);
                }
            }
            return None;
        }
        let p = read_be(bytes, 0, 2);
        let u = read_be(bytes, 2, 8);
        proof {
            lemma_pow256_values();
        }
        let key = IntKey { prefix: p as u16, id: unflipped64(u) };
        proof {
            let head = bytes@.subrange(0, 2);
            let tail = bytes@.subrange(2, 10);
            lemma_from_be_inverse(2, head);
            lemma_from_be_inverse(8, tail);
            assert(bytes@ =~= head + tail);
            assert forall|k: IntKey| k.spec_bytes() == bytes@ implies k == key by {
                lemma_int_key_order(k.prefix, k.id, key.prefix, key.id);
            }
        }
        Some(key)
    }
}

/// Encoding the number that bytes spell gives the bytes.
pub proof fn lemma_from_be_inverse(width: nat, s: Seq<u8>)
    requires
        s.len() == width,
    ensures
        0 <= spec_from_be(s) < pow256(width),
        spec_be(width, spec_from_be(s)) == s,
    decreases width,
{
    if width == 0 {
        assert(s =~= Seq::<u8>::empty());
    } else {
        lemma_from_be_inverse((width - 1) as nat, s.drop_last());
        let hi = spec_from_be(s.drop_last());
        let u = spec_from_be(s);
        assert(u / 256 == hi);
        assert(u % 256 == s.last() as int);
        assert(spec_be(width, u) =~= s);
    }
}

/// A key starts with the two bytes of its own prefix and of no other.
pub proof fn lemma_key_prefix(p: u16, id: i64, q: u16)
    ensures
        crate::order::is_prefix(spec_prefix(q), spec_int_key(p, id)) == (p == q),
{
    let key = spec_int_key(p, id);
    lemma_be_len(2, p as int);
    lemma_be_len(2, q as int);
    lemma_pow256_values();
    lemma_be_order(2, p as int, q as int);
    assert(key.subrange(0, 2) =~= spec_be(2, p as int));
}

/// The key that the bytes spell, where they spell one.
pub open spec fn spec_key_of(bytes: Seq<u8>) -> IntKey {
    choose|k: IntKey| k.spec_bytes() == bytes
}

/// The bytes of a key spell that key and no other.
pub proof fn lemma_key_of(k: IntKey)
    ensures
        spec_key_of(k.spec_bytes()) == k,
{
    let found = spec_key_of(k.spec_bytes());
    assert(found.spec_bytes() == k.spec_bytes());
    lemma_int_key_order(found.prefix, found.id, k.prefix, k.id);
}

} // verus!
