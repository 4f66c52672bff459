use crate::key::{
    flip32, flip64, flipped32, flipped64, lemma_be_len, lemma_be_order, lemma_pow256_values,
    push_be, spec_be,
};
use crate::object::float::{is_nan32, is_nan64, spec_is_nan32, spec_is_nan64, spec_lt32, spec_lt64};
use crate::order::{lemma_lex_concat, lex_lt, lex_lt_at};
use vstd::prelude::*;

verus! {

/// Longest run of string bytes that enters a key.
pub const MAX_STRING_INDEX_SIZE: usize = 1024;

pub open spec fn key_byte(v: u8) -> Seq<u8> {
    seq![v]
}

/// Big-endian with the sign bit flipped.
pub open spec fn key_int(v: i32) -> Seq<u8> {
    spec_be(4, flip32(v))
}

/// Big-endian with the sign bit flipped.
pub open spec fn key_long(v: i64) -> Seq<u8> {
    spec_be(8, flip64(v))
}

/// The number whose order stands for that of the single-precision value:
/// 0 for a NaN; else the bits with the sign bit flipped where it is clear,
/// with every bit flipped where it is set.
pub open spec fn float_rank(bits: u32) -> int {
    if spec_is_nan32(bits) {
        0
    } else if bits < 0x8000_0000 {
        bits + 0x8000_0000
    } else {
        0xffff_ffff - bits
    }
}

/// The number whose order stands for that of the double-precision value.
pub open spec fn double_rank(bits: u64) -> int {
    if spec_is_nan64(bits) {
        0
    } else if bits < 0x8000_0000_0000_0000 {
        bits + 0x8000_0000_0000_0000
    } else {
        0xffff_ffff_ffff_ffff - bits
    }
}

pub open spec fn key_float(bits: u32) -> Seq<u8> {
    spec_be(4, float_rank(bits))
}

pub open spec fn key_double(bits: u64) -> Seq<u8> {
    spec_be(8, double_rank(bits))
}

/// Nothing for a null string; else its first bytes, up to the limit, and
/// a zero byte that ends them.
pub open spec fn key_string(value: Option<Seq<u8>>) -> Seq<u8> {
    match value {
        None => Seq::empty(),
        Some(bytes) => if bytes.len() > MAX_STRING_INDEX_SIZE {
            bytes.subrange(0, MAX_STRING_INDEX_SIZE as int).push(0u8)
        } else {
            bytes.push(0u8)
        },
    }
}

pub open spec fn key_hash(hash: u64) -> Seq<u8> {
    spec_be(8, hash as int)
}

pub fn float_rank_of(bits: u32) -> (r: u32)
    ensures
        r == float_rank(bits),
{
    if is_nan32(bits) {
        0
    } else if bits < 0x8000_0000 {
        bits + 0x8000_0000
    } else {
        0xffff_ffff - bits
    }
}

pub fn double_rank_of(bits: u64) -> (r: u64)
    ensures
        r == double_rank(bits),
{
    if is_nan64(bits) {
        0
    } else if bits < 0x8000_0000_0000_0000 {
        bits + 0x8000_0000_0000_0000
    } else {
        0xffff_ffff_ffff_ffff - bits
    }
}

/// A key of a secondary index: the encodings of its components, one after
/// the other. Keys sort as byte strings.
#[derive(Debug)]
pub struct IndexKey {
    bytes: Vec<u8>,
}

impl View for IndexKey {
    type V = Seq<u8>;

    closed spec fn view(&self) -> Seq<u8> {
        self.bytes@
    }
}

impl IndexKey {
    pub fn new() -> (k: IndexKey)
        ensures
            k@ == Seq::<u8>::empty(),
    {
        IndexKey { bytes: Vec::new() }
    }

    /// The key that holds exactly `bytes`.
    pub fn from_bytes(bytes: Vec<u8>) -> (k: IndexKey)
        ensures
            k@ == bytes@,
    {
        IndexKey { bytes }
    }

    pub fn add_byte(&mut self, value: u8)
        ensures
            final(self)@ == old(self)@ + key_byte(value),
    {
        self.bytes.push(value);
        assert(self@ =~= old(self)@ + key_byte(value));
    }

    pub fn add_int(&mut self, value: i32)
        ensures
            final(self)@ == old(self)@ + key_int(value),
    {
        push_be(&mut self.bytes, 4, flipped32(value) as u64);
    }

    pub fn add_long(&mut self, value: i64)
        ensures
            final(self)@ == old(self)@ + key_long(value),
    {
        push_be(&mut self.bytes, 8, flipped64(value));
    }

    /// Adds a single-precision value, given by its IEEE 754 bit pattern.
    pub fn add_float_bits(&mut self, bits: u32)
        ensures
            final(self)@ == old(self)@ + key_float(bits),
    {
        push_be(&mut self.bytes, 4, float_rank_of(bits) as u64);
    }

    /// Adds a double-precision value, given by its IEEE 754 bit pattern.
    pub fn add_double_bits(&mut self, bits: u64)
        ensures
            final(self)@ == old(self)@ + key_double(bits),
    {
        push_be(&mut self.bytes, 8, double_rank_of(bits));
    }

    /// Adds a string, given by its bytes as they are to be compared.
    pub fn add_string(&mut self, value: Option<&[u8]>)
        ensures
            final(self)@ == old(self)@ + key_string(
                match value {
                    Some(b) => Some(b@),
                    None => None,
                },
            ),
    {
        match value {
            None => {
                assert(self@ =~= old(self)@ + Seq::<u8>::empty());
            },
            Some(bytes) => {
                let n: usize = if bytes.len() > MAX_STRING_INDEX_SIZE {
                    MAX_STRING_INDEX_SIZE
                } else {
                    bytes.len()
                };
                let mut i: usize = 0;
                while i < n
                    invariant
                        i <= n,
                        n <= bytes@.len(),
                        self@ == old(self)@ + bytes@.subrange(0, i as int),
                    decreases n - i,
                {
                    self.bytes.push(bytes[i]);
                    assert(self@ =~= old(self)@ + bytes@.subrange(0, i + 1));
                    i += 1;
                }
                self.bytes.push(0);
                proof {
                    if bytes@.len() <= MAX_STRING_INDEX_SIZE {
                        assert(bytes@.subrange(0, n as int) =~= bytes@);
                    }
                    assert(self@ =~= old(self)@ + key_string(Some(bytes@)));
                }
            },
        }
    }

    pub fn add_hash(&mut self, hash: u64)
        ensures
            final(self)@ == old(self)@ + key_hash(hash),
    {
        push_be(&mut self.bytes, 8, hash);
    }

    /// Adds bytes as they are.
    pub fn add_raw(&mut self, bytes: &[u8])
        ensures
            final(self)@ == old(self)@ + bytes@,
    {
        let mut i: usize = 0;
        while i < bytes.len()
            invariant
                i <= bytes@.len(),
                self@ == old(self)@ + bytes@.subrange(0, i as int),
            decreases bytes@.len() - i,
        {
            self.bytes.push(bytes[i]);
            assert(self@ =~= old(self)@ + bytes@.subrange(0, i + 1));
            i += 1;
        }
        assert(bytes@.subrange(0, i as int) =~= bytes@);
    }

    pub fn as_bytes(&self) -> (b: &[u8])
        ensures
            b@ == self@,
    {
        self.bytes.as_slice()
    }

    pub fn len(&self) -> (n: usize)
        ensures
            n == self@.len(),
    {
        self.bytes.len()
    }

    /// A key that holds the same bytes.
    pub fn copy(&self) -> (k: IndexKey)
        ensures
            k@ == self@,
    {
        IndexKey { bytes: crate::order::copy_bytes(self.bytes.as_slice()) }
    }
}

/// Byte keys sort as the bytes do.
pub proof fn lemma_key_order_byte(a: u8, b: u8)
    ensures
        lex_lt(key_byte(a), key_byte(b)) == (a < b),
{
    if a < b {
        assert(lex_lt_at(key_byte(a), key_byte(b), 0));
    }
    if lex_lt(key_byte(a), key_byte(b)) {
        let k = choose|k: int| lex_lt_at(key_byte(a), key_byte(b), k);
        assert(k == 0);
    }
}

/// Int keys sort as the numbers do; the smallest number, which stands for
/// null, has the key of all zeros.
pub proof fn lemma_key_order_int(a: i32, b: i32)
    ensures
        lex_lt(key_int(a), key_int(b)) == (a < b),
        (key_int(a) == key_int(b)) == (a == b),
        key_int(a).len() == 4,
{
    lemma_pow256_values();
    lemma_be_order(4, flip32(a), flip32(b));
    lemma_be_len(4, flip32(a));
}

/// Long keys sort as the numbers do.
pub proof fn lemma_key_order_long(a: i64, b: i64)
    ensures
        lex_lt(key_long(a), key_long(b)) == (a < b),
        (key_long(a) == key_long(b)) == (a == b),
        key_long(a).len() == 8,
{
    lemma_pow256_values();
    lemma_be_order(8, flip64(a), flip64(b));
    lemma_be_len(8, flip64(a));
}

/// Float keys sort as the numbers do, negative zero before positive zero,
/// and the key of a NaN before the key of every number.
pub proof fn lemma_key_order_float(a: u32, b: u32)
    requires
        !spec_is_nan32(b),
    ensures
        !spec_is_nan32(a) && spec_lt32(a, b) ==> lex_lt(key_float(a), key_float(b)),
        spec_is_nan32(a) ==> lex_lt(key_float(a), key_float(b)),
        a == 0x8000_0000 && b == 0 ==> lex_lt(key_float(a), key_float(b)),
        key_float(a).len() == 4,
{
    lemma_pow256_values();
    lemma_be_order(4, float_rank(a), float_rank(b));
    lemma_be_len(4, float_rank(a));
}

/// Double keys sort as the numbers do, negative zero before positive zero,
/// and the key of a NaN before the key of every number.
pub proof fn lemma_key_order_double(a: u64, b: u64)
    requires
        !spec_is_nan64(b),
    ensures
        !spec_is_nan64(a) && spec_lt64(a, b) ==> lex_lt(key_double(a), key_double(b)),
        spec_is_nan64(a) ==> lex_lt(key_double(a), key_double(b)),
        a == 0x8000_0000_0000_0000 && b == 0 ==> lex_lt(key_double(a), key_double(b)),
        key_double(a).len() == 8,
{
    lemma_pow256_values();
    lemma_be_order(8, double_rank(a), double_rank(b));
    lemma_be_len(8, double_rank(a));
}

/// String keys sort as the strings' bytes do, as long as both strings are
/// within the limit; the key of the null string comes before all others.
pub proof fn lemma_key_order_string(a: Option<Seq<u8>>, b: Seq<u8>)
    requires
        a matches Some(x) ==> x.len() <= MAX_STRING_INDEX_SIZE && lex_lt(x, b),
        b.len() <= MAX_STRING_INDEX_SIZE,
    ensures
        lex_lt(key_string(a), key_string(Some(b))),
{
    let kb = key_string(Some(b));
    match a {
        None => {
            assert(lex_lt_at(key_string(a), kb, 0));
        },
        Some(x) => {
            let ka = key_string(a);
            let k = choose|k: int| lex_lt_at(x, b, k);
            if k == x.len() {
                if b[k] == 0 {
                    assert(lex_lt_at(ka, kb, k + 1));
                } else {
                    assert(lex_lt_at(ka, kb, k));
                }
            } else {
                assert(lex_lt_at(ka, kb, k));
            }
        },
    }
}

} // verus!
