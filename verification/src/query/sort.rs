use crate::hash::{hash_from, Hasher64, HASH_BASIS};
use crate::object::bytes::{as_signed64, to_signed64};
use crate::object::data_type::DataType;
use crate::query::id_where_clause::{id_of, ids_of};
use crate::query::result_ids::ResultIds;
use crate::object::property::{
    spec_compare_double, spec_compare_float, spec_compare_optional_bytes, Property,
};
use crate::order::{lemma_lex_asymmetric, lemma_lex_total, lemma_lex_transitive, lex_lt};
use crate::store::{pairs_of, Entry, Pair};
use vstd::prelude::*;

verus! {

/// One key of a sort: the property to sort by, and the direction.
#[derive(Clone, Copy, Debug)]
pub struct SortKey {
    pub property: Property,
    pub ascending: bool,
}

impl SortKey {
    /// Whether the objects can be compared by this key.
    pub open spec fn fits(&self, object: Seq<u8>) -> bool {
        &&& self.property.data_type.spec_is_static() || self.property.data_type == DataType::String
        &&& self.property.fits(object)
        &&& self.property.data_type == DataType::String ==> self.property.payload_in_bounds(object)
    }

    /// -1, 0 or 1 as `a` comes before, with or after `b` by this key.
    pub open spec fn order(&self, a: Seq<u8>, b: Seq<u8>) -> int {
        if self.ascending {
            self.property.spec_compare(a, b)
        } else {
            self.property.spec_compare(b, a)
        }
    }
}

/// Whether every object can be compared by every key.
pub open spec fn keys_fit(keys: Seq<SortKey>, object: Seq<u8>) -> bool {
    forall|i: int| 0 <= i < keys.len() ==> (#[trigger] keys[i]).fits(object)
}

/// The order of two objects by the keys from `from` on: that of the
/// first key by which they differ; 0 where they differ by none.
pub open spec fn sort_order(keys: Seq<SortKey>, a: Seq<u8>, b: Seq<u8>, from: int) -> int
    decreases keys.len() - from,
{
    if from < 0 || from >= keys.len() {
        0
    } else {
        let c = keys[from].order(a, b);
        if c != 0 {
            c
        } else {
            sort_order(keys, a, b, from + 1)
        }
    }
}

/// Whether no pair comes before an earlier one.
pub open spec fn sorted_by(keys: Seq<SortKey>, s: Seq<Pair>) -> bool {
    forall|i: int, j: int|
        0 <= i < j < s.len() ==> sort_order(keys, (#[trigger] s[i]).1, (#[trigger] s[j]).1, 0) <= 0
}

pub proof fn lemma_float_order(a: u32, b: u32, c: u32)
    ensures
        spec_compare_float(a, b) == -spec_compare_float(b, a),
        spec_compare_float(a, b) <= 0 && spec_compare_float(b, c) <= 0 ==> spec_compare_float(a, c)
            <= 0 && (spec_compare_float(a, c) == 0 ==> spec_compare_float(a, b) == 0
            && spec_compare_float(b, c) == 0),
{
}

pub proof fn lemma_double_order(a: u64, b: u64, c: u64)
    ensures
        spec_compare_double(a, b) == -spec_compare_double(b, a),
        spec_compare_double(a, b) <= 0 && spec_compare_double(b, c) <= 0 ==> spec_compare_double(
            a,
            c,
        ) <= 0 && (spec_compare_double(a, c) == 0 ==> spec_compare_double(a, b) == 0
            && spec_compare_double(b, c) == 0),
{
}

pub proof fn lemma_bytes_order(a: Option<Seq<u8>>, b: Option<Seq<u8>>, c: Option<Seq<u8>>)
    ensures
        spec_compare_optional_bytes(a, b) == -spec_compare_optional_bytes(b, a),
        spec_compare_optional_bytes(a, b) <= 0 && spec_compare_optional_bytes(b, c) <= 0
            ==> spec_compare_optional_bytes(a, c) <= 0 && (spec_compare_optional_bytes(a, c) == 0
            ==> spec_compare_optional_bytes(a, b) == 0 && spec_compare_optional_bytes(b, c) == 0),
{
    match (a, b, c) {
        (Some(x), Some(y), Some(z)) => {
            lemma_lex_total(x, y);
            lemma_lex_total(y, z);
            lemma_lex_total(x, z);
            if lex_lt(x, y) {
                lemma_lex_asymmetric(x, y);
            }
            if lex_lt(y, x) {
                lemma_lex_asymmetric(y, x);
            }
            if lex_lt(y, z) {
                lemma_lex_asymmetric(y, z);
            }
            if lex_lt(z, y) {
                lemma_lex_asymmetric(z, y);
            }
            if lex_lt(x, z) {
                lemma_lex_asymmetric(x, z);
            }
            if lex_lt(z, x) {
                lemma_lex_asymmetric(z, x);
                if lex_lt(x, y) {
                    lemma_lex_transitive(z, x, y);
                    lemma_lex_asymmetric(z, y);
                }
                if lex_lt(y, z) {
                    lemma_lex_transitive(y, z, x);
                    lemma_lex_asymmetric(y, x);
                }
            }
        },
        (Some(x), Some(y), None) => {
            lemma_lex_total(x, y);
            if lex_lt(x, y) {
                lemma_lex_asymmetric(x, y);
            }
            if lex_lt(y, x) {
                lemma_lex_asymmetric(y, x);
            }
        },
        _ => {},
    }
}

/// The order of values by one property turns round with its operands and
/// carries over from pair to pair.
pub proof fn lemma_compare_order(p: Property, a: Seq<u8>, b: Seq<u8>, c: Seq<u8>)
    ensures
        p.spec_compare(a, b) == -p.spec_compare(b, a),
        p.spec_compare(a, b) <= 0 && p.spec_compare(b, c) <= 0 ==> p.spec_compare(a, c) <= 0 && (
        p.spec_compare(a, c) == 0 ==> p.spec_compare(a, b) == 0 && p.spec_compare(b, c) == 0),
{
    match p.data_type {
        DataType::Byte | DataType::Int | DataType::Long => {},
        DataType::Float => {
            lemma_float_order(p.spec_float_bits(a), p.spec_float_bits(b), p.spec_float_bits(c));
        },
        DataType::Double => {
            lemma_double_order(p.spec_double_bits(a), p.spec_double_bits(b), p.spec_double_bits(c));
        },
        _ => {
            lemma_bytes_order(p.spec_bytes(a), p.spec_bytes(b), p.spec_bytes(c));
        },
    }
}

/// The order by the keys turns round with its operands and carries over
/// from pair to pair.
pub proof fn lemma_sort_order(keys: Seq<SortKey>, a: Seq<u8>, b: Seq<u8>, c: Seq<u8>, from: int)
    requires
        0 <= from,
    ensures
        sort_order(keys, a, b, from) == -sort_order(keys, b, a, from),
        sort_order(keys, a, b, from) <= 0 && sort_order(keys, b, c, from) <= 0 ==> sort_order(
            keys,
            a,
            c,
            from,
        ) <= 0 && (sort_order(keys, a, c, from) == 0 ==> sort_order(keys, a, b, from) == 0
            && sort_order(keys, b, c, from) == 0),
        sort_order(keys, a, b, from) < 0 && sort_order(keys, b, c, from) <= 0 ==> sort_order(
            keys,
            a,
            c,
            from,
        ) < 0,
    decreases keys.len() - from,
{
    if from < keys.len() {
        let k = keys[from];
        if k.ascending {
            lemma_compare_order(k.property, a, b, c);
            lemma_compare_order(k.property, b, c, a);
            lemma_compare_order(k.property, a, c, b);
        } else {
            lemma_compare_order(k.property, c, b, a);
            lemma_compare_order(k.property, b, a, c);
            lemma_compare_order(k.property, c, a, b);
        }
        lemma_sort_order(keys, a, b, c, from + 1);
    }
}

/// The order of two objects by the keys.
pub fn compare_by(keys: &Vec<SortKey>, a: &[u8], b: &[u8]) -> (r: i8)
    requires
        keys_fit(keys@, a@),
        keys_fit(keys@, b@),
    ensures
        r == sort_order(keys@, a@, b@, 0),
{
    let mut i: usize = keys.len();
    let mut result: i8 = 0;
    while i > 0
        invariant
            i <= keys.len(),
            keys_fit(keys@, a@),
            keys_fit(keys@, b@),
            result == sort_order(keys@, a@, b@, i as int),
        decreases i,
    {
        i -= 1;
        let key = keys[i];
        assert(key.fits(a@) && key.fits(b@));
        let c = if key.ascending {
            key.property.compare_values(a, b)
        } else {
            key.property.compare_values(b, a)
        };
        if c != 0 {
            result = c;
        }
    }
    result
}

/// The place of `e` among the sorted pairs `s`, looked for from `p` on:
/// before the first pair that comes after `e`, or at the end.
pub open spec fn place_from(keys: Seq<SortKey>, s: Seq<Pair>, e: Pair, p: int) -> int
    decreases s.len() - p,
{
    if p < 0 || p >= s.len() {
        s.len() as int
    } else if sort_order(keys, e.1, s[p].1, 0) < 0 {
        p
    } else {
        place_from(keys, s, e, p + 1)
    }
}

/// The pairs in the order of the keys; pairs that the keys do not tell
/// apart keep their order.
pub open spec fn sorted_seq(keys: Seq<SortKey>, s: Seq<Pair>) -> Seq<Pair>
    decreases s.len(),
{
    if s.len() == 0 {
        Seq::empty()
    } else {
        let t = sorted_seq(keys, s.drop_last());
        t.insert(place_from(keys, t, s.last(), 0), s.last())
    }
}

/// Where `place_from` puts a pair, everything before it comes no later
/// and the pair at the place comes later.
pub proof fn lemma_place(keys: Seq<SortKey>, s: Seq<Pair>, e: Pair, p: int)
    requires
        0 <= p <= s.len(),
    ensures
        p <= place_from(keys, s, e, p) <= s.len(),
        forall|k: int|
            p <= k < place_from(keys, s, e, p) ==> sort_order(keys, (#[trigger] s[k]).1, e.1, 0) <= 0,
        place_from(keys, s, e, p) < s.len() ==> sort_order(
            keys,
            e.1,
            s[place_from(keys, s, e, p)].1,
            0,
        ) < 0,
    decreases s.len() - p,
{
    if p < s.len() {
        if sort_order(keys, e.1, s[p].1, 0) < 0 {
        } else {
            lemma_place(keys, s, e, p + 1);
            lemma_sort_order(keys, e.1, s[p].1, e.1, 0);
        }
    }
}

/// Sorting puts the pairs in order.
pub proof fn lemma_sorted_seq(keys: Seq<SortKey>, s: Seq<Pair>)
    ensures
        sorted_by(keys, sorted_seq(keys, s)),
        sorted_seq(keys, s).len() == s.len(),
    decreases s.len(),
{
    let out = sorted_seq(keys, s);
    if s.len() > 0 {
        let head = s.drop_last();
        let e = s.last();
        let t = sorted_seq(keys, head);
        lemma_sorted_seq(keys, head);
        lemma_place(keys, t, e, 0);
        let p = place_from(keys, t, e, 0);
        assert forall|x: int, y: int| 0 <= x < y < out.len() implies sort_order(
            keys,
            (#[trigger] out[x]).1,
            (#[trigger] out[y]).1,
            0,
        ) <= 0 by {
            let x0 = if x < p {
                x
            } else {
                x - 1
            };
            let y0 = if y < p {
                y
            } else {
                y - 1
            };
            if x == p {
                if y0 > p {
                    assert(sort_order(keys, t[p].1, t[y0].1, 0) <= 0);
                    lemma_sort_order(keys, e.1, t[p].1, t[y0].1, 0);
                }
            } else if y == p {
            } else {
                assert(sort_order(keys, t[x0].1, t[y0].1, 0) <= 0);
            }
        }
    }
}

/// Sorting keeps every pair, as often as it was there.
pub proof fn lemma_sorted_same_bag(keys: Seq<SortKey>, s: Seq<Pair>)
    ensures
        sorted_seq(keys, s).to_multiset() == s.to_multiset(),
    decreases s.len(),
{
    if s.len() == 0 {
        assert(sorted_seq(keys, s) =~= s);
    } else {
        let head = s.drop_last();
        let e = s.last();
        let t = sorted_seq(keys, head);
        lemma_sorted_same_bag(keys, head);
        lemma_sorted_seq(keys, head);
        lemma_place(keys, t, e, 0);
        let p = place_from(keys, t, e, 0);
        vstd::seq_lib::to_multiset_insert(t, p, e);
        assert(s =~= head.push(e));
        vstd::seq_lib::to_multiset_build(head, e);
    }
}

/// Sorting keeps the pairs that were there, and no others.
pub proof fn lemma_sorted_same_pairs(keys: Seq<SortKey>, s: Seq<Pair>)
    ensures
        forall|e: Pair| #[trigger] sorted_seq(keys, s).contains(e) <==> s.contains(e),
    decreases s.len(),
{
    let out = sorted_seq(keys, s);
    if s.len() == 0 {
        assert(out =~= s);
    } else {
        let head = s.drop_last();
        let e = s.last();
        let t = sorted_seq(keys, head);
        lemma_sorted_same_pairs(keys, head);
        lemma_sorted_seq(keys, head);
        lemma_place(keys, t, e, 0);
        let p = place_from(keys, t, e, 0);
        assert(s =~= head.push(e));
        assert forall|x: Pair| #[trigger] out.contains(x) <==> s.contains(x) by {
            crate::order::lemma_insert_contains(t, p, e, x);
            crate::order::lemma_push_contains(head, e, x);
            assert(t.contains(x) <==> head.contains(x));
        }
    }
}

/// Sorting keeps ids apart that were apart.
pub proof fn lemma_sorted_distinct(keys: Seq<SortKey>, s: Seq<Pair>)
    requires
        crate::query::query::distinct_ids(s),
    ensures
        crate::query::query::distinct_ids(sorted_seq(keys, s)),
    decreases s.len(),
{
    let out = sorted_seq(keys, s);
    if s.len() > 0 {
        let head = s.drop_last();
        let e = s.last();
        let t = sorted_seq(keys, head);
        assert(crate::query::query::distinct_ids(head)) by {
            assert forall|i: int, j: int| 0 <= i < j < head.len() implies id_of(
                #[trigger] head[i],
            ) != id_of(#[trigger] head[j]) by {
                assert(head[i] == s[i] && head[j] == s[j]);
            }
        }
        lemma_sorted_distinct(keys, head);
        lemma_sorted_same_pairs(keys, head);
        lemma_sorted_seq(keys, head);
        lemma_place(keys, t, e, 0);
        let p = place_from(keys, t, e, 0);
        assert forall|x: int, y: int| 0 <= x < y < out.len() implies id_of(#[trigger] out[x])
            != id_of(#[trigger] out[y]) by {
            let x0 = if x < p {
                x
            } else {
                x - 1
            };
            let y0 = if y < p {
                y
            } else {
                y - 1
            };
            if x == p || y == p {
                let other = if x == p {
                    t[y0]
                } else {
                    t[x0]
                };
                assert(t.contains(other));
                assert(head.contains(other));
                let w = choose|w: int| 0 <= w < head.len() && head[w] == other;
                assert(s[w] == other);
                assert(id_of(s[w]) != id_of(s[s.len() - 1]));
            } else {
                assert(out[x] == t[x0] && out[y] == t[y0]);
            }
        }
    }
}

/// The hash that tells objects apart for `distinct`: that of the values
/// of the first `n` properties, one after the other.
pub open spec fn values_hash(properties: Seq<Property>, object: Seq<u8>, n: int) -> u64
    decreases n,
{
    if n <= 0 {
        HASH_BASIS
    } else {
        hash_from(
            values_hash(properties, object, n - 1),
            properties[n - 1].spec_hash_input(object),
        )
    }
}

/// The mark by which `distinct` knows an object.
pub open spec fn mark_of(properties: Seq<Property>, e: Pair) -> i64 {
    as_signed64(values_hash(properties, e.1, properties.len() as int) as int) as i64
}

/// Whether the mark of one of the pairs is `mark`.
pub open spec fn marked(properties: Seq<Property>, s: Seq<Pair>, mark: i64) -> bool {
    exists|i: int| 0 <= i < s.len() && mark_of(properties, #[trigger] s[i]) == mark
}

/// Of the pairs, the first of every mark, in their order; all of them
/// where there is no property to tell them apart by.
pub open spec fn distinct_seq(properties: Seq<Property>, s: Seq<Pair>) -> Seq<Pair>
    decreases s.len(),
{
    if properties.len() == 0 || s.len() == 0 {
        s
    } else if marked(properties, s.drop_last(), mark_of(properties, s.last())) {
        distinct_seq(properties, s.drop_last())
    } else {
        distinct_seq(properties, s.drop_last()).push(s.last())
    }
}

/// What `distinct` keeps are pairs of the sequence, and ids that were
/// apart stay apart.
pub proof fn lemma_distinct_seq(properties: Seq<Property>, s: Seq<Pair>)
    ensures
        forall|e: Pair| #[trigger] distinct_seq(properties, s).contains(e) ==> s.contains(e),
        crate::query::query::distinct_ids(s) ==> crate::query::query::distinct_ids(
            distinct_seq(properties, s),
        ),
    decreases s.len(),
{
    let out = distinct_seq(properties, s);
    if properties.len() > 0 && s.len() > 0 {
        let head = s.drop_last();
        let rest = distinct_seq(properties, head);
        lemma_distinct_seq(properties, head);
        assert forall|e: Pair| #[trigger] out.contains(e) implies s.contains(e) by {
            let i = choose|i: int| 0 <= i < out.len() && out[i] == e;
            if i < rest.len() {
                assert(rest[i] == e);
                assert(rest.contains(e));
                let j = choose|j: int| 0 <= j < head.len() && head[j] == e;
                assert(s[j] == e);
            } else {
                assert(s[s.len() - 1] == e);
            }
        }
        if crate::query::query::distinct_ids(s) {
            assert(crate::query::query::distinct_ids(head)) by {
                assert forall|i: int, j: int| 0 <= i < j < head.len() implies id_of(
                    #[trigger] head[i],
                ) != id_of(#[trigger] head[j]) by {
                    assert(head[i] == s[i] && head[j] == s[j]);
                }
            }
            assert forall|i: int, j: int| 0 <= i < j < out.len() implies id_of(#[trigger] out[i])
                != id_of(#[trigger] out[j]) by {
                if j < rest.len() {
                    assert(out[i] == rest[i] && out[j] == rest[j]);
                } else {
                    assert(out[i] == rest[i]);
                    assert(rest.contains(rest[i]));
                    let k = choose|k: int| 0 <= k < head.len() && head[k] == rest[i];
                    assert(s[k] == head[k]);
                    assert(out[j] == s[s.len() - 1]);
                }
            }
        }
    }
}

/// The mark by which `distinct` knows the object.
pub fn mark_object(properties: &Vec<Property>, object: &[u8]) -> (r: i64)
    requires
        forall|i: int| 0 <= i < properties@.len() ==> (#[trigger] properties@[i]).readable(object@),
    ensures
        r == as_signed64(values_hash(properties@, object@, properties@.len() as int) as int),
{
    let mut hasher = Hasher64::new();
    let mut i: usize = 0;
    while i < properties.len()
        invariant
            i <= properties.len(),
            forall|k: int| 0 <= k < properties@.len() ==> (#[trigger] properties@[k]).readable(object@),
            hasher.value() == values_hash(properties@, object@, i as int),
        decreases properties.len() - i,
    {
        properties[i].hash_value(object, &mut hasher);
        i += 1;
    }
    to_signed64(hasher.finish())
}

/// Of the entries, the first of every mark.
pub fn distinct_entries(entries: Vec<Entry>, properties: &Vec<Property>) -> (r: Vec<Entry>)
    requires
        forall|i: int, j: int|
            0 <= i < entries@.len() && 0 <= j < properties@.len() ==> (
            #[trigger] properties@[j]).readable((#[trigger] entries@[i]).val@),
    ensures
        pairs_of(r@) == distinct_seq(properties@, pairs_of(entries@)),
{
    if properties.len() == 0 {
        return entries;
    }
    let ghost all = pairs_of(entries@);
    let mut seen = ResultIds::new(true);
    let mut out: Vec<Entry> = Vec::new();
    let mut i: usize = 0;
    proof {
        assert(pairs_of(out@) =~= distinct_seq(properties@, all.take(0)));
        assert forall|m: i64| !marked(properties@, all.take(0), m) by {}
    }
    while i < entries.len()
        invariant
            i <= entries.len(),
            properties@.len() > 0,
            all == pairs_of(entries@),
            forall|x: int, j: int|
                0 <= x < entries@.len() && 0 <= j < properties@.len() ==> (
                #[trigger] properties@[j]).readable((#[trigger] entries@[x]).val@),
            seen.tracking(),
            forall|m: i64| seen.seen().contains(m) <==> marked(properties@, all.take(i as int), m),
            pairs_of(out@) == distinct_seq(properties@, all.take(i as int)),
        decreases entries.len() - i,
    {
        let ghost before = pairs_of(out@);
        let ghost head = all.take(i as int);
        let ghost upto = all.take(i + 1);
        let ghost e = all[i as int];
        proof {
            assert(upto.drop_last() =~= head);
            assert(upto.last() == e);
            assert(e == entries@[i as int].pair());
            assert forall|j: int| 0 <= j < properties@.len() implies (
            #[trigger] properties@[j]).readable(entries@[i as int].val@) by {}
        }
        let mark = mark_object(properties, entries[i].val.as_slice());
        let fresh = seen.accept(mark);
        proof {
            assert(mark == mark_of(properties@, e));
            assert forall|m: i64| seen.seen().contains(m) <==> marked(properties@, upto, m) by {
                if marked(properties@, upto, m) {
                    let w = choose|w: int|
                        0 <= w < upto.len() && mark_of(properties@, #[trigger] upto[w]) == m;
                    if w < i {
                        assert(head[w] == upto[w]);
                        assert(marked(properties@, head, m));
                    }
                }
                if marked(properties@, head, m) {
                    let w = choose|w: int|
                        0 <= w < head.len() && mark_of(properties@, #[trigger] head[w]) == m;
                    assert(upto[w] == head[w]);
                }
                if m == mark {
                    assert(mark_of(properties@, upto[i as int]) == m);
                }
            }
        }
        if fresh {
            out.push(
                Entry {
                    key: crate::order::copy_bytes(entries[i].key.as_slice()),
                    val: crate::order::copy_bytes(entries[i].val.as_slice()),
                },
            );
            assert(pairs_of(out@) =~= before.push(e));
        }
        i += 1;
    }
    proof {
        assert(all.take(i as int) =~= all);
    }
    out
}

/// The entries in the order of the keys. Entries that the keys do not
/// tell apart keep their order.
pub fn sort_entries(entries: Vec<Entry>, keys: &Vec<SortKey>) -> (r: Vec<Entry>)
    requires
        forall|i: int| 0 <= i < entries@.len() ==> keys_fit(keys@, (#[trigger] entries@[i]).val@),
    ensures
        pairs_of(r@) == sorted_seq(keys@, pairs_of(entries@)),
{
    let ghost all = pairs_of(entries@);
    let mut out: Vec<Entry> = Vec::new();
    let mut i: usize = 0;
    proof {
        assert(pairs_of(out@) =~= sorted_seq(keys@, all.take(0)));
    }
    while i < entries.len()
        invariant
            i <= entries.len(),
            all == pairs_of(entries@),
            forall|k: int| 0 <= k < entries@.len() ==> keys_fit(keys@, (#[trigger] entries@[k]).val@),
            forall|k: int| 0 <= k < out@.len() ==> keys_fit(keys@, (#[trigger] out@[k]).val@),
            pairs_of(out@) == sorted_seq(keys@, all.take(i as int)),
        decreases entries.len() - i,
    {
        let ghost before = pairs_of(out@);
        let ghost e = all[i as int];
        proof {
            assert(e == entries@[i as int].pair());
            assert(all.take(i + 1).drop_last() =~= all.take(i as int));
            assert(all.take(i + 1).last() == e);
        }
        let mut p: usize = 0;
        while p < out.len()
            invariant
                p <= out.len(),
                i < entries.len(),
                before == pairs_of(out@),
                e == entries@[i as int].pair(),
                keys_fit(keys@, e.1),
                forall|k: int| 0 <= k < out@.len() ==> keys_fit(keys@, (#[trigger] out@[k]).val@),
                place_from(keys@, before, e, 0) == place_from(keys@, before, e, p as int),
            ensures
                p <= out.len(),
                p == place_from(keys@, before, e, 0),
            decreases out.len() - p,
        {
            assert(before[p as int] == out@[p as int].pair());
            let c = compare_by(keys, entries[i].val.as_slice(), out[p].val.as_slice());
            if c < 0 {
                break ;
            }
            p += 1;
        }
        let ghost kept = out@;
        out.insert(
            p,
            Entry {
                key: crate::order::copy_bytes(entries[i].key.as_slice()),
                val: crate::order::copy_bytes(entries[i].val.as_slice()),
            },
        );
        proof {
            assert(pairs_of(out@) =~= before.insert(p as int, e));
            assert forall|k: int| 0 <= k < out@.len() implies keys_fit(
                keys@,
                (#[trigger] out@[k]).val@,
            ) by {
                if k < p {
                    assert(out@[k] == kept[k]);
                } else if k > p {
                    assert(out@[k] == kept[k - 1]);
                }
            }
        }
        i += 1;
    }
    proof {
        assert(all.take(i as int) =~= all);
    }
    out
}

} // verus!
