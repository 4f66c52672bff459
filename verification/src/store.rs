use crate::dump::{dump_entries, DumpSet};
use crate::order::{
    bytes_equal, compare_bytes, copy_bytes, is_prefix, lemma_lex_asymmetric, lemma_lex_total,
    lemma_lex_transitive, lex_le, lex_lt, starts_with_bytes,
};
use vstd::prelude::*;

verus! {

/// A stored pair as plain values: key, then value.
pub type Pair = (Seq<u8>, Seq<u8>);

/// Order of stored pairs: by key, then by value.
pub open spec fn pair_lt(a: Pair, b: Pair) -> bool {
    lex_lt(a.0, b.0) || (a.0 == b.0 && lex_lt(a.1, b.1))
}

/// Whether the pairs ascend strictly, by key and then by value.
pub open spec fn sorted(s: Seq<Pair>) -> bool {
    forall|i: int, j: int| 0 <= i < j < s.len() ==> pair_lt(#[trigger] s[i], #[trigger] s[j])
}

/// Whether the keys alone ascend strictly: every key occurs once.
pub open spec fn keys_sorted(s: Seq<Pair>) -> bool {
    forall|i: int, j: int| 0 <= i < j < s.len() ==> lex_lt((#[trigger] s[i]).0, (#[trigger] s[j]).0)
}

pub proof fn lemma_pair_asymmetric(a: Pair, b: Pair)
    requires
        pair_lt(a, b),
    ensures
        !pair_lt(b, a),
        a != b,
{
    if lex_lt(a.0, b.0) {
        lemma_lex_asymmetric(a.0, b.0);
    } else {
        lemma_lex_asymmetric(a.1, b.1);
        if lex_lt(b.0, a.0) {
            lemma_lex_asymmetric(b.0, a.0);
        }
    }
}

pub proof fn lemma_pair_transitive(a: Pair, b: Pair, c: Pair)
    requires
        pair_lt(a, b),
        pair_lt(b, c),
    ensures
        pair_lt(a, c),
{
    if lex_lt(a.0, b.0) {
        if lex_lt(b.0, c.0) {
            lemma_lex_transitive(a.0, b.0, c.0);
        }
    } else if lex_lt(b.0, c.0) {
    } else {
        lemma_lex_transitive(a.1, b.1, c.1);
    }
}

pub proof fn lemma_pair_total(a: Pair, b: Pair)
    ensures
        pair_lt(a, b) || a == b || pair_lt(b, a),
{
    lemma_lex_total(a.0, b.0);
    lemma_lex_total(a.1, b.1);
}

/// In an ascending sequence no pair occurs twice, and equal pairs sit at
/// the same place.
pub proof fn lemma_sorted_distinct(s: Seq<Pair>, i: int, j: int)
    requires
        sorted(s),
        0 <= i < s.len(),
        0 <= j < s.len(),
        s[i] == s[j],
    ensures
        i == j,
{
    if i < j {
        lemma_pair_asymmetric(s[i], s[j]);
    } else if j < i {
        lemma_pair_asymmetric(s[j], s[i]);
    }
}

/// Whether the pair's key lies between `lower` and `upper`, both included.
pub open spec fn in_range(e: Pair, lower: Seq<u8>, upper: Seq<u8>) -> bool {
    lex_le(lower, e.0) && lex_le(e.0, upper)
}

/// Of every run of pairs with one key, the first pair.
pub open spec fn first_of_runs(s: Seq<Pair>) -> Seq<Pair>
    decreases s.len(),
{
    if s.len() == 0 {
        s
    } else if s.len() >= 2 && s[s.len() - 2].0 == s.last().0 {
        first_of_runs(s.drop_last())
    } else {
        first_of_runs(s.drop_last()).push(s.last())
    }
}

/// What a scan of the pairs `s` between two keys yields: the pairs in
/// range, in ascending or descending order, and with `skip_duplicates`
/// only the first that the scan meets under each key.
pub open spec fn spec_scan(
    s: Seq<Pair>,
    lower: Seq<u8>,
    upper: Seq<u8>,
    skip_duplicates: bool,
    ascending: bool,
) -> Seq<Pair> {
    let hits = s.filter(|e: Pair| in_range(e, lower, upper));
    let ordered = if ascending {
        hits
    } else {
        hits.reverse()
    };
    if skip_duplicates {
        first_of_runs(ordered)
    } else {
        ordered
    }
}

/// The pairs of a list of entries.
pub open spec fn pairs_of(entries: Seq<Entry>) -> Seq<Pair> {
    Seq::new(entries.len(), |i: int| entries[i].pair())
}

/// One stored pair.
pub struct Entry {
    pub key: Vec<u8>,
    pub val: Vec<u8>,
}

impl Entry {
    pub open spec fn pair(&self) -> Pair {
        (self.key@, self.val@)
    }
}

/// An ordered key/value database held in memory. Pairs are kept in
/// ascending order of key, then value, and no pair is stored twice. A
/// database that allows duplicates may hold several values under one key;
/// one that does not holds at most one.
pub struct Db {
    entries: Vec<Entry>,
    dup: bool,
}

impl View for Db {
    type V = Seq<Pair>;

    closed spec fn view(&self) -> Seq<Pair> {
        Seq::new(self.entries.len() as nat, |i: int| self.entries[i].pair())
    }
}

impl Db {
    /// Whether one key may hold several values.
    pub closed spec fn allows_dup(&self) -> bool {
        self.dup
    }

    /// The invariant of a database: its pairs ascend, and without
    /// duplicates allowed its keys do.
    pub open spec fn wf(&self) -> bool {
        &&& sorted(self@)
        &&& !self.allows_dup() ==> keys_sorted(self@)
    }

    /// The stored pairs as a set.
    pub open spec fn set(&self) -> Set<Pair> {
        Set::new(|e: Pair| self@.contains(e))
    }

    /// Whether some value is stored under `key`.
    pub open spec fn has_key(&self, key: Seq<u8>) -> bool {
        exists|i: int| 0 <= i < self@.len() && (#[trigger] self@[i]).0 == key
    }

    pub fn new(dup: bool) -> (db: Db)
        ensures
            db@ == Seq::<Pair>::empty(),
            db.allows_dup() == dup,
            db.wf(),
    {
        let db = Db { entries: Vec::new(), dup };
        assert(db@ =~= Seq::<Pair>::empty());
        db
    }

    pub fn is_dup(&self) -> (r: bool)
        ensures
            r == self.allows_dup(),
    {
        self.dup
    }

    pub fn len(&self) -> (n: usize)
        ensures
            n == self@.len(),
    {
        self.entries.len()
    }

    pub fn key_at(&self, i: usize) -> (k: &[u8])
        requires
            i < self@.len(),
        ensures
            k@ == self@[i as int].0,
    {
        self.entries[i].key.as_slice()
    }

    pub fn val_at(&self, i: usize) -> (v: &[u8])
        requires
            i < self@.len(),
        ensures
            v@ == self@[i as int].1,
    {
        self.entries[i].val.as_slice()
    }

    /// The place of the first pair whose key is not below `key`.
    pub fn lower_bound(&self, key: &[u8]) -> (p: usize)
        requires
            self.wf(),
        ensures
            p <= self@.len(),
            forall|j: int| 0 <= j < p ==> lex_lt((#[trigger] self@[j]).0, key@),
            forall|j: int| p <= j < self@.len() ==> !lex_lt((#[trigger] self@[j]).0, key@),
    {
        let mut p: usize = 0;
        while p < self.entries.len()
            invariant
                p <= self@.len(),
                self@.len() == self.entries.len(),
                forall|j: int| 0 <= j < p ==> lex_lt((#[trigger] self@[j]).0, key@),
            ensures
                p <= self@.len(),
                forall|j: int| 0 <= j < p ==> lex_lt((#[trigger] self@[j]).0, key@),
                p < self@.len() ==> !lex_lt(self@[p as int].0, key@),
            decreases self@.len() - p,
        {
            if compare_bytes(self.key_at(p), key) >= 0 {
                break ;
            }
            p += 1;
        }
        proof {
            assert forall|j: int| p <= j < self@.len() implies !lex_lt(
                (#[trigger] self@[j]).0,
                key@,
            ) by {
                if j > p && lex_lt(self@[j].0, key@) {
                    let a = self@[p as int];
                    let b = self@[j];
                    assert(pair_lt(a, b));
                    lemma_lex_total(a.0, key@);
                    if lex_lt(a.0, b.0) {
                        lemma_lex_transitive(a.0, b.0, key@);
                    }
                }
            }
        }
        p
    }

    /// The place of the first pair that is not below `(key, val)`.
    pub fn position(&self, key: &[u8], val: &[u8]) -> (p: usize)
        requires
            self.wf(),
        ensures
            p <= self@.len(),
            forall|j: int| 0 <= j < p ==> pair_lt(#[trigger] self@[j], (key@, val@)),
            forall|j: int| p <= j < self@.len() ==> !pair_lt(#[trigger] self@[j], (key@, val@)),
    {
        let ghost e = (key@, val@);
        let mut p: usize = 0;
        while p < self.entries.len()
            invariant
                p <= self@.len(),
                self@.len() == self.entries.len(),
                e == (key@, val@),
                forall|j: int| 0 <= j < p ==> pair_lt(#[trigger] self@[j], e),
            ensures
                p <= self@.len(),
                forall|j: int| 0 <= j < p ==> pair_lt(#[trigger] self@[j], e),
                p < self@.len() ==> !pair_lt(self@[p as int], e),
            decreases self@.len() - p,
        {
            let c = compare_bytes(self.key_at(p), key);
            if c > 0 {
                proof {
                    lemma_lex_asymmetric(key@, self@[p as int].0);
                }
                break ;
            }
            if c == 0 && compare_bytes(self.val_at(p), val) >= 0 {
                break ;
            }
            p += 1;
        }
        proof {
            assert forall|j: int| p <= j < self@.len() implies !pair_lt(#[trigger] self@[j], e) by {
                if j > p && pair_lt(self@[j], e) {
                    lemma_pair_transitive(self@[p as int], self@[j], e);
                }
            }
        }
        p
    }

    /// The place of the pair `(key, val)`, if it is stored.
    pub fn find(&self, key: &[u8], val: &[u8]) -> (r: Option<usize>)
        requires
            self.wf(),
        ensures
            r is Some <==> self@.contains((key@, val@)),
            r matches Some(p) ==> p < self@.len() && self@[p as int] == (key@, val@),
    {
        let p = self.position(key, val);
        if p < self.entries.len() && bytes_equal(self.key_at(p), key) && bytes_equal(
            self.val_at(p),
            val,
        ) {
            Some(p)
        } else {
            proof {
                let e = (key@, val@);
                if self@.contains(e) {
                    let i = choose|i: int| 0 <= i < self@.len() && self@[i] == e;
                    if i < p {
                        lemma_pair_asymmetric(self@[i], e);
                    } else if i > p {
                        assert(pair_lt(self@[p as int], self@[i]));
                    }
                }
            }
            None
        }
    }

    /// The first value stored under `key`.
    pub fn get(&self, key: &[u8]) -> (r: Option<&[u8]>)
        requires
            self.wf(),
        ensures
            r is Some <==> self.has_key(key@),
            r matches Some(v) ==> self@.contains((key@, v@)) && forall|w: Seq<u8>|
                self@.contains((key@, w)) ==> lex_le(v@, w),
    {
        let p = self.lower_bound(key);
        if p < self.entries.len() && bytes_equal(self.key_at(p), key) {
            let v = self.val_at(p);
            proof {
                assert(self@[p as int] == (key@, v@));
                assert forall|w: Seq<u8>| self@.contains((key@, w)) implies lex_le(v@, w) by {
                    let i = choose|i: int| 0 <= i < self@.len() && self@[i] == (key@, w);
                    if i < p {
                        lemma_lex_asymmetric(self@[i].0, key@);
                    } else if i > p {
                        assert(pair_lt(self@[p as int], self@[i]));
                        lemma_lex_total(key@, key@);
                        if lex_lt(key@, key@) {
                            lemma_lex_asymmetric(key@, key@);
                        }
                    }
                }
            }
            Some(v)
        } else {
            proof {
                if self.has_key(key@) {
                    let i = choose|i: int| 0 <= i < self@.len() && (#[trigger] self@[i]).0 == key@;
                    if i < p {
                        lemma_lex_asymmetric(self@[i].0, key@);
                    } else if i > p {
                        let a = self@[p as int];
                        assert(pair_lt(a, self@[i]));
                        lemma_lex_total(a.0, key@);
                        if lex_lt(key@, a.0) {
                            lemma_lex_asymmetric(key@, a.0);
                        }
                    }
                }
            }
            None
        }
    }

    /// Removes the pair at place `i`.
    pub fn delete_at(&mut self, i: usize)
        requires
            old(self).wf(),
            i < old(self)@.len(),
        ensures
            final(self).wf(),
            final(self).allows_dup() == old(self).allows_dup(),
            final(self)@ == old(self)@.remove(i as int),
            final(self).set() == old(self).set().remove(old(self)@[i as int]),
    {
        let ghost before = self@;
        self.entries.remove(i);
        proof {
            assert(self@ =~= before.remove(i as int));
            assert forall|a: int, b: int| 0 <= a < b < self@.len() implies pair_lt(
                #[trigger] self@[a],
                #[trigger] self@[b],
            ) by {
                let a0 = if a < i { a } else { a + 1 };
                let b0 = if b < i { b } else { b + 1 };
                assert(pair_lt(before[a0], before[b0]));
            }
            if !self.dup {
                assert forall|a: int, b: int| 0 <= a < b < self@.len() implies lex_lt(
                    (#[trigger] self@[a]).0,
                    (#[trigger] self@[b]).0,
                ) by {
                    let a0 = if a < i { a } else { a + 1 };
                    let b0 = if b < i { b } else { b + 1 };
                    assert(lex_lt(before[a0].0, before[b0].0));
                }
            }
            assert forall|e: Pair| self@.contains(e) <==> (before.contains(e) && e != before[i as int]) by {
                if self@.contains(e) {
                    let k = choose|k: int| 0 <= k < self@.len() && self@[k] == e;
                    let k0 = if k < i { k } else { k + 1 };
                    assert(before[k0] == e);
                    if e == before[i as int] {
                        lemma_sorted_distinct(before, k0, i as int);
                    }
                }
                if before.contains(e) && e != before[i as int] {
                    let k0 = choose|k: int| 0 <= k < before.len() && before[k] == e;
                    let k = if k0 < i { k0 } else { k0 - 1 };
                    assert(self@[k] == e);
                }
            }
            assert(self.set() =~= old(self).set().remove(before[i as int]));
        }
    }

    /// Stores `val` under `key`. Where duplicates are allowed the pair
    /// joins the others; where not, it takes the place of the key's value.
    pub fn put(&mut self, key: &[u8], val: &[u8])
        requires
            old(self).wf(),
        ensures
            final(self).wf(),
            final(self).allows_dup() == old(self).allows_dup(),
            old(self).allows_dup() ==> final(self).set() == old(self).set().insert((key@, val@)),
            !old(self).allows_dup() ==> final(self).set() == old(self).set().filter(
                |e: Pair| e.0 != key@,
            ).insert((key@, val@)),
    {
        let ghost before = self@;
        let ghost e = (key@, val@);
        if self.dup {
            let p = self.position(key, val);
            if p < self.entries.len() && bytes_equal(self.key_at(p), key) && bytes_equal(
                self.val_at(p),
                val,
            ) {
                assert(before[p as int] == e);
                assert(self.set() =~= old(self).set().insert(e));
                return ;
            }
            self.entries.insert(p, Entry { key: copy_bytes(key), val: copy_bytes(val) });
            proof {
                assert(self@ =~= before.insert(p as int, e));
                if p < before.len() {
                    lemma_pair_total(before[p as int], e);
                }
                Self::lemma_insert_sorted(before, p as int, e);
                Self::lemma_insert_set(before, p as int, e);
                assert forall|x: Pair| self.set().contains(x) == old(self).set().insert(e).contains(
                    x,
                ) by {
                    assert(before.insert(p as int, e).contains(x) <==> (x == e || before.contains(
                        x,
                    )));
                }
                assert(self.set() =~= old(self).set().insert(e));
            }
        } else {
            let p = self.lower_bound(key);
            if p < self.entries.len() && bytes_equal(self.key_at(p), key) {
                self.entries.set(p, Entry { key: copy_bytes(key), val: copy_bytes(val) });
                proof {
                    assert(self@ =~= before.update(p as int, e));
                    assert forall|a: int, b: int| 0 <= a < b < self@.len() implies lex_lt(
                        (#[trigger] self@[a]).0,
                        (#[trigger] self@[b]).0,
                    ) by {
                        assert(lex_lt(before[a].0, before[b].0));
                    }
                    assert forall|x: Pair| #[trigger] self@.contains(x) <==> (x == e || (
                    before.contains(x) && x.0 != key@)) by {
                        if self@.contains(x) {
                            let k = choose|k: int| 0 <= k < self@.len() && self@[k] == x;
                            if k != p {
                                assert(before[k] == x);
                                if k < p {
                                    lemma_lex_asymmetric(before[k].0, before[p as int].0);
                                } else {
                                    lemma_lex_asymmetric(before[p as int].0, before[k].0);
                                }
                            }
                        }
                        if x == e {
                            assert(self@[p as int] == x);
                        }
                        if before.contains(x) && x.0 != key@ {
                            let k = choose|k: int| 0 <= k < before.len() && before[k] == x;
                            assert(self@[k] == x);
                        }
                    }
                    assert forall|x: Pair| self.set().contains(x) == old(self).set().filter(
                        |x: Pair| x.0 != key@,
                    ).insert(e).contains(x) by {
                        assert(self@.contains(x) <==> (x == e || (before.contains(x) && x.0
                            != key@)));
                    }
                    assert(self.set() =~= old(self).set().filter(|x: Pair| x.0 != key@).insert(e));
                }
            } else {
                self.entries.insert(p, Entry { key: copy_bytes(key), val: copy_bytes(val) });
                proof {
                    assert(self@ =~= before.insert(p as int, e));
                    if p < before.len() {
                        lemma_lex_total(before[p as int].0, key@);
                    }
                    assert forall|a: int, b: int| 0 <= a < b < self@.len() implies lex_lt(
                        (#[trigger] self@[a]).0,
                        (#[trigger] self@[b]).0,
                    ) by {
                        let a0 = if a < p { a } else { a - 1 };
                        let b0 = if b < p { b } else { b - 1 };
                        if a == p {
                            if b0 > p {
                                assert(lex_lt(before[p as int].0, before[b0].0));
                                lemma_lex_transitive(key@, before[p as int].0, before[b0].0);
                            }
                        } else if b == p {
                        } else {
                            assert(lex_lt(before[a0].0, before[b0].0));
                        }
                    }
                    Self::lemma_insert_set(before, p as int, e);
                    assert forall|x: Pair| before.insert(p as int, e).contains(x) implies x == e
                        || before.contains(x) by {}
                    assert forall|x: Pair| #[trigger] before.contains(x) implies x.0 != key@ by {
                        let k = choose|k: int| 0 <= k < before.len() && before[k] == x;
                        if k < p {
                            lemma_lex_asymmetric(before[k].0, key@);
                        } else {
                            if k > p {
                                assert(lex_lt(before[p as int].0, before[k].0));
                                lemma_lex_transitive(key@, before[p as int].0, before[k].0);
                            }
                            lemma_lex_asymmetric(key@, before[k].0);
                        }
                    }
                    assert forall|x: Pair| self.set().contains(x) == old(self).set().filter(
                        |x: Pair| x.0 != key@,
                    ).insert(e).contains(x) by {
                        assert(self@.contains(x) <==> (x == e || (before.contains(x) && x.0
                            != key@)));
                    }
                    assert(self.set() =~= old(self).set().filter(|x: Pair| x.0 != key@).insert(e));
                }
            }
        }
    }

    /// The place of the first pair whose key is above `key`.
    pub fn upper_bound(&self, key: &[u8]) -> (p: usize)
        requires
            self.wf(),
        ensures
            p <= self@.len(),
            forall|j: int| 0 <= j < p ==> !lex_lt(key@, (#[trigger] self@[j]).0),
            forall|j: int| p <= j < self@.len() ==> lex_lt(key@, (#[trigger] self@[j]).0),
    {
        let mut p: usize = 0;
        while p < self.entries.len()
            invariant
                p <= self@.len(),
                self@.len() == self.entries.len(),
                forall|j: int| 0 <= j < p ==> !lex_lt(key@, (#[trigger] self@[j]).0),
            ensures
                p <= self@.len(),
                forall|j: int| 0 <= j < p ==> !lex_lt(key@, (#[trigger] self@[j]).0),
                p < self@.len() ==> lex_lt(key@, self@[p as int].0),
            decreases self@.len() - p,
        {
            if compare_bytes(self.key_at(p), key) > 0 {
                break ;
            }
            proof {
                if lex_lt(key@, self@[p as int].0) {
                    lemma_lex_asymmetric(key@, self@[p as int].0);
                }
            }
            p += 1;
        }
        proof {
            assert forall|j: int| p <= j < self@.len() implies lex_lt(
                key@,
                (#[trigger] self@[j]).0,
            ) by {
                if j > p {
                    let a = self@[p as int];
                    let b = self@[j];
                    assert(pair_lt(a, b));
                    if lex_lt(a.0, b.0) {
                        lemma_lex_transitive(key@, a.0, b.0);
                    }
                }
            }
        }
        p
    }

    /// The places `start..end` of the pairs whose key lies between `lower`
    /// and `upper`, both included.
    pub fn range(&self, lower: &[u8], upper: &[u8]) -> (r: (usize, usize))
        requires
            self.wf(),
        ensures
            r.0 <= r.1 <= self@.len(),
            forall|j: int|
                0 <= j < self@.len() ==> ((r.0 <= j < r.1) <==> (lex_le(
                    lower@,
                    (#[trigger] self@[j]).0,
                ) && lex_le(self@[j].0, upper@))),
    {
        let start = self.lower_bound(lower);
        let end = self.upper_bound(upper);
        proof {
            assert forall|j: int| 0 <= j < self@.len() implies ((start <= j) <==> lex_le(
                lower@,
                (#[trigger] self@[j]).0,
            )) by {
                lemma_lex_total(lower@, self@[j].0);
                if lex_lt(self@[j].0, lower@) {
                    lemma_lex_asymmetric(self@[j].0, lower@);
                }
            }
            assert forall|j: int| 0 <= j < self@.len() implies ((j < end) <==> lex_le(
                (#[trigger] self@[j]).0,
                upper@,
            )) by {
                lemma_lex_total(upper@, self@[j].0);
                if lex_lt(upper@, self@[j].0) {
                    lemma_lex_asymmetric(upper@, self@[j].0);
                }
            }
        }
        if end < start {
            (start, start)
        } else {
            (start, end)
        }
    }

    /// Removes the pair `(key, val)`; tells whether it was stored.
    pub fn delete_pair(&mut self, key: &[u8], val: &[u8]) -> (found: bool)
        requires
            old(self).wf(),
        ensures
            final(self).wf(),
            final(self).allows_dup() == old(self).allows_dup(),
            found == old(self)@.contains((key@, val@)),
            final(self).set() == old(self).set().remove((key@, val@)),
    {
        match self.find(key, val) {
            Some(p) => {
                self.delete_at(p);
                true
            },
            None => {
                assert(self.set() =~= old(self).set().remove((key@, val@)));
                false
            },
        }
    }

    /// Removes every pair stored under `key`; tells whether there was one.
    pub fn delete_key(&mut self, key: &[u8]) -> (found: bool)
        requires
            old(self).wf(),
        ensures
            final(self).wf(),
            final(self).allows_dup() == old(self).allows_dup(),
            found == old(self).has_key(key@),
            final(self).set() == old(self).set().filter(|e: Pair| e.0 != key@),
    {
        let p = self.lower_bound(key);
        let mut found = false;
        proof {
            if old(self).has_key(key@) {
                let i = choose|i: int| 0 <= i < self@.len() && (#[trigger] self@[i]).0 == key@;
                if i < p {
                    lemma_lex_asymmetric(self@[i].0, key@);
                } else if i > p {
                    let a = self@[p as int];
                    assert(pair_lt(a, self@[i]));
                    lemma_lex_total(a.0, key@);
                    if lex_lt(key@, a.0) {
                        lemma_lex_asymmetric(key@, a.0);
                    }
                }
                assert(self@[p as int].0 == key@);
            }
        }
        while p < self.entries.len() && bytes_equal(self.key_at(p), key)
            invariant
                self.wf(),
                self.allows_dup() == old(self).allows_dup(),
                self@.len() == self.entries.len(),
                p <= self@.len(),
                forall|j: int| 0 <= j < p ==> lex_lt((#[trigger] self@[j]).0, key@),
                forall|j: int| p <= j < self@.len() ==> !lex_lt((#[trigger] self@[j]).0, key@),
                forall|x: Pair|
                    x.0 != key@ ==> (#[trigger] self@.contains(x) <==> old(self)@.contains(x)),
                forall|x: Pair| #[trigger] self@.contains(x) ==> old(self)@.contains(x),
                found ==> old(self).has_key(key@),
                !found ==> self@ == old(self)@,
            decreases self@.len(),
        {
            let ghost before = self@;
            let ghost gone = self@[p as int];
            assert(self@.contains(gone));
            assert(old(self)@.contains(gone));
            self.delete_at(p);
            found = true;
            proof {
                let i = choose|i: int| 0 <= i < old(self)@.len() && old(self)@[i] == gone;
                assert(old(self)@[i].0 == key@);
                assert forall|x: Pair| #[trigger] self@.contains(x) implies before.contains(x) by {
                    assert(self.set().contains(x));
                }
                assert forall|x: Pair| x.0 != key@ implies (#[trigger] self@.contains(x)
                    <==> old(self)@.contains(x)) by {
                    assert(self.set().contains(x) <==> (before.contains(x) && x != gone));
                }
            }
        }
        proof {
            assert forall|x: Pair| #[trigger] self@.contains(x) implies x.0 != key@ by {
                let i = choose|i: int| 0 <= i < self@.len() && self@[i] == x;
                if i < p {
                    lemma_lex_asymmetric(self@[i].0, key@);
                } else if i > p {
                    let a = self@[p as int];
                    assert(pair_lt(a, self@[i]));
                    lemma_lex_total(a.0, key@);
                    if lex_lt(a.0, self@[i].0) {
                        if lex_lt(key@, a.0) {
                            lemma_lex_transitive(key@, a.0, self@[i].0);
                        }
                        lemma_lex_asymmetric(key@, self@[i].0);
                    }
                }
            }
            assert forall|x: Pair| self.set().contains(x) == old(self).set().filter(
                |e: Pair| e.0 != key@,
            ).contains(x) by {
                if x.0 != key@ {
                    assert(self@.contains(x) <==> old(self)@.contains(x));
                }
            }
            assert(self.set() =~= old(self).set().filter(|e: Pair| e.0 != key@));
        }
        found
    }

    /// Removes every pair whose key starts with `prefix`.
    pub fn delete_key_prefix(&mut self, prefix: &[u8])
        requires
            old(self).wf(),
        ensures
            final(self).wf(),
            final(self).allows_dup() == old(self).allows_dup(),
            final(self).set() == old(self).set().filter(|e: Pair| !is_prefix(prefix@, e.0)),
    {
        let ghost start = self@;
        let mut i: usize = self.entries.len();
        assert(start.subrange(0, i as int) =~= start);
        while i > 0
            invariant
                self.wf(),
                self.allows_dup() == old(self).allows_dup(),
                start == old(self)@,
                sorted(start),
                i <= self@.len(),
                i <= start.len(),
                self@.len() == self.entries.len(),
                self@.subrange(0, i as int) == start.subrange(0, i as int),
                forall|x: Pair| #[trigger]
                    self@.contains(x) <==> (start.contains(x) && (!is_prefix(prefix@, x.0)
                        || start.subrange(0, i as int).contains(x))),
            decreases i,
        {
            let ghost before = self@;
            let ghost upto = i as int;
            i -= 1;
            let ghost here = start[i as int];
            assert(before[i as int] == before.subrange(0, upto)[i as int]);
            assert(here == start.subrange(0, upto)[i as int]);
            if starts_with_bytes(self.key_at(i), prefix) {
                self.delete_at(i);
                proof {
                    assert(self@.subrange(0, i as int) =~= start.subrange(0, i as int)) by {
                        assert forall|k: int| 0 <= k < i implies self@[k] == start[k] by {
                            assert(before.subrange(0, upto)[k] == start.subrange(0, upto)[k]);
                        }
                    }
                    assert forall|x: Pair| #[trigger]
                        self@.contains(x) <==> (start.contains(x) && (!is_prefix(prefix@, x.0)
                            || start.subrange(0, i as int).contains(x))) by {
                        assert(self.set().contains(x) <==> (before.contains(x) && x != here));
                        Self::lemma_subrange_step(start, i as int, x);
                    }
                }
            } else {
                proof {
                    assert(self@.subrange(0, i as int) =~= start.subrange(0, i as int)) by {
                        assert forall|k: int| 0 <= k < i implies self@[k] == start[k] by {
                            assert(before.subrange(0, upto)[k] == start.subrange(0, upto)[k]);
                        }
                    }
                    assert forall|x: Pair| #[trigger]
                        self@.contains(x) <==> (start.contains(x) && (!is_prefix(prefix@, x.0)
                            || start.subrange(0, i as int).contains(x))) by {
                        Self::lemma_subrange_step(start, i as int, x);
                    }
                }
            }
        }
        proof {
            assert forall|x: Pair| self.set().contains(x) == old(self).set().filter(
                |e: Pair| !is_prefix(prefix@, e.0),
            ).contains(x) by {
                assert(!start.subrange(0, 0).contains(x));
                assert(self@.contains(x) <==> (start.contains(x) && (!is_prefix(prefix@, x.0)
                    || start.subrange(0, 0).contains(x))));
            }
            assert(self.set() =~= old(self).set().filter(|e: Pair| !is_prefix(prefix@, e.0)));
        }
    }

    proof fn lemma_subrange_step(s: Seq<Pair>, i: int, x: Pair)
        requires
            sorted(s),
            0 <= i < s.len(),
        ensures
            s.subrange(0, i + 1).contains(x) <==> (s.subrange(0, i).contains(x) || x == s[i]),
            !s.subrange(0, i).contains(s[i]),
            s.contains(s[i]),
    {
        let a = s.subrange(0, i + 1);
        let b = s.subrange(0, i);
        if a.contains(x) {
            let k = choose|k: int| 0 <= k < a.len() && a[k] == x;
            if k < i {
                assert(b[k] == x);
            }
        }
        if b.contains(x) {
            let k = choose|k: int| 0 <= k < b.len() && b[k] == x;
            assert(a[k] == x);
        }
        assert(a[i] == s[i]);
        if b.contains(s[i]) {
            let k = choose|k: int| 0 <= k < b.len() && b[k] == s[i];
            lemma_sorted_distinct(s, k, i);
        }
    }

    /// Removes every pair.
    pub fn clear(&mut self)
        ensures
            final(self).wf(),
            final(self).allows_dup() == old(self).allows_dup(),
            final(self)@ == Seq::<Pair>::empty(),
    {
        self.entries.clear();
        assert(self@ =~= Seq::<Pair>::empty());
    }

    /// A database that holds the same pairs.
    pub fn copy(&self) -> (db: Db)
        ensures
            db@ == self@,
            db.allows_dup() == self.allows_dup(),
    {
        let mut entries: Vec<Entry> = Vec::new();
        let mut i: usize = 0;
        while i < self.entries.len()
            invariant
                i <= self.entries.len(),
                entries.len() == i,
                forall|k: int| 0 <= k < i ==> (#[trigger] entries[k]).pair() == self.entries[k].pair(),
            decreases self.entries.len() - i,
        {
            entries.push(Entry { key: copy_bytes(self.key_at(i)), val: copy_bytes(self.val_at(i)) });
            i += 1;
        }
        let db = Db { entries, dup: self.dup };
        assert(db@ =~= self@);
        db
    }

    /// The stored pairs whose key starts with `prefix`, or all of them
    /// where no prefix is given, as a hash set.
    pub fn dump(&self, prefix: Option<&[u8]>) -> (set: DumpSet)
        ensures
            dump_entries(set) == self.set().filter(
                |e: Pair| prefix matches Some(p) ==> is_prefix(p@, e.0),
            ),
    {
        let mut set = DumpSet::new();
        let mut i: usize = 0;
        while i < self.entries.len()
            invariant
                i <= self@.len(),
                self@.len() == self.entries.len(),
                forall|x: Pair| #[trigger]
                    dump_entries(set).contains(x) <==> (self@.subrange(0, i as int).contains(x) && (
                    prefix matches Some(p) ==> is_prefix(p@, x.0))),
            decreases self@.len() - i,
        {
            let keep = match prefix {
                Some(p) => starts_with_bytes(self.key_at(i), p),
                None => true,
            };
            let ghost seen = dump_entries(set);
            if keep {
                set.insert(copy_bytes(self.key_at(i)), copy_bytes(self.val_at(i)));
            }
            proof {
                let a = self@.subrange(0, i + 1);
                let b = self@.subrange(0, i as int);
                assert forall|x: Pair| #[trigger]
                    dump_entries(set).contains(x) <==> (a.contains(x) && (prefix matches Some(p)
                        ==> is_prefix(p@, x.0))) by {
                    assert(seen.contains(x) <==> (b.contains(x) && (prefix matches Some(p)
                        ==> is_prefix(p@, x.0))));
                    if a.contains(x) {
                        let k = choose|k: int| 0 <= k < a.len() && a[k] == x;
                        if k < i {
                            assert(b[k] == x);
                        }
                    }
                    if b.contains(x) {
                        let k = choose|k: int| 0 <= k < b.len() && b[k] == x;
                        assert(a[k] == x);
                    }
                    assert(a[i as int] == self@[i as int]);
                }
            }
            i += 1;
        }
        proof {
            assert(self@.subrange(0, i as int) =~= self@);
            assert(dump_entries(set) =~= self.set().filter(
                |e: Pair| prefix matches Some(p) ==> is_prefix(p@, e.0),
            ));
        }
        set
    }

    /// Scans the pairs between two keys.
    pub fn scan(&self, lower: &[u8], upper: &[u8], skip_duplicates: bool, ascending: bool) -> (r:
        Vec<Entry>)
        ensures
            pairs_of(r@) == spec_scan(self@, lower@, upper@, skip_duplicates, ascending),
    {
        let ghost pred = |e: Pair| in_range(e, lower@, upper@);
        let mut hits: Vec<Entry> = Vec::new();
        let mut i: usize = 0;
        proof {
            reveal(Seq::filter);
            assert(pairs_of(hits@) =~= self@.subrange(0, 0).filter(pred));
        }
        while i < self.entries.len()
            invariant
                i <= self@.len(),
                self@.len() == self.entries.len(),
                pred == (|e: Pair| in_range(e, lower@, upper@)),
                pairs_of(hits@) == self@.subrange(0, i as int).filter(pred),
            decreases self@.len() - i,
        {
            let key = self.key_at(i);
            let ghost before = pairs_of(hits@);
            let keep = compare_bytes(lower, key) <= 0 && compare_bytes(key, upper) <= 0;
            proof {
                if lex_lt(lower@, key@) {
                    lemma_lex_asymmetric(lower@, key@);
                }
                if lex_lt(key@, upper@) {
                    lemma_lex_asymmetric(key@, upper@);
                }
                assert(keep == pred(self@[i as int]));
                assert(self@.subrange(0, i + 1).drop_last() =~= self@.subrange(0, i as int));
                reveal(Seq::filter);
            }
            if keep {
                hits.push(Entry { key: copy_bytes(key), val: copy_bytes(self.val_at(i)) });
                assert(pairs_of(hits@) =~= before.push(self@[i as int]));
            }
            i += 1;
        }
        assert(self@.subrange(0, i as int) =~= self@);
        let ordered = if ascending {
            hits
        } else {
            reverse_entries(hits)
        };
        if skip_duplicates {
            keep_first_of_runs(ordered)
        } else {
            ordered
        }
    }

    /// Without duplicates allowed, a key holds one value.
    pub proof fn lemma_one_value(&self, key: Seq<u8>, v: Seq<u8>, w: Seq<u8>)
        requires
            self.wf(),
            !self.allows_dup(),
            self@.contains((key, v)),
            self@.contains((key, w)),
        ensures
            v == w,
    {
        let i = choose|i: int| 0 <= i < self@.len() && self@[i] == (key, v);
        let j = choose|j: int| 0 <= j < self@.len() && self@[j] == (key, w);
        if i < j {
            lemma_lex_asymmetric(self@[i].0, self@[j].0);
        } else if j < i {
            lemma_lex_asymmetric(self@[j].0, self@[i].0);
        }
    }

    /// A key is held exactly when some pair with that key is stored.
    pub proof fn lemma_has_key(&self, key: Seq<u8>)
        ensures
            self.has_key(key) <==> exists|v: Seq<u8>| self@.contains((key, v)),
    {
        if self.has_key(key) {
            let i = choose|i: int| 0 <= i < self@.len() && (#[trigger] self@[i]).0 == key;
            assert(self@.contains((key, self@[i].1)));
        }
        if exists|v: Seq<u8>| self@.contains((key, v)) {
            let v = choose|v: Seq<u8>| self@.contains((key, v));
            let i = choose|i: int| 0 <= i < self@.len() && self@[i] == (key, v);
            assert(self@[i].0 == key);
        }
    }

    proof fn lemma_insert_sorted(s: Seq<Pair>, p: int, e: Pair)
        requires
            sorted(s),
            0 <= p <= s.len(),
            forall|j: int| 0 <= j < p ==> pair_lt(#[trigger] s[j], e),
            p < s.len() ==> pair_lt(e, s[p]),
        ensures
            sorted(s.insert(p, e)),
    {
        let t = s.insert(p, e);
        assert forall|a: int, b: int| 0 <= a < b < t.len() implies pair_lt(
            #[trigger] t[a],
            #[trigger] t[b],
        ) by {
            let a0 = if a < p { a } else { a - 1 };
            let b0 = if b < p { b } else { b - 1 };
            if a == p {
                if b0 > p {
                    assert(pair_lt(s[p], s[b0]));
                    lemma_pair_transitive(e, s[p], s[b0]);
                }
            } else if b == p {
            } else {
                assert(pair_lt(s[a0], s[b0]));
            }
        }
    }

    proof fn lemma_insert_set(s: Seq<Pair>, p: int, e: Pair)
        requires
            0 <= p <= s.len(),
        ensures
            forall|x: Pair| #[trigger] s.insert(p, e).contains(x) <==> (x == e || s.contains(x)),
    {
        let t = s.insert(p, e);
        assert forall|x: Pair| #[trigger] t.contains(x) <==> (x == e || s.contains(x)) by {
            if t.contains(x) {
                let k = choose|k: int| 0 <= k < t.len() && t[k] == x;
                if k < p {
                    assert(s[k] == x);
                } else if k > p {
                    assert(s[k - 1] == x);
                }
            }
            if x == e {
                assert(t[p] == x);
            }
            if s.contains(x) {
                let k = choose|k: int| 0 <= k < s.len() && s[k] == x;
                let k1 = if k < p { k } else { k + 1 };
                assert(t[k1] == x);
            }
        }
    }
}

/// The entries in reverse order.
pub fn reverse_entries(entries: Vec<Entry>) -> (r: Vec<Entry>)
    ensures
        pairs_of(r@) == pairs_of(entries@).reverse(),
{
    let mut out: Vec<Entry> = Vec::new();
    let mut i: usize = entries.len();
    while i > 0
        invariant
            i <= entries.len(),
            out.len() == entries.len() - i,
            forall|k: int|
                0 <= k < out.len() ==> (#[trigger] out[k]).pair() == entries[entries.len() - 1
                    - k].pair(),
        decreases i,
    {
        i -= 1;
        out.push(
            Entry {
                key: copy_bytes(entries[i].key.as_slice()),
                val: copy_bytes(entries[i].val.as_slice()),
            },
        );
    }
    assert(pairs_of(out@) =~= pairs_of(entries@).reverse());
    out
}

/// Of every run of entries with one key, the first.
pub fn keep_first_of_runs(entries: Vec<Entry>) -> (r: Vec<Entry>)
    ensures
        pairs_of(r@) == first_of_runs(pairs_of(entries@)),
{
    let ghost all = pairs_of(entries@);
    let mut out: Vec<Entry> = Vec::new();
    let mut i: usize = 0;
    while i < entries.len()
        invariant
            i <= entries.len(),
            all == pairs_of(entries@),
            pairs_of(out@) == first_of_runs(all.subrange(0, i as int)),
        decreases entries.len() - i,
    {
        let ghost before = pairs_of(out@);
        let ghost upto = all.subrange(0, i + 1);
        proof {
            assert(upto.drop_last() =~= all.subrange(0, i as int));
            assert(upto.last() == all[i as int]);
            if i >= 1 {
                assert(upto[upto.len() - 2] == all[i - 1]);
            }
        }
        let fresh = i == 0 || !bytes_equal(
            entries[i - 1].key.as_slice(),
            entries[i].key.as_slice(),
        );
        if fresh {
            out.push(
                Entry {
                    key: copy_bytes(entries[i].key.as_slice()),
                    val: copy_bytes(entries[i].val.as_slice()),
                },
            );
            assert(pairs_of(out@) =~= before.push(all[i as int]));
        }
        i += 1;
    }
    assert(all.subrange(0, i as int) =~= all);
    out
}

/// A scan from a key to the same key yields exactly the stored pairs
/// with that key.
pub proof fn lemma_scan_point(s: Seq<Pair>, key: Seq<u8>, e: Pair)
    ensures
        spec_scan(s, key, key, false, true).contains(e) <==> (s.contains(e) && e.0 == key),
{
    let pred = |x: Pair| in_range(x, key, key);
    let hits = s.filter(pred);
    broadcast use vstd::seq_lib::group_filter_ensures;

    if hits.contains(e) {
        let i = choose|i: int| 0 <= i < hits.len() && hits[i] == e;
        assert(pred(hits[i]));
        s.lemma_filter_contains_rev(pred, e);
        if lex_lt(key, e.0) {
            lemma_lex_asymmetric(key, e.0);
        }
    }
    if s.contains(e) && e.0 == key {
        let i = choose|i: int| 0 <= i < s.len() && s[i] == e;
        assert(pred(s[i]));
        assert(hits.contains(s[i]));
    }
}

/// Two ascending sequences that hold the same pairs are the same sequence.
pub proof fn lemma_sorted_same_pairs(a: Seq<Pair>, b: Seq<Pair>)
    requires
        sorted(a),
        sorted(b),
        forall|e: Pair| a.contains(e) <==> b.contains(e),
    ensures
        a == b,
    decreases a.len(),
{
    if a.len() == 0 {
        if b.len() > 0 {
            assert(b.contains(b[0]));
        }
        assert(a =~= b);
    } else {
        assert(a.contains(a[0]));
        let j = choose|j: int| 0 <= j < b.len() && b[j] == a[0];
        assert(b.contains(b[0]));
        let i = choose|i: int| 0 <= i < a.len() && a[i] == b[0];
        if i > 0 {
            assert(pair_lt(a[0], a[i]));
            if j > 0 {
                assert(pair_lt(b[0], b[j]));
                lemma_pair_asymmetric(a[0], a[i]);
            }
        }
        assert(a[0] == b[0]);
        let a1 = a.drop_first();
        let b1 = b.drop_first();
        assert forall|e: Pair| a1.contains(e) <==> b1.contains(e) by {
            if a1.contains(e) {
                let k = choose|k: int| 0 <= k < a1.len() && a1[k] == e;
                assert(a[k + 1] == e);
                assert(pair_lt(a[0], a[k + 1]));
                lemma_pair_asymmetric(a[0], e);
                assert(a.contains(e));
                let m = choose|m: int| 0 <= m < b.len() && b[m] == e;
                assert(b1[m - 1] == e);
            }
            if b1.contains(e) {
                let k = choose|k: int| 0 <= k < b1.len() && b1[k] == e;
                assert(b[k + 1] == e);
                assert(pair_lt(b[0], b[k + 1]));
                lemma_pair_asymmetric(b[0], e);
                assert(b.contains(e));
                let m = choose|m: int| 0 <= m < a.len() && a[m] == e;
                assert(a1[m - 1] == e);
            }
        }
        assert(sorted(a1)) by {
            assert forall|x: int, y: int| 0 <= x < y < a1.len() implies pair_lt(
                #[trigger] a1[x],
                #[trigger] a1[y],
            ) by {
                assert(pair_lt(a[x + 1], a[y + 1]));
            }
        }
        assert(sorted(b1)) by {
            assert forall|x: int, y: int| 0 <= x < y < b1.len() implies pair_lt(
                #[trigger] b1[x],
                #[trigger] b1[y],
            ) by {
                assert(pair_lt(b[x + 1], b[y + 1]));
            }
        }
        lemma_sorted_same_pairs(a1, b1);
        assert(a =~= seq![a[0]] + a1);
        assert(b =~= seq![b[0]] + b1);
    }
}

impl Db {
    /// Two databases that hold the same pairs hold them in the same order.
    pub proof fn lemma_same_set(&self, other: &Db)
        requires
            self.wf(),
            other.wf(),
            self.set() == other.set(),
        ensures
            self@ == other@,
    {
        assert forall|e: Pair| self@.contains(e) <==> other@.contains(e) by {
            assert(self.set().contains(e) == self@.contains(e));
            assert(other.set().contains(e) == other@.contains(e));
        }
        lemma_sorted_same_pairs(self@, other@);
    }
}

/// Keeping the first pair of every run keeps only pairs of the sequence.
pub proof fn lemma_first_of_runs_subset(s: Seq<Pair>, e: Pair)
    requires
        first_of_runs(s).contains(e),
    ensures
        s.contains(e),
    decreases s.len(),
{
    if s.len() > 0 {
        let rest = first_of_runs(s.drop_last());
        let i = choose|i: int| 0 <= i < first_of_runs(s).len() && first_of_runs(s)[i] == e;
        if i < rest.len() && first_of_runs(s)[i] == rest[i] {
            assert(rest.contains(e));
            lemma_first_of_runs_subset(s.drop_last(), e);
            let j = choose|j: int| 0 <= j < s.drop_last().len() && s.drop_last()[j] == e;
            assert(s[j] == e);
        } else {
            assert(s[s.len() - 1] == e);
        }
    }
}

/// A scan yields only pairs that are stored.
pub proof fn lemma_scan_subset(
    s: Seq<Pair>,
    lower: Seq<u8>,
    upper: Seq<u8>,
    skip_duplicates: bool,
    ascending: bool,
    e: Pair,
)
    requires
        spec_scan(s, lower, upper, skip_duplicates, ascending).contains(e),
    ensures
        s.contains(e),
{
    let pred = |x: Pair| in_range(x, lower, upper);
    let hits = s.filter(pred);
    let ordered = if ascending {
        hits
    } else {
        hits.reverse()
    };
    if skip_duplicates {
        lemma_first_of_runs_subset(ordered, e);
    }
    assert(ordered.contains(e));
    let i = choose|i: int| 0 <= i < ordered.len() && ordered[i] == e;
    if !ascending {
        assert(hits[hits.len() - 1 - i] == e);
    }
    assert(hits.contains(e));
    s.lemma_filter_contains_rev(pred, e);
}

/// The pairs in range of an ascending sequence ascend.
pub proof fn lemma_in_range_sorted(s: Seq<Pair>, lower: Seq<u8>, upper: Seq<u8>)
    requires
        sorted(s),
    ensures
        sorted(s.filter(|e: Pair| in_range(e, lower, upper))),
    decreases s.len(),
{
    let pred = |e: Pair| in_range(e, lower, upper);
    reveal(Seq::filter);
    if s.len() > 0 {
        let rest = s.drop_last();
        let kept = rest.filter(pred);
        assert forall|i: int, j: int| 0 <= i < j < rest.len() implies pair_lt(
            #[trigger] rest[i],
            #[trigger] rest[j],
        ) by {
            assert(rest[i] == s[i] && rest[j] == s[j]);
        }
        lemma_in_range_sorted(rest, lower, upper);
        if pred(s.last()) {
            let all = kept.push(s.last());
            assert forall|i: int, j: int| 0 <= i < j < all.len() implies pair_lt(
                #[trigger] all[i],
                #[trigger] all[j],
            ) by {
                if j < kept.len() {
                    assert(all[i] == kept[i] && all[j] == kept[j]);
                } else {
                    assert(kept.contains(kept[i]));
                    rest.lemma_filter_contains_rev(pred, kept[i]);
                    let u = choose|u: int| 0 <= u < rest.len() && rest[u] == kept[i];
                    assert(pair_lt(s[u], s[s.len() - 1]));
                }
            }
        }
    }
}

/// A scan from a key to the same key begins with the least value that
/// is stored under the key.
pub proof fn lemma_scan_first(s: Seq<Pair>, key: Seq<u8>, v: Seq<u8>)
    requires
        sorted(s),
        s.contains((key, v)),
        forall|w: Seq<u8>| s.contains((key, w)) ==> lex_le(v, w),
    ensures
        spec_scan(s, key, key, false, true).len() > 0,
        spec_scan(s, key, key, false, true)[0] == (key, v),
{
    let hits = spec_scan(s, key, key, false, true);
    lemma_scan_point(s, key, (key, v));
    let i = choose|i: int| 0 <= i < hits.len() && hits[i] == (key, v);
    if i > 0 {
        lemma_in_range_sorted(s, key, key);
        assert(pair_lt(hits[0], hits[i]));
        assert(hits.contains(hits[0]));
        lemma_scan_point(s, key, hits[0]);
        let least = hits[0].1;
        assert(hits[0] == (key, least));
        assert(lex_le(v, least));
        if lex_lt(key, key) {
            lemma_lex_asymmetric(key, key);
        }
        if lex_lt(least, v) {
            lemma_lex_asymmetric(least, v);
        }
    }
}

/// A scan from a key to the same key yields something exactly when a
/// value is stored under the key.
pub proof fn lemma_scan_some(s: Seq<Pair>, key: Seq<u8>)
    ensures
        spec_scan(s, key, key, false, true).len() > 0 <==> exists|i: int|
            0 <= i < s.len() && (#[trigger] s[i]).0 == key,
{
    let hits = spec_scan(s, key, key, false, true);
    if hits.len() > 0 {
        assert(hits.contains(hits[0]));
        lemma_scan_point(s, key, hits[0]);
        let i = choose|i: int| 0 <= i < s.len() && s[i] == hits[0];
        assert(s[i].0 == key);
    }
    if exists|i: int| 0 <= i < s.len() && (#[trigger] s[i]).0 == key {
        let i = choose|i: int| 0 <= i < s.len() && (#[trigger] s[i]).0 == key;
        assert(s.contains(s[i]));
        lemma_scan_point(s, key, s[i]);
    }
}

} // verus!
