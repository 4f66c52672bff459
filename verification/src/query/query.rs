use crate::collection::IsarCollection;
use crate::object::data_type::DataType;
use crate::object::property::Property;
use crate::error::IsarError;
use crate::key::{lemma_key_of, IntKey};
use crate::instance::IsarInstance;
use crate::query::filter::{
    evaluate_filter, filter_fits, filter_matches, filter_ready, lemma_filter_fits,
    spec_filter_fits, Filter,
};
use crate::query::id_where_clause::{accepted, id_of, ids_of, keys_sound, seen_after, yielded};
use crate::query::index_where_clause::object_at;
use crate::query::result_ids::ResultIds;
use crate::query::sort::{
    distinct_entries, distinct_seq, keys_fit, lemma_distinct_seq, lemma_sorted_distinct,
    lemma_sorted_same_pairs, sort_entries, sorted_seq, SortKey,
};
use crate::query::where_clause::WhereClause;
use crate::store::{lemma_scan_subset, pairs_of, Entry, Pair};
use crate::txn::{CollectionData, IsarTxn, TxnData};
use vstd::prelude::*;

verus! {

/// Whether no id occurs twice among the pairs.
pub open spec fn distinct_ids(s: Seq<Pair>) -> bool {
    forall|i: int, j: int| 0 <= i < j < s.len() ==> id_of(#[trigger] s[i]) != id_of(#[trigger] s[j])
}

/// What the accepted pairs are: pairs of the sequence, with ids that are
/// new, each id once.
pub proof fn lemma_accepted(s: Seq<Pair>, seen: Set<i64>)
    ensures
        distinct_ids(accepted(s, seen)),
        forall|e: Pair| #[trigger] accepted(s, seen).contains(e) ==> s.contains(e) && !seen.contains(id_of(e)),
        forall|id: i64| #[trigger] ids_of(accepted(s, seen)).contains(id) ==> ids_of(s).contains(id),
    decreases s.len(),
{
    let out = accepted(s, seen);
    if s.len() > 0 {
        let head = s.drop_last();
        let rest = accepted(head, seen);
        lemma_accepted(head, seen);
        assert forall|e: Pair| #[trigger] out.contains(e) implies s.contains(e) && !seen.contains(
            id_of(e),
        ) by {
            let i = choose|i: int| 0 <= i < out.len() && out[i] == e;
            if i < rest.len() {
                assert(rest[i] == e);
                assert(rest.contains(e));
                let j = choose|j: int| 0 <= j < head.len() && head[j] == e;
                assert(s[j] == e);
            } else {
                assert(s[s.len() - 1] == e);
            }
        }
        assert forall|id: i64| #[trigger] ids_of(out).contains(id) implies ids_of(s).contains(id) by {
            let i = choose|i: int| 0 <= i < out.len() && id_of(#[trigger] out[i]) == id;
            assert(out.contains(out[i]));
            let j = choose|j: int| 0 <= j < s.len() && s[j] == out[i];
            assert(id_of(s[j]) == id);
        }
        assert forall|i: int, j: int| 0 <= i < j < out.len() implies id_of(#[trigger] out[i])
            != id_of(#[trigger] out[j]) by {
            if j < rest.len() {
                assert(out[i] == rest[i] && out[j] == rest[j]);
            } else {
                assert(out[i] == rest[i]);
                assert(ids_of(rest).contains(id_of(rest[i])));
                assert(ids_of(head).contains(id_of(rest[i])));
            }
        }
    } else {
        assert forall|id: i64| #[trigger] ids_of(out).contains(id) implies ids_of(s).contains(id) by {
            let i = choose|i: int| 0 <= i < out.len() && id_of(#[trigger] out[i]) == id;
        }
    }
}

/// Every id of the sequence is accepted, unless it was seen before.
pub proof fn lemma_accepted_complete(s: Seq<Pair>, seen: Set<i64>, e: Pair)
    requires
        s.contains(e),
    ensures
        seen.contains(id_of(e)) || ids_of(accepted(s, seen)).contains(id_of(e)),
    decreases s.len(),
{
    let head = s.drop_last();
    let rest = accepted(head, seen);
    let out = accepted(s, seen);
    let id = id_of(e);
    let i = choose|i: int| 0 <= i < s.len() && s[i] == e;
    assert forall|x: i64| ids_of(rest).contains(x) implies ids_of(out).contains(x) by {
        let k = choose|k: int| 0 <= k < rest.len() && id_of(#[trigger] rest[k]) == x;
        assert(out[k] == rest[k]);
    }
    if i < s.len() - 1 {
        assert(head[i] == e);
        lemma_accepted_complete(head, seen, e);
    } else if !seen.contains(id) {
        if ids_of(head).contains(id) {
            let k = choose|k: int| 0 <= k < head.len() && id_of(#[trigger] head[k]) == id;
            assert(head.contains(head[k]));
            lemma_accepted_complete(head, seen, head[k]);
        } else {
            assert(out[out.len() - 1] == e);
            assert(id_of(out[out.len() - 1]) == id);
        }
    }
}

/// A query: scans of a collection, one after the other, a filter on what
/// they visit, and the window of the matches that is handed out.
pub struct Query {
    pub col_id: u16,
    pub where_clauses: Vec<WhereClause>,
    pub filter: Option<Filter>,
    pub sort: Vec<SortKey>,
    pub distinct: Vec<Property>,
    pub offset: usize,
    pub limit: usize,
}

impl Query {
    /// Whether the scans may visit an object more than once: two of them
    /// overlap, or one of them yields repeats by itself.
    pub open spec fn needs_dedup(&self) -> bool {
        ||| exists|i: int, j: int|
            0 <= i < j < self.where_clauses@.len() && (#[trigger] self.where_clauses@[i]).spec_overlapping(
                #[trigger] &self.where_clauses@[j],
            )
        ||| exists|i: int|
            0 <= i < self.where_clauses@.len() && (#[trigger] self.where_clauses@[i]).spec_has_duplicates()
    }

    /// The ids kept after the first `n` scans.
    pub open spec fn seen_upto(&self, cd: &CollectionData, n: int) -> Set<i64>
        decreases n,
    {
        if n <= 0 {
            Set::empty()
        } else {
            seen_after(
                self.where_clauses@[n - 1].candidates(cd),
                self.needs_dedup(),
                self.seen_upto(cd, n - 1),
            )
        }
    }

    /// What the first `n` scans yield, one after the other: everything
    /// they visit, or each object once where repeats are possible.
    pub open spec fn gathered(&self, cd: &CollectionData, n: int) -> Seq<Pair>
        decreases n,
    {
        if n <= 0 {
            Seq::empty()
        } else {
            self.gathered(cd, n - 1) + yielded(
                self.where_clauses@[n - 1].candidates(cd),
                self.needs_dedup(),
                self.seen_upto(cd, n - 1),
            )
        }
    }

    /// Whether the filter, if there is one, matches the stored pair.
    pub open spec fn passes(&self, data: &TxnData, e: Pair) -> bool {
        match self.filter {
            Some(f) => filter_matches(&f, data, id_of(e), e.1),
            None => true,
        }
    }

    /// Of the pairs, those that pass the filter, in their order.
    pub open spec fn kept(&self, data: &TxnData, s: Seq<Pair>) -> Seq<Pair>
        decreases s.len(),
    {
        if s.len() == 0 {
            Seq::empty()
        } else if self.passes(data, s.last()) {
            self.kept(data, s.drop_last()).push(s.last())
        } else {
            self.kept(data, s.drop_last())
        }
    }

    /// Of the pairs, the window from `offset` on, `limit` long at most.
    pub open spec fn window(&self, s: Seq<Pair>) -> Seq<Pair> {
        let from = if self.offset <= s.len() {
            self.offset as int
        } else {
            s.len() as int
        };
        let to = if s.len() - from <= self.limit {
            s.len() as int
        } else {
            from + self.limit
        };
        s.subrange(from, to)
    }

    /// The matches before the window is cut: what the scans yield and the
    /// filter passes, in the order of the sort keys where there are any,
    /// and only the first of every object that the distinct properties do
    /// not tell apart.
    pub open spec fn matches(&self, data: &TxnData) -> Seq<Pair> {
        let cd = data.cols@[self.col_id as int];
        let kept = self.kept(data, self.gathered(&cd, self.where_clauses@.len() as int));
        let ordered = if self.sort@.len() > 0 {
            sorted_seq(self.sort@, kept)
        } else {
            kept
        };
        distinct_seq(self.distinct@, ordered)
    }

    /// What the query finds, as pairs of id key and bytes.
    pub open spec fn spec_result(&self, data: &TxnData) -> Seq<Pair> {
        self.window(self.matches(data))
    }

    /// Whether the query can run on the stored state: its collection is
    /// there, its scans fit the collection, and its filter can be
    /// evaluated on every stored object.
    pub open spec fn ready(&self, data: &TxnData) -> bool {
        &&& data.wf()
        &&& (self.col_id as int) < data.cols@.len()
        &&& forall|i: int|
            0 <= i < self.where_clauses@.len() ==> (#[trigger] self.where_clauses@[i]).fits(
                &data.cols@[self.col_id as int],
            )
        &&& self.filter matches Some(f) ==> forall|e: Pair| #[trigger]
            data.cols@[self.col_id as int].data@.contains(e) ==> filter_ready(&f, data, e.1)
        &&& forall|e: Pair| #[trigger]
            data.cols@[self.col_id as int].data@.contains(e) ==> keys_fit(self.sort@, e.1)
        &&& forall|e: Pair, j: int|
            0 <= j < self.distinct@.len() && #[trigger] data.cols@[self.col_id as int].data@.contains(
                e,
            ) ==> (#[trigger] self.distinct@[j]).readable(e.1)
    }

    /// Whether the sort key suits the collection: its property is a slot
    /// of the layout, of a type by which objects can be ordered.
    pub open spec fn key_suits(col: &IsarCollection, key: &SortKey) -> bool {
        &&& key.property.data_type.spec_is_static() || key.property.data_type == DataType::String
        &&& col.object_info.properties@.contains(key.property)
    }

    /// Whether the query suits the collections: its collection is among
    /// them; every index that it scans is an index of that collection;
    /// its filter suits the collection; and it sorts and tells apart by
    /// slots of the collection's layout.
    pub open spec fn spec_fits(&self, cols: Seq<IsarCollection>) -> bool {
        &&& (self.col_id as int) < cols.len()
        &&& forall|i: int|
            0 <= i < self.where_clauses@.len() ==> (
            #[trigger] self.where_clauses@[i] matches WhereClause::Index(wc) ==> wc.index_index
                < cols[self.col_id as int].indexes@.len())
        &&& self.filter matches Some(f) ==> spec_filter_fits(&f, cols, self.col_id as int)
        &&& forall|i: int|
            0 <= i < self.sort@.len() ==> Self::key_suits(
                &cols[self.col_id as int],
                #[trigger] &self.sort@[i],
            )
        &&& forall|j: int|
            0 <= j < self.distinct@.len() ==> cols[self.col_id as int].object_info.properties@.contains(
                #[trigger] self.distinct@[j],
            )
    }

    /// Whether the query suits the collections of the instance. A query
    /// that does can run on every state that holds them in good order.
    pub fn fits(&self, instance: &IsarInstance) -> (r: bool)
        ensures
            r == self.spec_fits(instance.collections@),
    {
        let cols = &instance.collections;
        let at = self.col_id as usize;
        if at >= cols.len() {
            return false;
        }
        let col = &cols[at];
        let mut i: usize = 0;
        while i < self.where_clauses.len()
            invariant
                i <= self.where_clauses.len(),
                at == self.col_id,
                at < cols.len(),
                *cols == instance.collections,
                *col == cols@[at as int],
                forall|k: int|
                    0 <= k < i ==> (#[trigger] self.where_clauses@[k] matches WhereClause::Index(wc)
                        ==> wc.index_index < col.indexes@.len()),
            decreases self.where_clauses.len() - i,
        {
            match &self.where_clauses[i] {
                WhereClause::Index(wc) => {
                    if wc.index_index >= col.indexes.len() {
                        assert(self.where_clauses@[i as int] matches WhereClause::Index(w)
                            && w.index_index >= col.indexes@.len());
                        return false;
                    }
                },
                WhereClause::Id(_) => {},
            }
            i += 1;
        }
        match &self.filter {
            Some(f) => {
                if !filter_fits(f, cols, at) {
                    return false;
                }
            },
            None => {},
        }
        let mut s: usize = 0;
        while s < self.sort.len()
            invariant
                s <= self.sort.len(),
                at == self.col_id,
                at < cols.len(),
                *cols == instance.collections,
                *col == cols@[at as int],
                forall|k: int| 0 <= k < s ==> Self::key_suits(col, #[trigger] &self.sort@[k]),
            decreases self.sort.len() - s,
        {
            let p = self.sort[s].property;
            let ordered = p.data_type.is_static() || p.data_type == DataType::String;
            if !ordered || !col.object_info.has_property(p) {
                assert(!Self::key_suits(col, &self.sort@[s as int]));
                return false;
            }
            s += 1;
        }
        let mut d: usize = 0;
        while d < self.distinct.len()
            invariant
                d <= self.distinct.len(),
                at == self.col_id,
                at < cols.len(),
                *cols == instance.collections,
                *col == cols@[at as int],
                forall|k: int|
                    0 <= k < d ==> col.object_info.properties@.contains(#[trigger] self.distinct@[k]),
            decreases self.distinct.len() - d,
        {
            if !col.object_info.has_property(self.distinct[d]) {
                assert(!col.object_info.properties@.contains(self.distinct@[d as int]));
                return false;
            }
            d += 1;
        }
        true
    }

    /// A query that suits the collections of an instance can run on every
    /// state that holds them in good order.
    pub proof fn lemma_fits_ready(&self, instance: &IsarInstance, data: &TxnData)
        requires
            instance.wf(),
            instance.holds(data),
            self.spec_fits(instance.collections@),
        ensures
            self.ready(data),
    {
        let cols = instance.collections@;
        let at = self.col_id as int;
        let col = cols[at];
        let cd = data.cols@[at];
        assert(col.stored_in(data));
        assert forall|c: int| 0 <= c < cols.len() implies (#[trigger] cols[c]).id == c
            && cols[c].stored_in(data) by {}
        assert forall|i: int| 0 <= i < self.where_clauses@.len() implies (
        #[trigger] self.where_clauses@[i]).fits(&cd) by {}
        assert forall|e: Pair| #[trigger] cd.data@.contains(e) implies keys_fit(self.sort@, e.1) && (
        self.filter matches Some(f) ==> filter_ready(&f, data, e.1)) && (forall|j: int|
            0 <= j < self.distinct@.len() ==> (#[trigger] self.distinct@[j]).readable(e.1)) by {
            assert(col.object_info.spec_valid(e.1));
            assert forall|i: int| 0 <= i < self.sort@.len() implies (#[trigger] self.sort@[i]).fits(
                e.1,
            ) by {
                assert(Self::key_suits(&col, &self.sort@[i]));
                col.object_info.lemma_slot_readable(e.1, self.sort@[i].property);
            }
            if let Some(f) = self.filter {
                lemma_filter_fits(&f, cols, at, data, e.1);
            }
            assert forall|j: int| 0 <= j < self.distinct@.len() implies (
            #[trigger] self.distinct@[j]).readable(e.1) by {
                col.object_info.lemma_slot_readable(e.1, self.distinct@[j]);
            }
        }
    }

    /// Whether no scan meets anything malformed.
    pub open spec fn sound(&self, data: &TxnData) -> bool {
        forall|i: int|
            0 <= i < self.where_clauses@.len() ==> (#[trigger] self.where_clauses@[i]).sound(
                &data.cols@[self.col_id as int],
            )
    }

    pub fn new(
        col_id: u16,
        where_clauses: Vec<WhereClause>,
        filter: Option<Filter>,
        sort: Vec<SortKey>,
        distinct: Vec<Property>,
        offset: usize,
        limit: usize,
    ) -> (q: Query)
        ensures
            q.col_id == col_id,
            q.where_clauses == where_clauses,
            q.filter == filter,
            q.sort == sort,
            q.distinct == distinct,
            q.offset == offset,
            q.limit == limit,
    {
        Query { col_id, where_clauses, filter, sort, distinct, offset, limit }
    }

    /// What the query finds is stored, under well-formed id keys.
    pub proof fn lemma_result_stored(&self, data: &TxnData)
        requires
            self.ready(data),
            self.sound(data),
        ensures
            forall|e: Pair| #[trigger]
                self.matches(data).contains(e) ==> data.cols@[self.col_id as int].data@.contains(e)
                    && e.0.len() == 10,
            forall|k: int|
                0 <= k < self.spec_result(data).len() ==> data.cols@[self.col_id as int].data@.contains(
                    #[trigger] self.spec_result(data)[k],
                ) && self.spec_result(data)[k].0.len() == 10,
    {
        let cd = data.cols@[self.col_id as int];
        let n = self.where_clauses@.len() as int;
        self.lemma_gathered_stored(data, n);
        let all = self.gathered(&cd, n);
        self.lemma_kept(data, all);
        let kept = self.kept(data, all);
        let ordered = if self.sort@.len() > 0 {
            sorted_seq(self.sort@, kept)
        } else {
            kept
        };
        lemma_sorted_same_pairs(self.sort@, kept);
        lemma_distinct_seq(self.distinct@, ordered);
        let found = self.matches(data);
        assert forall|e: Pair| #[trigger] found.contains(e) implies cd.data@.contains(e) && e.0.len()
            == 10 by {
            assert(ordered.contains(e));
            assert(kept.contains(e));
            assert(all.contains(e));
        }
        let out = self.spec_result(data);
        assert forall|k: int| 0 <= k < out.len() implies cd.data@.contains(#[trigger] out[k])
            && out[k].0.len() == 10 by {
            let from = if self.offset <= found.len() {
                self.offset as int
            } else {
                found.len() as int
            };
            assert(out[k] == found[from + k]);
            assert(found.contains(found[from + k]));
        }
    }

    /// Whether ids have to be kept while the query runs.
    pub fn uses_result_ids(&self) -> (r: bool)
        ensures
            r == self.needs_dedup(),
    {
        let n = self.where_clauses.len();
        let mut i: usize = 0;
        while i < n
            invariant
                i <= n,
                n == self.where_clauses@.len(),
                forall|a: int, b: int|
                    0 <= a < i && a < b < n ==> !(#[trigger] self.where_clauses@[a]).spec_overlapping(
                        #[trigger] &self.where_clauses@[b],
                    ),
                forall|a: int| 0 <= a < i ==> !(#[trigger] self.where_clauses@[a]).spec_has_duplicates(),
            decreases n - i,
        {
            if self.where_clauses[i].has_duplicates() {
                return true;
            }
            let mut j: usize = i + 1;
            while j < n
                invariant
                    i < j <= n,
                    n == self.where_clauses@.len(),
                    forall|b: int|
                        i < b < j ==> !self.where_clauses@[i as int].spec_overlapping(
                            #[trigger] &self.where_clauses@[b],
                        ),
                decreases n - j,
            {
                if self.where_clauses[i].is_overlapping(&self.where_clauses[j]) {
                    return true;
                }
                j += 1;
            }
            i += 1;
        }
        false
    }

    /// What the scans yield is stored, under well-formed id keys.
    pub proof fn lemma_gathered_stored(&self, data: &TxnData, n: int)
        requires
            self.ready(data),
            self.sound(data),
            0 <= n <= self.where_clauses@.len(),
        ensures
            forall|e: Pair| #[trigger]
                self.gathered(&data.cols@[self.col_id as int], n).contains(e) ==> data.cols@[self.col_id as int].data@.contains(
                    e,
                ) && e.0.len() == 10,
        decreases n,
    {
        let cd = data.cols@[self.col_id as int];
        if n > 0 {
            self.lemma_gathered_stored(data, n - 1);
            let wc = self.where_clauses@[n - 1];
            let cands = wc.candidates(&cd);
            let seen = self.seen_upto(&cd, n - 1);
            let part = yielded(cands, self.needs_dedup(), seen);
            let before = self.gathered(&cd, n - 1);
            lemma_accepted(cands, seen);
            assert(wc.sound(&cd));
            assert forall|e: Pair| #[trigger] self.gathered(&cd, n).contains(e) implies cd.data@.contains(
                e,
            ) && e.0.len() == 10 by {
                let i = choose|i: int| 0 <= i < (before + part).len() && (before + part)[i] == e;
                if i < before.len() {
                    assert(before[i] == e);
                    assert(before.contains(e));
                } else {
                    assert(part[i - before.len()] == e);
                    assert(part.contains(e));
                    assert(cands.contains(e));
                    let k = choose|k: int| 0 <= k < cands.len() && cands[k] == e;
                    Self::lemma_candidate_stored(&wc, &cd, e);
                }
            }
        }
    }

    /// What a sound scan visits is stored, under a well-formed id key.
    pub proof fn lemma_candidate_stored(wc: &WhereClause, cd: &CollectionData, e: Pair)
        requires
            wc.sound(cd),
            wc.candidates(cd).contains(e),
        ensures
            cd.data@.contains(e),
            e.0.len() == 10,
    {
        let cands = wc.candidates(cd);
        let k = choose|k: int| 0 <= k < cands.len() && cands[k] == e;
        assert(cands[k].0.len() == 10);
        match wc {
            WhereClause::Id(c) => {
                lemma_scan_subset(
                    cd.data@,
                    crate::key::spec_int_key(c.prefix, c.lower),
                    crate::key::spec_int_key(c.prefix, c.upper),
                    false,
                    c.ascending,
                    e,
                );
            },
            WhereClause::Index(c) => {
                let hits = c.hits(cd.indexes@[c.index_index as int]@);
                Self::lemma_picked_stored(c, hits, &cd.data, e);
            },
        }
    }

    proof fn lemma_picked_stored(
        c: &crate::query::index_where_clause::IndexWhereClause,
        hits: Seq<Pair>,
        data: &crate::store::Db,
        e: Pair,
    )
        requires
            c.hits_sound(hits, data),
            c.picked(hits, data@).contains(e),
        ensures
            data@.contains(e),
        decreases hits.len(),
    {
        if hits.len() > 0 {
            let rest = c.picked(hits.drop_last(), data@);
            let out = c.picked(hits, data@);
            let i = choose|i: int| 0 <= i < out.len() && out[i] == e;
            assert(c.hits_sound(hits.drop_last(), data)) by {
                assert forall|k: int|
                    0 <= k < hits.drop_last().len() && c.key_in(
                        (#[trigger] hits.drop_last()[k]).0,
                    ) implies data.has_key(hits.drop_last()[k].1) by {
                    assert(hits[k] == hits.drop_last()[k]);
                }
            }
            if i < rest.len() {
                assert(rest[i] == e);
                assert(rest.contains(e));
                Self::lemma_picked_stored(c, hits.drop_last(), data, e);
            } else {
                let hit = hits.last();
                assert(hits[hits.len() - 1] == hit);
                assert(data.has_key(hit.1));
                data.lemma_has_key(hit.1);
            }
        }
    }

    /// Where repeats are possible, the scans yield each object once.
    pub proof fn lemma_gathered_distinct(&self, cd: &CollectionData, n: int)
        requires
            self.needs_dedup(),
            0 <= n <= self.where_clauses@.len(),
        ensures
            distinct_ids(self.gathered(cd, n)),
            forall|id: i64| #[trigger]
                ids_of(self.gathered(cd, n)).contains(id) ==> self.seen_upto(cd, n).contains(id),
        decreases n,
    {
        if n > 0 {
            self.lemma_gathered_distinct(cd, n - 1);
            let cands = self.where_clauses@[n - 1].candidates(cd);
            let seen = self.seen_upto(cd, n - 1);
            let before = self.gathered(cd, n - 1);
            let part = accepted(cands, seen);
            let out = self.gathered(cd, n);
            lemma_accepted(cands, seen);
            assert forall|i: int, j: int| 0 <= i < j < out.len() implies id_of(#[trigger] out[i])
                != id_of(#[trigger] out[j]) by {
                if j < before.len() {
                    assert(out[i] == before[i] && out[j] == before[j]);
                } else if i >= before.len() {
                    assert(out[i] == part[i - before.len()] && out[j] == part[j - before.len()]);
                } else {
                    assert(out[i] == before[i]);
                    assert(out[j] == part[j - before.len()]);
                    assert(ids_of(before).contains(id_of(before[i])));
                    assert(part.contains(part[j - before.len()]));
                }
            }
            assert forall|id: i64| #[trigger] ids_of(out).contains(id) implies self.seen_upto(
                cd,
                n,
            ).contains(id) by {
                let i = choose|i: int| 0 <= i < out.len() && id_of(#[trigger] out[i]) == id;
                if i < before.len() {
                    assert(out[i] == before[i]);
                    assert(ids_of(before).contains(id));
                } else {
                    assert(out[i] == part[i - before.len()]);
                    assert(ids_of(part).contains(id));
                    assert(ids_of(cands).contains(id));
                }
            }
        } else {
            assert forall|id: i64| #[trigger]
                ids_of(self.gathered(cd, n)).contains(id) implies self.seen_upto(cd, n).contains(
                id,
            ) by {
                let i = choose|i: int|
                    0 <= i < self.gathered(cd, n).len() && id_of(#[trigger] self.gathered(cd, n)[i])
                        == id;
            }
        }
    }

    /// Filtering keeps pairs of the sequence, and keeps ids apart.
    pub proof fn lemma_kept(&self, data: &TxnData, s: Seq<Pair>)
        ensures
            forall|e: Pair| #[trigger] self.kept(data, s).contains(e) ==> s.contains(e) && self.passes(data, e),
            distinct_ids(s) ==> distinct_ids(self.kept(data, s)),
        decreases s.len(),
    {
        let out = self.kept(data, s);
        if s.len() > 0 {
            let head = s.drop_last();
            let rest = self.kept(data, head);
            self.lemma_kept(data, head);
            assert forall|e: Pair| #[trigger] out.contains(e) implies s.contains(e) && self.passes(
                data,
                e,
            ) by {
                let i = choose|i: int| 0 <= i < out.len() && out[i] == e;
                if i < rest.len() {
                    assert(rest[i] == e);
                    assert(rest.contains(e));
                    let j = choose|j: int| 0 <= j < head.len() && head[j] == e;
                    assert(s[j] == e);
                } else {
                    assert(s[s.len() - 1] == e);
                }
            }
            if distinct_ids(s) {
                assert(distinct_ids(head)) by {
                    assert forall|i: int, j: int| 0 <= i < j < head.len() implies id_of(
                        #[trigger] head[i],
                    ) != id_of(#[trigger] head[j]) by {
                        assert(head[i] == s[i] && head[j] == s[j]);
                    }
                }
                assert forall|i: int, j: int| 0 <= i < j < out.len() implies id_of(
                    #[trigger] out[i],
                ) != id_of(#[trigger] out[j]) by {
                    if j < rest.len() {
                        assert(out[i] == rest[i] && out[j] == rest[j]);
                    } else {
                        assert(out[i] == rest[i]);
                        assert(rest.contains(rest[i]));
                        let k = choose|k: int| 0 <= k < head.len() && head[k] == rest[i];
                        assert(s[k] == head[k]);
                        assert(out[j] == s[s.len() - 1]);
                    }
                }
            }
        }
    }

    /// Whether one of the first `n` scans visits the pair.
    pub open spec fn visited(&self, cd: &CollectionData, n: int, e: Pair) -> bool {
        exists|i: int| 0 <= i < n && (#[trigger] self.where_clauses@[i]).candidates(cd).contains(e)
    }

    /// What the scans yield, some scan visits.
    pub proof fn lemma_gathered_visited(&self, cd: &CollectionData, n: int, e: Pair)
        requires
            0 <= n <= self.where_clauses@.len(),
            self.gathered(cd, n).contains(e),
        ensures
            self.visited(cd, n, e),
        decreases n,
    {
        if n > 0 {
            let cands = self.where_clauses@[n - 1].candidates(cd);
            let seen = self.seen_upto(cd, n - 1);
            let part = yielded(cands, self.needs_dedup(), seen);
            let before = self.gathered(cd, n - 1);
            let i = choose|i: int| 0 <= i < (before + part).len() && (before + part)[i] == e;
            if i < before.len() {
                assert(before[i] == e);
                self.lemma_gathered_visited(cd, n - 1, e);
                let w = choose|w: int|
                    0 <= w < n - 1 && (#[trigger] self.where_clauses@[w]).candidates(cd).contains(e);
                assert(0 <= w < n && self.where_clauses@[w].candidates(cd).contains(e));
            } else {
                assert(part[i - before.len()] == e);
                assert(part.contains(e));
                lemma_accepted(cands, seen);
                assert(0 <= n - 1 < n && self.where_clauses@[n - 1].candidates(cd).contains(e));
            }
        }
    }

    /// Where ids are kept, every id that was seen was yielded.
    pub proof fn lemma_seen_gathered(&self, cd: &CollectionData, n: int, id: i64)
        requires
            self.needs_dedup(),
            0 <= n <= self.where_clauses@.len(),
            self.seen_upto(cd, n).contains(id),
        ensures
            ids_of(self.gathered(cd, n)).contains(id),
        decreases n,
    {
        if n > 0 {
            let cands = self.where_clauses@[n - 1].candidates(cd);
            let seen = self.seen_upto(cd, n - 1);
            let part = accepted(cands, seen);
            let before = self.gathered(cd, n - 1);
            let out = self.gathered(cd, n);
            if !seen.contains(id) {
                let k = choose|k: int| 0 <= k < cands.len() && id_of(#[trigger] cands[k]) == id;
                assert(cands.contains(cands[k]));
                lemma_accepted_complete(cands, seen, cands[k]);
                let j = choose|j: int| 0 <= j < part.len() && id_of(#[trigger] part[j]) == id;
                assert(out[before.len() + j] == part[j]);
                assert(id_of(out[before.len() + j]) == id);
            } else {
                self.lemma_seen_gathered(cd, n - 1, id);
                let j = choose|j: int| 0 <= j < before.len() && id_of(#[trigger] before[j]) == id;
                assert(out[j] == before[j]);
                assert(id_of(out[j]) == id);
            }
        }
    }

    /// The id of every pair that a scan visits is the id of a pair that
    /// the scans yield.
    pub proof fn lemma_visited_gathered(&self, cd: &CollectionData, n: int, e: Pair)
        requires
            0 <= n <= self.where_clauses@.len(),
            self.visited(cd, n, e),
        ensures
            ids_of(self.gathered(cd, n)).contains(id_of(e)),
            !self.needs_dedup() ==> self.gathered(cd, n).contains(e),
        decreases n,
    {
        let w = choose|w: int|
            0 <= w < n && (#[trigger] self.where_clauses@[w]).candidates(cd).contains(e);
        let cands = self.where_clauses@[n - 1].candidates(cd);
        let seen = self.seen_upto(cd, n - 1);
        let part = yielded(cands, self.needs_dedup(), seen);
        let before = self.gathered(cd, n - 1);
        let out = self.gathered(cd, n);
        if w < n - 1 {
            assert(self.visited(cd, n - 1, e));
            self.lemma_visited_gathered(cd, n - 1, e);
            let j = choose|j: int| 0 <= j < before.len() && id_of(#[trigger] before[j]) == id_of(e);
            assert(out[j] == before[j]);
            assert(id_of(out[j]) == id_of(e));
            if !self.needs_dedup() {
                let k = choose|k: int| 0 <= k < before.len() && before[k] == e;
                assert(out[k] == e);
            }
        } else if self.needs_dedup() {
            lemma_accepted_complete(cands, seen, e);
            if seen.contains(id_of(e)) {
                self.lemma_seen_gathered(cd, n - 1, id_of(e));
                let j = choose|j: int|
                    0 <= j < before.len() && id_of(#[trigger] before[j]) == id_of(e);
                assert(out[j] == before[j]);
                assert(id_of(out[j]) == id_of(e));
            } else {
                let j = choose|j: int| 0 <= j < part.len() && id_of(#[trigger] part[j]) == id_of(e);
                assert(out[before.len() + j] == part[j]);
                assert(id_of(out[before.len() + j]) == id_of(e));
            }
        } else {
            let k = choose|k: int| 0 <= k < cands.len() && cands[k] == e;
            assert(out[before.len() + k] == e);
            assert(id_of(out[before.len() + k]) == id_of(e));
        }
    }

    /// Filtering keeps every pair that passes.
    pub proof fn lemma_kept_complete(&self, data: &TxnData, s: Seq<Pair>, e: Pair)
        requires
            s.contains(e),
            self.passes(data, e),
        ensures
            self.kept(data, s).contains(e),
        decreases s.len(),
    {
        let head = s.drop_last();
        let rest = self.kept(data, head);
        let out = self.kept(data, s);
        let i = choose|i: int| 0 <= i < s.len() && s[i] == e;
        if i < s.len() - 1 {
            assert(head[i] == e);
            self.lemma_kept_complete(data, head, e);
            let k = choose|k: int| 0 <= k < rest.len() && rest[k] == e;
            assert(out[k] == e);
        } else {
            assert(out[out.len() - 1] == e);
        }
    }

    /// A query without a window and without properties to tell objects
    /// apart by finds exactly the stored objects that one of its scans
    /// visits and that pass its filter; and where its scans may visit an
    /// object more than once, it still finds each object once.
    pub proof fn lemma_result_complete(&self, col: &IsarCollection, data: &TxnData, e: Pair)
        requires
            col.id == self.col_id,
            col.stored_in(data),
            self.ready(data),
            self.sound(data),
            self.offset == 0,
            self.matches(data).len() <= self.limit,
            self.distinct@.len() == 0,
        ensures
            self.spec_result(data).contains(e) <==> (self.visited(
                &data.cols@[self.col_id as int],
                self.where_clauses@.len() as int,
                e,
            ) && self.passes(data, e)),
            self.needs_dedup() ==> distinct_ids(self.spec_result(data)),
    {
        let cd = data.cols@[self.col_id as int];
        let n = self.where_clauses@.len() as int;
        let all = self.gathered(&cd, n);
        let kept = self.kept(data, all);
        let found = self.matches(data);
        if self.needs_dedup() {
            self.lemma_result_distinct(data);
        }
        self.lemma_kept(data, all);
        lemma_sorted_same_pairs(self.sort@, kept);
        assert(found.contains(e) <==> kept.contains(e));
        assert(self.spec_result(data) =~= found);
        if kept.contains(e) {
            self.lemma_gathered_visited(&cd, n, e);
        }
        if self.visited(&cd, n, e) && self.passes(data, e) {
            self.lemma_visited_gathered(&cd, n, e);
            let j = choose|j: int| 0 <= j < all.len() && id_of(#[trigger] all[j]) == id_of(e);
            let twin = all[j];
            assert(all.contains(twin));
            self.lemma_gathered_stored(data, n);
            let w = choose|w: int|
                0 <= w < n && (#[trigger] self.where_clauses@[w]).candidates(&cd).contains(e);
            assert(self.where_clauses@[w].sound(&cd));
            Self::lemma_candidate_stored(&self.where_clauses@[w], &cd, e);
            assert(crate::collection::is_id_key(col.id, cd.last_id, e.0));
            assert(crate::collection::is_id_key(col.id, cd.last_id, twin.0));
            let a = choose|a: i64| e.0 == #[trigger] crate::key::spec_int_key(col.id, a) && a <= cd.last_id;
            let b = choose|b: i64|
                twin.0 == #[trigger] crate::key::spec_int_key(col.id, b) && b <= cd.last_id;
            lemma_key_of(IntKey { prefix: col.id, id: a });
            lemma_key_of(IntKey { prefix: col.id, id: b });
            assert(twin.0 == e.0);
            cd.data.lemma_one_value(e.0, e.1, twin.1);
            assert(twin == e);
            self.lemma_kept_complete(data, all, e);
        }
    }

    /// A query whose scans may visit an object more than once still finds
    /// each object at most once.
    pub proof fn lemma_result_distinct(&self, data: &TxnData)
        requires
            self.needs_dedup(),
        ensures
            distinct_ids(self.spec_result(data)),
    {
        let cd = data.cols@[self.col_id as int];
        let all = self.gathered(&cd, self.where_clauses@.len() as int);
        self.lemma_gathered_distinct(&cd, self.where_clauses@.len() as int);
        self.lemma_kept(data, all);
        let kept = self.kept(data, all);
        let ordered = if self.sort@.len() > 0 {
            sorted_seq(self.sort@, kept)
        } else {
            kept
        };
        if self.sort@.len() > 0 {
            lemma_sorted_distinct(self.sort@, kept);
        }
        lemma_distinct_seq(self.distinct@, ordered);
        let found = self.matches(data);
        let out = self.window(found);
        assert forall|i: int, j: int| 0 <= i < j < out.len() implies id_of(#[trigger] out[i])
            != id_of(#[trigger] out[j]) by {
            let from = if self.offset <= found.len() {
                self.offset as int
            } else {
                found.len() as int
            };
            assert(out[i] == found[from + i] && out[j] == found[from + j]);
        }
    }

    /// Runs the query on the stored state.
    pub fn find_all_internal(&self, data: &TxnData) -> (r: Result<Vec<Entry>, IsarError>)
        requires
            self.ready(data),
        ensures
            r is Ok <==> self.sound(data),
            r matches Err(e) ==> e is DbCorrupted,
            r matches Ok(out) ==> pairs_of(out@) == self.spec_result(data),
    {
        let cd = &data.cols[self.col_id as usize];
        let track = self.uses_result_ids();
        let mut result_ids = ResultIds::new(track);
        let mut all: Vec<Entry> = Vec::new();
        let n = self.where_clauses.len();
        let mut i: usize = 0;
        proof {
            assert(pairs_of(all@) =~= self.gathered(cd, 0));
        }
        while i < n
            invariant
                i <= n,
                n == self.where_clauses@.len(),
                self.ready(data),
                *cd == data.cols@[self.col_id as int],
                track == self.needs_dedup(),
                result_ids.tracking() == track,
                result_ids.seen() == self.seen_upto(cd, i as int),
                pairs_of(all@) == self.gathered(cd, i as int),
                forall|k: int| 0 <= k < i ==> (#[trigger] self.where_clauses@[k]).sound(cd),
            decreases n - i,
        {
            let ghost before = pairs_of(all@);
            assert(self.where_clauses@[i as int].fits(cd));
            let part = match self.where_clauses[i].iter(cd, &mut result_ids) {
                Ok(part) => part,
                Err(e) => {
                    assert(!self.where_clauses@[i as int].sound(cd));
                    return Err(e);
                },
            };
            let mut k: usize = 0;
            while k < part.len()
                invariant
                    k <= part.len(),
                    pairs_of(all@) == before + pairs_of(part@).take(k as int),
                decreases part.len() - k,
            {
                let ghost sofar = pairs_of(all@);
                all.push(
                    Entry {
                        key: crate::order::copy_bytes(part[k].key.as_slice()),
                        val: crate::order::copy_bytes(part[k].val.as_slice()),
                    },
                );
                assert(pairs_of(all@) =~= before + pairs_of(part@).take(k + 1)) by {
                    assert(pairs_of(all@) =~= sofar.push(pairs_of(part@)[k as int]));
                }
                k += 1;
            }
            assert(pairs_of(part@).take(k as int) =~= pairs_of(part@));
            i += 1;
        }
        proof {
            self.lemma_gathered_stored(data, n as int);
        }
        let ghost gathered = pairs_of(all@);
        let mut kept: Vec<Entry> = Vec::new();
        let mut j: usize = 0;
        proof {
            assert(pairs_of(kept@) =~= self.kept(data, gathered.take(0)));
        }
        while j < all.len()
            invariant
                j <= all.len(),
                self.ready(data),
                *cd == data.cols@[self.col_id as int],
                gathered == pairs_of(all@),
                forall|e: Pair| #[trigger] gathered.contains(e) ==> cd.data@.contains(e) && e.0.len() == 10,
                pairs_of(kept@) == self.kept(data, gathered.take(j as int)),
            decreases all.len() - j,
        {
            let ghost before = pairs_of(kept@);
            let ghost e = gathered[j as int];
            proof {
                assert(gathered.take(j + 1).drop_last() =~= gathered.take(j as int));
                assert(gathered.take(j + 1).last() == e);
                assert(gathered.contains(e));
                assert(e == all@[j as int].pair());
            }
            let key = IntKey::from_bytes(all[j].key.as_slice()).unwrap();
            proof {
                lemma_key_of(key);
            }
            let pass = match &self.filter {
                Some(f) => evaluate_filter(f, data, key.id, all[j].val.as_slice()),
                None => true,
            };
            assert(pass == self.passes(data, e));
            if pass {
                kept.push(
                    Entry {
                        key: crate::order::copy_bytes(all[j].key.as_slice()),
                        val: crate::order::copy_bytes(all[j].val.as_slice()),
                    },
                );
                assert(pairs_of(kept@) =~= before.push(e));
            }
            j += 1;
        }
        assert(gathered.take(j as int) =~= gathered);
        proof {
            self.lemma_kept(data, gathered);
            assert forall|k: int| 0 <= k < kept@.len() implies keys_fit(
                self.sort@,
                (#[trigger] kept@[k]).val@,
            ) by {
                assert(pairs_of(kept@)[k] == kept@[k].pair());
                assert(pairs_of(kept@).contains(pairs_of(kept@)[k]));
                assert(cd.data@.contains(kept@[k].pair()));
            }
        }
        let ghost kept_pairs = pairs_of(kept@);
        let ordered = if self.sort.len() > 0 {
            sort_entries(kept, &self.sort)
        } else {
            kept
        };
        proof {
            lemma_sorted_same_pairs(self.sort@, kept_pairs);
            assert forall|x: int, j: int|
                0 <= x < ordered@.len() && 0 <= j < self.distinct@.len() implies (
            #[trigger] self.distinct@[j]).readable((#[trigger] ordered@[x]).val@) by {
                assert(pairs_of(ordered@)[x] == ordered@[x].pair());
                assert(pairs_of(ordered@).contains(pairs_of(ordered@)[x]));
                assert(kept_pairs.contains(ordered@[x].pair()));
                assert(cd.data@.contains(ordered@[x].pair()));
            }
        }
        let kept = distinct_entries(ordered, &self.distinct);
        let total = kept.len();
        let from: usize = if self.offset <= total {
            self.offset
        } else {
            total
        };
        let to: usize = if total - from <= self.limit {
            total
        } else {
            from + self.limit
        };
        let mut out: Vec<Entry> = Vec::new();
        let mut w: usize = from;
        while w < to
            invariant
                from <= w <= to,
                to <= kept.len(),
                pairs_of(out@) == pairs_of(kept@).subrange(from as int, w as int),
            decreases to - w,
        {
            let ghost sofar = pairs_of(out@);
            out.push(
                Entry {
                    key: crate::order::copy_bytes(kept[w].key.as_slice()),
                    val: crate::order::copy_bytes(kept[w].val.as_slice()),
                },
            );
            assert(pairs_of(out@) =~= pairs_of(kept@).subrange(from as int, w + 1)) by {
                assert(pairs_of(out@) =~= sofar.push(pairs_of(kept@)[w as int]));
            }
            w += 1;
        }
        Ok(out)
    }

    /// What the query finds: the id and the bytes of every match, in the
    /// order of the scans.
    pub fn find_all(&self, txn: &IsarTxn) -> (r: Result<Vec<(i64, Vec<u8>)>, IsarError>)
        requires
            !txn.is_poisoned() ==> self.ready(&txn.data()),
        ensures
            r is Ok <==> !txn.is_poisoned() && self.sound(&txn.data()),
            r matches Err(e) ==> if txn.is_poisoned() {
                e is TransactionPoisoned
            } else {
                e is DbCorrupted
            },
            r matches Ok(list) ==> {
                let found = self.spec_result(&txn.data());
                &&& list.len() == found.len()
                &&& forall|i: int|
                    0 <= i < list.len() ==> (#[trigger] list[i]).0 == id_of(found[i]) && list[i].1@
                        == found[i].1
            },
    {
        let data = match txn.get_read_txn() {
            Ok(data) => data,
            Err(e) => {
                return Err(e);
            },
        };
        let found = match self.find_all_internal(data) {
            Ok(found) => found,
            Err(e) => {
                return Err(e);
            },
        };
        let ghost model = self.spec_result(data);
        proof {
            self.lemma_result_stored(data);
        }
        let mut list: Vec<(i64, Vec<u8>)> = Vec::new();
        let mut i: usize = 0;
        while i < found.len()
            invariant
                i <= found.len(),
                model == pairs_of(found@),
                forall|k: int| 0 <= k < model.len() ==> (#[trigger] model[k]).0.len() == 10,
                list.len() == i,
                forall|k: int|
                    0 <= k < i ==> (#[trigger] list[k]).0 == id_of(model[k]) && list[k].1@
                        == model[k].1,
            decreases found.len() - i,
        {
            assert(model[i as int] == found@[i as int].pair());
            let key = IntKey::from_bytes(found[i].key.as_slice()).unwrap();
            proof {
                lemma_key_of(key);
            }
            list.push((key.id, crate::order::copy_bytes(found[i].val.as_slice())));
            i += 1;
        }
        Ok(list)
    }

    /// How many objects the query finds.
    pub fn count(&self, txn: &IsarTxn) -> (r: Result<usize, IsarError>)
        requires
            !txn.is_poisoned() ==> self.ready(&txn.data()),
        ensures
            r is Ok <==> !txn.is_poisoned() && self.sound(&txn.data()),
            r matches Ok(n) ==> n == self.spec_result(&txn.data()).len(),
    {
        match self.find_all(txn) {
            Ok(list) => Ok(list.len()),
            Err(e) => Err(e),
        }
    }

    /// Whether `key` is the id key of one of the first `n` pairs.
    pub open spec fn named(found: Seq<Pair>, n: int, key: Seq<u8>) -> bool {
        exists|i: int| 0 <= i < n && (#[trigger] found[i]).0 == key
    }

    /// The ids of the pairs, in their order.
    pub open spec fn found_ids(found: Seq<Pair>) -> Seq<i64> {
        Seq::new(found.len(), |k: int| id_of(found[k]))
    }

    /// Deletes every object that the query finds, as `delete` of the
    /// collection does: with its pairs in every index and the edges that
    /// start or end at it, and nothing else; tells how many objects it
    /// deleted.
    pub fn delete_all(&self, col: &IsarCollection, txn: &mut IsarTxn) -> (r: Result<usize, IsarError>)
        requires
            col.wf(),
            col.id == self.col_id,
            col.ready(old(txn)),
            !old(txn).is_poisoned() ==> self.ready(&old(txn).data()),
        ensures
            col.ready(final(txn)),
            final(txn).is_write() == old(txn).is_write(),
            old(txn).is_poisoned() ==> (r matches Err(e) && e is TransactionPoisoned),
            !old(txn).is_poisoned() && !old(txn).is_write() ==> (r matches Err(e)
                && e is IllegalArgument) && *final(txn) == *old(txn),
            IsarCollection::live(old(txn)) ==> {
                let before = old(txn).data();
                let found = self.spec_result(&before);
                &&& r is Ok <==> self.sound(&before)
                &&& r matches Err(e) ==> e is DbCorrupted && final(txn).is_poisoned()
                &&& r matches Ok(n) ==> {
                    let after = final(txn).data();
                    &&& !final(txn).is_poisoned()
                    &&& n <= found.len()
                    &&& distinct_ids(found) ==> n == found.len()
                    &&& col.frame(&before, &after)
                    &&& after.cols@[col.id as int].data.set() == before.cols@[col.id as int].data.set().filter(
                        |e: Pair| !Self::named(found, found.len() as int, e.0),
                    )
                    &&& forall|k: int|
                        0 <= k < found.len() ==> col.unlinked(
                            &after.links,
                            id_of(#[trigger] found[k]),
                        )
                    &&& after.links.set() == before.links.set().filter(
                        |e: Pair|
                            !col.incident_among(
                                before.links@,
                                Self::found_ids(found),
                                found.len() as int,
                                e,
                            ),
                    )
                }
            },
    {
        if txn.poisoned() {
            return Err(IsarError::TransactionPoisoned);
        }
        if !txn.write() {
            return Err(
                IsarError::IllegalArgument { message: "Write transaction required.".to_string() },
            );
        }
        let mut data = match txn.take_write_txn() {
            Ok(data) => data,
            Err(e) => {
                return Err(e);
            },
        };
        let found = match self.find_all_internal(&data) {
            Ok(found) => found,
            Err(e) => {
                return Err(e);
            },
        };
        let ghost before = data;
        let ghost model = pairs_of(found@);
        let ghost objects = before.cols@[col.id as int].data.set();
        let ghost ids = Self::found_ids(model);
        proof {
            self.lemma_result_stored(&before);
            assert(objects =~= objects.filter(|e: Pair| !Self::named(model, 0, e.0)));
        }
        let mut count: usize = 0;
        let mut i: usize = 0;
        while i < found.len()
            invariant
                i <= found.len(),
                count <= i,
                col.wf(),
                col.stored_in(&data),
                col.stored_in(&before),
                col.frame(&before, &data),
                model == pairs_of(found@),
                objects == before.cols@[col.id as int].data.set(),
                forall|k: int|
                    0 <= k < model.len() ==> before.cols@[col.id as int].data@.contains(
                        #[trigger] model[k],
                    ),
                data.cols@[col.id as int].data.set() == objects.filter(
                    |e: Pair| !Self::named(model, i as int, e.0),
                ),
                forall|k: int| 0 <= k < i ==> col.unlinked(&data.links, id_of(#[trigger] model[k])),
                ids == Self::found_ids(model),
                forall|e: Pair| #[trigger]
                    data.links@.contains(e) <==> (before.links@.contains(e) && !col.incident_among(
                        before.links@,
                        ids,
                        i as int,
                        e,
                    )),
                distinct_ids(model) ==> count == i,
            decreases found.len() - i,
        {
            let ghost mid = data;
            let ghost key_bytes = model[i as int].0;
            proof {
                assert(model[i as int] == found@[i as int].pair());
                let cd0 = before.cols@[col.id as int];
                assert(cd0.data@.contains(model[i as int]));
                assert(crate::collection::is_id_key(col.id, cd0.last_id, key_bytes));
                let w = choose|w: i64|
                    key_bytes == #[trigger] crate::key::spec_int_key(col.id, w) && w <= cd0.last_id;
                crate::key::lemma_int_key_order(col.id, w, col.id, w);
            }
            let key = IntKey::from_bytes(found[i].key.as_slice()).unwrap();
            proof {
                let cd0 = before.cols@[col.id as int];
                let w = choose|w: i64|
                    key_bytes == #[trigger] crate::key::spec_int_key(col.id, w) && w <= cd0.last_id;
                let k = IntKey { prefix: col.id, id: w };
                assert(k.spec_bytes() == key_bytes);
                assert(key == k);
            }
            proof {
                lemma_key_of(key);
                if distinct_ids(model) {
                    let was = data.cols@[col.id as int].data.set();
                    if Self::named(model, i as int, key_bytes) {
                        let w = choose|w: int| 0 <= w < i && (#[trigger] model[w]).0 == key_bytes;
                        assert(id_of(model[w]) == id_of(model[i as int]));
                    }
                    assert(objects.contains(model[i as int]));
                    assert(was.contains(model[i as int]));
                    assert(data.cols@[col.id as int].data@.contains(model[i as int]));
                    data.cols@[col.id as int].data.lemma_has_key(key_bytes);
                    assert(col.holds(&data, key.id));
                }
            }
            let deleted = col.delete_internal(&mut data, key.id);
            match deleted {
                Ok(true) => {
                    count += 1;
                },
                _ => {},
            }
            proof {
                let target = objects.filter(|e: Pair| !Self::named(model, i + 1, e.0));
                let now = data.cols@[col.id as int].data.set();
                assert forall|e: Pair| now.contains(e) == target.contains(e) by {
                    let was = mid.cols@[col.id as int].data.set();
                    assert(now.contains(e) == (was.contains(e) && e.0 != key_bytes));
                    assert(was.contains(e) == (objects.contains(e) && !Self::named(
                        model,
                        i as int,
                        e.0,
                    )));
                    if Self::named(model, i + 1, e.0) {
                        let w = choose|w: int| 0 <= w < i + 1 && (#[trigger] model[w]).0 == e.0;
                        if w < i {
                            assert(Self::named(model, i as int, e.0));
                        }
                    }
                    if Self::named(model, i as int, e.0) {
                        let w = choose|w: int| 0 <= w < i && (#[trigger] model[w]).0 == e.0;
                        assert(Self::named(model, i + 1, e.0));
                    }
                    if e.0 == key_bytes {
                        assert(model[i as int].0 == e.0);
                        assert(Self::named(model, i + 1, e.0));
                    }
                }
                assert(now =~= target);
                col.lemma_frame_chain(&before, &mid, &data);
                lemma_key_of(key);
                assert(id_of(model[i as int]) == key.id);
                assert(ids[i as int] == key.id);
                if col.holds(&mid, key.id) {
                    assert forall|e: Pair| #[trigger]
                        data.links@.contains(e) <==> (mid.links@.contains(e) && !col.incident(
                            mid.links@,
                            key.id,
                            e,
                        )) by {
                        assert(data.links.set().contains(e) == data.links@.contains(e));
                        assert(mid.links.set().contains(e) == mid.links@.contains(e));
                    }
                    col.lemma_among_next(before.links@, mid.links@, data.links@, ids, i as int, true);
                } else {
                    let was = mid.cols@[col.id as int].data.set();
                    assert(objects.contains(model[i as int]));
                    mid.cols@[col.id as int].data.lemma_has_key(key_bytes);
                    assert(!was.contains(model[i as int]));
                    assert(Self::named(model, i as int, key_bytes));
                    let w = choose|w: int| 0 <= w < i && (#[trigger] model[w]).0 == key_bytes;
                    assert(0 <= w < i && ids[w] == ids[i as int]);
                    assert(data.links@ == mid.links@);
                    col.lemma_among_next(before.links@, mid.links@, data.links@, ids, i as int, false);
                }
                assert forall|k: int| 0 <= k < i + 1 implies col.unlinked(
                    &data.links,
                    id_of(#[trigger] model[k]),
                ) by {
                    if k < i {
                        col.lemma_unlinked_kept(&mid.links, &data.links, id_of(model[k]));
                    } else if !col.holds(&mid, key.id) {
                        // gone already: an earlier step took it
                        let was = mid.cols@[col.id as int].data.set();
                        assert(objects.contains(model[i as int]));
                        mid.cols@[col.id as int].data.lemma_has_key(key_bytes);
                        assert(!was.contains(model[i as int]));
                        assert(Self::named(model, i as int, key_bytes));
                        let w = choose|w: int| 0 <= w < i && (#[trigger] model[w]).0 == key_bytes;
                        assert(id_of(model[w]) == key.id);
                        col.lemma_unlinked_kept(&mid.links, &data.links, id_of(model[w]));
                    }
                }
            }
            i += 1;
        }
        proof {
            let kept = before.links.set().filter(
                |e: Pair| !col.incident_among(before.links@, ids, model.len() as int, e),
            );
            assert forall|e: Pair| data.links.set().contains(e) == kept.contains(e) by {
                assert(data.links.set().contains(e) == data.links@.contains(e));
                assert(before.links.set().contains(e) == before.links@.contains(e));
            }
            assert(data.links.set() =~= kept);
        }
        txn.put_write_txn(data);
        Ok(count)
    }
}

/// What an aggregate computes.
#[derive(Clone, Copy, Debug, PartialEq, Eq, Structural)]
pub enum AggregateOp {
    Min,
    Max,
    Sum,
    Average,
    Count,
}

/// What an aggregate found: over the values that are not null, the least
/// or the greatest (none where there is no value), the sum, the sum
/// together with their number, or their number.
#[derive(Clone, Copy, Debug, PartialEq, Eq, Structural)]
pub enum AggregateResult {
    Value(Option<i64>),
    Sum(i128),
    Average { sum: i128, count: usize },
    Count(usize),
}

/// The number that a property of an integer type holds in an object;
/// `None` for the null value.
pub open spec fn spec_number(p: Property, object: Seq<u8>) -> Option<i64> {
    if p.spec_is_null(object) {
        None
    } else {
        match p.data_type {
            DataType::Byte => Some(p.spec_byte(object) as i64),
            DataType::Int => Some(p.spec_int(object) as i64),
            _ => Some(p.spec_long(object)),
        }
    }
}

/// The numbers that are not null, in the order of the objects.
pub open spec fn numbers_of(p: Property, found: Seq<Pair>) -> Seq<i64>
    decreases found.len(),
{
    if found.len() == 0 {
        Seq::empty()
    } else {
        match spec_number(p, found.last().1) {
            Some(v) => numbers_of(p, found.drop_last()).push(v),
            None => numbers_of(p, found.drop_last()),
        }
    }
}

pub open spec fn spec_sum(values: Seq<i64>) -> int
    decreases values.len(),
{
    if values.len() == 0 {
        0
    } else {
        spec_sum(values.drop_last()) + values.last()
    }
}

pub open spec fn spec_min(values: Seq<i64>) -> Option<i64>
    decreases values.len(),
{
    if values.len() == 0 {
        None
    } else {
        match spec_min(values.drop_last()) {
            Some(m) => if values.last() < m {
                Some(values.last())
            } else {
                Some(m)
            },
            None => Some(values.last()),
        }
    }
}

pub open spec fn spec_max(values: Seq<i64>) -> Option<i64>
    decreases values.len(),
{
    if values.len() == 0 {
        None
    } else {
        match spec_max(values.drop_last()) {
            Some(m) => if values.last() > m {
                Some(values.last())
            } else {
                Some(m)
            },
            None => Some(values.last()),
        }
    }
}

/// The sum of `n` 64-bit numbers lies within `n` times their range.
pub proof fn lemma_sum_bounds(values: Seq<i64>)
    ensures
        -0x8000_0000_0000_0000 * values.len() <= spec_sum(values) <= 0x7fff_ffff_ffff_ffff
            * values.len(),
    decreases values.len(),
{
    if values.len() > 0 {
        lemma_sum_bounds(values.drop_last());
    }
}

impl Query {
    /// The value that the aggregate has over the numbers.
    pub open spec fn spec_aggregate(op: AggregateOp, values: Seq<i64>) -> AggregateResult {
        match op {
            AggregateOp::Min => AggregateResult::Value(spec_min(values)),
            AggregateOp::Max => AggregateResult::Value(spec_max(values)),
            AggregateOp::Sum => AggregateResult::Sum(spec_sum(values) as i128),
            AggregateOp::Average => AggregateResult::Average {
                sum: spec_sum(values) as i128,
                count: values.len() as usize,
            },
            AggregateOp::Count => AggregateResult::Count(values.len() as usize),
        }
    }

    /// Computes an aggregate of a `Byte`, `Int` or `Long` property over
    /// the objects that the query finds. Any other property is refused.
    pub fn aggregate(&self, txn: &IsarTxn, op: AggregateOp, property: Property) -> (r: Result<
        AggregateResult,
        IsarError,
    >)
        requires
            !txn.is_poisoned() ==> self.ready(&txn.data()) && forall|e: Pair| #[trigger]
                txn.data().cols@[self.col_id as int].data@.contains(e) ==> property.fits(e.1),
        ensures
            ({
                let numeric = property.data_type == DataType::Byte || property.data_type
                    == DataType::Int || property.data_type == DataType::Long;
                &&& r is Ok <==> numeric && !txn.is_poisoned() && self.sound(&txn.data())
                &&& r matches Err(e) ==> if !numeric {
                    e is IllegalArgument
                } else if txn.is_poisoned() {
                    e is TransactionPoisoned
                } else {
                    e is DbCorrupted
                }
                &&& r matches Ok(value) ==> value == Self::spec_aggregate(
                    op,
                    numbers_of(property, self.spec_result(&txn.data())),
                )
            }),
    {
        match property.data_type {
            DataType::Byte | DataType::Int | DataType::Long => {},
            _ => {
                return Err(
                    IsarError::IllegalArgument {
                        message: "Property does not support aggregates.".to_string(),
                    },
                );
            },
        }
        let data = match txn.get_read_txn() {
            Ok(data) => data,
            Err(e) => {
                return Err(e);
            },
        };
        let found = match self.find_all_internal(data) {
            Ok(found) => found,
            Err(e) => {
                return Err(e);
            },
        };
        let ghost model = pairs_of(found@);
        proof {
            self.lemma_result_stored(data);
            assert forall|k: int| 0 <= k < model.len() implies property.fits((#[trigger] model[k]).1) by {
                assert(data.cols@[self.col_id as int].data@.contains(model[k]));
            }
        }
        let mut least: Option<i64> = None;
        let mut greatest: Option<i64> = None;
        let mut sum: i128 = 0;
        let mut count: usize = 0;
        let mut i: usize = 0;
        proof {
            assert(model.take(0) =~= Seq::<Pair>::empty());
        }
        while i < found.len()
            invariant
                i <= found.len(),
                model == pairs_of(found@),
                forall|k: int| 0 <= k < model.len() ==> property.fits((#[trigger] model[k]).1),
                property.data_type == DataType::Byte || property.data_type == DataType::Int
                    || property.data_type == DataType::Long,
                count == numbers_of(property, model.take(i as int)).len(),
                count <= i,
                sum == spec_sum(numbers_of(property, model.take(i as int))),
                least == spec_min(numbers_of(property, model.take(i as int))),
                greatest == spec_max(numbers_of(property, model.take(i as int))),
            decreases found.len() - i,
        {
            let object = found[i].val.as_slice();
            proof {
                assert(model.take(i + 1).drop_last() =~= model.take(i as int));
                assert(model.take(i + 1).last() == model[i as int]);
                assert(model[i as int] == found@[i as int].pair());
                lemma_sum_bounds(numbers_of(property, model.take(i as int)));
            }
            if !property.is_null(object) {
                let v: i64 = match property.data_type {
                    DataType::Byte => property.get_byte(object) as i64,
                    DataType::Int => property.get_int(object) as i64,
                    _ => property.get_long(object),
                };
                let ghost before = numbers_of(property, model.take(i as int));
                proof {
                    assert(numbers_of(property, model.take(i + 1)) == before.push(v));
                    assert(before.push(v).drop_last() =~= before);
                }
                least = match least {
                    Some(m) => if v < m {
                        Some(v)
                    } else {
                        Some(m)
                    },
                    None => Some(v),
                };
                greatest = match greatest {
                    Some(m) => if v > m {
                        Some(v)
                    } else {
                        Some(m)
                    },
                    None => Some(v),
                };
                assert(-0x8000_0000_0000_0000 * count <= sum <= 0x7fff_ffff_ffff_ffff * count);
                assert(count <= 0xffff_ffff_ffff_ffff);
                sum = sum + v as i128;
                count += 1;
            }
            i += 1;
        }
        proof {
            assert(model.take(i as int) =~= model);
        }
        Ok(
            match op {
                AggregateOp::Min => AggregateResult::Value(least),
                AggregateOp::Max => AggregateResult::Value(greatest),
                AggregateOp::Sum => AggregateResult::Sum(sum),
                AggregateOp::Average => AggregateResult::Average { sum, count },
                AggregateOp::Count => AggregateResult::Count(count),
            },
        )
    }
}

} // verus!
