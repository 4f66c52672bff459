use crate::error::IsarError;
use crate::index::index_key_builder::{properties_readable, spec_index_keys, IndexKeyBuilder};
use crate::index::IndexProperty;
use crate::order::{bytes_equal, compare_bytes, lemma_lex_asymmetric, lex_lt};
use crate::query::id_where_clause::{accept_entries, keys_sound, seen_after, yielded};
use crate::query::result_ids::ResultIds;
use crate::store::{pairs_of, spec_scan, Db, Entry, Pair};
use vstd::prelude::*;

verus! {

/// The bytes stored under `key` in `data`.
pub open spec fn object_at(data: Seq<Pair>, key: Seq<u8>) -> Seq<u8> {
    choose|o: Seq<u8>| data.contains((key, o))
}

/// A scan of one index: the objects filed under the keys between
/// `lower_key` and `upper_key`, each bound included or not.
#[derive(Debug)]
pub struct IndexWhereClause {
    pub index_index: usize,
    pub properties: Vec<IndexProperty>,
    pub multi_entry: bool,
    pub lower_key: Vec<u8>,
    pub upper_key: Vec<u8>,
    pub include_lower: bool,
    pub include_upper: bool,
    pub skip_duplicates: bool,
    pub ascending: bool,
}

impl IndexWhereClause {
    /// Whether the key lies in the range.
    pub open spec fn key_in(&self, key: Seq<u8>) -> bool {
        &&& lex_lt(self.lower_key@, key) || (self.include_lower && key == self.lower_key@)
        &&& lex_lt(key, self.upper_key@) || (self.include_upper && key == self.upper_key@)
    }

    /// Whether the index files the object under a key in the range.
    pub open spec fn spec_object_matches(&self, object: Seq<u8>) -> bool {
        exists|i: int|
            0 <= i < spec_index_keys(self.properties@, object).len() && self.key_in(
                #[trigger] spec_index_keys(self.properties@, object)[i],
            )
    }

    /// Whether both scans are of one index and their key ranges, bounds
    /// included, have a key in common.
    pub open spec fn spec_overlapping(&self, other: &Self) -> bool {
        &&& self.index_index == other.index_index
        &&& !lex_lt(self.upper_key@, other.lower_key@)
        &&& !lex_lt(other.upper_key@, self.lower_key@)
    }

    /// Of the pairs that the scan of the index meets, those in range,
    /// each turned into the pair of id key and stored bytes.
    pub open spec fn picked(&self, hits: Seq<Pair>, data: Seq<Pair>) -> Seq<Pair>
        decreases hits.len(),
    {
        if hits.len() == 0 {
            Seq::empty()
        } else {
            let rest = self.picked(hits.drop_last(), data);
            let hit = hits.last();
            if self.key_in(hit.0) {
                rest.push((hit.1, object_at(data, hit.1)))
            } else {
                rest
            }
        }
    }

    /// Whether every pair in range names a stored object.
    pub open spec fn hits_sound(&self, hits: Seq<Pair>, data: &Db) -> bool {
        forall|i: int|
            0 <= i < hits.len() && self.key_in((#[trigger] hits[i]).0) ==> data.has_key(hits[i].1)
    }

    /// The pairs of the index that the scan meets, in its order.
    pub open spec fn hits(&self, index: Seq<Pair>) -> Seq<Pair> {
        spec_scan(index, self.lower_key@, self.upper_key@, self.skip_duplicates, self.ascending)
    }

    /// The objects that the scan visits, in its order.
    pub open spec fn candidates(&self, index: Seq<Pair>, data: Seq<Pair>) -> Seq<Pair> {
        self.picked(self.hits(index), data)
    }

    /// A scan yields an object more than once where the index files it
    /// under several keys and the scan does not skip repeats.
    pub open spec fn spec_has_duplicates(&self) -> bool {
        self.multi_entry && !self.skip_duplicates
    }

    pub fn has_duplicates(&self) -> (r: bool)
        ensures
            r == self.spec_has_duplicates(),
    {
        self.multi_entry && !self.skip_duplicates
    }

    pub fn is_overlapping(&self, other: &Self) -> (r: bool)
        ensures
            r == self.spec_overlapping(other),
    {
        self.index_index == other.index_index && compare_bytes(
            self.upper_key.as_slice(),
            other.lower_key.as_slice(),
        ) >= 0 && compare_bytes(other.upper_key.as_slice(), self.lower_key.as_slice()) >= 0
    }

    /// Whether the key lies in the range.
    pub fn key_matches(&self, key: &[u8]) -> (r: bool)
        ensures
            r == self.key_in(key@),
    {
        let low = compare_bytes(self.lower_key.as_slice(), key);
        let high = compare_bytes(key, self.upper_key.as_slice());
        proof {
            if lex_lt(self.lower_key@, key@) {
                lemma_lex_asymmetric(self.lower_key@, key@);
            }
            if lex_lt(key@, self.upper_key@) {
                lemma_lex_asymmetric(key@, self.upper_key@);
            }
        }
        (low < 0 || (self.include_lower && low == 0)) && (high < 0 || (self.include_upper && high
            == 0))
    }

    pub fn object_matches(&self, object: &[u8]) -> (r: bool)
        requires
            self.properties@.len() > 0,
            properties_readable(self.properties@, object@),
        ensures
            r == self.spec_object_matches(object@),
    {
        let keys = IndexKeyBuilder::new(&self.properties).create_keys(object);
        let ghost model = spec_index_keys(self.properties@, object@);
        let mut i: usize = 0;
        while i < keys.len()
            invariant
                i <= keys.len(),
                model == spec_index_keys(self.properties@, object@),
                keys.len() == model.len(),
                forall|k: int| 0 <= k < keys.len() ==> (#[trigger] keys[k])@ == model[k],
                forall|k: int| 0 <= k < i ==> !self.key_in(#[trigger] model[k]),
            decreases keys.len() - i,
        {
            if self.key_matches(keys[i].as_bytes()) {
                assert(self.key_in(model[i as int]));
                return true;
            }
            i += 1;
        }
        false
    }

    /// The objects in range that `result_ids` accepts, in the order of
    /// the scan, as pairs of id key and bytes. A pair of the index that
    /// names no stored object is a corruption.
    pub fn iter(&self, index: &Db, data: &Db, result_ids: &mut ResultIds) -> (r: Result<
        Vec<Entry>,
        IsarError,
    >)
        requires
            data.wf(),
            !data.allows_dup(),
        ensures
            final(result_ids).tracking() == old(result_ids).tracking(),
            r is Ok <==> self.hits_sound(self.hits(index@), data) && keys_sound(
                self.candidates(index@, data@),
            ),
            r matches Err(e) ==> e is DbCorrupted,
            r matches Ok(out) ==> pairs_of(out@) == yielded(
                self.candidates(index@, data@),
                old(result_ids).tracking(),
                old(result_ids).seen(),
            ) && final(result_ids).seen() == seen_after(
                self.candidates(index@, data@),
                old(result_ids).tracking(),
                old(result_ids).seen(),
            ),
    {
        let found = index.scan(
            self.lower_key.as_slice(),
            self.upper_key.as_slice(),
            self.skip_duplicates,
            self.ascending,
        );
        let ghost hits = self.hits(index@);
        let mut candidates: Vec<Entry> = Vec::new();
        let mut i: usize = 0;
        proof {
            assert(pairs_of(candidates@) =~= self.picked(hits.take(0), data@));
        }
        while i < found.len()
            invariant
                i <= found.len(),
                data.wf(),
                !data.allows_dup(),
                hits == self.hits(index@),
                pairs_of(found@) == hits,
                self.hits_sound(hits.take(i as int), data),
                pairs_of(candidates@) == self.picked(hits.take(i as int), data@),
            decreases found.len() - i,
        {
            let ghost before = pairs_of(candidates@);
            let ghost head = hits.take(i as int);
            let ghost upto = hits.take(i + 1);
            let ghost hit = hits[i as int];
            proof {
                assert(upto.drop_last() =~= head);
                assert(upto.last() == hit);
                assert(hit == found@[i as int].pair());
            }
            let mut sound = true;
            if self.key_matches(found[i].key.as_slice()) {
                match data.get(found[i].val.as_slice()) {
                    Some(object) => {
                        proof {
                            let o = object_at(data@, hit.1);
                            assert(data@.contains((hit.1, object@)));
                            assert(data@.contains((hit.1, o)));
                            data.lemma_one_value(hit.1, o, object@);
                        }
                        candidates.push(
                            Entry {
                                key: crate::order::copy_bytes(found[i].val.as_slice()),
                                val: crate::order::copy_bytes(object),
                            },
                        );
                        assert(pairs_of(candidates@) =~= before.push((hit.1, object@)));
                    },
                    None => {
                        sound = false;
                    },
                }
            }
            if !sound {
                proof {
                    assert(!self.hits_sound(hits, data)) by {
                        assert(self.key_in(hits[i as int].0) && !data.has_key(hits[i as int].1));
                    }
                }
                return Err(
                    IsarError::DbCorrupted { message: "Index entry without object.".to_string() },
                );
            }
            proof {
                assert(self.hits_sound(upto, data)) by {
                    assert forall|k: int|
                        0 <= k < upto.len() && self.key_in((#[trigger] upto[k]).0) implies data.has_key(
                        upto[k].1,
                    ) by {
                        if k < i {
                            assert(head[k] == upto[k]);
                        }
                    }
                }
            }
            i += 1;
        }
        proof {
            assert(hits.take(i as int) =~= hits);
        }
        accept_entries(candidates, result_ids)
    }
}

} // verus!
