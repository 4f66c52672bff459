use crate::error::IsarError;
use crate::index::index_key_builder::properties_readable;
use crate::query::id_where_clause::{keys_sound, seen_after, yielded, IdWhereClause};
use crate::query::index_where_clause::IndexWhereClause;
use crate::query::result_ids::ResultIds;
use crate::store::{pairs_of, Entry, Pair};
use crate::txn::CollectionData;
use vstd::prelude::*;

verus! {

/// One scan of a query: of the collection's objects by id, or of one of
/// its indexes by key.
#[derive(Debug)]
pub enum WhereClause {
    Id(IdWhereClause),
    Index(IndexWhereClause),
}

impl WhereClause {
    /// Whether the object with this id lies in the range of the scan.
    pub open spec fn spec_matches(&self, id: i64, object: Seq<u8>) -> bool {
        match self {
            WhereClause::Id(wc) => wc.spec_contains(id),
            WhereClause::Index(wc) => wc.spec_object_matches(object),
        }
    }

    /// Whether two scans may visit one object: id scans whose ranges have
    /// an id in common, index scans of one index whose key ranges meet.
    /// An id scan and an index scan never count as overlapping.
    pub open spec fn spec_overlapping(&self, other: &Self) -> bool {
        match (self, other) {
            (WhereClause::Id(wc1), WhereClause::Id(wc2)) => wc1.spec_overlapping(wc2),
            (WhereClause::Index(wc1), WhereClause::Index(wc2)) => wc1.spec_overlapping(wc2),
            _ => false,
        }
    }

    /// Whether the scan alone may visit one object more than once.
    pub open spec fn spec_has_duplicates(&self) -> bool {
        match self {
            WhereClause::Id(_) => false,
            WhereClause::Index(wc) => wc.spec_has_duplicates(),
        }
    }

    /// Whether the scan can run on the collection's data.
    pub open spec fn fits(&self, cd: &CollectionData) -> bool {
        match self {
            WhereClause::Id(_) => true,
            WhereClause::Index(wc) => wc.index_index < cd.indexes@.len(),
        }
    }

    /// The objects that the scan visits, in its order, as pairs of id key
    /// and bytes.
    pub open spec fn candidates(&self, cd: &CollectionData) -> Seq<Pair> {
        match self {
            WhereClause::Id(wc) => wc.candidates(cd.data@),
            WhereClause::Index(wc) => wc.candidates(cd.indexes@[wc.index_index as int]@, cd.data@),
        }
    }

    /// Whether the scan meets nothing malformed: every index pair in
    /// range names a stored object, and every key is an id key.
    pub open spec fn sound(&self, cd: &CollectionData) -> bool {
        match self {
            WhereClause::Id(wc) => keys_sound(wc.candidates(cd.data@)),
            WhereClause::Index(wc) => wc.hits_sound(
                wc.hits(cd.indexes@[wc.index_index as int]@),
                &cd.data,
            ) && keys_sound(wc.candidates(cd.indexes@[wc.index_index as int]@, cd.data@)),
        }
    }

    pub fn matches(&self, id: i64, object: &[u8]) -> (r: bool)
        requires
            self matches WhereClause::Index(wc) ==> wc.properties@.len() > 0 && properties_readable(
                wc.properties@,
                object@,
            ),
        ensures
            r == self.spec_matches(id, object@),
    {
        match self {
            WhereClause::Id(wc) => wc.id_matches(id),
            WhereClause::Index(wc) => wc.object_matches(object),
        }
    }

    /// The objects that the scan visits and `result_ids` accepts, in the
    /// order of the scan, as pairs of id key and bytes.
    pub fn iter(&self, cd: &CollectionData, result_ids: &mut ResultIds) -> (r: Result<
        Vec<Entry>,
        IsarError,
    >)
        requires
            cd.wf(),
            self.fits(cd),
        ensures
            final(result_ids).tracking() == old(result_ids).tracking(),
            r is Ok <==> self.sound(cd),
            r matches Err(e) ==> e is DbCorrupted,
            r matches Ok(out) ==> pairs_of(out@) == yielded(
                self.candidates(cd),
                old(result_ids).tracking(),
                old(result_ids).seen(),
            ) && final(result_ids).seen() == seen_after(
                self.candidates(cd),
                old(result_ids).tracking(),
                old(result_ids).seen(),
            ),
    {
        match self {
            WhereClause::Id(wc) => wc.iter(&cd.data, result_ids),
            WhereClause::Index(wc) => wc.iter(&cd.indexes[wc.index_index], &cd.data, result_ids),
        }
    }

    pub fn is_overlapping(&self, other: &Self) -> (r: bool)
        ensures
            r == self.spec_overlapping(other),
    {
        match (self, other) {
            (WhereClause::Id(wc1), WhereClause::Id(wc2)) => wc1.is_overlapping(wc2),
            (WhereClause::Index(wc1), WhereClause::Index(wc2)) => wc1.is_overlapping(wc2),
            _ => false,
        }
    }

    pub fn has_duplicates(&self) -> (r: bool)
        ensures
            r == self.spec_has_duplicates(),
    {
        match self {
            WhereClause::Id(_) => false,
            WhereClause::Index(wc) => wc.has_duplicates(),
        }
    }
}

} // verus!
