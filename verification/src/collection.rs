use crate::dump::{dump_entries, DumpSet};
use crate::error::IsarError;
use crate::index::index_key::IndexKey;
use crate::order::is_prefix;
use crate::key::spec_prefix;
use crate::index::index_key_builder::properties_readable;
use crate::index::{entries_for, listed, IsarIndex};
use crate::key::{lemma_int_key_order, spec_int_key, IntKey};
use crate::link::Link;
use crate::object::object_builder::ObjectBuilder;
use crate::object::object_info::{property_valid, ObjectInfo};
use crate::query::id_where_clause::IdWhereClause;
use crate::query::index_where_clause::IndexWhereClause;
use crate::query::query_builder::QueryBuilder;
use crate::query::where_clause::WhereClause;
use crate::object::property::Property;
use crate::store::{spec_scan, Db, Pair};
use crate::txn::{CollectionData, IsarTxn, TxnData};
use vstd::prelude::*;

verus! {

/// The pairs that an index holds when it files exactly the objects of
/// `objects`: for each stored object, one pair per key of the object,
/// from the key to the object's id key.
pub open spec fn expected_index(index: &IsarIndex, objects: Set<Pair>) -> Set<Pair> {
    Set::new(
        |e: Pair|
            exists|object: Seq<u8>| #[trigger]
                objects.contains((e.1, object)) && index.spec_keys(object).contains(e.0),
    )
}

/// Whether `key` is the id key of an id of collection `col` that is not
/// above `last`.
pub open spec fn is_id_key(col: u16, last: i64, key: Seq<u8>) -> bool {
    exists|id: i64| key == #[trigger] spec_int_key(col, id) && id <= last
}

/// A put in two steps: the state of the transaction, handed out for the
/// put, the id that the object will have, and the space for its bytes.
pub struct PendingPut {
    data: TxnData,
    oid: i64,
    object: Vec<u8>,
}

impl PendingPut {
    /// The id that the object will be stored under.
    pub closed spec fn spec_oid(&self) -> i64 {
        self.oid
    }

    /// The state that the put works on.
    pub closed spec fn spec_data(&self) -> TxnData {
        self.data
    }

    /// The bytes written so far.
    pub closed spec fn spec_object(&self) -> Seq<u8> {
        self.object@
    }

    pub fn get_oid(&mut self) -> (oid: i64)
        ensures
            oid == old(self).spec_oid(),
            *final(self) == *old(self),
    {
        self.oid
    }

    /// The space to write the object's bytes into.
    pub fn get_writable_space(&mut self) -> (space: &mut Vec<u8>)
        ensures
            space@ == old(self).spec_object(),
            final(self).spec_object() == final(space)@,
            final(self).spec_oid() == old(self).spec_oid(),
            final(self).spec_data() == old(self).spec_data(),
    {
        &mut self.object
    }
}

/// A collection: its id, the layout of its objects, its indexes, and the
/// links that start or end at its objects.
#[derive(Debug)]
pub struct IsarCollection {
    pub name: String,
    pub id: u16,
    pub object_info: ObjectInfo,
    pub indexes: Vec<IsarIndex>,
    pub links: Vec<Link>,
    pub backlinks: Vec<Link>,
}

impl IsarCollection {
    /// The layout is sound, every index is sound and indexes properties of
    /// the layout, and every link starts or ends here.
    pub open spec fn wf(&self) -> bool {
        &&& self.object_info.wf()
        &&& forall|i: int| 0 <= i < self.indexes@.len() ==> (#[trigger] self.indexes@[i]).wf()
        &&& forall|i: int, j: int|
            0 <= i < self.indexes@.len() && 0 <= j < self.indexes@[i].properties@.len()
                ==> self.object_info.properties@.contains(
                (#[trigger] self.indexes@[i].properties@[j]).property,
            )
        &&& forall|i: int|
            0 <= i < self.links@.len() ==> (#[trigger] self.links@[i]).wf() && self.links@[i].col_id
                == self.id
        &&& forall|i: int|
            0 <= i < self.backlinks@.len() ==> (#[trigger] self.backlinks@[i]).wf()
                && self.backlinks@[i].target_col_id == self.id
        &&& self.links_wf()
    }

    /// The key under which the object `id` is stored.
    pub open spec fn spec_id_key(&self, id: i64) -> Seq<u8> {
        spec_int_key(self.id, id)
    }

    /// Every stored object is a well-formed object of this collection, under
    /// the id key of an id that the generator has passed.
    pub open spec fn data_valid(&self, cd: &CollectionData) -> bool {
        forall|e: Pair| #[trigger]
            cd.data@.contains(e) ==> self.object_info.spec_valid(e.1) && is_id_key(
                self.id,
                cd.last_id,
                e.0,
            )
    }

    /// Every index holds exactly the pairs that the stored objects give.
    pub open spec fn indexes_coherent(&self, cd: &CollectionData, objects: Set<Pair>) -> bool {
        &&& cd.indexes@.len() == self.indexes@.len()
        &&& forall|i: int|
            0 <= i < self.indexes@.len() ==> (#[trigger] self.indexes@[i]).stores_in(
                &cd.indexes@[i],
            ) && cd.indexes@[i].set() == expected_index(&self.indexes@[i], objects)
    }

    /// The invariant of a collection's stored state.
    pub open spec fn coherent(&self, cd: &CollectionData) -> bool {
        &&& cd.wf()
        &&& self.data_valid(cd)
        &&& self.indexes_coherent(cd, cd.data.set())
    }

    /// A well-formed object can be read by every index.
    pub proof fn lemma_valid_readable(&self, object: Seq<u8>, i: int)
        requires
            self.wf(),
            self.object_info.spec_valid(object),
            0 <= i < self.indexes@.len(),
        ensures
            self.indexes@[i].readable(object),
    {
        let index = self.indexes@[i];
        assert forall|j: int| 0 <= j < index.properties@.len() implies (
        #[trigger] index.properties@[j]).property.readable(object) by {
            let p = index.properties@[j].property;
            assert(self.object_info.properties@.contains(p));
            let k = choose|k: int|
                0 <= k < self.object_info.properties@.len() && self.object_info.properties@[k]
                    == p;
            assert(property_valid(
                self.object_info.properties@[k],
                object,
                self.object_info.static_size as int,
            ));
        }
    }

    /// Taking one object away from the stored objects takes its pairs, and
    /// no others, away from what an index must hold.
    pub proof fn lemma_expected_remove(
        index: &IsarIndex,
        objects: Set<Pair>,
        id_key: Seq<u8>,
        object: Seq<u8>,
    )
        requires
            objects.contains((id_key, object)),
            forall|o: Seq<u8>| #[trigger] objects.contains((id_key, o)) ==> o == object,
        ensures
            expected_index(index, objects.remove((id_key, object))) == expected_index(
                index,
                objects,
            ).difference(entries_for(index.spec_keys(object), id_key)),
    {
        let less = objects.remove((id_key, object));
        let a = expected_index(index, less);
        let b = expected_index(index, objects).difference(
            entries_for(index.spec_keys(object), id_key),
        );
        assert forall|e: Pair| a.contains(e) == b.contains(e) by {
            if a.contains(e) {
                let o = choose|o: Seq<u8>| #[trigger]
                    less.contains((e.1, o)) && index.spec_keys(o).contains(e.0);
                assert(objects.contains((e.1, o)));
            }
            if b.contains(e) {
                let o = choose|o: Seq<u8>| #[trigger]
                    objects.contains((e.1, o)) && index.spec_keys(o).contains(e.0);
                assert(less.contains((e.1, o)));
            }
        }
        assert(a =~= b);
    }

    /// Adding one object under a fresh id key adds its pairs, and no
    /// others, to what an index must hold.
    pub proof fn lemma_expected_insert(
        index: &IsarIndex,
        objects: Set<Pair>,
        id_key: Seq<u8>,
        object: Seq<u8>,
    )
        requires
            forall|o: Seq<u8>| !#[trigger] objects.contains((id_key, o)),
        ensures
            expected_index(index, objects.insert((id_key, object))) == expected_index(
                index,
                objects,
            ).union(entries_for(index.spec_keys(object), id_key)),
    {
        let more = objects.insert((id_key, object));
        let a = expected_index(index, more);
        let b = expected_index(index, objects).union(entries_for(index.spec_keys(object), id_key));
        assert forall|e: Pair| a.contains(e) == b.contains(e) by {
            if a.contains(e) {
                let o = choose|o: Seq<u8>| #[trigger]
                    more.contains((e.1, o)) && index.spec_keys(o).contains(e.0);
                if (e.1, o) != (id_key, object) {
                    assert(objects.contains((e.1, o)));
                }
            }
            if b.contains(e) {
                if expected_index(index, objects).contains(e) {
                    let o = choose|o: Seq<u8>| #[trigger]
                        objects.contains((e.1, o)) && index.spec_keys(o).contains(e.0);
                    assert(more.contains((e.1, o)));
                } else {
                    assert(more.contains((e.1, object)));
                }
            }
        }
        assert(a =~= b);
    }

    /// Takes the pairs of the stored object `id` out of every index; tells
    /// whether the object is stored. The object itself stays.
    pub fn delete_from_indexes(&self, cd: &mut CollectionData, id: i64) -> (existed: bool)
        requires
            self.wf(),
            self.coherent(old(cd)),
        ensures
            final(cd).wf(),
            final(cd).data == old(cd).data,
            final(cd).last_id == old(cd).last_id,
            existed == old(cd).data.has_key(self.spec_id_key(id)),
            self.indexes_coherent(
                final(cd),
                old(cd).data.set().filter(|e: Pair| e.0 != self.spec_id_key(id)),
            ),
    {
        let ghost objects = cd.data.set();
        let ghost idk = self.spec_id_key(id);
        let ghost rest = objects.filter(|e: Pair| e.0 != idk);
        let id_key = IntKey::new(self.id, id);
        let id_bytes = id_key.as_bytes();
        let existing = match cd.data.get(id_bytes.as_slice()) {
            Some(object) => crate::order::copy_bytes(object),
            None => {
                proof {
                    cd.data.lemma_has_key(idk);
                    assert(rest =~= objects);
                }
                return false;
            },
        };
        proof {
            assert(objects.contains((idk, existing@)));
            assert forall|o: Seq<u8>| #[trigger] objects.contains((idk, o)) implies o
                == existing@ by {
                cd.data.lemma_one_value(idk, o, existing@);
            }
            assert(rest =~= objects.remove((idk, existing@))) by {
                assert forall|e: Pair| rest.contains(e) == objects.remove(
                    (idk, existing@),
                ).contains(e) by {
                    if objects.contains(e) && e.0 == idk {
                        assert(objects.contains((idk, e.1)));
                    }
                }
            }
            assert(cd.data@.contains((idk, existing@)));
        }
        let mut i: usize = 0;
        while i < self.indexes.len()
            invariant
                i <= self.indexes.len(),
                self.wf(),
                cd.wf(),
                cd.data == old(cd).data,
                cd.last_id == old(cd).last_id,
                objects == old(cd).data.set(),
                idk == self.spec_id_key(id),
                id_key.spec_bytes() == idk,
                rest == objects.remove((idk, existing@)),
                objects.contains((idk, existing@)),
                forall|o: Seq<u8>| #[trigger] objects.contains((idk, o)) ==> o == existing@,
                self.object_info.spec_valid(existing@),
                cd.indexes@.len() == self.indexes@.len(),
                forall|k: int|
                    0 <= k < self.indexes@.len() ==> (#[trigger] self.indexes@[k]).stores_in(
                        &cd.indexes@[k],
                    ),
                forall|k: int|
                    0 <= k < i ==> (#[trigger] cd.indexes@[k]).set() == expected_index(
                        &self.indexes@[k],
                        rest,
                    ),
                forall|k: int|
                    i <= k < self.indexes@.len() ==> (#[trigger] cd.indexes@[k]).set()
                        == expected_index(&self.indexes@[k], objects),
            decreases self.indexes.len() - i,
        {
            proof {
                self.lemma_valid_readable(existing@, i as int);
                Self::lemma_expected_remove(&self.indexes@[i as int], objects, idk, existing@);
                assert(self.indexes@[i as int].stores_in(&cd.indexes@[i as int]));
            }
            let ghost before = cd.indexes@;
            self.indexes[i].delete_for_object(&mut cd.indexes[i], &id_key, existing.as_slice());
            proof {
                assert forall|k: int| 0 <= k < self.indexes@.len() && k != i implies cd.indexes@[k]
                    == before[k] by {}
            }
            i += 1;
        }
        true
    }

    /// Whether the stored object `other` stands in the way of storing
    /// `object` under `id`: it holds, in a unique index, a key of `object`.
    pub open spec fn conflicting(
        &self,
        cd: &CollectionData,
        id: i64,
        object: Seq<u8>,
        other: i64,
    ) -> bool {
        self.conflicting_upto(cd, id, object, other, self.indexes@.len() as int)
    }

    /// `conflicting`, for the first `n` indexes alone.
    pub open spec fn conflicting_upto(
        &self,
        cd: &CollectionData,
        id: i64,
        object: Seq<u8>,
        other: i64,
        n: int,
    ) -> bool {
        exists|i: int|
            0 <= i < n && (#[trigger] self.indexes@[i]).conflicts_with(
                cd.indexes@[i]@,
                self.spec_id_key(id),
                object,
                self.spec_id_key(other),
            )
    }

    /// Whether no unique index holds a key of `object` for another id.
    pub open spec fn free_of_conflicts(&self, cd: &CollectionData, id: i64, object: Seq<u8>) -> bool {
        forall|i: int|
            0 <= i < self.indexes@.len() ==> !(#[trigger] self.indexes@[i]).has_conflict(
                cd.indexes@[i]@,
                self.spec_id_key(id),
                object,
            )
    }

    /// Removes the stored object `id` and its pairs in every index; tells
    /// whether the object was stored.
    pub fn delete_object(&self, cd: &mut CollectionData, id: i64) -> (existed: bool)
        requires
            self.wf(),
            self.coherent(old(cd)),
        ensures
            self.coherent(final(cd)),
            final(cd).last_id == old(cd).last_id,
            existed == old(cd).data.has_key(self.spec_id_key(id)),
            final(cd).data.set() == old(cd).data.set().filter(
                |e: Pair| e.0 != self.spec_id_key(id),
            ),
            !existed ==> final(cd)@ == old(cd)@,
    {
        let ghost idk = self.spec_id_key(id);
        let existed = self.delete_from_indexes(cd, id);
        let id_bytes = IntKey::new(self.id, id).as_bytes();
        cd.data.delete_key(id_bytes.as_slice());
        proof {
            let rest = old(cd).data.set().filter(|e: Pair| e.0 != self.spec_id_key(id));
            assert(cd.data.set() =~= rest);
            assert forall|e: Pair| #[trigger] cd.data@.contains(e) implies old(cd).data@.contains(
                e,
            ) by {
                assert(cd.data.set().contains(e));
            }
            if !existed {
                old(cd).data.lemma_has_key(idk);
                assert(rest =~= old(cd).data.set());
                assert(cd.data.set() =~= old(cd).data.set());
                cd.data.lemma_same_set(&old(cd).data);
                assert forall|i: int| 0 <= i < cd.indexes@.len() implies (#[trigger] cd.indexes@[i])@
                    == old(cd).indexes@[i]@ by {
                    assert(self.indexes@[i].stores_in(&cd.indexes@[i]));
                    assert(self.indexes@[i].stores_in(&old(cd).indexes@[i]));
                    cd.indexes@[i].lemma_same_set(&old(cd).indexes@[i]);
                }
                assert(cd@.indexes =~= old(cd)@.indexes);
            }
        }
        existed
    }

    /// The ids of the stored objects that stand in the way of storing
    /// `object` under `id`.
    pub fn find_conflicts(&self, cd: &CollectionData, id: i64, object: &[u8]) -> (r: Vec<i64>)
        requires
            self.wf(),
            self.coherent(cd),
            self.object_info.spec_valid(object@),
        ensures
            forall|other: i64| #[trigger]
                self.conflicting(cd, id, object@, other) <==> r@.contains(other),
    {
        let id_key = IntKey::new(self.id, id);
        let ghost idk = self.spec_id_key(id);
        let mut found: Vec<i64> = Vec::new();
        let mut i: usize = 0;
        assert forall|other: i64| !#[trigger] found@.contains(other) by {}
        while i < self.indexes.len()
            invariant
                i <= self.indexes.len(),
                self.wf(),
                self.coherent(cd),
                self.object_info.spec_valid(object@),
                id_key.spec_bytes() == idk,
                idk == self.spec_id_key(id),
                forall|other: i64| #[trigger]
                    self.conflicting_upto(cd, id, object@, other, i as int) <==> found@.contains(
                        other,
                    ),
            decreases self.indexes.len() - i,
        {
            proof {
                self.lemma_valid_readable(object@, i as int);
                assert(self.indexes@[i as int].stores_in(&cd.indexes@[i as int]));
            }
            let index = &self.indexes[i];
            let db = &cd.indexes[i];
            let values = index.conflicts_for_object(db, &id_key, object);
            let ghost before = found@;
            let mut j: usize = 0;
            while j < values.len()
                invariant
                    j <= values.len(),
                    forall|other: i64| #[trigger]
                        found@.contains(other) <==> (before.contains(other) || exists|k: int|
                            0 <= k < j && (#[trigger] values@[k])@ == spec_int_key(self.id, other)),
                decreases values.len() - j,
            {
                let ghost earlier = found@;
                let mut added: Option<i64> = None;
                match IntKey::from_bytes(values[j].as_slice()) {
                    Some(k) => {
                        if k.get_prefix() == self.id {
                            found.push(k.get_id());
                            added = Some(k.get_id());
                        }
                    },
                    None => {},
                }
                proof {
                    assert forall|other: i64| #[trigger]
                        found@.contains(other) <==> (before.contains(other) || exists|k: int|
                            0 <= k < j + 1 && (#[trigger] values@[k])@ == spec_int_key(
                                self.id,
                                other,
                            )) by {
                        let old_rhs = before.contains(other) || exists|k: int|
                            0 <= k < j && (#[trigger] values@[k])@ == spec_int_key(self.id, other);
                        assert(earlier.contains(other) <==> old_rhs);
                        let here = values@[j as int]@ == spec_int_key(self.id, other);
                        if here {
                            // the value decodes to the id `other`
                            let key = IntKey { prefix: self.id, id: other };
                            assert(key.spec_bytes() == values@[j as int]@);
                            assert(added == Some(other));
                            assert(found@[found@.len() - 1] == other);
                        }
                        if found@.contains(other) {
                            let m = choose|m: int| 0 <= m < found@.len() && found@[m] == other;
                            if m < earlier.len() {
                                assert(earlier[m] == other);
                                assert(earlier.contains(other));
                            } else {
                                assert(here);
                            }
                        }
                        if earlier.contains(other) {
                            let m = choose|m: int| 0 <= m < earlier.len() && earlier[m] == other;
                            assert(found@[m] == other);
                        }
                        if exists|k: int|
                            0 <= k < j + 1 && (#[trigger] values@[k])@ == spec_int_key(
                                self.id,
                                other,
                            ) {
                            let k = choose|k: int|
                                0 <= k < j + 1 && (#[trigger] values@[k])@ == spec_int_key(
                                    self.id,
                                    other,
                                );
                            if k < j {
                                assert(old_rhs);
                            }
                        }
                    }
                }
                j += 1;
            }
            proof {
                assert forall|other: i64| #[trigger]
                    self.conflicting_upto(cd, id, object@, other, i + 1) <==> found@.contains(
                        other,
                    ) by {
                    let ok = self.spec_id_key(other);
                    let here = self.indexes@[i as int].conflicts_with(
                        cd.indexes@[i as int]@,
                        idk,
                        object@,
                        ok,
                    );
                    assert(here <==> listed(values@, ok));
                    assert(self.conflicting_upto(cd, id, object@, other, i as int)
                        <==> before.contains(other));
                    if listed(values@, ok) {
                        let k = choose|k: int| 0 <= k < values@.len() && (#[trigger] values@[k])@
                            == ok;
                        assert(0 <= k < values.len() && values@[k]@ == spec_int_key(self.id, other));
                    }
                    if exists|k: int|
                        0 <= k < values.len() && (#[trigger] values@[k])@ == spec_int_key(
                            self.id,
                            other,
                        ) {
                        assert(listed(values@, ok));
                    }
                    if self.conflicting_upto(cd, id, object@, other, i + 1) {
                        let w = choose|w: int|
                            0 <= w < i + 1 && (#[trigger] self.indexes@[w]).conflicts_with(
                                cd.indexes@[w]@,
                                idk,
                                object@,
                                ok,
                            );
                        if w < i {
                            assert(self.conflicting_upto(cd, id, object@, other, i as int));
                        }
                    }
                    if self.conflicting_upto(cd, id, object@, other, i as int) {
                        let w = choose|w: int|
                            0 <= w < i && (#[trigger] self.indexes@[w]).conflicts_with(
                                cd.indexes@[w]@,
                                idk,
                                object@,
                                ok,
                            );
                        assert(self.conflicting_upto(cd, id, object@, other, i + 1));
                    }
                    if here {
                        assert(self.conflicting_upto(cd, id, object@, other, i + 1));
                    }
                }
            }
            i += 1;
        }
        found
    }

    /// Stores `object` under the fresh id `id` and files it in every index.
    pub fn insert_object(&self, cd: &mut CollectionData, id: i64, object: &[u8])
        requires
            self.wf(),
            self.coherent(old(cd)),
            self.object_info.spec_valid(object@),
            !old(cd).data.has_key(self.spec_id_key(id)),
            self.free_of_conflicts(old(cd), id, object@),
        ensures
            self.coherent(final(cd)),
            final(cd).data.set() == old(cd).data.set().insert((self.spec_id_key(id), object@)),
            final(cd).last_id == if id > old(cd).last_id {
                id
            } else {
                old(cd).last_id
            },
    {
        let ghost objects = cd.data.set();
        let ghost idk = self.spec_id_key(id);
        let ghost more = objects.insert((idk, object@));
        let id_key = IntKey::new(self.id, id);
        proof {
            old(cd).data.lemma_has_key(idk);
        }
        let mut i: usize = 0;
        while i < self.indexes.len()
            invariant
                i <= self.indexes.len(),
                self.wf(),
                cd.wf(),
                cd.data == old(cd).data,
                cd.last_id == old(cd).last_id,
                objects == old(cd).data.set(),
                more == objects.insert((idk, object@)),
                idk == self.spec_id_key(id),
                id_key.spec_bytes() == idk,
                forall|o: Seq<u8>| !#[trigger] objects.contains((idk, o)),
                self.object_info.spec_valid(object@),
                self.free_of_conflicts(old(cd), id, object@),
                cd.indexes@.len() == self.indexes@.len(),
                old(cd).indexes@.len() == self.indexes@.len(),
                forall|k: int|
                    0 <= k < self.indexes@.len() ==> (#[trigger] self.indexes@[k]).stores_in(
                        &cd.indexes@[k],
                    ),
                forall|k: int|
                    0 <= k < i ==> (#[trigger] cd.indexes@[k]).set() == expected_index(
                        &self.indexes@[k],
                        more,
                    ),
                forall|k: int|
                    i <= k < self.indexes@.len() ==> (#[trigger] cd.indexes@[k]) == old(cd).indexes@[k] && cd.indexes@[k].set() == expected_index(
                        &self.indexes@[k],
                        objects,
                    ),
            decreases self.indexes.len() - i,
        {
            proof {
                self.lemma_valid_readable(object@, i as int);
                Self::lemma_expected_insert(&self.indexes@[i as int], objects, idk, object@);
                assert(self.indexes@[i as int].stores_in(&cd.indexes@[i as int]));
                assert(!self.indexes@[i as int].has_conflict(
                    old(cd).indexes@[i as int]@,
                    idk,
                    object@,
                ));
            }
            let ghost before = cd.indexes@;
            let filed = self.indexes[i].create_for_object(&mut cd.indexes[i], &id_key, object);
            proof {
                assert(filed is Ok);
                assert forall|k: int| 0 <= k < self.indexes@.len() && k != i implies cd.indexes@[k]
                    == before[k] by {}
            }
            i += 1;
        }
        let id_bytes = id_key.as_bytes();
        cd.data.put(id_bytes.as_slice(), object);
        if id > cd.last_id {
            cd.last_id = id;
        }
        proof {
            assert(cd.data.set() =~= more) by {
                assert forall|e: Pair| cd.data.set().contains(e) == more.contains(e) by {
                    if objects.contains(e) && e.0 == idk {
                        assert(objects.contains((idk, e.1)));
                    }
                }
            }
            assert forall|e: Pair| #[trigger] cd.data@.contains(e) implies self.object_info.spec_valid(
                e.1,
            ) && is_id_key(self.id, cd.last_id, e.0) by {
                assert(more.contains(e));
                if e == (idk, object@) {
                    assert(e.0 == spec_int_key(self.id, id));
                } else {
                    assert(old(cd).data@.contains(e));
                    let w = choose|w: i64| e.0 == #[trigger] spec_int_key(self.id, w) && w <= old(cd).last_id;
                    assert(e.0 == spec_int_key(self.id, w) && w <= cd.last_id);
                }
            }
        }
    }

    /// Whether link `x` gets along with the links of this collection: with
    /// each of them it shares every id or none.
    pub open spec fn respects(&self, x: &Link) -> bool {
        &&& forall|i: int|
            0 <= i < self.links@.len() ==> *x == #[trigger] self.links@[i] || x.disjoint(
                &self.links@[i],
            )
        &&& forall|i: int|
            0 <= i < self.backlinks@.len() ==> *x == #[trigger] self.backlinks@[i] || x.disjoint(
                &self.backlinks@[i],
            )
    }

    /// The links of the collection get along with each other.
    pub open spec fn links_wf(&self) -> bool {
        &&& forall|i: int| 0 <= i < self.links@.len() ==> self.respects(#[trigger] &self.links@[i])
        &&& forall|i: int|
            0 <= i < self.backlinks@.len() ==> self.respects(#[trigger] &self.backlinks@[i])
    }

    /// Every link that starts or ends at this collection is consistent.
    pub open spec fn links_consistent(&self, links: Seq<Pair>) -> bool {
        &&& forall|i: int|
            0 <= i < self.links@.len() ==> (#[trigger] self.links@[i]).consistent(links)
        &&& forall|i: int|
            0 <= i < self.backlinks@.len() ==> (#[trigger] self.backlinks@[i]).consistent(links)
    }

    /// Whether `link` is a link of this collection, or the backlink of one
    /// that ends here.
    pub open spec fn has_link(&self, link: &Link) -> bool {
        ||| exists|i: int| 0 <= i < self.links@.len() && #[trigger] self.links@[i] == *link
        ||| exists|i: int|
            0 <= i < self.backlinks@.len() && #[trigger] self.backlinks@[i] == link.spec_backlink()
    }

    /// Whether the pair lies in the key space of a link of this collection.
    pub open spec fn owns_link_pair(&self, e: Pair) -> bool {
        ||| exists|i: int| 0 <= i < self.links@.len() && (#[trigger] self.links@[i]).owns(e)
        ||| exists|i: int| 0 <= i < self.backlinks@.len() && (#[trigger] self.backlinks@[i]).owns(e)
    }

    /// Whether no edge of the first `n` links starts at `id`, and no edge
    /// of the first `m` incoming links ends there.
    pub open spec fn unlinked_upto(&self, links: &Db, id: i64, n: int, m: int) -> bool {
        &&& forall|i: int|
            0 <= i < n ==> !links.has_key(spec_int_key((#[trigger] self.links@[i]).id, id))
        &&& forall|i: int|
            0 <= i < m ==> !links.has_key(
                spec_int_key((#[trigger] self.backlinks@[i]).backlink_id, id),
            )
    }

    /// Whether no edge of the collection's links starts or ends at `id`.
    pub open spec fn unlinked(&self, links: &Db, id: i64) -> bool {
        self.unlinked_upto(links, id, self.links@.len() as int, self.backlinks@.len() as int)
    }

    /// Whether the pair stores, one way or the other, an edge of the first
    /// `n` links that starts at `id`, or an edge of the first `m` incoming
    /// links that ends there.
    pub open spec fn incident_upto(&self, links: Seq<Pair>, id: i64, n: int, m: int, e: Pair) -> bool {
        ||| exists|i: int| 0 <= i < n && (#[trigger] self.links@[i]).touches(links, id, e)
        ||| exists|j: int|
            0 <= j < m && (#[trigger] self.backlinks@[j]).spec_backlink().touches(links, id, e)
    }

    /// Whether the pair stores, one way or the other, an edge of the
    /// collection's links that starts or ends at `id`.
    pub open spec fn incident(&self, links: Seq<Pair>, id: i64, e: Pair) -> bool {
        self.incident_upto(links, id, self.links@.len() as int, self.backlinks@.len() as int, e)
    }

    /// Whether the pair stores an edge at one of the first `n` of `ids`.
    pub open spec fn incident_among(&self, links: Seq<Pair>, ids: Seq<i64>, n: int, e: Pair) -> bool {
        exists|k: int| 0 <= k < n && self.incident(links, #[trigger] ids[k], e)
    }

    /// In a part of the stored pairs in which the collection's links are
    /// consistent, a stored pair is an edge at `id` exactly when it is one
    /// in the whole.
    pub proof fn lemma_incident_within(
        &self,
        whole: Seq<Pair>,
        part: Seq<Pair>,
        id: i64,
        n: int,
        m: int,
        e: Pair,
    )
        requires
            0 <= n <= self.links@.len(),
            0 <= m <= self.backlinks@.len(),
            self.links_consistent(part),
            forall|x: Pair| #[trigger] part.contains(x) ==> whole.contains(x),
            part.contains(e),
        ensures
            self.incident_upto(part, id, n, m, e) <==> self.incident_upto(whole, id, n, m, e),
    {
        assert forall|i: int| 0 <= i < self.links@.len() implies ((#[trigger] self.links@[i]).touches(
            part,
            id,
            e,
        ) <==> self.links@[i].touches(whole, id, e)) by {
            self.links@[i].lemma_touches_within(whole, part, id, e);
        }
        assert forall|j: int| 0 <= j < self.backlinks@.len() implies ((
        #[trigger] self.backlinks@[j]).spec_backlink().touches(part, id, e)
            <==> self.backlinks@[j].spec_backlink().touches(whole, id, e)) by {
            self.backlinks@[j].lemma_backlink_consistent(part);
            self.backlinks@[j].spec_backlink().lemma_touches_within(whole, part, id, e);
        }
    }

    /// One step of removing the links of an object: the edges of `link`
    /// that start at `id`.
    fn delete_links_of(&self, links: &mut Db, link: &Link, id: i64) -> (r: Result<(), IsarError>)
        requires
            self.wf(),
            old(links).wf(),
            old(links).allows_dup(),
            link.wf(),
            self.has_link(link),
            link.consistent(old(links)@),
        ensures
            final(links).wf(),
            final(links).allows_dup(),
            r is Ok,
            !final(links).has_key(spec_int_key(link.id, id)),
            forall|e: Pair| #[trigger]
                final(links)@.contains(e) <==> (old(links)@.contains(e) && !link.touches(
                    old(links)@,
                    id,
                    e,
                )),
            forall|e: Pair|
                !link.owns(e) ==> (old(links)@.contains(e) <==> #[trigger] final(links)@.contains(e)),
            forall|x: Link|
                (x == *link || x == link.spec_backlink() || x.disjoint(link)) && x.consistent(
                    old(links)@,
                ) ==> #[trigger] x.consistent(final(links)@),
    {
        let r = link.delete_all_for_object(links, id);
        proof {
            assert(r is Ok);
            let key = spec_int_key(link.id, id);
            links.lemma_has_key(key);
            if links.has_key(key) {
                let v = choose|v: Seq<u8>| links@.contains((key, v));
                assert(links.set().contains((key, v)));
                assert(link.touches(old(links)@, id, (key, v)));
            }
            assert forall|e: Pair| #[trigger]
                links@.contains(e) <==> (old(links)@.contains(e) && !link.touches(
                    old(links)@,
                    id,
                    e,
                )) by {
                assert(links.set().contains(e) == links@.contains(e));
                assert(old(links).set().contains(e) == old(links)@.contains(e));
            }
            assert forall|x: Link|
                (x == *link || x == link.spec_backlink() || x.disjoint(link)) && x.consistent(
                    old(links)@,
                ) implies #[trigger] x.consistent(links@) by {
                if x == *link {
                } else if x == link.spec_backlink() {
                    link.lemma_backlink_consistent(old(links)@);
                    link.lemma_backlink_consistent(links@);
                } else {
                    assert forall|e: Pair| x.owns(e) implies (#[trigger] old(links)@.contains(e)
                        <==> links@.contains(e)) by {
                        x.lemma_disjoint_owns(link, e);
                    }
                    x.lemma_untouched_consistent(old(links)@, links@);
                }
            }
        }
        r
    }

    /// One step of removing the links of an object, seen from the start:
    /// what is left after the step is what was stored at first, less the
    /// edges at `id` of the links counted so far.
    proof fn lemma_incident_next(
        &self,
        whole: Seq<Pair>,
        mid: Seq<Pair>,
        next: Seq<Pair>,
        link: &Link,
        id: i64,
        n: int,
        m: int,
        forward: bool,
    )
        requires
            0 <= n <= self.links@.len(),
            0 <= m <= self.backlinks@.len(),
            forward ==> n < self.links@.len() && self.links@[n] == *link,
            !forward ==> m < self.backlinks@.len() && self.backlinks@[m].spec_backlink() == *link,
            self.links_consistent(mid),
            forall|e: Pair| #[trigger]
                mid.contains(e) <==> (whole.contains(e) && !self.incident_upto(whole, id, n, m, e)),
            forall|e: Pair| #[trigger]
                next.contains(e) <==> (mid.contains(e) && !link.touches(mid, id, e)),
        ensures
            forall|e: Pair| #[trigger]
                next.contains(e) <==> (whole.contains(e) && !self.incident_upto(
                    whole,
                    id,
                    if forward {
                        n + 1
                    } else {
                        n
                    },
                    if forward {
                        m
                    } else {
                        m + 1
                    },
                    e,
                )),
    {
        let n2 = if forward {
            n + 1
        } else {
            n
        };
        let m2 = if forward {
            m
        } else {
            m + 1
        };
        if !forward {
            self.backlinks@[m].lemma_backlink_consistent(mid);
        }
        assert(link.consistent(mid));
        assert forall|e: Pair| #[trigger]
            next.contains(e) <==> (whole.contains(e) && !self.incident_upto(whole, id, n2, m2, e)) by {
            if self.incident_upto(whole, id, n, m, e) {
                if exists|i: int| 0 <= i < n && (#[trigger] self.links@[i]).touches(whole, id, e) {
                    let i = choose|i: int|
                        0 <= i < n && (#[trigger] self.links@[i]).touches(whole, id, e);
                    assert(0 <= i < n2 && self.links@[i].touches(whole, id, e));
                } else {
                    let j = choose|j: int|
                        0 <= j < m && (#[trigger] self.backlinks@[j]).spec_backlink().touches(
                            whole,
                            id,
                            e,
                        );
                    assert(0 <= j < m2 && self.backlinks@[j].spec_backlink().touches(whole, id, e));
                }
                assert(self.incident_upto(whole, id, n2, m2, e));
            } else if mid.contains(e) {
                link.lemma_touches_within(whole, mid, id, e);
                if link.touches(whole, id, e) {
                    if forward {
                        assert(0 <= n < n2 && self.links@[n].touches(whole, id, e));
                    } else {
                        assert(0 <= m < m2 && self.backlinks@[m].spec_backlink().touches(
                            whole,
                            id,
                            e,
                        ));
                    }
                    assert(self.incident_upto(whole, id, n2, m2, e));
                }
                if self.incident_upto(whole, id, n2, m2, e) {
                    if exists|i: int|
                        0 <= i < n2 && (#[trigger] self.links@[i]).touches(whole, id, e) {
                        let i = choose|i: int|
                            0 <= i < n2 && (#[trigger] self.links@[i]).touches(whole, id, e);
                        if i < n {
                            assert(0 <= i < n && self.links@[i].touches(whole, id, e));
                        }
                    } else {
                        let j = choose|j: int|
                            0 <= j < m2 && (#[trigger] self.backlinks@[j]).spec_backlink().touches(
                                whole,
                                id,
                                e,
                            );
                        if j < m {
                            assert(0 <= j < m && self.backlinks@[j].spec_backlink().touches(
                                whole,
                                id,
                                e,
                            ));
                        }
                    }
                    assert(link.touches(whole, id, e));
                }
            }
        }
    }

    /// Removes every edge of the collection's links that starts or ends at
    /// the object `id`, both ways, and no other pair.
    pub fn delete_links(&self, links: &mut Db, id: i64) -> (r: Result<(), IsarError>)
        requires
            self.wf(),
            old(links).wf(),
            old(links).allows_dup(),
            self.links_consistent(old(links)@),
        ensures
            final(links).wf(),
            final(links).allows_dup(),
            r is Ok,
            self.links_consistent(final(links)@),
            self.unlinked(final(links), id),
            final(links).set() == old(links).set().filter(
                |e: Pair| !self.incident(old(links)@, id, e),
            ),
            forall|e: Pair| #[trigger] final(links)@.contains(e) ==> old(links)@.contains(e),
            forall|e: Pair|
                !self.owns_link_pair(e) ==> (old(links)@.contains(e) <==> #[trigger] final(links)@.contains(e)),
            forall|x: Link|
                self.respects(&x) && x.consistent(old(links)@) ==> #[trigger] x.consistent(final(links)@),
    {
        let mut i: usize = 0;
        while i < self.links.len()
            invariant
                i <= self.links.len(),
                self.wf(),
                self.links_wf(),
                links.wf(),
                links.allows_dup(),
                self.links_consistent(links@),
                self.unlinked_upto(links, id, i as int, 0),
                forall|e: Pair| #[trigger]
                    links@.contains(e) <==> (old(links)@.contains(e) && !self.incident_upto(
                        old(links)@,
                        id,
                        i as int,
                        0,
                        e,
                    )),
                forall|e: Pair|
                    !self.owns_link_pair(e) ==> (old(links)@.contains(e) <==> #[trigger] links@.contains(
                        e,
                    )),
                forall|x: Link|
                    self.respects(&x) && x.consistent(old(links)@) ==> #[trigger] x.consistent(
                        links@,
                    ),
            decreases self.links.len() - i,
        {
            let ghost before = *links;
            let link = self.links[i];
            assert(self.links@[i as int] == link);
            let r = self.delete_links_of(links, &link, id);
            proof {
                self.lemma_step(&before, links, &link, id, i as int, 0);
                self.lemma_incident_next(old(links)@, before@, links@, &link, id, i as int, 0, true);
                assert forall|e: Pair|
                    !self.owns_link_pair(e) implies (old(links)@.contains(e)
                    <==> #[trigger] links@.contains(e)) by {
                    if link.owns(e) {
                        assert(self.links@[i as int].owns(e));
                    }
                }
            }
            i += 1;
        }
        let mut j: usize = 0;
        while j < self.backlinks.len()
            invariant
                j <= self.backlinks.len(),
                i == self.links.len(),
                self.wf(),
                self.links_wf(),
                links.wf(),
                links.allows_dup(),
                self.links_consistent(links@),
                self.unlinked_upto(links, id, i as int, j as int),
                forall|e: Pair| #[trigger]
                    links@.contains(e) <==> (old(links)@.contains(e) && !self.incident_upto(
                        old(links)@,
                        id,
                        i as int,
                        j as int,
                        e,
                    )),
                forall|e: Pair|
                    !self.owns_link_pair(e) ==> (old(links)@.contains(e) <==> #[trigger] links@.contains(
                        e,
                    )),
                forall|x: Link|
                    self.respects(&x) && x.consistent(old(links)@) ==> #[trigger] x.consistent(
                        links@,
                    ),
            decreases self.backlinks.len() - j,
        {
            let ghost before = *links;
            let incoming = self.backlinks[j];
            let link = incoming.to_backlink();
            proof {
                assert(self.backlinks@[j as int] == link.spec_backlink());
                assert(link.spec_backlink() == incoming);
                assert(link == incoming.spec_backlink());
                incoming.lemma_backlink_consistent(links@);
            }
            let r = self.delete_links_of(links, &link, id);
            proof {
                self.lemma_step(&before, links, &link, id, i as int, j as int);
                self.lemma_incident_next(
                    old(links)@,
                    before@,
                    links@,
                    &link,
                    id,
                    i as int,
                    j as int,
                    false,
                );
                assert forall|e: Pair|
                    !self.owns_link_pair(e) implies (old(links)@.contains(e)
                    <==> #[trigger] links@.contains(e)) by {
                    incoming.lemma_disjoint_owns(&incoming, e);
                    if link.owns(e) {
                        assert(self.backlinks@[j as int].owns(e));
                    }
                }
            }
            j += 1;
        }
        proof {
            let kept = old(links).set().filter(|e: Pair| !self.incident(old(links)@, id, e));
            assert forall|e: Pair| links.set().contains(e) == kept.contains(e) by {
                assert(links.set().contains(e) == links@.contains(e));
                assert(old(links).set().contains(e) == old(links)@.contains(e));
            }
            assert(links.set() =~= kept);
        }
        Ok(())
    }

    /// What one step of `delete_links` keeps: the links of the collection
    /// stay consistent, as does every link that gets along with them, and
    /// keys that were gone stay gone.
    proof fn lemma_step(&self, before: &Db, after: &Db, link: &Link, id: i64, n: int, m: int)
        requires
            self.links_wf(),
            0 <= n <= self.links@.len(),
            0 <= m <= self.backlinks@.len(),
            self.has_link(link),
            self.links_consistent(before@),
            self.unlinked_upto(before, id, n, m),
            forall|e: Pair| #[trigger] after@.contains(e) ==> before@.contains(e),
            forall|x: Link|
                (x == *link || x == link.spec_backlink() || x.disjoint(link)) && x.consistent(
                    before@,
                ) ==> #[trigger] x.consistent(after@),
        ensures
            self.links_consistent(after@),
            self.unlinked_upto(after, id, n, m),
            forall|x: Link|
                self.respects(&x) && x.consistent(before@) ==> #[trigger] x.consistent(after@),
    {
        assert forall|x: Link| self.respects(&x) && x.consistent(before@) implies #[trigger] x.consistent(
            after@,
        ) by {
            self.lemma_related(&x, link);
        }
        assert forall|i: int| 0 <= i < self.links@.len() implies (#[trigger] self.links@[i]).consistent(
            after@,
        ) by {
            assert(self.respects(&self.links@[i]));
        }
        assert forall|i: int| 0 <= i < self.backlinks@.len() implies (
        #[trigger] self.backlinks@[i]).consistent(after@) by {
            assert(self.respects(&self.backlinks@[i]));
        }
        assert forall|i: int| 0 <= i < n implies !after.has_key(
            spec_int_key((#[trigger] self.links@[i]).id, id),
        ) by {
            let key = spec_int_key(self.links@[i].id, id);
            if after.has_key(key) {
                let w = choose|w: int| 0 <= w < after@.len() && (#[trigger] after@[w]).0 == key;
                assert(after@.contains(after@[w]));
                assert(before@.contains(after@[w]));
                let u = choose|u: int| 0 <= u < before@.len() && before@[u] == after@[w];
                assert(before@[u].0 == key);
                assert(before.has_key(key));
            }
        }
        assert forall|i: int| 0 <= i < m implies !after.has_key(
            spec_int_key((#[trigger] self.backlinks@[i]).backlink_id, id),
        ) by {
            let key = spec_int_key(self.backlinks@[i].backlink_id, id);
            if after.has_key(key) {
                let w = choose|w: int| 0 <= w < after@.len() && (#[trigger] after@[w]).0 == key;
                assert(after@.contains(after@[w]));
                assert(before@.contains(after@[w]));
                let u = choose|u: int| 0 <= u < before@.len() && before@[u] == after@[w];
                assert(before@[u].0 == key);
                assert(before.has_key(key));
            }
        }
    }

    /// A link that gets along with the collection's links is, to each of
    /// them and to its backlink, the same link or a disjoint one.
    proof fn lemma_related(&self, x: &Link, link: &Link)
        requires
            self.respects(x),
            self.has_link(link),
        ensures
            *x == *link || *x == link.spec_backlink() || x.disjoint(link),
    {
        if exists|i: int| 0 <= i < self.links@.len() && #[trigger] self.links@[i] == *link {
            let i = choose|i: int| 0 <= i < self.links@.len() && #[trigger] self.links@[i] == *link;
        } else {
            let i = choose|i: int|
                0 <= i < self.backlinks@.len() && #[trigger] self.backlinks@[i]
                    == link.spec_backlink();
        }
    }

    /// Whether the stored state holds this collection in good order: its
    /// data is coherent and its links are consistent.
    pub open spec fn stored_in(&self, data: &TxnData) -> bool {
        &&& data.wf()
        &&& (self.id as int) < data.cols@.len()
        &&& self.coherent(&data.cols@[self.id as int])
        &&& self.links_consistent(data.links@)
    }

    /// Whether the transaction, unless it is poisoned, holds this
    /// collection in good order.
    pub open spec fn ready(&self, txn: &IsarTxn) -> bool {
        !txn.is_poisoned() ==> self.stored_in(&txn.data())
    }

    /// Whether storing `object` under `id` pushes out what is stored under
    /// `key`: the earlier object of that id, or an object in conflict.
    pub open spec fn displaced(
        &self,
        cd: &CollectionData,
        id: i64,
        object: Seq<u8>,
        key: Seq<u8>,
    ) -> bool {
        key == self.spec_id_key(id) || exists|other: i64| #[trigger]
            self.conflicting(cd, id, object, other) && key == self.spec_id_key(other)
    }

    /// The id under which `put` stores an object: the one given, or the
    /// next after the largest id so far where none is given.
    pub open spec fn spec_put_id(cd: &CollectionData, id: Option<i64>) -> i64 {
        if Self::id_is_given(id) {
            id->Some_0
        } else if cd.last_id < i64::MAX {
            (cd.last_id + 1) as i64
        } else {
            i64::MAX
        }
    }

    /// Whether the caller names the id: the smallest 64-bit number asks for
    /// a fresh one, as no id at all does.
    pub open spec fn id_is_given(id: Option<i64>) -> bool {
        id matches Some(v) && v != i64::MIN
    }

    /// Whether a fresh id is asked for and none is left.
    pub open spec fn ids_exhausted(cd: &CollectionData, id: Option<i64>) -> bool {
        !Self::id_is_given(id) && cd.last_id == i64::MAX
    }

    /// What an operation on this collection leaves alone: the data of the
    /// other collections, the pairs of the links database outside the key
    /// spaces of this collection's links, and the consistency of every link
    /// that gets along with them. No pair is added to the links database.
    pub open spec fn frame(&self, before: &TxnData, after: &TxnData) -> bool {
        &&& after.cols@.len() == before.cols@.len()
        &&& forall|c: int|
            0 <= c < before.cols@.len() && c != self.id ==> after.cols@[c] == before.cols@[c]
        &&& forall|e: Pair| #[trigger] after.links@.contains(e) ==> before.links@.contains(e)
        &&& forall|e: Pair|
            !self.owns_link_pair(e) ==> (before.links@.contains(e) <==> #[trigger] after.links@.contains(
                e,
            ))
        &&& forall|x: Link|
            self.respects(&x) && x.consistent(before.links@) ==> #[trigger] x.consistent(
                after.links@,
            )
    }

    /// Whether the object `id` is stored.
    pub open spec fn holds(&self, data: &TxnData, id: i64) -> bool {
        data.cols@[self.id as int].data.has_key(self.spec_id_key(id))
    }

    /// What `delete` makes of the stored state: the object is gone, with
    /// its pairs in every index and every edge that starts or ends at it,
    /// and every other edge is stored as before; where the object was not
    /// stored, nothing has changed.
    pub open spec fn deleted(&self, before: &TxnData, after: &TxnData, id: i64) -> bool {
        let cd0 = before.cols@[self.id as int];
        let cd1 = after.cols@[self.id as int];
        &&& self.stored_in(after)
        &&& self.frame(before, after)
        &&& cd1.last_id == cd0.last_id
        &&& cd1.data.set() == cd0.data.set().filter(|e: Pair| e.0 != self.spec_id_key(id))
        &&& !self.holds(before, id) ==> after@ == before@
        &&& self.holds(before, id) ==> self.unlinked(&after.links, id)
        &&& self.holds(before, id) ==> after.links.set() == before.links.set().filter(
            |e: Pair| !self.incident(before.links@, id, e),
        )
    }

    /// Whether storing `object` with the id `id` cannot even be tried: the
    /// object is malformed, or a fresh id is asked for and none is left.
    pub open spec fn put_refused(&self, before: &TxnData, id: Option<i64>, object: Seq<u8>) -> bool {
        !self.object_info.spec_valid(object) || Self::ids_exhausted(
            &before.cols@[self.id as int],
            id,
        )
    }

    /// Whether a unique index holds a key of `object` for another object.
    pub open spec fn put_blocked(&self, before: &TxnData, id: Option<i64>, object: Seq<u8>) -> bool {
        let cd0 = before.cols@[self.id as int];
        exists|other: i64| #[trigger]
            self.conflicting(&cd0, Self::spec_put_id(&cd0, id), object, other)
    }

    /// Whether the pair stores an edge at an object that storing `object`
    /// under `id` pushes out over a unique index.
    pub open spec fn severed(&self, before: &TxnData, id: i64, object: Seq<u8>, e: Pair) -> bool {
        exists|other: i64| #[trigger]
            self.conflicting(&before.cols@[self.id as int], id, object, other) && self.incident(
                before.links@,
                other,
                e,
            )
    }

    /// What a successful `put` makes of the stored state: the object is
    /// stored under its id, in place of what it pushed out; every index
    /// follows; the edges at the objects pushed out over a unique index
    /// are gone and every other edge is stored as before.
    pub open spec fn was_put(
        &self,
        before: &TxnData,
        after: &TxnData,
        id: Option<i64>,
        object: Seq<u8>,
    ) -> bool {
        let cd0 = before.cols@[self.id as int];
        let cd1 = after.cols@[self.id as int];
        let new_id = Self::spec_put_id(&cd0, id);
        &&& self.stored_in(after)
        &&& self.frame(before, after)
        &&& cd1.data.set() == cd0.data.set().filter(
            |e: Pair| !self.displaced(&cd0, new_id, object, e.0),
        ).insert((self.spec_id_key(new_id), object))
        &&& cd1.last_id == if new_id > cd0.last_id {
            new_id
        } else {
            cd0.last_id
        }
        &&& !self.put_blocked(before, id, object) ==> after.links@ == before.links@
        &&& forall|other: i64| #[trigger]
            self.conflicting(&cd0, new_id, object, other) ==> self.unlinked(&after.links, other)
        &&& after.links.set() == before.links.set().filter(
            |e: Pair| !self.severed(before, new_id, object, e),
        )
    }

    /// One step of deleting the objects `ids`, seen from the start: what
    /// is left of the links after the step is what was stored at first,
    /// less the edges at the objects deleted so far. An object that is not
    /// stored any more was deleted by an earlier step.
    pub proof fn lemma_among_next(
        &self,
        whole: Seq<Pair>,
        mid: Seq<Pair>,
        next: Seq<Pair>,
        ids: Seq<i64>,
        k: int,
        removed: bool,
    )
        requires
            0 <= k < ids.len(),
            self.links_consistent(mid),
            forall|e: Pair| #[trigger]
                mid.contains(e) <==> (whole.contains(e) && !self.incident_among(whole, ids, k, e)),
            removed ==> forall|e: Pair| #[trigger]
                next.contains(e) <==> (mid.contains(e) && !self.incident(mid, ids[k], e)),
            !removed ==> next == mid && exists|w: int| 0 <= w < k && #[trigger] ids[w] == ids[k],
        ensures
            forall|e: Pair| #[trigger]
                next.contains(e) <==> (whole.contains(e) && !self.incident_among(
                    whole,
                    ids,
                    k + 1,
                    e,
                )),
    {
        assert forall|e: Pair| #[trigger]
            next.contains(e) <==> (whole.contains(e) && !self.incident_among(whole, ids, k + 1, e)) by {
            if self.incident_among(whole, ids, k, e) {
                let j = choose|j: int| 0 <= j < k && self.incident(whole, #[trigger] ids[j], e);
                assert(0 <= j < k + 1 && self.incident(whole, ids[j], e));
            } else if mid.contains(e) {
                self.lemma_incident_within(
                    whole,
                    mid,
                    ids[k],
                    self.links@.len() as int,
                    self.backlinks@.len() as int,
                    e,
                );
                if self.incident(whole, ids[k], e) {
                    assert(0 <= k < k + 1 && self.incident(whole, ids[k], e));
                    if !removed {
                        let w = choose|w: int| 0 <= w < k && #[trigger] ids[w] == ids[k];
                        assert(0 <= w < k && self.incident(whole, ids[w], e));
                    }
                }
                if self.incident_among(whole, ids, k + 1, e) {
                    let j = choose|j: int| 0 <= j < k + 1 && self.incident(whole, #[trigger] ids[j], e);
                    if j < k {
                        assert(0 <= j < k && self.incident(whole, ids[j], e));
                    }
                    assert(self.incident(whole, ids[k], e));
                }
            }
        }
    }

    /// Once the objects in conflict are gone, nothing stands in the way.
    pub proof fn lemma_free_after_removal(
        &self,
        before: &CollectionData,
        after: &CollectionData,
        id: i64,
        object: Seq<u8>,
    )
        requires
            self.wf(),
            self.coherent(before),
            self.coherent(after),
            forall|e: Pair| #[trigger] after.data@.contains(e) ==> before.data@.contains(e),
            forall|other: i64| #[trigger]
                self.conflicting(before, id, object, other) ==> !after.data.has_key(
                    self.spec_id_key(other),
                ),
        ensures
            self.free_of_conflicts(after, id, object),
    {
        let idk = self.spec_id_key(id);
        assert forall|i: int| 0 <= i < self.indexes@.len() implies !(
        #[trigger] self.indexes@[i]).has_conflict(after.indexes@[i]@, idk, object) by {
            let index = self.indexes@[i];
            if index.has_conflict(after.indexes@[i]@, idk, object) {
                let ob = choose|ob: Seq<u8>| index.conflicts_with(after.indexes@[i]@, idk, object, ob);
                let k = choose|k: Seq<u8>|
                    index.spec_keys(object).contains(k) && #[trigger] after.indexes@[i]@.contains(
                        (k, ob),
                    );
                assert(index.stores_in(&after.indexes@[i]));
                assert(after.indexes@[i].set().contains((k, ob)));
                assert(expected_index(&index, after.data.set()).contains((k, ob)));
                let o = choose|o: Seq<u8>| #[trigger]
                    after.data.set().contains((ob, o)) && index.spec_keys(o).contains(k);
                assert(after.data@.contains((ob, o)));
                assert(before.data@.contains((ob, o)));
                assert(before.data.set().contains((ob, o)));
                assert(expected_index(&index, before.data.set()).contains((k, ob)));
                assert(index.stores_in(&before.indexes@[i]));
                assert(before.indexes@[i].set().contains((k, ob)));
                assert(before.indexes@[i]@.contains((k, ob)));
                let other = choose|other: i64|
                    ob == #[trigger] spec_int_key(self.id, other) && other <= before.last_id;
                assert(index.conflicts_with(before.indexes@[i]@, idk, object, ob));
                assert(self.conflicting_upto(before, id, object, other, self.indexes@.len() as int));
                assert(self.conflicting(before, id, object, other));
                after.data.lemma_has_key(ob);
            }
        }
    }

    /// Removes the object `id` with its pairs in every index and every
    /// edge that starts or ends at it; tells whether it was stored. Where
    /// it was not, nothing changes.
    pub fn delete_internal(&self, data: &mut TxnData, id: i64) -> (r: Result<bool, IsarError>)
        requires
            self.wf(),
            self.stored_in(old(data)),
        ensures
            r == Ok::<bool, IsarError>(self.holds(old(data), id)),
            self.deleted(old(data), final(data), id),
    {
        let ix = self.id as usize;
        let id_bytes = IntKey::new(self.id, id).as_bytes();
        if data.cols[ix].data.get(id_bytes.as_slice()).is_none() {
            proof {
                let cd = old(data).cols@[ix as int];
                cd.data.lemma_has_key(self.spec_id_key(id));
                assert(cd.data.set() =~= cd.data.set().filter(
                    |e: Pair| e.0 != self.spec_id_key(id),
                ));
            }
            return Ok(false);
        }
        let unlinking = self.delete_links(&mut data.links, id);
        let ghost before = data.cols@;
        self.delete_object(&mut data.cols[ix], id);
        proof {
            assert forall|c: int| 0 <= c < data.cols@.len() implies (#[trigger] data.cols@[c]).wf() by {
                if c != ix {
                    assert(data.cols@[c] == before[c]);
                    assert(old(data).cols@[c].wf());
                }
            }
        }
        Ok(true)
    }

    /// Stores `object`: under `id` where one is given, under the next
    /// fresh id where none is (the smallest 64-bit number counts as none).
    /// An object stored under the id before is replaced; its links stay.
    /// Where a unique index holds a key of the object for another object,
    /// that object is deleted first if `replace_on_conflict` is set, and
    /// the call fails with `UniqueViolation` if it is not. A malformed
    /// object, or an exhausted id space, fails with `IllegalArgument`.
    pub fn put_internal(
        &self,
        data: &mut TxnData,
        id: Option<i64>,
        object: &[u8],
        replace_on_conflict: bool,
    ) -> (r: Result<i64, IsarError>)
        requires
            self.wf(),
            self.stored_in(old(data)),
        ensures
            self.put_refused(old(data), id, object@) ==> (r matches Err(e) && e is IllegalArgument),
            !self.put_refused(old(data), id, object@) && self.put_blocked(old(data), id, object@)
                && !replace_on_conflict ==> (r matches Err(e) && e is UniqueViolation),
            !self.put_refused(old(data), id, object@) && (!self.put_blocked(old(data), id, object@)
                || replace_on_conflict) ==> r == Ok::<i64, IsarError>(
                Self::spec_put_id(&old(data).cols@[self.id as int], id),
            ),
            r is Err ==> final(data)@ == old(data)@,
            r matches Err(IsarError::UniqueViolation { index }) ==> self.names_conflict(
                &old(data).cols@[self.id as int],
                Self::spec_put_id(&old(data).cols@[self.id as int], id),
                object@,
                index@,
            ),
            r is Ok ==> self.was_put(old(data), final(data), id, object@),
            self.stored_in(final(data)),
    {
        let ix = self.id as usize;
        let ghost cd0 = old(data).cols@[ix as int];
        if !self.object_info.verify_object(object) {
            return Err(
                IsarError::IllegalArgument { message: "Provided object is invalid.".to_string() },
            );
        }
        let given = match id {
            Some(v) => v != i64::MIN,
            None => false,
        };
        let new_id: i64 = if given {
            id.unwrap()
        } else {
            let last = data.cols[ix].last_id;
            if last == i64::MAX {
                return Err(
                    IsarError::IllegalArgument { message: "No id is left to assign.".to_string() },
                );
            }
            last + 1
        };
        let ghost idk = self.spec_id_key(new_id);
        let conflicts = self.find_conflicts(&data.cols[ix], new_id, object);
        assert(new_id == Self::spec_put_id(&cd0, id));
        if conflicts.len() > 0 && !replace_on_conflict {
            assert(conflicts@.contains(conflicts@[0]));
            assert(self.conflicting(&cd0, new_id, object@, conflicts@[0]));
            proof {
                let w = choose|w: int|
                    0 <= w < self.indexes@.len() && (#[trigger] self.indexes@[w]).conflicts_with(
                        cd0.indexes@[w]@,
                        self.spec_id_key(new_id),
                        object@,
                        self.spec_id_key(conflicts@[0]),
                    );
                assert(self.indexes@[w].has_conflict(
                    cd0.indexes@[w]@,
                    self.spec_id_key(new_id),
                    object@,
                ));
            }
            let name = self.conflicting_index_name(&data.cols[ix], new_id, object);
            return Err(IsarError::UniqueViolation { index: name });
        }
        proof {
            if conflicts.len() == 0 {
                assert forall|other: i64| !#[trigger] self.conflicting(&cd0, new_id, object@, other) by {
                    assert(!conflicts@.contains(other));
                }
            } else {
                assert(conflicts@.contains(conflicts@[0]));
                assert(self.conflicting(&cd0, new_id, object@, conflicts@[0]));
            }
        }
        proof {
            assert forall|j: int| 0 <= j < conflicts@.len() implies cd0.data.has_key(
                self.spec_id_key(#[trigger] conflicts@[j]),
            ) by {
                assert(conflicts@.contains(conflicts@[j]));
                self.lemma_conflict_held(&cd0, new_id, object@, conflicts@[j]);
            }
        }
        let mut k: usize = 0;
        while k < conflicts.len()
            invariant
                k <= conflicts.len(),
                self.wf(),
                self.stored_in(data),
                ix == self.id,
                cd0 == old(data).cols@[ix as int],
                data.cols@[ix as int].last_id == cd0.last_id,
                forall|e: Pair| #[trigger]
                    data.cols@[ix as int].data@.contains(e) <==> (cd0.data@.contains(e) && !exists|
                        j: int,
                    |
                        0 <= j < k && e.0 == self.spec_id_key(#[trigger] conflicts@[j])),
                conflicts.len() == 0 ==> *data == *old(data),
                self.frame(old(data), data),
                forall|e: Pair| #[trigger]
                    data.links@.contains(e) <==> (old(data).links@.contains(e)
                        && !self.incident_among(old(data).links@, conflicts@, k as int, e)),
                forall|j: int| 0 <= j < k ==> self.unlinked(&data.links, #[trigger] conflicts@[j]),
                forall|j: int|
                    0 <= j < conflicts@.len() ==> cd0.data.has_key(
                        self.spec_id_key(#[trigger] conflicts@[j]),
                    ),
            decreases conflicts.len() - k,
        {
            let ghost mid = data.cols@[ix as int];
            let ghost mid_links = data.links@;
            let ghost mid_all = *data;
            let gone = self.delete_internal(data, conflicts[k]);
            proof {
                let cd = data.cols@[ix as int];
                assert forall|e: Pair| #[trigger]
                    cd.data@.contains(e) <==> (cd0.data@.contains(e) && !exists|j: int|
                        0 <= j < k + 1 && e.0 == self.spec_id_key(#[trigger] conflicts@[j])) by {
                    assert(cd.data.set().contains(e) == cd.data@.contains(e));
                    assert(mid.data.set().contains(e) == mid.data@.contains(e));
                    assert(mid.data@.contains(e) <==> (cd0.data@.contains(e) && !exists|j: int|
                        0 <= j < k && e.0 == self.spec_id_key(#[trigger] conflicts@[j])));
                    if exists|j: int|
                        0 <= j < k + 1 && e.0 == self.spec_id_key(#[trigger] conflicts@[j]) {
                        let j = choose|j: int|
                            0 <= j < k + 1 && e.0 == self.spec_id_key(#[trigger] conflicts@[j]);
                        if j < k {
                            assert(exists|j: int|
                                0 <= j < k && e.0 == self.spec_id_key(#[trigger] conflicts@[j]));
                        }
                    }
                    if exists|j: int|
                        0 <= j < k && e.0 == self.spec_id_key(#[trigger] conflicts@[j]) {
                        let j = choose|j: int|
                            0 <= j < k && e.0 == self.spec_id_key(#[trigger] conflicts@[j]);
                        assert(0 <= j < k + 1 && e.0 == self.spec_id_key(conflicts@[j]));
                    }
                    if e.0 == self.spec_id_key(conflicts@[k as int]) {
                        assert(0 <= k < k + 1 && e.0 == self.spec_id_key(conflicts@[k as int]));
                    }
                }
                assert forall|e: Pair|
                    !self.owns_link_pair(e) implies (old(data).links@.contains(e)
                    <==> #[trigger] data.links@.contains(e)) by {
                    assert(mid_links.contains(e) <==> data.links@.contains(e));
                }
                let gone_id = conflicts@[k as int];
                if self.holds(&mid_all, gone_id) {
                    assert forall|e: Pair| #[trigger]
                        data.links@.contains(e) <==> (mid_links.contains(e) && !self.incident(
                            mid_links,
                            gone_id,
                            e,
                        )) by {
                        assert(data.links.set().contains(e) == data.links@.contains(e));
                        assert(mid_all.links.set().contains(e) == mid_links.contains(e));
                    }
                    self.lemma_among_next(
                        old(data).links@,
                        mid_links,
                        data.links@,
                        conflicts@,
                        k as int,
                        true,
                    );
                } else {
                    let gk = self.spec_id_key(gone_id);
                    cd0.data.lemma_has_key(gk);
                    let v = choose|v: Seq<u8>| cd0.data@.contains((gk, v));
                    mid.data.lemma_has_key(gk);
                    assert(!mid.data@.contains((gk, v)));
                    let w = choose|w: int|
                        0 <= w < k && (gk, v).0 == self.spec_id_key(#[trigger] conflicts@[w]);
                    lemma_int_key_order(self.id, gone_id, self.id, conflicts@[w]);
                    assert(0 <= w < k && conflicts@[w] == conflicts@[k as int]);
                    assert(data.links@ == mid_links);
                    self.lemma_among_next(
                        old(data).links@,
                        mid_links,
                        data.links@,
                        conflicts@,
                        k as int,
                        false,
                    );
                }
                assert forall|j: int| 0 <= j < k + 1 implies self.unlinked(
                    &data.links,
                    #[trigger] conflicts@[j],
                ) by {
                    if j < k {
                        self.lemma_unlinked_kept(&mid_all.links, &data.links, conflicts@[j]);
                    } else if !self.holds(&mid_all, gone_id) {
                        // gone already: an earlier step took it
                        let gk = self.spec_id_key(gone_id);
                        cd0.data.lemma_has_key(gk);
                        let v = choose|v: Seq<u8>| cd0.data@.contains((gk, v));
                        mid.data.lemma_has_key(gk);
                        assert(!mid.data@.contains((gk, v)));
                        let w = choose|w: int|
                            0 <= w < k && (gk, v).0 == self.spec_id_key(#[trigger] conflicts@[w]);
                        lemma_int_key_order(self.id, gone_id, self.id, conflicts@[w]);
                        self.lemma_unlinked_kept(&mid_all.links, &data.links, conflicts@[w]);
                    }
                }
            }
            k += 1;
        }
        let ghost cleared = data.cols@;
        let ghost cd1 = data.cols@[ix as int];
        let ghost links1 = data.links;
        self.delete_object(&mut data.cols[ix], new_id);
        let ghost between = data.cols@;
        let ghost cd2 = data.cols@[ix as int];
        proof {
            assert forall|e: Pair| #[trigger] cd2.data@.contains(e) implies cd0.data@.contains(e) by {
                assert(cd2.data.set().contains(e));
                assert(cd1.data@.contains(e));
            }
            assert forall|other: i64| #[trigger]
                self.conflicting(&cd0, new_id, object@, other) implies !cd2.data.has_key(
                self.spec_id_key(other),
            ) by {
                let ok = self.spec_id_key(other);
                assert(conflicts@.contains(other));
                let j = choose|j: int| 0 <= j < conflicts@.len() && conflicts@[j] == other;
                cd2.data.lemma_has_key(ok);
                if cd2.data.has_key(ok) {
                    let v = choose|v: Seq<u8>| cd2.data@.contains((ok, v));
                    assert(cd2.data.set().contains((ok, v)));
                    assert(cd1.data@.contains((ok, v)));
                    assert(0 <= j < k && (ok, v).0 == self.spec_id_key(conflicts@[j]));
                }
            }
            self.lemma_free_after_removal(&cd0, &cd2, new_id, object@);
            cd2.data.lemma_has_key(idk);
            if cd2.data.has_key(idk) {
                let v = choose|v: Seq<u8>| cd2.data@.contains((idk, v));
                assert(cd2.data.set().contains((idk, v)));
            }
        }
        self.insert_object(&mut data.cols[ix], new_id, object);
        proof {
            let cd3 = data.cols@[ix as int];
            assert(data.links == links1);
            assert forall|c: int| 0 <= c < data.cols@.len() implies (#[trigger] data.cols@[c]).wf() by {
                if c != ix {
                    assert(data.cols@[c] == between[c]);
                    assert(between[c] == cleared[c]);
                }
            }
            let target = cd0.data.set().filter(
                |e: Pair| !self.displaced(&cd0, new_id, object@, e.0),
            ).insert((idk, object@));
            assert forall|e: Pair| cd3.data.set().contains(e) == target.contains(e) by {
                assert(cd2.data.set().contains(e) == (cd1.data@.contains(e) && e.0 != idk));
                let listed_gone = exists|j: int|
                    0 <= j < k && e.0 == self.spec_id_key(#[trigger] conflicts@[j]);
                assert(cd1.data@.contains(e) <==> (cd0.data@.contains(e) && !listed_gone));
                let pushed = exists|other: i64| #[trigger]
                    self.conflicting(&cd0, new_id, object@, other) && e.0 == self.spec_id_key(
                        other,
                    );
                if listed_gone {
                    let j = choose|j: int|
                        0 <= j < k && e.0 == self.spec_id_key(#[trigger] conflicts@[j]);
                    assert(conflicts@.contains(conflicts@[j]));
                    assert(self.conflicting(&cd0, new_id, object@, conflicts@[j]));
                    assert(pushed);
                }
                if pushed {
                    let other = choose|other: i64| #[trigger]
                        self.conflicting(&cd0, new_id, object@, other) && e.0
                            == self.spec_id_key(other);
                    assert(conflicts@.contains(other));
                    let j = choose|j: int| 0 <= j < conflicts@.len() && conflicts@[j] == other;
                    assert(0 <= j < k && e.0 == self.spec_id_key(conflicts@[j]));
                    assert(listed_gone);
                }
                assert(cd0.data.set().contains(e) == cd0.data@.contains(e));
            }
            assert(cd3.data.set() =~= target);
            let kept = old(data).links.set().filter(
                |e: Pair| !self.severed(old(data), new_id, object@, e),
            );
            assert forall|e: Pair| data.links.set().contains(e) == kept.contains(e) by {
                assert(data.links.set().contains(e) == links1@.contains(e));
                assert(old(data).links.set().contains(e) == old(data).links@.contains(e));
                if self.incident_among(old(data).links@, conflicts@, k as int, e) {
                    let j = choose|j: int|
                        0 <= j < k && self.incident(old(data).links@, #[trigger] conflicts@[j], e);
                    assert(conflicts@.contains(conflicts@[j]));
                    assert(self.conflicting(&cd0, new_id, object@, conflicts@[j]));
                    assert(self.severed(old(data), new_id, object@, e));
                }
                if self.severed(old(data), new_id, object@, e) {
                    let other = choose|other: i64| #[trigger]
                        self.conflicting(&cd0, new_id, object@, other) && self.incident(
                            old(data).links@,
                            other,
                            e,
                        );
                    assert(conflicts@.contains(other));
                    let j = choose|j: int| 0 <= j < conflicts@.len() && conflicts@[j] == other;
                    assert(0 <= j < k && self.incident(old(data).links@, conflicts@[j], e));
                }
            }
            assert(data.links.set() =~= kept);
            assert forall|other: i64| #[trigger]
                self.conflicting(&cd0, new_id, object@, other) implies self.unlinked(
                &data.links,
                other,
            ) by {
                assert(conflicts@.contains(other));
                let j = choose|j: int| 0 <= j < conflicts@.len() && conflicts@[j] == other;
                assert(self.unlinked(&links1, conflicts@[j]));
            }
        }
        Ok(new_id)
    }

    /// The name of the first unique index that holds a key of `object` for
    /// another object, or the collection's name where there is none.
    fn conflicting_index_name(&self, cd: &CollectionData, id: i64, object: &[u8]) -> (name: String)
        requires
            self.wf(),
            self.coherent(cd),
            self.object_info.spec_valid(object@),
        ensures
            !self.free_of_conflicts(cd, id, object@) ==> self.names_conflict(cd, id, object@, name@),
    {
        let id_key = IntKey::new(self.id, id);
        let mut i: usize = 0;
        while i < self.indexes.len()
            invariant
                i <= self.indexes.len(),
                self.wf(),
                self.coherent(cd),
                self.object_info.spec_valid(object@),
                id_key.spec_bytes() == self.spec_id_key(id),
                forall|k: int|
                    0 <= k < i ==> !(#[trigger] self.indexes@[k]).has_conflict(
                        cd.indexes@[k]@,
                        self.spec_id_key(id),
                        object@,
                    ),
            decreases self.indexes.len() - i,
        {
            proof {
                self.lemma_valid_readable(object@, i as int);
                assert(self.indexes@[i as int].stores_in(&cd.indexes@[i as int]));
            }
            let values = self.indexes[i].conflicts_for_object(&cd.indexes[i], &id_key, object);
            if values.len() > 0 {
                proof {
                    assert(listed(values@, values@[0]@));
                    assert(self.indexes@[i as int].conflicts_with(
                        cd.indexes@[i as int]@,
                        self.spec_id_key(id),
                        object@,
                        values@[0]@,
                    ));
                }
                return self.indexes[i].name.clone();
            }
            proof {
                let index = self.indexes@[i as int];
                if index.has_conflict(cd.indexes@[i as int]@, self.spec_id_key(id), object@) {
                    let other = choose|other: Seq<u8>|
                        index.conflicts_with(
                            cd.indexes@[i as int]@,
                            self.spec_id_key(id),
                            object@,
                            other,
                        );
                    assert(listed(values@, other));
                }
            }
            i += 1;
        }
        self.name.clone()
    }

    /// Whether `name` is the name of an index that holds a key of `object`
    /// for another object.
    pub open spec fn names_conflict(
        &self,
        cd: &CollectionData,
        id: i64,
        object: Seq<u8>,
        name: Seq<char>,
    ) -> bool {
        exists|i: int|
            0 <= i < self.indexes@.len() && (#[trigger] self.indexes@[i]).has_conflict(
                cd.indexes@[i]@,
                self.spec_id_key(id),
                object,
            ) && self.indexes@[i].name@ == name
    }

    /// Removes every pair in the key space of one link of the collection.
    fn clear_links_of(&self, links: &mut Db, link: &Link)
        requires
            self.wf(),
            old(links).wf(),
            old(links).allows_dup(),
            self.has_link(link),
        ensures
            final(links).wf(),
            final(links).allows_dup(),
            forall|e: Pair| #[trigger] final(links)@.contains(e) ==> old(links)@.contains(e),
            forall|e: Pair|
                !link.owns(e) ==> (old(links)@.contains(e) <==> #[trigger] final(links)@.contains(e)),
            forall|x: Link|
                (x == *link || x == link.spec_backlink() || x.disjoint(link)) && x.consistent(
                    old(links)@,
                ) ==> #[trigger] x.consistent(final(links)@),
            link.consistent(final(links)@),
            link.spec_backlink().consistent(final(links)@),
            forall|e: Pair| #[trigger] final(links)@.contains(e) ==> !link.owns(e),
    {
        link.clear(links);
        proof {
            link.lemma_backlink_consistent(links@);
            assert forall|e: Pair| #[trigger] links@.contains(e) implies !link.owns(e) by {
                assert(links.set().contains(e));
            }
            assert forall|e: Pair| #[trigger] links@.contains(e) implies old(links)@.contains(e) by {
                assert(links.set().contains(e));
            }
            assert forall|x: Link|
                (x == *link || x == link.spec_backlink() || x.disjoint(link)) && x.consistent(
                    old(links)@,
                ) implies #[trigger] x.consistent(links@) by {
                if x.disjoint(link) {
                    assert forall|e: Pair| x.owns(e) implies (#[trigger] old(links)@.contains(e)
                        <==> links@.contains(e)) by {
                        x.lemma_disjoint_owns(link, e);
                    }
                    x.lemma_untouched_consistent(old(links)@, links@);
                }
            }
        }
    }

    /// What `clear` makes of the stored state: the collection holds no
    /// object, its indexes hold no pair, and nothing is left in the key
    /// spaces of its links.
    pub open spec fn cleared(&self, before: &TxnData, after: &TxnData) -> bool {
        let cd1 = after.cols@[self.id as int];
        &&& self.stored_in(after)
        &&& self.frame(before, after)
        &&& cd1.last_id == before.cols@[self.id as int].last_id
        &&& cd1.data@ == Seq::<Pair>::empty()
        &&& forall|i: int|
            0 <= i < cd1.indexes@.len() ==> (#[trigger] cd1.indexes@[i])@ == Seq::<Pair>::empty()
        &&& forall|e: Pair| #[trigger] after.links@.contains(e) ==> !self.owns_link_pair(e)
    }

    /// Removes every object of the collection, every pair of its indexes
    /// and every edge of its links.
    pub fn clear_internal(&self, data: &mut TxnData)
        requires
            self.wf(),
            self.stored_in(old(data)),
        ensures
            self.cleared(old(data), final(data)),
    {
        let ix = self.id as usize;
        let mut i: usize = 0;
        while i < self.links.len()
            invariant
                i <= self.links.len(),
                self.wf(),
                data.wf(),
                data.cols == old(data).cols,
                self.links_consistent(data.links@),
                self.frame(old(data), data),
                forall|k: int, e: Pair|
                    0 <= k < i && (#[trigger] self.links@[k]).owns(e) ==> !#[trigger] data.links@.contains(
                        e,
                    ),
            decreases self.links.len() - i,
        {
            let ghost before = data.links;
            let link = self.links[i];
            assert(self.links@[i as int] == link);
            self.clear_links_of(&mut data.links, &link);
            proof {
                self.lemma_step(&before, &data.links, &link, 0, 0, 0);
                assert forall|e: Pair|
                    !self.owns_link_pair(e) implies (old(data).links@.contains(e)
                    <==> #[trigger] data.links@.contains(e)) by {
                    if link.owns(e) {
                        assert(self.links@[i as int].owns(e));
                    }
                    assert(before@.contains(e) <==> data.links@.contains(e));
                }
                assert forall|k: int, e: Pair|
                    0 <= k < i + 1 && (#[trigger] self.links@[k]).owns(e) implies !#[trigger] data.links@.contains(
                    e,
                ) by {
                    if data.links@.contains(e) {
                        assert(before@.contains(e));
                        if k == i {
                            assert(!link.owns(e));
                        }
                    }
                }
            }
            i += 1;
        }
        let mut j: usize = 0;
        while j < self.backlinks.len()
            invariant
                j <= self.backlinks.len(),
                i == self.links.len(),
                self.wf(),
                data.wf(),
                data.cols == old(data).cols,
                self.links_consistent(data.links@),
                self.frame(old(data), data),
                forall|k: int, e: Pair|
                    0 <= k < i && (#[trigger] self.links@[k]).owns(e) ==> !#[trigger] data.links@.contains(
                        e,
                    ),
                forall|k: int, e: Pair|
                    0 <= k < j && (#[trigger] self.backlinks@[k]).owns(e) ==> !#[trigger] data.links@.contains(
                        e,
                    ),
            decreases self.backlinks.len() - j,
        {
            let ghost before = data.links;
            let incoming = self.backlinks[j];
            let link = incoming.to_backlink();
            proof {
                assert(self.backlinks@[j as int] == link.spec_backlink());
                assert(link == incoming.spec_backlink());
            }
            self.clear_links_of(&mut data.links, &link);
            proof {
                self.lemma_step(&before, &data.links, &link, 0, 0, 0);
                assert forall|e: Pair|
                    !self.owns_link_pair(e) implies (old(data).links@.contains(e)
                    <==> #[trigger] data.links@.contains(e)) by {
                    incoming.lemma_disjoint_owns(&incoming, e);
                    if link.owns(e) {
                        assert(self.backlinks@[j as int].owns(e));
                    }
                    assert(before@.contains(e) <==> data.links@.contains(e));
                }
                assert forall|k: int, e: Pair|
                    0 <= k < j + 1 && (#[trigger] self.backlinks@[k]).owns(e) implies !#[trigger] data.links@.contains(
                    e,
                ) by {
                    if data.links@.contains(e) {
                        assert(before@.contains(e));
                        if k == j {
                            incoming.lemma_disjoint_owns(&incoming, e);
                            assert(!link.owns(e));
                        }
                    }
                }
                assert forall|k: int, e: Pair|
                    0 <= k < i && (#[trigger] self.links@[k]).owns(e) implies !#[trigger] data.links@.contains(
                    e,
                ) by {
                    if data.links@.contains(e) {
                        assert(before@.contains(e));
                    }
                }
            }
            j += 1;
        }
        let ghost cols0 = data.cols@;
        self.clear_data(&mut data.cols[ix]);
        proof {
            assert forall|c: int| 0 <= c < data.cols@.len() implies (#[trigger] data.cols@[c]).wf() by {
                if c != ix {
                    assert(data.cols@[c] == cols0[c]);
                }
            }
            assert forall|e: Pair| #[trigger] data.links@.contains(e) implies !self.owns_link_pair(
                e,
            ) by {
                if self.owns_link_pair(e) {
                    if exists|k: int| 0 <= k < self.links@.len() && (#[trigger] self.links@[k]).owns(e) {
                        let k = choose|k: int|
                            0 <= k < self.links@.len() && (#[trigger] self.links@[k]).owns(e);
                        assert(!data.links@.contains(e));
                    } else {
                        let k = choose|k: int|
                            0 <= k < self.backlinks@.len() && (#[trigger] self.backlinks@[k]).owns(
                                e,
                            );
                        assert(!data.links@.contains(e));
                    }
                }
            }
        }
    }

    /// Removes every object and every pair of every index.
    fn clear_data(&self, cd: &mut CollectionData)
        requires
            self.wf(),
            self.coherent(old(cd)),
        ensures
            self.coherent(final(cd)),
            final(cd).last_id == old(cd).last_id,
            final(cd).data@ == Seq::<Pair>::empty(),
            final(cd).indexes@.len() == old(cd).indexes@.len(),
            forall|i: int|
                0 <= i < final(cd).indexes@.len() ==> (#[trigger] final(cd).indexes@[i])@
                    == Seq::<Pair>::empty(),
    {
        let mut i: usize = 0;
        while i < self.indexes.len()
            invariant
                i <= self.indexes.len(),
                cd.wf(),
                cd.data == old(cd).data,
                cd.last_id == old(cd).last_id,
                cd.indexes@.len() == self.indexes@.len(),
                forall|k: int|
                    0 <= k < self.indexes@.len() ==> (#[trigger] self.indexes@[k]).stores_in(
                        &cd.indexes@[k],
                    ),
                forall|k: int| 0 <= k < i ==> (#[trigger] cd.indexes@[k])@ == Seq::<Pair>::empty(),
            decreases self.indexes.len() - i,
        {
            let ghost before = cd.indexes@;
            assert(self.indexes@[i as int].stores_in(&cd.indexes@[i as int]));
            self.indexes[i].clear(&mut cd.indexes[i]);
            proof {
                assert forall|k: int| 0 <= k < self.indexes@.len() && k != i implies cd.indexes@[k]
                    == before[k] by {}
            }
            i += 1;
        }
        cd.data.clear();
        proof {
            assert forall|k: int| 0 <= k < self.indexes@.len() implies (#[trigger] cd.indexes@[k]).set()
                == expected_index(&self.indexes@[k], cd.data.set()) by {
                assert(cd.indexes@[k]@ == Seq::<Pair>::empty());
                assert(cd.indexes@[k].set() =~= expected_index(&self.indexes@[k], cd.data.set()));
            }
        }
    }

    pub fn new(
        name: &str,
        id: u16,
        object_info: ObjectInfo,
        indexes: Vec<IsarIndex>,
        links: Vec<Link>,
        backlinks: Vec<Link>,
    ) -> (col: Self)
        ensures
            col.name@ == name@,
            col.id == id,
            col.object_info == object_info,
            col.indexes == indexes,
            col.links == links,
            col.backlinks == backlinks,
    {
        IsarCollection { name: name.to_owned(), id, object_info, indexes, links, backlinks }
    }

    /// The key under which the collection stores the object `id`.
    pub fn get_object_id(&self, id: i64) -> (key: IntKey)
        ensures
            key.prefix == self.id,
            key.id == id,
    {
        IntKey::new(self.id, id)
    }

    /// Whether the id key belongs to this collection.
    pub fn verify_object_id(&self, oid: IntKey) -> (r: Result<(), IsarError>)
        ensures
            r is Ok <==> oid.prefix == self.id,
            r matches Err(e) ==> e is IllegalArgument,
    {
        if oid.get_prefix() != self.id {
            Err(
                IsarError::IllegalArgument {
                    message: "Invalid ObjectId for this collection.".to_string(),
                },
            )
        } else {
            Ok(())
        }
    }

    pub fn get_property_by_index(&self, property_index: usize) -> (r: Option<Property>)
        ensures
            r is Some <==> property_index < self.object_info.properties@.len(),
            r matches Some(p) ==> p == self.object_info.properties@[property_index as int],
    {
        if property_index < self.object_info.properties.len() {
            Some(self.object_info.properties[property_index])
        } else {
            None
        }
    }

    /// Whether the transaction can be written through: it is a write
    /// transaction and no operation has failed in it.
    pub open spec fn live(txn: &IsarTxn) -> bool {
        !txn.is_poisoned() && txn.is_write()
    }

    /// The bytes of the object `id`, if it is stored.
    pub fn get<'a>(&self, txn: &'a IsarTxn, id: i64) -> (r: Result<Option<&'a [u8]>, IsarError>)
        requires
            self.ready(txn),
        ensures
            r is Err <==> txn.is_poisoned(),
            r matches Err(e) ==> e is TransactionPoisoned,
            r matches Ok(found) ==> (found is Some <==> self.holds(&txn.data(), id)) && (
            found matches Some(v) ==> txn.data().cols@[self.id as int].data@.contains(
                (self.spec_id_key(id), v@),
            )),
    {
        let data = match txn.get_read_txn() {
            Ok(data) => data,
            Err(e) => {
                return Err(e);
            },
        };
        let id_bytes = IntKey::new(self.id, id).as_bytes();
        Ok(data.cols[self.id as usize].data.get(id_bytes.as_slice()))
    }

    /// Stores `object`: under `id` where one is given, under the next
    /// fresh id where none is (the smallest 64-bit number counts as none).
    /// An object stored under the id before is replaced; its links stay.
    /// Where a unique index holds a key of the object for another object,
    /// that object is deleted first if `replace_on_conflict` is set, and
    /// the call fails with `UniqueViolation` if it is not. A failure
    /// poisons the transaction.
    pub fn put(
        &self,
        txn: &mut IsarTxn,
        id: Option<i64>,
        object: &[u8],
        replace_on_conflict: bool,
    ) -> (r: Result<i64, IsarError>)
        requires
            self.wf(),
            self.ready(old(txn)),
        ensures
            self.ready(final(txn)),
            final(txn).is_write() == old(txn).is_write(),
            old(txn).is_poisoned() ==> (r matches Err(e) && e is TransactionPoisoned) && final(txn).is_poisoned(),
            !old(txn).is_poisoned() && !old(txn).is_write() ==> (r matches Err(e)
                && e is IllegalArgument) && *final(txn) == *old(txn),
            Self::live(old(txn)) ==> {
                let before = old(txn).data();
                &&& self.put_refused(&before, id, object@) ==> (r matches Err(e)
                    && e is IllegalArgument)
                &&& !self.put_refused(&before, id, object@) && self.put_blocked(&before, id, object@)
                    && !replace_on_conflict ==> (r matches Err(e) && e is UniqueViolation)
                &&& !self.put_refused(&before, id, object@) && (!self.put_blocked(
                    &before,
                    id,
                    object@,
                ) || replace_on_conflict) ==> r == Ok::<i64, IsarError>(
                    Self::spec_put_id(&before.cols@[self.id as int], id),
                )
                &&& r is Err ==> final(txn).is_poisoned()
                &&& r matches Err(IsarError::UniqueViolation { index }) ==> self.names_conflict(
                    &before.cols@[self.id as int],
                    Self::spec_put_id(&before.cols@[self.id as int], id),
                    object@,
                    index@,
                )
                &&& r is Ok ==> !final(txn).is_poisoned() && self.was_put(
                    &before,
                    &final(txn).data(),
                    id,
                    object@,
                )
            },
    {
        let mut data = match txn.take_write_txn() {
            Ok(data) => data,
            Err(e) => {
                return Err(e);
            },
        };
        match self.put_internal(&mut data, id, object, replace_on_conflict) {
            Ok(new_id) => {
                txn.put_write_txn(data);
                Ok(new_id)
            },
            Err(e) => Err(e),
        }
    }

    /// The first step of a put in two steps: fixes the id and hands out
    /// `size` zero bytes to write the object into. The transaction's state
    /// stays with the pending put until `finish_put` gives it back.
    pub fn prepare_put(&self, txn: &mut IsarTxn, oid: Option<i64>, size: usize) -> (r: Result<
        PendingPut,
        IsarError,
    >)
        requires
            self.ready(old(txn)),
        ensures
            final(txn).is_write() == old(txn).is_write(),
            old(txn).is_poisoned() ==> (r matches Err(e) && e is TransactionPoisoned),
            !old(txn).is_poisoned() && !old(txn).is_write() ==> (r matches Err(e)
                && e is IllegalArgument) && *final(txn) == *old(txn),
            Self::live(old(txn)) ==> {
                let before = old(txn).data();
                &&& final(txn).is_poisoned()
                &&& r is Ok <==> !Self::ids_exhausted(&before.cols@[self.id as int], oid)
                &&& r matches Err(e) ==> e is IllegalArgument
                &&& r matches Ok(pending) ==> pending.spec_data() == before && pending.spec_oid()
                    == Self::spec_put_id(&before.cols@[self.id as int], oid)
                    && pending.spec_object() == Seq::new(size as nat, |i: int| 0u8)
            },
    {
        let data = match txn.take_write_txn() {
            Ok(data) => data,
            Err(e) => {
                return Err(e);
            },
        };
        let given = match oid {
            Some(v) => v != i64::MIN,
            None => false,
        };
        let new_id: i64 = if given {
            oid.unwrap()
        } else {
            let last = data.cols[self.id as usize].last_id;
            if last == i64::MAX {
                return Err(
                    IsarError::IllegalArgument { message: "No id is left to assign.".to_string() },
                );
            }
            last + 1
        };
        let mut object: Vec<u8> = Vec::new();
        let mut i: usize = 0;
        while i < size
            invariant
                i <= size,
                object@ == Seq::new(i as nat, |k: int| 0u8),
            decreases size - i,
        {
            object.push(0);
            assert(object@ =~= Seq::new((i + 1) as nat, |k: int| 0u8));
            i += 1;
        }
        Ok(PendingPut { data, oid: new_id, object })
    }

    /// The second step of a put in two steps: stores the bytes written
    /// under the id fixed before, as `put` without replacement does, and
    /// gives the state back to the transaction. A failure leaves the
    /// transaction poisoned.
    pub fn finish_put(&self, txn: &mut IsarTxn, pending: PendingPut) -> (r: Result<(), IsarError>)
        requires
            self.wf(),
            self.stored_in(&pending.spec_data()),
        ensures
            final(txn).is_write() == old(txn).is_write(),
            ({
                let before = pending.spec_data();
                let oid = Some(pending.spec_oid());
                let object = pending.spec_object();
                &&& r is Ok <==> !self.put_refused(&before, oid, object) && !self.put_blocked(
                    &before,
                    oid,
                    object,
                )
                &&& self.put_refused(&before, oid, object) ==> (r matches Err(e)
                    && e is IllegalArgument)
                &&& !self.put_refused(&before, oid, object) && self.put_blocked(&before, oid, object)
                    ==> (r matches Err(e) && e is UniqueViolation)
                &&& r is Err ==> *final(txn) == *old(txn)
                &&& r is Ok ==> !final(txn).is_poisoned() && self.was_put(
                    &before,
                    &final(txn).data(),
                    oid,
                    object,
                )
            }),
    {
        let mut pending = pending;
        match self.put_internal(&mut pending.data, Some(pending.oid), pending.object.as_slice(), false) {
            Ok(_) => {
                txn.put_write_txn(pending.data);
                Ok(())
            },
            Err(e) => Err(e),
        }
    }

    /// The layout of the collection's objects.
    pub fn debug_get_object_info(&self) -> (r: &ObjectInfo)
        ensures
            *r == self.object_info,
    {
        &self.object_info
    }

    /// Removes the object `id` with its pairs in every index and every
    /// edge that starts or ends at it; tells whether it was stored.
    pub fn delete(&self, txn: &mut IsarTxn, id: i64) -> (r: Result<bool, IsarError>)
        requires
            self.wf(),
            self.ready(old(txn)),
        ensures
            self.ready(final(txn)),
            final(txn).is_write() == old(txn).is_write(),
            old(txn).is_poisoned() ==> (r matches Err(e) && e is TransactionPoisoned) && final(txn).is_poisoned(),
            !old(txn).is_poisoned() && !old(txn).is_write() ==> (r matches Err(e)
                && e is IllegalArgument) && *final(txn) == *old(txn),
            Self::live(old(txn)) ==> {
                &&& r == Ok::<bool, IsarError>(self.holds(&old(txn).data(), id))
                &&& !final(txn).is_poisoned()
                &&& self.deleted(&old(txn).data(), &final(txn).data(), id)
            },
    {
        let mut data = match txn.take_write_txn() {
            Ok(data) => data,
            Err(e) => {
                return Err(e);
            },
        };
        match self.delete_internal(&mut data, id) {
            Ok(existed) => {
                txn.put_write_txn(data);
                Ok(existed)
            },
            Err(e) => Err(e),
        }
    }

    /// Removes every object of the collection, every pair of its indexes
    /// and every edge of its links.
    pub fn clear(&self, txn: &mut IsarTxn) -> (r: Result<(), IsarError>)
        requires
            self.wf(),
            self.ready(old(txn)),
        ensures
            self.ready(final(txn)),
            final(txn).is_write() == old(txn).is_write(),
            r is Ok <==> Self::live(old(txn)),
            old(txn).is_poisoned() ==> (r matches Err(e) && e is TransactionPoisoned) && final(txn).is_poisoned(),
            !old(txn).is_poisoned() && !old(txn).is_write() ==> (r matches Err(e)
                && e is IllegalArgument) && *final(txn) == *old(txn),
            r is Ok ==> !final(txn).is_poisoned() && self.cleared(
                &old(txn).data(),
                &final(txn).data(),
            ),
    {
        let mut data = match txn.take_write_txn() {
            Ok(data) => data,
            Err(e) => {
                return Err(e);
            },
        };
        self.clear_internal(&mut data);
        txn.put_write_txn(data);
        Ok(())
    }

    /// The id and the bytes of the object that index `index_index` files
    /// first under `key`, if there is one.
    pub fn get_by_index<'a>(&self, txn: &'a IsarTxn, index_index: usize, key: &IndexKey) -> (r:
        Result<Option<(i64, &'a [u8])>, IsarError>)
        requires
            self.wf(),
            self.ready(txn),
        ensures
            txn.is_poisoned() ==> (r matches Err(e) && e is TransactionPoisoned),
            !txn.is_poisoned() && index_index >= self.indexes@.len() ==> (r matches Err(e)
                && e is IllegalArgument),
            !txn.is_poisoned() && index_index < self.indexes@.len() ==> {
                let cd = txn.data().cols@[self.id as int];
                let db = cd.indexes@[index_index as int];
                &&& r is Ok
                &&& r matches Ok(found) ==> (found is Some <==> db.has_key(key@)) && (
                found matches Some(hit) ==> db@.contains((key@, self.spec_id_key(hit.0)))
                    && cd.data@.contains((self.spec_id_key(hit.0), hit.1@)) && forall|other: i64|
                    db@.contains((key@, #[trigger] self.spec_id_key(other))) ==> hit.0 <= other)
            },
    {
        let data = match txn.get_read_txn() {
            Ok(data) => data,
            Err(e) => {
                return Err(e);
            },
        };
        if index_index >= self.indexes.len() {
            return Err(IsarError::IllegalArgument { message: "Unknown index.".to_string() });
        }
        let cd = &data.cols[self.id as usize];
        let db = &cd.indexes[index_index];
        assert(self.indexes@[index_index as int].stores_in(db));
        let value = match db.get(key.as_bytes()) {
            Some(value) => value,
            None => {
                return Ok(None);
            },
        };
        assert(forall|w: Seq<u8>| db@.contains((key@, w)) ==> crate::order::lex_le(value@, w));
        proof {
            assert(db.set().contains((key@, value@)));
            assert(expected_index(&self.indexes@[index_index as int], cd.data.set()).contains(
                (key@, value@),
            ));
            let o = choose|o: Seq<u8>| #[trigger]
                cd.data.set().contains((value@, o)) && self.indexes@[index_index as int].spec_keys(
                    o,
                ).contains(key@);
            assert(cd.data@.contains((value@, o)));
            cd.data.lemma_has_key(value@);
        }
        let object = cd.data.get(value).unwrap();
        let id_key = IntKey::from_bytes(value);
        proof {
            assert(is_id_key(self.id, cd.last_id, value@));
            let w = choose|w: i64| value@ == #[trigger] spec_int_key(self.id, w) && w <= cd.last_id;
            let k = IntKey { prefix: self.id, id: w };
            assert(k.spec_bytes() == value@);
            assert forall|other: i64|
                db@.contains((key@, #[trigger] self.spec_id_key(other))) implies w <= other by {
                lemma_int_key_order(self.id, w, self.id, other);
                assert(value@ == spec_int_key(self.id, w));
                assert(self.spec_id_key(other) == spec_int_key(self.id, other));
                assert(crate::order::lex_le(value@, spec_int_key(self.id, other)));
            }
        }
        Ok(Some((id_key.unwrap().get_id(), object)))
    }

    /// Whether `id` is the least id that index `index_index` files under `key`.
    pub open spec fn first_under(&self, data: &TxnData, index_index: int, key: Seq<u8>, id: i64) -> bool {
        let db = data.cols@[self.id as int].indexes@[index_index];
        &&& db@.contains((key, self.spec_id_key(id)))
        &&& forall|other: i64| db@.contains((key, #[trigger] self.spec_id_key(other))) ==> id <= other
    }

    /// Deletes the object that index `index_index` files first under
    /// `key`; tells whether there was one.
    pub fn delete_by_index(&self, txn: &mut IsarTxn, index_index: usize, key: &IndexKey) -> (r:
        Result<bool, IsarError>)
        requires
            self.wf(),
            self.ready(old(txn)),
        ensures
            self.ready(final(txn)),
            final(txn).is_write() == old(txn).is_write(),
            old(txn).is_poisoned() ==> (r matches Err(e) && e is TransactionPoisoned),
            !old(txn).is_poisoned() && index_index >= self.indexes@.len() ==> (r matches Err(e)
                && e is IllegalArgument),
            !old(txn).is_poisoned() && index_index < self.indexes@.len() && !old(txn).is_write()
                ==> (r matches Err(e) && e is IllegalArgument) || r == Ok::<bool, IsarError>(
                false,
            ),
            r is Err || r == Ok::<bool, IsarError>(false) ==> (final(txn).is_poisoned() == old(txn).is_poisoned()) && (!old(txn).is_poisoned() ==> final(txn).data() == old(txn).data()),
            Self::live(old(txn)) && index_index < self.indexes@.len() ==> {
                &&& r == Ok::<bool, IsarError>(
                    old(txn).data().cols@[self.id as int].indexes@[index_index as int].has_key(
                        key@,
                    ),
                )
                &&& !final(txn).is_poisoned()
                &&& r == Ok::<bool, IsarError>(true) ==> exists|id: i64|
                    self.first_under(&old(txn).data(), index_index as int, key@, id)
                        && #[trigger] self.deleted(&old(txn).data(), &final(txn).data(), id)
            },
    {
        let id = match self.get_by_index(txn, index_index, key) {
            Ok(Some(hit)) => hit.0,
            Ok(None) => {
                return Ok(false);
            },
            Err(e) => {
                return Err(e);
            },
        };
        match self.delete(txn, id) {
            Ok(existed) => {
                proof {
                    let cd = old(txn).data().cols@[self.id as int];
                    cd.data.lemma_has_key(self.spec_id_key(id));
                }
                Ok(existed)
            },
            Err(e) => Err(e),
        }
    }

    /// Every object of the collection, as pairs of id key and bytes.
    pub fn debug_dump(&self, txn: &IsarTxn) -> (r: Option<DumpSet>)
        requires
            self.ready(txn),
        ensures
            r is Some <==> !txn.is_poisoned(),
            r matches Some(set) ==> dump_entries(set) == txn.data().cols@[self.id as int].data.set().filter(
                |e: Pair| is_prefix(spec_prefix(self.id), e.0),
            ),
    {
        match txn.get_read_txn() {
            Ok(data) => {
                let prefix = crate::link::prefix_bytes(self.id);
                let set = data.cols[self.id as usize].data.dump(Some(prefix.as_slice()));
                assert(dump_entries(set) =~= txn.data().cols@[self.id as int].data.set().filter(
                    |e: Pair| is_prefix(spec_prefix(self.id), e.0),
                ));
                Some(set)
            },
            Err(_) => None,
        }
    }

    pub fn debug_get_index(&self, index: usize) -> (r: &IsarIndex)
        requires
            index < self.indexes@.len(),
        ensures
            *r == self.indexes@[index as int],
    {
        &self.indexes[index]
    }

    /// The database of index `index` inside the transaction.
    pub fn debug_get_index_db<'a>(&self, txn: &'a IsarTxn, index: usize) -> (r: Option<&'a Db>)
        requires
            self.ready(txn),
        ensures
            r is Some <==> !txn.is_poisoned() && index < self.indexes@.len(),
            r matches Some(db) ==> *db == txn.data().cols@[self.id as int].indexes@[index as int],
    {
        match txn.get_read_txn() {
            Ok(data) => {
                let cd = &data.cols[self.id as usize];
                if index < cd.indexes.len() {
                    Some(&cd.indexes[index])
                } else {
                    None
                }
            },
            Err(_) => None,
        }
    }

    /// The database of the collection's objects inside the transaction.
    pub fn debug_get_db<'a>(&self, txn: &'a IsarTxn) -> (r: Option<&'a Db>)
        requires
            self.ready(txn),
        ensures
            r is Some <==> !txn.is_poisoned(),
            r matches Some(db) ==> *db == txn.data().cols@[self.id as int].data,
    {
        match txn.get_read_txn() {
            Ok(data) => Some(&data.cols[self.id as usize].data),
            Err(_) => None,
        }
    }

    pub fn debug_get_id(&self) -> (r: u16)
        ensures
            r == self.id,
    {
        self.id
    }

    /// Whether `x` gets along with the links of this collection.
    pub fn check_respects(&self, x: &Link) -> (r: bool)
        ensures
            r == self.respects(x),
    {
        let mut i: usize = 0;
        while i < self.links.len()
            invariant
                i <= self.links.len(),
                forall|k: int|
                    0 <= k < i ==> *x == #[trigger] self.links@[k] || x.disjoint(&self.links@[k]),
            decreases self.links.len() - i,
        {
            if !(*x == self.links[i] || x.is_disjoint(&self.links[i])) {
                return false;
            }
            i += 1;
        }
        let mut j: usize = 0;
        while j < self.backlinks.len()
            invariant
                j <= self.backlinks.len(),
                forall|k: int|
                    0 <= k < self.links@.len() ==> *x == #[trigger] self.links@[k] || x.disjoint(
                        &self.links@[k],
                    ),
                forall|k: int|
                    0 <= k < j ==> *x == #[trigger] self.backlinks@[k] || x.disjoint(
                        &self.backlinks@[k],
                    ),
            decreases self.backlinks.len() - j,
        {
            if !(*x == self.backlinks[j] || x.is_disjoint(&self.backlinks[j])) {
                return false;
            }
            j += 1;
        }
        true
    }

    /// Whether index `i` is sound and indexes properties of the layout.
    fn check_index(&self, i: usize) -> (r: bool)
        requires
            i < self.indexes@.len(),
        ensures
            r == (self.indexes@[i as int].wf() && forall|j: int|
                0 <= j < self.indexes@[i as int].properties@.len()
                    ==> self.object_info.properties@.contains(
                    (#[trigger] self.indexes@[i as int].properties@[j]).property,
                )),
    {
        let index = &self.indexes[i];
        if index.properties.len() == 0 {
            return false;
        }
        if index.multi_entry != index.properties[0].is_multi_entry() {
            return false;
        }
        let mut j: usize = 0;
        while j < index.properties.len()
            invariant
                j <= index.properties.len(),
                *index == self.indexes@[i as int],
                forall|k: int|
                    0 <= k < j ==> self.object_info.properties@.contains(
                        (#[trigger] index.properties@[k]).property,
                    ),
            decreases index.properties.len() - j,
        {
            let wanted = index.properties[j].property;
            let mut found = false;
            let mut k: usize = 0;
            while k < self.object_info.properties.len()
                invariant
                    k <= self.object_info.properties.len(),
                    !found ==> forall|x: int| 0 <= x < k ==> self.object_info.properties@[x] != wanted,
                    found ==> self.object_info.properties@.contains(wanted),
                decreases self.object_info.properties.len() - k,
            {
                if self.object_info.properties[k] == wanted {
                    found = true;
                    assert(self.object_info.properties@[k as int] == wanted);
                }
                k += 1;
            }
            if !found {
                assert(!self.object_info.properties@.contains(index.properties@[j as int].property));
                return false;
            }
            j += 1;
        }
        true
    }

    /// Whether the collection is sound: the layout, the indexes and the links.
    pub fn check(&self) -> (r: bool)
        ensures
            r == self.wf(),
    {
        let mut p: usize = 0;
        while p < self.object_info.properties.len()
            invariant
                p <= self.object_info.properties.len(),
                forall|k: int|
                    0 <= k < p ==> (#[trigger] self.object_info.properties@[k]).offset
                        + self.object_info.properties@[k].data_type.spec_static_size()
                        <= self.object_info.static_size,
            decreases self.object_info.properties.len() - p,
        {
            let property = self.object_info.properties[p];
            let size = property.data_type.get_static_size();
            if property.offset > self.object_info.static_size || self.object_info.static_size
                - property.offset < size {
                return false;
            }
            p += 1;
        }
        let mut i: usize = 0;
        while i < self.indexes.len()
            invariant
                i <= self.indexes.len(),
                self.object_info.wf(),
                forall|k: int| 0 <= k < i ==> (#[trigger] self.indexes@[k]).wf(),
                forall|k: int, j: int|
                    0 <= k < i && 0 <= j < self.indexes@[k].properties@.len()
                        ==> self.object_info.properties@.contains(
                        (#[trigger] self.indexes@[k].properties@[j]).property,
                    ),
            decreases self.indexes.len() - i,
        {
            if !self.check_index(i) {
                return false;
            }
            i += 1;
        }
        let mut l: usize = 0;
        while l < self.links.len()
            invariant
                l <= self.links.len(),
                forall|k: int|
                    0 <= k < l ==> (#[trigger] self.links@[k]).wf() && self.links@[k].col_id
                        == self.id && self.respects(&self.links@[k]),
            decreases self.links.len() - l,
        {
            let link = self.links[l];
            if link.id == link.backlink_id || link.col_id != self.id || !self.check_respects(&link) {
                return false;
            }
            l += 1;
        }
        let mut b: usize = 0;
        while b < self.backlinks.len()
            invariant
                b <= self.backlinks.len(),
                forall|k: int|
                    0 <= k < b ==> (#[trigger] self.backlinks@[k]).wf()
                        && self.backlinks@[k].target_col_id == self.id && self.respects(
                        &self.backlinks@[k],
                    ),
            decreases self.backlinks.len() - b,
        {
            let link = self.backlinks[b];
            if link.id == link.backlink_id || link.target_col_id != self.id || !self.check_respects(
                &link,
            ) {
                return false;
            }
            b += 1;
        }
        true
    }

    /// A builder for a query on this collection.
    pub fn new_query_builder(&self) -> (b: QueryBuilder)
        ensures
            b.col_id == self.id,
            b.where_clauses@.len() == 0,
            b.filter is None,
            b.sort@.len() == 0,
            b.distinct@.len() == 0,
            b.offset == 0,
            b.limit == usize::MAX,
    {
        QueryBuilder::new(self.id)
    }

    /// A builder for objects of this collection.
    pub fn get_object_builder(&self) -> (r: Option<ObjectBuilder<'_>>)
        requires
            self.object_info.wf(),
            self.object_info.slots_disjoint(),
        ensures
            r is Some <==> self.object_info.static_size <= u32::MAX,
            r matches Some(b) ==> b.wf() && b.info() == &self.object_info && b.position() == 0,
    {
        ObjectBuilder::new(&self.object_info)
    }

    /// The scan of every object of the collection, in ascending order of id.
    pub fn create_primary_where_clause(&self) -> (wc: WhereClause)
        ensures
            wc == WhereClause::Id(
                IdWhereClause { prefix: self.id, lower: i64::MIN, upper: i64::MAX, ascending: true },
            ),
    {
        WhereClause::Id(
            IdWhereClause { prefix: self.id, lower: i64::MIN, upper: i64::MAX, ascending: true },
        )
    }

    /// The scan of index `index_index` between two keys, both included, in
    /// ascending order; `None` for an index that the collection has not.
    pub fn create_secondary_where_clause(
        &self,
        index_index: usize,
        lower_key: &IndexKey,
        upper_key: &IndexKey,
        skip_duplicates: bool,
    ) -> (r: Option<WhereClause>)
        ensures
            r is Some <==> index_index < self.indexes@.len(),
            r matches Some(wc) ==> (wc matches WhereClause::Index(c) && c.index_index == index_index
                && c.properties@ == self.indexes@[index_index as int].properties@ && c.multi_entry
                == self.indexes@[index_index as int].multi_entry && c.lower_key@ == lower_key@
                && c.upper_key@ == upper_key@ && c.include_lower && c.include_upper
                && c.skip_duplicates == skip_duplicates && c.ascending),
    {
        if index_index >= self.indexes.len() {
            return None;
        }
        let index = &self.indexes[index_index];
        let mut properties: Vec<crate::index::IndexProperty> = Vec::new();
        let mut i: usize = 0;
        while i < index.properties.len()
            invariant
                i <= index.properties.len(),
                properties@ == index.properties@.subrange(0, i as int),
            decreases index.properties.len() - i,
        {
            properties.push(index.properties[i]);
            assert(properties@ =~= index.properties@.subrange(0, i + 1));
            i += 1;
        }
        assert(index.properties@.subrange(0, i as int) =~= index.properties@);
        Some(
            WhereClause::Index(
                IndexWhereClause {
                    index_index,
                    properties,
                    multi_entry: index.multi_entry,
                    lower_key: crate::order::copy_bytes(lower_key.as_bytes()),
                    upper_key: crate::order::copy_bytes(upper_key.as_bytes()),
                    include_lower: true,
                    include_upper: true,
                    skip_duplicates,
                    ascending: true,
                },
            ),
        )
    }

    /// Whether this collection gets along with every link of `other`.
    pub open spec fn respects_links_of(&self, other: &IsarCollection) -> bool {
        &&& forall|k: int| 0 <= k < other.links@.len() ==> self.respects(#[trigger] &other.links@[k])
        &&& forall|k: int|
            0 <= k < other.backlinks@.len() ==> self.respects(#[trigger] &other.backlinks@[k])
    }

    /// Link `link_index` of the collection as it is walked: from its
    /// sources, or with `is_backlink` from its targets, where it is then
    /// one of the links that end at this collection.
    pub open spec fn spec_link(&self, link_index: int, is_backlink: bool) -> Option<Link> {
        if is_backlink {
            if 0 <= link_index < self.backlinks@.len() {
                Some(self.backlinks@[link_index].spec_backlink())
            } else {
                None
            }
        } else {
            if 0 <= link_index < self.links@.len() {
                Some(self.links@[link_index])
            } else {
                None
            }
        }
    }

    /// Link `link_index` of the collection as it is walked.
    pub fn get_link(&self, link_index: usize, is_backlink: bool) -> (r: Option<Link>)
        ensures
            r == self.spec_link(link_index as int, is_backlink),
    {
        if is_backlink {
            if link_index < self.backlinks.len() {
                Some(self.backlinks[link_index].to_backlink())
            } else {
                None
            }
        } else {
            if link_index < self.links.len() {
                Some(self.links[link_index])
            } else {
                None
            }
        }
    }

    /// What a change to the edges of one link of the collection keeps:
    /// the collections' data, the pairs outside the link's key space, and
    /// the good order of this collection.
    pub open spec fn relinked(&self, before: &TxnData, after: &TxnData, link: Link) -> bool {
        &&& self.stored_in(after)
        &&& after.cols == before.cols
        &&& forall|e: Pair|
            !link.owns(e) ==> (before.links@.contains(e) <==> #[trigger] after.links@.contains(e))
        &&& forall|x: Link|
            (x == link || x == link.spec_backlink() || x.disjoint(&link)) && x.consistent(
                before.links@,
            ) ==> #[trigger] x.consistent(after.links@)
    }

    /// A change inside the key space of one link of the collection that
    /// keeps that link consistent keeps all links of the collection so.
    pub proof fn lemma_link_changed(&self, before: Seq<Pair>, after: Seq<Pair>, link: &Link)
        requires
            self.links_wf(),
            self.has_link(link),
            self.links_consistent(before),
            link.consistent(before) ==> link.consistent(after),
            forall|e: Pair| !link.owns(e) ==> (before.contains(e) <==> #[trigger] after.contains(e)),
        ensures
            self.links_consistent(after),
            forall|x: Link|
                (x == *link || x == link.spec_backlink() || x.disjoint(link)) && x.consistent(
                    before,
                ) ==> #[trigger] x.consistent(after),
    {
        assert forall|x: Link|
            (x == *link || x == link.spec_backlink() || x.disjoint(link)) && x.consistent(
                before,
            ) implies #[trigger] x.consistent(after) by {
            if x == *link {
            } else if x == link.spec_backlink() {
                link.lemma_backlink_consistent(before);
                link.lemma_backlink_consistent(after);
            } else {
                assert forall|e: Pair| x.owns(e) implies (#[trigger] before.contains(e)
                    <==> after.contains(e)) by {
                    x.lemma_disjoint_owns(link, e);
                }
                x.lemma_untouched_consistent(before, after);
            }
        }
        assert forall|i: int| 0 <= i < self.links@.len() implies (#[trigger] self.links@[i]).consistent(
            after,
        ) by {
            assert(self.respects(&self.links@[i]));
            self.lemma_related(&self.links@[i], link);
        }
        assert forall|i: int| 0 <= i < self.backlinks@.len() implies (
        #[trigger] self.backlinks@[i]).consistent(after) by {
            assert(self.respects(&self.backlinks@[i]));
            self.lemma_related(&self.backlinks@[i], link);
        }
    }

    /// Stores the edge of link `link_index` from the object `id` of this
    /// collection to the object `target` of the link's target collection,
    /// both ways; tells whether both objects exist. An unknown link fails
    /// with `IllegalArgument`.
    pub fn link(&self, txn: &mut IsarTxn, link_index: usize, id: i64, target: i64) -> (r: Result<
        bool,
        IsarError,
    >)
        requires
            self.wf(),
            self.ready(old(txn)),
        ensures
            self.ready(final(txn)),
            final(txn).is_write() == old(txn).is_write(),
            old(txn).is_poisoned() ==> (r matches Err(e) && e is TransactionPoisoned),
            !old(txn).is_poisoned() && !old(txn).is_write() ==> (r matches Err(e)
                && e is IllegalArgument) && *final(txn) == *old(txn),
            Self::live(old(txn)) ==> {
                let before = old(txn).data();
                let known = link_index < self.links@.len() && self.links@[link_index as int].target_col_id
                    < before.cols@.len();
                &&& r is Ok <==> known
                &&& r matches Err(e) ==> e is IllegalArgument && final(txn).is_poisoned()
                &&& r matches Ok(done) ==> {
                    let link = self.links@[link_index as int];
                    let after = final(txn).data();
                    &&& !final(txn).is_poisoned()
                    &&& done == (self.holds(&before, id) && before.cols@[link.target_col_id as int].data.has_key(
                        spec_int_key(link.target_col_id, target),
                    ))
                    &&& self.relinked(&before, &after, link)
                    &&& done ==> after.links.set() == before.links.set().insert(
                        link.forward_pair(id, target),
                    ).insert(link.backward_pair(id, target))
                    &&& !done ==> after.links@ == before.links@
                }
            },
    {
        let mut data = match txn.take_write_txn() {
            Ok(data) => data,
            Err(e) => {
                return Err(e);
            },
        };
        if link_index >= self.links.len() || self.links[link_index].target_col_id as usize
            >= data.cols.len() {
            return Err(IsarError::IllegalArgument { message: "Unknown link.".to_string() });
        }
        let link = self.links[link_index];
        let ghost before = data.links;
        let done = link.create(
            &data.cols[self.id as usize].data,
            &data.cols[link.target_col_id as usize].data,
            &mut data.links,
            id,
            target,
        );
        proof {
            assert(self.links@[link_index as int] == link);
            assert(link.consistent(before@));
            self.lemma_link_changed(before@, data.links@, &link);
        }
        txn.put_write_txn(data);
        done
    }

    /// Removes the edge of link `link_index` from `id` to `target`, both
    /// ways; tells whether it was stored.
    pub fn unlink(&self, txn: &mut IsarTxn, link_index: usize, id: i64, target: i64) -> (r: Result<
        bool,
        IsarError,
    >)
        requires
            self.wf(),
            self.ready(old(txn)),
        ensures
            self.ready(final(txn)),
            final(txn).is_write() == old(txn).is_write(),
            old(txn).is_poisoned() ==> (r matches Err(e) && e is TransactionPoisoned),
            !old(txn).is_poisoned() && !old(txn).is_write() ==> (r matches Err(e)
                && e is IllegalArgument) && *final(txn) == *old(txn),
            Self::live(old(txn)) ==> {
                let before = old(txn).data();
                &&& r is Ok <==> link_index < self.links@.len()
                &&& r matches Err(e) ==> e is IllegalArgument && final(txn).is_poisoned()
                &&& r matches Ok(done) ==> {
                    let link = self.links@[link_index as int];
                    let after = final(txn).data();
                    &&& !final(txn).is_poisoned()
                    &&& done == link.linked(before.links@, id, target)
                    &&& self.relinked(&before, &after, link)
                    &&& done ==> after.links.set() == before.links.set().remove(
                        link.forward_pair(id, target),
                    ).remove(link.backward_pair(id, target))
                    &&& !done ==> after.links@ == before.links@
                }
            },
    {
        let mut data = match txn.take_write_txn() {
            Ok(data) => data,
            Err(e) => {
                return Err(e);
            },
        };
        if link_index >= self.links.len() {
            return Err(IsarError::IllegalArgument { message: "Unknown link.".to_string() });
        }
        let link = self.links[link_index];
        let ghost before = data.links;
        proof {
            assert(self.links@[link_index as int] == link);
            assert(link.consistent(before@));
            link.lemma_consistent_symmetric(before@);
        }
        let done = link.delete(&mut data.links, id, target);
        proof {
            self.lemma_link_changed(before@, data.links@, &link);
        }
        txn.put_write_txn(data);
        done
    }

    /// The objects at the other end of the edges of a link from the
    /// object `id`: its targets, or with `is_backlink` its sources; each
    /// with its id and bytes, in ascending order of id.
    pub fn get_linked(&self, txn: &IsarTxn, link_index: usize, is_backlink: bool, id: i64) -> (r:
        Result<Vec<(i64, Vec<u8>)>, IsarError>)
        requires
            self.ready(txn),
        ensures
            txn.is_poisoned() ==> (r matches Err(e) && e is TransactionPoisoned),
            !txn.is_poisoned() ==> {
                let data = txn.data();
                match self.spec_link(link_index as int, is_backlink) {
                    None => r matches Err(e) && e is IllegalArgument,
                    Some(link) => if link.target_col_id >= data.cols@.len() {
                        r matches Err(e) && e is IllegalArgument
                    } else {
                        let key = spec_int_key(link.id, id);
                        let hits = spec_scan(data.links@, key, key, false, true);
                        let target_data = data.cols@[link.target_col_id as int].data;
                        &&& r is Ok <==> forall|i: int|
                            0 <= i < hits.len() ==> (#[trigger] hits[i]).1.len() == 10
                                && target_data.has_key(hits[i].1)
                        &&& r matches Err(e) ==> e is DbCorrupted
                        &&& r matches Ok(list) ==> list.len() == hits.len() && forall|i: int|
                            0 <= i < list.len() ==> spec_int_key(
                                crate::key::spec_key_of(hits[i].1).prefix,
                                (#[trigger] list[i]).0,
                            ) == hits[i].1 && target_data@.contains((hits[i].1, list[i].1@))
                    },
                }
            },
    {
        let data = match txn.get_read_txn() {
            Ok(data) => data,
            Err(e) => {
                return Err(e);
            },
        };
        let link = match self.get_link(link_index, is_backlink) {
            Some(link) => link,
            None => {
                return Err(IsarError::IllegalArgument { message: "Unknown link.".to_string() });
            },
        };
        if link.target_col_id as usize >= data.cols.len() {
            return Err(IsarError::IllegalArgument { message: "Unknown link.".to_string() });
        }
        let target_data = &data.cols[link.target_col_id as usize].data;
        let found = match link.iter(target_data, &data.links, id) {
            Ok(found) => found,
            Err(e) => {
                return Err(e);
            },
        };
        let ghost key = spec_int_key(link.id, id);
        let ghost hits = spec_scan(data.links@, key, key, false, true);
        let mut list: Vec<(i64, Vec<u8>)> = Vec::new();
        let mut i: usize = 0;
        while i < found.len()
            invariant
                i <= found.len(),
                found.len() == hits.len(),
                forall|k: int|
                    0 <= k < found.len() ==> (#[trigger] found[k]).0.spec_bytes() == hits[k].1
                        && target_data@.contains((hits[k].1, found[k].1@)),
                list.len() == i,
                forall|k: int|
                    0 <= k < i ==> spec_int_key(
                        crate::key::spec_key_of(hits[k].1).prefix,
                        (#[trigger] list[k]).0,
                    ) == hits[k].1 && target_data@.contains((hits[k].1, list[k].1@)),
            decreases found.len() - i,
        {
            proof {
                crate::key::lemma_key_of(found[i as int].0);
            }
            list.push((found[i].0.id, crate::order::copy_bytes(found[i].1.as_slice())));
            i += 1;
        }
        Ok(list)
    }

    /// Where no pair is added to the links, an object without edges stays
    /// without edges.
    pub proof fn lemma_unlinked_kept(&self, before: &Db, after: &Db, id: i64)
        requires
            forall|e: Pair| #[trigger] after@.contains(e) ==> before@.contains(e),
            self.unlinked(before, id),
        ensures
            self.unlinked(after, id),
    {
        assert forall|i: int| 0 <= i < self.links@.len() implies !after.has_key(
            spec_int_key((#[trigger] self.links@[i]).id, id),
        ) by {
            let key = spec_int_key(self.links@[i].id, id);
            if after.has_key(key) {
                let w = choose|w: int| 0 <= w < after@.len() && (#[trigger] after@[w]).0 == key;
                assert(after@.contains(after@[w]));
                let u = choose|u: int| 0 <= u < before@.len() && before@[u] == after@[w];
                assert(before@[u].0 == key);
            }
        }
        assert forall|i: int| 0 <= i < self.backlinks@.len() implies !after.has_key(
            spec_int_key((#[trigger] self.backlinks@[i]).backlink_id, id),
        ) by {
            let key = spec_int_key(self.backlinks@[i].backlink_id, id);
            if after.has_key(key) {
                let w = choose|w: int| 0 <= w < after@.len() && (#[trigger] after@[w]).0 == key;
                assert(after@.contains(after@[w]));
                let u = choose|u: int| 0 <= u < before@.len() && before@[u] == after@[w];
                assert(before@[u].0 == key);
            }
        }
    }

    /// An object that stands in the way of another is stored.
    pub proof fn lemma_conflict_held(&self, cd: &CollectionData, id: i64, object: Seq<u8>, other: i64)
        requires
            self.coherent(cd),
            self.conflicting(cd, id, object, other),
        ensures
            cd.data.has_key(self.spec_id_key(other)),
    {
        let ok = self.spec_id_key(other);
        let w = choose|w: int|
            0 <= w < self.indexes@.len() && (#[trigger] self.indexes@[w]).conflicts_with(
                cd.indexes@[w]@,
                self.spec_id_key(id),
                object,
                ok,
            );
        let index = self.indexes@[w];
        let k = choose|k: Seq<u8>|
            index.spec_keys(object).contains(k) && #[trigger] cd.indexes@[w]@.contains((k, ok));
        assert(index.stores_in(&cd.indexes@[w]));
        assert(cd.indexes@[w].set().contains((k, ok)));
        assert(expected_index(&index, cd.data.set()).contains((k, ok)));
        let o = choose|o: Seq<u8>| #[trigger]
            cd.data.set().contains((ok, o)) && index.spec_keys(o).contains(k);
        assert(cd.data@.contains((ok, o)));
        cd.data.lemma_has_key(ok);
    }

    /// What two operations in a row leave alone, both together leave alone.
    pub proof fn lemma_frame_chain(&self, a: &TxnData, b: &TxnData, c: &TxnData)
        requires
            self.frame(a, b),
            self.frame(b, c),
        ensures
            self.frame(a, c),
    {
        assert forall|e: Pair|
            !self.owns_link_pair(e) implies (a.links@.contains(e) <==> #[trigger] c.links@.contains(
            e,
        )) by {
            assert(b.links@.contains(e) <==> c.links@.contains(e));
        }
        assert forall|x: Link| self.respects(&x) && x.consistent(a.links@) implies #[trigger] x.consistent(
            c.links@,
        ) by {
            assert(x.consistent(b.links@));
        }
        assert forall|e: Pair| #[trigger] c.links@.contains(e) implies a.links@.contains(e) by {
            assert(b.links@.contains(e));
        }
    }

    /// Index coherence: in every state in which the collection is stored
    /// in good order, an index holds the pair of a key and an id key
    /// exactly when the object stored under that id key has the key; so
    /// every pair of the index belongs to a stored object, and every key
    /// of every stored object is filed.
    pub proof fn lemma_index_coherence(&self, data: &TxnData, i: int, e: Pair)
        requires
            self.stored_in(data),
            0 <= i < self.indexes@.len(),
        ensures
            data.cols@[self.id as int].indexes@[i]@.contains(e) <==> exists|object: Seq<u8>| #[trigger]
                data.cols@[self.id as int].data@.contains((e.1, object)) && self.indexes@[i].spec_keys(
                    object,
                ).contains(e.0),
            data.cols@[self.id as int].indexes@[i]@.contains(e) ==> is_id_key(
                self.id,
                data.cols@[self.id as int].last_id,
                e.1,
            ),
    {
        let cd = data.cols@[self.id as int];
        let db = cd.indexes@[i];
        assert(self.indexes@[i].stores_in(&db));
        assert(db.set().contains(e) == db@.contains(e));
        assert(db.set() == expected_index(&self.indexes@[i], cd.data.set()));
        if db@.contains(e) {
            let object = choose|object: Seq<u8>| #[trigger]
                cd.data.set().contains((e.1, object)) && self.indexes@[i].spec_keys(
                    object,
                ).contains(e.0);
            assert(cd.data@.contains((e.1, object)));
        }
        if exists|object: Seq<u8>| #[trigger]
            cd.data@.contains((e.1, object)) && self.indexes@[i].spec_keys(object).contains(e.0) {
            let object = choose|object: Seq<u8>| #[trigger]
                cd.data@.contains((e.1, object)) && self.indexes@[i].spec_keys(object).contains(
                    e.0,
                );
            assert(cd.data.set().contains((e.1, object)));
        }
    }

    /// Unique coherence: in every state in which the collection is stored
    /// in good order, a unique index holds no key twice.
    pub proof fn lemma_unique_coherence(
        &self,
        data: &TxnData,
        i: int,
        key: Seq<u8>,
        a: Seq<u8>,
        b: Seq<u8>,
    )
        requires
            self.stored_in(data),
            0 <= i < self.indexes@.len(),
            self.indexes@[i].unique,
            data.cols@[self.id as int].indexes@[i]@.contains((key, a)),
            data.cols@[self.id as int].indexes@[i]@.contains((key, b)),
        ensures
            a == b,
    {
        let db = data.cols@[self.id as int].indexes@[i];
        assert(self.indexes@[i].stores_in(&db));
        db.lemma_one_value(key, a, b);
    }

    /// Put files the object: after a successful put, every index holds
    /// each key of the object under the id of the object, and a unique
    /// index holds such a key under no other id.
    pub proof fn lemma_put_filed(
        &self,
        before: &TxnData,
        after: &TxnData,
        id: Option<i64>,
        object: Seq<u8>,
        i: int,
        key: Seq<u8>,
    )
        requires
            self.was_put(before, after, id, object),
            0 <= i < self.indexes@.len(),
            self.indexes@[i].spec_keys(object).contains(key),
        ensures
            ({
                let stored = self.spec_id_key(Self::spec_put_id(&before.cols@[self.id as int], id));
                let db = after.cols@[self.id as int].indexes@[i];
                &&& db@.contains((key, stored))
                &&& self.indexes@[i].unique ==> forall|v: Seq<u8>| #[trigger]
                    db@.contains((key, v)) ==> v == stored
            }),
    {
        let stored = self.spec_id_key(Self::spec_put_id(&before.cols@[self.id as int], id));
        let cd = after.cols@[self.id as int];
        let db = cd.indexes@[i];
        assert(cd.data.set().contains((stored, object)));
        assert(cd.data@.contains((stored, object)));
        let e = (key, stored);
        self.lemma_index_coherence(after, i, e);
        assert(cd.data@.contains((e.1, object)) && self.indexes@[i].spec_keys(object).contains(e.0));
        assert(db@.contains(e));
        if self.indexes@[i].unique {
            assert forall|v: Seq<u8>| #[trigger] db@.contains((key, v)) implies v == stored by {
                self.lemma_unique_coherence(after, i, key, v, stored);
            }
        }
    }

    /// Link symmetry: in every state in which the collection is stored in
    /// good order, each of its links has an edge stored forward exactly
    /// when it has it stored backward.
    pub proof fn lemma_link_symmetry(&self, data: &TxnData, i: int, source: i64, target: i64)
        requires
            self.stored_in(data),
            0 <= i < self.links@.len(),
        ensures
            self.links@[i].linked(data.links@, source, target) <==> self.links@[i].back_linked(
                data.links@,
                source,
                target,
            ),
    {
        let link = self.links@[i];
        assert(link.consistent(data.links@));
        link.lemma_consistent_symmetric(data.links@);
        assert(link.forward_pair(source, target) == link.forward_pair(source, target));
    }

    /// Delete spares the other edges: after an object is deleted, an edge
    /// between two other objects, of whatever link, is stored forward and
    /// backward exactly as it was before.
    pub proof fn lemma_delete_spares(
        &self,
        before: &TxnData,
        after: &TxnData,
        id: i64,
        link: &Link,
        source: i64,
        target: i64,
    )
        requires
            self.deleted(before, after, id),
            source != id,
            target != id,
        ensures
            link.linked(after.links@, source, target) == link.linked(
                before.links@,
                source,
                target,
            ),
            link.back_linked(after.links@, source, target) == link.back_linked(
                before.links@,
                source,
                target,
            ),
    {
        let f = link.forward_pair(source, target);
        let b = link.backward_pair(source, target);
        if self.holds(before, id) {
            assert forall|i: int| 0 <= i < self.links@.len() implies !(#[trigger] self.links@[i]).touches(
                before.links@,
                id,
                f,
            ) && !self.links@[i].touches(before.links@, id, b) by {
                self.links@[i].lemma_touches_apart(before.links@, id, link, source, target);
            }
            assert forall|j: int| 0 <= j < self.backlinks@.len() implies !(
            #[trigger] self.backlinks@[j]).spec_backlink().touches(before.links@, id, f)
                && !self.backlinks@[j].spec_backlink().touches(before.links@, id, b) by {
                self.backlinks@[j].spec_backlink().lemma_touches_apart(
                    before.links@,
                    id,
                    link,
                    source,
                    target,
                );
            }
            assert(!self.incident(before.links@, id, f));
            assert(!self.incident(before.links@, id, b));
            assert(after.links.set().contains(f) == after.links@.contains(f));
            assert(before.links.set().contains(f) == before.links@.contains(f));
            assert(after.links.set().contains(b) == after.links@.contains(b));
            assert(before.links.set().contains(b) == before.links@.contains(b));
        } else {
            assert(after@.links == before@.links);
        }
    }

    /// Put spares the other edges: after a successful put, an edge between
    /// two objects of which none was pushed out over a unique index, of
    /// whatever link, is stored forward and backward exactly as it was
    /// before.
    pub proof fn lemma_put_spares(
        &self,
        before: &TxnData,
        after: &TxnData,
        id: Option<i64>,
        object: Seq<u8>,
        link: &Link,
        source: i64,
        target: i64,
    )
        requires
            self.was_put(before, after, id, object),
            forall|other: i64| #[trigger]
                self.conflicting(
                    &before.cols@[self.id as int],
                    Self::spec_put_id(&before.cols@[self.id as int], id),
                    object,
                    other,
                ) ==> source != other && target != other,
        ensures
            link.linked(after.links@, source, target) == link.linked(
                before.links@,
                source,
                target,
            ),
            link.back_linked(after.links@, source, target) == link.back_linked(
                before.links@,
                source,
                target,
            ),
    {
        let f = link.forward_pair(source, target);
        let b = link.backward_pair(source, target);
        let new_id = Self::spec_put_id(&before.cols@[self.id as int], id);
        assert forall|other: i64| #[trigger]
            self.conflicting(&before.cols@[self.id as int], new_id, object, other) implies !self.incident(
            before.links@,
            other,
            f,
        ) && !self.incident(before.links@, other, b) by {
            assert forall|i: int| 0 <= i < self.links@.len() implies !(#[trigger] self.links@[i]).touches(
                before.links@,
                other,
                f,
            ) && !self.links@[i].touches(before.links@, other, b) by {
                self.links@[i].lemma_touches_apart(before.links@, other, link, source, target);
            }
            assert forall|j: int| 0 <= j < self.backlinks@.len() implies !(
            #[trigger] self.backlinks@[j]).spec_backlink().touches(before.links@, other, f)
                && !self.backlinks@[j].spec_backlink().touches(before.links@, other, b) by {
                self.backlinks@[j].spec_backlink().lemma_touches_apart(
                    before.links@,
                    other,
                    link,
                    source,
                    target,
                );
            }
        }
        assert(!self.severed(before, new_id, object, f));
        assert(!self.severed(before, new_id, object, b));
        assert(after.links.set().contains(f) == after.links@.contains(f));
        assert(before.links.set().contains(f) == before.links@.contains(f));
        assert(after.links.set().contains(b) == after.links@.contains(b));
        assert(before.links.set().contains(b) == before.links@.contains(b));
    }

    /// Idempotent delete: deleting an object a second time reports that
    /// it was not stored and leaves the state as the first delete left it.
    pub proof fn lemma_delete_idempotent(
        &self,
        start: &TxnData,
        once: &TxnData,
        twice: &TxnData,
        id: i64,
    )
        requires
            self.stored_in(start),
            self.deleted(start, once, id),
            self.deleted(once, twice, id),
        ensures
            !self.holds(once, id),
            twice@ == once@,
    {
        let cd = once.cols@[self.id as int];
        let idk = self.spec_id_key(id);
        cd.data.lemma_has_key(idk);
        if cd.data.has_key(idk) {
            let v = choose|v: Seq<u8>| cd.data@.contains((idk, v));
            assert(cd.data.set().contains((idk, v)));
        }
    }
}

} // verus!
