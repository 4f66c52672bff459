use crate::dump::{dump_entries, DumpSet};
use crate::error::IsarError;
use crate::index::index_key::IndexKey;
use crate::index::index_key_builder::{properties_readable, spec_index_keys, IndexKeyBuilder};
use crate::key::IntKey;
use crate::object::data_type::DataType;
use crate::order::{bytes_equal, lemma_take_step};
use crate::store::{spec_scan, Db, Entry, Pair};
use crate::object::property::Property;
use crate::schema::index_schema::IndexType;
use crate::text::{string_with_case, with_case};
use vstd::prelude::*;
use vstd::string::StringSliceAdditionalSpecFns;
use vstd::utf8::{decode_utf8, encode_utf8_decode_utf8};

pub mod index_key;
pub mod index_key_builder;

verus! {

/// One property of an index: which value enters the key, and how.
#[derive(Clone, Copy, Debug, PartialEq, Eq, Structural)]
pub struct IndexProperty {
    pub property: Property,
    pub index_type: IndexType,
    pub case_sensitive: bool,
}

impl IndexProperty {
    pub fn new(property: Property, index_type: IndexType, case_sensitive: bool) -> (ip: Self)
        ensures
            ip.property == property,
            ip.index_type == index_type,
            ip.case_sensitive == case_sensitive,
    {
        IndexProperty { property, index_type, case_sensitive }
    }

    /// The string value as the index compares it: as stored where case
    /// matters, in lowercase where it does not; `None` for a null value.
    pub fn get_string_with_case(&self, object: &[u8]) -> (r: Option<String>)
        requires
            self.property.data_type == DataType::String,
            self.property.readable(object@),
        ensures
            r is Some == self.property.spec_bytes(object@) is Some,
            r is Some ==> r->Some_0@ == with_case(
                decode_utf8(self.property.spec_bytes(object@)->Some_0),
                self.case_sensitive,
            ),
    {
        match self.property.get_string(object) {
            Some(s) => {
                proof {
                    encode_utf8_decode_utf8(s@);
                }
                Some(string_with_case(s, self.case_sensitive))
            },
            None => None,
        }
    }

    /// A list property that is not hashed as a whole gives one key per element.
    pub open spec fn spec_multi_entry(&self) -> bool {
        self.property.data_type.spec_element_type() is Some && self.index_type != IndexType::Hash
    }

    pub fn is_multi_entry(&self) -> (r: bool)
        ensures
            r == self.spec_multi_entry(),
    {
        self.property.data_type.get_element_type().is_some() && self.index_type != IndexType::Hash
    }
}

/// The pairs that file an object with key `id` under each of `keys`.
pub open spec fn entries_for(keys: Seq<Seq<u8>>, id: Seq<u8>) -> Set<Pair> {
    Set::new(|e: Pair| e.1 == id && keys.contains(e.0))
}

/// Whether `other` is another id that holds one of `keys`.
pub open spec fn holds_key_of(db: Seq<Pair>, id: Seq<u8>, keys: Seq<Seq<u8>>, other: Seq<u8>) -> bool {
    other != id && exists|k: Seq<u8>| keys.contains(k) && #[trigger] db.contains((k, other))
}

/// Whether `other` is among the byte strings of `found`.
pub open spec fn listed(found: Seq<Vec<u8>>, other: Seq<u8>) -> bool {
    exists|j: int| 0 <= j < found.len() && (#[trigger] found[j])@ == other
}

/// Reads every value of `entries` as an id key.
pub fn decode_ids(entries: &Vec<Entry>) -> (r: Result<Vec<IntKey>, IsarError>)
    ensures
        r is Ok <==> forall|i: int| 0 <= i < entries.len() ==> (#[trigger] entries[i]).val@.len() == 10,
        r matches Err(e) ==> e is DbCorrupted,
        r matches Ok(ids) ==> ids.len() == entries.len() && forall|i: int|
            0 <= i < ids.len() ==> (#[trigger] ids[i]).spec_bytes() == entries[i].val@,
{
    let mut ids: Vec<IntKey> = Vec::new();
    let mut i: usize = 0;
    while i < entries.len()
        invariant
            i <= entries.len(),
            ids.len() == i,
            forall|k: int| 0 <= k < i ==> (#[trigger] entries[k]).val@.len() == 10,
            forall|k: int| 0 <= k < i ==> (#[trigger] ids[k]).spec_bytes() == entries[k].val@,
        decreases entries.len() - i,
    {
        match IntKey::from_bytes(entries[i].val.as_slice()) {
            Some(id) => ids.push(id),
            None => {
                return Err(
                    IsarError::DbCorrupted { message: "Malformed id in index.".to_string() },
                );
            },
        }
        i += 1;
    }
    Ok(ids)
}

/// A secondary index: its key properties and whether keys are unique. The
/// pairs of an index map each key to the id key of the object filed there.
#[derive(Debug)]
pub struct IsarIndex {
    pub name: String,
    pub properties: Vec<IndexProperty>,
    pub unique: bool,
    pub multi_entry: bool,
}

impl IsarIndex {
    pub const MAX_STRING_INDEX_SIZE: usize = 1024;

    /// An index has at least one property, and is multi-entry exactly when
    /// its first property is.
    pub open spec fn wf(&self) -> bool {
        &&& self.properties@.len() > 0
        &&& self.multi_entry == self.properties@[0].spec_multi_entry()
    }

    /// The keys under which the index files the object.
    pub open spec fn spec_keys(&self, object: Seq<u8>) -> Seq<Seq<u8>> {
        spec_index_keys(self.properties@, object)
    }

    /// Whether every indexed property can be read from the object.
    pub open spec fn readable(&self, object: Seq<u8>) -> bool {
        properties_readable(self.properties@, object)
    }

    /// Whether `db` is a database for this index: it allows duplicate keys
    /// exactly when the index is not unique.
    pub open spec fn stores_in(&self, db: &Db) -> bool {
        db.wf() && db.allows_dup() == !self.unique
    }

    /// Whether the object with id key `other` stands in the way of filing
    /// `object` under `id`: the index is unique, and `other` is another id
    /// that already holds one of the object's keys.
    pub open spec fn conflicts_with(
        &self,
        db: Seq<Pair>,
        id: Seq<u8>,
        object: Seq<u8>,
        other: Seq<u8>,
    ) -> bool {
        self.unique && holds_key_of(db, id, self.spec_keys(object), other)
    }

    pub open spec fn has_conflict(&self, db: Seq<Pair>, id: Seq<u8>, object: Seq<u8>) -> bool {
        exists|other: Seq<u8>| self.conflicts_with(db, id, object, other)
    }

    pub fn new(name: &str, properties: Vec<IndexProperty>, unique: bool) -> (index: Self)
        requires
            properties@.len() > 0,
        ensures
            index.wf(),
            index.name@ == name@,
            index.properties@ == properties@,
            index.unique == unique,
    {
        let multi_entry = properties[0].is_multi_entry();
        IsarIndex { name: name.to_owned(), properties, unique, multi_entry }
    }

    /// The id keys of the other objects that hold a key of `object` in a
    /// unique index, each at least once.
    pub fn conflicts_for_object(&self, db: &Db, id_key: &IntKey, object: &[u8]) -> (r: Vec<
        Vec<u8>,
    >)
        requires
            self.wf(),
            self.stores_in(db),
            self.readable(object@),
        ensures
            forall|other: Seq<u8>|
                #[trigger] self.conflicts_with(db@, id_key.spec_bytes(), object@, other) <==> listed(
                    r@,
                    other,
                ),
    {
        let mut found: Vec<Vec<u8>> = Vec::new();
        if !self.unique {
            assert forall|other: Seq<u8>| !listed(found@, other) by {}
            return found;
        }
        let keys = IndexKeyBuilder::new(&self.properties).create_keys(object);
        let id_bytes = id_key.as_bytes();
        let ghost model = self.spec_keys(object@);
        let ghost id = id_key.spec_bytes();
        let mut i: usize = 0;
        while i < keys.len()
            invariant
                i <= keys.len(),
                self.unique,
                self.stores_in(db),
                model == self.spec_keys(object@),
                id == id_key.spec_bytes(),
                id_bytes@ == id,
                keys.len() == model.len(),
                forall|k: int| 0 <= k < keys.len() ==> (#[trigger] keys[k])@ == model[k],
                forall|other: Seq<u8>|
                    #[trigger] holds_key_of(db@, id, model.take(i as int), other) <==> listed(
                        found@,
                        other,
                    ),
            decreases keys.len() - i,
        {
            let ghost before = found@;
            let ghost key = model[i as int];
            let hit = db.get(keys[i].as_bytes());
            let mut added = false;
            match hit {
                Some(v) => {
                    if !bytes_equal(v, id_bytes.as_slice()) {
                        found.push(crate::order::copy_bytes(v));
                        added = true;
                    }
                },
                None => {},
            }
            proof {
                db.lemma_has_key(key);
                assert forall|other: Seq<u8>|
                    #[trigger] holds_key_of(db@, id, model.take(i + 1), other) <==> listed(
                        found@,
                        other,
                    ) by {
                    let lhs_old = holds_key_of(db@, id, model.take(i as int), other);
                    let rhs_old = listed(before, other);
                    assert(lhs_old <==> rhs_old);
                    if other != id && db@.contains((key, other)) {
                        let v = hit->Some_0@;
                        db.lemma_one_value(key, v, other);
                        assert(added);
                        assert(found[found.len() - 1]@ == other);
                    }
                    if holds_key_of(db@, id, model.take(i + 1), other) {
                        let k = choose|k: Seq<u8>|
                            model.take(i + 1).contains(k) && #[trigger] db@.contains((k, other));
                        lemma_take_step(model, i as int, k);
                        if k != key {
                            assert(lhs_old);
                            let j = choose|j: int| 0 <= j < before.len() && (#[trigger] before[j])@
                                == other;
                            assert(found[j]@ == other);
                        }
                    }
                    if listed(found@, other) {
                        let j = choose|j: int| 0 <= j < found.len() && (#[trigger] found[j])@
                            == other;
                        if j < before.len() {
                            assert(before[j]@ == other);
                            assert(lhs_old);
                            let k = choose|k: Seq<u8>|
                                model.take(i as int).contains(k) && #[trigger] db@.contains(
                                    (k, other),
                                );
                            lemma_take_step(model, i as int, k);
                        } else {
                            lemma_take_step(model, i as int, key);
                            assert(db@.contains((key, other)));
                        }
                    }
                }
            }
            i += 1;
        }
        assert(model.take(i as int) =~= model);
        found
    }

    /// Files `object` under the id key: one pair per key of the object. A
    /// unique index refuses an object whose key another object holds, and
    /// is then left as it was.
    pub fn create_for_object(&self, db: &mut Db, id_key: &IntKey, object: &[u8]) -> (r: Result<
        (),
        IsarError,
    >)
        requires
            self.wf(),
            self.stores_in(old(db)),
            self.readable(object@),
        ensures
            self.stores_in(final(db)),
            r is Err <==> self.has_conflict(old(db)@, id_key.spec_bytes(), object@),
            r matches Err(e) ==> e is UniqueViolation && final(db)@ == old(db)@,
            r is Ok ==> final(db).set() == old(db).set().union(
                entries_for(self.spec_keys(object@), id_key.spec_bytes()),
            ),
    {
        let ghost model = self.spec_keys(object@);
        let ghost id = id_key.spec_bytes();
        let conflicts = self.conflicts_for_object(db, id_key, object);
        if conflicts.len() > 0 {
            assert(listed(conflicts@, conflicts[0]@));
            assert(self.conflicts_with(db@, id, object@, conflicts[0]@));
            return Err(IsarError::UniqueViolation { index: self.name.clone() });
        }
        assert(!self.has_conflict(db@, id, object@)) by {
            if self.has_conflict(db@, id, object@) {
                let other = choose|other: Seq<u8>| self.conflicts_with(db@, id, object@, other);
                assert(listed(conflicts@, other));
            }
        }
        let keys = IndexKeyBuilder::new(&self.properties).create_keys(object);
        let id_bytes = id_key.as_bytes();
        let mut i: usize = 0;
        assert(db.set() =~= old(db).set().union(entries_for(model.take(0), id)));
        while i < keys.len()
            invariant
                i <= keys.len(),
                self.stores_in(db),
                model == self.spec_keys(object@),
                id == id_key.spec_bytes(),
                id_bytes@ == id,
                keys.len() == model.len(),
                forall|k: int| 0 <= k < keys.len() ==> (#[trigger] keys[k])@ == model[k],
                !self.has_conflict(old(db)@, id, object@),
                db.set() == old(db).set().union(entries_for(model.take(i as int), id)),
            decreases keys.len() - i,
        {
            let ghost before = db@;
            let ghost before_set = db.set();
            let ghost key = model[i as int];
            db.put(keys[i].as_bytes(), id_bytes.as_slice());
            proof {
                assert forall|e: Pair| db.set().contains(e) == old(db).set().union(
                    entries_for(model.take(i + 1), id),
                ).contains(e) by {
                    lemma_take_step(model, i as int, e.0);
                    if self.unique {
                        if before_set.contains(e) && e.0 == key && e != (key, id) {
                            // a pair under this key is ours, or there was a conflict
                            if old(db)@.contains(e) {
                                assert(model.contains(key));
                                assert(self.conflicts_with(old(db)@, id, object@, e.1));
                            }
                        }
                        assert(db.set().contains(e) <==> (e == (key, id) || (
                        before_set.contains(e) && e.0 != key)));
                    } else {
                        assert(db.set().contains(e) <==> (e == (key, id) || before_set.contains(e)));
                    }
                }
                assert(db.set() =~= old(db).set().union(entries_for(model.take(i + 1), id)));
            }
            i += 1;
        }
        assert(model.take(i as int) =~= model);
        Ok(())
    }

    /// Removes what `create_for_object` filed for the object under the id key.
    pub fn delete_for_object(&self, db: &mut Db, id_key: &IntKey, object: &[u8])
        requires
            self.wf(),
            self.stores_in(old(db)),
            self.readable(object@),
        ensures
            self.stores_in(final(db)),
            final(db).set() == old(db).set().difference(
                entries_for(self.spec_keys(object@), id_key.spec_bytes()),
            ),
    {
        let ghost model = self.spec_keys(object@);
        let ghost id = id_key.spec_bytes();
        let keys = IndexKeyBuilder::new(&self.properties).create_keys(object);
        let id_bytes = id_key.as_bytes();
        let mut i: usize = 0;
        assert(db.set() =~= old(db).set().difference(entries_for(model.take(0), id)));
        while i < keys.len()
            invariant
                i <= keys.len(),
                self.stores_in(db),
                model == self.spec_keys(object@),
                id == id_key.spec_bytes(),
                id_bytes@ == id,
                keys.len() == model.len(),
                forall|k: int| 0 <= k < keys.len() ==> (#[trigger] keys[k])@ == model[k],
                db.set() == old(db).set().difference(entries_for(model.take(i as int), id)),
            decreases keys.len() - i,
        {
            let ghost before_set = db.set();
            let ghost key = model[i as int];
            db.delete_pair(keys[i].as_bytes(), id_bytes.as_slice());
            proof {
                assert forall|e: Pair| db.set().contains(e) == old(db).set().difference(
                    entries_for(model.take(i + 1), id),
                ).contains(e) by {
                    lemma_take_step(model, i as int, e.0);
                    assert(db.set().contains(e) <==> (before_set.contains(e) && e != (key, id)));
                }
                assert(db.set() =~= old(db).set().difference(entries_for(model.take(i + 1), id)));
            }
            i += 1;
        }
        assert(model.take(i as int) =~= model);
    }

    /// The id keys filed between two keys, in the order of the scan.
    pub fn iter_between(
        &self,
        db: &Db,
        lower_key: &IndexKey,
        upper_key: &IndexKey,
        skip_duplicates: bool,
        ascending: bool,
    ) -> (r: Result<Vec<IntKey>, IsarError>)
        ensures
            ({
                let hits = spec_scan(db@, lower_key@, upper_key@, skip_duplicates, ascending);
                &&& r is Ok <==> forall|i: int| 0 <= i < hits.len() ==> (#[trigger] hits[i]).1.len() == 10
                &&& r matches Err(e) ==> e is DbCorrupted
                &&& r matches Ok(ids) ==> ids.len() == hits.len() && forall|i: int|
                    0 <= i < ids.len() ==> (#[trigger] ids[i]).spec_bytes() == hits[i].1
            }),
    {
        let entries = db.scan(lower_key.as_bytes(), upper_key.as_bytes(), skip_duplicates, ascending);
        let ghost hits = spec_scan(db@, lower_key@, upper_key@, skip_duplicates, ascending);
        proof {
            assert forall|i: int| 0 <= i < entries.len() implies (#[trigger] entries[i]).val@
                == hits[i].1 by {
                assert(crate::store::pairs_of(entries@)[i] == entries[i].pair());
            }
            assert(entries.len() == hits.len());
            if forall|i: int| 0 <= i < hits.len() ==> (#[trigger] hits[i]).1.len() == 10 {
                assert forall|i: int| 0 <= i < entries.len() implies (#[trigger] entries[i]).val@.len()
                    == 10 by {
                    assert(hits[i].1.len() == 10);
                }
            }
            if forall|i: int| 0 <= i < entries.len() ==> (#[trigger] entries[i]).val@.len() == 10 {
                assert forall|i: int| 0 <= i < hits.len() implies (#[trigger] hits[i]).1.len() == 10 by {
                    assert(entries[i].val@.len() == 10);
                }
            }
        }
        decode_ids(&entries)
    }

    /// The id key filed first under `key`, if there is one: what a scan
    /// from `key` to `key` meets first. The call fails only where that
    /// first value does not spell an id key. In an index that holds one
    /// value per key, a key filed under an id gives that id.
    pub fn get_id(&self, db: &Db, key: &IndexKey) -> (r: Result<Option<IntKey>, IsarError>)
        requires
            db.wf(),
        ensures
            ({
                let hits = spec_scan(db@, key@, key@, false, true);
                &&& r is Ok <==> (hits.len() > 0 ==> hits[0].1.len() == 10)
                &&& r matches Ok(found) ==> (found is Some <==> hits.len() > 0)
                &&& r matches Ok(Some(id)) ==> id.spec_bytes() == hits[0].1
                &&& r matches Err(e) ==> e is DbCorrupted
            }),
            !db.has_key(key@) ==> r == Ok::<Option<IntKey>, IsarError>(None),
            r matches Ok(Some(id)) ==> db@.contains((key@, id.spec_bytes())),
            r matches Ok(None) ==> !db.has_key(key@),
            !db.allows_dup() ==> forall|id: IntKey|
                db@.contains((key@, #[trigger] id.spec_bytes())) ==> r == Ok::<
                    Option<IntKey>,
                    IsarError,
                >(Some(id)),
    {
        proof {
            crate::store::lemma_scan_some(db@, key@);
        }
        match db.get(key.as_bytes()) {
            None => Ok(None),
            Some(v) => {
                proof {
                    crate::store::lemma_scan_first(db@, key@, v@);
                    assert forall|id: IntKey|
                        !db.allows_dup() && db@.contains(
                            (key@, #[trigger] id.spec_bytes()),
                        ) implies id.spec_bytes() == v@ by {
                        db.lemma_one_value(key@, v@, id.spec_bytes());
                    }
                }
                match IntKey::from_bytes(v) {
                    Some(id) => Ok(Some(id)),
                    None => Err(
                        IsarError::DbCorrupted { message: "Malformed id in index.".to_string() },
                    ),
                }
            },
        }
    }

    /// Removes every pair of the index.
    pub fn clear(&self, db: &mut Db)
        requires
            self.stores_in(old(db)),
        ensures
            self.stores_in(final(db)),
            final(db)@ == Seq::<Pair>::empty(),
    {
        db.clear();
    }

    /// Every pair of the index.
    pub fn debug_dump(&self, db: &Db) -> (set: DumpSet)
        ensures
            dump_entries(set) == db.set(),
    {
        let set = db.dump(None);
        assert(dump_entries(set) =~= db.set());
        set
    }

    /// The first key under which the index files `object`.
    pub fn debug_create_key(&self, object: &[u8]) -> (key: Vec<u8>)
        requires
            self.wf(),
            self.readable(object@),
            self.spec_keys(object@).len() > 0,
        ensures
            key@ == self.spec_keys(object@)[0],
    {
        let keys = IndexKeyBuilder::new(&self.properties).create_keys(object);
        crate::order::copy_bytes(keys[0].as_bytes())
    }
}

} // verus!
